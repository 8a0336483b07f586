use bash_utils::error::{AccessFailure, CommandError};
use bash_utils::listing::{DirectoryEntry, ListingOptions};
use bash_utils::ls::{keep_readable, list_entries, ls, Lookup, LsArgs, PathProbe};
use either::Either;

const NOW: i128 = 1_700_000_000_000_000_000;

fn entry(name: &str, modified: Option<i128>) -> DirectoryEntry {
    DirectoryEntry { name: name.as_bytes().to_vec(), modified }
}

fn child(name: &str, modified: Option<i128>) -> Option<DirectoryEntry> {
    Some(entry(name, modified))
}

fn args(path: &str, almost_all: bool, time: bool) -> LsArgs {
    LsArgs { almost_all, time, path: path.as_bytes().to_vec() }
}

fn sample_directory() -> PathProbe {
    PathProbe::Directory(vec![
        child("a.txt", Some(300)),
        child(".hidden", Some(200)),
        child("b.txt", Some(100)),
    ])
}

fn names_of(result: Result<Either<Vec<String>, String>, CommandError>) -> Vec<String> {
    match result {
        Ok(Either::Left(names)) => names,
        other => panic!("expected the names of a directory, got {:?}", other),
    }
}

#[test]
fn directory_without_hidden_entries() {
    let names = names_of(ls(args("dir", false, false), sample_directory(), NOW));
    assert_eq!(names, vec!["a.txt".to_string(), "b.txt".to_string()]);
}

#[test]
fn directory_with_hidden_entries() {
    let names = names_of(ls(args("dir", true, false), sample_directory(), NOW));
    assert_eq!(names, vec![".hidden".to_string(), "a.txt".to_string(), "b.txt".to_string()]);
}

#[test]
fn file_is_listed_by_its_name_whatever_the_flags() {
    for almost_all in [false, true] {
        for time in [false, true] {
            let result = ls(args("notes.txt", almost_all, time), PathProbe::File, NOW);
            assert_eq!(result, Ok(Either::Right("notes.txt".to_string())));
        }
    }
}

#[test]
fn file_in_a_directory_is_listed_by_its_final_component() {
    let result = ls(args("/home/user/docs/notes.txt", false, false), PathProbe::File, NOW);
    assert_eq!(result, Ok(Either::Right("notes.txt".to_string())));
    let result = ls(args("docs/./notes.txt/", true, true), PathProbe::File, 0);
    assert_eq!(result, Ok(Either::Right("notes.txt".to_string())));
}

#[test]
fn missing_path_is_not_found() {
    let result = ls(
        args("/no/such/dir", false, false),
        PathProbe::Unresolved(AccessFailure::Missing),
        NOW,
    );
    assert_eq!(result, Err(CommandError::NotFound(b"/no/such/dir".to_vec())));
}

#[test]
fn forbidden_path_is_permission_denied() {
    let result =
        ls(args("/root/secret", false, false), PathProbe::Unresolved(AccessFailure::Denied), NOW);
    assert_eq!(result, Err(CommandError::PermissionDenied(b"/root/secret".to_vec())));
}

#[test]
fn refused_enumeration_is_an_error() {
    let result =
        ls(args("/root", true, false), PathProbe::Unlistable(AccessFailure::Denied), NOW);
    assert_eq!(result, Err(CommandError::PermissionDenied(b"/root".to_vec())));
    let result =
        ls(args("/dev/null", false, true), PathProbe::Unlistable(AccessFailure::Missing), NOW);
    assert_eq!(result, Err(CommandError::NotFound(b"/dev/null".to_vec())));
}

#[test]
fn file_whose_name_is_not_text_is_invalid() {
    let path = LsArgs { almost_all: false, time: false, path: vec![b'd', b'/', 0xff, 0xfe] };
    assert_eq!(ls(path, PathProbe::File, NOW), Err(CommandError::InvalidFileName));
}

#[test]
fn file_path_without_a_final_component_is_invalid() {
    for path in ["", "/", "..", "a/..", ".", "./", "//."] {
        let result = ls(args(path, false, false), PathProbe::File, NOW);
        assert_eq!(result, Err(CommandError::InvalidFileName), "path {:?}", path);
    }
}

#[test]
fn empty_directory_lists_nothing() {
    let names = names_of(ls(args(".", true, true), PathProbe::Directory(Vec::new()), NOW));
    assert_eq!(names, Vec::<String>::new());
}

#[test]
fn directory_of_hidden_entries_only_lists_nothing_by_default() {
    let probe = PathProbe::Directory(vec![child(".git", Some(1)), child(".env", None)]);
    let names = names_of(ls(args(".", false, false), probe, NOW));
    assert_eq!(names, Vec::<String>::new());
}

#[test]
fn names_ascend_by_their_bytes() {
    let probe = PathProbe::Directory(vec![
        child("b", None),
        child("a", None),
        child("B", None),
        child("ab", None),
        child("", None),
        child("a.txt", None),
        child("é", None),
        child("z", None),
        child("10", None),
        child("9", None),
    ]);
    let names = names_of(ls(args(".", false, false), probe, NOW));
    assert_eq!(names, vec!["", "10", "9", "B", "a", "a.txt", "ab", "b", "z", "é"]);
}

#[test]
fn unreadable_children_are_passed_over() {
    let probe = PathProbe::Directory(vec![
        None,
        child("two", Some(2)),
        None,
        child("one", Some(1)),
        None,
    ]);
    let names = names_of(ls(args(".", false, false), probe, NOW));
    assert_eq!(names, vec!["one", "two"]);
}

#[test]
fn keep_readable_keeps_the_order_of_the_read() {
    let kept =
        keep_readable(vec![None, child("x", None), child("a", Some(5)), None, child("m", None)]);
    assert_eq!(kept, vec![entry("x", None), entry("a", Some(5)), entry("m", None)]);
    assert_eq!(keep_readable(Vec::new()), Vec::new());
    assert_eq!(keep_readable(vec![None, None]), Vec::new());
}

#[test]
fn name_that_is_not_text_is_shown_empty() {
    let probe = PathProbe::Directory(vec![
        child("b", None),
        Some(DirectoryEntry { name: vec![b'a', 0xff], modified: None }),
        child("a", None),
    ]);
    let names = names_of(ls(args(".", false, false), probe, NOW));
    assert_eq!(names, vec!["a", "", "b"]);
}

#[test]
fn hidden_name_that_is_not_text_is_hidden() {
    let children = || {
        vec![
            Some(DirectoryEntry { name: vec![b'.', 0xff], modified: None }),
            child("shown", None),
        ]
    };
    let names = names_of(ls(args(".", false, false), PathProbe::Directory(children()), NOW));
    assert_eq!(names, vec!["shown"]);
    let names = names_of(ls(args(".", true, false), PathProbe::Directory(children()), NOW));
    assert_eq!(names, vec!["", "shown"]);
}

#[test]
fn dot_and_dot_dot_are_hidden_like_any_dotfile() {
    let children = || vec![child("..", None), child("x", None), child(".", None)];
    let names = names_of(ls(args("d", false, false), PathProbe::Directory(children()), NOW));
    assert_eq!(names, vec!["x"]);
    let names = names_of(ls(args("d", true, false), PathProbe::Directory(children()), NOW));
    assert_eq!(names, vec![".", "..", "x"]);
}

#[test]
fn listing_by_time_puts_the_latest_first() {
    let probe = PathProbe::Directory(vec![
        child("old", Some(100)),
        child("new", Some(300)),
        child(".dot", Some(400)),
        child("mid", Some(200)),
        child("before_epoch", Some(-5)),
    ]);
    let names = names_of(ls(args(".", false, true), probe, NOW));
    assert_eq!(names, vec!["new", "mid", "old", "before_epoch"]);
}

#[test]
fn listing_by_time_with_hidden_entries() {
    let probe = PathProbe::Directory(vec![
        child("old", Some(100)),
        child("new", Some(300)),
        child(".dot", Some(400)),
    ]);
    let names = names_of(ls(args(".", true, true), probe, NOW));
    assert_eq!(names, vec![".dot", "new", "old"]);
}

#[test]
fn entry_without_a_time_counts_as_modified_now() {
    let children = || {
        vec![
            child("past", Some(NOW - 1)),
            child("unknown", None),
            child("future", Some(NOW + 1)),
            child("present", Some(NOW)),
            child("unknown_too", None),
        ]
    };
    let names = names_of(ls(args(".", false, true), PathProbe::Directory(children()), NOW));
    assert_eq!(names, vec!["future", "unknown", "present", "unknown_too", "past"]);
    let names = names_of(ls(args(".", false, true), PathProbe::Directory(children()), NOW - 10));
    assert_eq!(names, vec!["future", "present", "past", "unknown", "unknown_too"]);
}

#[test]
fn equal_times_keep_the_order_of_the_read() {
    let probe = PathProbe::Directory(vec![
        child("c", Some(7)),
        child("a", Some(7)),
        child("d", Some(9)),
        child("b", Some(7)),
    ]);
    let names = names_of(ls(args(".", false, true), probe, NOW));
    assert_eq!(names, vec!["d", "c", "a", "b"]);
}

#[test]
fn equal_names_keep_the_order_of_the_read() {
    let entries = vec![entry("same", Some(1)), entry("same", Some(2)), entry("other", Some(3))];
    let options = ListingOptions { show_hidden: false, sort_by_time: false };
    assert_eq!(list_entries(&entries, options, NOW), vec!["other", "same", "same"]);
}

#[test]
fn listing_again_gives_the_same() {
    for almost_all in [false, true] {
        for time in [false, true] {
            let first = ls(args("dir", almost_all, time), sample_directory(), NOW);
            let second = ls(args("dir", almost_all, time), sample_directory(), NOW);
            assert_eq!(first, second);
        }
    }
}

#[test]
fn listing_by_name_does_not_depend_on_the_time() {
    let children = || vec![child("b", None), child("a", Some(3)), child("c", None)];
    let early = ls(args("dir", true, false), PathProbe::Directory(children()), 0);
    let late = ls(args("dir", true, false), PathProbe::Directory(children()), NOW);
    assert_eq!(early, late);
}

#[test]
fn list_entries_follows_the_options() {
    let entries = vec![entry("b", Some(1)), entry(".a", Some(3)), entry("c", Some(2))];
    let plain = ListingOptions::default();
    assert_eq!(plain, ListingOptions { show_hidden: false, sort_by_time: false });
    assert_eq!(list_entries(&entries, plain, NOW), vec!["b", "c"]);
    let all = ListingOptions { show_hidden: true, sort_by_time: false };
    assert_eq!(list_entries(&entries, all, NOW), vec![".a", "b", "c"]);
    let by_time = ListingOptions { show_hidden: false, sort_by_time: true };
    assert_eq!(list_entries(&entries, by_time, NOW), vec!["c", "b"]);
    let all_by_time = ListingOptions { show_hidden: true, sort_by_time: true };
    assert_eq!(list_entries(&entries, all_by_time, NOW), vec![".a", "c", "b"]);
}

#[test]
fn large_directory_is_listed_as_a_stable_sort_lists_it() {
    let mut entries = Vec::new();
    let mut seed: u64 = 0x2545_f491_4f6c_dd1d;
    for _ in 0..1000 {
        seed ^= seed << 13;
        seed ^= seed >> 7;
        seed ^= seed << 17;
        let name = format!("f{}", seed % 200);
        let modified = if seed % 7 == 0 { None } else { Some(((seed >> 8) % 50) as i128) };
        entries.push(DirectoryEntry { name: name.into_bytes(), modified });
    }
    let now: i128 = 25;
    let options = ListingOptions { show_hidden: true, sort_by_time: false };
    let mut by_name: Vec<&DirectoryEntry> = entries.iter().collect();
    by_name.sort_by(|a, b| a.name.cmp(&b.name));
    let expected: Vec<String> =
        by_name.iter().map(|e| String::from_utf8(e.name.clone()).unwrap()).collect();
    assert_eq!(list_entries(&entries, options, now), expected);

    let options = ListingOptions { show_hidden: true, sort_by_time: true };
    let mut by_time: Vec<&DirectoryEntry> = entries.iter().collect();
    by_time.sort_by(|a, b| b.modified.unwrap_or(now).cmp(&a.modified.unwrap_or(now)));
    let expected: Vec<String> =
        by_time.iter().map(|e| String::from_utf8(e.name.clone()).unwrap()).collect();
    assert_eq!(list_entries(&entries, options, now), expected);
}

#[test]
fn default_arguments_are_empty() {
    let args = LsArgs::default();
    assert!(!args.almost_all);
    assert!(!args.time);
    assert!(args.path.is_empty());
    assert_eq!(args.options(), ListingOptions::default());
    let flagged = LsArgs { almost_all: true, time: true, path: Vec::new() };
    assert_eq!(flagged.options(), ListingOptions { show_hidden: true, sort_by_time: true });
}

#[test]
fn lookup_settles_files_and_failures() {
    assert_eq!(PathProbe::settled(Lookup::File), Some(PathProbe::File));
    assert_eq!(
        PathProbe::settled(Lookup::Failed(AccessFailure::Missing)),
        Some(PathProbe::Unresolved(AccessFailure::Missing))
    );
    assert_eq!(
        PathProbe::settled(Lookup::Failed(AccessFailure::Denied)),
        Some(PathProbe::Unresolved(AccessFailure::Denied))
    );
    assert_eq!(PathProbe::settled(Lookup::Other), None);
}

#[test]
fn enumeration_completes_the_probe() {
    assert_eq!(
        PathProbe::enumerated(Err(AccessFailure::Denied)),
        PathProbe::Unlistable(AccessFailure::Denied)
    );
    assert_eq!(
        PathProbe::enumerated(Ok(vec![None, child("a", Some(1))])),
        PathProbe::Directory(vec![None, child("a", Some(1))])
    );
    let probe = PathProbe::enumerated(Ok(vec![child("b", None), None, child("a", None)]));
    assert_eq!(names_of(ls(args("d", false, false), probe, NOW)), vec!["a", "b"]);
}
