use bash_utils::cat::{cat, CatArgs};
use bash_utils::error::{AccessFailure, CommandError};
use bash_utils::head::{head, HeadArgs};
use bash_utils::lines::split_lines;
use bash_utils::tail::{tail, TailArgs};

fn head_of(text: &str, number: usize) -> Vec<String> {
    head(HeadArgs { path: b"file".to_vec(), number }, Ok(text.to_string())).unwrap()
}

fn tail_of(text: &str, number: usize) -> Vec<String> {
    tail(TailArgs { path: b"file".to_vec(), number }, Ok(text.to_string())).unwrap()
}

#[test]
fn lines_end_at_line_feeds() {
    assert_eq!(split_lines("one\ntwo\nthree\n", None), vec!["one", "two", "three"]);
    assert_eq!(split_lines("one\ntwo\nthree", None), vec!["one", "two", "three"]);
    assert_eq!(split_lines("", None), Vec::<String>::new());
    assert_eq!(split_lines("\n", None), vec![""]);
    assert_eq!(split_lines("\n\n", None), vec!["", ""]);
    assert_eq!(split_lines("a", None), vec!["a"]);
    assert_eq!(split_lines("a\n\nb", None), vec!["a", "", "b"]);
}

#[test]
fn carriage_return_before_a_line_feed_is_dropped() {
    assert_eq!(split_lines("foo\r\nbar\r\n", None), vec!["foo", "bar"]);
    assert_eq!(split_lines("foo\nbar\n\r\nbaz\r", None), vec!["foo", "bar", "", "baz\r"]);
    assert_eq!(split_lines("a\rb\n", None), vec!["a\rb"]);
    assert_eq!(split_lines("a\r\r\n", None), vec!["a\r"]);
    assert_eq!(split_lines("\r", None), vec!["\r"]);
    assert_eq!(split_lines("\r\n", None), vec![""]);
    assert_eq!(split_lines("\r\r", None), vec!["\r\r"]);
    assert_eq!(split_lines("x\r\ny\r", None), vec!["x", "y\r"]);
}

#[test]
fn lines_agree_with_the_lines_of_the_standard_library() {
    let texts = [
        "",
        "\n",
        "\r",
        "\r\n",
        "a\nb",
        "a\r\nb\r\n",
        "a\r\r\nb",
        "\n\n\n",
        "no line feed",
        "tab\there\nünïcödé\r\n😀\n\r\r\n\rlast\r",
        "\r\n\r\n",
        "x\n\ry\n",
    ];
    for text in texts {
        let expected: Vec<String> = text.lines().map(|line| line.to_owned()).collect();
        assert_eq!(split_lines(text, None), expected, "text {:?}", text);
        for limit in 0..6 {
            let expected: Vec<String> =
                text.lines().take(limit).map(|line| line.to_owned()).collect();
            assert_eq!(split_lines(text, Some(limit)), expected, "text {:?}", text);
        }
    }
}

#[test]
fn split_lines_stops_at_the_limit() {
    assert_eq!(split_lines("a\nb\nc\n", Some(2)), vec!["a", "b"]);
    assert_eq!(split_lines("a\nb\nc\n", Some(3)), vec!["a", "b", "c"]);
    assert_eq!(split_lines("a\nb\nc", Some(3)), vec!["a", "b", "c"]);
    assert_eq!(split_lines("a\nb\nc", Some(4)), vec!["a", "b", "c"]);
    assert_eq!(split_lines("a\nb\nc", Some(0)), Vec::<String>::new());
    assert_eq!(split_lines("a\nb\nc", Some(usize::MAX)), vec!["a", "b", "c"]);
}

#[test]
fn head_gives_the_first_lines() {
    let text = "1\n2\n3\n4\n5\n6\n7\n8\n9\n10\n11\n12\n";
    assert_eq!(head_of(text, 10), vec!["1", "2", "3", "4", "5", "6", "7", "8", "9", "10"]);
    assert_eq!(head_of(text, 1), vec!["1"]);
    assert_eq!(head_of(text, 0), Vec::<String>::new());
    assert_eq!(head_of(text, 12).len(), 12);
    assert_eq!(head_of(text, 100).len(), 12);
    assert_eq!(head_of("", 3), Vec::<String>::new());
    assert_eq!(head_of("only\r\n", 3), vec!["only"]);
}

#[test]
fn tail_gives_the_last_lines_in_their_order() {
    let text = "1\n2\n3\n4\n5\n6\n7\n8\n9\n10\n11\n12";
    assert_eq!(tail_of(text, 10), vec!["3", "4", "5", "6", "7", "8", "9", "10", "11", "12"]);
    assert_eq!(tail_of(text, 1), vec!["12"]);
    assert_eq!(tail_of(text, 0), Vec::<String>::new());
    assert_eq!(tail_of(text, 12).len(), 12);
    assert_eq!(tail_of(text, usize::MAX).len(), 12);
    assert_eq!(tail_of("", 3), Vec::<String>::new());
    assert_eq!(tail_of("a\r\nb\r\n", 1), vec!["b"]);
    assert_eq!(tail_of("a\nb\r", 2), vec!["a", "b\r"]);
}

#[test]
fn cat_gives_the_text_as_it_was_read() {
    let text = "one\r\ntwo\n\nthree";
    let result = cat(CatArgs { path: b"file".to_vec() }, Ok(text.to_string()));
    assert_eq!(result, Ok(text.to_string()));
    assert_eq!(cat(CatArgs { path: Vec::new() }, Ok(String::new())), Ok(String::new()));
}

#[test]
fn unread_file_is_an_error_with_its_path() {
    let path = b"/no/such/file".to_vec();
    assert_eq!(
        head(HeadArgs { path: path.clone(), number: 10 }, Err(AccessFailure::Missing)),
        Err(CommandError::NotFound(path.clone()))
    );
    assert_eq!(
        tail(TailArgs { path: path.clone(), number: 10 }, Err(AccessFailure::Denied)),
        Err(CommandError::PermissionDenied(path.clone()))
    );
    assert_eq!(
        cat(CatArgs { path: path.clone() }, Err(AccessFailure::Missing)),
        Err(CommandError::NotFound(path.clone()))
    );
    assert_eq!(
        cat(CatArgs { path: path.clone() }, Err(AccessFailure::Denied)),
        Err(CommandError::PermissionDenied(path))
    );
}
