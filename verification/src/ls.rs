//! Listing a path: the name of a file, or the names of the children of a
//! directory.
//!
//! The file system is asked elsewhere. What it answered comes in as a
//! [`PathProbe`], and the time that stands in for a missing time of
//! modification comes in as `now`, so a listing is a function of its
//! arguments.

use vstd::prelude::*;
use either::Either;
use crate::error::{refusal, AccessFailure, CommandError, ErrorModel};
use crate::listing::{
    is_listed, is_listing_order, lemma_listing_order_unique, listed_names, listing_order, models,
    names_along, DirectoryEntry, EntryModel, ListingOptions,
};
use crate::path::{final_component, find_final_component};
use crate::raw::name_is_hidden;
use crate::sort::{holds_between, places, sort_places};
use crate::text::{shown_name, shown_text, text_of, texts, to_text};

verus! {

/// `either::Either`, the sum of a left and a right value in which a listing
/// is handed out. The enum is declared to Verus as the crate defines it,
/// with its two variants `Left` and `Right`; nothing more is claimed of it.
#[verifier::external_type_specification]
pub struct ExEither<L, R>(Either<L, R>);

/// What to list, and how.
#[derive(Debug)]
pub struct LsArgs {
    /// List the entries whose names begin with a full stop too.
    pub almost_all: bool,
    /// Order by time of modification, latest first.
    pub time: bool,
    /// The path to list, as raw bytes.
    pub path: Vec<u8>,
}

impl Default for LsArgs {
    /// No flag is set and the path is empty.
    fn default() -> (args: LsArgs)
        ensures
            !args.almost_all,
            !args.time,
            args.path@ == Seq::<u8>::empty(),
    {
        LsArgs { almost_all: false, time: false, path: Vec::new() }
    }
}

impl LsArgs {
    /// The options that the flags stand for.
    pub open spec fn listing_options(&self) -> ListingOptions {
        ListingOptions { show_hidden: self.almost_all, sort_by_time: self.time }
    }

    /// The options that the flags stand for.
    pub fn options(&self) -> (options: ListingOptions)
        ensures
            options == self.listing_options(),
    {
        ListingOptions { show_hidden: self.almost_all, sort_by_time: self.time }
    }
}

/// What the file system answered when it was asked about a path.
#[derive(Debug, PartialEq, Eq)]
pub enum PathProbe {
    /// The path could not be resolved.
    Unresolved(AccessFailure),
    /// The path names a regular file.
    File,
    /// The path names something other than a regular file, and its children
    /// could not be enumerated.
    Unlistable(AccessFailure),
    /// The path names a directory. Its children stand in the order in which
    /// the directory read gave them; `None` stands for a child that could
    /// not be read.
    Directory(Vec<Option<DirectoryEntry>>),
}

/// A [`PathProbe`] as a mathematical value.
pub enum ProbeModel {
    Unresolved(AccessFailure),
    File,
    Unlistable(AccessFailure),
    Directory(Seq<Option<EntryModel>>),
}

/// The children of a directory as mathematical values, place by place.
pub open spec fn child_models(children: Seq<Option<DirectoryEntry>>) -> Seq<Option<EntryModel>> {
    Seq::new(
        children.len(),
        |i: int|
            match children[i] {
                Some(entry) => Some(entry@),
                None => None,
            },
    )
}

impl View for PathProbe {
    type V = ProbeModel;

    open spec fn view(&self) -> ProbeModel {
        match self {
            PathProbe::Unresolved(failure) => ProbeModel::Unresolved(*failure),
            PathProbe::File => ProbeModel::File,
            PathProbe::Unlistable(failure) => ProbeModel::Unlistable(*failure),
            PathProbe::Directory(children) => ProbeModel::Directory(child_models(children@)),
        }
    }
}

/// What the file system said of the path itself, before any of its children
/// were asked for.
#[derive(Debug, Clone, Copy, PartialEq, Eq, Structural)]
pub enum Lookup {
    /// The path could not be resolved.
    Failed(AccessFailure),
    /// The path names a regular file.
    File,
    /// The path names something else.
    Other,
}

/// The probe that a lookup settles without the children of the path: a
/// failed lookup and a regular file need none, anything else has to be
/// enumerated.
pub open spec fn settled_by(lookup: Lookup) -> Option<ProbeModel> {
    match lookup {
        Lookup::Failed(failure) => Some(ProbeModel::Unresolved(failure)),
        Lookup::File => Some(ProbeModel::File),
        Lookup::Other => None,
    }
}

/// The probe that an enumeration of the children completes.
pub open spec fn completed_by(
    children: Result<Vec<Option<DirectoryEntry>>, AccessFailure>,
) -> ProbeModel {
    match children {
        Ok(children) => ProbeModel::Directory(child_models(children@)),
        Err(failure) => ProbeModel::Unlistable(failure),
    }
}

impl PathProbe {
    /// Decides from the lookup whether the children of the path have to be
    /// asked for: gives the probe where they do not, and `None` where they
    /// do.
    pub fn settled(lookup: Lookup) -> (probe: Option<PathProbe>)
        ensures
            probe is Some <==> settled_by(lookup) is Some,
            probe matches Some(p) ==> Some(p@) == settled_by(lookup),
    {
        match lookup {
            Lookup::Failed(failure) => Some(PathProbe::Unresolved(failure)),
            Lookup::File => Some(PathProbe::File),
            Lookup::Other => None,
        }
    }

    /// The probe of a path that is no regular file, from what enumerating
    /// its children gave.
    pub fn enumerated(children: Result<Vec<Option<DirectoryEntry>>, AccessFailure>) -> (probe:
        PathProbe)
        ensures
            probe@ == completed_by(children),
    {
        match children {
            Ok(children) => PathProbe::Directory(children),
            Err(failure) => PathProbe::Unlistable(failure),
        }
    }
}

/// What a listing shows, as a mathematical value.
pub enum Listing {
    /// The name of the one file that the path names.
    Single(Seq<char>),
    /// The names of the children of the directory that the path names.
    Many(Seq<Seq<char>>),
}

/// What a listing shows: the left side holds the names of a directory's
/// children, the right side the name of a file.
pub open spec fn listing_of(shown: Either<Vec<String>, String>) -> Listing {
    match shown {
        Either::Left(names) => Listing::Many(texts(names@)),
        Either::Right(name) => Listing::Single(name@),
    }
}

/// The result of a listing as a mathematical value.
pub open spec fn outcome_of(result: Result<Either<Vec<String>, String>, CommandError>) -> Result<
    Listing,
    ErrorModel,
> {
    match result {
        Ok(shown) => Ok(listing_of(shown)),
        Err(error) => Err(error@),
    }
}

/// The children that could be read, in the order in which they were read.
pub open spec fn readable(children: Seq<Option<EntryModel>>) -> Seq<EntryModel>
    decreases children.len(),
{
    if children.len() == 0 {
        Seq::empty()
    } else {
        match children.last() {
            Some(entry) => readable(children.drop_last()).push(entry),
            None => readable(children.drop_last()),
        }
    }
}

/// The listing of a path that names a regular file: the text of its final
/// component. A path without a final component, or with one that is not
/// text, has no listing.
pub open spec fn file_outcome(path: Seq<u8>) -> Result<Listing, ErrorModel> {
    match final_component(path) {
        Some(name) => match text_of(name) {
            Some(text) => Ok(Listing::Single(text)),
            None => Err(ErrorModel::InvalidFileName),
        },
        None => Err(ErrorModel::InvalidFileName),
    }
}

/// The listing of `path`, given what the file system answered about it.
///
/// A refusal gives the error that it stands for, with the path. A regular
/// file gives its own name. A directory gives the names of its readable
/// children, as `options` and `now` list them.
pub open spec fn ls_outcome(
    path: Seq<u8>,
    options: ListingOptions,
    probe: ProbeModel,
    now: int,
) -> Result<Listing, ErrorModel> {
    match probe {
        ProbeModel::Unresolved(failure) => Err(refusal(failure, path)),
        ProbeModel::File => file_outcome(path),
        ProbeModel::Unlistable(failure) => Err(refusal(failure, path)),
        ProbeModel::Directory(children) => Ok(
            Listing::Many(listed_names(readable(children), options, now)),
        ),
    }
}

/// Drops the children that could not be read and keeps the others in their
/// order.
pub fn keep_readable(children: Vec<Option<DirectoryEntry>>) -> (entries: Vec<DirectoryEntry>)
    ensures
        models(entries@) == readable(child_models(children@)),
{
    let mut entries: Vec<DirectoryEntry> = Vec::new();
    let ghost all = children@;
    let ghost given = child_models(all);
    assert(models(entries@) =~= readable(given.take(0)));
    for child in it: children
        invariant
            it.seq() == all,
            given == child_models(all),
            models(entries@) == readable(given.take(it.index())),
    {
        let ghost before = models(entries@);
        proof {
            let upto = given.take(it.index() + 1);
            assert(upto.drop_last() =~= given.take(it.index()));
        }
        match child {
            Some(entry) => {
                entries.push(entry);
                assert(models(entries@) =~= before.push(entry@));
            },
            None => {},
        }
    }
    assert(given.take(all.len() as int) =~= given);
    entries
}

/// Lists the entries of a directory: the shown names of the entries that
/// the options admit, by name, or latest first where the options ask for
/// it, with `now` as the time of an entry that has none.
pub fn list_entries(entries: &Vec<DirectoryEntry>, options: ListingOptions, now: i128) -> (names:
    Vec<String>)
    ensures
        texts(names@) == listed_names(models(entries@), options, now as int),
{
    let ghost model = models(entries@);
    let mut visible: Vec<usize> = Vec::new();
    let mut i: usize = 0;
    while i < entries.len()
        invariant
            i <= entries@.len(),
            model == models(entries@),
            forall|k: int|
                0 <= k < visible@.len() ==> #[trigger] visible@[k] < i && is_listed(
                    model[visible@[k] as int],
                    options,
                ),
            forall|a: int, b: int|
                0 <= a < b < visible@.len() ==> #[trigger] visible@[a] < #[trigger] visible@[b],
            forall|p: int|
                0 <= p < i && is_listed(#[trigger] model[p], options) ==> holds_between(
                    visible@,
                    0,
                    visible@.len() as int,
                    p as usize,
                ),
        decreases entries@.len() - i,
    {
        let ghost before = visible@;
        if options.show_hidden || !name_is_hidden(&entries[i].name) {
            visible.push(i);
        }
        proof {
            assert forall|p: int|
                0 <= p < i + 1 && is_listed(#[trigger] model[p], options) implies holds_between(
                visible@,
                0,
                visible@.len() as int,
                p as usize,
            ) by {
                if p < i {
                    let w = choose|w: int| 0 <= w < before.len() && before[w] == p as usize;
                    assert(visible@[w] == p as usize);
                } else {
                    assert(visible@[before.len() as int] == p as usize);
                }
            }
        }
        i = i + 1;
    }
    let sorted = sort_places(entries, options.sort_by_time, now, &visible, 0, visible.len());
    let ghost order = places(sorted@);
    proof {
        assert forall|k: int| 0 <= k < order.len() implies 0 <= #[trigger] order[k] < model.len()
            && is_listed(model[order[k]], options) by {
            assert(holds_between(sorted@, 0, sorted@.len() as int, sorted@[k]));
            let w = choose|w: int| 0 <= w < visible@.len() && visible@[w] == sorted@[k];
            assert(is_listed(model[visible@[w] as int], options));
        }
        assert forall|p: int| 0 <= p < model.len() && is_listed(#[trigger] model[p], options)
            implies order.contains(p) by {
            assert(holds_between(visible@, 0, visible@.len() as int, p as usize));
            let k = choose|k: int| 0 <= k < sorted@.len() && sorted@[k] == p as usize;
            assert(order[k] == p);
        }
        assert(is_listing_order(order, model, options, now as int));
        lemma_listing_order_unique(
            order,
            listing_order(model, options, now as int),
            model,
            options,
            now as int,
        );
    }
    let mut names: Vec<String> = Vec::new();
    let mut k: usize = 0;
    while k < sorted.len()
        invariant
            k <= sorted@.len(),
            names@.len() == k,
            model == models(entries@),
            order == places(sorted@),
            forall|t: int| 0 <= t < sorted@.len() ==> #[trigger] sorted@[t] < entries@.len(),
            forall|t: int|
                0 <= t < k ==> (#[trigger] names@[t])@ == shown_text(model[order[t]].name),
        decreases sorted@.len() - k,
    {
        let name = shown_name(&entries[sorted[k]].name);
        names.push(name);
        k = k + 1;
    }
    assert(texts(names@) =~= names_along(order, model));
    names
}

/// Lists a path.
///
/// A path that could not be resolved, or whose children could not be
/// enumerated, gives the error that the refusal stands for, with the path.
/// A regular file gives its own name, whatever the flags say. A directory
/// gives the names of its readable children as [`list_entries`] puts them.
pub fn ls(args: LsArgs, probe: PathProbe, now: i128) -> (result: Result<
    Either<Vec<String>, String>,
    CommandError,
>)
    ensures
        outcome_of(result) == ls_outcome(args.path@, args.listing_options(), probe@, now as int),
{
    match probe {
        PathProbe::Unresolved(failure) => Err(CommandError::refused(failure, args.path)),
        PathProbe::Unlistable(failure) => Err(CommandError::refused(failure, args.path)),
        PathProbe::File => {
            match find_final_component(&args.path) {
                Some(name) => match to_text(&name) {
                    Some(text) => Ok(Either::Right(text)),
                    None => Err(CommandError::InvalidFileName),
                },
                None => Err(CommandError::InvalidFileName),
            }
        },
        PathProbe::Directory(children) => {
            let options = args.options();
            let entries = keep_readable(children);
            let names = list_entries(&entries, options, now);
            Ok(Either::Left(names))
        },
    }
}

} // verus!
