//! What a listing of a directory is: which of its entries are listed, and in
//! which order.
//!
//! The entries are numbered by the place at which the directory read gave
//! them. A listing is a sequence of such places. Among entries with equal
//! keys the earlier place comes first, so the order of a listing is total
//! and there is exactly one listing of any directory.

use vstd::prelude::*;
use crate::raw::{
    is_hidden, lemma_sorts_before_asymmetric, lemma_sorts_before_total,
    lemma_sorts_before_transitive, sorts_before,
};
use crate::text::shown_text;

verus! {

/// One child of a directory, as the directory read gave it.
#[derive(Debug, PartialEq, Eq)]
pub struct DirectoryEntry {
    /// The raw name of the child.
    pub name: Vec<u8>,
    /// When the child was last modified, in nanoseconds since the Unix
    /// epoch; `None` where the file system would not say.
    pub modified: Option<i128>,
}

/// A [`DirectoryEntry`] as a mathematical value.
pub struct EntryModel {
    pub name: Seq<u8>,
    pub modified: Option<int>,
}

impl View for DirectoryEntry {
    type V = EntryModel;

    open spec fn view(&self) -> EntryModel {
        EntryModel {
            name: self.name@,
            modified: match self.modified {
                Some(t) => Some(t as int),
                None => None,
            },
        }
    }
}

impl Clone for DirectoryEntry {
    fn clone(&self) -> (copy: DirectoryEntry)
        ensures
            copy@ == self@,
    {
        DirectoryEntry { name: self.name.clone(), modified: self.modified }
    }
}

/// The entries of a directory as mathematical values, place by place.
pub open spec fn models(entries: Seq<DirectoryEntry>) -> Seq<EntryModel> {
    Seq::new(entries.len(), |i: int| entries[i]@)
}

/// How a directory is to be listed.
#[derive(Debug, Clone, Copy, PartialEq, Eq, Structural)]
pub struct ListingOptions {
    /// List hidden entries too.
    pub show_hidden: bool,
    /// Order by time of modification, latest first, in place of by name.
    pub sort_by_time: bool,
}

impl Default for ListingOptions {
    /// Hidden entries are left out, and the order is by name.
    fn default() -> (options: ListingOptions)
        ensures
            !options.show_hidden,
            !options.sort_by_time,
    {
        ListingOptions { show_hidden: false, sort_by_time: false }
    }
}

/// An entry is listed unless it is hidden and hidden entries were not asked
/// for.
pub open spec fn is_listed(entry: EntryModel, options: ListingOptions) -> bool {
    options.show_hidden || !is_hidden(entry.name)
}

/// The time by which an entry is ordered: that of its last modification, or
/// `now` where the file system would not say.
pub open spec fn effective_time(entry: EntryModel, now: int) -> int {
    match entry.modified {
        Some(t) => t,
        None => now,
    }
}

/// The key of `a` comes strictly before that of `b`: the later time where
/// the order is by time, the lesser name where it is by name.
pub open spec fn key_before(a: EntryModel, b: EntryModel, by_time: bool, now: int) -> bool {
    if by_time {
        effective_time(a, now) > effective_time(b, now)
    } else {
        sorts_before(a.name, b.name)
    }
}

/// `a` and `b` have the same key.
pub open spec fn key_same(a: EntryModel, b: EntryModel, by_time: bool, now: int) -> bool {
    if by_time {
        effective_time(a, now) == effective_time(b, now)
    } else {
        a.name == b.name
    }
}

/// The entry at place `i` is listed before the entry at place `j`: by its
/// key, and between equal keys by its place.
pub open spec fn precedes(
    entries: Seq<EntryModel>,
    by_time: bool,
    now: int,
    i: int,
    j: int,
) -> bool {
    ||| key_before(entries[i], entries[j], by_time, now)
    ||| (key_same(entries[i], entries[j], by_time, now) && i < j)
}

/// Each place in `order` precedes every later one.
pub open spec fn strictly_ordered(
    order: Seq<int>,
    entries: Seq<EntryModel>,
    by_time: bool,
    now: int,
) -> bool {
    forall|a: int, b: int|
        0 <= a < b < order.len() ==> precedes(
            entries,
            by_time,
            now,
            #[trigger] order[a],
            #[trigger] order[b],
        )
}

/// `order` is a listing of `entries`: it holds the places of the listed
/// entries, all of them, each before every place that it precedes.
pub open spec fn is_listing_order(
    order: Seq<int>,
    entries: Seq<EntryModel>,
    options: ListingOptions,
    now: int,
) -> bool {
    &&& forall|k: int|
        0 <= k < order.len() ==> 0 <= #[trigger] order[k] < entries.len() && is_listed(
            entries[order[k]],
            options,
        )
    &&& forall|i: int|
        0 <= i < entries.len() && is_listed(#[trigger] entries[i], options) ==> order.contains(i)
    &&& strictly_ordered(order, entries, options.sort_by_time, now)
}

/// The listing of `entries`.
pub open spec fn listing_order(entries: Seq<EntryModel>, options: ListingOptions, now: int) -> Seq<
    int,
> {
    choose|order: Seq<int>| is_listing_order(order, entries, options, now)
}

/// The names under which the entries at the places in `order` are shown.
pub open spec fn names_along(order: Seq<int>, entries: Seq<EntryModel>) -> Seq<Seq<char>> {
    Seq::new(order.len(), |k: int| shown_text(entries[order[k]].name))
}

/// The names that a listing of `entries` shows, in the order of the listing.
pub open spec fn listed_names(entries: Seq<EntryModel>, options: ListingOptions, now: int) -> Seq<
    Seq<char>,
> {
    names_along(listing_order(entries, options, now), entries)
}

/// Of two places at most one precedes the other, and no place precedes
/// itself.
pub proof fn lemma_precedes_asymmetric(
    entries: Seq<EntryModel>,
    by_time: bool,
    now: int,
    i: int,
    j: int,
)
    requires
        precedes(entries, by_time, now, i, j),
    ensures
        !precedes(entries, by_time, now, j, i),
        i != j,
{
    if !by_time {
        let a = entries[i].name;
        let b = entries[j].name;
        if sorts_before(a, b) {
            lemma_sorts_before_asymmetric(a, b);
        }
        if sorts_before(b, a) {
            lemma_sorts_before_asymmetric(b, a);
        }
    }
}

/// What precedes a place precedes all that the place precedes.
pub proof fn lemma_precedes_transitive(
    entries: Seq<EntryModel>,
    by_time: bool,
    now: int,
    i: int,
    j: int,
    k: int,
)
    requires
        precedes(entries, by_time, now, i, j),
        precedes(entries, by_time, now, j, k),
    ensures
        precedes(entries, by_time, now, i, k),
{
    if !by_time {
        let a = entries[i].name;
        let b = entries[j].name;
        let c = entries[k].name;
        if sorts_before(a, b) && sorts_before(b, c) {
            lemma_sorts_before_transitive(a, b, c);
        }
    }
}

/// Of two different places one precedes the other.
pub proof fn lemma_precedes_total(entries: Seq<EntryModel>, by_time: bool, now: int, i: int, j: int)
    requires
        i != j,
    ensures
        precedes(entries, by_time, now, i, j) || precedes(entries, by_time, now, j, i),
{
    if !by_time && entries[i].name != entries[j].name {
        lemma_sorts_before_total(entries[i].name, entries[j].name);
    }
}

/// Two strictly ordered sequences that hold the same places are the same
/// sequence.
pub proof fn lemma_strict_order_unique(
    first: Seq<int>,
    second: Seq<int>,
    entries: Seq<EntryModel>,
    by_time: bool,
    now: int,
)
    requires
        strictly_ordered(first, entries, by_time, now),
        strictly_ordered(second, entries, by_time, now),
        forall|x: int| first.contains(x) <==> second.contains(x),
    ensures
        first == second,
    decreases first.len(),
{
    if first.len() == 0 {
        if second.len() > 0 {
            assert(second.contains(second[0]));
        }
        assert(first =~= second);
    } else {
        let top = first.last();
        assert(first.contains(top));
        let at = choose|at: int| 0 <= at < second.len() && second[at] == top;
        let other = second.last();
        assert(second.contains(other));
        let back = choose|back: int| 0 <= back < first.len() && first[back] == other;
        if at < second.len() - 1 {
            // `top` precedes `other` in `second`; in `first` it is the other way round.
            assert(precedes(entries, by_time, now, second[at], second[second.len() - 1]));
            lemma_precedes_asymmetric(entries, by_time, now, top, other);
            assert(back < first.len() - 1);
            assert(precedes(entries, by_time, now, first[back], first[first.len() - 1]));
        }
        assert(other == top);
        let first_rest = first.drop_last();
        let second_rest = second.drop_last();
        assert forall|x: int| first_rest.contains(x) <==> second_rest.contains(x) by {
            if first_rest.contains(x) {
                let p = choose|p: int| 0 <= p < first_rest.len() && first_rest[p] == x;
                assert(first[p] == x);
                assert(precedes(entries, by_time, now, first[p], first[first.len() - 1]));
                lemma_precedes_asymmetric(entries, by_time, now, x, top);
                assert(first.contains(x));
                let q = choose|q: int| 0 <= q < second.len() && second[q] == x;
                assert(second_rest[q] == x);
            }
            if second_rest.contains(x) {
                let q = choose|q: int| 0 <= q < second_rest.len() && second_rest[q] == x;
                assert(second[q] == x);
                assert(precedes(entries, by_time, now, second[q], second[second.len() - 1]));
                lemma_precedes_asymmetric(entries, by_time, now, x, top);
                assert(second.contains(x));
                let p = choose|p: int| 0 <= p < first.len() && first[p] == x;
                assert(first_rest[p] == x);
            }
        }
        assert(strictly_ordered(first_rest, entries, by_time, now)) by {
            assert forall|a: int, b: int| 0 <= a < b < first_rest.len() implies precedes(
                entries,
                by_time,
                now,
                #[trigger] first_rest[a],
                #[trigger] first_rest[b],
            ) by {
                assert(precedes(entries, by_time, now, first[a], first[b]));
            }
        }
        assert(strictly_ordered(second_rest, entries, by_time, now)) by {
            assert forall|a: int, b: int| 0 <= a < b < second_rest.len() implies precedes(
                entries,
                by_time,
                now,
                #[trigger] second_rest[a],
                #[trigger] second_rest[b],
            ) by {
                assert(precedes(entries, by_time, now, second[a], second[b]));
            }
        }
        lemma_strict_order_unique(first_rest, second_rest, entries, by_time, now);
        assert(first =~= first_rest.push(top));
        assert(second =~= second_rest.push(other));
    }
}

/// A directory has one listing only: two orders that are both listings of
/// the same entries under the same options are equal.
pub proof fn lemma_listing_order_unique(
    first: Seq<int>,
    second: Seq<int>,
    entries: Seq<EntryModel>,
    options: ListingOptions,
    now: int,
)
    requires
        is_listing_order(first, entries, options, now),
        is_listing_order(second, entries, options, now),
    ensures
        first == second,
{
    assert forall|x: int| first.contains(x) <==> second.contains(x) by {
        if first.contains(x) {
            let p = choose|p: int| 0 <= p < first.len() && first[p] == x;
            assert(is_listed(entries[first[p]], options));
        }
        if second.contains(x) {
            let q = choose|q: int| 0 <= q < second.len() && second[q] == x;
            assert(is_listed(entries[second[q]], options));
        }
    }
    lemma_strict_order_unique(first, second, entries, options.sort_by_time, now);
}

/// `order` with the place `x` put in behind the last place that precedes it.
spec fn with_place(
    order: Seq<int>,
    x: int,
    entries: Seq<EntryModel>,
    by_time: bool,
    now: int,
) -> Seq<int>
    decreases order.len(),
{
    if order.len() == 0 || precedes(entries, by_time, now, order.last(), x) {
        order.push(x)
    } else {
        with_place(order.drop_last(), x, entries, by_time, now).push(order.last())
    }
}

/// Putting a new place into a strictly ordered sequence keeps it strictly
/// ordered and adds that place only.
proof fn lemma_with_place(
    order: Seq<int>,
    x: int,
    entries: Seq<EntryModel>,
    by_time: bool,
    now: int,
)
    requires
        strictly_ordered(order, entries, by_time, now),
        !order.contains(x),
    ensures
        strictly_ordered(with_place(order, x, entries, by_time, now), entries, by_time, now),
        forall|y: int|
            #![trigger with_place(order, x, entries, by_time, now).contains(y)]
            #![trigger order.contains(y)]
            with_place(order, x, entries, by_time, now).contains(y) <==> (order.contains(y) || y
                == x),
    decreases order.len(),
{
    let result = with_place(order, x, entries, by_time, now);
    if order.len() == 0 || precedes(entries, by_time, now, order.last(), x) {
        assert forall|a: int, b: int| 0 <= a < b < result.len() implies precedes(
            entries,
            by_time,
            now,
            #[trigger] result[a],
            #[trigger] result[b],
        ) by {
            if b == order.len() {
                if a < order.len() - 1 {
                    assert(precedes(entries, by_time, now, order[a], order[order.len() - 1]));
                    lemma_precedes_transitive(entries, by_time, now, order[a], order.last(), x);
                }
            } else {
                assert(precedes(entries, by_time, now, order[a], order[b]));
            }
        }
        assert forall|y: int| result.contains(y) <==> (order.contains(y) || y == x) by {
            if result.contains(y) {
                let k = choose|k: int| 0 <= k < result.len() && result[k] == y;
                if k < order.len() {
                    assert(order[k] == y);
                }
            }
            if order.contains(y) {
                let k = choose|k: int| 0 <= k < order.len() && order[k] == y;
                assert(result[k] == y);
            }
            if y == x {
                assert(result[order.len() as int] == y);
            }
        }
    } else {
        let rest = order.drop_last();
        let last = order.last();
        assert(order.contains(last));
        assert(strictly_ordered(rest, entries, by_time, now)) by {
            assert forall|a: int, b: int| 0 <= a < b < rest.len() implies precedes(
                entries,
                by_time,
                now,
                #[trigger] rest[a],
                #[trigger] rest[b],
            ) by {
                assert(precedes(entries, by_time, now, order[a], order[b]));
            }
        }
        assert(!rest.contains(x)) by {
            if rest.contains(x) {
                let k = choose|k: int| 0 <= k < rest.len() && rest[k] == x;
                assert(order[k] == x);
            }
        }
        lemma_with_place(rest, x, entries, by_time, now);
        let inner = with_place(rest, x, entries, by_time, now);
        lemma_precedes_total(entries, by_time, now, last, x);
        assert forall|a: int, b: int| 0 <= a < b < result.len() implies precedes(
            entries,
            by_time,
            now,
            #[trigger] result[a],
            #[trigger] result[b],
        ) by {
            if b == inner.len() {
                assert(inner.contains(inner[a]));
                if inner[a] != x {
                    let w = choose|w: int| 0 <= w < rest.len() && rest[w] == inner[a];
                    assert(precedes(entries, by_time, now, order[w], order[order.len() - 1]));
                }
            } else {
                assert(precedes(entries, by_time, now, inner[a], inner[b]));
            }
        }
        assert forall|y: int| result.contains(y) <==> (order.contains(y) || y == x) by {
            if result.contains(y) {
                let k = choose|k: int| 0 <= k < result.len() && result[k] == y;
                if k < inner.len() {
                    assert(inner.contains(inner[k]));
                    if y != x {
                        let w = choose|w: int| 0 <= w < rest.len() && rest[w] == y;
                        assert(order[w] == y);
                    }
                }
            }
            if order.contains(y) {
                let k = choose|k: int| 0 <= k < order.len() && order[k] == y;
                if k < rest.len() {
                    assert(rest[k] == y);
                    assert(rest.contains(y));
                    let w = choose|w: int| 0 <= w < inner.len() && inner[w] == y;
                    assert(result[w] == y);
                } else {
                    assert(result[inner.len() as int] == y);
                }
            }
            if y == x {
                assert(inner.contains(x));
                let w = choose|w: int| 0 <= w < inner.len() && inner[w] == x;
                assert(result[w] == y);
            }
        }
    }
}

/// The listing of the first `n` entries, built up place by place.
spec fn listing_upto(entries: Seq<EntryModel>, options: ListingOptions, now: int, n: nat) -> Seq<
    int,
>
    decreases n,
{
    if n == 0 {
        Seq::empty()
    } else {
        let rest = listing_upto(entries, options, now, (n - 1) as nat);
        if is_listed(entries[n - 1], options) {
            with_place(rest, n - 1, entries, options.sort_by_time, now)
        } else {
            rest
        }
    }
}

/// What is built up from the first `n` entries is strictly ordered and
/// holds the places of the listed ones among them.
proof fn lemma_listing_upto(entries: Seq<EntryModel>, options: ListingOptions, now: int, n: nat)
    requires
        n <= entries.len(),
    ensures
        strictly_ordered(
            listing_upto(entries, options, now, n),
            entries,
            options.sort_by_time,
            now,
        ),
        forall|x: int|
            #![trigger listing_upto(entries, options, now, n).contains(x)]
            listing_upto(entries, options, now, n).contains(x) <==> (0 <= x < n && is_listed(
                entries[x],
                options,
            )),
    decreases n,
{
    let order = listing_upto(entries, options, now, n);
    if n > 0 {
        let rest = listing_upto(entries, options, now, (n - 1) as nat);
        lemma_listing_upto(entries, options, now, (n - 1) as nat);
        if is_listed(entries[n - 1], options) {
            assert(!rest.contains(n - 1));
            lemma_with_place(rest, n - 1, entries, options.sort_by_time, now);
        }
        assert forall|x: int| #[trigger] order.contains(x) <==> (0 <= x < n && is_listed(
            entries[x],
            options,
        )) by {
            assert(rest.contains(x) <==> (0 <= x < n - 1 && is_listed(entries[x], options)));
        }
    } else {
        assert forall|x: int| !(#[trigger] order.contains(x)) by {
            if order.contains(x) {
                let k = choose|k: int| 0 <= k < order.len() && order[k] == x;
            }
        }
    }
}

/// Every directory has a listing, so [`listing_order`] is one.
pub proof fn lemma_listing_order_exists(entries: Seq<EntryModel>, options: ListingOptions, now: int)
    ensures
        is_listing_order(listing_order(entries, options, now), entries, options, now),
{
    let order = listing_upto(entries, options, now, entries.len());
    lemma_listing_upto(entries, options, now, entries.len());
    assert forall|k: int| 0 <= k < order.len() implies 0 <= #[trigger] order[k] < entries.len()
        && is_listed(entries[order[k]], options) by {
        assert(order.contains(order[k]));
    }
    assert(is_listing_order(order, entries, options, now));
}

} // verus!
