//! What holds of every listing.

use vstd::prelude::*;
use vstd::set_lib::{lemma_int_range, set_int_range};
use vstd::utf8::{decode_utf8, decode_utf8_encode_utf8, encode_utf8, valid_utf8};
use crate::error::ErrorModel;
use crate::listing::{
    effective_time, is_listed, is_listing_order, lemma_listing_order_exists,
    lemma_listing_order_unique, lemma_precedes_asymmetric, listed_names, listing_order, precedes,
    EntryModel, ListingOptions,
};
use crate::ls::{ls_outcome, readable, Listing, ProbeModel};
use crate::path::final_component;
use crate::raw::{is_hidden, lemma_sorts_before_asymmetric, sorts_before};
use crate::text::{lemma_shown_hidden, shown_text};

verus! {

/// A path that names a regular file is listed as the text of its final
/// component, whatever the options and the time are.
pub proof fn lemma_file_is_listed_by_its_name(
    path: Seq<u8>,
    options: ListingOptions,
    now: int,
    name: Seq<u8>,
)
    requires
        final_component(path) == Some(name),
        valid_utf8(name),
    ensures
        ls_outcome(path, options, ProbeModel::File, now) == Ok::<Listing, ErrorModel>(
            Listing::Single(decode_utf8(name)),
        ),
{
}

/// A listing that was not asked for hidden entries holds none, and shows no
/// name that begins with a full stop.
pub proof fn lemma_hidden_entries_are_left_out(
    entries: Seq<EntryModel>,
    options: ListingOptions,
    now: int,
)
    requires
        !options.show_hidden,
    ensures
        ({
            let order = listing_order(entries, options, now);
            let names = listed_names(entries, options, now);
            &&& forall|k: int|
                0 <= k < order.len() ==> !is_hidden(entries[#[trigger] order[k]].name)
            &&& forall|k: int|
                0 <= k < names.len() ==> !((#[trigger] names[k]).len() > 0 && names[k][0] == '.')
        }),
{
    let order = listing_order(entries, options, now);
    let names = listed_names(entries, options, now);
    lemma_listing_order_exists(entries, options, now);
    assert forall|k: int| 0 <= k < names.len() implies !((#[trigger] names[k]).len() > 0
        && names[k][0] == '.') by {
        assert(is_listed(entries[order[k]], options));
        lemma_shown_hidden(entries[order[k]].name);
    }
}

/// In a listing by name the raw names ascend. Where two of them are text,
/// the bytes of the names shown for them ascend likewise.
pub proof fn lemma_listing_by_name_ascends(
    entries: Seq<EntryModel>,
    options: ListingOptions,
    now: int,
)
    requires
        !options.sort_by_time,
    ensures
        ({
            let order = listing_order(entries, options, now);
            let names = listed_names(entries, options, now);
            &&& forall|a: int, b: int|
                0 <= a < b < order.len() ==> !sorts_before(
                    entries[#[trigger] order[b]].name,
                    entries[#[trigger] order[a]].name,
                )
            &&& forall|a: int, b: int|
                0 <= a < b < names.len() && valid_utf8(entries[order[a]].name) && valid_utf8(
                    entries[order[b]].name,
                ) ==> !sorts_before(
                    encode_utf8(#[trigger] names[b]),
                    encode_utf8(#[trigger] names[a]),
                )
        }),
{
    let order = listing_order(entries, options, now);
    let names = listed_names(entries, options, now);
    lemma_listing_order_exists(entries, options, now);
    assert forall|a: int, b: int| 0 <= a < b < order.len() implies !sorts_before(
        entries[#[trigger] order[b]].name,
        entries[#[trigger] order[a]].name,
    ) by {
        assert(precedes(entries, false, now, order[a], order[b]));
        let lower = entries[order[a]].name;
        let upper = entries[order[b]].name;
        if sorts_before(upper, lower) {
            lemma_sorts_before_asymmetric(upper, lower);
        }
    }
    assert forall|a: int, b: int|
        0 <= a < b < names.len() && valid_utf8(entries[order[a]].name) && valid_utf8(
            entries[order[b]].name,
        ) implies !sorts_before(
        encode_utf8(#[trigger] names[b]),
        encode_utf8(#[trigger] names[a]),
    ) by {
        decode_utf8_encode_utf8(entries[order[a]].name);
        decode_utf8_encode_utf8(entries[order[b]].name);
        assert(!sorts_before(entries[order[b]].name, entries[order[a]].name));
    }
}

/// A listing under the default options holds no hidden entry and shows no
/// name that begins with a full stop, and its names ascend.
pub proof fn lemma_default_listing_ascends_without_hidden(entries: Seq<EntryModel>, now: int)
    ensures
        ({
            let options = ListingOptions { show_hidden: false, sort_by_time: false };
            let order = listing_order(entries, options, now);
            let names = listed_names(entries, options, now);
            &&& names.len() == order.len()
            &&& forall|k: int|
                0 <= k < order.len() ==> !is_hidden(entries[#[trigger] order[k]].name)
            &&& forall|k: int|
                0 <= k < names.len() ==> !((#[trigger] names[k]).len() > 0 && names[k][0] == '.')
            &&& forall|a: int, b: int|
                0 <= a < b < order.len() ==> !sorts_before(
                    entries[#[trigger] order[b]].name,
                    entries[#[trigger] order[a]].name,
                )
            &&& forall|a: int, b: int|
                0 <= a < b < names.len() && valid_utf8(entries[order[a]].name) && valid_utf8(
                    entries[order[b]].name,
                ) ==> !sorts_before(
                    encode_utf8(#[trigger] names[b]),
                    encode_utf8(#[trigger] names[a]),
                )
        }),
{
    let options = ListingOptions { show_hidden: false, sort_by_time: false };
    lemma_hidden_entries_are_left_out(entries, options, now);
    lemma_listing_by_name_ascends(entries, options, now);
}

/// A listing that shows hidden entries shows every entry: it holds every
/// place, once, and so the name of every entry, dotfiles among them.
pub proof fn lemma_listing_with_hidden_is_complete(
    entries: Seq<EntryModel>,
    options: ListingOptions,
    now: int,
)
    requires
        options.show_hidden,
    ensures
        listing_order(entries, options, now).len() == entries.len(),
        listed_names(entries, options, now).len() == entries.len(),
        forall|i: int|
            0 <= i < entries.len() ==> listing_order(entries, options, now).contains(i),
        forall|i: int|
            0 <= i < entries.len() ==> listed_names(entries, options, now).contains(
                shown_text(#[trigger] entries[i].name),
            ),
{
    let order = listing_order(entries, options, now);
    let names = listed_names(entries, options, now);
    lemma_listing_order_exists(entries, options, now);
    assert forall|i: int| 0 <= i < entries.len() implies order.contains(i) by {
        assert(is_listed(entries[i], options));
    }
    assert(order.no_duplicates()) by {
        assert forall|a: int, b: int|
            0 <= a < order.len() && 0 <= b < order.len() && a != b implies order[a]
            != order[b] by {
            if a < b {
                assert(precedes(entries, options.sort_by_time, now, order[a], order[b]));
                lemma_precedes_asymmetric(entries, options.sort_by_time, now, order[a], order[b]);
            } else {
                assert(precedes(entries, options.sort_by_time, now, order[b], order[a]));
                lemma_precedes_asymmetric(entries, options.sort_by_time, now, order[b], order[a]);
            }
        }
    }
    order.unique_seq_to_set();
    lemma_int_range(0, entries.len() as int);
    assert(order.to_set() =~= set_int_range(0, entries.len() as int)) by {
        assert forall|x: int| order.to_set().contains(x) <==> set_int_range(
            0,
            entries.len() as int,
        ).contains(x) by {
            if order.to_set().contains(x) {
                assert(order.contains(x));
                let k = choose|k: int| 0 <= k < order.len() && order[k] == x;
                assert(0 <= order[k] < entries.len());
            }
            if 0 <= x < entries.len() {
                assert(order.contains(x));
            }
        }
    }
    assert forall|i: int| 0 <= i < entries.len() implies names.contains(
        shown_text(#[trigger] entries[i].name),
    ) by {
        assert(order.contains(i));
        let k = choose|k: int| 0 <= k < order.len() && order[k] == i;
        assert(names[k] == shown_text(entries[i].name));
    }
}

/// The two times order the listed entries alike: whichever of them stands
/// in for a missing time of modification, the same entries come first.
pub open spec fn order_alike(
    entries: Seq<EntryModel>,
    options: ListingOptions,
    first_now: int,
    second_now: int,
) -> bool {
    forall|i: int, j: int|
        0 <= i < entries.len() && 0 <= j < entries.len() && is_listed(entries[i], options)
            && is_listed(entries[j], options) ==> (#[trigger] precedes(
            entries,
            options.sort_by_time,
            first_now,
            i,
            j,
        ) <==> #[trigger] precedes(entries, options.sort_by_time, second_now, i, j))
}

/// A listing by name does not look at the time, and neither does a listing
/// of entries that all have a time of modification.
pub proof fn lemma_order_alike(
    entries: Seq<EntryModel>,
    options: ListingOptions,
    first_now: int,
    second_now: int,
)
    requires
        first_now == second_now || !options.sort_by_time || forall|i: int|
            0 <= i < entries.len() ==> (#[trigger] entries[i]).modified is Some,
    ensures
        order_alike(entries, options, first_now, second_now),
{
    assert forall|i: int, j: int|
        0 <= i < entries.len() && 0 <= j < entries.len() && is_listed(entries[i], options)
            && is_listed(entries[j], options) implies (#[trigger] precedes(
        entries,
        options.sort_by_time,
        first_now,
        i,
        j,
    ) <==> #[trigger] precedes(entries, options.sort_by_time, second_now, i, j)) by {
        if first_now != second_now && options.sort_by_time {
            assert(entries[i].modified is Some);
            assert(entries[j].modified is Some);
        }
    }
}

/// Listing a path again gives the same result, as long as the file system
/// gives the same answer and the time of the second listing orders the
/// entries as that of the first did.
pub proof fn lemma_listing_is_repeatable(
    path: Seq<u8>,
    options: ListingOptions,
    probe: ProbeModel,
    first_now: int,
    second_now: int,
)
    requires
        probe matches ProbeModel::Directory(children) ==> order_alike(
            readable(children),
            options,
            first_now,
            second_now,
        ),
    ensures
        ls_outcome(path, options, probe, first_now) == ls_outcome(
            path,
            options,
            probe,
            second_now,
        ),
{
    if let ProbeModel::Directory(children) = probe {
        let entries = readable(children);
        let first = listing_order(entries, options, first_now);
        let second = listing_order(entries, options, second_now);
        lemma_listing_order_exists(entries, options, first_now);
        lemma_listing_order_exists(entries, options, second_now);
        assert forall|a: int, b: int| 0 <= a < b < first.len() implies precedes(
            entries,
            options.sort_by_time,
            second_now,
            #[trigger] first[a],
            #[trigger] first[b],
        ) by {
            assert(precedes(entries, options.sort_by_time, first_now, first[a], first[b]));
        }
        assert(is_listing_order(first, entries, options, second_now));
        lemma_listing_order_unique(first, second, entries, options, second_now);
    }
}

/// A listing by time goes from the latest entry to the earliest, with `now`
/// as the time of an entry that has none: no entry stands before one with a
/// later time, entries with the same time keep the order in which they were
/// read, and an entry without a time stands before every entry that was
/// modified before `now`.
pub proof fn lemma_time_listing_goes_back(
    entries: Seq<EntryModel>,
    options: ListingOptions,
    now: int,
)
    requires
        options.sort_by_time,
    ensures
        ({
            let order = listing_order(entries, options, now);
            &&& forall|a: int, b: int|
                0 <= a < b < order.len() ==> effective_time(entries[#[trigger] order[a]], now)
                    >= effective_time(entries[#[trigger] order[b]], now)
            &&& forall|a: int, b: int|
                0 <= a < b < order.len() && effective_time(entries[#[trigger] order[a]], now)
                    == effective_time(entries[#[trigger] order[b]], now) ==> order[a] < order[b]
            &&& forall|a: int, b: int|
                0 <= a < order.len() && 0 <= b < order.len() && entries[#[trigger] order[a]]
                    .modified is None && effective_time(entries[#[trigger] order[b]], now) < now
                    ==> a < b
        }),
{
    let order = listing_order(entries, options, now);
    lemma_listing_order_exists(entries, options, now);
    assert forall|a: int, b: int|
        0 <= a < b < order.len() implies effective_time(entries[#[trigger] order[a]], now)
        >= effective_time(entries[#[trigger] order[b]], now) by {
        assert(precedes(entries, true, now, order[a], order[b]));
    }
    assert forall|a: int, b: int|
        0 <= a < b < order.len() && effective_time(entries[#[trigger] order[a]], now)
            == effective_time(entries[#[trigger] order[b]], now) implies order[a] < order[b] by {
        assert(precedes(entries, true, now, order[a], order[b]));
    }
    assert forall|a: int, b: int|
        0 <= a < order.len() && 0 <= b < order.len() && entries[#[trigger] order[a]].modified
            is None && effective_time(entries[#[trigger] order[b]], now) < now implies a < b by {
        if b < a {
            assert(precedes(entries, true, now, order[b], order[a]));
        }
    }
}

} // verus!
