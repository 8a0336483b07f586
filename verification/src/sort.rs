//! Putting the places of a directory's entries into the order of a listing.

use vstd::prelude::*;
use crate::listing::{
    lemma_precedes_total, lemma_precedes_transitive, models, precedes, strictly_ordered,
    DirectoryEntry,
};
use crate::raw::{compare_raw, Standing};

verus! {

/// The places that a vector of indices holds, as integers.
pub open spec fn places(indices: Seq<usize>) -> Seq<int> {
    Seq::new(indices.len(), |k: int| indices[k] as int)
}

/// `x` stands in `indices` at a position from `lo` up to, but not including,
/// `hi`.
pub open spec fn holds_between(indices: Seq<usize>, lo: int, hi: int, x: usize) -> bool {
    exists|k: int| lo <= k < hi && #[trigger] indices[k] == x
}

/// Every index in `indices` is a place in a directory of `count` entries.
pub open spec fn all_below(indices: Seq<usize>, count: int) -> bool {
    forall|k: int| 0 <= k < indices.len() ==> #[trigger] indices[k] < count
}

/// Tells whether the entry at place `i` is listed before the entry at place
/// `j`.
pub fn comes_before(
    entries: &Vec<DirectoryEntry>,
    by_time: bool,
    now: i128,
    i: usize,
    j: usize,
) -> (before: bool)
    requires
        i < entries@.len(),
        j < entries@.len(),
    ensures
        before == precedes(models(entries@), by_time, now as int, i as int, j as int),
{
    if by_time {
        let time_i: i128 = match entries[i].modified {
            Some(t) => t,
            None => now,
        };
        let time_j: i128 = match entries[j].modified {
            Some(t) => t,
            None => now,
        };
        time_i > time_j || (time_i == time_j && i < j)
    } else {
        match compare_raw(&entries[i].name, &entries[j].name) {
            Standing::Before => true,
            Standing::Same => i < j,
            Standing::After => false,
        }
    }
}

/// Merges two ordered runs of places that share no place into one.
fn merge(
    entries: &Vec<DirectoryEntry>,
    by_time: bool,
    now: i128,
    left: &Vec<usize>,
    right: &Vec<usize>,
) -> (merged: Vec<usize>)
    requires
        all_below(left@, entries@.len() as int),
        all_below(right@, entries@.len() as int),
        strictly_ordered(places(left@), models(entries@), by_time, now as int),
        strictly_ordered(places(right@), models(entries@), by_time, now as int),
        forall|p: int, q: int|
            0 <= p < left@.len() && 0 <= q < right@.len() ==> #[trigger] left@[p]
                != #[trigger] right@[q],
    ensures
        merged@.len() == left@.len() + right@.len(),
        all_below(merged@, entries@.len() as int),
        strictly_ordered(places(merged@), models(entries@), by_time, now as int),
        forall|x: usize|
            #![trigger holds_between(merged@, 0, merged@.len() as int, x)]
            #![trigger holds_between(left@, 0, left@.len() as int, x)]
            #![trigger holds_between(right@, 0, right@.len() as int, x)]
            holds_between(merged@, 0, merged@.len() as int, x) <==> (holds_between(
                left@,
                0,
                left@.len() as int,
                x,
            ) || holds_between(right@, 0, right@.len() as int, x)),
{
    let ghost model = models(entries@);
    let ghost at = now as int;
    let mut merged: Vec<usize> = Vec::new();
    let mut i: usize = 0;
    let mut j: usize = 0;
    while i < left.len() || j < right.len()
        invariant
            i <= left@.len(),
            j <= right@.len(),
            merged@.len() == i + j,
            model == models(entries@),
            at == now as int,
            all_below(left@, entries@.len() as int),
            all_below(right@, entries@.len() as int),
            all_below(merged@, entries@.len() as int),
            strictly_ordered(places(left@), model, by_time, at),
            strictly_ordered(places(right@), model, by_time, at),
            forall|p: int, q: int|
                0 <= p < left@.len() && 0 <= q < right@.len() ==> #[trigger] left@[p]
                    != #[trigger] right@[q],
            strictly_ordered(places(merged@), model, by_time, at),
            forall|k: int, p: int|
                0 <= k < merged@.len() && i <= p < left@.len() ==> precedes(
                    model,
                    by_time,
                    at,
                    #[trigger] merged@[k] as int,
                    #[trigger] left@[p] as int,
                ),
            forall|k: int, q: int|
                0 <= k < merged@.len() && j <= q < right@.len() ==> precedes(
                    model,
                    by_time,
                    at,
                    #[trigger] merged@[k] as int,
                    #[trigger] right@[q] as int,
                ),
            forall|k: int|
                0 <= k < merged@.len() ==> holds_between(left@, 0, i as int, #[trigger] merged@[k])
                    || holds_between(right@, 0, j as int, merged@[k]),
            forall|p: int|
                0 <= p < i ==> holds_between(merged@, 0, merged@.len() as int, #[trigger] left@[p]),
            forall|q: int|
                0 <= q < j ==> holds_between(
                    merged@,
                    0,
                    merged@.len() as int,
                    #[trigger] right@[q],
                ),
        decreases left@.len() - i + right@.len() - j,
    {
        let from_left = if i == left.len() {
            false
        } else if j == right.len() {
            true
        } else {
            comes_before(entries, by_time, now, left[i], right[j])
        };
        let ghost before = merged@;
        let ghost taken_left = i as int;
        let ghost taken_right = j as int;
        if from_left {
            let x = left[i];
            merged.push(x);
            proof {
                assert forall|k: int, q: int|
                    0 <= k < merged@.len() && j <= q < right@.len() implies precedes(
                    model,
                    by_time,
                    at,
                    #[trigger] merged@[k] as int,
                    #[trigger] right@[q] as int,
                ) by {
                    if k == before.len() {
                        if q > j {
                            assert(precedes(
                                model,
                                by_time,
                                at,
                                places(right@)[j as int],
                                places(right@)[q],
                            ));
                            lemma_precedes_transitive(
                                model,
                                by_time,
                                at,
                                x as int,
                                right@[j as int] as int,
                                right@[q] as int,
                            );
                        }
                    } else {
                        assert(merged@[k] == before[k]);
                    }
                }
                assert forall|k: int, p: int|
                    0 <= k < merged@.len() && i + 1 <= p < left@.len() implies precedes(
                    model,
                    by_time,
                    at,
                    #[trigger] merged@[k] as int,
                    #[trigger] left@[p] as int,
                ) by {
                    if k == before.len() {
                        assert(precedes(
                            model,
                            by_time,
                            at,
                            places(left@)[i as int],
                            places(left@)[p],
                        ));
                    } else {
                        assert(merged@[k] == before[k]);
                    }
                }
                assert(left@[i as int] == x);
            }
            i = i + 1;
        } else {
            let x = right[j];
            merged.push(x);
            proof {
                assert forall|k: int, p: int|
                    0 <= k < merged@.len() && i <= p < left@.len() implies precedes(
                    model,
                    by_time,
                    at,
                    #[trigger] merged@[k] as int,
                    #[trigger] left@[p] as int,
                ) by {
                    if k == before.len() {
                        assert(left@[i as int] != right@[j as int]);
                        lemma_precedes_total(
                            model,
                            by_time,
                            at,
                            left@[i as int] as int,
                            x as int,
                        );
                        if p > i {
                            assert(precedes(
                                model,
                                by_time,
                                at,
                                places(left@)[i as int],
                                places(left@)[p],
                            ));
                            lemma_precedes_transitive(
                                model,
                                by_time,
                                at,
                                x as int,
                                left@[i as int] as int,
                                left@[p] as int,
                            );
                        }
                    } else {
                        assert(merged@[k] == before[k]);
                    }
                }
                assert forall|k: int, q: int|
                    0 <= k < merged@.len() && j + 1 <= q < right@.len() implies precedes(
                    model,
                    by_time,
                    at,
                    #[trigger] merged@[k] as int,
                    #[trigger] right@[q] as int,
                ) by {
                    if k == before.len() {
                        assert(precedes(
                            model,
                            by_time,
                            at,
                            places(right@)[j as int],
                            places(right@)[q],
                        ));
                    } else {
                        assert(merged@[k] == before[k]);
                    }
                }
                assert(right@[j as int] == x);
            }
            j = j + 1;
        }
        proof {
            let last = before.len() as int;
            assert(merged@[last] == merged@.last());
            assert forall|a: int, b: int| 0 <= a < b < merged@.len() implies precedes(
                model,
                by_time,
                at,
                #[trigger] places(merged@)[a],
                #[trigger] places(merged@)[b],
            ) by {
                if b == last {
                    assert(merged@[a] == before[a]);
                } else {
                    assert(precedes(model, by_time, at, places(before)[a], places(before)[b]));
                }
            }
            assert forall|k: int| 0 <= k < merged@.len() implies holds_between(
                left@,
                0,
                i as int,
                #[trigger] merged@[k],
            ) || holds_between(right@, 0, j as int, merged@[k]) by {
                if k < last {
                    assert(merged@[k] == before[k]);
                    if holds_between(left@, 0, taken_left, before[k]) {
                        let w = choose|w: int| 0 <= w < taken_left && left@[w] == before[k];
                        assert(left@[w] == merged@[k]);
                    } else {
                        let w = choose|w: int| 0 <= w < taken_right && right@[w] == before[k];
                        assert(right@[w] == merged@[k]);
                    }
                } else {
                    if from_left {
                        assert(left@[i as int - 1] == merged@[k]);
                    } else {
                        assert(right@[j as int - 1] == merged@[k]);
                    }
                }
            }
            assert forall|p: int| 0 <= p < i implies holds_between(
                merged@,
                0,
                merged@.len() as int,
                #[trigger] left@[p],
            ) by {
                if from_left && p == i - 1 {
                    assert(merged@[last] == left@[p]);
                } else {
                    let w = choose|w: int| 0 <= w < before.len() && before[w] == left@[p];
                    assert(merged@[w] == left@[p]);
                }
            }
            assert forall|q: int| 0 <= q < j implies holds_between(
                merged@,
                0,
                merged@.len() as int,
                #[trigger] right@[q],
            ) by {
                if !from_left && q == j - 1 {
                    assert(merged@[last] == right@[q]);
                } else {
                    let w = choose|w: int| 0 <= w < before.len() && before[w] == right@[q];
                    assert(merged@[w] == right@[q]);
                }
            }
        }
    }
    proof {
        assert forall|x: usize|
            holds_between(merged@, 0, merged@.len() as int, x) <==> (holds_between(
                left@,
                0,
                left@.len() as int,
                x,
            ) || holds_between(right@, 0, right@.len() as int, x)) by {
            if holds_between(merged@, 0, merged@.len() as int, x) {
                let k = choose|k: int| 0 <= k < merged@.len() && merged@[k] == x;
                assert(holds_between(left@, 0, i as int, merged@[k]) || holds_between(
                    right@,
                    0,
                    j as int,
                    merged@[k],
                ));
            }
            if holds_between(left@, 0, left@.len() as int, x) {
                let p = choose|p: int| 0 <= p < left@.len() && left@[p] == x;
                assert(holds_between(merged@, 0, merged@.len() as int, left@[p]));
            }
            if holds_between(right@, 0, right@.len() as int, x) {
                let q = choose|q: int| 0 <= q < right@.len() && right@[q] == x;
                assert(holds_between(merged@, 0, merged@.len() as int, right@[q]));
            }
        }
    }
    merged
}

/// Puts the places that `indices` holds from `lo` up to `hi` into the order
/// of a listing, by sorting each half and merging the two.
pub fn sort_places(
    entries: &Vec<DirectoryEntry>,
    by_time: bool,
    now: i128,
    indices: &Vec<usize>,
    lo: usize,
    hi: usize,
) -> (sorted: Vec<usize>)
    requires
        lo <= hi <= indices@.len(),
        all_below(indices@, entries@.len() as int),
        forall|a: int, b: int|
            0 <= a < b < indices@.len() ==> #[trigger] indices@[a] != #[trigger] indices@[b],
    ensures
        sorted@.len() == hi - lo,
        all_below(sorted@, entries@.len() as int),
        strictly_ordered(places(sorted@), models(entries@), by_time, now as int),
        forall|x: usize|
            #![trigger holds_between(sorted@, 0, sorted@.len() as int, x)]
            #![trigger holds_between(indices@, lo as int, hi as int, x)]
            holds_between(sorted@, 0, sorted@.len() as int, x) <==> holds_between(
                indices@,
                lo as int,
                hi as int,
                x,
            ),
    decreases hi - lo,
{
    if hi - lo == 0 {
        return Vec::new();
    }
    if hi - lo == 1 {
        let mut single: Vec<usize> = Vec::new();
        single.push(indices[lo]);
        proof {
            assert forall|x: usize|
                holds_between(single@, 0, single@.len() as int, x) <==> holds_between(
                    indices@,
                    lo as int,
                    hi as int,
                    x,
                ) by {
                if holds_between(indices@, lo as int, hi as int, x) {
                    assert(single@[0] == x);
                }
                if holds_between(single@, 0, single@.len() as int, x) {
                    assert(indices@[lo as int] == x);
                }
            }
        }
        return single;
    }
    let mid: usize = lo + (hi - lo) / 2;
    let left = sort_places(entries, by_time, now, indices, lo, mid);
    let right = sort_places(entries, by_time, now, indices, mid, hi);
    proof {
        assert forall|p: int, q: int|
            0 <= p < left@.len() && 0 <= q < right@.len() implies #[trigger] left@[p]
            != #[trigger] right@[q] by {
            assert(holds_between(left@, 0, left@.len() as int, left@[p]));
            assert(holds_between(right@, 0, right@.len() as int, right@[q]));
            let a = choose|a: int| lo <= a < mid && indices@[a] == left@[p];
            let b = choose|b: int| mid <= b < hi && indices@[b] == right@[q];
            assert(indices@[a] != indices@[b]);
        }
    }
    let sorted = merge(entries, by_time, now, &left, &right);
    proof {
        assert forall|x: usize|
            holds_between(sorted@, 0, sorted@.len() as int, x) <==> holds_between(
                indices@,
                lo as int,
                hi as int,
                x,
            ) by {
            if holds_between(indices@, lo as int, hi as int, x) {
                let k = choose|k: int| lo <= k < hi && indices@[k] == x;
                if k < mid {
                    assert(holds_between(indices@, lo as int, mid as int, x));
                } else {
                    assert(holds_between(indices@, mid as int, hi as int, x));
                }
            }
            if holds_between(left@, 0, left@.len() as int, x) {
                let k = choose|k: int| lo <= k < mid && indices@[k] == x;
                assert(holds_between(indices@, lo as int, hi as int, x));
            }
            if holds_between(right@, 0, right@.len() as int, x) {
                let k = choose|k: int| mid <= k < hi && indices@[k] == x;
                assert(holds_between(indices@, lo as int, hi as int, x));
            }
        }
    }
    sorted
}

} // verus!
