//! The name that a path ends in.
//!
//! A path is a byte string whose segments are parted by `/`. Empty segments
//! and segments that are a single full stop name nothing and are passed
//! over; a path that ends in `..` names its parent and has no name of its
//! own.

use vstd::prelude::*;
use crate::raw::DOT;

verus! {

/// The byte that parts the segments of a path.
pub const SLASH: u8 = 0x2f;

/// Where the last segment of `path` begins: behind its last separator, or at
/// the front where it holds none.
pub open spec fn last_segment_start(path: Seq<u8>) -> int
    decreases path.len(),
{
    if path.len() == 0 || path.last() == SLASH {
        path.len() as int
    } else {
        last_segment_start(path.drop_last())
    }
}

/// The last segment of `path`: what follows its last separator.
pub open spec fn last_segment(path: Seq<u8>) -> Seq<u8> {
    path.skip(last_segment_start(path))
}

/// The final component of `path`: its last segment that is neither empty nor
/// a single full stop, unless that segment is `..`.
pub open spec fn final_component(path: Seq<u8>) -> Option<Seq<u8>>
    decreases path.len(),
{
    if path.len() == 0 {
        None
    } else if path.last() == SLASH {
        final_component(path.drop_last())
    } else if last_segment(path) == seq![DOT] {
        final_component(path.drop_last())
    } else if last_segment(path) == seq![DOT, DOT] {
        None
    } else {
        Some(last_segment(path))
    }
}

/// A stretch without a separator that reaches the end of a path and stands
/// behind a separator or at the front is the last segment.
proof fn lemma_last_segment_found(path: Seq<u8>, start: int)
    requires
        0 <= start <= path.len(),
        start == 0 || path[start - 1] == SLASH,
        forall|t: int| start <= t < path.len() ==> path[t] != SLASH,
    ensures
        last_segment_start(path) == start,
    decreases path.len() - start,
{
    if start < path.len() {
        lemma_last_segment_found(path.drop_last(), start);
    }
}

/// The last segment of a path holds no separator, reaches the end of the
/// path, and stands behind a separator or at the front.
pub proof fn lemma_last_segment(path: Seq<u8>)
    ensures
        0 <= last_segment_start(path) <= path.len(),
        last_segment_start(path) == 0 || path[last_segment_start(path) - 1] == SLASH,
        forall|t: int| last_segment_start(path) <= t < path.len() ==> #[trigger] path[t] != SLASH,
    decreases path.len(),
{
    if path.len() > 0 && path.last() != SLASH {
        let shorter = path.drop_last();
        lemma_last_segment(shorter);
        assert forall|t: int| last_segment_start(path) <= t < path.len() implies #[trigger] path[t]
            != SLASH by {
            if t < shorter.len() {
                assert(shorter[t] == path[t]);
            }
        }
    }
}

/// `name` stands in `path` from `start` on as a whole segment: behind a
/// separator or at the front, and before a separator or at the end.
pub open spec fn is_segment_at(path: Seq<u8>, name: Seq<u8>, start: int) -> bool {
    &&& 0 <= start
    &&& start + name.len() <= path.len()
    &&& path.subrange(start, start + name.len()) == name
    &&& (start == 0 || path[start - 1] == SLASH)
    &&& (start + name.len() == path.len() || path[start + name.len()] == SLASH)
}

/// The final component of a path is one of its segments, and a name: it is
/// not empty, holds no separator, and is neither `.` nor `..`.
pub proof fn lemma_final_component_is_a_name(path: Seq<u8>)
    ensures
        final_component(path) matches Some(name) ==> {
            &&& name.len() > 0
            &&& forall|t: int| 0 <= t < name.len() ==> name[t] != SLASH
            &&& name != seq![DOT]
            &&& name != seq![DOT, DOT]
            &&& exists|start: int| is_segment_at(path, name, start)
        },
    decreases path.len(),
{
    if path.len() > 0 {
        let shorter = path.drop_last();
        if path.last() == SLASH || last_segment(path) == seq![DOT] {
            lemma_final_component_is_a_name(shorter);
            if let Some(name) = final_component(shorter) {
                let start = choose|start: int| is_segment_at(shorter, name, start);
                assert(path.subrange(start, start + name.len()) =~= shorter.subrange(
                    start,
                    start + name.len(),
                ));
                if last_segment(path) == seq![DOT] && start + name.len() == shorter.len() {
                    // The full stop would then belong to a longer last segment.
                    lemma_last_segment(path);
                    assert(last_segment(path).len() == 1);
                    assert(path[last_segment_start(path) - 1] == SLASH);
                    assert(name[name.len() - 1] == shorter[shorter.len() - 1]);
                }
                assert(is_segment_at(path, name, start));
            }
        } else if last_segment(path) != seq![DOT, DOT] {
            lemma_last_segment(path);
            let name = last_segment(path);
            let start = last_segment_start(path);
            assert(path.subrange(start, start + name.len()) =~= name);
            assert(is_segment_at(path, name, start));
        }
    }
}

/// Finds the final component of a path.
pub fn find_final_component(path: &Vec<u8>) -> (component: Option<Vec<u8>>)
    ensures
        component is Some <==> final_component(path@) is Some,
        component matches Some(c) ==> Some(c@) == final_component(path@),
{
    let mut end: usize = path.len();
    assert(path@.take(end as int) =~= path@);
    while end > 0
        invariant
            end <= path@.len(),
            final_component(path@) == final_component(path@.take(end as int)),
        decreases end,
    {
        let ghost head = path@.take(end as int);
        assert(head.drop_last() =~= path@.take(end - 1));
        if path[end - 1] == SLASH {
            end = end - 1;
        } else {
            let mut start: usize = end - 1;
            while start > 0 && path[start - 1] != SLASH
                invariant
                    start < end <= path@.len(),
                    forall|t: int| start <= t < end ==> path@[t] != SLASH,
                decreases start,
            {
                start = start - 1;
            }
            proof {
                lemma_last_segment_found(head, start as int);
                assert(last_segment(head) =~= path@.subrange(start as int, end as int));
            }
            if end - start == 1 && path[start] == DOT {
                assert(last_segment(head) =~= seq![DOT]);
                end = end - 1;
            } else if end - start == 2 && path[start] == DOT && path[start + 1] == DOT {
                assert(last_segment(head) =~= seq![DOT, DOT]);
                return None;
            } else {
                assert(last_segment(head) != seq![DOT]) by {
                    if last_segment(head) == seq![DOT] {
                        assert(seq![DOT].len() == 1);
                        assert(seq![DOT][0] == DOT);
                    }
                }
                assert(last_segment(head) != seq![DOT, DOT]) by {
                    if last_segment(head) == seq![DOT, DOT] {
                        assert(seq![DOT, DOT].len() == 2);
                        assert(seq![DOT, DOT][0] == DOT);
                        assert(seq![DOT, DOT][1] == DOT);
                    }
                }
                let mut component: Vec<u8> = Vec::new();
                let mut at: usize = start;
                while at < end
                    invariant
                        start <= at <= end <= path@.len(),
                        component@ == path@.subrange(start as int, at as int),
                    decreases end - at,
                {
                    component.push(path[at]);
                    at = at + 1;
                    assert(component@ =~= path@.subrange(start as int, at as int));
                }
                return Some(component);
            }
        }
    }
    assert(path@.take(0) =~= Seq::<u8>::empty());
    None
}

} // verus!
