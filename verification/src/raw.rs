//! Raw names: the bytes of a file name as the file system holds them, and
//! the order in which a listing by name puts them.

use vstd::prelude::*;

verus! {

/// `a` and `b` hold the same bytes at every index below `k`.
pub open spec fn agree_below(a: Seq<u8>, b: Seq<u8>, k: int) -> bool {
    &&& 0 <= k <= a.len()
    &&& k <= b.len()
    &&& forall|t: int| 0 <= t < k ==> a[t] == b[t]
}

/// `a` and `b` agree below `k`, and at `k` either `a` has ended while `b`
/// goes on, or `a` holds the smaller byte.
pub open spec fn sorts_before_at(a: Seq<u8>, b: Seq<u8>, k: int) -> bool {
    &&& agree_below(a, b, k)
    &&& k < b.len()
    &&& (k == a.len() || a[k] < b[k])
}

/// The strict lexicographic order on byte strings: a proper prefix comes
/// first, and otherwise the first byte that differs decides.
pub open spec fn sorts_before(a: Seq<u8>, b: Seq<u8>) -> bool {
    exists|k: int| sorts_before_at(a, b, k)
}

/// A byte string never sorts before itself, and of two byte strings at most
/// one sorts before the other.
pub proof fn lemma_sorts_before_asymmetric(a: Seq<u8>, b: Seq<u8>)
    requires
        sorts_before(a, b),
    ensures
        !sorts_before(b, a),
        a != b,
{
    let k = choose|k: int| sorts_before_at(a, b, k);
    if sorts_before(b, a) {
        let m = choose|m: int| sorts_before_at(b, a, m);
        if k < m {
            assert(b[k] == a[k]);
        } else if m < k {
            assert(a[m] == b[m]);
        }
    }
}

/// The order is transitive.
pub proof fn lemma_sorts_before_transitive(a: Seq<u8>, b: Seq<u8>, c: Seq<u8>)
    requires
        sorts_before(a, b),
        sorts_before(b, c),
    ensures
        sorts_before(a, c),
{
    let k = choose|k: int| sorts_before_at(a, b, k);
    let m = choose|m: int| sorts_before_at(b, c, m);
    let n = if k <= m { k } else { m };
    assert(sorts_before_at(a, c, n));
}

/// Two byte strings that agree below `k` and are not equal differ at a first
/// index, and that index decides which of them sorts before the other.
proof fn lemma_first_difference_decides(a: Seq<u8>, b: Seq<u8>, k: int)
    requires
        agree_below(a, b, k),
        a != b,
    ensures
        sorts_before(a, b) || sorts_before(b, a),
    decreases a.len() - k,
{
    if k == a.len() {
        if k == b.len() {
            assert(a =~= b);
        } else {
            assert(sorts_before_at(a, b, k));
        }
    } else if k == b.len() {
        assert(sorts_before_at(b, a, k));
    } else if a[k] < b[k] {
        assert(sorts_before_at(a, b, k));
    } else if b[k] < a[k] {
        assert(sorts_before_at(b, a, k));
    } else {
        lemma_first_difference_decides(a, b, k + 1);
    }
}

/// The order is total: of two different byte strings one sorts before the
/// other.
pub proof fn lemma_sorts_before_total(a: Seq<u8>, b: Seq<u8>)
    requires
        a != b,
    ensures
        sorts_before(a, b) || sorts_before(b, a),
{
    lemma_first_difference_decides(a, b, 0);
}

/// The length of the longest common prefix of `a` and `b`: the first index at
/// which they differ, or the length of the shorter one.
pub fn first_difference(a: &Vec<u8>, b: &Vec<u8>) -> (k: usize)
    ensures
        agree_below(a@, b@, k as int),
        k < a@.len() && k < b@.len() ==> a@[k as int] != b@[k as int],
{
    let mut k: usize = 0;
    while k < a.len() && k < b.len() && a[k] == b[k]
        invariant
            agree_below(a@, b@, k as int),
        decreases a@.len() - k,
    {
        k = k + 1;
    }
    k
}

/// How two raw names stand to each other in the order by name.
#[derive(Debug, Clone, Copy, PartialEq, Eq, Structural)]
pub enum Standing {
    /// The first sorts before the second.
    Before,
    /// They hold the same bytes.
    Same,
    /// The second sorts before the first.
    After,
}

/// Where `a` stands to `b` under [`sorts_before`].
pub open spec fn standing_of(a: Seq<u8>, b: Seq<u8>) -> Standing {
    if sorts_before(a, b) {
        Standing::Before
    } else if a == b {
        Standing::Same
    } else {
        Standing::After
    }
}

/// Compares two raw names byte by byte.
pub fn compare_raw(a: &Vec<u8>, b: &Vec<u8>) -> (standing: Standing)
    ensures
        standing == standing_of(a@, b@),
        standing == Standing::After <==> sorts_before(b@, a@),
{
    let k = first_difference(a, b);
    if k < b.len() && (k == a.len() || a[k] < b[k]) {
        assert(sorts_before_at(a@, b@, k as int));
        proof {
            lemma_sorts_before_asymmetric(a@, b@);
        }
        Standing::Before
    } else if k < a.len() {
        assert(sorts_before_at(b@, a@, k as int));
        proof {
            lemma_sorts_before_asymmetric(b@, a@);
        }
        Standing::After
    } else {
        assert(a@ =~= b@);
        assert(!sorts_before(a@, b@)) by {
            if sorts_before(a@, b@) {
                lemma_sorts_before_asymmetric(a@, b@);
            }
        }
        Standing::Same
    }
}

/// The byte of a full stop, with which a hidden name begins.
pub const DOT: u8 = 0x2e;

/// A name is hidden when it begins with a full stop.
pub open spec fn is_hidden(name: Seq<u8>) -> bool {
    name.len() > 0 && name[0] == DOT
}

/// Tells whether a raw name is hidden.
pub fn name_is_hidden(name: &Vec<u8>) -> (hidden: bool)
    ensures
        hidden == is_hidden(name@),
{
    name.len() > 0 && name[0] == DOT
}

} // verus!
