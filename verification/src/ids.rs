//! Spec-level helpers about sequences of numeric identifiers.
//!
//! World entities, job slots and queued mutations are all keyed by `u64`
//! identifiers drawn from one counter; these definitions state what it
//! means for such identifier sequences to be duplicate-free, bounded and
//! mutually disjoint.

use vstd::prelude::*;

verus! {

/// No identifier occurs twice in `s`.
pub open spec fn nodup(s: Seq<u64>) -> bool {
    forall|i: int, j: int| 0 <= i < j < s.len() ==> s[i] != s[j]
}

/// Every identifier in `s` is strictly below `bound`.
pub open spec fn below(s: Seq<u64>, bound: u64) -> bool {
    forall|i: int| 0 <= i < s.len() ==> s[i] < bound
}

/// No identifier occurs in both `a` and `b`.
pub open spec fn disjoint_ids(a: Seq<u64>, b: Seq<u64>) -> bool {
    forall|i: int, j: int| 0 <= i < a.len() && 0 <= j < b.len() ==> a[i] != b[j]
}

/// How many times `x` occurs in `s`.
pub open spec fn occ(s: Seq<u64>, x: u64) -> nat
    decreases s.len(),
{
    if s.len() == 0 {
        0
    } else {
        occ(s.drop_last(), x) + (if s.last() == x { 1nat } else { 0nat })
    }
}

/// `occ` counts occurrences: it is zero exactly when `x` is absent.
pub proof fn lemma_occ_zero(s: Seq<u64>, x: u64)
    ensures
        occ(s, x) == 0 <==> !s.contains(x),
    decreases s.len(),
{
    if s.len() > 0 {
        lemma_occ_zero(s.drop_last(), x);
        assert(s.contains(x) <==> (s.drop_last().contains(x) || s.last() == x)) by {
            if s.contains(x) {
                let i = choose|i: int| 0 <= i < s.len() && s[i] == x;
                if i < s.len() - 1 {
                    assert(s.drop_last()[i] == x);
                }
            }
            if s.drop_last().contains(x) {
                let i = choose|i: int| 0 <= i < s.drop_last().len() && s.drop_last()[i] == x;
                assert(s[i] == x);
            }
        }
    }
}

/// `occ` adds up across concatenation.
pub proof fn lemma_occ_concat(a: Seq<u64>, b: Seq<u64>, x: u64)
    ensures
        occ(a + b, x) == occ(a, x) + occ(b, x),
    decreases b.len(),
{
    if b.len() == 0 {
        assert(a + b =~= a);
    } else {
        lemma_occ_concat(a, b.drop_last(), x);
        assert((a + b).drop_last() =~= a + b.drop_last());
        assert((a + b).last() == b.last());
    }
}

/// In a duplicate-free sequence every present identifier occurs exactly once.
pub proof fn lemma_occ_nodup(s: Seq<u64>, x: u64)
    requires
        nodup(s),
        s.contains(x),
    ensures
        occ(s, x) == 1,
    decreases s.len(),
{
    if s.last() == x {
        assert(!s.drop_last().contains(x)) by {
            if s.drop_last().contains(x) {
                let i = choose|i: int| 0 <= i < s.drop_last().len() && s.drop_last()[i] == x;
                assert(s[i] == x && s[s.len() - 1] == x);
            }
        }
        lemma_occ_zero(s.drop_last(), x);
    } else {
        assert(s.drop_last().contains(x)) by {
            let i = choose|i: int| 0 <= i < s.len() && s[i] == x;
            assert(s.drop_last()[i] == x);
        }
        assert(nodup(s.drop_last()));
        lemma_occ_nodup(s.drop_last(), x);
    }
}

/// Concatenating duplicate-free, disjoint identifier sequences stays
/// duplicate-free.
pub proof fn lemma_nodup_concat(a: Seq<u64>, b: Seq<u64>)
    requires
        nodup(a),
        nodup(b),
        disjoint_ids(a, b),
    ensures
        nodup(a + b),
{
    assert forall|i: int, j: int| 0 <= i < j < (a + b).len() implies (a + b)[i] != (a + b)[j] by {
        if j < a.len() {
            assert((a + b)[i] == a[i] && (a + b)[j] == a[j]);
        } else if i >= a.len() {
            assert((a + b)[i] == b[i - a.len()] && (a + b)[j] == b[j - a.len()]);
        } else {
            assert((a + b)[i] == a[i] && (a + b)[j] == b[j - a.len()]);
        }
    }
}

/// An identifier at or above a bound never occurs below it.
pub proof fn lemma_below_absent(s: Seq<u64>, bound: u64, x: u64)
    requires
        below(s, bound),
        x >= bound,
    ensures
        !s.contains(x),
{
}

} // verus!
