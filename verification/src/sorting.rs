//! Sorting of index buffers.
//!
//! Order-stable grouping puts every group's sampled indices back into
//! ascending order; this module names that order and provides a verified
//! sort for index vectors.

use vstd::prelude::*;
use vstd::relations::{sorted_by, total_ordering};
use vstd::seq_lib::lemma_sorted_unique;

verus! {

/// The ascending order on indices.
pub open spec fn le_idx() -> spec_fn(usize, usize) -> bool {
    |a: usize, b: usize| a <= b
}

/// `s` rearranged into ascending order.
pub open spec fn sort_idxs(s: Seq<usize>) -> Seq<usize> {
    s.sort_by(le_idx())
}

/// The ascending order on indices is a total order.
pub proof fn lemma_le_idx_total()
    ensures
        total_ordering(le_idx()),
{
}

/// What the ascending rearrangement guarantees.
pub proof fn lemma_sort_idxs_ensures(s: Seq<usize>)
    ensures
        sort_idxs(s).len() == s.len(),
        sort_idxs(s).to_multiset() == s.to_multiset(),
        sorted_by(sort_idxs(s), le_idx()),
    decreases s.len(),
{
    broadcast use vstd::seq_lib::group_to_multiset_ensures;

    lemma_le_idx_total();
    s.lemma_sort_by_ensures(le_idx());
    assert(sort_idxs(s).to_multiset() =~= s.to_multiset());
    assert(s.to_multiset().len() == s.len());
    assert(sort_idxs(s).to_multiset().len() == sort_idxs(s).len());
}

/// A sorted sequence with the same contents as `s` is its ascending
/// rearrangement.
pub proof fn lemma_sorted_is_sort_idxs(s: Seq<usize>, t: Seq<usize>)
    requires
        sorted_by(t, le_idx()),
        t.to_multiset() == s.to_multiset(),
    ensures
        t == sort_idxs(s),
{
    lemma_le_idx_total();
    lemma_sort_idxs_ensures(s);
    lemma_sorted_unique(t, sort_idxs(s), le_idx());
}

/// Sort an index vector ascending by repeatedly extracting the minimum.
pub fn sort_indices(idxs: Vec<usize>) -> (out: Vec<usize>)
    ensures
        out@ == sort_idxs(idxs@),
{
    let mut v = idxs;
    let mut out: Vec<usize> = Vec::new();
    proof {
        broadcast use vstd::multiset::group_multiset_axioms;

        assert forall|e: usize| out@.to_multiset().count(e) == 0 by {
            vstd::seq_lib::to_multiset_contains(out@, e);
        }
        assert(out@.to_multiset().add(v@.to_multiset()) =~= idxs@.to_multiset());
    }
    while v.len() > 0
        invariant
            out@.to_multiset().add(v@.to_multiset()) =~= idxs@.to_multiset(),
            sorted_by(out@, le_idx()),
            forall|i: int, j: int|
                0 <= i < out@.len() && 0 <= j < v@.len() ==> out@[i] <= v@[j],
        decreases v@.len(),
    {
        let ghost prev_out = out@;
        let ghost prev_v = v@;
        let mut m: usize = 0;
        let mut p: usize = 1;
        while p < v.len()
            invariant
                0 < v@.len(),
                m < p <= v@.len(),
                forall|q: int| 0 <= q < p ==> v@[m as int] <= v@[q],
            decreases v@.len() - p,
        {
            if v[p] < v[m] {
                m = p;
            }
            p = p + 1;
        }
        let x = v.remove(m);
        out.push(x);
        proof {
            broadcast use vstd::multiset::group_multiset_axioms;

            vstd::seq_lib::to_multiset_remove(prev_v, m as int);
            vstd::seq_lib::to_multiset_build(prev_out, x);
            assert(prev_v.contains(x)) by {
                assert(prev_v[m as int] == x);
            }
            vstd::seq_lib::to_multiset_contains(prev_v, x);
            assert(out@.to_multiset().add(v@.to_multiset()) =~= idxs@.to_multiset());
            assert forall|i: int, j: int|
                0 <= i < out@.len() && 0 <= j < v@.len() implies out@[i] <= v@[j] by {
                assert(v@[j] == prev_v.remove(m as int)[j]);
            }
            assert forall|i: int, j: int|
                0 <= i < j < out@.len() implies le_idx()(out@[i], out@[j]) by {
                if j < out@.len() - 1 {
                    assert(le_idx()(prev_out[i], prev_out[j]));
                }
            }
        }
    }
    proof {
        broadcast use vstd::multiset::group_multiset_axioms;

        vstd::seq_lib::to_multiset_len(v@);
        assert(out@.to_multiset().add(v@.to_multiset()) =~= out@.to_multiset());
        assert(out@.to_multiset() == idxs@.to_multiset());
        lemma_sorted_is_sort_idxs(idxs@, out@);
    }
    out
}

} // verus!
