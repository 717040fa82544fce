//! The ordering step of latency percentiles.
//!
//! Percentiles use linear interpolation between closest ranks over the sorted
//! sample; this module produces that sorted sample.

use vstd::prelude::*;

use crate::trace::{ascending, lemma_insert_sorted_ascending, lemma_insert_sorted_at};

verus! {

/// The sample in ascending order: the same values, each as often as in the
/// input. The input need not be pre-sorted.
pub fn sorted_samples(values: &[u64]) -> (r: Vec<u64>)
    ensures
        ascending(r@),
        r@.to_multiset() == values@.to_multiset(),
{
    let mut r: Vec<u64> = Vec::new();
    let mut i: usize = 0;
    proof {
        broadcast use vstd::seq_lib::group_to_multiset_ensures;
        assert(values@.take(0) =~= Seq::<u64>::empty());
        assert(r@ =~= Seq::<u64>::empty());
    }
    while i < values.len()
        invariant
            0 <= i <= values@.len(),
            ascending(r@),
            r@.to_multiset() == values@.take(i as int).to_multiset(),
        decreases values@.len() - i,
    {
        let x = values[i];
        let ghost before = r@;
        let mut p: usize = r.len();
        while p > 0 && r[p - 1] > x
            invariant
                0 <= p <= r@.len(),
                r@ == before,
                ascending(before),
                forall|k: int| p <= k < before.len() ==> before[k] > x,
            decreases p,
        {
            p = p - 1;
        }
        proof {
            assert forall|k: int| 0 <= k < p implies before[k] <= x by {
                assert(before[k] <= before[p - 1]);
            }
            lemma_insert_sorted_at(before, x, p as int);
            lemma_insert_sorted_ascending(before, x);
            assert(values@.take(i + 1) =~= values@.take(i as int).push(x));
            broadcast use vstd::seq_lib::group_to_multiset_ensures;
        }
        r.insert(p, x);
        i = i + 1;
    }
    assert(values@.take(values@.len() as int) =~= values@);
    r
}

} // verus!
