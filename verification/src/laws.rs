//! Laws that follow from the driver's contract. `radix_sort` promises of
//! its result exactly that it is an ascending permutation of the input
//! (`to_multiset` equal and `sorted_le`); each law here takes a pair of
//! sequences so related and pins the result down further.

use vstd::prelude::*;
use vstd::relations::{sorted_by, total_ordering};
use vstd::seq_lib::lemma_sorted_unique;
use crate::order::sorted_le;

verus! {

broadcast use vstd::seq_lib::group_to_multiset_ensures;

/// An ascending sequence is determined by its multiset of values: two
/// sorted sequences holding the same elements are equal. In particular,
/// sorting an already-sorted sequence returns it unchanged, and sorting
/// twice returns what sorting once did.
pub proof fn lemma_sorted_permutation_unique(s: Seq<u64>, t: Seq<u64>)
    requires
        sorted_le(s),
        sorted_le(t),
        t.to_multiset() == s.to_multiset(),
    ensures
        t == s,
{
    let leq = |x: u64, y: u64| x <= y;
    assert(total_ordering(leq));
    assert(sorted_by(s, leq));
    assert(sorted_by(t, leq));
    lemma_sorted_unique(s, t, leq);
}

/// Sorting the empty sequence yields the empty sequence: any permutation
/// of no elements is empty.
pub proof fn lemma_sort_of_empty(s: Seq<u64>, t: Seq<u64>)
    requires
        s.len() == 0,
        t.to_multiset() == s.to_multiset(),
    ensures
        t == s,
{
    vstd::seq_lib::to_multiset_len(t);
    vstd::seq_lib::to_multiset_len(s);
    assert(t.len() == 0);
    assert(t =~= s);
}

/// Sorting a one-element sequence yields it unchanged: any permutation of
/// one element is that element alone.
pub proof fn lemma_sort_of_single(s: Seq<u64>, t: Seq<u64>)
    requires
        s.len() == 1,
        t.to_multiset() == s.to_multiset(),
    ensures
        t == s,
{
    vstd::seq_lib::to_multiset_len(t);
    vstd::seq_lib::to_multiset_len(s);
    assert(t.len() == 1);
    assert(t.contains(t[0]));
    assert(t.to_multiset().count(t[0]) > 0);
    assert(s.to_multiset().count(t[0]) > 0);
    assert(s.contains(t[0]));
    assert(t =~= s);
}

} // verus!
