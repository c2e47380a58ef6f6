//! Finite sets of indices.

use vstd::prelude::*;

verus! {

/// The indices below `n`.
pub open spec fn below(n: nat) -> Set<usize> {
    Set::new(|i: usize| i < n)
}

pub proof fn lemma_below_finite(n: nat)
    requires
        n <= usize::MAX,
    ensures
        below(n).finite(),
        below(n).len() == n,
    decreases n,
{
    if n == 0 {
        assert(below(n) =~= Set::empty());
    } else {
        lemma_below_finite((n - 1) as nat);
        assert(below(n) =~= below((n - 1) as nat).insert((n - 1) as usize));
    }
}

/// A set of indices below `n` has at most `n` members.
pub proof fn lemma_below_bounds_len(n: nat, set: Set<usize>)
    requires
        n <= usize::MAX,
        set.subset_of(below(n)),
    ensures
        set.finite(),
        set.len() <= n,
{
    lemma_below_finite(n);
    vstd::set_lib::lemma_set_subset_finite(below(n), set);
    vstd::set_lib::lemma_len_subset(set, below(n));
}

} // verus!
