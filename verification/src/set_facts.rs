use vstd::prelude::*;

verus! {

/// The indices below `n`, as a set of machine integers.
pub open spec fn indices_below(n: nat) -> Set<usize> {
    Set::new(|i: usize| i < n)
}

/// There are exactly `n` indices below `n`.
pub proof fn lemma_indices_below(n: nat)
    requires
        n <= usize::MAX + 1,
    ensures
        indices_below(n).finite(),
        indices_below(n).len() == n,
    decreases n,
{
    if n == 0 {
        assert(indices_below(n) =~= Set::empty());
    } else {
        lemma_indices_below((n - 1) as nat);
        assert(indices_below((n - 1) as nat).insert((n - 1) as usize) =~= indices_below(n));
    }
}

/// A set of indices that all lie below `n` is finite and has at most `n` members.
pub proof fn lemma_bounded_set_len(s: Set<usize>, n: nat)
    requires
        n <= usize::MAX + 1,
        forall|i: usize| #[trigger] s.contains(i) ==> i < n,
    ensures
        s.finite(),
        s.len() <= n,
{
    lemma_indices_below(n);
    vstd::set_lib::lemma_len_subset(s, indices_below(n));
}

/// A set of indices below `n` that misses one of them has fewer than `n` members.
pub proof fn lemma_bounded_set_len_missing(s: Set<usize>, n: nat, missing: usize)
    requires
        n <= usize::MAX + 1,
        missing < n,
        !s.contains(missing),
        forall|i: usize| #[trigger] s.contains(i) ==> i < n,
    ensures
        s.finite(),
        s.len() < n,
{
    lemma_indices_below(n);
    assert(s.subset_of(indices_below(n).remove(missing)));
    vstd::set_lib::lemma_len_subset(s, indices_below(n).remove(missing));
}

} // verus!
