//! What the replicated types ask of the identities that take part in them.
use vstd::prelude::*;

verus! {

/// An identity that can break ties between concurrent writes: identities are
/// totally ordered by `rank`, and distinct identities have distinct ranks.
pub trait Actor: Copy {
    spec fn rank(self) -> int;

    fn is_above(&self, other: &Self) -> (r: bool)
        ensures
            r == (self.rank() > other.rank()),
    ;

    proof fn lemma_rank_injective(a: Self, b: Self)
        ensures
            a.rank() == b.rank() ==> a == b,
    ;
}

impl Actor for u32 {
    open spec fn rank(self) -> int {
        self as int
    }

    fn is_above(&self, other: &Self) -> (r: bool) {
        *self > *other
    }

    proof fn lemma_rank_injective(a: Self, b: Self) {
    }
}

/// Replica and client identities are 128-bit UUID values, ordered as the UUIDs are.
impl Actor for u128 {
    open spec fn rank(self) -> int {
        self as int
    }

    fn is_above(&self, other: &Self) -> (r: bool) {
        *self > *other
    }

    proof fn lemma_rank_injective(a: Self, b: Self) {
    }
}

/// A state-based replicated type: `merge` folds another replica's state into this one.
pub trait Mergeable<V>: Sized {
    /// The states that `merge` accepts.
    spec fn can_merge(&self, other: &V) -> bool;

    /// What holds of `after` when `other` was merged into `before`.
    spec fn merged_from(&self, before: &Self, other: &V) -> bool;

    fn merge(&mut self, other: &V)
        requires
            old(self).can_merge(other),
        ensures
            final(self).merged_from(&*old(self), other),
    ;
}

} // verus!
