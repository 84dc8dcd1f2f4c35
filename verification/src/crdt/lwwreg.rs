//! Last-writer-wins register over a 32-bit value.
use vstd::prelude::*;
use crate::crdt::actor::{Actor, Mergeable};

verus! {

/// A register whose value is the one written with the highest `(clock, actor)` stamp.
#[derive(Copy)]
pub struct LWWReg<A> {
    pub val: u32,
    /// Logical clock of the write that produced `val`.
    pub clock: u32,
    /// Identity that made that write; breaks ties between equal clocks.
    pub actor: A,
}

/// A write stamped `(clock, actor)` wins over one stamped `(clock2, actor2)`.
pub open spec fn stamp_newer<A: Actor>(clock: u32, actor: A, clock2: u32, actor2: A) -> bool {
    clock > clock2 || (clock == clock2 && actor.rank() > actor2.rank())
}

/// The register after offering it the write `(val, clock, actor)`.
pub open spec fn offered<A: Actor>(reg: LWWReg<A>, val: u32, clock: u32, actor: A) -> LWWReg<A> {
    if stamp_newer(clock, actor, reg.clock, reg.actor) {
        LWWReg { val, clock, actor }
    } else {
        reg
    }
}

/// Merging keeps whichever of the two registers holds the newer stamp,
/// and this register where neither is newer.
pub open spec fn lww_join<A: Actor>(a: LWWReg<A>, b: LWWReg<A>) -> LWWReg<A> {
    offered(a, b.val, b.clock, b.actor)
}

/// Two registers that do not hold different values under one and the same stamp.
pub open spec fn lww_compatible<A: Actor>(a: LWWReg<A>, b: LWWReg<A>) -> bool {
    (a.clock == b.clock && a.actor == b.actor) ==> a.val == b.val
}

impl<A: Actor> LWWReg<A> {
    pub fn new(val: u32, clock: u32, actor: A) -> (r: Self)
        ensures
            r == (LWWReg { val, clock, actor }),
    {
        Self { val, clock, actor }
    }

    /// A write stamped `(clock, actor)` would replace the current value.
    pub fn should_update(&self, clock: u32, actor: &A) -> (r: bool)
        ensures
            r == stamp_newer(clock, *actor, self.clock, self.actor),
    {
        if clock > self.clock {
            true
        } else if clock < self.clock {
            false
        } else {
            actor.is_above(&self.actor)
        }
    }

    pub fn update(&mut self, val: u32, clock: u32, actor: A)
        ensures
            *final(self) == offered(*old(self), val, clock, actor),
    {
        if self.should_update(clock, &actor) {
            self.val = val;
            self.clock = clock;
            self.actor = actor;
        }
    }
}

impl<A: Actor> Mergeable<LWWReg<A>> for LWWReg<A> {
    open spec fn can_merge(&self, other: &LWWReg<A>) -> bool {
        true
    }

    open spec fn merged_from(&self, before: &Self, other: &LWWReg<A>) -> bool {
        *self == lww_join(*before, *other)
    }

    fn merge(&mut self, other: &LWWReg<A>) {
        if self.should_update(other.clock, &other.actor) {
            self.val = other.val;
            self.clock = other.clock;
            self.actor = other.actor;
        }
    }
}

impl<A: Copy> Clone for LWWReg<A> {
    fn clone(&self) -> (r: Self)
        ensures
            r == *self,
    {
        *self
    }
}

impl<A: Actor + Default> Default for LWWReg<A> {
    fn default() -> (r: Self)
        ensures
            r.val == 0,
            r.clock == 0,
    {
        Self { val: 0, clock: 0, actor: A::default() }
    }
}

/// Merging a register with itself leaves it as it was.
pub proof fn lemma_lww_merge_idempotent<A: Actor>(a: LWWReg<A>)
    ensures
        lww_join(a, a) == a,
{
}

/// Merging is commutative between registers that never hold two values under one stamp.
pub proof fn lemma_lww_merge_commutative<A: Actor>(a: LWWReg<A>, b: LWWReg<A>)
    requires
        lww_compatible(a, b),
    ensures
        lww_join(a, b) == lww_join(b, a),
{
    A::lemma_rank_injective(a.actor, b.actor);
}

/// Merging is associative.
pub proof fn lemma_lww_merge_associative<A: Actor>(a: LWWReg<A>, b: LWWReg<A>, c: LWWReg<A>)
    ensures
        lww_join(lww_join(a, b), c) == lww_join(a, lww_join(b, c)),
{
}

/// After a merge, the register's stamp is at least as new as both inputs' stamps.
pub proof fn lemma_lww_merge_dominates<A: Actor>(a: LWWReg<A>, b: LWWReg<A>)
    ensures
        !stamp_newer(a.clock, a.actor, lww_join(a, b).clock, lww_join(a, b).actor),
        !stamp_newer(b.clock, b.actor, lww_join(a, b).clock, lww_join(a, b).actor),
{
}

} // verus!
