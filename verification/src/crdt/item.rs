//! One entry of a shopping list.
use vstd::prelude::*;
use crate::crdt::actor::Mergeable;
use crate::crdt::gcounter::{
    join_counts, lemma_join_counts_associative, lemma_join_counts_commutative,
    lemma_join_counts_idempotent,
};
use crate::crdt::lwwreg::{
    lemma_lww_merge_associative, lemma_lww_merge_commutative, lww_compatible, lww_join, LWWReg,
};
use crate::crdt::pncounter::PNCounter;

verus! {

/// The state of an item: the per-replica counts behind its quantity, and its
/// acquired flag (0 or 1) as a last-writer-wins register.
pub struct ItemView {
    pub increments: Map<u128, u64>,
    pub decrements: Map<u128, u64>,
    pub acquired: LWWReg<u128>,
}

/// Merging two items merges their quantities and their acquired flags.
pub open spec fn item_join(a: ItemView, b: ItemView) -> ItemView {
    ItemView {
        increments: join_counts(a.increments, b.increments),
        decrements: join_counts(a.decrements, b.decrements),
        acquired: lww_join(a.acquired, b.acquired),
    }
}

/// A shopping-list item: how many to buy, and whether it was acquired.
pub struct Item {
    pub amount: PNCounter,
    pub acquired: LWWReg<u128>,
}

impl View for Item {
    type V = ItemView;

    open spec fn view(&self) -> ItemView {
        ItemView {
            increments: self.amount.increments(),
            decrements: self.amount.decrements(),
            acquired: self.acquired,
        }
    }
}

impl Item {
    pub open spec fn wf(&self) -> bool {
        self.amount.wf()
    }

    /// A fresh item written by `actor`: `quantity` increments by `actor`, and the
    /// acquired flag set at clock 0.
    pub fn new(quantity: u64, acquired: bool, actor: u128) -> (r: Self)
        ensures
            r.wf(),
            r@.increments == map![actor => quantity],
            r@.decrements == Map::<u128, u64>::empty(),
            r.acquired == (LWWReg { val: if acquired { 1u32 } else { 0u32 }, clock: 0u32, actor }),
            r.amount.inc_owner() == actor,
            r.amount.dec_owner() == actor,
    {
        let mut amount = PNCounter::new(actor);
        amount.inc_by(quantity);
        let val: u32 = if acquired {
            1
        } else {
            0
        };
        proof {
            assert(Map::<u128, u64>::empty().insert(actor, quantity) =~= map![actor => quantity]);
        }
        Item { amount, acquired: LWWReg::new(val, 0, actor) }
    }
}

impl Clone for Item {
    fn clone(&self) -> (r: Self)
        ensures
            r.wf() == self.wf(),
            r@ == self@,
            r.amount.inc_owner() == self.amount.inc_owner(),
            r.amount.dec_owner() == self.amount.dec_owner(),
    {
        Item { amount: self.amount.clone(), acquired: self.acquired }
    }
}

impl Mergeable<Item> for Item {
    open spec fn can_merge(&self, other: &Item) -> bool {
        self.wf() && other.wf()
    }

    open spec fn merged_from(&self, before: &Self, other: &Item) -> bool {
        &&& self.wf()
        &&& self@ == item_join(before@, other@)
        &&& self.amount.inc_owner() == before.amount.inc_owner()
        &&& self.amount.dec_owner() == before.amount.dec_owner()
    }

    fn merge(&mut self, other: &Item) {
        self.amount.merge(&other.amount);
        self.acquired.merge(&other.acquired);
    }
}


/// Merging an item with itself leaves it as it was.
pub proof fn lemma_item_join_idempotent(a: ItemView)
    ensures
        item_join(a, a) == a,
{
    lemma_join_counts_idempotent(a.increments);
    lemma_join_counts_idempotent(a.decrements);
}

/// Merging items is commutative when their acquired flags are compatible.
pub proof fn lemma_item_join_commutative(a: ItemView, b: ItemView)
    requires
        lww_compatible(a.acquired, b.acquired),
    ensures
        item_join(a, b) == item_join(b, a),
{
    lemma_join_counts_commutative(a.increments, b.increments);
    lemma_join_counts_commutative(a.decrements, b.decrements);
    lemma_lww_merge_commutative(a.acquired, b.acquired);
}

/// Merging items is associative.
pub proof fn lemma_item_join_associative(a: ItemView, b: ItemView, c: ItemView)
    ensures
        item_join(item_join(a, b), c) == item_join(a, item_join(b, c)),
{
    lemma_join_counts_associative(a.increments, b.increments, c.increments);
    lemma_join_counts_associative(a.decrements, b.decrements, c.decrements);
    lemma_lww_merge_associative(a.acquired, b.acquired, c.acquired);
}

} // verus!
