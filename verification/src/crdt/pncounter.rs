//! Counter that can go up and down, built from two grow-only counters.
use vstd::prelude::*;
use crate::crdt::actor::Mergeable;
use crate::crdt::gcounter::{count_of, join_counts, map_total, GCounter};

verus! {

/// Increments and decrements are counted apart; the value is their difference.
pub struct PNCounter {
    p: GCounter,
    n: GCounter,
}

impl PNCounter {
    pub closed spec fn wf(&self) -> bool {
        self.p.wf() && self.n.wf()
    }

    /// Increments recorded per replica.
    pub closed spec fn increments(&self) -> Map<u128, u64> {
        self.p@
    }

    /// Decrements recorded per replica.
    pub closed spec fn decrements(&self) -> Map<u128, u64> {
        self.n@
    }

    /// The replica on whose behalf increments are recorded.
    pub closed spec fn inc_owner(&self) -> u128 {
        self.p.owner()
    }

    /// The replica on whose behalf decrements are recorded.
    pub closed spec fn dec_owner(&self) -> u128 {
        self.n.owner()
    }

    /// Value counted by all replicas together.
    pub open spec fn total(&self) -> int {
        map_total(self.increments()) - map_total(self.decrements())
    }

    /// Value counted by this replica alone.
    pub open spec fn local(&self) -> int {
        count_of(self.increments(), self.inc_owner()) - count_of(self.decrements(), self.dec_owner())
    }

    /// Setting one replica's increment or decrement count changes the matching
    /// total by the difference.
    pub proof fn lemma_totals_insert(&self, key: u128, val: u64)
        requires
            self.wf(),
        ensures
            map_total(self.increments().insert(key, val)) == map_total(self.increments())
                - count_of(self.increments(), key) + val,
            map_total(self.decrements().insert(key, val)) == map_total(self.decrements())
                - count_of(self.decrements(), key) + val,
            map_total(self.increments()) >= 0,
            map_total(self.decrements()) >= 0,
    {
        self.p.lemma_total_insert(key, val);
        self.n.lemma_total_insert(key, val);
        self.p.lemma_total_nonneg();
        self.n.lemma_total_nonneg();
    }

    pub fn new(id: u128) -> (r: Self)
        ensures
            r.wf(),
            r.increments() == Map::<u128, u64>::empty(),
            r.decrements() == Map::<u128, u64>::empty(),
            r.inc_owner() == id,
            r.dec_owner() == id,
            r.total() == 0,
    {
        PNCounter { p: GCounter::new(id), n: GCounter::new(id) }
    }

    /// Builds a counter from its increment and decrement halves.
    pub fn from_parts(p: GCounter, n: GCounter) -> (r: Self)
        requires
            p.wf(),
            n.wf(),
        ensures
            r.wf(),
            r.increments() == p@,
            r.decrements() == n@,
            r.inc_owner() == p.owner(),
            r.dec_owner() == n.owner(),
    {
        PNCounter { p, n }
    }

    /// The increment half.
    pub fn positive(&self) -> (r: &GCounter)
        ensures
            self.wf() ==> r.wf(),
            r@ == self.increments(),
            r.owner() == self.inc_owner(),
    {
        &self.p
    }

    /// The decrement half.
    pub fn negative(&self) -> (r: &GCounter)
        ensures
            self.wf() ==> r.wf(),
            r@ == self.decrements(),
            r.owner() == self.dec_owner(),
    {
        &self.n
    }

    pub fn inc(&mut self)
        requires
            old(self).wf(),
            count_of(old(self).increments(), old(self).inc_owner()) < u64::MAX,
        ensures
            final(self).wf(),
            final(self).increments() == old(self).increments().insert(
                old(self).inc_owner(),
                (count_of(old(self).increments(), old(self).inc_owner()) + 1) as u64,
            ),
            final(self).decrements() == old(self).decrements(),
            final(self).inc_owner() == old(self).inc_owner(),
            final(self).dec_owner() == old(self).dec_owner(),
            final(self).total() == old(self).total() + 1,
    {
        self.p.inc();
    }

    pub fn dec(&mut self)
        requires
            old(self).wf(),
            count_of(old(self).decrements(), old(self).dec_owner()) < u64::MAX,
        ensures
            final(self).wf(),
            final(self).decrements() == old(self).decrements().insert(
                old(self).dec_owner(),
                (count_of(old(self).decrements(), old(self).dec_owner()) + 1) as u64,
            ),
            final(self).increments() == old(self).increments(),
            final(self).inc_owner() == old(self).inc_owner(),
            final(self).dec_owner() == old(self).dec_owner(),
            final(self).total() == old(self).total() - 1,
    {
        self.n.inc();
    }

    /// Counts `k` increments at once.
    pub fn inc_by(&mut self, k: u64)
        requires
            old(self).wf(),
            count_of(old(self).increments(), old(self).inc_owner()) + k <= u64::MAX,
        ensures
            final(self).wf(),
            final(self).increments() == old(self).increments().insert(
                old(self).inc_owner(),
                (count_of(old(self).increments(), old(self).inc_owner()) + k) as u64,
            ),
            final(self).decrements() == old(self).decrements(),
            final(self).inc_owner() == old(self).inc_owner(),
            final(self).dec_owner() == old(self).dec_owner(),
            final(self).total() == old(self).total() + k,
    {
        self.p.inc_by(k);
    }

    /// Counts `k` decrements at once.
    pub fn dec_by(&mut self, k: u64)
        requires
            old(self).wf(),
            count_of(old(self).decrements(), old(self).dec_owner()) + k <= u64::MAX,
        ensures
            final(self).wf(),
            final(self).decrements() == old(self).decrements().insert(
                old(self).dec_owner(),
                (count_of(old(self).decrements(), old(self).dec_owner()) + k) as u64,
            ),
            final(self).increments() == old(self).increments(),
            final(self).inc_owner() == old(self).inc_owner(),
            final(self).dec_owner() == old(self).dec_owner(),
            final(self).total() == old(self).total() - k,
    {
        self.n.inc_by(k);
    }

    pub fn value_local(&self) -> (r: i64)
        requires
            self.wf(),
            count_of(self.increments(), self.inc_owner()) <= i64::MAX,
            count_of(self.decrements(), self.dec_owner()) <= i64::MAX,
        ensures
            r == self.local(),
    {
        self.p.value_local() as i64 - self.n.value_local() as i64
    }

    /// Whether both halves total at most `i64::MAX`, as `value_total` needs.
    pub fn totals_fit(&self) -> (r: bool)
        requires
            self.wf(),
        ensures
            r == (map_total(self.increments()) <= i64::MAX && map_total(self.decrements())
                <= i64::MAX),
    {
        proof {
            self.p.lemma_total_nonneg();
            self.n.lemma_total_nonneg();
        }
        let limit: u64 = 9223372036854775807;
        let fits_p = match self.p.value_total_checked() {
            Some(a) => a <= limit,
            None => false,
        };
        let fits_n = match self.n.value_total_checked() {
            Some(b) => b <= limit,
            None => false,
        };
        fits_p && fits_n
    }

    pub fn value_total(&self) -> (r: i64)
        requires
            self.wf(),
            map_total(self.increments()) <= i64::MAX,
            map_total(self.decrements()) <= i64::MAX,
        ensures
            r == self.total(),
    {
        self.p.value_total() as i64 - self.n.value_total() as i64
    }
}

impl Clone for PNCounter {
    fn clone(&self) -> (r: Self)
        ensures
            r.wf() == self.wf(),
            r.increments() == self.increments(),
            r.decrements() == self.decrements(),
            r.inc_owner() == self.inc_owner(),
            r.dec_owner() == self.dec_owner(),
    {
        PNCounter { p: self.p.clone(), n: self.n.clone() }
    }
}

impl Mergeable<PNCounter> for PNCounter {
    open spec fn can_merge(&self, other: &PNCounter) -> bool {
        self.wf() && other.wf()
    }

    open spec fn merged_from(&self, before: &Self, other: &PNCounter) -> bool {
        &&& self.wf()
        &&& self.increments() == join_counts(before.increments(), other.increments())
        &&& self.decrements() == join_counts(before.decrements(), other.decrements())
        &&& self.inc_owner() == before.inc_owner()
        &&& self.dec_owner() == before.dec_owner()
    }

    fn merge(&mut self, other: &PNCounter) {
        self.p.merge(&other.p);
        self.n.merge(&other.n);
    }
}

} // verus!
