//! Grow-only counter with one entry per replica.
use vstd::prelude::*;
use crate::crdt::actor::Mergeable;
use crate::sorted_map::{
    lemma_canonical, lemma_insert_at, lemma_slot, lemma_to_map_empty, lemma_to_map_entries,
    lemma_to_map_take_next, lemma_update_at, slot, sm_get, sm_insert, sorted, to_map,
};

verus! {

/// The count that `m` records for `k`; zero where it records none.
pub open spec fn count_of(m: Map<u128, u64>, k: u128) -> u64 {
    if m.dom().contains(k) {
        m[k]
    } else {
        0
    }
}

pub open spec fn max_u64(a: u64, b: u64) -> u64 {
    if a >= b {
        a
    } else {
        b
    }
}

/// Pointwise maximum of two count maps, over the union of their replicas.
pub open spec fn join_counts(a: Map<u128, u64>, b: Map<u128, u64>) -> Map<u128, u64> {
    Map::new(
        |k: u128| a.dom().contains(k) || b.dom().contains(k),
        |k: u128| max_u64(count_of(a, k), count_of(b, k)),
    )
}

/// Sum of the counts of a sequence of entries.
pub open spec fn seq_total(s: Seq<(u128, u64)>) -> int
    decreases s.len(),
{
    if s.len() == 0 {
        0
    } else {
        s[0].1 + seq_total(s.drop_first())
    }
}

/// Sum of all counts in the map: the total over its listing in increasing replica order.
pub open spec fn map_total(m: Map<u128, u64>) -> int {
    seq_total(choose|s: Seq<(u128, u64)>| is_listing(s, m))
}

/// `s` lists the entries of `m` in increasing key order.
pub open spec fn is_listing(s: Seq<(u128, u64)>, m: Map<u128, u64>) -> bool {
    sorted(s) && to_map(s) == m
}

/// The map that results from recording each `(replica, count)` pair in turn,
/// later pairs replacing earlier ones for the same replica.
pub open spec fn pairs_map(s: Seq<(u128, u64)>) -> Map<u128, u64>
    decreases s.len(),
{
    if s.len() == 0 {
        Map::empty()
    } else {
        pairs_map(s.drop_last()).insert(s.last().0, s.last().1)
    }
}

/// For entries whose keys strictly increase, recording the pairs in turn gives the
/// map that the entries describe.
pub proof fn lemma_pairs_map_sorted(s: Seq<(u128, u64)>)
    requires
        sorted(s),
    ensures
        pairs_map(s) == to_map(s),
{
    lemma_pairs_map_prefix(s, s.len() as int);
    assert(s.take(s.len() as int) =~= s);
}

proof fn lemma_pairs_map_prefix(s: Seq<(u128, u64)>, i: int)
    requires
        sorted(s),
        0 <= i <= s.len(),
    ensures
        pairs_map(s.take(i)) == to_map(s.take(i)),
    decreases i,
{
    if i == 0 {
        lemma_to_map_empty(s.take(0));
        assert(pairs_map(s.take(0)) =~= Map::<u128, u64>::empty());
    } else {
        lemma_pairs_map_prefix(s, i - 1);
        lemma_to_map_take_next(s, i - 1);
        assert(s.take(i).drop_last() =~= s.take(i - 1));
        assert(s.take(i).last() == s[i - 1]);
    }
}

pub proof fn lemma_seq_total_nonneg(s: Seq<(u128, u64)>)
    ensures
        seq_total(s) >= 0,
    decreases s.len(),
{
    if s.len() > 0 {
        lemma_seq_total_nonneg(s.drop_first());
    }
}

/// The total of a sorted listing is the total of its map.
pub proof fn lemma_map_total(s: Seq<(u128, u64)>)
    requires
        sorted(s),
    ensures
        map_total(to_map(s)) == seq_total(s),
{
    let m = to_map(s);
    assert(is_listing(s, m));
    let t = choose|t: Seq<(u128, u64)>| is_listing(t, m);
    lemma_canonical(t, s);
}

proof fn lemma_seq_total_update(s: Seq<(u128, u64)>, i: int, e: (u128, u64))
    requires
        0 <= i < s.len(),
    ensures
        seq_total(s.update(i, e)) == seq_total(s) - s[i].1 + e.1,
    decreases s.len(),
{
    let t = s.update(i, e);
    if i == 0 {
        assert(t.drop_first() =~= s.drop_first());
    } else {
        lemma_seq_total_update(s.drop_first(), i - 1, e);
        assert(t.drop_first() =~= s.drop_first().update(i - 1, e));
    }
}

proof fn lemma_seq_total_insert(s: Seq<(u128, u64)>, i: int, e: (u128, u64))
    requires
        0 <= i <= s.len(),
    ensures
        seq_total(s.insert(i, e)) == seq_total(s) + e.1,
    decreases s.len(),
{
    let t = s.insert(i, e);
    if i == 0 {
        assert(t.drop_first() =~= s);
    } else {
        lemma_seq_total_insert(s.drop_first(), i - 1, e);
        assert(t.drop_first() =~= s.drop_first().insert(i - 1, e));
    }
}

/// Setting one replica's count changes the total by the difference.
pub proof fn lemma_map_total_insert(s: Seq<(u128, u64)>, key: u128, val: u64)
    requires
        sorted(s),
    ensures
        map_total(to_map(s).insert(key, val)) == map_total(to_map(s)) - count_of(to_map(s), key)
            + val,
{
    lemma_map_total(s);
    lemma_slot(s, key);
    lemma_to_map_entries(s);
    let i = slot(s, key);
    if i < s.len() && s[i].0 == key {
        lemma_update_at(s, i, key, val);
        let t = s.update(i, (key, val));
        lemma_map_total(t);
        lemma_seq_total_update(s, i, (key, val));
    } else {
        if to_map(s).dom().contains(key) {
            let j = choose|j: int| 0 <= j < s.len() && #[trigger] s[j].0 == key;
            if j > i {
                assert(s[i].0 < s[j].0);
            }
        }
        lemma_insert_at(s, i, key, val);
        let t = s.insert(i, (key, val));
        lemma_map_total(t);
        lemma_seq_total_insert(s, i, (key, val));
    }
}

/// A counter that only grows: each replica increments its own entry, and merging
/// keeps, for every replica, the larger of the two counts.
pub struct GCounter {
    counter: Vec<(u128, u64)>,
    id: u128,
}

impl View for GCounter {
    type V = Map<u128, u64>;

    /// The count recorded for each replica.
    closed spec fn view(&self) -> Map<u128, u64> {
        to_map(self.counter@)
    }
}

impl GCounter {
    /// The representation is the sorted listing of the counts.
    pub closed spec fn wf(&self) -> bool {
        sorted(self.counter@)
    }

    /// The replica on whose behalf this counter increments.
    pub closed spec fn owner(&self) -> u128 {
        self.id
    }

    /// Sum of all counts.
    pub open spec fn total(&self) -> int {
        map_total(self@)
    }

    /// This replica's own count.
    pub open spec fn local(&self) -> u64 {
        count_of(self@, self.owner())
    }

    /// Setting one replica's count changes the total by the difference.
    pub proof fn lemma_total_insert(&self, key: u128, val: u64)
        requires
            self.wf(),
        ensures
            map_total(self@.insert(key, val)) == self.total() - count_of(self@, key) + val,
    {
        lemma_map_total_insert(self.counter@, key, val);
    }

    /// The total of a counter is never negative.
    pub proof fn lemma_total_nonneg(&self)
        requires
            self.wf(),
        ensures
            self.total() >= 0,
    {
        lemma_map_total(self.counter@);
        lemma_seq_total_nonneg(self.counter@);
    }

    pub fn new(id: u128) -> (r: Self)
        ensures
            r.wf(),
            r@ == Map::<u128, u64>::empty(),
            r.owner() == id,
            r.total() == 0,
    {
        let r = GCounter { counter: Vec::new(), id };
        proof {
            lemma_to_map_empty(r.counter@);
            lemma_map_total(r.counter@);
        }
        r
    }

    /// Builds a counter for replica `id` from stored `(replica, count)` pairs;
    /// a later pair for a replica replaces an earlier one.
    pub fn from_pairs(pairs: &Vec<(u128, u64)>, id: u128) -> (r: Self)
        ensures
            r.wf(),
            r@ == pairs_map(pairs@),
            r.owner() == id,
    {
        let mut counter: Vec<(u128, u64)> = Vec::new();
        proof {
            lemma_to_map_empty(counter@);
        }
        let mut i: usize = 0;
        while i < pairs.len()
            invariant
                i <= pairs.len(),
                sorted(counter@),
                to_map(counter@) == pairs_map(pairs@.take(i as int)),
            decreases pairs.len() - i,
        {
            let (k, c) = pairs[i];
            sm_insert(&mut counter, k, c);
            proof {
                assert(pairs@.take(i + 1).drop_last() =~= pairs@.take(i as int));
            }
            i = i + 1;
        }
        proof {
            assert(pairs@.take(pairs.len() as int) =~= pairs@);
        }
        GCounter { counter, id }
    }

    /// The counts as `(replica, count)` pairs in increasing replica order.
    pub fn pairs(&self) -> (r: Vec<(u128, u64)>)
        requires
            self.wf(),
        ensures
            sorted(r@),
            to_map(r@) == self@,
    {
        let mut r: Vec<(u128, u64)> = Vec::new();
        let mut i: usize = 0;
        while i < self.counter.len()
            invariant
                i <= self.counter.len(),
                r@ == self.counter@.take(i as int),
            decreases self.counter.len() - i,
        {
            r.push(self.counter[i]);
            proof {
                assert(self.counter@.take(i + 1) =~= self.counter@.take(i as int).push(
                    self.counter@[i as int],
                ));
            }
            i = i + 1;
        }
        proof {
            assert(self.counter@.take(self.counter.len() as int) =~= self.counter@);
        }
        r
    }

    pub fn owner_id(&self) -> (r: u128)
        ensures
            r == self.owner(),
    {
        self.id
    }

    /// Adds one to this replica's count.
    pub fn inc(&mut self)
        requires
            old(self).wf(),
            old(self).local() < u64::MAX,
        ensures
            final(self).wf(),
            final(self).owner() == old(self).owner(),
            final(self)@ == old(self)@.insert(old(self).owner(), (old(self).local() + 1) as u64),
            final(self).total() == old(self).total() + 1,
    {
        self.inc_by(1);
    }

    /// Adds `n` to this replica's count.
    pub fn inc_by(&mut self, n: u64)
        requires
            old(self).wf(),
            old(self).local() + n <= u64::MAX,
        ensures
            final(self).wf(),
            final(self).owner() == old(self).owner(),
            final(self)@ == old(self)@.insert(old(self).owner(), (old(self).local() + n) as u64),
            final(self).total() == old(self).total() + n,
    {
        proof {
            lemma_map_total_insert(self.counter@, self.id, (self.local() + n) as u64);
        }
        let cur = self.value_local();
        sm_insert(&mut self.counter, self.id, cur + n);
    }

    /// This replica's own count.
    pub fn value_local(&self) -> (r: u64)
        requires
            self.wf(),
        ensures
            r == self.local(),
    {
        match sm_get(&self.counter, self.id) {
            Some(c) => c,
            None => 0,
        }
    }

    /// Sum of all replicas' counts.
    pub fn value_total(&self) -> (r: u64)
        requires
            self.wf(),
            self.total() <= u64::MAX,
        ensures
            r == self.total(),
    {
        proof {
            lemma_map_total(self.counter@);
        }
        let ghost s = self.counter@;
        assert(s.skip(0) =~= s);
        let mut sum: u64 = 0;
        let mut i: usize = 0;
        while i < self.counter.len()
            invariant
                s == self.counter@,
                i <= s.len(),
                sum + seq_total(s.skip(i as int)) == seq_total(s),
                seq_total(s) <= u64::MAX,
            decreases s.len() - i,
        {
            proof {
                assert(s.skip(i as int).drop_first() =~= s.skip(i + 1));
                assert(s.skip(i as int)[0] == s[i as int]);
                lemma_seq_total_nonneg(s.skip(i + 1));
            }
            sum = sum + self.counter[i].1;
            i = i + 1;
        }
        proof {
            assert(s.skip(s.len() as int) =~= Seq::<(u128, u64)>::empty());
        }
        sum
    }

    /// Sum of all replicas' counts, or `None` where it exceeds `u64::MAX`.
    pub fn value_total_checked(&self) -> (r: Option<u64>)
        requires
            self.wf(),
        ensures
            r == if self.total() <= u64::MAX {
                Some(self.total() as u64)
            } else {
                None
            },
    {
        proof {
            lemma_map_total(self.counter@);
        }
        let ghost s = self.counter@;
        assert(s.skip(0) =~= s);
        let mut sum: u64 = 0;
        let mut i: usize = 0;
        while i < self.counter.len()
            invariant
                s == self.counter@,
                i <= s.len(),
                sum + seq_total(s.skip(i as int)) == seq_total(s),
                self.total() == seq_total(s),
            decreases s.len() - i,
        {
            proof {
                assert(s.skip(i as int).drop_first() =~= s.skip(i + 1));
                assert(s.skip(i as int)[0] == s[i as int]);
                lemma_seq_total_nonneg(s.skip(i + 1));
            }
            match sum.checked_add(self.counter[i].1) {
                Some(x) => {
                    sum = x;
                },
                None => {
                    return None;
                },
            }
            i = i + 1;
        }
        proof {
            assert(s.skip(s.len() as int) =~= Seq::<(u128, u64)>::empty());
        }
        Some(sum)
    }
}

impl Clone for GCounter {
    fn clone(&self) -> (r: Self)
        ensures
            r.wf() == self.wf(),
            r@ == self@,
            r.owner() == self.owner(),
    {
        let mut counter: Vec<(u128, u64)> = Vec::new();
        let mut i: usize = 0;
        while i < self.counter.len()
            invariant
                i <= self.counter.len(),
                counter@ == self.counter@.take(i as int),
            decreases self.counter.len() - i,
        {
            counter.push(self.counter[i]);
            proof {
                assert(self.counter@.take(i + 1) =~= self.counter@.take(i as int).push(
                    self.counter@[i as int],
                ));
            }
            i = i + 1;
        }
        proof {
            assert(self.counter@.take(self.counter.len() as int) =~= self.counter@);
        }
        GCounter { counter, id: self.id }
    }
}

impl Mergeable<GCounter> for GCounter {
    open spec fn can_merge(&self, other: &GCounter) -> bool {
        self.wf() && other.wf()
    }

    open spec fn merged_from(&self, before: &Self, other: &GCounter) -> bool {
        &&& self.wf()
        &&& self.owner() == before.owner()
        &&& self@ == join_counts(before@, other@)
    }

    fn merge(&mut self, other: &GCounter) {
        let ghost before = self@;
        let ghost o = other.counter@;
        proof {
            lemma_to_map_empty(o.take(0));
            assert(join_counts(before, to_map(o.take(0))) =~= before);
        }
        let mut i: usize = 0;
        while i < other.counter.len()
            invariant
                o == other.counter@,
                sorted(o),
                i <= o.len(),
                sorted(self.counter@),
                self.id == old(self).id,
                to_map(self.counter@) == join_counts(before, to_map(o.take(i as int))),
            decreases o.len() - i,
        {
            let (k, c) = other.counter[i];
            let cur = match sm_get(&self.counter, k) {
                Some(x) => x,
                None => 0,
            };
            let best = if cur >= c {
                cur
            } else {
                c
            };
            sm_insert(&mut self.counter, k, best);
            proof {
                lemma_to_map_take_next(o, i as int);
                let prev = to_map(o.take(i as int));
                assert(join_counts(before, prev.insert(k, c)) =~= join_counts(before, prev).insert(
                    k,
                    best,
                ));
            }
            i = i + 1;
        }
        proof {
            assert(o.take(o.len() as int) =~= o);
        }
    }
}

/// Merging is commutative.
pub proof fn lemma_join_counts_commutative(a: Map<u128, u64>, b: Map<u128, u64>)
    ensures
        join_counts(a, b) == join_counts(b, a),
{
    assert(join_counts(a, b) =~= join_counts(b, a));
}

/// Merging is associative.
pub proof fn lemma_join_counts_associative(a: Map<u128, u64>, b: Map<u128, u64>, c: Map<u128, u64>)
    ensures
        join_counts(join_counts(a, b), c) == join_counts(a, join_counts(b, c)),
{
    assert(join_counts(join_counts(a, b), c) =~= join_counts(a, join_counts(b, c)));
}

/// Merging a state with itself changes nothing.
pub proof fn lemma_join_counts_idempotent(a: Map<u128, u64>)
    ensures
        join_counts(a, a) == a,
{
    assert(join_counts(a, a) =~= a);
}

/// Merging never lowers a replica's count: the result holds every replica of either
/// state with at least the count it had there.
pub proof fn lemma_join_counts_dominates(a: Map<u128, u64>, b: Map<u128, u64>, k: u128)
    ensures
        count_of(join_counts(a, b), k) >= count_of(a, k),
        count_of(join_counts(a, b), k) >= count_of(b, k),
        a.contains_key(k) || b.contains_key(k) ==> join_counts(a, b).contains_key(k),
{
}

} // verus!
