//! Membership, failure tracking and quorum bookkeeping of server peers.
use vstd::prelude::*;
use std::collections::HashMap;
use std::time::Instant;
use rand::seq::IndexedRandom;
use crate::crdt::awormap::{awor_join, names_after, names_fold, owners_fold};
use crate::ids::{parse_uuid_ascii, parsed_uuid_ascii};
use crate::crdt::{ItemView, Mergeable, ShoppingList};
use crate::hash_ring::{
    list_hash, preference_spec, with_servers, HashRing, READ_NODES, WRITE_NODES,
};

verus! {

/// Interval between gossip rounds, in milliseconds.
pub const GOSSIP_INTERVAL: u64 = 500;

/// How long a joining peer waits for the seed's membership table, in milliseconds.
pub const JOIN_TIMEOUT: u64 = 1500;

/// How long after its last failure a peer counts as unavailable, in milliseconds.
pub const FAILURE_TIMEOUT: u64 = 1000;

/// How long a coordinator waits for a replication quorum, in milliseconds.
pub const REPLICATE_TIMEOUT: u64 = 3000;

#[verifier::external_type_specification]
#[verifier::external_body]
pub struct ExInstant(std::time::Instant);

#[verifier::external_type_specification]
#[verifier::external_body]
#[verifier::reject_recursive_types(T)]
pub struct ExSender<T>(oneshot::Sender<T>);

/// Calls `std::time::Instant::now`. Nothing is stated of the instant returned.
#[verifier::external_body]
fn instant_now() -> (r: Instant) {
    Instant::now()
}

/// Calls `Instant::elapsed` on `t` and reads the duration with `Duration::as_nanos`.
/// Nothing is stated of the result: it depends on the clock.
#[verifier::external_body]
fn nanos_since(t: &Instant) -> (r: u128) {
    t.elapsed().as_nanos()
}

/// Calls `IndexedRandom::choose` on `ids` with `rand::rng()`, and copies the element
/// chosen. The crate returns `None` exactly for an empty slice, and otherwise one of its
/// elements; which one is left to chance.
#[verifier::external_body]
fn choose_random(ids: &Vec<u128>) -> (r: Option<u128>)
    ensures
        r is None <==> ids.len() == 0,
        r matches Some(x) ==> ids@.contains(x),
{
    ids.as_slice().choose(&mut rand::rng()).copied()
}

/// Known peers and their addresses.
pub struct MembershipTable(pub HashMap<u128, String>);

impl MembershipTable {
    pub fn new() -> (r: Self)
        ensures
            r.0@ == Map::<u128, String>::empty(),
    {
        MembershipTable(HashMap::new())
    }

    pub fn insert(&mut self, server_id: u128, addr: String)
        ensures
            final(self).0@ == old(self).0@.insert(server_id, addr),
    {
        broadcast use vstd::std_specs::hash::group_hash_axioms;

        self.0.insert(server_id, addr);
    }
}

impl MembershipTable {
    /// Takes in every entry of `other`; where both know a peer, `other`'s address wins.
    pub fn absorb(&mut self, other: &MembershipTable)
        ensures
            final(self).0@ == old(self).0@.union_prefer_right(other.0@),
    {
        broadcast use vstd::std_specs::hash::group_hash_axioms;

        let ghost before = self.0@;
        let ghost m = other.0@;
        let ghost mut done: Set<u128> = Set::empty();
        for (k, v) in it: other.0.iter()
            invariant
                m == other.0@,
                forall|j: int|
                    0 <= j < it.seq().len() ==> m.contains_key(*(#[trigger] it.seq()[j]).0)
                        && m[*it.seq()[j].0] == *it.seq()[j].1,
                forall|q: u128| #[trigger] m.contains_key(q) ==> it.seq().contains((&q, &m[q])),
                forall|q: u128|
                    #[trigger] done.contains(q) <==> exists|j: int|
                        0 <= j < it.index() && *(#[trigger] it.seq()[j]).0 == q,
                forall|q: u128| #[trigger] done.contains(q) ==> m.contains_key(q),
                forall|q: u128|
                    #[trigger] self.0@.contains_key(q) <==> before.contains_key(q) || done.contains(q),
                forall|q: u128| #[trigger] done.contains(q) ==> self.0@[q] == m[q],
                forall|q: u128|
                    before.contains_key(q) && !done.contains(q) ==> #[trigger] self.0@[q] == before[q],
                it.index() == it.seq().len() ==> done == m.dom(),
        {
            proof {
                assert(m.contains_key(*k) && m[*k] == *v);
            }
            self.0.insert(*k, v.clone());
            proof {
                done = done.insert(*k);
            }
            proof {
                assert(it.seq()[it.index() as int] == (k, v));
                assert forall|q: u128| #[trigger] done.contains(q) <==> exists|j: int|
                    0 <= j < it.index() + 1 && *(#[trigger] it.seq()[j]).0 == q by {
                    if done.contains(q) && q != *k {
                        let j = choose|j: int| 0 <= j < it.index() && *(#[trigger] it.seq()[j]).0 == q;
                    }
                    if q == *k {
                        assert(*it.seq()[it.index() as int].0 == q);
                    }
                }
                assert(it.index() + 1 == it.seq().len() ==> done =~= m.dom()) by {
                    if it.index() + 1 == it.seq().len() {
                        assert forall|q: u128| #[trigger] m.contains_key(q) implies done.contains(q) by {
                            assert(it.seq().contains((&q, &m[q])));
                            let j = choose|j: int| 0 <= j < it.seq().len() && it.seq()[j] == (&q, &m[q]);
                            assert(*it.seq()[j].0 == q);
                        }
                    }
                }
            }
        }
        proof {
            let r = before.union_prefer_right(m);
            assert(self.0@ =~= r);
        }
    }
}

impl MembershipTable {
    /// The known peers, each once, in the table's iteration order.
    pub fn member_ids(&self) -> (r: Vec<u128>)
        ensures
            r@.no_duplicates(),
            forall|q: u128| r@.contains(q) <==> self.0@.contains_key(q),
    {
        broadcast use vstd::std_specs::hash::group_hash_axioms;

        let ghost m = self.0@;
        let mut r: Vec<u128> = Vec::new();
        for (k, v) in it: self.0.iter()
            invariant
                m == self.0@,
                it.seq().no_duplicates(),
                forall|j: int|
                    0 <= j < it.seq().len() ==> m.contains_key(*(#[trigger] it.seq()[j]).0)
                        && m[*it.seq()[j].0] == *it.seq()[j].1,
                forall|q: u128| #[trigger] m.contains_key(q) ==> it.seq().contains((&q, &m[q])),
                r.len() == it.index(),
                forall|j: int| 0 <= j < it.index() ==> r@[j] == *(#[trigger] it.seq()[j]).0,
                r@.no_duplicates(),
                forall|q: u128| r@.contains(q) ==> m.contains_key(q),
                it.index() == it.seq().len() ==> forall|q: u128|
                    #[trigger] m.contains_key(q) ==> r@.contains(q),
        {
            proof {
                let i = it.index() as int;
                assert(it.seq()[i] == (k, v));
                assert forall|j: int| 0 <= j < i implies r@[j] != *k by {
                    assert(r@[j] == *it.seq()[j].0);
                    if r@[j] == *k {
                        assert(it.seq()[j] == it.seq()[i]);
                    }
                }
            }
            let ghost before = r@;
            r.push(*k);
            proof {
                let i = it.index() as int;
                assert forall|a: int, b: int| 0 <= a < r@.len() && 0 <= b < r@.len() && a != b implies r@[a] != r@[b] by {
                    if a < i && b < i {
                        assert(before[a] != before[b]);
                    } else if a < i {
                        assert(r@[a] == before[a]);
                    } else if b < i {
                        assert(r@[b] == before[b]);
                    }
                }
                assert forall|q: u128| r@.contains(q) implies m.contains_key(q) by {
                    let j = choose|j: int| 0 <= j < r@.len() && r@[j] == q;
                    if j < i {
                        assert(before[j] == q);
                    }
                }
                assert(i + 1 == it.seq().len() ==> forall|q: u128|
                    #[trigger] m.contains_key(q) ==> r@.contains(q)) by {
                    if i + 1 == it.seq().len() {
                        assert forall|q: u128| #[trigger] m.contains_key(q) implies r@.contains(q) by {
                            assert(it.seq().contains((&q, &m[q])));
                            let j = choose|j: int| 0 <= j < it.seq().len() && it.seq()[j] == (&q, &m[q]);
                            if j < i {
                                assert(r@[j] == before[j]);
                            }
                            assert(r@[j] == q);
                        }
                    }
                }
            }
        }
        r
    }
}

impl Clone for MembershipTable {
    fn clone(&self) -> (r: Self)
        ensures
            r.0@ == self.0@,
    {
        MembershipTable(self.0.clone())
    }
}


/// How often, and when last, a peer failed to receive a message.
#[derive(Clone, Copy)]
pub struct PeerFailureInfo {
    pub last_failure: Instant,
    pub consecutive_failures: u32,
}

/// Peers that recently failed.
pub struct FailureTable(pub HashMap<u128, PeerFailureInfo>);

/// A peer whose failures are known is available again when it has failed at most
/// three times in a row and its last failure is more than `FAILURE_TIMEOUT` ago.
pub open spec fn recovered(consecutive_failures: u32, nanos_since_failure: u128) -> bool {
    consecutive_failures <= 3 && nanos_since_failure > FAILURE_TIMEOUT as int * 1_000_000
}

/// Decides availability from a peer's failure count and the time since its last failure.
pub fn availability(consecutive_failures: u32, nanos_since_failure: u128) -> (r: bool)
    ensures
        r == recovered(consecutive_failures, nanos_since_failure),
{
    if consecutive_failures > 3 {
        return false;
    }
    nanos_since_failure > (FAILURE_TIMEOUT as u128) * 1_000_000
}

impl FailureTable {
    pub fn new() -> (r: Self)
        ensures
            r.0@ == Map::<u128, PeerFailureInfo>::empty(),
    {
        FailureTable(HashMap::new())
    }

    /// Records a failure of `server_id` now: one more consecutive failure, at the
    /// instant the clock gives.
    pub fn mark_failure(&mut self, server_id: u128)
        requires
            old(self).0@.contains_key(server_id) ==> old(self).0@[server_id].consecutive_failures
                < u32::MAX,
        ensures
            final(self).0@ == old(self).0@.insert(server_id, final(self).0@[server_id]),
            final(self).0@[server_id].consecutive_failures == if old(self).0@.contains_key(
                server_id,
            ) {
                old(self).0@[server_id].consecutive_failures + 1
            } else {
                1
            },
    {
        let now = instant_now();
        self.record_failure(server_id, now);
    }

    /// Records a failure of `server_id` at `now`: one more consecutive failure, and
    /// `now` as the last one.
    pub fn record_failure(&mut self, server_id: u128, now: Instant)
        requires
            old(self).0@.contains_key(server_id) ==> old(self).0@[server_id].consecutive_failures
                < u32::MAX,
        ensures
            final(self).0@ == old(self).0@.insert(
                server_id,
                (PeerFailureInfo {
                    last_failure: now,
                    consecutive_failures: (if old(self).0@.contains_key(server_id) {
                        old(self).0@[server_id].consecutive_failures + 1
                    } else {
                        1
                    }) as u32,
                }),
            ),
    {
        broadcast use vstd::std_specs::hash::group_hash_axioms;

        let count: u32 = match self.0.get(&server_id) {
            Some(info) => info.consecutive_failures + 1,
            None => 1,
        };
        self.0.insert(server_id, PeerFailureInfo { last_failure: now, consecutive_failures: count });
    }

    /// Forgets the failures of `server_id`.
    pub fn clear_failure(&mut self, server_id: &u128)
        ensures
            final(self).0@ == old(self).0@.remove(*server_id),
    {
        broadcast use vstd::std_specs::hash::group_hash_axioms;

        self.0.remove(server_id);
    }

    /// Whether `server_id` may be contacted: it has no recorded failure, or it has
    /// recovered from them (which depends on the time elapsed since the last one).
    pub fn is_available(&self, server_id: &u128) -> (r: bool)
        ensures
            !self.0@.contains_key(*server_id) ==> r,
            self.0@.contains_key(*server_id) && self.0@[*server_id].consecutive_failures > 3 ==> !r,
    {
        broadcast use vstd::std_specs::hash::group_hash_axioms;

        match self.0.get(server_id) {
            None => true,
            Some(info) => availability(info.consecutive_failures, nanos_since(&info.last_failure)),
        }
    }
}

/// Why merging the lists of a quorum failed.
#[derive(PartialEq, Eq, Structural)]
pub enum QuorumError {
    NoLists,
}

/// The contents of a non-empty sequence of lists merged from left to right.
pub open spec fn merged_contents(lists: Seq<ShoppingList>) -> Map<Seq<char>, ItemView>
    decreases lists.len(),
{
    if lists.len() <= 1 {
        lists[0].list@
    } else {
        awor_join(merged_contents(lists.drop_last()), lists.last().list@)
    }
}

/// The names of each list, in order.
pub open spec fn gathered_names(lists: Seq<ShoppingList>) -> Seq<Seq<Seq<char>>> {
    lists.map_values(|l: ShoppingList| l.list.names())
}

/// The owners of each list's items, in order.
pub open spec fn gathered_owners(lists: Seq<ShoppingList>) -> Seq<Map<Seq<char>, (u128, u128)>> {
    lists.map_values(|l: ShoppingList| l.list.owners())
}

/// Bookkeeping of one replication request: how many answers it needs, how many came,
/// whom to wake when enough came, and the lists gathered so far.
pub struct QuoromState {
    needed: usize,
    received: usize,
    responder: Option<oneshot::Sender<()>>,
    lists: Vec<ShoppingList>,
}

impl QuoromState {
    pub closed spec fn needed_count(&self) -> nat {
        self.needed as nat
    }

    pub closed spec fn received_count(&self) -> nat {
        self.received as nat
    }

    /// Whom to wake when the quorum is reached, until woken.
    pub closed spec fn waiting(&self) -> Option<oneshot::Sender<()>> {
        self.responder
    }

    pub closed spec fn gathered(&self) -> Seq<ShoppingList> {
        self.lists@
    }

    /// A request for a write needs `WRITE_NODES` answers, a read `READ_NODES`; the
    /// coordinator's own list is gathered first.
    pub fn new(write: bool, responder: oneshot::Sender<()>, list: ShoppingList) -> (r: Self)
        ensures
            r.needed_count() == if write {
                WRITE_NODES
            } else {
                READ_NODES
            },
            r.received_count() == 0,
            r.waiting() == Some(responder),
            r.gathered() == seq![list],
    {
        let needed = if write {
            WRITE_NODES
        } else {
            READ_NODES
        };
        let mut lists = Vec::new();
        lists.push(list);
        proof {
            assert(lists@ =~= seq![list]);
        }
        QuoromState { needed, received: 0, responder: Some(responder), lists }
    }

    /// Answers counted so far.
    pub fn received(&self) -> (r: usize)
        ensures
            r == self.received_count(),
    {
        self.received
    }

    pub fn is_quorom_reached(&self) -> (r: bool)
        ensures
            r == (self.received_count() >= self.needed_count()),
    {
        self.received >= self.needed
    }

    /// The gathered lists merged into the first one.
    pub fn merge_lists(&self) -> (r: Result<ShoppingList, QuorumError>)
        requires
            forall|i: int| 0 <= i < self.gathered().len() ==> (#[trigger] self.gathered()[i]).list.wf(),
        ensures
            r is Err <==> self.gathered().len() == 0,
            r matches Ok(l) ==> l.id == self.gathered()[0].id && l.list.wf() && l.list@
                == merged_contents(self.gathered()),
            r matches Ok(l) ==> l.list.names() == names_fold(gathered_names(self.gathered()))
                && l.list.owners() == owners_fold(gathered_owners(self.gathered())),
    {
        if self.lists.len() == 0 {
            return Err(QuorumError::NoLists);
        }
        proof {
            assert forall|j: int| 0 <= j < self.lists@.len() implies (#[trigger] self.lists@[j]).list.wf() by {
                assert(self.gathered()[j].list.wf());
            }
        }
        let mut merged = self.lists[0].clone();
        proof {
            assert(self.lists@.take(1) =~= seq![self.lists@[0]]);
            assert(gathered_names(self.lists@.take(1)) =~= seq![self.lists@[0].list.names()]);
            assert(gathered_owners(self.lists@.take(1)) =~= seq![self.lists@[0].list.owners()]);
        }
        let mut i: usize = 1;
        while i < self.lists.len()
            invariant
                1 <= i <= self.lists@.len(),
                forall|j: int| 0 <= j < self.lists@.len() ==> (#[trigger] self.lists@[j]).list.wf(),
                merged.id == self.lists@[0].id,
                merged.list.wf(),
                merged.list@ == merged_contents(self.lists@.take(i as int)),
                merged.list.names() == names_fold(gathered_names(self.lists@.take(i as int))),
                merged.list.owners() == owners_fold(gathered_owners(self.lists@.take(i as int))),
            decreases self.lists@.len() - i,
        {
            proof {
                assert(self.lists@.take(1) =~= seq![self.lists@[0]]);
                assert(self.lists@.take(i + 1).drop_last() =~= self.lists@.take(i as int));
                assert(self.lists@[i as int].list.wf());
                assert(gathered_names(self.lists@.take(i + 1)).drop_last() =~= gathered_names(
                    self.lists@.take(i as int),
                ));
                assert(gathered_owners(self.lists@.take(i + 1)).drop_last() =~= gathered_owners(
                    self.lists@.take(i as int),
                ));
                assert(gathered_names(self.lists@.take(i + 1)).last() == self.lists@[i as int].list.names());
                assert(gathered_owners(self.lists@.take(i + 1)).last() == self.lists@[i as int].list.owners());
            }
            merged.list.merge(&self.lists[i].list);
            i = i + 1;
        }
        proof {
            assert(self.lists@.take(self.lists@.len() as int) =~= self.lists@);
        }
        Ok(merged)
    }

    /// Counts an answer that carries a list, and keeps the list.
    pub fn add_list(&mut self, list: ShoppingList)
        requires
            old(self).received_count() < usize::MAX,
        ensures
            final(self).received_count() == old(self).received_count() + 1,
            final(self).gathered() == old(self).gathered().push(list),
            final(self).needed_count() == old(self).needed_count(),
            final(self).waiting() == old(self).waiting(),
    {
        self.received = self.received + 1;
        self.lists.push(list);
    }

    /// Counts an answer.
    pub fn increment_received(&mut self)
        requires
            old(self).received_count() < usize::MAX,
        ensures
            final(self).received_count() == old(self).received_count() + 1,
            final(self).gathered() == old(self).gathered(),
            final(self).needed_count() == old(self).needed_count(),
            final(self).waiting() == old(self).waiting(),
    {
        self.received = self.received + 1;
    }

    /// Once the quorum is reached, hands out the responder to wake (only once).
    fn release(&mut self) -> (r: Option<oneshot::Sender<()>>)
        ensures
            final(self).received_count() == old(self).received_count(),
            final(self).gathered() == old(self).gathered(),
            final(self).needed_count() == old(self).needed_count(),
            old(self).received_count() >= old(self).needed_count() ==> r == old(self).waiting()
                && final(self).waiting() is None,
            old(self).received_count() < old(self).needed_count() ==> r is None
                && final(self).waiting() == old(self).waiting(),
    {
        if self.is_quorom_reached() {
            self.responder.take()
        } else {
            None
        }
    }

    /// Handles an acknowledgement: counts it, and returns the responder to wake if the
    /// quorum has just been reached.
    pub fn acknowledge(&mut self) -> (r: Option<oneshot::Sender<()>>)
        requires
            old(self).received_count() < usize::MAX,
        ensures
            final(self).received_count() == old(self).received_count() + 1,
            final(self).gathered() == old(self).gathered(),
            final(self).needed_count() == old(self).needed_count(),
            final(self).received_count() >= final(self).needed_count() ==> r == old(self).waiting()
                && final(self).waiting() is None,
            final(self).received_count() < final(self).needed_count() ==> r is None
                && final(self).waiting() == old(self).waiting(),
    {
        self.increment_received();
        self.release()
    }

    /// Handles an acknowledgement that carries a list: keeps the list, counts the
    /// answer, and returns the responder to wake if the quorum has just been reached.
    pub fn acknowledge_with_list(&mut self, list: ShoppingList) -> (r: Option<oneshot::Sender<()>>)
        requires
            old(self).received_count() < usize::MAX,
        ensures
            final(self).received_count() == old(self).received_count() + 1,
            final(self).gathered() == old(self).gathered().push(list),
            final(self).needed_count() == old(self).needed_count(),
            final(self).received_count() >= final(self).needed_count() ==> r == old(self).waiting()
                && final(self).waiting() is None,
            final(self).received_count() < final(self).needed_count() ==> r is None
                && final(self).waiting() == old(self).waiting(),
    {
        self.add_list(list);
        self.release()
    }
}

/// The replicas that a coordinator forwards a list to: its preference list without
/// its first server, the coordinator itself.
pub fn get_replicas(ring: &HashRing, list_id: &u128) -> (r: Vec<u128>)
    requires
        ring.wf(),
    ensures
        ({
            let p = preference_spec(ring.listing(), list_hash(*list_id), ring.replica_count());
            r@ == if p.len() == 0 {
                p
            } else {
                p.drop_first()
            }
        }),
{
    let list = ring.get_preference_list(list_id);
    let mut r: Vec<u128> = Vec::new();
    if list.len() == 0 {
        proof {
            assert(r@ =~= list@);
        }
        return r;
    }
    let mut i: usize = 1;
    proof {
        assert(r@ =~= list@.subrange(1, 1));
    }
    while i < list.len()
        invariant
            1 <= i <= list@.len(),
            r@ == list@.subrange(1, i as int),
        decreases list@.len() - i,
    {
        r.push(list[i]);
        proof {
            assert(list@.subrange(1, i + 1) =~= list@.subrange(1, i as int).push(list@[i as int]));
        }
        i = i + 1;
    }
    proof {
        assert(list@.subrange(1, list@.len() as int) =~= list@.drop_first());
    }
    r
}

/// Whether `self_id` coordinates `list_id`: it is the first server of the list's
/// preference list. The ring must hold a server.
pub fn is_coordinator(ring: &HashRing, list_id: &u128, self_id: u128) -> (r: bool)
    requires
        ring.wf(),
        ring.servers().len() > 0,
    ensures
        r == (preference_spec(ring.listing(), list_hash(*list_id), ring.replica_count())[0]
            == self_id),
{
    match ring.get_coordinator(list_id) {
        Some(node_id) => node_id == self_id,
        None => false,
    }
}

/// The addresses known for the ids of `ids`, in order; ids without an address are skipped.
pub open spec fn known_addresses(m: Map<u128, String>, ids: Seq<u128>) -> Seq<String>
    decreases ids.len(),
{
    if ids.len() == 0 {
        Seq::empty()
    } else if m.contains_key(ids.last()) {
        known_addresses(m, ids.drop_last()).push(m[ids.last()])
    } else {
        known_addresses(m, ids.drop_last())
    }
}

pub fn get_addresses(membership: &MembershipTable, ids: &Vec<u128>) -> (r: Vec<String>)
    ensures
        r@ == known_addresses(membership.0@, ids@),
{
    broadcast use vstd::std_specs::hash::group_hash_axioms;

    let mut r: Vec<String> = Vec::new();
    let mut i: usize = 0;
    while i < ids.len()
        invariant
            i <= ids@.len(),
            r@ == known_addresses(membership.0@, ids@.take(i as int)),
        decreases ids@.len() - i,
    {
        proof {
            assert(ids@.take(i + 1).drop_last() =~= ids@.take(i as int));
        }
        match membership.0.get(&ids[i]) {
            Some(addr) => r.push(addr.clone()),
            None => {},
        }
        i = i + 1;
    }
    proof {
        assert(ids@.take(ids@.len() as int) =~= ids@);
    }
    r
}

/// The peer id carried by a message's identity frame, if the frame is a UUID.
pub fn sender_id(identity: &[u8]) -> (r: Option<u128>)
    ensures
        r == parsed_uuid_ascii(identity@),
{
    parse_uuid_ascii(identity)
}

/// Why no gossip could be sent.
#[derive(PartialEq, Eq, Structural)]
pub enum GossipError {
    NoPeers,
}

/// What the random pick among the known peers gives: no pick means no peer is
/// known; a pick of this peer itself means nothing to do; any other pick is the peer
/// to gossip with.
pub open spec fn gossip_outcome(pick: Option<u128>, self_id: u128) -> Result<Option<u128>, GossipError> {
    match pick {
        None => Err(GossipError::NoPeers),
        Some(p) => if p == self_id {
            Ok(None)
        } else {
            Ok(Some(p))
        },
    }
}

/// Decides on the random pick among the known peers, as `gossip_outcome` says.
pub fn gossip_choice(pick: Option<u128>, self_id: u128) -> (r: Result<Option<u128>, GossipError>)
    ensures
        r == gossip_outcome(pick, self_id),
{
    match pick {
        None => Err(GossipError::NoPeers),
        Some(p) => {
            if p == self_id {
                Ok(None)
            } else {
                Ok(Some(p))
            }
        },
    }
}

/// Picks a random known peer to gossip with: an error when no peer is known, and
/// nothing to do when the pick is this peer itself. The pick is made among the ids
/// of `membership`; `gossip_choice` states what each pick gives.
pub fn gossip_target(membership: &MembershipTable, self_id: u128) -> (r: Result<
    Option<u128>,
    GossipError,
>)
    ensures
        r is Err <==> membership.0@.dom().len() == 0,
        r matches Ok(Some(p)) ==> membership.0@.contains_key(p) && p != self_id,
        r matches Ok(None) ==> membership.0@.contains_key(self_id),
        membership.0@.dom() == set![self_id] ==> r == Ok::<Option<u128>, GossipError>(None),
        exists|pick: Option<u128>|
            #![trigger gossip_outcome(pick, self_id)]
            (pick is None <==> membership.0@.dom().len() == 0) && (pick matches Some(p)
                ==> membership.0@.contains_key(p)) && r == gossip_outcome(pick, self_id),
{
    broadcast use vstd::std_specs::hash::group_hash_axioms;

    let peers = membership.member_ids();
    proof {
        peers@.unique_seq_to_set();
        assert(peers@.to_set() =~= membership.0@.dom());
    }
    let pick = choose_random(&peers);
    let r = gossip_choice(pick, self_id);
    proof {
        assert(r == gossip_outcome(pick, self_id));
    }
    r
}

/// Whether a peer may be contacted: it is a member, and it has not failed recently.
pub fn is_peer_available(membership: &MembershipTable, failures: &FailureTable, id: &u128) -> (r:
    bool)
    ensures
        !membership.0@.contains_key(*id) ==> !r,
        membership.0@.contains_key(*id) && !failures.0@.contains_key(*id) ==> r,
        failures.0@.contains_key(*id) && failures.0@[*id].consecutive_failures > 3 ==> !r,
{
    broadcast use vstd::std_specs::hash::group_hash_axioms;

    if !membership.0.contains_key(id) {
        return false;
    }
    failures.is_available(id)
}

/// Handles a gossip message: takes in the received table, then places every known
/// peer on the ring (in the table's iteration order).
pub fn absorb_gossip(membership: &mut MembershipTable, ring: &mut HashRing, table: &MembershipTable)
    requires
        old(ring).wf(),
    ensures
        final(membership).0@ == old(membership).0@.union_prefer_right(table.0@),
        final(ring).wf(),
        final(ring).vnode_count() == old(ring).vnode_count(),
        final(ring).replica_count() == old(ring).replica_count(),
        exists|ids: Seq<u128>|
            ids.no_duplicates() && (forall|q: u128| ids.contains(q) <==> final(membership).0@.contains_key(q))
                && final(ring)@ == with_servers(old(ring)@, ids, old(ring).vnode_count()),
{
    membership.absorb(table);
    let ids = membership.member_ids();
    ring.add_nodes(&ids);
}

/// A list received for storage, merged into the stored copy if there is one.
pub fn merge_into_stored(stored: Option<ShoppingList>, incoming: &ShoppingList) -> (r: ShoppingList)
    requires
        incoming.list.wf(),
        stored matches Some(s) ==> s.list.wf(),
    ensures
        r.list.wf(),
        match stored {
            Some(s) => {
                &&& r.id == s.id
                &&& r.list@ == awor_join(s.list@, incoming.list@)
                &&& r.list.names() == names_after(s.list.names(), incoming.list.names())
                &&& r.list.owners() == incoming.list.owners().union_prefer_right(s.list.owners())
            },
            None => {
                &&& r.id == incoming.id
                &&& r.list@ == incoming.list@
                &&& r.list.names() == incoming.list.names()
                &&& r.list.owners() == incoming.list.owners()
            },
        },
{
    match stored {
        Some(mut s) => {
            s.list.merge(&incoming.list);
            s
        },
        None => incoming.clone(),
    }
}

} // verus!
