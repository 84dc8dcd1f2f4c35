use sdle::crdt::Mergeable;
use sdle::crdt::{AWORMap, Item, ShoppingList};
use sdle::hash_ring::HashRing;
use sdle::server::{
    gossip_choice, sender_id,
    absorb_gossip, availability, get_addresses, get_replicas, gossip_target, is_coordinator,
    is_peer_available, merge_into_stored, FailureTable, GossipError, MembershipTable,
    QuoromState,
};

fn list(id: u128, name: &str, qty: u64, actor: u128) -> ShoppingList {
    let mut m = AWORMap::new();
    m.insert(name.to_string(), Item::new(qty, false, actor));
    ShoppingList { id, list: m }
}

fn quantity(l: &ShoppingList, name: &str) -> i64 {
    l.list.get(name).expect("item present").amount.value_total()
}

#[test]
fn membership_absorb_prefers_received_addresses() {
    let mut mine = MembershipTable::new();
    mine.insert(1, "tcp://a".to_string());
    mine.insert(2, "tcp://b".to_string());
    let mut theirs = MembershipTable::new();
    theirs.insert(2, "tcp://b2".to_string());
    theirs.insert(3, "tcp://c".to_string());
    mine.absorb(&theirs);
    assert_eq!(mine.0.len(), 3);
    assert_eq!(mine.0.get(&1).map(|s| s.as_str()), Some("tcp://a"));
    assert_eq!(mine.0.get(&2).map(|s| s.as_str()), Some("tcp://b2"));
    let mut ids = mine.member_ids();
    ids.sort();
    assert_eq!(ids, vec![1, 2, 3]);
}

#[test]
fn absorb_gossip_places_every_member_on_the_ring() {
    let mut membership = MembershipTable::new();
    membership.insert(7, "tcp://self".to_string());
    let mut ring = HashRing::new(3, 3);
    ring.add_node(7);
    let mut table = MembershipTable::new();
    table.insert(8, "tcp://x".to_string());
    table.insert(9, "tcp://y".to_string());
    absorb_gossip(&mut membership, &mut ring, &table);
    assert_eq!(membership.0.len(), 3);
    assert_eq!(ring.server_count(), 3);
    assert_eq!(ring.ring_nodes().len(), 9);
}

#[test]
fn gossip_target_picks_another_member() {
    let empty = MembershipTable::new();
    assert!(gossip_target(&empty, 1).err() == Some(GossipError::NoPeers));
    let mut alone = MembershipTable::new();
    alone.insert(1, "tcp://a".to_string());
    assert!(gossip_target(&alone, 1).ok() == Some(None));
    let mut two = MembershipTable::new();
    two.insert(2, "tcp://b".to_string());
    for _ in 0..20 {
        assert!(gossip_target(&two, 1).ok() == Some(Some(2)));
    }
}

#[test]
fn get_addresses_skips_unknown_ids() {
    let mut m = MembershipTable::new();
    m.insert(1, "tcp://a".to_string());
    m.insert(3, "tcp://c".to_string());
    assert_eq!(get_addresses(&m, &vec![3, 2, 1]), vec!["tcp://c".to_string(), "tcp://a".to_string()]);
}

#[test]
fn failure_table_counts_and_clears() {
    let mut t = FailureTable::new();
    assert!(t.is_available(&5));
    t.mark_failure(5);
    t.mark_failure(5);
    assert_eq!(t.0.get(&5).map(|f| f.consecutive_failures), Some(2));
    // failed just now: unavailable until the timeout has passed
    assert!(!t.is_available(&5));
    t.mark_failure(5);
    t.mark_failure(5);
    assert!(!t.is_available(&5));
    t.clear_failure(&5);
    assert!(t.is_available(&5));
}

#[test]
fn availability_rule() {
    assert!(availability(0, 1_000_000_001));
    assert!(availability(3, 2_000_000_000));
    assert!(!availability(3, 1_000_000_000));
    assert!(!availability(4, u128::MAX));
}

#[test]
fn peer_availability_needs_membership() {
    let mut m = MembershipTable::new();
    m.insert(1, "tcp://a".to_string());
    let mut f = FailureTable::new();
    assert!(is_peer_available(&m, &f, &1));
    assert!(!is_peer_available(&m, &f, &2));
    f.mark_failure(1);
    assert!(!is_peer_available(&m, &f, &1));
}

#[test]
fn quorum_counts_answers_and_wakes_once() {
    let (tx, rx) = oneshot::channel::<()>();
    let mut q = QuoromState::new(true, tx, list(1, "milk", 1, 10));
    assert_eq!(q.received(), 0);
    assert!(!q.is_quorom_reached());
    assert!(q.acknowledge().is_none());
    let woken = q.acknowledge().expect("second answer reaches the quorum");
    woken.send(()).expect("receiver alive");
    assert!(rx.recv().is_ok());
    assert!(q.is_quorom_reached());
    assert!(q.acknowledge().is_none());
    assert_eq!(q.received(), 3);
}

#[test]
fn quorum_merges_gathered_lists() {
    let (tx, _rx) = oneshot::channel::<()>();
    let mut q = QuoromState::new(false, tx, list(1, "milk", 2, 10));
    assert!(q.acknowledge_with_list(list(1, "milk", 5, 11)).is_none());
    q.add_list(list(1, "bread", 1, 12));
    let merged = q.merge_lists().ok().expect("lists gathered");
    assert_eq!(merged.id, 1);
    assert_eq!(quantity(&merged, "milk"), 7);
    assert_eq!(quantity(&merged, "bread"), 1);
    q.increment_received();
    assert_eq!(q.received(), 3);
}

#[test]
fn merge_into_stored_merges_or_takes_incoming() {
    let incoming = list(4, "milk", 3, 10);
    let fresh = merge_into_stored(None, &incoming);
    assert_eq!(fresh.id, 4);
    assert_eq!(quantity(&fresh, "milk"), 3);
    let stored = list(4, "milk", 2, 11);
    let merged = merge_into_stored(Some(stored), &incoming);
    assert_eq!(quantity(&merged, "milk"), 5);
}

#[test]
fn replicas_are_the_preference_list_without_the_coordinator() {
    let mut ring = HashRing::new(3, 3);
    for n in [11u128, 22, 33, 44] {
        ring.add_node(n);
    }
    let key = 0xdead_beef_u128;
    let pref = ring.get_preference_list(&key);
    let replicas = get_replicas(&ring, &key);
    assert_eq!(replicas, pref[1..].to_vec());
    assert!(is_coordinator(&ring, &key, pref[0]));
    assert!(!is_coordinator(&ring, &key, pref[1]));
    let empty = HashRing::new(3, 3);
    assert!(get_replicas(&empty, &key).is_empty());
}

#[test]
fn gossip_choice_follows_the_pick() {
    assert!(gossip_choice(None, 1) == Err(GossipError::NoPeers));
    assert!(gossip_choice(Some(1), 1) == Ok(None));
    assert!(gossip_choice(Some(2), 1) == Ok(Some(2)));
}

#[test]
fn record_failure_stores_the_instant() {
    let mut t = FailureTable::new();
    let then = std::time::Instant::now();
    t.record_failure(3, then);
    t.record_failure(3, then);
    let info = t.0.get(&3).copied().expect("recorded");
    assert_eq!(info.consecutive_failures, 2);
    assert_eq!(info.last_failure, then);
}

#[test]
fn sender_ids_are_uuids() {
    let id = 0x67e55044_10b1_426f_9247_bb680e5fe0c8u128;
    assert_eq!(sender_id(b"67e55044-10b1-426f-9247-bb680e5fe0c8"), Some(id));
    assert_eq!(sender_id(b"peer1"), None);
}

#[test]
fn merged_lists_keep_names_in_order_and_owners() {
    let mut m1 = list(1, "apple", 2, 10).list;
    let mut r2 = list(1, "apple", 5, 20).list;
    r2.insert("banana".to_string(), Item::new(1, false, 10));
    let mut m2 = r2.clone();
    m1.merge(&r2);
    m2.merge(&list(1, "apple", 2, 10).list);
    assert_eq!(m1.keys(), vec!["apple".to_string(), "banana".to_string()]);
    assert_eq!(m1.keys(), m2.keys());
    let a1 = m1.get("apple").expect("present");
    assert_eq!(a1.amount.value_total(), 7);
    assert_eq!(a1.amount.value_local(), 2);
    let a2 = m2.get("apple").expect("present");
    assert_eq!(a2.amount.value_local(), 5);
    let c = m1.clone();
    m1.merge(&c);
    assert_eq!(m1.keys(), c.keys());
    assert_eq!(m1.get("apple").expect("present").amount.value_local(), 2);
}

#[test]
fn in_flight_requests_are_answered_by_id() {
    let mut f = sdle::in_flight::InFlight::new();
    let (tx, rx) = oneshot::channel::<()>();
    f.start("r1".to_string(), QuoromState::new(false, tx, list(1, "milk", 1, 10)));
    assert!(f.answer("other", None).is_none());
    assert_eq!(f.received("r1"), Some(0));
    assert!(matches!(f.answer("r1", Some(list(1, "milk", 4, 11))), Some(None)));
    match f.answer("r1", None) {
        Some(Some(woken)) => woken.send(()).expect("receiver alive"),
        _ => panic!("the second answer reaches the read quorum"),
    }
    assert!(rx.recv().is_ok());
    let q = f.finish("r1").expect("pending");
    assert_eq!(q.received(), 2);
    let merged = q.merge_lists().ok().expect("lists gathered");
    assert_eq!(quantity(&merged, "milk"), 5);
    assert!(f.finish("r1").is_none());
    assert_eq!(f.received("r1"), None);
}
