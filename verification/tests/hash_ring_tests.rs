use sdle::hash_ring::HashRing;
use std::collections::HashSet;
use uuid::Uuid;

#[test]
fn test_preference_list_returns_n_servers() {
    let mut ring = HashRing::new(3, 3);

    let node1 = Uuid::new_v4();
    let node2 = Uuid::new_v4();
    let node3 = Uuid::new_v4();
    let node4 = Uuid::new_v4();

    ring.add_node(node1.as_u128());
    ring.add_node(node2.as_u128());
    ring.add_node(node3.as_u128());
    ring.add_node(node4.as_u128());

    let list_id = Uuid::new_v4();
    let preference_list = ring.get_preference_list(&list_id.as_u128());

    assert_eq!(preference_list.len(), 3);

    let unique: HashSet<_> = preference_list.iter().collect();
    assert_eq!(unique.len(), 3);
}

#[test]
fn test_coordinator_is_first_in_preference_list() {
    let mut ring = HashRing::new(5, 3);

    let node1 = Uuid::new_v4();
    let node2 = Uuid::new_v4();

    ring.add_node(node1.as_u128());
    ring.add_node(node2.as_u128());

    let list_id = Uuid::new_v4();
    let coordinator = ring.get_coordinator(&list_id.as_u128());
    let preference_list = ring.get_preference_list(&list_id.as_u128());

    assert_eq!(coordinator, preference_list.first().copied());
}

#[test]
fn test_remove_server() {
    let mut ring = HashRing::new(3, 2);

    let node1 = Uuid::new_v4();
    let node2 = Uuid::new_v4();

    ring.add_node(node1.as_u128());
    ring.add_node(node2.as_u128());

    assert_eq!(ring.server_count(), 2);

    ring.remove_node(node1.as_u128());

    assert_eq!(ring.server_count(), 1);
    assert!(ring.get_all_servers().contains(&node2.as_u128()));
    assert!(!ring.get_all_servers().contains(&node1.as_u128()));
}

#[test]
fn test_handles_fewer_servers_than_replication_factor() {
    let mut ring = HashRing::new(3, 5);

    let node1 = Uuid::new_v4();
    let node2 = Uuid::new_v4();

    ring.add_node(node1.as_u128());
    ring.add_node(node2.as_u128());

    let list_id = Uuid::new_v4();
    let preference_list = ring.get_preference_list(&list_id.as_u128());

    assert_eq!(preference_list.len(), 2);
}

#[test]
fn hash_is_the_md5_digest() {
    assert_eq!(HashRing::hash(""), 0xd41d8cd98f00b204e9800998ecf8427e);
    assert_eq!(HashRing::hash("abc"), 0x900150983cd24fb0d6963f7d28e17f72);
}

#[test]
fn coordinator_is_the_first_virtual_node_clockwise() {
    let a = Uuid::from_u128(0x0123_4567_89ab_cdef_0123_4567_89ab_cdef);
    let b = Uuid::from_u128(0xfedc_ba98_7654_3210_fedc_ba98_7654_3210);
    let mut ring = HashRing::new(1, 1);
    ring.add_node(a.as_u128());
    ring.add_node(b.as_u128());
    let pa = HashRing::hash(&format!("{}-0", a));
    let pb = HashRing::hash(&format!("{}-0", b));
    for k in 0u128..20 {
        let list = Uuid::from_u128(k * 0x0f0f_0f0f_0f0f_0f0f_0f0f_0f0f_0f0f_0f0f);
        let h = HashRing::hash(&list.to_string());
        let mut candidates: Vec<(u128, Uuid)> = vec![(pa, a), (pb, b)];
        candidates.sort();
        let expected = candidates
            .iter()
            .find(|(p, _)| *p >= h)
            .unwrap_or(&candidates[0])
            .1;
        assert_eq!(ring.get_coordinator(&list.as_u128()), Some(expected.as_u128()));
    }
}

#[test]
fn next_node_is_the_following_other_server() {
    let a = Uuid::new_v4().as_u128();
    let b = Uuid::new_v4().as_u128();
    let mut ring = HashRing::new(1, 2);
    assert_eq!(ring.next_node(&a), None);
    ring.add_node(a);
    assert_eq!(ring.next_node(&a), None);
    ring.add_node(b);
    assert_eq!(ring.next_node(&a), Some(b));
    assert_eq!(ring.next_node(&b), Some(a));
    assert_eq!(ring.next_node(&Uuid::new_v4().as_u128()), None);
}
