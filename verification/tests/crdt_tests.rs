use sdle::crdt::{AWORMap, GCounter, Item, LWWReg, Mergeable, PNCounter};
use uuid::Uuid;

fn mk_item(amount: i64, clock: u32, actor: Uuid, acquired: bool) -> Item {
    let mut pn = PNCounter::new(actor.as_u128());
    if amount > 0 {
        for _ in 0..amount {
            pn.inc();
        }
    } else {
        for _ in 0..(-amount) {
            pn.inc();
        }
    }

    let reg = LWWReg::new(acquired as u32, clock, actor.as_u128());

    Item {
        amount: pn,
        acquired: reg,
    }
}

// GCounter
#[test]
fn test_gcounter_local_increment() {
    let id = Uuid::new_v4();
    let mut c = GCounter::new(id.as_u128());

    assert_eq!(c.value_local(), 0);
    assert_eq!(c.value_total(), 0);

    c.inc();
    c.inc();

    assert_eq!(c.value_local(), 2);
    assert_eq!(c.value_total(), 2);
}

#[test]
fn test_gcounter_merge() {
    let id1 = Uuid::new_v4();
    let id2 = Uuid::new_v4();

    let mut c1 = GCounter::new(id1.as_u128());
    let mut c2 = GCounter::new(id2.as_u128());

    c1.inc();
    c1.inc();
    c2.inc();

    c1.merge(&c2);

    assert_eq!(c1.value_total(), 3);
    assert_eq!(c1.value_local(), 2);
    assert_eq!(c2.value_local(), 1);
}

#[test]
fn test_gcounter_merge_commutative() {
    let id1 = Uuid::new_v4();
    let id2 = Uuid::new_v4();

    let mut a = GCounter::new(id1.as_u128());
    let mut b = GCounter::new(id2.as_u128());

    a.inc();
    a.inc();
    b.inc();

    let mut a_then_b = a.clone();
    let mut b_then_a = b.clone();

    a_then_b.merge(&b);
    b_then_a.merge(&a);

    assert_eq!(a_then_b.value_total(), b_then_a.value_total());
}

#[test]
fn test_gcounter_merge_is_idempotent() {
    let id1 = Uuid::new_v4();
    let id2 = Uuid::new_v4();

    let mut a = GCounter::new(id1.as_u128());
    let mut b = GCounter::new(id2.as_u128());

    a.inc();
    b.inc();

    a.merge(&b);
    let first_merge_value = a.value_total();

    a.merge(&b);
    let second_merge_value = a.value_total();

    assert_eq!(first_merge_value, second_merge_value);
}

#[test]
fn test_gcounter_merge_is_associative() {
    let id1 = Uuid::new_v4();
    let id2 = Uuid::new_v4();
    let id3 = Uuid::new_v4();

    let mut a = GCounter::new(id1.as_u128());
    let mut b = GCounter::new(id2.as_u128());
    let mut c = GCounter::new(id3.as_u128());

    a.inc(); // 1
    b.inc(); // 1
    b.inc(); // 2
    c.inc(); // 1

    let mut ab = a.clone();
    ab.merge(&b);
    ab.merge(&c);

    let mut bc = b.clone();
    bc.merge(&c);
    let mut a_bc = a.clone();
    a_bc.merge(&bc);

    assert_eq!(ab.value_total(), a_bc.value_total());
}

// PNCounter
#[test]
fn test_pncounter_local_value() {
    let id = Uuid::new_v4();
    let mut counter = PNCounter::new(id.as_u128());

    assert_eq!(counter.value_local(), 0);

    counter.inc();
    assert_eq!(counter.value_local(), 1);

    counter.dec();
    assert_eq!(counter.value_local(), 0);

    counter.inc();
    counter.inc();
    counter.dec();
    assert_eq!(counter.value_local(), 1);
}

#[test]
fn test_pncounter_merge_counters() {
    let id1 = Uuid::new_v4();
    let id2 = Uuid::new_v4();

    let mut c1 = PNCounter::new(id1.as_u128());
    let mut c2 = PNCounter::new(id2.as_u128());

    c1.inc();
    c1.inc();
    c2.inc();
    c2.dec();

    assert_eq!(c1.value_total(), 2);
    assert_eq!(c2.value_total(), 0);

    c1.merge(&c2);
    c2.merge(&c1);

    assert_eq!(c1.value_total(), 2);
    assert_eq!(c2.value_total(), 2);
}

#[test]
fn test_pncounter_convergence() {
    let id1 = Uuid::new_v4();
    let id2 = Uuid::new_v4();

    let mut c1 = PNCounter::new(id1.as_u128());
    let mut c2 = PNCounter::new(id2.as_u128());

    for _ in 0..5 {
        c1.inc();
    }
    for _ in 0..3 {
        c2.inc();
    }
    for _ in 0..2 {
        c1.dec();
    }
    for _ in 0..1 {
        c2.dec();
    }

    c1.merge(&c2);
    c2.merge(&c1);

    assert_eq!(c1.value_total(), 5 + 3 - 2 - 1);
    assert_eq!(c2.value_total(), 5);
}

#[test]
fn test_local_values_are_correct() {
    let id = Uuid::new_v4();
    let mut c = PNCounter::new(id.as_u128());

    for _ in 0..4 {
        c.inc();
    }
    for _ in 0..2 {
        c.dec();
    }

    assert_eq!(c.value_local(), 2);
}

// LWWReg
#[test]
fn test_lwwreg_update_newer_clock() {
    let mut reg = LWWReg::new(10, 1, 1u32);
    reg.update(20, 2, 2);

    assert_eq!(reg.val, 20);
    assert_eq!(reg.clock, 2);
    assert_eq!(reg.actor, 2);
}

#[test]
fn test_lwwreg_update_ignores_older_clock() {
    let mut reg = LWWReg::new(10, 2, 1u32);
    reg.update(20, 1, 2);

    assert_eq!(reg.val, 10);
    assert_eq!(reg.clock, 2);
    assert_eq!(reg.actor, 1);
}

#[test]
fn test_lwwreg_update_tiebreaker() {
    let mut reg = LWWReg::new(10, 5, 1u32);
    reg.update(20, 5, 2);

    assert_eq!(reg.val, 20);
    assert_eq!(reg.actor, 2);
}

#[test]
fn test_lwwreg_merge() {
    let mut a = LWWReg::new(1, 1, 1u32);
    let b = LWWReg::new(2, 3, 2u32);

    a.merge(&b);

    assert_eq!(a.val, 2);
    assert_eq!(a.clock, 3);
    assert_eq!(a.actor, 2);
}

#[test]
fn test_lwwreg_merge_tiebreaker() {
    let mut a = LWWReg::new(10, 7, 1u32);
    let b = LWWReg::new(20, 7, 2u32);

    a.merge(&b);

    assert_eq!(a.val, 20);
    assert_eq!(a.actor, 2);
}

#[test]
fn test_lwwreg_merge_is_idempotent() {
    let mut a = LWWReg::new(10, 5, 3u32);
    let clone = a.clone();

    a.merge(&clone);

    assert_eq!(a.val, clone.val);
    assert_eq!(a.clock, clone.clock);
    assert_eq!(a.actor, clone.actor);
}

#[test]
fn test_lwwreg_merge_is_commutative() {
    let a = LWWReg::new(10, 5, 1u32);
    let b = LWWReg::new(20, 7, 2u32);

    let mut ab = a.clone();
    ab.merge(&b);

    let mut ba = b.clone();
    ba.merge(&a);

    assert_eq!(ab.val, ba.val);
    assert_eq!(ab.clock, ba.clock);
    assert_eq!(ab.actor, ba.actor);
}

#[test]
fn test_lwwreg_merge_is_associative() {
    let a = LWWReg::new(10, 1, 1u32);
    let b = LWWReg::new(20, 2, 2u32);
    let c = LWWReg::new(30, 3, 3u32);

    let mut ab_c = a.clone();
    ab_c.merge(&b);
    ab_c.merge(&c);

    let mut a_bc = a.clone();
    let mut bc = b.clone();
    bc.merge(&c);
    a_bc.merge(&bc);

    assert_eq!(ab_c.val, a_bc.val);
    assert_eq!(ab_c.clock, a_bc.clock);
    assert_eq!(ab_c.actor, a_bc.actor);
}

// AWORMap
#[test]
fn test_awormap_insert_item() {
    let mut map = AWORMap::new();
    let id = Uuid::new_v4();

    let item = mk_item(3, 1, id, false);
    map.insert("apple".into(), item.clone());

    assert!(!map.is_empty());
    assert_eq!(map.keys(), vec!["apple".to_string()]);
    assert_eq!(
        map.values()[0].amount.value_local(),
        item.amount.value_local()
    );
}

#[test]
fn test_awormap_insert_item_merges() {
    let mut map = AWORMap::new();
    let id1 = Uuid::new_v4();
    let id2 = Uuid::new_v4();

    let a = mk_item(2, 1, id1, false);
    let b = mk_item(5, 3, id2, false);

    map.insert("apple".into(), a.clone());
    map.insert("apple".into(), b.clone());

    let result = map.values()[0].clone();

    assert_eq!(
        result.amount.value_total(),
        a.amount.value_local() + b.amount.value_local()
    );
}

#[test]
fn test_awormap_merge_combines_keys() {
    let mut m1 = AWORMap::new();
    let mut m2 = AWORMap::new();

    let id = Uuid::new_v4();

    m1.insert("apple".into(), mk_item(3, 1, id, false));
    m2.insert("banana".into(), mk_item(7, 1, id, false));

    m1.merge(&m2);

    let keys = m1.keys();
    assert!(keys.contains(&"apple".to_string()));
    assert!(keys.contains(&"banana".to_string()));
}

#[test]
fn test_awormap_acquired() {
    let mut m1 = AWORMap::new();
    let mut m2 = AWORMap::new();

    let id1 = Uuid::new_v4();
    let id2 = Uuid::new_v4();

    m1.insert("apple".into(), mk_item(2, 2, id1, false));
    m2.insert("apple".into(), mk_item(2, 1, id2, true));

    m1.merge(&m2);

    let result = m1.get("apple").unwrap();

    assert_eq!(result.acquired.val, 0u32);
}

#[test]
fn test_awormap_merge_idempotent() {
    let mut m1 = AWORMap::new();

    let id = Uuid::new_v4();
    m1.insert("apple".into(), mk_item(1, 1, id, false));

    let clone = m1.clone();
    m1.merge(&clone);

    assert_eq!(m1.keys(), clone.keys());
    assert_eq!(
        m1.get("apple").unwrap().amount.value_local(),
        clone.get("apple").unwrap().amount.value_local()
    );
    assert_eq!(
        m1.get("apple").unwrap().acquired.val,
        clone.get("apple").unwrap().acquired.val
    );
}

#[test]
fn test_awormap_merge_is_commutative() {
    let id1 = Uuid::nil();
    let id2 = Uuid::from_u128(2);

    let mut a = AWORMap::new();
    let mut b = AWORMap::new();

    a.insert("apple".into(), mk_item(3, 2, id1, false));
    b.insert("apple".into(), mk_item(5, 4, id2, false));
    b.insert("banana".into(), mk_item(1, 1, id1, false));

    let mut ab = a.clone();
    ab.merge(&b);

    let mut ba = b.clone();
    ba.merge(&a);

    assert_eq!(ab.keys().len(), ba.keys().len());
    assert_eq!(
        ab.get("apple").unwrap().amount.value_total(),
        ba.get("apple").unwrap().amount.value_total()
    );
    assert_eq!(
        ab.get("apple").unwrap().acquired.clock,
        ba.get("apple").unwrap().acquired.clock
    );
    assert_eq!(
        ab.get("banana").unwrap().amount.value_total(),
        ba.get("banana").unwrap().amount.value_total()
    );
}

#[test]
fn test_awormap_merge_is_associative() {
    let id1 = Uuid::nil();
    let id2 = Uuid::from_u128(2);
    let id3 = Uuid::from_u128(3);

    let mut a = AWORMap::new();
    let mut b = AWORMap::new();
    let mut c = AWORMap::new();

    a.insert("apple".into(), mk_item(1, 1, id1, false));
    b.insert("apple".into(), mk_item(2, 2, id2, false));
    c.insert("banana".into(), mk_item(3, 3, id3, false));

    let mut ab_c = a.clone();
    ab_c.merge(&b);
    ab_c.merge(&c);

    let mut a_bc = a.clone();
    let mut bc = b.clone();
    bc.merge(&c);
    a_bc.merge(&bc);

    assert_eq!(ab_c.keys().len(), a_bc.keys().len());

    for key in ab_c.keys() {
        let i1 = ab_c.get(&key).unwrap();
        let i2 = a_bc.get(&key).unwrap();

        assert_eq!(i1.amount.value_total(), i2.amount.value_total());
        assert_eq!(i1.acquired.clock, i2.acquired.clock);
        assert_eq!(i1.acquired.actor, i2.acquired.actor);
    }
}

#[test]
fn test_awormap_replicas_converge_after_merge() {
    let id1 = Uuid::nil();
    let id2 = Uuid::from_u128(2);

    let mut r1 = AWORMap::new();
    let mut r2 = AWORMap::new();

    r1.insert("apple".into(), mk_item(2, 1, id1, false));
    r2.insert("apple".into(), mk_item(5, 3, id2, false));
    r2.insert("banana".into(), mk_item(1, 1, id1, false));

    let mut m1 = r1.clone();
    let mut m2 = r2.clone();

    m1.merge(&r2);
    m2.merge(&r1);

    assert_eq!(m1.keys(), m2.keys());

    for key in m1.keys() {
        let i1 = m1.get(&key).unwrap();
        let i2 = m2.get(&key).unwrap();

        assert_eq!(i1.amount.value_total(), i2.amount.value_total());
        assert_eq!(i1.acquired.clock, i2.acquired.clock);
    }
}

#[test]
fn gcounter_merge_never_lowers_a_replica() {
    let a = Uuid::new_v4().as_u128();
    let b = Uuid::new_v4().as_u128();
    let mut x = GCounter::from_pairs(&vec![(a, 5), (b, 1)], a);
    let y = GCounter::from_pairs(&vec![(a, 2), (b, 7)], b);
    x.merge(&y);
    let mut pairs = x.pairs();
    pairs.sort();
    let mut expected = vec![(a, 5), (b, 7)];
    expected.sort();
    assert_eq!(pairs, expected);
    assert_eq!(x.value_total(), 12);
}
