use sdle::crdt::{Item, LWWReg};
use sdle::storage::{
    client_id_from_text, ids_from_rows,
    build_item, in_old_data_range, position_from_bytes, read_gcounter, try_updated_item,
    updated_item, StorageError, StoredItemRow,
};
use uuid::Uuid;

const A: u128 = 0x1111_2222_3333_4444_5555_6666_7777_8888;
const B: u128 = 0x9999_aaaa_bbbb_cccc_dddd_eeee_ffff_0000;

fn text(id: u128) -> String {
    Uuid::from_u128(id).to_string()
}

fn row(actor: &str) -> StoredItemRow {
    StoredItemRow {
        item_id: 1,
        name: "eggs".to_string(),
        acquired_val: 1,
        acquired_clock: 4,
        acquired_actor: actor.to_string(),
        p_id: 2,
        n_id: 3,
    }
}

#[test]
fn updated_item_raises_quantity_with_increments() {
    let stored = Item::new(3, false, A);
    let r = updated_item(stored, 5, false, A);
    assert_eq!(r.amount.value_total(), 5);
    assert_eq!(r.amount.positive().value_local(), 5);
    assert_eq!(r.amount.negative().value_local(), 0);
    assert_eq!((r.acquired.val, r.acquired.clock, r.acquired.actor), (0, 0, A));
}

#[test]
fn updated_item_lowers_quantity_with_decrements() {
    let stored = Item::new(5, false, A);
    let r = updated_item(stored, 2, false, A);
    assert_eq!(r.amount.value_total(), 2);
    assert_eq!(r.amount.positive().value_local(), 5);
    assert_eq!(r.amount.negative().value_local(), 3);
}

#[test]
fn updated_item_writes_a_changed_flag_at_the_next_clock() {
    let stored = Item::new(1, false, A);
    let r = updated_item(stored, 1, true, B);
    assert_eq!((r.acquired.val, r.acquired.clock, r.acquired.actor), (1, 1, B));
    assert_eq!(r.amount.value_total(), 1);
    let same = updated_item(Item::new(1, true, A), 1, true, B);
    assert_eq!((same.acquired.val, same.acquired.clock, same.acquired.actor), (1, 0, A));
}

#[test]
fn try_updated_item_refuses_what_does_not_fit() {
    assert!(try_updated_item(Item::new(1, false, A), u64::MAX, false, A).is_none());
    let mut at_end = Item::new(1, false, A);
    at_end.acquired = LWWReg::new(0, u32::MAX, A);
    assert!(try_updated_item(at_end, 1, true, A).is_none());
    let r = try_updated_item(Item::new(4, false, A), 9, true, B).expect("fits");
    assert_eq!(r.amount.value_total(), 9);
    assert_eq!((r.acquired.val, r.acquired.clock, r.acquired.actor), (1, 1, B));
}

#[test]
fn read_gcounter_parses_actor_texts() {
    let rows = vec![(text(A), 3u64), (text(B), 4u64)];
    let g = read_gcounter(&rows, B).ok().expect("valid rows");
    assert_eq!(g.value_total(), 7);
    assert_eq!(g.value_local(), 4);
    assert_eq!(g.owner_id(), B);
    let bad = vec![(text(A), 3u64), ("not-a-uuid".to_string(), 1u64)];
    assert!(read_gcounter(&bad, B).err() == Some(StorageError::BadActor));
}

#[test]
fn build_item_rebuilds_counters_and_register() {
    let p_rows = vec![(text(A), 6u64)];
    let n_rows = vec![(text(A), 2u64)];
    let it = build_item(&row(&text(B)), &p_rows, &n_rows, A).ok().expect("valid rows");
    assert_eq!(it.amount.value_total(), 4);
    assert_eq!((it.acquired.val, it.acquired.clock, it.acquired.actor), (1, 4, B));
}

#[test]
fn build_item_refuses_a_bad_actor() {
    let p_rows = vec![(text(A), 6u64)];
    let n_rows: Vec<(String, u64)> = vec![];
    assert!(build_item(&row("nobody"), &p_rows, &n_rows, A).err() == Some(StorageError::BadActor));
    let bad_rows = vec![("x".to_string(), 1u64)];
    assert!(build_item(&row(&text(B)), &p_rows, &bad_rows, A).err() == Some(StorageError::BadActor));
}

#[test]
fn old_data_range_follows_the_ring() {
    // predecessor below the node: positions after the predecessor up to the node
    assert!(in_old_data_range(5, 10, 3));
    assert!(in_old_data_range(10, 10, 3));
    assert!(!in_old_data_range(3, 10, 3));
    assert!(!in_old_data_range(11, 10, 3));
    // otherwise the range runs round the end of the ring
    assert!(in_old_data_range(50, 10, 30));
    assert!(in_old_data_range(5, 10, 30));
    assert!(!in_old_data_range(20, 10, 30));
    assert!(!in_old_data_range(30, 10, 30));
}

#[test]
fn position_from_bytes_is_big_endian() {
    let mut bytes = vec![0u8; 16];
    bytes[14] = 1;
    bytes[15] = 2;
    assert_eq!(position_from_bytes(&bytes), 258);
    assert_eq!(position_from_bytes(&vec![0xffu8; 16]), u128::MAX);
    let n: u128 = 0x0102_0304_0506_0708_090a_0b0c_0d0e_0f10;
    assert_eq!(position_from_bytes(&n.to_be_bytes().to_vec()), n);
}

#[test]
fn counter_rows_read_back_as_the_counter() {
    let g = sdle::crdt::GCounter::from_pairs(&vec![(B, 4), (A, 3)], A);
    let rows = sdle::storage::counter_rows(&g);
    assert_eq!(rows, vec![(text(A), 3u64), (text(B), 4u64)]);
    let back = read_gcounter(&rows, A).ok().expect("rows read back");
    assert_eq!(back.pairs(), g.pairs());
    assert_eq!(back.value_total(), 7);
}

#[test]
fn list_position_hashes_the_id_text() {
    let expected = sdle::hash_ring::HashRing::hash(&text(A));
    assert_eq!(sdle::storage::list_position(A), expected);
    assert_ne!(sdle::storage::list_position(A), sdle::storage::list_position(B));
}

#[test]
fn item_rows_read_back_as_the_item() {
    let mut item = Item::new(6, true, A);
    item.amount.dec_by(2);
    let (row, p_rows, n_rows) = sdle::storage::item_rows(&item, 9, "milk".to_string(), 3, 4);
    assert_eq!((row.item_id, row.name.as_str(), row.p_id, row.n_id), (9, "milk", 3, 4));
    assert_eq!(row.acquired_actor, text(A));
    let back = build_item(&row, &p_rows, &n_rows, B).ok().expect("rows read back");
    assert_eq!(back.amount.value_total(), 4);
    assert_eq!(back.amount.positive().pairs(), item.amount.positive().pairs());
    assert_eq!(back.amount.negative().pairs(), item.amount.negative().pairs());
    assert_eq!((back.acquired.val, back.acquired.clock, back.acquired.actor), (1, 0, A));
}

#[test]
fn list_from_items_adds_entries_in_turn() {
    let items = vec![
        ("milk".to_string(), Item::new(2, false, A)),
        ("bread".to_string(), Item::new(1, false, A)),
        ("milk".to_string(), Item::new(3, false, B)),
    ];
    let l = sdle::storage::list_from_items(7, items);
    assert_eq!(l.id, 7);
    assert_eq!(l.list.keys(), vec!["milk".to_string(), "bread".to_string()]);
    assert_eq!(l.list.get("milk").expect("present").amount.value_total(), 5);
}

#[test]
fn ids_are_read_from_texts() {
    assert_eq!(client_id_from_text(&text(A)), Some(A));
    assert_eq!(client_id_from_text("someone"), None);
    assert_eq!(ids_from_rows(&vec![text(B), text(A)]), Some(vec![B, A]));
    assert_eq!(ids_from_rows(&vec![text(B), "x".to_string()]), None);
    assert_eq!(ids_from_rows(&vec![]), Some(vec![]));
}
