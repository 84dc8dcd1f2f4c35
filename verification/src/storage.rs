//! What client and server storage compute between reading rows and writing them.
use vstd::prelude::*;
use crate::crdt::gcounter::{count_of, join_counts, lemma_pairs_map_sorted, map_total, pairs_map};
use crate::crdt::lwwreg::{lww_join, LWWReg};
use crate::crdt::awormap::{distinct_names, entries_map, has_name, items_join, lemma_items_join_distinct};
use crate::crdt::{AWORMap, GCounter, Item, ItemView, Mergeable, PNCounter, ShoppingList};
use crate::hash_ring::{list_hash, HashRing};
use crate::ids::{parse_uuid, parsed_uuid, uuid_string, uuid_text};

verus! {

/// Why stored data could not be turned back into a list.
#[derive(PartialEq, Eq, Structural)]
pub enum StorageError {
    /// A stored actor identifier is not a UUID.
    BadActor,
}

/// One stored item row: its name, its acquired register, and the ids of its two counters.
pub struct StoredItemRow {
    pub item_id: i64,
    pub name: String,
    pub acquired_val: u32,
    pub acquired_clock: u32,
    pub acquired_actor: String,
    pub p_id: i64,
    pub n_id: i64,
}

/// The `(actor, count)` pairs of stored counter rows, if every actor text is a UUID.
pub open spec fn parsed_pairs(rows: Seq<(String, u64)>) -> Option<Seq<(u128, u64)>>
    decreases rows.len(),
{
    if rows.len() == 0 {
        Some(Seq::empty())
    } else {
        match (parsed_pairs(rows.drop_last()), parsed_uuid(rows.last().0@)) {
            (Some(s), Some(a)) => Some(s.push((a, rows.last().1))),
            _ => None,
        }
    }
}

/// Each row carries, as hyphenated text, the id of a replica of `m`, and that
/// replica's count.
pub open spec fn rows_of_counts(rows: Seq<(String, u64)>, m: Map<u128, u64>) -> bool {
    forall|i: int| 0 <= i < rows.len() ==> {
        let id = parsed_uuid((#[trigger] rows[i]).0@).unwrap();
        &&& rows[i].0@ == uuid_text(id)
        &&& m.contains_key(id)
        &&& m[id] == rows[i].1
    }
}

/// The rows under which a counter is stored: each replica's id in hyphenated form
/// with its count, in increasing replica order. `read_gcounter` reads them back as
/// the counter's counts.
pub fn counter_rows(g: &GCounter) -> (r: Vec<(String, u64)>)
    requires
        g.wf(),
    ensures
        rows_of_counts(r@, g@),
        parsed_pairs(r@) is Some,
        pairs_map(parsed_pairs(r@).unwrap()) == g@,
{
    let ps = g.pairs();
    let mut rows: Vec<(String, u64)> = Vec::new();
    let mut i: usize = 0;
    proof {
        assert(rows@ =~= Seq::<(String, u64)>::empty());
        assert(ps@.take(0) =~= Seq::<(u128, u64)>::empty());
        crate::sorted_map::lemma_to_map_entries(ps@);
    }
    while i < ps.len()
        invariant
            i <= ps@.len(),
            rows.len() == i,
            crate::sorted_map::sorted(ps@),
            crate::sorted_map::to_map(ps@) == g@,
            forall|x: int| 0 <= x < ps@.len() ==> g@.contains_key(#[trigger] ps@[x].0) && g@[ps@[x].0]
                == ps@[x].1,
            forall|x: int| 0 <= x < i ==> {
                &&& parsed_uuid((#[trigger] rows@[x]).0@) == Some(ps@[x].0)
                &&& rows@[x].0@ == uuid_text(ps@[x].0)
                &&& rows@[x].1 == ps@[x].1
            },
            parsed_pairs(rows@) == Some(ps@.take(i as int)),
        decreases ps@.len() - i,
    {
        let (id, count) = ps[i];
        let text = uuid_string(id);
        let ghost before = rows@;
        rows.push((text, count));
        proof {
            assert(rows@.drop_last() =~= before);
            assert(ps@.take(i + 1) =~= ps@.take(i as int).push(ps@[i as int]));
        }
        i = i + 1;
    }
    proof {
        assert(ps@.take(ps@.len() as int) =~= ps@);
        lemma_pairs_map_sorted(ps@);
    }
    rows
}

/// The client id stored as text, if the text is a UUID.
pub fn client_id_from_text(text: &str) -> (r: Option<u128>)
    ensures
        r == parsed_uuid(text@),
{
    parse_uuid(text)
}

/// The ids stored as texts in `rows`, in order, if every text is a UUID.
pub fn ids_from_rows(rows: &Vec<String>) -> (r: Option<Vec<u128>>)
    ensures
        r is None <==> exists|i: int| 0 <= i < rows.len() && (#[trigger] parsed_uuid(rows@[i]@)) is None,
        r matches Some(v) ==> v.len() == rows.len() && forall|i: int|
            0 <= i < rows.len() ==> Some(#[trigger] v@[i]) == parsed_uuid(rows@[i]@),
{
    let mut ids: Vec<u128> = Vec::new();
    let mut i: usize = 0;
    while i < rows.len()
        invariant
            i <= rows.len(),
            ids.len() == i,
            forall|x: int| 0 <= x < i ==> Some(#[trigger] ids@[x]) == parsed_uuid(rows@[x]@),
        decreases rows.len() - i,
    {
        match parse_uuid(rows[i].as_str()) {
            Some(id) => ids.push(id),
            None => {
                return None;
            },
        }
        i = i + 1;
    }
    proof {
        assert forall|x: int| 0 <= x < rows.len() implies (#[trigger] parsed_uuid(rows@[x]@)) is Some by {
            assert(Some(ids@[x]) == parsed_uuid(rows@[x]@));
        }
    }
    Some(ids)
}

/// Rebuilds a grow-only counter for replica `client_id` from its stored rows.
pub fn read_gcounter(rows: &Vec<(String, u64)>, client_id: u128) -> (r: Result<GCounter, StorageError>)
    ensures
        r is Err <==> parsed_pairs(rows@) is None,
        r matches Ok(g) ==> g.wf() && g.owner() == client_id && g@ == pairs_map(
            parsed_pairs(rows@).unwrap(),
        ),
{
    let mut pairs: Vec<(u128, u64)> = Vec::new();
    let mut i: usize = 0;
    while i < rows.len()
        invariant
            i <= rows@.len(),
            parsed_pairs(rows@.take(i as int)) == Some(pairs@),
        decreases rows@.len() - i,
    {
        proof {
            assert(rows@.take(i + 1).drop_last() =~= rows@.take(i as int));
        }
        match parse_uuid(rows[i].0.as_str()) {
            Some(actor) => {
                pairs.push((actor, rows[i].1));
            },
            None => {
                proof {
                    lemma_parsed_pairs_prefix_none(rows@, i as int + 1);
                }
                return Err(StorageError::BadActor);
            },
        }
        i = i + 1;
    }
    proof {
        assert(rows@.take(rows@.len() as int) =~= rows@);
    }
    Ok(GCounter::from_pairs(&pairs, client_id))
}

/// Once a prefix of the rows fails to parse, so do all the rows.
proof fn lemma_parsed_pairs_prefix_none(rows: Seq<(String, u64)>, i: int)
    requires
        0 <= i <= rows.len(),
        parsed_pairs(rows.take(i)) is None,
    ensures
        parsed_pairs(rows) is None,
    decreases rows.len() - i,
{
    if i < rows.len() {
        assert(rows.take(i + 1).drop_last() =~= rows.take(i));
        lemma_parsed_pairs_prefix_none(rows, i + 1);
    } else {
        assert(rows.take(i) =~= rows);
    }
}

/// The item state that a stored row and the rows of its two counters describe, if
/// every actor text in them is a UUID.
pub open spec fn stored_view(
    row: StoredItemRow,
    p_rows: Seq<(String, u64)>,
    n_rows: Seq<(String, u64)>,
) -> Option<ItemView> {
    match (parsed_pairs(p_rows), parsed_pairs(n_rows), parsed_uuid(row.acquired_actor@)) {
        (Some(p), Some(n), Some(actor)) => Some(
            ItemView {
                increments: pairs_map(p),
                decrements: pairs_map(n),
                acquired: LWWReg { val: row.acquired_val, clock: row.acquired_clock, actor },
            },
        ),
        _ => None,
    }
}

/// The rows under which an item is stored: its row (with `item_id`, `name` and the
/// ids of its two counters) and the rows of its two counters. `build_item` reads
/// them back as the same item state: `stored_view` of them is the item's view.
pub fn item_rows(item: &Item, item_id: i64, name: String, p_id: i64, n_id: i64) -> (r: (
    StoredItemRow,
    Vec<(String, u64)>,
    Vec<(String, u64)>,
))
    requires
        item.wf(),
    ensures
        r.0.item_id == item_id,
        r.0.name == name,
        r.0.p_id == p_id,
        r.0.n_id == n_id,
        r.0.acquired_val == item.acquired.val,
        r.0.acquired_clock == item.acquired.clock,
        r.0.acquired_actor@ == uuid_text(item.acquired.actor),
        rows_of_counts(r.1@, item@.increments),
        rows_of_counts(r.2@, item@.decrements),
        stored_view(r.0, r.1@, r.2@) == Some(item@),
{
    let p_rows = counter_rows(item.amount.positive());
    let n_rows = counter_rows(item.amount.negative());
    let row = StoredItemRow {
        item_id,
        name,
        acquired_val: item.acquired.val,
        acquired_clock: item.acquired.clock,
        acquired_actor: uuid_string(item.acquired.actor),
        p_id,
        n_id,
    };
    (row, p_rows, n_rows)
}

/// Rebuilds an item from its stored row and the rows of its two counters; both
/// counters count on behalf of `client_id`.
pub fn build_item(
    row: &StoredItemRow,
    p_rows: &Vec<(String, u64)>,
    n_rows: &Vec<(String, u64)>,
    client_id: u128,
) -> (r: Result<Item, StorageError>)
    ensures
        r is Err <==> (parsed_pairs(p_rows@) is None || parsed_pairs(n_rows@) is None
            || parsed_uuid(row.acquired_actor@) is None),
        r is Err <==> stored_view(*row, p_rows@, n_rows@) is None,
        r matches Ok(it) ==> {
            &&& it.wf()
            &&& stored_view(*row, p_rows@, n_rows@) == Some(it@)
            &&& it@.increments == pairs_map(parsed_pairs(p_rows@).unwrap())
            &&& it@.decrements == pairs_map(parsed_pairs(n_rows@).unwrap())
            &&& it.acquired == (LWWReg {
                val: row.acquired_val,
                clock: row.acquired_clock,
                actor: parsed_uuid(row.acquired_actor@).unwrap(),
            })
            &&& it.amount.inc_owner() == client_id
            &&& it.amount.dec_owner() == client_id
        },
{
    let p = read_gcounter(p_rows, client_id)?;
    let n = read_gcounter(n_rows, client_id)?;
    let amount = PNCounter::from_parts(p, n);
    let actor = match parse_uuid(row.acquired_actor.as_str()) {
        Some(a) => a,
        None => return Err(StorageError::BadActor),
    };
    let acquired = LWWReg::new(row.acquired_val, row.acquired_clock, actor);
    Ok(Item { amount, acquired })
}

/// The quantity the item counts, by all replicas together.
pub open spec fn item_total(it: &Item) -> int {
    map_total(it@.increments) - map_total(it@.decrements)
}

/// Whether the arithmetic of an update fits the integer types: both totals and the
/// target quantity fit `i64`, so does the change, the replica's own count plus the
/// change fits `u64`, and a flag that changes has a clock to advance.
pub open spec fn update_fits(stored: &Item, quantity: u64, acquired: bool) -> bool {
    let d = quantity - item_total(stored);
    &&& map_total(stored@.increments) <= i64::MAX
    &&& map_total(stored@.decrements) <= i64::MAX
    &&& quantity <= i64::MAX
    &&& i64::MIN < d <= i64::MAX
    &&& d > 0 ==> count_of(stored@.increments, stored.amount.inc_owner()) + d <= u64::MAX
    &&& d < 0 ==> count_of(stored@.decrements, stored.amount.dec_owner()) - d <= u64::MAX
    &&& (if acquired { 1u32 } else { 0u32 }) != stored.acquired.val ==> stored.acquired.clock
        < u32::MAX
}

/// `r` is `stored` after a client sets its quantity to `quantity` and its acquired
/// flag to `acquired`: the difference to the current quantity is counted as
/// increments or decrements of the client's own entries, and a changed flag is
/// written at the next clock by `client_id`.
pub open spec fn is_update_of(r: &Item, stored: &Item, quantity: u64, acquired: bool, client_id: u128) -> bool {
    let d = quantity - item_total(stored);
    let flag: u32 = if acquired { 1u32 } else { 0u32 };
    &&& r.wf()
    &&& r@.increments == if d > 0 {
        stored@.increments.insert(
            stored.amount.inc_owner(),
            (count_of(stored@.increments, stored.amount.inc_owner()) + d) as u64,
        )
    } else {
        stored@.increments
    }
    &&& r@.decrements == if d < 0 {
        stored@.decrements.insert(
            stored.amount.dec_owner(),
            (count_of(stored@.decrements, stored.amount.dec_owner()) - d) as u64,
        )
    } else {
        stored@.decrements
    }
    &&& r.acquired == if flag != stored.acquired.val {
        LWWReg { val: flag, clock: (stored.acquired.clock + 1) as u32, actor: client_id }
    } else {
        stored.acquired
    }
    &&& r.amount.inc_owner() == stored.amount.inc_owner()
    &&& r.amount.dec_owner() == stored.amount.dec_owner()
    &&& item_total(r) == quantity
}

/// The stored item after a client sets its quantity to `quantity` and its acquired
/// flag to `acquired`, merged with what was stored.
pub fn updated_item(stored: Item, quantity: u64, acquired: bool, client_id: u128) -> (r: Item)
    requires
        stored.wf(),
        update_fits(&stored, quantity, acquired),
    ensures
        is_update_of(&r, &stored, quantity, acquired, client_id),
{
    let mut stored = stored;
    proof {
        let d = quantity - item_total(&stored);
        if d > 0 {
            stored.amount.lemma_totals_insert(
                stored.amount.inc_owner(),
                (count_of(stored@.increments, stored.amount.inc_owner()) + d) as u64,
            );
        } else if d < 0 {
            stored.amount.lemma_totals_insert(
                stored.amount.dec_owner(),
                (count_of(stored@.decrements, stored.amount.dec_owner()) - d) as u64,
            );
        }
    }
    let current_quantity = stored.amount.value_total();
    let delta = quantity as i64 - current_quantity;
    let mut local_updated_item = stored.clone();
    if delta > 0 {
        local_updated_item.amount.inc_by(delta as u64);
    } else if delta < 0 {
        local_updated_item.amount.dec_by((-delta) as u64);
    }
    let new_acquired_val: u32 = if acquired {
        1
    } else {
        0
    };
    if new_acquired_val != stored.acquired.val {
        local_updated_item.acquired = LWWReg {
            val: new_acquired_val,
            clock: stored.acquired.clock + 1,
            actor: client_id,
        };
    }
    let ghost before = stored@;
    let ghost local = local_updated_item@;
    stored.merge(&local_updated_item);
    proof {
        assert(join_counts(before.increments, local.increments) =~= local.increments);
        assert(join_counts(before.decrements, local.decrements) =~= local.decrements);
        assert(lww_join(before.acquired, local.acquired) == local.acquired);
    }
    stored
}

/// `updated_item` where its arithmetic fits, and `None` where it does not.
pub fn try_updated_item(stored: Item, quantity: u64, acquired: bool, client_id: u128) -> (r: Option<Item>)
    requires
        stored.wf(),
    ensures
        r is Some <==> update_fits(&stored, quantity, acquired),
        r matches Some(it) ==> is_update_of(&it, &stored, quantity, acquired, client_id),
{
    if !stored.amount.totals_fit() || quantity > 9223372036854775807u64 {
        return None;
    }
    let current: i64 = stored.amount.value_total();
    let delta: i128 = quantity as i128 - current as i128;
    if delta > 9223372036854775807i128 {
        return None;
    }
    if delta > 0 {
        let own: u64 = stored.amount.positive().value_local();
        if own as i128 + delta > 18446744073709551615i128 {
            return None;
        }
    } else if delta < 0 {
        let own: u64 = stored.amount.negative().value_local();
        if own as i128 - delta > 18446744073709551615i128 {
            return None;
        }
    }
    let flag: u32 = if acquired { 1 } else { 0 };
    if flag != stored.acquired.val && stored.acquired.clock == u32::MAX {
        return None;
    }
    Some(updated_item(stored, quantity, acquired, client_id))
}

/// The list `id` rebuilt from its stored items, added one by one in the order given.
pub fn list_from_items(id: u128, items: Vec<(String, Item)>) -> (r: ShoppingList)
    requires
        forall|i: int| 0 <= i < items.len() ==> (#[trigger] items@[i]).1.wf(),
    ensures
        r.id == id,
        r.list.wf(),
        r.list@ == items_join(items@),
{
    let ghost s = items@;
    let mut list = AWORMap::new();
    let mut rest = items;
    let mut i: usize = 0;
    proof {
        assert(s.take(0) =~= Seq::<(String, Item)>::empty());
        assert(items_join(s.take(0)) =~= Map::<Seq<char>, ItemView>::empty());
    }
    let n: usize = rest.len();
    while rest.len() > 0
        invariant
            s.len() == n,
            i <= s.len(),
            rest@ == s.skip(i as int),
            forall|x: int| 0 <= x < s.len() ==> (#[trigger] s[x]).1.wf(),
            list.wf(),
            list@ == items_join(s.take(i as int)),
        decreases rest@.len(),
    {
        let (name, item) = rest.remove(0);
        proof {
            assert((name, item) == s[i as int]);
            assert(rest@ =~= s.skip(i + 1));
            assert(s.take(i + 1).drop_last() =~= s.take(i as int));
            assert(s.take(i + 1).last() == s[i as int]);
            assert(s[i as int].1.wf());
        }
        list.insert(name, item);
        i = i + 1;
    }
    proof {
        assert(s.take(s.len() as int) =~= s);
    }
    ShoppingList { id, list }
}

/// A list's stored items, each with its own name and the state the list holds for
/// that name, in any order, rebuild the list's contents.
pub proof fn lemma_list_read_back(list: AWORMap, items: Seq<(String, Item)>)
    requires
        list.wf(),
        distinct_names(items),
        forall|k: Seq<char>| #[trigger] has_name(items, k) <==> list@.dom().contains(k),
        forall|i: int| 0 <= i < items.len() ==> (#[trigger] items[i]).1@ == list@[items[i].0@],
    ensures
        items_join(items) == list@,
{
    lemma_items_join_distinct(items);
    assert forall|k: Seq<char>| #[trigger] entries_map(items).dom().contains(k) implies entries_map(
        items,
    )[k] == list@[k] by {
        let x = choose|x: int| 0 <= x < items.len() && (#[trigger] items[x]).0@ == k;
        assert(items[x].1@ == list@[k]);
    }
    assert(entries_map(items) =~= list@);
}

/// Writing a list and reading it back gives the same contents: when every name of
/// the list is stored once under rows that describe its item (as `item_rows` makes
/// them), and each row is rebuilt into an item as `build_item` does, the rebuilt
/// items, added in any order, give the list's contents.
pub proof fn lemma_stored_list_read_back(
    list: AWORMap,
    rows: Seq<(StoredItemRow, Seq<(String, u64)>, Seq<(String, u64)>)>,
    items: Seq<(String, Item)>,
)
    requires
        list.wf(),
        rows.len() == items.len(),
        distinct_names(items),
        forall|k: Seq<char>| #[trigger] has_name(items, k) <==> list@.dom().contains(k),
        forall|i: int|
            0 <= i < rows.len() ==> (#[trigger] items[i]).0@ == rows[i].0.name@ && stored_view(
                rows[i].0,
                rows[i].1,
                rows[i].2,
            ) == Some(list@[rows[i].0.name@]) && Some(items[i].1@) == stored_view(
                rows[i].0,
                rows[i].1,
                rows[i].2,
            ),
    ensures
        items_join(items) == list@,
{
    assert forall|i: int| 0 <= i < items.len() implies (#[trigger] items[i]).1@ == list@[items[i].0@] by {
        assert(Some(items[i].1@) == Some(list@[rows[i].0.name@]));
    }
    lemma_list_read_back(list, items);
}

/// The ring position of the id `list_id`: the digest of its hyphenated text. A server
/// stores a list under the position of its id, and a node sits at the position of
/// its own id.
pub fn list_position(list_id: u128) -> (r: u128)
    ensures
        r == list_hash(list_id),
{
    let text = uuid_string(list_id);
    HashRing::hash(text.as_str())
}

/// Whether a stored list at position `id_hash` is one that the node at `node_hash`
/// takes over from its predecessor at `prev_hash`: the positions after the
/// predecessor up to the node (`prev_hash < id_hash <= node_hash`), round the end of
/// the ring when the predecessor is not below the node.
pub fn in_old_data_range(id_hash: u128, node_hash: u128, prev_hash: u128) -> (r: bool)
    ensures
        r == if prev_hash < node_hash {
            prev_hash < id_hash && id_hash <= node_hash
        } else {
            id_hash > prev_hash || id_hash <= node_hash
        },
{
    if prev_hash < node_hash {
        id_hash > prev_hash && id_hash <= node_hash
    } else {
        id_hash > prev_hash || id_hash <= node_hash
    }
}

/// Big-endian value of a sequence of bytes.
pub open spec fn be_value(bytes: Seq<u8>) -> nat
    decreases bytes.len(),
{
    if bytes.len() == 0 {
        0
    } else {
        be_value(bytes.drop_last()) * 256 + bytes.last() as nat
    }
}

/// `256` raised to `n`.
pub open spec fn pow256(n: nat) -> nat
    decreases n,
{
    if n == 0 {
        1
    } else {
        pow256((n - 1) as nat) * 256
    }
}

proof fn lemma_be_value_bound(bytes: Seq<u8>)
    ensures
        be_value(bytes) < pow256(bytes.len()),
    decreases bytes.len(),
{
    if bytes.len() > 0 {
        lemma_be_value_bound(bytes.drop_last());
    }
}

proof fn lemma_pow256_monotonic(a: nat, b: nat)
    requires
        a <= b,
    ensures
        pow256(a) <= pow256(b),
    decreases b - a,
{
    if a < b {
        lemma_pow256_monotonic(a, (b - 1) as nat);
    }
}

/// Reads a stored 16-byte position back as a number, most significant byte first.
pub fn position_from_bytes(bytes: &Vec<u8>) -> (r: u128)
    requires
        bytes.len() == 16,
    ensures
        r == be_value(bytes@),
{
    let mut r: u128 = 0;
    let mut i: usize = 0;
    proof {
        assert(bytes@.take(0) =~= Seq::<u8>::empty());
        assert(pow256(16) == 0x1_0000_0000_0000_0000_0000_0000_0000_0000nat) by {
            reveal_with_fuel(pow256, 17);
        }
    }
    while i < 16
        invariant
            i <= 16,
            bytes.len() == 16,
            r == be_value(bytes@.take(i as int)),
            pow256(16) == 0x1_0000_0000_0000_0000_0000_0000_0000_0000nat,
        decreases 16 - i,
    {
        proof {
            assert(bytes@.take(i + 1).drop_last() =~= bytes@.take(i as int));
            lemma_be_value_bound(bytes@.take(i + 1));
            lemma_pow256_monotonic((i + 1) as nat, 16);
        }
        r = r * 256 + bytes[i] as u128;
        i = i + 1;
    }
    proof {
        assert(bytes@.take(16) =~= bytes@);
    }
    r
}

} // verus!
