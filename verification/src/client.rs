//! What a client shows of a list, and how it combines local and remote copies.
use vstd::prelude::*;
use crate::crdt::awormap::{awor_join, names_after};
use crate::crdt::gcounter::map_total;
use crate::crdt::{Mergeable, ShoppingList};

verus! {

/// A list as the client shows it: each item's name, quantity and acquired flag.
pub struct ShoppingListInterface {
    pub list_id: u128,
    pub items: Vec<(String, (u64, bool))>,
}

/// An item as the client edits it.
pub struct ItemInterface {
    pub name: String,
    pub amount: u64,
    pub acquired: bool,
}

impl Clone for ItemInterface {
    fn clone(&self) -> (r: Self)
        ensures
            r == *self,
    {
        ItemInterface { name: self.name.clone(), amount: self.amount, acquired: self.acquired }
    }
}

impl ShoppingListInterface {
    /// Shows every item of the list, in the list's name order: its total quantity
    /// (as the unsigned value of the signed total) and whether its flag is non-zero.
    pub fn from_crdt(sl: &ShoppingList) -> (r: Self)
        requires
            sl.list.wf(),
            forall|k: Seq<char>|
                #[trigger] sl.list@.dom().contains(k) ==> map_total(sl.list@[k].increments)
                    <= i64::MAX && map_total(sl.list@[k].decrements) <= i64::MAX,
        ensures
            r.list_id == sl.id,
            r.items.len() == sl.list.name_count(),
            forall|i: int|
                0 <= i < r.items.len() ==> {
                    let k = sl.list.name_at(i);
                    let it = sl.list@[k];
                    &&& (#[trigger] r.items@[i]).0@ == k
                    &&& r.items@[i].1.0 == (map_total(it.increments) - map_total(
                        it.decrements,
                    )) as i64 as u64
                    &&& r.items@[i].1.1 == (it.acquired.val != 0)
                },
    {
        let keys = sl.list.keys();
        let values = sl.list.values();
        proof {
            sl.list.lemma_names();
        }
        let mut items: Vec<(String, (u64, bool))> = Vec::new();
        let mut i: usize = 0;
        while i < keys.len()
            invariant
                keys.len() == sl.list.name_count(),
                values.len() == sl.list.name_count(),
                forall|x: int| 0 <= x < keys.len() ==> (#[trigger] keys@[x])@ == sl.list.name_at(x),
                forall|x: int|
                    0 <= x < values.len() ==> (#[trigger] values@[x])@ == sl.list@[sl.list.name_at(x)]
                        && values@[x].wf(),
                forall|x: int|
                    0 <= x < sl.list.name_count() ==> sl.list@.dom().contains(
                        #[trigger] sl.list.name_at(x),
                    ),
                forall|k: Seq<char>|
                    #[trigger] sl.list@.dom().contains(k) ==> map_total(sl.list@[k].increments)
                        <= i64::MAX && map_total(sl.list@[k].decrements) <= i64::MAX,
                i <= keys.len(),
                items.len() == i,
                forall|x: int|
                    0 <= x < i ==> {
                        let k = sl.list.name_at(x);
                        let it = sl.list@[k];
                        &&& (#[trigger] items@[x]).0@ == k
                        &&& items@[x].1.0 == (map_total(it.increments) - map_total(
                            it.decrements,
                        )) as i64 as u64
                        &&& items@[x].1.1 == (it.acquired.val != 0)
                    },
            decreases keys.len() - i,
        {
            let name = keys[i].clone();
            proof {
                assert(sl.list@.dom().contains(sl.list.name_at(i as int)));
            }
            let amount = values[i].amount.value_total() as u64;
            let acquired: bool = values[i].acquired.val != 0;
            items.push((name, (amount, acquired)));
            i = i + 1;
        }
        ShoppingListInterface { list_id: sl.id, items }
    }
}

/// The local copy of a list merged with the copy the server returned, if any.
pub fn merge_remote(local: ShoppingList, remote: &Option<ShoppingList>) -> (r: ShoppingList)
    requires
        local.list.wf(),
        remote matches Some(l) ==> l.list.wf(),
    ensures
        r.id == local.id,
        r.list.wf(),
        r.list@ == match remote {
            Some(l) => awor_join(local.list@, l.list@),
            None => local.list@,
        },
        r.list.names() == match remote {
            Some(l) => names_after(local.list.names(), l.list.names()),
            None => local.list.names(),
        },
        r.list.owners() == match remote {
            Some(l) => l.list.owners().union_prefer_right(local.list.owners()),
            None => local.list.owners(),
        },
{
    let mut merged = local;
    match remote {
        Some(l) => {
            merged.list.merge(&l.list);
        },
        None => {},
    }
    merged
}

} // verus!
