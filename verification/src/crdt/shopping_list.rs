//! A shopping list: an identifier and its replicated contents.
use vstd::prelude::*;
use crate::crdt::awormap::AWORMap;

verus! {

/// A shopping list, identified by the 128-bit value of its UUID.
pub struct ShoppingList {
    pub id: u128,
    pub list: AWORMap,
}

impl Clone for ShoppingList {
    fn clone(&self) -> (r: Self)
        ensures
            r.id == self.id,
            self.list.wf() ==> r.list.wf() && r.list@ == self.list@ && r.list.owners()
                == self.list.owners(),
            r.list.names() == self.list.names(),
    {
        ShoppingList { id: self.id, list: self.list.clone() }
    }
}

} // verus!
