pub mod actor;
pub mod gcounter;
pub mod item;
pub mod lwwreg;
pub mod pncounter;

pub use actor::{Actor, Mergeable};
pub use gcounter::GCounter;
pub use item::{Item, ItemView};
pub use lwwreg::LWWReg;
pub use pncounter::PNCounter;
pub mod awormap;
pub use awormap::AWORMap;
pub mod shopping_list;
pub use shopping_list::ShoppingList;
