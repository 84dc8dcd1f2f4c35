//! Messages exchanged between clients, the proxy and server peers.
use vstd::prelude::*;
use crate::crdt::ShoppingList;
use crate::server::MembershipTable;

verus! {

/// Requests of the client protocol.
pub enum Request {
    CreateList { name: String },
    AddItem { list_id: u128, item_name: String, amount: i64 },
    RemoveItem { list_id: u128, item_name: String },
    GetList { list_id: u128 },
    SyncState { list_id: u128, state: Vec<u8> },
}

/// Responses of the client protocol.
pub enum Response {
    Success { list_id: u128 },
    ListState { items: Vec<String> },
    Error { message: String },
}

/// Messages between peers, and between the proxy and peers.
#[allow(inconsistent_fields)]
pub enum Msg {
    Hello { uuid: u128, addr: String },
    Gossip { table: MembershipTable },
    Ping,
    Ack { request_id: String },
    Nack { request_id: String },
    AckList { request_id: String, list: ShoppingList },
    GetList { list: ShoppingList },
    PutList { list: ShoppingList },
    ReplicateList { id: String, list: ShoppingList, write: bool },
    MergeList { list: ShoppingList },
    ListResponse { list: Option<ShoppingList> },
    Handoff { request_id: String, list: ShoppingList, original_node: u128 },
    Leave,
}

/// The name under which a message is logged.
pub open spec fn msg_name(m: Msg) -> Seq<char> {
    match m {
        Msg::Hello { .. } => "HELLO"@,
        Msg::Gossip { .. } => "GOSSIP"@,
        Msg::Ack { .. } => "ACK"@,
        Msg::Nack { .. } => "NACK"@,
        Msg::GetList { .. } => "GET_LIST"@,
        Msg::PutList { .. } => "PUT_LIST"@,
        Msg::MergeList { .. } => "MERGE_LIST"@,
        Msg::ListResponse { .. } => "LIST_RESPONSE"@,
        Msg::ReplicateList { .. } => "REPLICATE"@,
        Msg::AckList { .. } => "AckList"@,
        Msg::Handoff { .. } => "HANDOFF"@,
        Msg::Ping => "PING"@,
        Msg::Leave => "LEAVE"@,
    }
}

impl Msg {
    pub fn name(&self) -> (r: &'static str)
        ensures
            r@ == msg_name(*self),
    {
        match self {
            Msg::Hello { .. } => "HELLO",
            Msg::Gossip { .. } => "GOSSIP",
            Msg::Ack { .. } => "ACK",
            Msg::Nack { .. } => "NACK",
            Msg::GetList { .. } => "GET_LIST",
            Msg::PutList { .. } => "PUT_LIST",
            Msg::MergeList { .. } => "MERGE_LIST",
            Msg::ListResponse { .. } => "LIST_RESPONSE",
            Msg::ReplicateList { .. } => "REPLICATE",
            Msg::AckList { .. } => "AckList",
            Msg::Handoff { .. } => "HANDOFF",
            Msg::Ping => "PING",
            Msg::Leave => "LEAVE",
        }
    }
}

} // verus!
