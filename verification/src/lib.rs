pub mod cli;
pub mod client;
pub mod crdt;
pub mod hash_ring;
pub mod in_flight;
pub mod ids;
pub mod message;
pub mod proxy;
pub mod server;
pub mod sorted_map;
pub mod storage;
