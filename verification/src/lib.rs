//! Connectivity core of a peer-to-peer overlay: a peer directory with
//! XOR-distance queries, peer pools grouped by role, selection logic, and the
//! decision logic of the connectivity manager actor.

pub mod config;
pub mod error;
pub mod manager;
pub mod node_id;
pub mod peer;
pub mod peer_manager;
pub mod peer_pool;
pub mod peer_pools;
pub mod peer_query;
pub mod peer_selection;
pub mod random;
pub mod requester;
