//! Overlay network layer for peer-to-peer applications: node identities, the
//! message envelope, per-peer state, a Kademlia routing table with its value
//! store, and the decisions of the node orchestrator.

pub mod bytes;
pub mod types;
pub mod clock;
pub mod random;
pub mod error;
pub mod network;
pub mod table;
pub mod dht;
pub mod storage;
