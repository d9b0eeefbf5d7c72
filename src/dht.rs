//! Kademlia distributed hash table: the XOR metric, the routing table of
//! distance buckets, and the local value store.

pub mod kademlia;
pub mod metric;
