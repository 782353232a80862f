//! A node core for a Kademlia-style distributed hash table: a routing table
//! with closest-node selection, a bencoded KRPC message codec, a CRC32C-based
//! node-identifier derivation bound to the externally observed address, and a
//! transaction engine that correlates responses over a lossy transport.

pub mod codec;
pub mod dht;
pub mod krpc;
pub mod model;
pub mod secure;
