//! A Kademlia-style distributed key-value store core.
//!
//! The library holds the protocol engine of a peer-to-peer overlay:
//! node identity and XOR distance, the bucketed routing table with its
//! eviction policy, the wire codec for the UDP RPC envelope, the local
//! value store, and the decision logic of the iterative lookup.  All
//! network and timer work stays outside: callers perform the sends and
//! hand the results back as plain values.
pub mod codec;
pub mod contact;
pub mod discovery;
pub mod id;
pub mod keyhash;
pub mod lookup;
pub mod protocol;
pub mod random;
pub mod requests;
pub mod store;
pub mod table;
pub mod text;
