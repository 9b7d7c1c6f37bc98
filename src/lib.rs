//! Coordination logic of a peer-to-peer stack: admission control through allow
//! and block lists, a rendezvous registration store, and the iterative query
//! engine of a Kademlia lookup.

pub mod peer;
pub mod allow_block_list;
pub mod rendezvous;
mod clock;
pub mod kad;
