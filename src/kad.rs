//! The iterative query engine of a Kademlia lookup: peer iterators and the query pool.

pub mod key;
pub mod closest;
pub mod fixed;
pub mod disjoint;
pub mod query;
