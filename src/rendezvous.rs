//! Rendezvous: peers register under namespaces and are discovered by others.

pub mod codec;
pub mod server;
