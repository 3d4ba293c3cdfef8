//! A multiplexing proxy core: length-prefixed message framing, a session
//! router that shares one backend between many clients, and a registry that
//! keeps at most one backend per identity.
use vstd::prelude::*;

pub mod connection;
pub mod framing;
pub mod handshake;
pub mod message;
pub mod registry;
pub mod route;
pub mod seq_facts;
pub mod session;

verus! {

} // verus!
