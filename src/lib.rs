//! A single-threaded key/value server core: the length-prefixed wire format,
//! the store and its dispatcher, the per-connection state machine, and the
//! readiness table that routes ready descriptors to connections.
use vstd::prelude::*;

pub mod connection;
pub mod pollq;
pub mod store;
pub mod taskpollq;
pub mod wire;
