//! Session and message-relay core of a real-time client-tracking service.
//!
//! Clients open long-lived connections, authenticate against a persisted key
//! store, and receive asynchronously produced payloads addressed to their
//! authentication key.  All mutable routing state is owned by a single-writer
//! actor; the state and every transition on it live here, verified.  The
//! asynchronous plumbing around the state (command channels, run loops, the
//! HTTP layer) is ordinary Rust outside this crate's verified core.

pub mod chan;
pub mod idmap;
pub mod session;
pub mod strmap;
pub mod tokens;

use vstd::prelude::*;

verus! {

/// A connection identifier: unique per live connection.
pub type ConnId = u64;

} // verus!
