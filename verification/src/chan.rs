//! Trusted declarations for the outbound delivery channel and for the random
//! identifier sources.  Each connection's transport task owns the receiving
//! half of a tokio unbounded channel; the session actor only holds the send
//! capability and never blocks on it.

use vstd::prelude::*;

verus! {

#[verifier::external_type_specification]
#[verifier::external_body]
#[verifier::reject_recursive_types(T)]
pub struct ExUnboundedSender<T>(tokio::sync::mpsc::UnboundedSender<T>);

/// Relies on tokio's `UnboundedSender::send`: it never blocks, and it returns
/// `Ok` unless the receiving half of the channel has been dropped or closed.
/// Whether the receiver is still alive is outside state, so nothing is
/// promised of the outcome; callers must handle both.
#[verifier::external_body]
pub(crate) fn send_payload(tx: &tokio::sync::mpsc::UnboundedSender<String>, payload: String) -> (r: bool)
{
    tx.send(payload).is_ok()
}

/// Relies on `rand::random`: a fresh random value; nothing is promised of it.
#[verifier::external_body]
pub(crate) fn random_u64() -> u64 {
    rand::random::<u64>()
}

/// Relies on `uuid::Uuid::new_v4` and its hyphenated rendering: a fresh
/// random token; nothing is promised of it.
#[verifier::external_body]
pub(crate) fn random_token() -> String {
    uuid::Uuid::new_v4().to_string()
}

} // verus!
