//! The two points where the library touches outside crates: the bounded
//! outbound queues it enqueues server messages on, and the minting of
//! connection identifiers.

use vstd::prelude::*;
use crate::messages::ServerMessage;

verus! {

/// Declares tokio's bounded channel sender, the outbound sink type,
/// so that the world state can hold one per connection; its value is
/// opaque here.
#[verifier::external_type_specification]
#[verifier::external_body]
#[verifier::reject_recursive_types(T)]
pub struct ExSender<T>(tokio::sync::mpsc::Sender<T>);

/// Relies on tokio::sync::mpsc::Sender::try_send: enqueues the message
/// when the queue has capacity and its receiver is open, and otherwise
/// drops it; whether it succeeds depends on the queue's current fill,
/// so nothing is promised of the result.
#[verifier::external_body]
pub(crate) fn sink_try_send(
    sink: &tokio::sync::mpsc::Sender<ServerMessage>,
    msg: ServerMessage,
) -> bool {
    sink.try_send(msg).is_ok()
}

/// Relies on std's String::push: appends the one character to the end
/// of the string.
#[verifier::external_body]
pub(crate) fn push_char(s: &mut String, c: char)
    ensures
        final(s)@ == old(s)@.push(c),
{
    s.push(c);
}

/// Relies on uuid::Uuid::new_v4 and its display form: a freshly drawn
/// random identifier rendered as the 36-character hyphenated text. The
/// draw is random, so nothing but the length is promised.
#[verifier::external_body]
pub(crate) fn mint_conn_id() -> (r: String)
    ensures
        r@.len() == 36,
{
    uuid::Uuid::new_v4().to_string()
}

} // verus!
