//! The engine's publish side of the event channel.
//!
//! The engine owns one multi-subscriber broadcast sender; every subscriber
//! consumes at its own pace and falls back to a fresh snapshot if it is told
//! it lagged. Delivery and its ordering are the channel's own guarantees; the
//! library proves what is published, over the engine's recorded history.

use vstd::prelude::*;
use crate::protocol::ServerMessage;
use tokio::sync::broadcast::{Receiver, Sender};

verus! {

#[verifier::external_type_specification]
#[verifier::external_body]
#[verifier::reject_recursive_types(T)]
pub struct ExSender<T>(Sender<T>);

#[verifier::external_type_specification]
#[verifier::external_body]
#[verifier::reject_recursive_types(T)]
pub struct ExReceiver<T>(Receiver<T>);

/// Makes the sending half of a broadcast channel that buffers up to
/// `capacity` messages per subscriber; the bootstrap receiver is dropped, so
/// only explicit subscribers listen.
///
/// Relies on tokio's `sync::broadcast::channel`, which panics only on a zero
/// capacity or one above half of `usize::MAX` (both kept out by `requires`)
/// or on allocation failure.
#[verifier::external_body]
pub(crate) fn channel_sender(capacity: usize) -> (r: Sender<ServerMessage>)
    requires
        1 <= capacity <= usize::MAX / 2,
{
    let (sender, _) = tokio::sync::broadcast::channel(capacity);
    sender
}

/// Publishes one message to every current subscriber, in send order; tells
/// the caller whether anyone was listening.
///
/// Relies on tokio's `broadcast::Sender::send`: it queues the value for each
/// live receiver and errs exactly when there is none, which the engine treats
/// as no news to deliver.
#[verifier::external_body]
pub(crate) fn broadcast_send(sender: &Sender<ServerMessage>, message: ServerMessage) -> (r: bool) {
    sender.send(message).is_ok()
}

/// Opens a new subscription that will see every message sent after this call,
/// in send order, or a lag notice if it falls more than the channel's
/// capacity behind.
///
/// Relies on tokio's `broadcast::Sender::subscribe`.
#[verifier::external_body]
pub(crate) fn broadcast_subscribe(sender: &Sender<ServerMessage>) -> (r: Receiver<ServerMessage>) {
    sender.subscribe()
}

} // verus!
