//! The queue between the coordinator and the workers: a channel of `async_channel`.
//! Its state is shared with other threads, so nothing is claimed about it beyond
//! what one call hands back.

use vstd::prelude::*;
use async_channel::{Receiver, Sender, TryRecvError, TrySendError};

verus! {

/// `async_channel::Sender`: the sending end of a channel. Nothing is known of what
/// it holds.
#[verifier::external_type_specification]
#[verifier::external_body]
#[verifier::reject_recursive_types(T)]
pub struct ExSender<T>(Sender<T>);

/// `async_channel::Receiver`: the receiving end of a channel. Nothing is known of
/// what it holds.
#[verifier::external_type_specification]
#[verifier::external_body]
#[verifier::reject_recursive_types(T)]
pub struct ExReceiver<T>(Receiver<T>);

/// How an attempt to enqueue a message ended.
pub enum Enqueued<T> {
    /// The queue took the message.
    Taken,
    /// The queue holds as many messages as it may; here is the message again.
    Full(T),
    /// The queue is closed; here is the message again.
    Closed(T),
}

/// How an attempt to dequeue a message ended.
pub enum Dequeued<T> {
    Message(T),
    /// The queue holds nothing at this moment.
    Empty,
    /// The queue is closed and holds nothing.
    Closed,
}

/// `async_channel::bounded`: a channel that holds at most `cap` messages. It panics
/// on a capacity of zero.
#[verifier::external_body]
pub(crate) fn bounded<T>(cap: usize) -> (ends: (Sender<T>, Receiver<T>))
    requires
        cap > 0,
{
    async_channel::bounded(cap)
}

/// `async_channel::unbounded`: a channel without a limit.
#[verifier::external_body]
pub(crate) fn unbounded<T>() -> (ends: (Sender<T>, Receiver<T>)) {
    async_channel::unbounded()
}

/// `Sender::try_send`: enqueues without waiting. A message that is not taken comes
/// back unchanged.
#[verifier::external_body]
pub(crate) fn try_send<T>(sender: &Sender<T>, message: T) -> (r: Enqueued<T>)
    ensures
        r matches Enqueued::Full(m) ==> m == message,
        r matches Enqueued::Closed(m) ==> m == message,
{
    match sender.try_send(message) {
        Ok(()) => Enqueued::Taken,
        Err(TrySendError::Full(m)) => Enqueued::Full(m),
        Err(TrySendError::Closed(m)) => Enqueued::Closed(m),
    }
}

/// `Receiver::try_recv`: dequeues without waiting.
#[verifier::external_body]
pub(crate) fn try_recv<T>(receiver: &Receiver<T>) -> (r: Dequeued<T>) {
    match receiver.try_recv() {
        Ok(m) => Dequeued::Message(m),
        Err(TryRecvError::Empty) => Dequeued::Empty,
        Err(TryRecvError::Closed) => Dequeued::Closed,
    }
}

} // verus!
