use vstd::prelude::*;

verus! {

#[verifier::external_type_specification]
#[verifier::external_body]
#[verifier::reject_recursive_types(T)]
pub struct ExChannelSender<T>(async_channel::Sender<T>);

#[verifier::external_type_specification]
#[verifier::external_body]
#[verifier::reject_recursive_types(T)]
pub struct ExChannelReceiver<T>(async_channel::Receiver<T>);

/// Why a non-blocking delivery was refused; the message comes back with it.
#[derive(Debug)]
pub enum SendError<T> {
    /// The channel holds as many messages as its capacity allows.
    Full(T),
    /// Every receive handle of the channel is gone.
    Closed(T),
}

impl<T> SendError<T> {
    /// The message that was not delivered.
    pub open spec fn message(self) -> T {
        match self {
            SendError::Full(m) => m,
            SendError::Closed(m) => m,
        }
    }

    pub fn into_inner(self) -> (r: T)
        ensures
            r == self.message(),
    {
        match self {
            SendError::Full(m) => m,
            SendError::Closed(m) => m,
        }
    }
}

/// Why a non-blocking receive returned nothing.
#[derive(Debug, Clone, Copy, PartialEq, Eq, Structural)]
pub enum RecvError {
    /// Nothing is queued.
    Empty,
    /// Nothing is queued and every send handle is gone.
    Closed,
}

/// Relies on `async_channel::bounded`: a fresh channel that queues at most `cap`
/// messages; it panics when `cap` is zero.
#[verifier::external_body]
pub(crate) fn bounded<T>(cap: usize) -> (async_channel::Sender<T>, async_channel::Receiver<T>)
    requires
        cap > 0,
{
    async_channel::bounded(cap)
}

/// Relies on `async_channel::Sender::try_send`: it never waits, and a message that
/// is refused because the channel is full or closed comes back inside the error.
#[verifier::external_body]
pub(crate) fn try_send<T>(tx: &async_channel::Sender<T>, msg: T) -> (r: Result<(), SendError<T>>)
    ensures
        r is Err ==> r->Err_0.message() == msg,
{
    match tx.try_send(msg) {
        Ok(()) => Ok(()),
        Err(async_channel::TrySendError::Full(m)) => Err(SendError::Full(m)),
        Err(async_channel::TrySendError::Closed(m)) => Err(SendError::Closed(m)),
    }
}

/// Relies on `async_channel::Receiver::try_recv`: it never waits; what it returns
/// depends on what other handles have sent and taken.
#[verifier::external_body]
pub(crate) fn try_recv<T>(rx: &async_channel::Receiver<T>) -> Result<T, RecvError> {
    match rx.try_recv() {
        Ok(m) => Ok(m),
        Err(async_channel::TryRecvError::Empty) => Err(RecvError::Empty),
        Err(async_channel::TryRecvError::Closed) => Err(RecvError::Closed),
    }
}

/// Relies on `Clone` of `async_channel::Receiver`: one more receive handle on the
/// same channel, taking messages from the same queue.
#[verifier::external_body]
pub(crate) fn share_receiver<T>(rx: &async_channel::Receiver<T>) -> async_channel::Receiver<T> {
    rx.clone()
}

} // verus!
