//! The values that a set of streams and the caller that polls the streams exchange.
use vstd::prelude::*;

use crate::yielded::StreamYield;

verus! {

/// How often one call of `poll_next` may poll underlying streams without yielding.
///
/// A single call of `poll_next` may potentially do a lot of work before yielding. This happens in
/// particular if the underlying streams are awoken frequently but continue to be pending. This is
/// problematic if other tasks are waiting on the executor, since they do not get to run.
///
/// The value itself is chosen somewhat arbitrarily. It needs to be high enough to amortize wake-up
/// and scheduling costs, but low enough not to starve other tasks for long.
pub const YIELD_EVERY: usize = 32;

/// Whether a value is available yet.
pub enum Readiness<T> {
    /// The value is available.
    Ready(T),
    /// The value is not available yet.
    Pending,
}

/// What happened since the last step of `poll_next`.
pub enum Event<I> {
    /// `poll_next` was called.
    Called,
    /// The stream that the last step asked for was polled, with this outcome.
    Polled(Readiness<Option<I>>),
}

/// Stands for one stream of a set in wake-ups.
///
/// A token is used again once its stream has left the set. The serial number tells the streams that
/// had the same token apart, so that a late wake-up of a stream that is gone does not reach another
/// one.
#[derive(Clone, Copy, Debug, PartialEq, Eq)]
pub struct WakeKey {
    /// The token of the stream.
    pub token: usize,
    /// Its serial number.
    pub serial: u64,
}

/// The wake-up that is due when `poll_next` returns.
pub enum WakeUp {
    /// None.
    Nothing,
    /// The waker of the context that `poll_next` was called with.
    Caller,
    /// The waker that is registered for the whole set.
    Registered,
}

/// What is to be done next in a call of `poll_next`.
pub enum Step<I> {
    /// Poll the stream with this token, and take the next step with the outcome.
    Poll(usize),
    /// Send the wake-up, then return the result.
    Return(WakeUp, Readiness<Option<(StreamYield<I>, usize)>>),
}

} // verus!
