//! A set of streams that are polled together.
//!
//! This "combinator" provides the ability to maintain and drive a set of streams to completion,
//! while also providing access to each stream as it yields new elements.
//!
//! Streams are inserted into this set and their realized values are yielded as they are produced.
//! Streams managed by [`StreamUnordered`] will only be polled when they generate notifications.
//! This reduces the required amount of work needed to coordinate large numbers of streams.
//!
//! The set decides; it does not poll. A call of [`StreamUnordered::poll_next`] is one step: it says
//! which stream is to be polled next, and is told what the stream returned, until it says what the
//! poll of the whole set comes to. A wake-up of a stream is a call of [`StreamUnordered::wake`].
//!
//! When a `StreamUnordered` is first created, it does not contain any streams, and polling it says
//! that it is exhausted. Streams are submitted to the set using [`StreamUnordered::insert`];
//! however, the stream will **not** be polled at this point. A set that said it is exhausted can be
//! given more streams at a later time.
//!
//! Whenever a value is yielded, the yielding stream's token is also included. A reference to the
//! stream that originated the value is obtained by using [`StreamUnordered::get`] or
//! [`StreamUnordered::get_mut`].
//!
//! In normal operation, a poll yields a [`StreamYield::Item`]: the stream with the included token
//! produced an item. If an underlying stream has terminated, a [`StreamYield::Finished`] is yielded
//! instead. The stream stays in the set until it is removed, and its token may be reused for new
//! streams from then on.
//!
//! What a set is, and what each operation makes of it, is [`model::SetView`]. What holds of the
//! set over many operations is stated in [`laws`].
mod entry;
pub mod history;
pub mod iter;
pub mod laws;
pub mod model;
mod poll;
mod ready_to_run_queue;
mod rep;
mod rep_poll;
mod set;
pub mod slots;
mod step;
mod task;
mod yielded;

pub use entry::StreamEntry;
pub use iter::{IterMut, IterMutWithToken, IterPinMut, IterPinMutWithToken, IterWithToken};
pub use set::StreamUnordered;
pub use slots::MAX_STREAMS;
pub use step::{Event, Readiness, Step, WakeKey, WakeUp, YIELD_EVERY};
pub use yielded::{FinishedStream, StreamYield};
