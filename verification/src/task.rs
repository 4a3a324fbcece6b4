//! The cell that holds one stream.
use vstd::prelude::*;

verus! {

/// The next cell in the list of all streams.
pub enum Link {
    /// The cell is not in the list.
    Pending,
    /// The cell is the last one of the list.
    End,
    /// The cell is followed by this one.
    To(usize),
}

/// A cell. It holds a stream and its place in the list of all streams.
///
/// A cell outlives its stream for as long as it is in the ready to run queue.
pub struct Task<S> {
    // The stream
    pub(crate) stream: Option<S>,
    // Indicator that the stream has already completed.
    pub(crate) is_done: bool,
    // Next cell in the list of all streams
    pub(crate) next_all: Link,
    // Previous cell in the list of all streams
    pub(crate) prev_all: Option<usize>,
    // Length of the list of all streams when this cell became its head
    pub(crate) len_all: usize,
    // Whether further wake-ups of the stream are ignored
    pub(crate) queued: bool,
    // Whether the cell is in the ready to run queue
    pub(crate) enqueued: bool,
    // The token of the stream
    pub(crate) id: usize,
    // Tells the stream from others that had its token before
    pub(crate) serial: u64,
}

impl<S> Task<S> {
    /// The cell is not in the list of all streams.
    pub open(crate) spec fn is_detached(&self) -> bool {
        self.next_all is Pending && self.prev_all is None
    }

    /// The two cells differ at most in their places in the list of all streams.
    pub open(crate) spec fn same_core(&self, other: &Task<S>) -> bool {
        &&& self.stream == other.stream
        &&& self.is_done == other.is_done
        &&& self.queued == other.queued
        &&& self.enqueued == other.enqueued
        &&& self.id == other.id
        &&& self.serial == other.serial
    }

    /// A cell that is in no list and no queue, for the stream with token `id` and serial
    /// number `serial`. A new stream counts as woken.
    pub(crate) fn new(stream: Option<S>, id: usize, serial: u64) -> (task: Self)
        ensures
            task.stream == stream,
            task.is_detached(),
            !task.is_done,
            task.queued,
            !task.enqueued,
            task.id == id,
            task.serial == serial,
    {
        Task {
            stream,
            is_done: false,
            next_all: Link::Pending,
            prev_all: None,
            len_all: 0,
            queued: true,
            enqueued: false,
            id,
            serial,
        }
    }

    /// The cell that follows in the list of all streams.
    pub(crate) fn spin_next_all(&self) -> (next: Option<usize>)
        requires
            !(self.next_all is Pending),
        ensures
            next == (match self.next_all {
                Link::To(cell) => Some(cell),
                _ => None,
            }),
    {
        match self.next_all {
            Link::To(cell) => Some(cell),
            _ => None,
        }
    }
}

} // verus!
