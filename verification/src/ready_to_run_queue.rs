//! The queue of the cells whose streams have been woken.
use std::collections::VecDeque;
use vstd::prelude::*;

verus! {

/// What a look at the queue finds.
pub(crate) enum Dequeue {
    /// The first cell of the queue, which has left it.
    Data(usize),
    /// The queue is empty.
    Empty,
    /// The queue is empty, but a cell is on its way into it.
    Inconsistent,
}

/// The queue of the cells whose streams are to be polled, first in, first out.
pub struct ReadyToRunQueue {
    pub(crate) queue: VecDeque<usize>,
}

impl ReadyToRunQueue {
    pub open(crate) spec fn view(&self) -> Seq<usize> {
        self.queue@
    }

    pub(crate) fn new() -> (queue: Self)
        ensures
            queue@ == Seq::<usize>::empty(),
    {
        ReadyToRunQueue { queue: VecDeque::new() }
    }

    /// Puts a cell at the end of the queue.
    pub(crate) fn enqueue(&mut self, cell: usize)
        ensures
            final(self)@ == old(self)@.push(cell),
    {
        self.queue.push_back(cell);
    }

    /// Takes the first cell out of the queue. `in_transit` says whether a wake-up is being
    /// delivered that has not reached the queue yet.
    pub(crate) fn dequeue(&mut self, in_transit: bool) -> (found: Dequeue)
        ensures
            match found {
                Dequeue::Data(cell) => {
                    &&& old(self)@.len() > 0
                    &&& cell == old(self)@[0]
                    &&& final(self)@ == old(self)@.drop_first()
                },
                Dequeue::Empty => {
                    &&& old(self)@.len() == 0
                    &&& !in_transit
                    &&& final(self)@ == old(self)@
                },
                Dequeue::Inconsistent => {
                    &&& old(self)@.len() == 0
                    &&& in_transit
                    &&& final(self)@ == old(self)@
                },
            },
    {
        match self.queue.pop_front() {
            Some(cell) => Dequeue::Data(cell),
            None => if in_transit {
                Dequeue::Inconsistent
            } else {
                Dequeue::Empty
            },
        }
    }
}

} // verus!
