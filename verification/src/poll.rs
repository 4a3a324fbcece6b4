//! Waking and polling the streams of a set.
//!
//! A call of `poll_next` alternates between deciding what to poll and polling it. The decisions are
//! [`StreamUnordered::poll_next`]; the caller polls the streams that it asks for, and hands back
//! what they returned.
use vstd::prelude::*;

use crate::laws::effects::{law_first_come_first_served, law_result, law_wake_effect};
use crate::model::SetView;
use crate::ready_to_run_queue::Dequeue;
use crate::rep::{lemma_released, lemma_same_links, lemma_stream_count, lemma_valid, live};
use crate::rep_poll::{lemma_dispatched, lemma_put_back, lemma_skipped, lemma_woken};
use crate::set::StreamUnordered;
use crate::step::{Event, Readiness, Step, WakeKey, WakeUp, YIELD_EVERY};
use crate::task::Task;
use crate::yielded::{FinishedStream, StreamYield};

verus! {

impl<S> StreamUnordered<S> {
    /// Marks the stream in `cell` as woken, and puts it into the ready to run queue unless it
    /// counts as woken already. The result says whether it did.
    fn wake_by_ref(&mut self, cell: usize) -> (woken: bool)
        requires
            old(self).rep(),
            live(old(self).tasks@, cell),
        ensures
            final(self).rep(),
            final(self)@ == old(self)@.woken(old(self).tasks@[cell as int].id),
            woken == old(self)@.wakes(old(self).tasks@[cell as int].id),
            final(self).polling == old(self).polling,
            final(self).polled == old(self).polled,
            final(self).tasks@.len() == old(self).tasks@.len(),
            final(self).tasks@[cell as int].id == old(self).tasks@[cell as int].id,
    {
        let prev = self.tasks[cell].queued;
        if !prev {
            self.tasks[cell].queued = true;
            self.enqueue(cell);
            proof {
                assert(self.tasks@ =~= old(self).tasks@.update(
                    cell as int,
                    Task { queued: true, enqueued: true, ..old(self).tasks@[cell as int] },
                ));
                lemma_same_links(old(self).tasks@, self.tasks@, self.all@, self.head_all);
                lemma_woken(*old(self), *self, cell);
            }
        }
        !prev
    }

    /// Returns the key that stands for the stream with token `token` in wake-ups.
    pub fn waker_ref(&self, token: usize) -> (key: Option<WakeKey>)
        requires
            self.inv(),
        ensures
            key == (if self@.streams.contains_key(token) {
                Some(WakeKey { token, serial: self@.streams[token].serial })
            } else {
                None
            }),
    {
        match self.cell_of(token) {
            Some(cell) => Some(WakeKey { token, serial: self.tasks[cell].serial }),
            None => None,
        }
    }

    /// Wakes the stream that `key` stands for: a later call of `poll_next` will poll it.
    ///
    /// The result says whether the task that polls the set is to be notified, which is so if the
    /// stream has been put into the queue. A wake-up of a stream that has been woken before and not
    /// been polled since, or that has left the set, changes nothing.
    pub fn wake(&mut self, key: WakeKey) -> (notify: bool)
        requires
            old(self).inv(),
        ensures
            final(self).inv(),
            final(self)@ == (if old(self)@.current(key) {
                old(self)@.woken(key.token)
            } else {
                old(self)@
            }),
            notify == (old(self)@.current(key) && old(self)@.wakes(key.token)),
            notify == (old(self)@.streams.contains_key(key.token)
                && old(self)@.streams[key.token].serial == key.serial
                && !old(self)@.streams[key.token].queued),
            notify <==> final(self)@.ready == old(self)@.ready.push(Some(key.token)),
            notify ==> final(self)@.streams[key.token].queued,
            !notify <==> final(self)@ == old(self)@,
    {
        proof {
            law_wake_effect(self@, key);
        }
        match self.cell_of(key.token) {
            Some(cell) => if self.tasks[cell].serial == key.serial {
                self.wake_by_ref(cell)
            } else {
                false
            },
            None => false,
        }
    }

    /// Puts the stream that was polled back into the list of all streams. `done` says whether it
    /// has yielded all the items it ever will.
    fn put_back(&mut self, cell: usize, done: bool)
        requires
            old(self).rep(),
            old(self).polling == Some(cell),
            old(self).polled < YIELD_EVERY,
        ensures
            final(self).rep(),
            final(self).polling is None,
            final(self).polled == old(self).polled + 1,
            final(self)@ == (if done {
                old(self)@.finished(old(self).tasks@[cell as int].id)
            } else {
                old(self)@
            }).put_back(old(self).tasks@[cell as int].id),
    {
        proof {
            assert(live(old(self).tasks@, cell));
        }
        if done {
            self.tasks[cell].is_done = true;
        }
        proof {
            lemma_same_links(old(self).tasks@, self.tasks@, self.all@, self.head_all);
        }
        self.link(cell);
        self.polling = None;
        self.polled = self.polled + 1;
        proof {
            lemma_put_back(*old(self), *self, cell);
        }
    }

    /// Takes the first stream that can be polled out of the queue. If there is none, `poll_next`
    /// returns.
    fn next_step<I>(&mut self, in_transit: bool) -> (step: Step<I>)
        requires
            old(self).rep(),
            old(self).polling is None,
            old(self).polled < YIELD_EVERY,
        ensures
            final(self).inv(),
            (final(self)@, step) == old(self)@.next_step::<I>(in_transit),
    {
        let ghost start = self@;
        let ghost mut n: nat = 0;
        proof {
            assert(start.skipped(0) =~= start);
        }
        loop
            invariant
                self.rep(),
                self.polling is None,
                self.polled < YIELD_EVERY,
                n <= start.ready.len(),
                self@ == start.skipped(n),
                start.first_pollable(0) == start.first_pollable(n),
                start == old(self)@,
            decreases self.ready_to_run_queue@.len(),
        {
            let ghost before = *self;
            match self.ready_to_run_queue.dequeue(in_transit) {
                Dequeue::Empty => {
                    self.polled = 0;
                    proof {
                        lemma_stream_count(*self);
                    }
                    if self.is_empty() {
                        // The end is only reached once it has been announced.
                        self.is_terminated = true;
                        assert(self@ =~= SetView { terminated: true, ..start.skipped(n).rested() });
                        return Step::Return(WakeUp::Nothing, Readiness::Ready(None));
                    } else {
                        assert(self@ =~= start.skipped(n).rested());
                        return Step::Return(WakeUp::Nothing, Readiness::Pending);
                    }
                },
                Dequeue::Inconsistent => {
                    self.polled = 0;
                    assert(self@ =~= start.skipped(n).rested());
                    return Step::Return(WakeUp::Caller, Readiness::Pending);
                },
                Dequeue::Data(cell) => {
                    self.tasks[cell].enqueued = false;
                    if self.tasks[cell].stream.is_none() {
                        // The stream was removed while its cell was in the queue, and the cell can
                        // be used again from now on.
                        self.vacant.push(cell);
                    } else if !self.tasks[cell].is_done {
                        let token = self.tasks[cell].id;
                        proof {
                            lemma_same_links(before.tasks@, self.tasks@, self.all@, self.head_all);
                            assert(live(before.tasks@, cell));
                        }
                        self.unlink(cell);
                        let ghost unlinked = self.tasks@;
                        // Unset the queued flag: this must be done before polling, so that the
                        // stream gets rescheduled if it is woken during the poll.
                        self.tasks[cell].queued = false;
                        self.polling = Some(cell);
                        proof {
                            lemma_same_links(unlinked, self.tasks@, self.all@, self.head_all);
                            lemma_dispatched(before, *self, cell);
                            assert(start.ready[n as int] == before@.ready[0]);
                        }
                        return Step::Poll(token);
                    }
                    proof {
                        lemma_same_links(before.tasks@, self.tasks@, self.all@, self.head_all);
                        lemma_skipped(before, *self, cell);
                        assert(start.ready[n as int] == before@.ready[0]);
                        assert(start.skipped(n).skipped(1) =~= start.skipped(n + 1));
                        n = n + 1;
                    }
                },
            }
        }
    }

    /// Takes one step of a call of `poll_next`.
    ///
    /// The call starts with the event that it was made, and goes on with the outcome of each poll
    /// that a step asks for, until a step says what it returns. `in_transit` says whether a wake-up
    /// is being delivered that [`StreamUnordered::wake`] has not been called for yet.
    pub fn poll_next<I>(&mut self, event: Event<I>, in_transit: bool) -> (step: Step<I>)
        requires
            old(self).inv(),
            event is Polled <==> old(self)@.polling is Some,
        ensures
            final(self).inv(),
            (final(self)@, step) == old(self)@.step(event, in_transit),
            step is Return ==> final(self).wf(),
            step matches Step::Return(_, Readiness::Ready(None)) ==> {
                &&& final(self)@.streams.dom().len() == 0
                &&& final(self)@.terminated
            },
            step matches Step::Poll(token) ==> {
                &&& old(self)@.streams.contains_key(token)
                &&& old(self)@.streams[token].queued
                &&& !old(self)@.streams[token].finished
            },
    {
        proof {
            lemma_valid(*self);
            law_result(self@, event, in_transit);
            law_first_come_first_served(self@, event, in_transit);
        }
        let outcome = match event {
            Event::Called => {
                return self.next_step(in_transit);
            },
            Event::Polled(outcome) => outcome,
        };
        let cell = match self.polling {
            Some(cell) => cell,
            None => {
                return self.next_step(in_transit);
            },
        };
        let token = self.tasks[cell].id;
        match outcome {
            Readiness::Pending => {
                self.put_back(cell, false);
                if self.polled == YIELD_EVERY {
                    // Many streams have been polled in a row without yielding. The call returns so
                    // as not to starve other tasks, but is to be made again at once.
                    self.polled = 0;
                    Step::Return(WakeUp::Caller, Readiness::Pending)
                } else {
                    self.next_step(in_transit)
                }
            },
            Readiness::Ready(None) => {
                // The stream has completed. It stays in the set: whether to keep it for a bit
                // longer is for the user to decide.
                self.put_back(cell, true);
                self.polled = 0;
                Step::Return(
                    WakeUp::Nothing,
                    Readiness::Ready(
                        Some((StreamYield::Finished(FinishedStream { token }), token)),
                    ),
                )
            },
            Readiness::Ready(Some(item)) => {
                // The stream has yielded something, and needs to be polled again.
                let notify = self.wake_by_ref(cell);
                self.put_back(cell, false);
                self.polled = 0;
                let wake_up = if notify {
                    WakeUp::Registered
                } else {
                    WakeUp::Nothing
                };
                Step::Return(wake_up, Readiness::Ready(Some((StreamYield::Item(item), token))))
            },
        }
    }

    /// Drops the stream that is being polled, and ends the running call of `poll_next`.
    ///
    /// This is for a poll that did not return: what is left of the stream is dropped, and the other
    /// streams stay in the set.
    pub fn abandon(&mut self)
        requires
            old(self).inv(),
        ensures
            final(self).wf(),
            final(self)@ == old(self)@.abandoned(),
    {
        if let Some(cell) = self.polling {
            proof {
                assert(live(self.tasks@, cell));
                assert(self.tasks@[cell as int].is_detached());
            }
            self.release_task(cell);
            self.polling = None;
            self.polled = 0;
            proof {
                lemma_same_links(old(self).tasks@, self.tasks@, self.all@, self.head_all);
                lemma_released(*old(self), *self, cell);
            }
        }
    }
}

} // verus!
