//! The set of streams.
use slab::Slab;
use vstd::prelude::*;

use crate::model::{lemma_clearing_ends, lemma_clearing_step, SetView};
use crate::ready_to_run_queue::ReadyToRunQueue;
use crate::rep::{
    is_vacant, lemma_inserted, lemma_released, lemma_remove_contains, lemma_same_links,
    lemma_stream_count, lemma_unlinked, lemma_valid, lemma_with_stream, list_ok, live, members_ok,
    node_ok, same_but, same_cores, vacant_ok,
};
use crate::slots::{
    lemma_keys_insert, slab_contents, slab_get, slab_insert, slab_new, slab_remove, slab_vacant_key,
    slab_vacated, MAX_STREAMS,
};
use crate::task::{Link, Task};

verus! {

/// A set of streams which may yield items in any order.
pub struct StreamUnordered<S> {
    // The cells. Cell 0 holds no stream, so that no stream gets token 0.
    pub(crate) tasks: Vec<Task<S>>,
    // The cells that can be used again
    pub(crate) vacant: Vec<usize>,
    // The cells whose streams have been woken
    pub(crate) ready_to_run_queue: ReadyToRunQueue,
    // The head of the list of all streams
    pub(crate) head_all: Option<usize>,
    // Whether the end of the set has been announced
    pub(crate) is_terminated: bool,
    // The cell of each token
    pub(crate) by_id: Slab<usize>,
    // The serial number of the next stream
    pub(crate) next_serial: u64,
    // The cell of the stream that is being polled
    pub(crate) polling: Option<usize>,
    // How many polls the running call of `poll_next` has completed
    pub(crate) polled: usize,
    // The list of all streams, from its head on
    pub(crate) all: Ghost<Seq<usize>>,
}

impl<S> StreamUnordered<S> {
    /// Constructs a new, empty [`StreamUnordered`].
    pub fn new() -> (set: Self)
        ensures
            set.wf(),
            set@ == SetView::<S>::empty(),
    {
        let mut by_id = slab_new();
        let stub = Task::new(None, slab_vacant_key(&by_id), 0);
        let mut tasks: Vec<Task<S>> = Vec::new();
        tasks.push(stub);
        proof {
            lemma_keys_insert(slab_contents(by_id), slab_vacated(by_id), 0);
        }
        slab_insert(&mut by_id, 0);
        let set = StreamUnordered {
            tasks,
            vacant: Vec::new(),
            ready_to_run_queue: ReadyToRunQueue::new(),
            head_all: None,
            is_terminated: false,
            by_id,
            next_serial: 0,
            polling: None,
            polled: 0,
            all: Ghost(Seq::empty()),
        };
        proof {
            assert(set@ =~= SetView::<S>::empty());
        }
        set
    }

    /// Returns the number of streams contained in the set.
    ///
    /// This represents the total number of in-flight streams.
    pub fn len(&self) -> (len: usize)
        requires
            self.wf(),
        ensures
            len == self@.streams.dom().len(),
    {
        let (_, len) = self.load_head_and_len_all();
        proof {
            lemma_stream_count(*self);
        }
        len
    }

    /// Returns `true` if the set contains no streams.
    pub fn is_empty(&self) -> (empty: bool)
        requires
            self.wf(),
        ensures
            empty == (self@.streams.dom().len() == 0),
    {
        proof {
            lemma_stream_count(*self);
        }
        self.head_all.is_none()
    }

    /// Returns the head of the list of all streams and its length.
    pub(crate) fn load_head_and_len_all(&self) -> (head: (Option<usize>, usize))
        requires
            list_ok(self.tasks@, self.all@, self.head_all),
        ensures
            head.0 == self.head_all,
            head.1 == self.all@.len(),
    {
        let len = match self.head_all {
            None => 0,
            Some(head) => {
                proof {
                    assert(node_ok(self.tasks@, self.all@, 0));
                }
                self.tasks[head].len_all
            },
        };
        (self.head_all, len)
    }

    /// Insert a cell at the head of the list of all streams.
    pub(crate) fn link(&mut self, cell: usize)
        requires
            list_ok(old(self).tasks@, old(self).all@, old(self).head_all),
            0 < cell < old(self).tasks@.len(),
            !old(self).all@.contains(cell),
            old(self).all@.len() < usize::MAX,
        ensures
            final(self).all@ == seq![cell] + old(self).all@,
            list_ok(final(self).tasks@, final(self).all@, final(self).head_all),
            same_cores(old(self).tasks@, final(self).tasks@),
            *final(self) == (StreamUnordered {
                tasks: final(self).tasks,
                head_all: final(self).head_all,
                all: final(self).all,
                ..*old(self)
            }),
    {
        let next = self.head_all;
        self.head_all = Some(cell);
        let new_len = match next {
            None => 1,
            Some(next) => {
                proof {
                    assert(node_ok(self.tasks@, self.all@, 0));
                }
                self.tasks[next].len_all + 1
            },
        };
        self.tasks[cell].len_all = new_len;
        match next {
            None => {
                self.tasks[cell].next_all = Link::End;
            },
            Some(next) => {
                self.tasks[cell].next_all = Link::To(next);
                self.tasks[next].prev_all = Some(cell);
            },
        }
        self.all = Ghost(seq![cell] + self.all@);
        proof {
            let before = old(self).all@;
            let after = self.all@;
            assert(after.no_duplicates());
            assert(old(self).tasks@[cell as int].is_detached());
            assert forall|i: int| 0 <= i < after.len() implies #[trigger] node_ok(
                self.tasks@,
                after,
                i,
            ) by {
                if i > 0 {
                    assert(after[i] == before[i - 1]);
                    assert(node_ok(old(self).tasks@, before, i - 1));
                }
            }
            assert forall|c: usize|
                #![trigger self.tasks@[c as int]]
                c < self.tasks@.len() && !after.contains(c) implies self.tasks@[c as int]
                    .is_detached() by {
                if before.contains(c) {
                    let i = before.index_of(c);
                    assert(after[i + 1] == c);
                }
                assert(after[0] == cell);
                if next is Some {
                    assert(after[1] == before[0]);
                }
            }
        }
    }

    /// Remove a cell from the list of all streams.
    pub(crate) fn unlink(&mut self, cell: usize)
        requires
            list_ok(old(self).tasks@, old(self).all@, old(self).head_all),
            old(self).all@.contains(cell),
        ensures
            final(self).all@ == old(self).all@.remove(old(self).all@.index_of(cell)),
            list_ok(final(self).tasks@, final(self).all@, final(self).head_all),
            same_cores(old(self).tasks@, final(self).tasks@),
            *final(self) == (StreamUnordered {
                tasks: final(self).tasks,
                head_all: final(self).head_all,
                all: final(self).all,
                ..*old(self)
            }),
    {
        let ghost before = self.all@;
        let ghost k = before.index_of(cell);
        proof {
            assert(before[k] == cell);
            assert(node_ok(self.tasks@, before, k));
            assert(node_ok(self.tasks@, before, 0));
            if k > 0 {
                assert(node_ok(self.tasks@, before, k - 1));
            }
            if k + 1 < before.len() {
                assert(node_ok(self.tasks@, before, k + 1));
            }
        }
        let new_len = match self.head_all {
            Some(head) => self.tasks[head].len_all - 1,
            None => 0,
        };
        let next = self.tasks[cell].spin_next_all();
        let prev = self.tasks[cell].prev_all;
        self.tasks[cell].next_all = Link::Pending;
        self.tasks[cell].prev_all = None;
        if let Some(next) = next {
            self.tasks[next].prev_all = prev;
        }
        match prev {
            Some(prev) => {
                self.tasks[prev].next_all = match next {
                    Some(next) => Link::To(next),
                    None => Link::End,
                };
            },
            None => {
                self.head_all = next;
            },
        }
        if let Some(head) = self.head_all {
            self.tasks[head].len_all = new_len;
        }
        self.all = Ghost(before.remove(k));
        proof {
            lemma_unlinked(old(self).tasks@, self.tasks@, before, k, self.head_all);
        }
    }

    /// Puts a cell at the end of the ready to run queue.
    pub(crate) fn enqueue(&mut self, cell: usize)
        requires
            cell < old(self).tasks@.len(),
        ensures
            final(self).tasks@ == old(self).tasks@.update(
                cell as int,
                Task { enqueued: true, ..old(self).tasks@[cell as int] },
            ),
            final(self).ready_to_run_queue@ == old(self).ready_to_run_queue@.push(cell),
            *final(self) == (StreamUnordered {
                tasks: final(self).tasks,
                ready_to_run_queue: final(self).ready_to_run_queue,
                ..*old(self)
            }),
    {
        self.tasks[cell].enqueued = true;
        self.ready_to_run_queue.enqueue(cell);
    }

    /// Puts a stream into a cell that is not in use, for the token `id` and with
    /// the serial number `serial`, and returns the cell.
    fn new_task(&mut self, stream: S, id: usize, serial: u64) -> (cell: usize)
        requires
            vacant_ok(old(self).tasks@, old(self).vacant@),
            list_ok(old(self).tasks@, old(self).all@, old(self).head_all),
            members_ok(old(self).tasks@, old(self).all@, old(self).polling),
            old(self).tasks@.len() > 0,
        ensures
            if cell < old(self).tasks@.len() {
                &&& is_vacant(old(self).tasks@, cell)
                &&& old(self).vacant@.len() > 0
                &&& cell == old(self).vacant@.last()
                &&& final(self).vacant@ == old(self).vacant@.drop_last()
            } else {
                &&& final(self).tasks@.len() > old(self).tasks@.len()
                &&& final(self).vacant@ == old(self).vacant@
            },
            cell > 0,
            same_but(old(self).tasks@, final(self).tasks@, cell),
            final(self).tasks@[cell as int].stream == Some(stream),
            final(self).tasks@[cell as int].id == id,
            final(self).tasks@[cell as int].serial == serial,
            !final(self).tasks@[cell as int].is_done,
            final(self).tasks@[cell as int].queued,
            !old(self).all@.contains(cell),
            list_ok(final(self).tasks@, old(self).all@, old(self).head_all),
            *final(self) == (StreamUnordered {
                tasks: final(self).tasks,
                vacant: final(self).vacant,
                ..*old(self)
            }),
    {
        let task = Task::new(Some(stream), id, serial);
        let cell = match self.vacant.pop() {
            Some(cell) => {
                proof {
                    assert(old(self).vacant@.contains(cell));
                    assert(is_vacant(old(self).tasks@, cell));
                    assert(!live(old(self).tasks@, cell));
                }
                self.tasks[cell] = task;
                cell
            },
            None => {
                let cell = self.tasks.len();
                self.tasks.push(task);
                cell
            },
        };
        proof {
            let all = self.all@;
            if all.contains(cell) {
                assert(node_ok(old(self).tasks@, all, all.index_of(cell)));
                assert(live(old(self).tasks@, cell));
            }
            assert forall|i: int| 0 <= i < all.len() implies #[trigger] node_ok(
                self.tasks@,
                all,
                i,
            ) by {
                assert(node_ok(old(self).tasks@, all, i));
                assert(all.contains(all[i]));
            }
            if all.len() > 0 {
                assert(all.contains(all[0]));
                assert(node_ok(old(self).tasks@, all, 0));
            }
            assert forall|c: usize|
                #![trigger self.tasks@[c as int]]
                c < self.tasks@.len() && !all.contains(c) implies self.tasks@[c as int]
                    .is_detached() by {
                if c != cell {
                    assert(old(self).tasks@[c as int].is_detached());
                }
            }
        }
        cell
    }

    /// Makes `stream` a stream of the set, with the next token.
    pub(crate) fn fill_next_slot(&mut self, stream: S)
        requires
            old(self).inv(),
            old(self)@.streams.dom().len() < MAX_STREAMS,
        ensures
            final(self).inv(),
            final(self)@ == old(self)@.inserted(stream),
    {
        proof {
            lemma_stream_count(*old(self));
        }
        let token = slab_vacant_key(&self.by_id);
        let serial = self.next_serial;
        self.next_serial = serial.wrapping_add(1);
        let cell = self.new_task(stream, token, serial);
        slab_insert(&mut self.by_id, cell);
        self.is_terminated = false;
        self.link(cell);
        let ghost linked = self.tasks@;
        self.enqueue(cell);
        proof {
            lemma_same_links(linked, self.tasks@, self.all@, self.head_all);
            lemma_inserted(*old(self), *self, cell, stream);
        }
    }

    /// Releases a cell. It drops the stream inside and gives up its token. The cell can be used
    /// again at once unless it is in the ready to run queue; then it stays there as an empty cell,
    /// and can be used again once it has left the queue.
    ///
    /// The cell must have been unlinked before.
    pub(crate) fn release_task(&mut self, cell: usize)
        requires
            cell < old(self).tasks@.len(),
            old(self).tasks@[cell as int].is_detached(),
            slab_contents(old(self).by_id).contains_key(old(self).tasks@[cell as int].id),
        ensures
            final(self).tasks@ == old(self).tasks@.update(
                cell as int,
                Task { stream: None, queued: true, ..old(self).tasks@[cell as int] },
            ),
            slab_contents(final(self).by_id) == slab_contents(old(self).by_id).remove(
                old(self).tasks@[cell as int].id,
            ),
            slab_vacated(final(self).by_id) == slab_vacated(old(self).by_id).push(
                old(self).tasks@[cell as int].id,
            ),
            final(self).vacant@ == (if old(self).tasks@[cell as int].enqueued {
                old(self).vacant@
            } else {
                old(self).vacant@.push(cell)
            }),
            *final(self) == (StreamUnordered {
                tasks: final(self).tasks,
                by_id: final(self).by_id,
                vacant: final(self).vacant,
                ..*old(self)
            }),
    {
        let id = self.tasks[cell].id;
        slab_remove(&mut self.by_id, id);
        // Further wake-ups of the stream change nothing.
        self.tasks[cell].queued = true;
        self.tasks[cell].stream = None;
        if !self.tasks[cell].enqueued {
            self.vacant.push(cell);
        }
    }

    /// The cell of the stream with token `token`.
    pub(crate) fn cell_of(&self, token: usize) -> (cell: Option<usize>)
        requires
            self.rep(),
        ensures
            match cell {
                Some(c) => {
                    &&& self@.streams.contains_key(token)
                    &&& slab_contents(self.by_id)[token] == c
                    &&& live(self.tasks@, c)
                    &&& self.tasks@[c as int].id == token
                },
                None => !self@.streams.contains_key(token),
            },
    {
        // Token 0 does not belong to a stream.
        if token == 0 {
            return None;
        }
        slab_get(&self.by_id, token)
    }

    /// Remove a stream from the set.
    ///
    /// The stream will be dropped and will no longer yield stream events. The result says whether
    /// the set had a stream with this token.
    pub fn remove(&mut self, token: usize) -> (found: bool)
        requires
            old(self).wf(),
        ensures
            final(self).wf(),
            found == old(self)@.streams.contains_key(token),
            found ==> final(self)@ == old(self)@.removed(token),
            !found ==> *final(self) == *old(self),
    {
        let cell = match self.cell_of(token) {
            Some(cell) => cell,
            None => return false,
        };
        self.unlink_and_release(cell);
        true
    }

    /// Removes the stream in `cell` from the set.
    fn unlink_and_release(&mut self, cell: usize)
        requires
            old(self).wf(),
            old(self).all@.contains(cell),
        ensures
            final(self).wf(),
            final(self)@ == old(self)@.removed(old(self).tasks@[cell as int].id),
            final(self).all@.len() + 1 == old(self).all@.len(),
    {
        proof {
            assert(live(self.tasks@, cell));
        }
        self.unlink(cell);
        let ghost unlinked = self.tasks@;
        self.release_task(cell);
        proof {
            lemma_remove_contains(old(self).all@, cell, cell);
            lemma_same_links(unlinked, self.tasks@, self.all@, self.head_all);
            lemma_released(*old(self), *self, cell);
        }
    }

    /// Remove and return a stream from the set.
    ///
    /// The stream will no longer be polled, and will no longer yield stream events.
    pub fn take(&mut self, token: usize) -> (stream: Option<S>)
        requires
            old(self).wf(),
        ensures
            final(self).wf(),
            match stream {
                Some(s) => {
                    &&& old(self)@.streams.contains_key(token)
                    &&& s == old(self)@.streams[token].stream
                    &&& final(self)@ == old(self)@.removed(token)
                },
                None => {
                    &&& !old(self)@.streams.contains_key(token)
                    &&& *final(self) == *old(self)
                },
            },
    {
        let cell = self.cell_of(token)?;
        self.unlink(cell);
        let ghost unlinked = self.tasks@;
        let stream = self.tasks[cell].stream.take();
        self.release_task(cell);
        proof {
            lemma_remove_contains(old(self).all@, cell, cell);
            lemma_same_links(unlinked, self.tasks@, self.all@, self.head_all);
            lemma_released(*old(self), *self, cell);
        }
        stream
    }

    /// Removes all streams from the set, in the order in which iterators visit them.
    pub fn clear(&mut self)
        requires
            old(self).wf(),
        ensures
            final(self).wf(),
            final(self)@ == old(self)@.cleared(),
    {
        let ghost start = self@;
        let ghost mut n: nat = 0;
        proof {
            lemma_valid(*self);
            lemma_clearing_ends(start);
        }
        loop
            invariant
                self.wf(),
                n + self.all@.len() == start.order.len(),
                self@ == start.clearing(n),
                start.valid(),
                start == old(self)@,
            ensures
                self.wf(),
                self@ == start.clearing(start.order.len()),
            decreases self.all@.len(),
        {
            let ghost before = *self;
            let head = match self.head_all {
                Some(head) => head,
                None => break,
            };
            proof {
                assert(before.all@[0] == head);
                assert(before@.order[0] == before.tasks@[head as int].id);
            }
            self.unlink_and_release(head);
            proof {
                lemma_clearing_step(start, n);
                n = n + 1;
            }
        }
    }

    /// Returns `true` if the stream with the given token has yielded `None`.
    pub fn is_finished(&self, token: usize) -> (finished: Option<bool>)
        requires
            self.inv(),
        ensures
            finished == (if self@.streams.contains_key(token) {
                Some(self@.streams[token].finished)
            } else {
                None
            }),
    {
        let cell = self.cell_of(token)?;
        Some(self.tasks[cell].is_done)
    }

    /// Returns a reference to the stream with the given token
    pub fn get(&self, token: usize) -> (stream: Option<&S>)
        requires
            self.inv(),
        ensures
            stream == (if self@.streams.contains_key(token) {
                Some(&self@.streams[token].stream)
            } else {
                None
            }),
    {
        let cell = self.cell_of(token)?;
        self.tasks[cell].stream.as_ref()
    }

    /// Returns a reference that allows modifying the stream with the given token.
    pub fn get_mut(&mut self, token: usize) -> (stream: Option<&mut S>)
        requires
            old(self).inv(),
        ensures
            final(self).inv(),
            match stream {
                Some(s) => {
                    &&& old(self)@.streams.contains_key(token)
                    &&& *s == old(self)@.streams[token].stream
                    &&& final(self)@ == old(self)@.with_stream(token, *final(s))
                },
                None => {
                    &&& !old(self)@.streams.contains_key(token)
                    &&& *final(self) == *old(self)
                },
            },
    {
        let cell = match self.cell_of(token) {
            Some(cell) => cell,
            None => return None,
        };
        let stream = self.tasks[cell].stream.as_mut();
        proof {
            lemma_with_stream(*old(self), *after_borrow(self), cell, *final(stream.unwrap()));
        }
        stream
    }

    /// Returns a reference that allows modifying the stream with the given token.
    ///
    /// Where the streams are pinned boxes, the stream inside can be pinned through the reference.
    pub fn get_pin_mut(&mut self, token: usize) -> (stream: Option<&mut S>)
        requires
            old(self).inv(),
        ensures
            final(self).inv(),
            match stream {
                Some(s) => {
                    &&& old(self)@.streams.contains_key(token)
                    &&& *s == old(self)@.streams[token].stream
                    &&& final(self)@ == old(self)@.with_stream(token, *final(s))
                },
                None => {
                    &&& !old(self)@.streams.contains_key(token)
                    &&& *final(self) == *old(self)
                },
            },
    {
        self.get_mut(token)
    }

    /// Returns a reference that allows modifying the stream with the given token, which the set
    /// must have.
    pub fn index_mut(&mut self, token: usize) -> (stream: &mut S)
        requires
            old(self).inv(),
            old(self)@.streams.contains_key(token),
        ensures
            final(self).inv(),
            *stream == old(self)@.streams[token].stream,
            final(self)@ == old(self)@.with_stream(token, *final(stream)),
    {
        self.get_mut(token).unwrap()
    }

    /// Returns the number of streams in the set, as a lower and as an upper bound.
    pub fn size_hint(&self) -> (hint: (usize, Option<usize>))
        requires
            self.wf(),
        ensures
            hint.0 == self@.streams.dom().len(),
            hint.1 == Some(hint.0),
    {
        let len = self.len();
        (len, Some(len))
    }

    /// Returns `true` if the end of the set has been announced, and no stream was inserted since.
    pub fn is_terminated(&self) -> (terminated: bool)
        ensures
            terminated == self@.terminated,
    {
        self.is_terminated
    }
}

impl<S> core::ops::Index<usize> for StreamUnordered<S> {
    type Output = S;

    /// Returns a reference to the stream with the given token, which the set must have.
    fn index(&self, token: usize) -> (stream: &S)
        ensures
            *stream == self@.streams[token].stream,
    {
        self.get(token).unwrap()
    }
}

impl<S> vstd::std_specs::core::IndexSpecImpl<usize> for StreamUnordered<S> {
    open spec fn index_req(&self, token: &usize) -> bool {
        self.inv() && self@.streams.contains_key(*token)
    }
}

} // verus!
