//! Visiting the streams of a set.
use vstd::prelude::*;

use crate::model::{SetView, StreamState};
use crate::rep::{lemma_valid, lemma_with_streams, live, node_ok};
use crate::set::StreamUnordered;
use crate::task::Task;

verus! {

/// Immutable iterator over all streams in the unordered set.
pub struct IterWithToken<'a, S> {
    // The set
    set: &'a StreamUnordered<S>,
    // The cell of the next stream
    task: Option<usize>,
    // How many streams are left
    len: usize,
}

impl<'a, S> IterWithToken<'a, S> {
    /// The iterator visits the streams of this set.
    pub closed spec fn source(&self) -> StreamUnordered<S> {
        *self.set
    }

    /// How many streams are left.
    pub closed spec fn left(&self) -> nat {
        self.len as nat
    }

    /// The iterator stands at a stream of the set, or behind the last one.
    pub closed spec fn wf(&self) -> bool {
        let all = self.set.all@;
        &&& self.set.wf()
        &&& self.len <= all.len()
        &&& self.task == (if self.len > 0 {
            Some(all[all.len() - self.len])
        } else {
            None
        })
    }

    /// The streams that are left, with their tokens, in the order in which they are visited.
    pub open spec fn remaining(&self) -> Seq<(S, usize)> {
        let order = self.source()@.order;
        Seq::new(
            self.left(),
            |i: int|
                {
                    let token = order[order.len() - self.left() + i];
                    (self.source()@.streams[token].stream, token)
                },
        )
    }

    /// Visits the next stream, and returns it with its token.
    pub fn next(&mut self) -> (item: Option<(&'a S, usize)>)
        requires
            old(self).wf(),
        ensures
            final(self).wf(),
            final(self).source() == old(self).source(),
            match item {
                Some((stream, token)) => {
                    &&& old(self).remaining().len() > 0
                    &&& (*stream, token) == old(self).remaining()[0]
                    &&& old(self).source()@.streams.contains_key(token)
                    &&& *stream == old(self).source()@.streams[token].stream
                    &&& final(self).remaining() == old(self).remaining().drop_first()
                },
                None => {
                    &&& old(self).remaining().len() == 0
                    &&& *final(self) == *old(self)
                },
            },
    {
        let cell = match self.task {
            Some(cell) => cell,
            None => return None,
        };
        let set: &'a StreamUnordered<S> = self.set;
        let ghost i = set.all@.len() - self.len;
        proof {
            assert(node_ok(set.tasks@, set.all@, i));
            assert(set.all@.contains(cell));
            assert(live(set.tasks@, cell));
        }
        let id = set.tasks[cell].id;
        let stream = set.tasks[cell].stream.as_ref().unwrap();
        self.task = set.tasks[cell].spin_next_all();
        self.len = self.len - 1;
        proof {
            assert(set@.order[i] == id);
            assert(self.remaining() =~= old(self).remaining().drop_first());
        }
        Some((stream, id))
    }

    /// Returns how many streams are left, as a lower and as an upper bound.
    pub fn size_hint(&self) -> (hint: (usize, Option<usize>))
        ensures
            hint.0 == self.remaining().len(),
            hint.1 == Some(hint.0),
    {
        (self.len, Some(self.len))
    }

    /// Returns how many streams are left.
    pub fn len(&self) -> (len: usize)
        ensures
            len == self.remaining().len(),
    {
        self.len
    }
}

/// Mutable iterator over all streams in the unordered set.
pub struct IterPinMutWithToken<'a, S> {
    /// The streams that are left, with their tokens. The last one is visited first.
    pub rest: Vec<(&'a mut S, usize)>,
}

impl<'a, S> IterPinMutWithToken<'a, S> {
    /// Visits the next stream, and returns it with its token.
    pub fn next(&mut self) -> (item: Option<(&'a mut S, usize)>)
        ensures
            match item {
                Some(item) => {
                    &&& old(self).rest@.len() > 0
                    &&& item == old(self).rest@.last()
                    &&& final(self).rest@ == old(self).rest@.drop_last()
                },
                None => {
                    &&& old(self).rest@.len() == 0
                    &&& final(self).rest@ == old(self).rest@
                },
            },
    {
        self.rest.pop()
    }

    /// Returns how many streams are left, as a lower and as an upper bound.
    pub fn size_hint(&self) -> (hint: (usize, Option<usize>))
        ensures
            hint.0 == self.rest@.len(),
            hint.1 == Some(hint.0),
    {
        (self.rest.len(), Some(self.rest.len()))
    }

    /// Returns how many streams are left.
    pub fn len(&self) -> (len: usize)
        ensures
            len == self.rest@.len(),
    {
        self.rest.len()
    }
}

/// Mutable iterator over all streams in the unordered set, without their tokens.
pub struct IterPinMut<'a, S>(pub IterPinMutWithToken<'a, S>);

impl<'a, S> IterPinMut<'a, S> {
    /// Visits the next stream.
    pub fn next(&mut self) -> (item: Option<&'a mut S>)
        ensures
            match item {
                Some(item) => {
                    &&& old(self).0.rest@.len() > 0
                    &&& *item == *old(self).0.rest@.last().0
                    &&& *final(item) == *final(old(self).0.rest@.last().0)
                    &&& final(self).0.rest@ == old(self).0.rest@.drop_last()
                },
                None => {
                    &&& old(self).0.rest@.len() == 0
                    &&& final(self).0.rest@ == old(self).0.rest@
                },
            },
    {
        match self.0.next() {
            Some((stream, _)) => Some(stream),
            None => None,
        }
    }

    /// Returns how many streams are left, as a lower and as an upper bound.
    pub fn size_hint(&self) -> (hint: (usize, Option<usize>))
        ensures
            hint.0 == self.0.rest@.len(),
            hint.1 == Some(hint.0),
    {
        self.0.size_hint()
    }

    /// Returns how many streams are left.
    pub fn len(&self) -> (len: usize)
        ensures
            len == self.0.rest@.len(),
    {
        self.0.len()
    }
}

/// Mutable iterator over all streams in the unordered set.
pub struct IterMutWithToken<'a, S>(pub IterPinMutWithToken<'a, S>);

impl<'a, S> IterMutWithToken<'a, S> {
    /// Visits the next stream, and returns it with its token.
    pub fn next(&mut self) -> (item: Option<(&'a mut S, usize)>)
        ensures
            match item {
                Some(item) => {
                    &&& old(self).0.rest@.len() > 0
                    &&& item == old(self).0.rest@.last()
                    &&& final(self).0.rest@ == old(self).0.rest@.drop_last()
                },
                None => {
                    &&& old(self).0.rest@.len() == 0
                    &&& final(self).0.rest@ == old(self).0.rest@
                },
            },
    {
        self.0.next()
    }

    /// Returns how many streams are left, as a lower and as an upper bound.
    pub fn size_hint(&self) -> (hint: (usize, Option<usize>))
        ensures
            hint.0 == self.0.rest@.len(),
            hint.1 == Some(hint.0),
    {
        self.0.size_hint()
    }

    /// Returns how many streams are left.
    pub fn len(&self) -> (len: usize)
        ensures
            len == self.0.rest@.len(),
    {
        self.0.len()
    }
}

/// Mutable iterator over all streams in the unordered set, without their tokens.
pub struct IterMut<'a, S>(pub IterPinMutWithToken<'a, S>);

impl<'a, S> IterMut<'a, S> {
    /// Visits the next stream.
    pub fn next(&mut self) -> (item: Option<&'a mut S>)
        ensures
            match item {
                Some(item) => {
                    &&& old(self).0.rest@.len() > 0
                    &&& *item == *old(self).0.rest@.last().0
                    &&& *final(item) == *final(old(self).0.rest@.last().0)
                    &&& final(self).0.rest@ == old(self).0.rest@.drop_last()
                },
                None => {
                    &&& old(self).0.rest@.len() == 0
                    &&& final(self).0.rest@ == old(self).0.rest@
                },
            },
    {
        match self.0.next() {
            Some((stream, _)) => Some(stream),
            None => None,
        }
    }

    /// Returns how many streams are left, as a lower and as an upper bound.
    pub fn size_hint(&self) -> (hint: (usize, Option<usize>))
        ensures
            hint.0 == self.0.rest@.len(),
            hint.1 == Some(hint.0),
    {
        self.0.size_hint()
    }

    /// Returns how many streams are left.
    pub fn len(&self) -> (len: usize)
        ensures
            len == self.0.rest@.len(),
    {
        self.0.len()
    }
}

/// What an iterator over the streams of a set has left is one pair for each of the last streams in
/// the order of iteration, the stream and its own token. One that has as many pairs left as the set
/// has streams visits each of them once.
pub proof fn law_iteration<'a, S>(iter: IterWithToken<'a, S>)
    requires
        iter.wf(),
    ensures
        ({
            let set = iter.source()@;
            let left = iter.remaining();
            &&& left.len() <= set.streams.dom().len()
            &&& forall|i: int|
                0 <= i < left.len() ==> {
                    &&& set.streams.contains_key((#[trigger] left[i]).1)
                    &&& left[i].0 == set.streams[left[i].1].stream
                    &&& left[i].1 == set.order[set.order.len() - left.len() + i]
                }
            &&& forall|i: int, j: int|
                0 <= i < j < left.len() ==> (#[trigger] left[i]).1 != (#[trigger] left[j]).1
            &&& left.len() == set.streams.dom().len() ==> forall|t: usize| #[trigger]
                set.streams.contains_key(t) ==> exists|i: int|
                    0 <= i < left.len() && (#[trigger] left[i]).1 == t
        }),
{
    let set = iter.source()@;
    let left = iter.remaining();
    let n = set.order.len() - left.len();
    lemma_valid(iter.source());
    assert forall|i: int| 0 <= i < left.len() implies set.streams.contains_key(
        (#[trigger] left[i]).1,
    ) by {
        assert(set.order.contains(set.order[n + i]));
    }
    if left.len() == set.streams.dom().len() {
        assert forall|t: usize| #[trigger] set.streams.contains_key(t) implies exists|i: int|
            0 <= i < left.len() && (#[trigger] left[i]).1 == t by {
            assert(set.order.contains(t));
            let i = set.order.index_of(t);
            assert(left[i].1 == t);
        }
    }
}

/// An iterator that allows modifying the streams of a set has one pair for each of them, the stream
/// and its own token, and visits them in the order of iteration.
pub proof fn law_mutable_iteration<S>(rest: Seq<(&mut S, usize)>, set: SetView<S>)
    requires
        set.valid(),
        set.polling is None,
        visits(rest, set),
    ensures
        rest.len() == set.streams.dom().len(),
        forall|i: int|
            0 <= i < rest.len() ==> {
                &&& set.streams.contains_key((#[trigger] rest[i]).1)
                &&& *rest[i].0 == set.streams[rest[i].1].stream
                &&& rest[i].1 == set.order[rest.len() - 1 - i]
            },
        forall|i: int, j: int|
            0 <= i < j < rest.len() ==> (#[trigger] rest[i]).1 != (#[trigger] rest[j]).1,
        forall|t: usize| #[trigger]
            set.streams.contains_key(t) ==> exists|i: int|
                0 <= i < rest.len() && (#[trigger] rest[i]).1 == t,
{
    let n = rest.len();
    assert forall|i: int| 0 <= i < n implies set.streams.contains_key((#[trigger] rest[i]).1) by {
        assert(set.order.contains(set.order[n - 1 - i]));
    }
    assert forall|t: usize| #[trigger] set.streams.contains_key(t) implies exists|i: int|
        0 <= i < n && (#[trigger] rest[i]).1 == t by {
        assert(set.order.contains(t));
        let i = n - 1 - set.order.index_of(t);
        assert(rest[i].1 == t);
    }
}

/// The stream in `task`, replaced by `stream`.
pub(crate) open spec fn replaced<S>(task: Task<S>, stream: S) -> Task<S> {
    Task { stream: Some(stream), ..task }
}

/// Borrows the streams of all cells.
fn borrow_streams<'a, S>(tasks: &'a mut [Task<S>]) -> (streams: Vec<Option<&'a mut S>>)
    ensures
        streams@.len() == old(tasks)@.len(),
        final(tasks)@.len() == old(tasks)@.len(),
        forall|j: int|
            #![trigger streams@[j]]
            #![trigger final(tasks)@[j]]
            0 <= j < streams@.len() ==> match streams@[j] {
                Some(s) => old(tasks)@[j].stream == Some(*s) && final(tasks)@[j] == replaced(
                    old(tasks)@[j],
                    *final(s),
                ),
                None => old(tasks)@[j].stream is None && final(tasks)@[j] == old(tasks)@[j],
            },
{
    let mut rest: &'a mut [Task<S>] = tasks;
    let mut streams: Vec<Option<&'a mut S>> = Vec::new();
    let n = rest.len();
    let mut i: usize = 0;
    while i < n
        invariant
            i <= n,
            n == old(tasks)@.len(),
            streams@.len() == i,
            rest@ == old(tasks)@.subrange(i as int, n as int),
            final(rest)@.len() == n - i ==> after_borrow(tasks)@.len() == n && forall|k: int|
                i <= k < n ==> #[trigger] after_borrow(tasks)@[k] == final(rest)@[k - i],
            final(rest)@.len() == n - i ==> forall|j: int|
                #![trigger streams@[j]]
                #![trigger after_borrow(tasks)@[j]]
                0 <= j < streams@.len() ==> match streams@[j] {
                    Some(s) => old(tasks)@[j].stream == Some(*s) && after_borrow(tasks)@[j]
                        == replaced(old(tasks)@[j], *final(s)),
                    None => old(tasks)@[j].stream is None && after_borrow(tasks)@[j]
                        == old(tasks)@[j],
                },
        decreases n - i,
    {
        let (first, others) = rest.split_at_mut(1);
        match first.first_mut() {
            Some(task) => {
                streams.push(task.stream.as_mut());
            },
            None => {},
        }
        rest = others;
        assert(final(rest)@.len() == n - i - 1 ==> after_borrow(tasks)@.len() == n);
        assert(final(rest)@.len() == n - i - 1 ==> forall|k: int|
            i < k < n ==> #[trigger] after_borrow(tasks)@[k] == final(rest)@[k - i - 1]);
        i = i + 1;
    }
    streams
}

/// What an iterator `rest` over the streams of `before` promises: it visits each stream once, in
/// the order of the set.
pub open spec fn visits<S>(rest: Seq<(&mut S, usize)>, before: SetView<S>) -> bool {
    let n = before.order.len();
    &&& rest.len() == n
    &&& forall|i: int|
        #![trigger rest[i]]
        0 <= i < n ==> {
            &&& rest[i].1 == before.order[n - 1 - i]
            &&& *rest[i].0 == before.streams[rest[i].1].stream
        }
}

impl<S> StreamUnordered<S> {
    /// Returns an immutable iterator that allows getting a reference to each stream in the set.
    pub fn iter_with_token(&self) -> (iter: IterWithToken<'_, S>)
        requires
            self.wf(),
        ensures
            iter.wf(),
            iter.source() == *self,
            iter.left() == self@.order.len(),
            iter.remaining().len() == self@.streams.dom().len(),
            forall|i: int|
                0 <= i < iter.remaining().len() ==> {
                    &&& (#[trigger] iter.remaining()[i]).1 == self@.order[i]
                    &&& self@.streams.contains_key(self@.order[i])
                    &&& iter.remaining()[i].0 == self@.streams[self@.order[i]].stream
                },
    {
        proof {
            lemma_valid(*self);
            assert forall|i: int| 0 <= i < self@.order.len() implies self@.streams.contains_key(
                #[trigger] self@.order[i],
            ) by {
                assert(self@.order.contains(self@.order[i]));
            }
        }
        let (task, len) = self.load_head_and_len_all();
        IterWithToken { set: self, task, len }
    }

    /// The cells of the list of all streams, with their tokens.
    fn cells(&self) -> (cells: Vec<(usize, usize)>)
        requires
            self.wf(),
        ensures
            cells@.len() == self.all@.len(),
            forall|i: int|
                #![trigger cells@[i]]
                0 <= i < cells@.len() ==> cells@[i] == (self.all@[i], self@.order[i]),
    {
        let mut cells: Vec<(usize, usize)> = Vec::new();
        let (mut task, len) = self.load_head_and_len_all();
        let mut left = len;
        while left > 0
            invariant
                self.wf(),
                left <= self.all@.len(),
                cells@.len() == self.all@.len() - left,
                task == (if left > 0 {
                    Some(self.all@[cells@.len() as int])
                } else {
                    None
                }),
                forall|i: int|
                    #![trigger cells@[i]]
                    0 <= i < cells@.len() ==> cells@[i] == (self.all@[i], self@.order[i]),
            decreases left,
        {
            proof {
                assert(node_ok(self.tasks@, self.all@, cells@.len() as int));
            }
            let cell = task.unwrap();
            cells.push((cell, self.tasks[cell].id));
            task = self.tasks[cell].spin_next_all();
            left = left - 1;
        }
        cells
    }

    /// Returns an iterator that allows modifying each stream in the set.
    pub fn iter_pin_mut_with_token(&mut self) -> (iter: IterPinMutWithToken<'_, S>)
        requires
            old(self).wf(),
        ensures
            visits(iter.rest@, old(self)@),
            iter.rest@.len() == old(self)@.streams.dom().len(),
            forall|i: int|
                #![trigger iter.rest@[i]]
                0 <= i < iter.rest@.len() ==> {
                    &&& iter.rest@[i].1 == old(self)@.order[iter.rest@.len() - 1 - i]
                    &&& old(self)@.streams.contains_key(iter.rest@[i].1)
                    &&& *iter.rest@[i].0 == old(self)@.streams[iter.rest@[i].1].stream
                },
            final(self).wf(),
            final(self)@ == (SetView { streams: final(self)@.streams, ..old(self)@ }),
            final(self)@.streams.dom() == old(self)@.streams.dom(),
            forall|i: int|
                #![trigger iter.rest@[i]]
                0 <= i < iter.rest@.len() ==> final(self)@.streams[iter.rest@[i].1] == (
                StreamState {
                    stream: *final(iter.rest@[i].0),
                    ..old(self)@.streams[iter.rest@[i].1]
                }),
    {
        proof {
            lemma_valid(*self);
            assert forall|i: int| 0 <= i < self@.order.len() implies self@.streams.contains_key(
                #[trigger] self@.order[i],
            ) by {
                assert(self@.order.contains(self@.order[i]));
            }
        }
        let cells = self.cells();
        let n = cells.len();
        let mut streams = borrow_streams(self.tasks.as_mut_slice());
        let ghost borrowed = streams@;
        proof {
            let all = old(self).all@;
            assert forall|j: int| #![trigger cells@[j]] 0 <= j < n implies cells@[j].0
                < borrowed.len() && borrowed[cells@[j].0 as int] is Some by {
                assert(all.contains(all[j]));
                assert(live(old(self).tasks@, all[j]));
            }
        }
        let mut rest: Vec<(&mut S, usize)> = Vec::new();
        let mut i: usize = n;
        while i > 0
            invariant
                i <= n,
                n == cells@.len(),
                rest@.len() == n - i,
                streams@.len() == borrowed.len(),
                forall|j: int, k: int|
                    #![trigger cells@[j], cells@[k]]
                    0 <= j < k < n ==> cells@[j].0 != cells@[k].0,
                forall|j: int|
                    #![trigger cells@[j]]
                    0 <= j < n ==> cells@[j].0 < borrowed.len()
                        && borrowed[cells@[j].0 as int] is Some,
                forall|j: int|
                    #![trigger cells@[j]]
                    0 <= j < i ==> streams@[cells@[j].0 as int] == borrowed[cells@[j].0 as int],
                forall|j: int|
                    #![trigger rest@[j]]
                    0 <= j < rest@.len() ==> {
                        &&& rest@[j].1 == cells@[n - 1 - j].1
                        &&& borrowed[cells@[n - 1 - j].0 as int] matches Some(s)
                        &&& *rest@[j].0 == *s
                        &&& *final(rest@[j].0) == *final(s)
                    },
            decreases i,
        {
            i = i - 1;
            let (cell, token) = cells[i];
            if let Some(stream) = streams[cell].take() {
                rest.push((stream, token));
            }
            assert(cells@[i as int] == (cell, token));
        }
        proof {
            let before = *old(self);
            let after = *after_borrow(self);
            assert forall|c: int| #![trigger after.tasks@[c]] 0 <= c < after.tasks@.len() implies {
                &&& after.tasks@[c] == (Task { stream: after.tasks@[c].stream, ..before.tasks@[c] })
                &&& after.tasks@[c].stream is Some <==> before.tasks@[c].stream is Some
            } by {
                assert(borrowed[c] is Some || borrowed[c] is None);
            }
            lemma_with_streams(before, after);
            assert forall|i: int| #![trigger rest@[i]] 0 <= i < rest@.len() implies {
                &&& rest@[i].1 == before@.order[n - 1 - i]
                &&& *rest@[i].0 == before@.streams[rest@[i].1].stream
                &&& after@.streams[rest@[i].1] == (StreamState {
                    stream: *final(rest@[i].0),
                    ..before@.streams[rest@[i].1]
                })
            } by {
                let cell = cells@[n - 1 - i].0;
                assert(before.all@.contains(cell));
                assert(live(before.tasks@, cell));
                assert(borrowed[cell as int] is Some);
                assert(after.tasks@[cell as int].stream is Some);
                assert(before@.order[n - 1 - i] == before.tasks@[cell as int].id);
            }
        }
        IterPinMutWithToken { rest }
    }

    /// Returns an iterator that allows modifying each stream in the set.
    pub fn iter_pin_mut(&mut self) -> (iter: IterPinMut<'_, S>)
        requires
            old(self).wf(),
        ensures
            visits(iter.0.rest@, old(self)@),
            iter.0.rest@.len() == old(self)@.streams.dom().len(),
            forall|i: int|
                #![trigger iter.0.rest@[i]]
                0 <= i < iter.0.rest@.len() ==> {
                    &&& iter.0.rest@[i].1 == old(self)@.order[iter.0.rest@.len() - 1 - i]
                    &&& old(self)@.streams.contains_key(iter.0.rest@[i].1)
                    &&& *iter.0.rest@[i].0 == old(self)@.streams[iter.0.rest@[i].1].stream
                },
            final(self).wf(),
            final(self)@ == (SetView { streams: final(self)@.streams, ..old(self)@ }),
            final(self)@.streams.dom() == old(self)@.streams.dom(),
            forall|i: int|
                #![trigger iter.0.rest@[i]]
                0 <= i < iter.0.rest@.len() ==> final(self)@.streams[iter.0.rest@[i].1] == (
                StreamState {
                    stream: *final(iter.0.rest@[i].0),
                    ..old(self)@.streams[iter.0.rest@[i].1]
                }),
    {
        IterPinMut(self.iter_pin_mut_with_token())
    }

    /// Returns an iterator that allows modifying each stream in the set.
    pub fn iter_mut_with_token(&mut self) -> (iter: IterMutWithToken<'_, S>)
        requires
            old(self).wf(),
        ensures
            visits(iter.0.rest@, old(self)@),
            iter.0.rest@.len() == old(self)@.streams.dom().len(),
            forall|i: int|
                #![trigger iter.0.rest@[i]]
                0 <= i < iter.0.rest@.len() ==> {
                    &&& iter.0.rest@[i].1 == old(self)@.order[iter.0.rest@.len() - 1 - i]
                    &&& old(self)@.streams.contains_key(iter.0.rest@[i].1)
                    &&& *iter.0.rest@[i].0 == old(self)@.streams[iter.0.rest@[i].1].stream
                },
            final(self).wf(),
            final(self)@ == (SetView { streams: final(self)@.streams, ..old(self)@ }),
            final(self)@.streams.dom() == old(self)@.streams.dom(),
            forall|i: int|
                #![trigger iter.0.rest@[i]]
                0 <= i < iter.0.rest@.len() ==> final(self)@.streams[iter.0.rest@[i].1] == (
                StreamState {
                    stream: *final(iter.0.rest@[i].0),
                    ..old(self)@.streams[iter.0.rest@[i].1]
                }),
    {
        IterMutWithToken(self.iter_pin_mut_with_token())
    }

    /// Returns an iterator that allows modifying each stream in the set.
    pub fn iter_mut(&mut self) -> (iter: IterMut<'_, S>)
        requires
            old(self).wf(),
        ensures
            visits(iter.0.rest@, old(self)@),
            iter.0.rest@.len() == old(self)@.streams.dom().len(),
            forall|i: int|
                #![trigger iter.0.rest@[i]]
                0 <= i < iter.0.rest@.len() ==> {
                    &&& iter.0.rest@[i].1 == old(self)@.order[iter.0.rest@.len() - 1 - i]
                    &&& old(self)@.streams.contains_key(iter.0.rest@[i].1)
                    &&& *iter.0.rest@[i].0 == old(self)@.streams[iter.0.rest@[i].1].stream
                },
            final(self).wf(),
            final(self)@ == (SetView { streams: final(self)@.streams, ..old(self)@ }),
            final(self)@.streams.dom() == old(self)@.streams.dom(),
            forall|i: int|
                #![trigger iter.0.rest@[i]]
                0 <= i < iter.0.rest@.len() ==> final(self)@.streams[iter.0.rest@[i].1] == (
                StreamState {
                    stream: *final(iter.0.rest@[i].0),
                    ..old(self)@.streams[iter.0.rest@[i].1]
                }),
    {
        IterMut(self.iter_pin_mut_with_token())
    }
}

} // verus!
