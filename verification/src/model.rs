//! What a set of streams is, and what each operation makes of it.
use vstd::prelude::*;

use crate::slots::MAX_STREAMS;
use crate::step::{Event, Readiness, Step, WakeKey, WakeUp, YIELD_EVERY};
use crate::yielded::{FinishedStream, StreamYield};

verus! {

/// A stream of the set.
pub struct StreamState<S> {
    /// The stream itself.
    pub stream: S,
    /// Tells it from the streams that had its token before.
    pub serial: u64,
    /// It has yielded all the items it ever will.
    pub finished: bool,
    /// It has been woken, and further wake-ups change nothing.
    pub queued: bool,
}

/// A set of streams.
#[verifier::ext_equal]
pub struct SetView<S> {
    /// The streams by their tokens.
    pub streams: Map<usize, StreamState<S>>,
    /// The tokens in the order in which iterators visit them.
    pub order: Seq<usize>,
    /// The tokens of the streams that have been woken, in the order in which they are polled.
    /// `None` stands for a stream that was removed after it had been woken.
    pub ready: Seq<Option<usize>>,
    /// The tokens that have been given back. The last one is handed out first.
    pub reusable: Seq<usize>,
    /// The serial number that the next stream gets.
    pub next_serial: u64,
    /// The end of the set has been announced, and no stream was inserted since.
    pub terminated: bool,
    /// The token of the stream that is being polled.
    pub polling: Option<usize>,
    /// How many polls the running call of `poll_next` has completed.
    pub polled: nat,
}

/// The serial number after `serial`. After the last one they start over.
pub open spec fn next_serial(serial: u64) -> u64 {
    if serial == u64::MAX {
        0
    } else {
        (serial + 1) as u64
    }
}

/// The tokens in `order` but for `token`.
pub open spec fn without(order: Seq<usize>, token: usize) -> Seq<usize> {
    order.remove(order.index_of(token))
}

/// The queue `ready` after the stream with token `token` has been removed from the set.
pub open spec fn forget(ready: Seq<Option<usize>>, token: usize) -> Seq<Option<usize>> {
    Seq::new(
        ready.len(),
        |i: int|
            if ready[i] == Some(token) {
                None
            } else {
                ready[i]
            },
    )
}

impl<S> SetView<S> {
    /// The set without streams.
    pub open spec fn empty() -> Self {
        SetView {
            streams: Map::empty(),
            order: Seq::empty(),
            ready: Seq::empty(),
            reusable: Seq::empty(),
            next_serial: 0,
            terminated: false,
            polling: None,
            polled: 0,
        }
    }

    /// What holds of every set.
    pub open spec fn valid(self) -> bool {
        &&& self.valid_tokens()
        &&& self.valid_order()
        &&& self.valid_ready()
        &&& self.valid_polling()
        &&& self.terminated ==> self.streams.dom().len() == 0
    }

    /// The tokens in use and the reusable ones are those from 1 up to their number.
    pub open spec fn valid_tokens(self) -> bool {
        &&& self.streams.dom().finite()
        &&& self.streams.dom().len() <= MAX_STREAMS
        &&& self.reusable.no_duplicates()
        &&& forall|t: usize|
            #![trigger self.streams.contains_key(t)]
            #![trigger self.reusable.contains(t)]
            !(self.streams.contains_key(t) && self.reusable.contains(t))
        &&& forall|t: usize|
            #![trigger self.streams.contains_key(t)]
            #![trigger self.reusable.contains(t)]
            (self.streams.contains_key(t) || self.reusable.contains(t)) <==> 1 <= t
                <= self.streams.dom().len() + self.reusable.len()
    }

    /// The order lists every stream once, but for the one that is being polled.
    pub open spec fn valid_order(self) -> bool {
        &&& self.order.no_duplicates()
        &&& forall|t: usize|
            #![trigger self.order.contains(t)]
            #![trigger self.streams.contains_key(t)]
            self.order.contains(t) <==> self.streams.contains_key(t) && self.polling != Some(t)
        &&& self.streams.dom().len() == self.order.len() + (if self.polling is Some {
            1int
        } else {
            0
        })
    }

    /// No stream is twice in the queue, those in the queue count as woken, and one that counts as
    /// woken is in the queue unless it has finished.
    pub open spec fn valid_ready(self) -> bool {
        &&& forall|i: int, j: int|
            0 <= i < j < self.ready.len() && self.ready[i] is Some ==> self.ready[i]
                != self.ready[j]
        &&& forall|i: int|
            0 <= i < self.ready.len() ==> (#[trigger] self.ready[i] matches Some(t) ==> {
                &&& self.streams.contains_key(t)
                &&& self.streams[t].queued
            })
        &&& forall|t: usize|
            #[trigger] self.streams.contains_key(t) && !self.streams[t].finished
                && self.streams[t].queued ==> self.ready.contains(Some(t))
    }

    /// A stream that is being polled is in the set and has not finished.
    pub open spec fn valid_polling(self) -> bool {
        match self.polling {
            Some(t) => {
                &&& self.streams.contains_key(t)
                &&& !self.streams[t].finished
                &&& self.polled < YIELD_EVERY
            },
            None => self.polled == 0,
        }
    }

    /// The token that the next stream gets: the one given back last if there is one, and otherwise
    /// the first one that was never handed out.
    pub open spec fn next_token(self) -> usize {
        if self.reusable.len() > 0 {
            self.reusable.last()
        } else {
            (self.streams.dom().len() + 1) as usize
        }
    }

    /// The set with a vacant entry requested, and nothing inserted yet.
    pub open spec fn reserved(self) -> Self {
        SetView { terminated: false, ..self }
    }

    /// The set with one more stream. It is first in the order of iteration, and last in the queue.
    pub open spec fn inserted(self, stream: S) -> Self {
        let token = self.next_token();
        SetView {
            streams: self.streams.insert(
                token,
                StreamState {
                    stream,
                    serial: self.next_serial,
                    finished: false,
                    queued: true,
                },
            ),
            order: seq![token] + self.order,
            ready: self.ready.push(Some(token)),
            reusable: if self.reusable.len() > 0 {
                self.reusable.drop_last()
            } else {
                self.reusable
            },
            next_serial: next_serial(self.next_serial),
            terminated: false,
            ..self
        }
    }

    /// The set with the streams of a sequence inserted one after the other.
    pub open spec fn inserted_all(self, streams: Seq<S>) -> Self
        decreases streams.len(),
    {
        if streams.len() == 0 {
            self
        } else {
            self.inserted_all(streams.drop_last()).inserted(streams.last())
        }
    }

    /// The set without the stream with token `token`.
    pub open spec fn removed(self, token: usize) -> Self {
        SetView {
            streams: self.streams.remove(token),
            order: without(self.order, token),
            ready: forget(self.ready, token),
            reusable: self.reusable.push(token),
            ..self
        }
    }

    /// The set with the stream that is being polled dropped.
    pub open spec fn abandoned(self) -> Self {
        match self.polling {
            Some(token) => SetView {
                streams: self.streams.remove(token),
                ready: forget(self.ready, token),
                reusable: self.reusable.push(token),
                polling: None,
                polled: 0,
                ..self
            },
            None => self,
        }
    }

    /// The set without any stream, each removed in the order of iteration.
    pub open spec fn cleared(self) -> Self {
        SetView {
            streams: Map::empty(),
            order: Seq::empty(),
            ready: Seq::new(self.ready.len(), |i: int| None),
            reusable: self.reusable + self.order,
            ..self
        }
    }

    /// The set with the stream with token `token` replaced by `stream`.
    pub open spec fn with_stream(self, token: usize, stream: S) -> Self {
        SetView {
            streams: self.streams.insert(token, StreamState { stream, ..self.streams[token] }),
            ..self
        }
    }

    /// The wake-ups that `key` stands for are those of a stream of the set.
    pub open spec fn current(self, key: WakeKey) -> bool {
        self.streams.contains_key(key.token) && self.streams[key.token].serial == key.serial
    }

    /// A wake-up of the stream with token `token` puts it into the queue.
    pub open spec fn wakes(self, token: usize) -> bool {
        self.streams.contains_key(token) && !self.streams[token].queued
    }

    /// The set after the stream with token `token` has been woken.
    pub open spec fn woken(self, token: usize) -> Self {
        if self.wakes(token) {
            SetView {
                streams: self.streams.insert(
                    token,
                    StreamState { queued: true, ..self.streams[token] },
                ),
                ready: self.ready.push(Some(token)),
                ..self
            }
        } else {
            self
        }
    }

    /// A queue entry that leads to a poll: neither removed nor finished.
    pub open spec fn pollable(self, entry: Option<usize>) -> bool {
        match entry {
            Some(token) => self.streams.contains_key(token) && !self.streams[token].finished,
            None => false,
        }
    }

    /// The position of the first pollable entry at or after position `from` of the queue, and the
    /// length of the queue if there is none.
    pub open spec fn first_pollable(self, from: nat) -> nat
        decreases self.ready.len() - from,
    {
        if from >= self.ready.len() {
            self.ready.len()
        } else if self.pollable(self.ready[from as int]) {
            from
        } else {
            self.first_pollable(from + 1)
        }
    }

    /// The tokens of the pollable ones among the queue entries `entries`.
    pub open spec fn tokens_of(self, entries: Seq<Option<usize>>) -> Seq<usize>
        decreases entries.len(),
    {
        if entries.len() == 0 {
            Seq::empty()
        } else if self.pollable(entries.last()) {
            self.tokens_of(entries.drop_last()).push(entries.last().unwrap())
        } else {
            self.tokens_of(entries.drop_last())
        }
    }

    /// The tokens of the streams that are waiting to be polled, in the order of their turns.
    pub open spec fn waiting(self) -> Seq<usize> {
        self.tokens_of(self.ready)
    }

    /// The tokens of the streams that have yet to finish.
    pub open spec fn unfinished(self) -> Set<usize> {
        self.streams.dom().filter(|t: usize| !self.streams[t].finished)
    }

    /// The set with the first `n` queue entries dropped.
    pub open spec fn skipped(self, n: nat) -> Self {
        SetView { ready: self.ready.skip(n as int), ..self }
    }

    /// The set with its first queue entry, the stream with token `token`, taken out to be polled.
    pub open spec fn dispatched(self, token: usize) -> Self {
        SetView {
            streams: self.streams.insert(
                token,
                StreamState { queued: false, ..self.streams[token] },
            ),
            order: without(self.order, token),
            ready: self.ready.drop_first(),
            polling: Some(token),
            ..self
        }
    }

    /// The set back at rest: no call of `poll_next` is running.
    pub open spec fn rested(self) -> Self {
        SetView { polling: None, polled: 0, ..self }
    }

    /// The set with the polled stream put back, first in the order of iteration.
    pub open spec fn put_back(self, token: usize) -> Self {
        SetView {
            order: seq![token] + self.order,
            polling: None,
            polled: self.polled + 1,
            ..self
        }
    }

    /// The set with the stream with token `token` marked as finished.
    pub open spec fn finished(self, token: usize) -> Self {
        SetView {
            streams: self.streams.insert(
                token,
                StreamState { finished: true, ..self.streams[token] },
            ),
            ..self
        }
    }

    /// The next thing to do for `poll_next`: poll the first pollable stream of the queue. If there
    /// is none, the set is exhausted if it has no stream, and pending otherwise. A wake-up in
    /// transit makes it pending in any case, and then the caller is to come back at once.
    pub open spec fn next_step<I>(self, in_transit: bool) -> (Self, Step<I>) {
        let n = self.first_pollable(0);
        let rest = self.skipped(n);
        if n < self.ready.len() {
            let token = self.ready[n as int].unwrap();
            (rest.dispatched(token), Step::Poll(token))
        } else if in_transit {
            (rest.rested(), Step::Return(WakeUp::Caller, Readiness::Pending))
        } else if self.order.len() == 0 {
            (
                SetView { terminated: true, ..rest.rested() },
                Step::Return(WakeUp::Nothing, Readiness::Ready(None)),
            )
        } else {
            (rest.rested(), Step::Return(WakeUp::Nothing, Readiness::Pending))
        }
    }

    /// One step of `poll_next`.
    ///
    /// A stream that was pending is put back. After `YIELD_EVERY` of them the call returns, and the
    /// caller is to come back at once; before that it goes on with the next stream. The end of a
    /// stream is announced, and the stream stays in the set. An item is passed on, and its stream
    /// is woken, for it may have more.
    pub open spec fn step<I>(self, event: Event<I>, in_transit: bool) -> (Self, Step<I>) {
        match event {
            Event::Called => self.next_step(in_transit),
            Event::Polled(outcome) => {
                let token = self.polling.unwrap();
                match outcome {
                    Readiness::Pending => {
                        let after = self.put_back(token);
                        if after.polled == YIELD_EVERY {
                            (after.rested(), Step::Return(WakeUp::Caller, Readiness::Pending))
                        } else {
                            after.next_step(in_transit)
                        }
                    },
                    Readiness::Ready(None) => {
                        let finished = StreamYield::Finished(FinishedStream { token });
                        (
                            self.finished(token).put_back(token).rested(),
                            Step::Return(
                                WakeUp::Nothing,
                                Readiness::Ready(Some((finished, token))),
                            ),
                        )
                    },
                    Readiness::Ready(Some(item)) => {
                        let wake_up = if self.wakes(token) {
                            WakeUp::Registered
                        } else {
                            WakeUp::Nothing
                        };
                        (
                            self.woken(token).put_back(token).rested(),
                            Step::Return(
                                wake_up,
                                Readiness::Ready(Some((StreamYield::Item(item), token))),
                            ),
                        )
                    },
                }
            },
        }
    }
}

impl<S> SetView<S> {
    /// The set with the first `n` streams in the order of iteration removed, one after the other.
    pub(crate) open spec fn clearing(self, n: nat) -> Self {
        let gone = self.order.take(n as int);
        SetView {
            streams: Map::new(
                |t: usize| self.streams.contains_key(t) && !gone.contains(t),
                |t: usize| self.streams[t],
            ),
            order: self.order.skip(n as int),
            ready: Seq::new(
                self.ready.len(),
                |i: int|
                    match self.ready[i] {
                        Some(t) => if gone.contains(t) {
                            None
                        } else {
                            Some(t)
                        },
                        None => None,
                    },
            ),
            reusable: self.reusable + gone,
            ..self
        }
    }
}

/// Removing no stream leaves the set as it is, and removing all of them clears it.
pub(crate) proof fn lemma_clearing_ends<S>(set: SetView<S>)
    requires
        set.valid(),
        set.polling is None,
    ensures
        set.clearing(0) == set,
        set.clearing(set.order.len()) == set.cleared(),
{
    assert(set.clearing(0) =~= set);
    let all = set.order.take(set.order.len() as int);
    assert(all =~= set.order);
    let cleared = set.clearing(set.order.len());
    assert forall|t: usize| !cleared.streams.contains_key(t) by {
        assert(set.order.contains(t) <==> set.streams.contains_key(t));
    }
    assert forall|i: int| 0 <= i < set.ready.len() implies cleared.ready[i] is None by {
        if let Some(t) = set.ready[i] {
            assert(set.streams.contains_key(t));
        }
    }
    assert(cleared =~= set.cleared());
}

/// Removing the next stream in the order of iteration.
pub(crate) proof fn lemma_clearing_step<S>(set: SetView<S>, n: nat)
    requires
        set.valid(),
        n < set.order.len(),
    ensures
        set.clearing(n).removed(set.order[n as int]) == set.clearing(n + 1),
{
    let token = set.order[n as int];
    let before = set.clearing(n);
    let after = before.removed(token);
    let expected = set.clearing(n + 1);
    let gone = set.order.take(n as int);
    let now_gone = set.order.take(n as int + 1);
    assert(now_gone =~= gone.push(token));
    assert forall|t: usize| now_gone.contains(t) <==> gone.contains(t) || t == token by {
        assert(now_gone[n as int] == token);
        if gone.contains(t) {
            assert(now_gone[gone.index_of(t)] == t);
        }
        if now_gone.contains(t) && t != token {
            let i = now_gone.index_of(t);
            assert(gone[i] == t);
        }
    }
    assert(before.order[0] == token);
    assert(before.order.contains(token));
    assert(before.order.index_of(token) == 0) by {
        let i = before.order.index_of(token);
        assert(before.order[i] == token);
        assert(set.order[n + i] == token);
    }
    assert(after.order =~= expected.order);
    assert(after.streams =~= expected.streams);
    assert(after.ready =~= expected.ready);
    assert(after.reusable =~= expected.reusable);
}

} // verus!
