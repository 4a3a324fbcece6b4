//! What can happen to a set over time.
use vstd::prelude::*;

use crate::model::{forget, without, SetView};
use crate::rep::lemma_remove_contains;
use crate::slots::MAX_STREAMS;
use crate::step::{Event, Readiness, Step, YIELD_EVERY};
use crate::yielded::{FinishedStream, StreamYield};

verus! {

/// One operation on a set.
pub enum Action<S, I> {
    /// `stream_entry`, with the entry dropped.
    Reserve,
    /// `insert` of a stream.
    Insert(S),
    /// `remove` or `take` of the stream with this token.
    Remove(usize),
    /// A change of the stream with this token through a mutable reference.
    Replace(usize, S),
    /// A wake-up of the stream with this token.
    Wake(usize),
    /// A step of `poll_next`, and whether a wake-up is in transit.
    Step(Event<I>, bool),
    /// `abandon` of the poll that is going on.
    Abandon,
}

impl<S> SetView<S> {
    /// The operation can be carried out now.
    pub open spec fn allows<I>(self, action: Action<S, I>) -> bool {
        match action {
            Action::Reserve => self.polling is None,
            Action::Insert(_) => self.polling is None && self.streams.dom().len() < MAX_STREAMS,
            Action::Remove(token) => self.polling is None && self.streams.contains_key(token),
            Action::Replace(token, _) => self.streams.contains_key(token),
            Action::Wake(_) => true,
            Action::Step(event, _) => event is Polled <==> self.polling is Some,
            Action::Abandon => true,
        }
    }

    /// The set after the operation, and the token of the stream that it asks to be polled.
    pub open spec fn act<I>(self, action: Action<S, I>) -> (Self, Option<usize>) {
        match action {
            Action::Reserve => (self.reserved(), None),
            Action::Insert(stream) => (self.inserted(stream), None),
            Action::Remove(token) => (self.removed(token), None),
            Action::Replace(token, stream) => (self.with_stream(token, stream), None),
            Action::Wake(token) => (self.woken(token), None),
            Action::Step(event, in_transit) => {
                let (after, step) = self.step(event, in_transit);
                (
                    after,
                    match step {
                        Step::Poll(token) => Some(token),
                        Step::Return(_, _) => None,
                    },
                )
            },
            Action::Abandon => (self.abandoned(), None),
        }
    }

    /// The set after the operations, one after the other.
    pub open spec fn after<I>(self, actions: Seq<Action<S, I>>) -> Self
        decreases actions.len(),
    {
        if actions.len() == 0 {
            self
        } else {
            self.after(actions.drop_last()).act(actions.last()).0
        }
    }

    /// The tokens of the streams that the operations ask to be polled, in that order.
    pub open spec fn polls<I>(self, actions: Seq<Action<S, I>>) -> Seq<usize>
        decreases actions.len(),
    {
        if actions.len() == 0 {
            Seq::empty()
        } else {
            let earlier = self.polls(actions.drop_last());
            match self.after(actions.drop_last()).act(actions.last()).1 {
                Some(token) => earlier.push(token),
                None => earlier,
            }
        }
    }

    /// Each of the operations can be carried out when its turn comes.
    pub open spec fn allows_all<I>(self, actions: Seq<Action<S, I>>) -> bool
        decreases actions.len(),
    {
        actions.len() == 0 || (self.allows_all(actions.drop_last()) && self.after(
            actions.drop_last(),
        ).allows(actions.last()))
    }
}

impl<S> SetView<S> {
    /// The operation takes the stream with token `token` out of the set.
    pub open spec fn takes_out<I>(self, action: Action<S, I>, token: usize) -> bool {
        match action {
            Action::Remove(t) => t == token,
            Action::Abandon => self.polling == Some(token),
            _ => false,
        }
    }

    /// None of the operations takes the stream with token `token` out of the set.
    pub open spec fn stays<I>(self, actions: Seq<Action<S, I>>, token: usize) -> bool
        decreases actions.len(),
    {
        actions.len() == 0 || (self.stays(actions.drop_last(), token) && !self.after(
            actions.drop_last(),
        ).takes_out(actions.last(), token))
    }

    /// What the calls of `poll_next` among the operations yield, with the tokens that it comes
    /// with, in that order.
    pub open spec fn results<I>(self, actions: Seq<Action<S, I>>) -> Seq<(StreamYield<I>, usize)>
        decreases actions.len(),
    {
        if actions.len() == 0 {
            Seq::empty()
        } else {
            let earlier = self.results(actions.drop_last());
            match actions.last() {
                Action::Step(event, in_transit) => match self.after(actions.drop_last()).step(
                    event,
                    in_transit,
                ).1 {
                    Step::Return(_, Readiness::Ready(Some(result))) => earlier.push(result),
                    _ => earlier,
                },
                _ => earlier,
            }
        }
    }

    /// What the streams that are polled return when they are ready, an item or their end, with
    /// their tokens, in that order.
    pub open spec fn outcomes<I>(self, actions: Seq<Action<S, I>>) -> Seq<(Option<I>, usize)>
        decreases actions.len(),
    {
        if actions.len() == 0 {
            Seq::empty()
        } else {
            let earlier = self.outcomes(actions.drop_last());
            match (self.after(actions.drop_last()).polling, actions.last()) {
                (Some(token), Action::Step(Event::Polled(Readiness::Ready(outcome)), _)) =>
                    earlier.push((outcome, token)),
                _ => earlier,
            }
        }
    }

    /// The stream that token `token` names after the operations: the last one that was inserted
    /// under the token or has replaced it there, unless it was taken out since.
    pub open spec fn named<I>(self, actions: Seq<Action<S, I>>, token: usize) -> Option<S>
        decreases actions.len(),
    {
        if actions.len() == 0 {
            if self.streams.contains_key(token) {
                Some(self.streams[token].stream)
            } else {
                None
            }
        } else {
            let before = self.after(actions.drop_last());
            let earlier = self.named(actions.drop_last(), token);
            match actions.last() {
                Action::Insert(stream) => if before.next_token() == token {
                    Some(stream)
                } else {
                    earlier
                },
                Action::Replace(t, stream) => if t == token {
                    Some(stream)
                } else {
                    earlier
                },
                action => if before.takes_out(action, token) {
                    None
                } else {
                    earlier
                },
            }
        }
    }

    /// Whether the stream that token `token` names after the operations has returned its end from
    /// a poll.
    pub open spec fn ended<I>(self, actions: Seq<Action<S, I>>, token: usize) -> bool
        decreases actions.len(),
    {
        if actions.len() == 0 {
            self.streams[token].finished
        } else {
            let before = self.after(actions.drop_last());
            let earlier = self.ended(actions.drop_last(), token);
            match actions.last() {
                Action::Insert(_) => earlier && before.next_token() != token,
                Action::Step(Event::Polled(Readiness::Ready(None)), _) => earlier || before.polling
                    == Some(token),
                _ => earlier,
            }
        }
    }

    /// How many streams there are after the operations, counted by those that came and those that
    /// went.
    pub open spec fn count<I>(self, actions: Seq<Action<S, I>>) -> int
        decreases actions.len(),
    {
        if actions.len() == 0 {
            self.streams.dom().len() as int
        } else {
            let earlier = self.count(actions.drop_last());
            match actions.last() {
                Action::Insert(_) => earlier + 1,
                Action::Remove(_) => earlier - 1,
                Action::Abandon => if self.after(actions.drop_last()).polling is Some {
                    earlier - 1
                } else {
                    earlier
                },
                _ => earlier,
            }
        }
    }
}

/// How many of the operations are insertions.
pub open spec fn insertions<S, I>(actions: Seq<Action<S, I>>) -> nat
    decreases actions.len(),
{
    if actions.len() == 0 {
        0
    } else if actions.last() is Insert {
        insertions(actions.drop_last()) + 1
    } else {
        insertions(actions.drop_last())
    }
}

/// The members of the sequence that come with token `token`.
pub open spec fn of_token<T>(all: Seq<(T, usize)>, token: usize) -> Seq<T>
    decreases all.len(),
{
    if all.len() == 0 {
        Seq::empty()
    } else if all.last().1 == token {
        of_token(all.drop_last(), token).push(all.last().0)
    } else {
        of_token(all.drop_last(), token)
    }
}

/// What `poll_next` yields for what a stream with token `token` returned.
pub open spec fn yield_of<I>(outcome: Option<I>, token: usize) -> StreamYield<I> {
    match outcome {
        Some(item) => StreamYield::Item(item),
        None => StreamYield::Finished(FinishedStream { token }),
    }
}

/// The first pollable entry of the queue at or after position `from`.
pub(crate) proof fn lemma_first_pollable<S>(set: SetView<S>, from: nat)
    requires
        from <= set.ready.len(),
    ensures
        from <= set.first_pollable(from) <= set.ready.len(),
        forall|i: int|
            from <= i < set.first_pollable(from) ==> !set.pollable(#[trigger] set.ready[i]),
        set.first_pollable(from) < set.ready.len() ==> set.pollable(
            set.ready[set.first_pollable(from) as int],
        ),
    decreases set.ready.len() - from,
{
    if from < set.ready.len() && !set.pollable(set.ready[from as int]) {
        lemma_first_pollable(set, from + 1);
    }
}

/// The number of streams does not change where one is replaced.
proof fn lemma_same_dom<S>(set: SetView<S>, token: usize, after: SetView<S>)
    requires
        set.streams.contains_key(token),
        after.streams == set.streams.insert(token, after.streams[token]),
    ensures
        after.streams.dom() == set.streams.dom(),
{
    assert(after.streams.dom() =~= set.streams.dom());
}

proof fn lemma_inserted_valid<S>(set: SetView<S>, stream: S)
    requires
        set.valid(),
        set.polling is None,
        set.streams.dom().len() < MAX_STREAMS,
    ensures
        !set.streams.contains_key(set.next_token()),
        set.next_token() != 0,
        set.inserted(stream).valid(),
{
    let token = set.next_token();
    let after = set.inserted(stream);
    assert(after.streams.dom() =~= set.streams.dom().insert(token));
    if set.reusable.len() > 0 {
        assert(set.reusable.contains(token));
        assert forall|t: usize| after.reusable.contains(t) <==> set.reusable.contains(t) && t
            != token by {
            if set.reusable.contains(t) && t != token {
                assert(after.reusable[set.reusable.index_of(t)] == t);
            }
            if after.reusable.contains(t) {
                let i = after.reusable.index_of(t);
                assert(set.reusable[i] == t);
                assert(set.reusable[set.reusable.len() - 1] == token);
            }
        }
    } else {
        assert(!set.reusable.contains(token));
        assert(!set.streams.contains_key(token));
        assert forall|t: usize|
            #![trigger after.streams.contains_key(t)]
            #![trigger after.reusable.contains(t)]
            (after.streams.contains_key(t) || after.reusable.contains(t)) <==> 1 <= t
                <= after.streams.dom().len() + after.reusable.len() by {
            assert(!set.reusable.contains(t));
            assert((set.streams.contains_key(t) || set.reusable.contains(t)) <==> 1 <= t
                <= set.streams.dom().len() + set.reusable.len());
        }
    }
    assert(!set.order.contains(token));
    lemma_prepended(set.order, token);
    assert forall|i: int, j: int|
        0 <= i < j < after.ready.len() && after.ready[i] is Some implies after.ready[i]
        != after.ready[j] by {
        assert(after.ready[i] == set.ready[i]);
        if j < set.ready.len() {
            assert(after.ready[j] == set.ready[j]);
        }
    }
    assert forall|i: int|
        0 <= i < after.ready.len() implies (#[trigger] after.ready[i] matches Some(t) ==> {
        &&& after.streams.contains_key(t)
        &&& after.streams[t].queued
    }) by {
        if i < set.ready.len() {
            assert(after.ready[i] == set.ready[i]);
        }
    }
    assert forall|t: usize|
        #[trigger] after.streams.contains_key(t) && !after.streams[t].finished
            && after.streams[t].queued implies after.ready.contains(Some(t)) by {
        if t == token {
            assert(after.ready[set.ready.len() as int] == Some(token));
        } else {
            assert(set.streams.contains_key(t));
            assert(after.ready[set.ready.index_of(Some(t))] == Some(t));
        }
    }
}

/// Putting a new value in front of a sequence.
proof fn lemma_prepended(s: Seq<usize>, v: usize)
    requires
        s.no_duplicates(),
        !s.contains(v),
    ensures
        (seq![v] + s).no_duplicates(),
        forall|t: usize|
            #[trigger] (seq![v] + s).contains(t) <==> s.contains(t) || t == v,
{
    let r = seq![v] + s;
    assert forall|t: usize| #[trigger] r.contains(t) <==> s.contains(t) || t == v by {
        assert(r[0] == v);
        if s.contains(t) {
            assert(r[s.index_of(t) + 1] == t);
        }
        if r.contains(t) && t != v {
            assert(s[r.index_of(t) - 1] == t);
        }
    }
    assert forall|i: int, j: int| 0 <= i < r.len() && 0 <= j < r.len() && i != j implies r[i]
        != r[j] by {
        if i > 0 {
            assert(s.contains(s[i - 1]));
        }
        if j > 0 {
            assert(s.contains(s[j - 1]));
        }
    }
}

/// Taking a value out of a sequence.
proof fn lemma_without(s: Seq<usize>, v: usize)
    requires
        s.no_duplicates(),
        s.contains(v),
    ensures
        without(s, v).no_duplicates(),
        without(s, v).len() == s.len() - 1,
        forall|t: usize|
            #[trigger] without(s, v).contains(t) <==> s.contains(t) && t != v,
{
    assert forall|t: usize|
        #[trigger] without(s, v).contains(t) <==> s.contains(t) && t != v by {
        lemma_remove_contains(s, v, t);
    }
}

/// Giving up the token of a stream, which is not in the order any more.
proof fn lemma_gone_valid<S>(set: SetView<S>, token: usize, after: SetView<S>)
    requires
        set.valid(),
        set.streams.contains_key(token),
        after.streams == set.streams.remove(token),
        after.ready == forget(set.ready, token),
        after.reusable == set.reusable.push(token),
        after.terminated == set.terminated,
    ensures
        after.streams.dom().len() == set.streams.dom().len() - 1,
        after.valid_tokens(),
        after.valid_ready(),
        after.terminated ==> after.streams.dom().len() == 0,
{
    assert(after.streams.dom() =~= set.streams.dom().remove(token));
    assert(!set.reusable.contains(token));
    assert forall|t: usize| after.reusable.contains(t) <==> set.reusable.contains(t) || t
        == token by {
        assert(after.reusable[set.reusable.len() as int] == token);
        if set.reusable.contains(t) {
            assert(after.reusable[set.reusable.index_of(t)] == t);
        }
    }
    assert forall|i: int, j: int|
        0 <= i < j < after.ready.len() && after.ready[i] is Some implies after.ready[i]
        != after.ready[j] by {
        assert(set.ready[i] is Some);
    }
    assert forall|i: int|
        0 <= i < after.ready.len() implies (#[trigger] after.ready[i] matches Some(t) ==> {
        &&& after.streams.contains_key(t)
        &&& after.streams[t].queued
    }) by {
        assert(set.ready[i] is Some ==> set.streams.contains_key(set.ready[i].unwrap()));
    }
    assert forall|t: usize|
        #[trigger] after.streams.contains_key(t) && !after.streams[t].finished
            && after.streams[t].queued implies after.ready.contains(Some(t)) by {
        assert(set.streams.contains_key(t));
        assert(after.ready[set.ready.index_of(Some(t))] == Some(t));
    }
}

proof fn lemma_removed_valid<S>(set: SetView<S>, token: usize)
    requires
        set.valid(),
        set.polling is None,
        set.streams.contains_key(token),
    ensures
        set.removed(token).valid(),
{
    assert(set.order.contains(token));
    lemma_gone_valid(set, token, set.removed(token));
    lemma_without(set.order, token);
}

proof fn lemma_abandoned_valid<S>(set: SetView<S>)
    requires
        set.valid(),
    ensures
        set.abandoned().valid(),
{
    if let Some(token) = set.polling {
        lemma_gone_valid(set, token, set.abandoned());
        assert forall|t: usize|
            #![trigger set.abandoned().order.contains(t)]
            #![trigger set.abandoned().streams.contains_key(t)]
            set.abandoned().order.contains(t) <==> set.abandoned().streams.contains_key(t) by {
            assert(set.order.contains(t) <==> set.streams.contains_key(t) && t != token);
        }
    }
}

proof fn lemma_replaced_valid<S>(set: SetView<S>, token: usize, stream: S)
    requires
        set.valid(),
        set.streams.contains_key(token),
    ensures
        set.with_stream(token, stream).valid(),
{
    let after = set.with_stream(token, stream);
    lemma_same_dom(set, token, after);
    assert forall|t: usize| #[trigger]
        after.streams.contains_key(t) <==> set.streams.contains_key(t) by {}
    assert(after.valid_tokens());
    assert(after.valid_order());
    assert(after.valid_ready());
}

/// Waking a stream keeps what holds of sets, whether or not a call of `poll_next` is running.
proof fn lemma_woken_ok<S>(set: SetView<S>, token: usize)
    requires
        set.valid_tokens(),
        set.valid_order(),
        set.valid_ready(),
        set.terminated ==> set.streams.dom().len() == 0,
    ensures
        set.woken(token).streams.dom() == set.streams.dom(),
        set.woken(token).valid_tokens(),
        set.woken(token).valid_order(),
        set.woken(token).valid_ready(),
{
    if set.wakes(token) {
        let after = set.woken(token);
        lemma_same_dom(set, token, after);
        assert forall|t: usize| #[trigger]
            after.streams.contains_key(t) <==> set.streams.contains_key(t) by {}
        assert forall|i: int, j: int|
            0 <= i < j < after.ready.len() && after.ready[i] is Some implies after.ready[i]
            != after.ready[j] by {
            assert(after.ready[i] == set.ready[i]);
            if j < set.ready.len() {
                assert(after.ready[j] == set.ready[j]);
            } else {
                assert(set.streams[set.ready[i].unwrap()].queued);
            }
        }
        assert forall|i: int|
            0 <= i < after.ready.len() implies (#[trigger] after.ready[i] matches Some(t) ==> {
            &&& after.streams.contains_key(t)
            &&& after.streams[t].queued
        }) by {
            if i < set.ready.len() {
                assert(after.ready[i] == set.ready[i]);
            }
        }
        assert forall|t: usize|
            #[trigger] after.streams.contains_key(t) && !after.streams[t].finished
                && after.streams[t].queued implies after.ready.contains(Some(t)) by {
            if t == token {
                assert(after.ready[set.ready.len() as int] == Some(token));
            } else {
                assert(set.streams.contains_key(t));
                assert(after.ready[set.ready.index_of(Some(t))] == Some(t));
            }
        }
    }
}

/// A valid set, but for the number of completed polls, with nothing being polled.
pub(crate) open spec fn between_polls<S>(set: SetView<S>) -> bool {
    &&& set.valid_tokens()
    &&& set.valid_order()
    &&& set.valid_ready()
    &&& set.polling is None
    &&& set.polled < YIELD_EVERY
    &&& set.terminated ==> set.streams.dom().len() == 0
}

/// Going on to the next stream keeps what holds of sets.
pub(crate) proof fn lemma_next_step_valid<S, I>(set: SetView<S>, in_transit: bool)
    requires
        between_polls(set),
    ensures
        set.next_step::<I>(in_transit).0.valid(),
{
    lemma_first_pollable(set, 0);
    let n = set.first_pollable(0);
    let rest = set.skipped(n);
    assert forall|i: int| 0 <= i < rest.ready.len() implies #[trigger] rest.ready[i]
        == set.ready[n + i] by {}
    assert forall|t: usize|
        #[trigger] set.streams.contains_key(t) && !set.streams[t].finished
            && set.streams[t].queued implies rest.ready.contains(Some(t)) by {
        let i = set.ready.index_of(Some(t));
        assert(set.ready[i] == Some(t));
        assert(set.pollable(set.ready[i]));
        assert(rest.ready[i - n] == Some(t));
    }
    assert(rest.valid_ready());
    assert(rest.valid_tokens());
    assert(rest.valid_order());
    if n < set.ready.len() {
        let token = set.ready[n as int].unwrap();
        let after = rest.dispatched(token);
        lemma_same_dom(rest, token, after);
        assert(rest.ready[0] == Some(token));
        assert(set.order.contains(token));
        lemma_without(set.order, token);
        assert forall|t: usize| #[trigger]
            after.streams.contains_key(t) <==> set.streams.contains_key(t) by {}
        assert(after.valid_tokens());
        assert forall|t: usize|
            #![trigger after.order.contains(t)]
            #![trigger after.streams.contains_key(t)]
            after.order.contains(t) <==> after.streams.contains_key(t) && after.polling != Some(
                t,
            ) by {
            assert(set.order.contains(t) <==> set.streams.contains_key(t));
        }
        assert forall|i: int| 0 <= i < after.ready.len() implies #[trigger] after.ready[i]
            == rest.ready[i + 1] by {}
        assert forall|i: int|
            0 <= i < after.ready.len() implies (#[trigger] after.ready[i] matches Some(t) ==> {
            &&& after.streams.contains_key(t)
            &&& after.streams[t].queued
        }) by {
            assert(rest.ready[0] != rest.ready[i + 1]);
        }
        assert forall|t: usize|
            #[trigger] after.streams.contains_key(t) && !after.streams[t].finished
                && after.streams[t].queued implies after.ready.contains(Some(t)) by {
            assert(set.streams.contains_key(t));
            let i = rest.ready.index_of(Some(t));
            assert(rest.ready[i] == Some(t));
            assert(after.ready[i - 1] == Some(t));
        }
        assert(after.valid_ready());
    }
}

/// A polled stream that is put back is between polls again.
pub(crate) proof fn lemma_put_back_ok<S>(set: SetView<S>, token: usize)
    requires
        set.valid_tokens(),
        set.valid_order(),
        set.valid_ready(),
        set.polling == Some(token),
        set.streams.contains_key(token),
        set.terminated ==> set.streams.dom().len() == 0,
    ensures
        set.put_back(token).valid_tokens(),
        set.put_back(token).valid_order(),
        set.put_back(token).valid_ready(),
{
    assert(!set.order.contains(token));
    lemma_prepended(set.order, token);
    let after = set.put_back(token);
    assert forall|t: usize|
        #![trigger after.order.contains(t)]
        #![trigger after.streams.contains_key(t)]
        after.order.contains(t) <==> after.streams.contains_key(t) && after.polling != Some(t) by {
        assert(set.order.contains(t) <==> set.streams.contains_key(t) && t != token);
    }
}

/// Each operation keeps what holds of sets.
pub(crate) proof fn lemma_act_valid<S, I>(set: SetView<S>, action: Action<S, I>)
    requires
        set.valid(),
        set.allows(action),
    ensures
        set.act(action).0.valid(),
{
    match action {
        Action::Reserve => {
            let after = set.reserved();
            assert(after.valid_tokens());
            assert(after.valid_order());
            assert(after.valid_ready());
        },
        Action::Insert(stream) => lemma_inserted_valid(set, stream),
        Action::Remove(token) => lemma_removed_valid(set, token),
        Action::Replace(token, stream) => lemma_replaced_valid(set, token, stream),
        Action::Wake(token) => lemma_woken_ok(set, token),
        Action::Step(event, in_transit) => lemma_step_valid(set, event, in_transit),
        Action::Abandon => lemma_abandoned_valid(set),
    }
}

proof fn lemma_step_valid<S, I>(set: SetView<S>, event: Event<I>, in_transit: bool)
    requires
        set.valid(),
        event is Polled <==> set.polling is Some,
    ensures
        set.step(event, in_transit).0.valid(),
{
    match event {
        Event::Called => lemma_next_step_valid::<S, I>(set, in_transit),
        Event::Polled(outcome) => {
            let token = set.polling.unwrap();
            match outcome {
                Readiness::Pending => {
                    lemma_put_back_ok(set, token);
                    let after = set.put_back(token);
                    if after.polled != YIELD_EVERY {
                        lemma_next_step_valid::<S, I>(after, in_transit);
                    }
                },
                Readiness::Ready(None) => {
                    let finished = set.finished(token);
                    lemma_same_dom(set, token, finished);
                    assert forall|t: usize| #[trigger]
                        finished.streams.contains_key(t) <==> set.streams.contains_key(t) by {}
                    lemma_put_back_ok(finished, token);
                },
                Readiness::Ready(Some(_)) => {
                    lemma_woken_ok(set, token);
                    lemma_put_back_ok(set.woken(token), token);
                },
            }
        },
    }
}

} // verus!
