//! The streams of a set take turns.
use vstd::prelude::*;

use crate::history::{
    between_polls, lemma_act_valid, lemma_first_pollable, lemma_put_back_ok, Action,
};
use crate::laws::{law_insert, law_validity_is_kept};
use crate::model::SetView;
use crate::step::{Event, Readiness, Step, YIELD_EVERY};
use crate::yielded::StreamYield;

verus! {

/// No stream is starved. A stream that is waiting to be polled, with `position` others whose turns
/// come before, is among those polled once that many and one more have been polled, whatever else
/// happens in the meantime, unless it is removed.
pub proof fn law_no_starvation<S, I>(
    set: SetView<S>,
    actions: Seq<Action<S, I>>,
    token: usize,
    position: int,
)
    requires
        set.valid(),
        set.allows_all(actions),
        set.polling != Some(token),
        0 <= position < set.waiting().len(),
        set.waiting()[position] == token,
        forall|i: int| 0 <= i < actions.len() ==> #[trigger] actions[i] != Action::<S, I>::Remove(
            token,
        ),
    ensures
        set.polls(actions).len() > position ==> set.polls(actions).contains(token),
{
    let at = lemma_turn(set, set.ready, position);
    assert(waits_at(set, token, at));
    lemma_moves_up(set, actions, token, at);
}

/// Calls of `poll_next`, in each of which the stream that is polled has an item at once. The
/// second members say whether a wake-up is in transit.
pub open spec fn serving<S, I>(calls: Seq<(I, bool)>) -> Seq<Action<S, I>>
    decreases calls.len(),
{
    if calls.len() == 0 {
        Seq::empty()
    } else {
        let (item, in_transit) = calls.last();
        serving(calls.drop_last()).push(Action::Step(Event::Called, in_transit)).push(
            Action::Step(Event::Polled(Readiness::Ready(Some(item))), in_transit),
        )
    }
}

/// Streams that have items at once take turns: each call yields the item of the stream that has
/// waited longest, and that stream goes to the end of those that wait.
pub proof fn law_turns<S, I>(set: SetView<S>, calls: Seq<(I, bool)>)
    requires
        set.valid(),
        set.polling is None,
        calls.len() <= set.waiting().len(),
    ensures
        ({
            let n = calls.len() as int;
            let after = set.after(serving(calls));
            &&& set.allows_all(serving(calls))
            &&& set.polls(serving(calls)) == set.waiting().take(n)
            &&& set.results(serving(calls)) == Seq::new(
                calls.len(),
                |i: int| (StreamYield::Item(calls[i].0), set.waiting()[i]),
            )
            &&& after.valid()
            &&& after.polling is None
            &&& after.waiting() == set.waiting().skip(n) + set.waiting().take(n)
            &&& forall|t: usize| #[trigger]
                after.streams.contains_key(t) <==> set.streams.contains_key(t)
            &&& forall|t: usize| #[trigger]
                set.streams.contains_key(t) ==> after.streams[t].finished
                    == set.streams[t].finished
        }),
    decreases calls.len(),
{
    let n = calls.len() as int;
    let waiting = set.waiting();
    if calls.len() == 0 {
        assert(waiting.skip(0) + waiting.take(0) =~= waiting);
        assert(set.polls(serving::<S, I>(calls)) =~= waiting.take(0));
        assert(set.results(serving(calls)) =~= Seq::new(
            calls.len(),
            |i: int| (StreamYield::Item(calls[i].0), waiting[i]),
        ));
    } else {
        let (item, in_transit) = calls.last();
        let earlier = serving::<S, I>(calls.drop_last());
        law_turns(set, calls.drop_last());
        let before = set.after(earlier);
        assert(before.waiting()[0] == waiting[n - 1]);
        lemma_one_call(before, item, in_transit);
        lemma_call_added(set, earlier, item, in_transit);
        assert(set.polls(serving(calls)) =~= waiting.take(n));
        assert(set.results(serving(calls)) =~= Seq::new(
            calls.len(),
            |i: int| (StreamYield::Item(calls[i].0), waiting[i]),
        ));
        assert(set.after(serving(calls)).waiting() =~= waiting.skip(n) + waiting.take(n));
    }
}

/// A history with one more call, in which the stream that is polled has an item at once.
proof fn lemma_call_added<S, I>(
    set: SetView<S>,
    earlier: Seq<Action<S, I>>,
    item: I,
    in_transit: bool,
)
    requires
        set.allows_all(earlier),
        set.after(earlier).valid(),
        set.after(earlier).polling is None,
        set.after(earlier).waiting().len() > 0,
    ensures
        ({
            let before = set.after(earlier);
            let token = before.waiting()[0];
            let polled: Event<I> = Event::Polled(Readiness::Ready(Some(item)));
            let during = before.step::<I>(Event::Called, in_transit).0;
            let actions = earlier.push(Action::Step(Event::Called, in_transit)).push(
                Action::Step(polled, in_transit),
            );
            &&& set.allows_all(actions)
            &&& set.after(actions) == during.step(polled, in_transit).0
            &&& set.polls(actions) == set.polls(earlier).push(token)
            &&& set.results(actions) == set.results(earlier).push((StreamYield::Item(item), token))
        }),
{
    let before = set.after(earlier);
    let polled: Event<I> = Event::Polled(Readiness::Ready(Some(item)));
    lemma_one_call(before, item, in_transit);
    let first: Action<S, I> = Action::Step(Event::Called, in_transit);
    let second: Action<S, I> = Action::Step(polled, in_transit);
    let called = earlier.push(first);
    let actions = called.push(second);
    assert(called.drop_last() =~= earlier && called.last() == first);
    assert(actions.drop_last() =~= called && actions.last() == second);
    assert(set.after(called) == before.step::<I>(Event::Called, in_transit).0);
    assert(set.allows_all(called));
    assert(set.polls(called) == set.polls(earlier).push(before.waiting()[0]));
    assert(set.results(called) == set.results(earlier));
}

/// Where every stream that has yet to finish is waiting, and has items at once, as many calls as
/// there are such streams yield one item of each of them. Then the same streams are waiting in the
/// same order again.
pub proof fn law_rotation<S, I>(set: SetView<S>, calls: Seq<(I, bool)>)
    requires
        set.valid(),
        set.polling is None,
        forall|t: usize|
            #[trigger] set.streams.contains_key(t) && !set.streams[t].finished
                ==> set.streams[t].queued,
        calls.len() == set.unfinished().len(),
    ensures
        ({
            let served = set.polls(serving(calls));
            let after = set.after(serving(calls));
            &&& set.allows_all(serving(calls))
            &&& served.no_duplicates()
            &&& served.to_set() == set.unfinished()
            &&& set.results(serving(calls)) == Seq::new(
                calls.len(),
                |i: int| (StreamYield::Item(calls[i].0), served[i]),
            )
            &&& served == set.waiting()
            &&& after.waiting() == set.waiting()
            &&& after.unfinished() == set.unfinished()
        }),
{
    let waiting = set.waiting();
    law_waiting(set);
    assert forall|t: usize| waiting.to_set().contains(t) <==> set.unfinished().contains(t) by {
        assert(set.streams.contains_key(t) <==> set.streams.dom().contains(t));
    }
    assert(waiting.to_set() =~= set.unfinished());
    waiting.unique_seq_to_set();
    law_turns(set, calls);
    let n = calls.len() as int;
    assert(waiting.take(n) =~= waiting);
    assert(waiting.skip(n) + waiting.take(n) =~= waiting);
    let after = set.after(serving::<S, I>(calls));
    assert forall|t: usize| after.unfinished().contains(t) <==> set.unfinished().contains(t) by {
        assert(after.streams.contains_key(t) <==> set.streams.contains_key(t));
    }
    assert(after.unfinished() =~= set.unfinished());
    assert(set.results(serving(calls)) =~= Seq::new(
        calls.len(),
        |i: int| (StreamYield::Item(calls[i].0), set.polls(serving::<S, I>(calls))[i]),
    ));
}

/// A stream is waiting to be polled exactly if it has been woken and has yet to finish, and no
/// stream is waiting twice.
pub proof fn law_waiting<S>(set: SetView<S>)
    requires
        set.valid(),
    ensures
        set.waiting().no_duplicates(),
        forall|t: usize|
            set.waiting().contains(t) <==> #[trigger] set.streams.contains_key(t)
                && !set.streams[t].finished && set.streams[t].queued,
{
    lemma_tokens_of(set, set.ready);
    assert forall|t: usize|
        set.waiting().contains(t) <==> #[trigger] set.streams.contains_key(t)
            && !set.streams[t].finished && set.streams[t].queued by {
        assert(set.waiting().contains(t) <==> set.ready.contains(Some(t)) && set.pollable(
            Some(t),
        ));
    }
}

/// The tokens of queue entries are those of the pollable ones, each once if the entries are.
proof fn lemma_tokens_of<S>(set: SetView<S>, entries: Seq<Option<usize>>)
    requires
        forall|i: int, j: int|
            0 <= i < j < entries.len() && entries[i] is Some ==> entries[i] != entries[j],
    ensures
        set.tokens_of(entries).no_duplicates(),
        forall|t: usize| #[trigger]
            set.tokens_of(entries).contains(t) <==> entries.contains(Some(t)) && set.pollable(
                Some(t),
            ),
    decreases entries.len(),
{
    if entries.len() > 0 {
        let earlier = entries.drop_last();
        let last = entries.last();
        let tokens = set.tokens_of(entries);
        let fewer = set.tokens_of(earlier);
        lemma_tokens_of(set, earlier);
        assert forall|e: Option<usize>| entries.contains(e) <==> earlier.contains(e) || e
            == last by {
            assert(entries[entries.len() - 1] == last);
            if earlier.contains(e) {
                assert(entries[earlier.index_of(e)] == e);
            }
            if entries.contains(e) && e != last {
                assert(earlier[entries.index_of(e)] == e);
            }
        }
        if set.pollable(last) {
            let token = last.unwrap();
            assert(!fewer.contains(token)) by {
                if earlier.contains(last) {
                    assert(entries[earlier.index_of(last)] == last);
                }
            }
            assert forall|t: usize| tokens.contains(t) <==> fewer.contains(t) || t == token by {
                assert(tokens[fewer.len() as int] == token);
                if fewer.contains(t) {
                    assert(tokens[fewer.index_of(t)] == t);
                }
            }
        }
    }
}

/// The tokens of entries put together.
proof fn lemma_tokens_together<S>(
    set: SetView<S>,
    front: Seq<Option<usize>>,
    back: Seq<Option<usize>>,
)
    ensures
        set.tokens_of(front + back) == set.tokens_of(front) + set.tokens_of(back),
    decreases back.len(),
{
    if back.len() == 0 {
        assert(front + back =~= front);
        assert(set.tokens_of(front) + set.tokens_of(back) =~= set.tokens_of(front));
    } else {
        assert((front + back).drop_last() =~= front + back.drop_last());
        lemma_tokens_together(set, front, back.drop_last());
        assert(set.tokens_of(front + back) =~= set.tokens_of(front) + set.tokens_of(back));
    }
}

/// Entries none of which is pollable have no tokens.
proof fn lemma_no_tokens<S>(set: SetView<S>, entries: Seq<Option<usize>>)
    requires
        forall|i: int| 0 <= i < entries.len() ==> !set.pollable(#[trigger] entries[i]),
    ensures
        set.tokens_of(entries).len() == 0,
    decreases entries.len(),
{
    if entries.len() > 0 {
        assert(!set.pollable(entries[entries.len() - 1]));
        assert forall|i: int| 0 <= i < entries.drop_last().len() implies !set.pollable(
            #[trigger] entries.drop_last()[i],
        ) by {
            assert(entries.drop_last()[i] == entries[i]);
        }
        lemma_no_tokens(set, entries.drop_last());
    }
}

/// The same entries of two sets have the same tokens, if the same ones are pollable.
proof fn lemma_same_tokens<S>(set: SetView<S>, other: SetView<S>, entries: Seq<Option<usize>>)
    requires
        forall|i: int|
            0 <= i < entries.len() ==> set.pollable(#[trigger] entries[i]) == other.pollable(
                entries[i],
            ),
    ensures
        set.tokens_of(entries) == other.tokens_of(entries),
    decreases entries.len(),
{
    if entries.len() > 0 {
        assert(set.pollable(entries[entries.len() - 1]) == other.pollable(
            entries[entries.len() - 1],
        ));
        assert forall|i: int| 0 <= i < entries.drop_last().len() implies set.pollable(
            #[trigger] entries.drop_last()[i],
        ) == other.pollable(entries.drop_last()[i]) by {
            assert(entries.drop_last()[i] == entries[i]);
        }
        lemma_same_tokens(set, other, entries.drop_last());
    }
}

/// Where no entry has become pollable, there are at most as many tokens as before.
proof fn lemma_no_more_tokens<S>(
    set: SetView<S>,
    entries: Seq<Option<usize>>,
    after: SetView<S>,
    later: Seq<Option<usize>>,
)
    requires
        later.len() == entries.len(),
        forall|i: int|
            0 <= i < entries.len() && after.pollable(#[trigger] later[i]) ==> set.pollable(
                entries[i],
            ),
    ensures
        after.tokens_of(later).len() <= set.tokens_of(entries).len(),
    decreases entries.len(),
{
    if entries.len() > 0 {
        let last = entries.len() - 1;
        assert(after.pollable(later[last]) ==> set.pollable(entries[last]));
        assert forall|i: int|
            0 <= i < last && after.pollable(#[trigger] later.drop_last()[i]) implies set.pollable(
            entries.drop_last()[i],
        ) by {
            assert(later.drop_last()[i] == later[i]);
        }
        lemma_no_more_tokens(set, entries.drop_last(), after, later.drop_last());
    }
}

/// The place in the queue of the stream whose turn is at `position`.
proof fn lemma_turn<S>(set: SetView<S>, entries: Seq<Option<usize>>, position: int) -> (at: int)
    requires
        0 <= position < set.tokens_of(entries).len(),
    ensures
        0 <= at < entries.len(),
        entries[at] == Some(set.tokens_of(entries)[position]),
        set.pollable(entries[at]),
        set.tokens_of(entries.take(at)).len() == position,
    decreases entries.len(),
{
    let earlier = entries.drop_last();
    if position < set.tokens_of(earlier).len() {
        let at = lemma_turn(set, earlier, position);
        assert(earlier.take(at) =~= entries.take(at));
        at
    } else {
        assert(entries.take(entries.len() - 1) =~= earlier);
        entries.len() - 1
    }
}

/// A call in which the stream that is polled has an item at once.
proof fn lemma_one_call<S, I>(set: SetView<S>, item: I, in_transit: bool)
    requires
        set.valid(),
        set.polling is None,
        set.waiting().len() > 0,
    ensures
        ({
            let token = set.waiting()[0];
            let (during, first) = set.step::<I>(Event::Called, in_transit);
            let (after, second) = during.step(
                Event::Polled(Readiness::Ready(Some(item))),
                in_transit,
            );
            &&& first == Step::<I>::Poll(token)
            &&& during.polling == Some(token)
            &&& second matches Step::Return(_, result)
            &&& result == Readiness::Ready(Some((StreamYield::Item(item), token)))
            &&& after.valid()
            &&& after.polling is None
            &&& after.waiting() == set.waiting().drop_first().push(token)
            &&& forall|t: usize| #[trigger]
                after.streams.contains_key(t) <==> set.streams.contains_key(t)
            &&& forall|t: usize| #[trigger]
                set.streams.contains_key(t) ==> after.streams[t].finished
                    == set.streams[t].finished
        }),
{
    lemma_first_pollable(set, 0);
    let n = set.first_pollable(0) as int;
    if n == set.ready.len() {
        lemma_no_tokens(set, set.ready);
    }
    let entry = set.ready[n];
    let token = entry.unwrap();
    let front = set.ready.take(n);
    let rest = set.ready.skip(n + 1);
    assert(set.ready =~= front + (seq![entry] + rest));
    lemma_tokens_together(set, front, seq![entry] + rest);
    lemma_tokens_together(set, seq![entry], rest);
    lemma_no_tokens(set, front);
    assert(seq![entry].drop_last() =~= Seq::empty());
    assert(set.tokens_of(seq![entry].drop_last()).len() == 0);
    assert(set.tokens_of(seq![entry]) =~= seq![token]);
    assert(set.waiting() =~= seq![token] + set.tokens_of(rest));
    let (during, first) = set.step::<I>(Event::Called, in_transit);
    let (after, second) = during.step(Event::Polled(Readiness::Ready(Some(item))), in_transit);
    lemma_act_valid::<S, I>(set, Action::Step(Event::Called, in_transit));
    lemma_act_valid::<S, I>(
        during,
        Action::Step(Event::Polled(Readiness::Ready(Some(item))), in_transit),
    );
    assert(during.ready =~= rest);
    assert(after.ready =~= rest.push(entry));
    assert(after.ready.drop_last() =~= rest);
    lemma_same_tokens(set, after, rest);
    assert(after.waiting() =~= set.waiting().drop_first().push(token));
}

/// The stream with token `token` is at position `at` of the queue, has yet to finish, and is not
/// being polled.
spec fn waits_at<S>(set: SetView<S>, token: usize, at: int) -> bool {
    &&& 0 <= at < set.ready.len()
    &&& set.ready[at] == Some(token)
    &&& set.streams.contains_key(token)
    &&& !set.streams[token].finished
    &&& set.polling != Some(token)
}

/// How many streams have their turns before the queue entry at position `at`.
spec fn ahead<S>(set: SetView<S>, at: int) -> nat {
    set.tokens_of(set.ready.take(at)).len()
}

/// Each poll of another stream moves a waiting stream up in the queue.
proof fn lemma_moves_up<S, I>(
    set: SetView<S>,
    actions: Seq<Action<S, I>>,
    token: usize,
    position: int,
)
    requires
        set.valid(),
        set.allows_all(actions),
        waits_at(set, token, position),
        forall|i: int| 0 <= i < actions.len() ==> #[trigger] actions[i] != Action::<S, I>::Remove(
            token,
        ),
    ensures
        set.polls(actions).contains(token) || exists|at: int|
            #[trigger] waits_at(set.after(actions), token, at) && ahead(set.after(actions), at)
                + set.polls(actions).len() <= ahead(set, position),
    decreases actions.len(),
{
    if actions.len() == 0 {
        assert(waits_at(set.after(actions), token, position));
    } else {
        let earlier = actions.drop_last();
        assert forall|i: int| 0 <= i < earlier.len() implies #[trigger] earlier[i] != Action::<
            S,
            I,
        >::Remove(token) by {
            assert(actions[i] == earlier[i]);
        }
        lemma_moves_up(set, earlier, token, position);
        law_validity_is_kept(set, earlier);
        let before = set.after(earlier);
        let action = actions.last();
        let polls = set.polls(earlier);
        if polls.contains(token) {
            if set.polls(actions) != polls {
                assert(set.polls(actions)[polls.index_of(token)] == token);
            }
        } else {
            let at = choose|at: int|
                #[trigger] waits_at(before, token, at) && ahead(before, at) + polls.len()
                    <= ahead(set, position);
            assert(actions[actions.len() - 1] == action);
            lemma_moves_up_once(before, action, token, at);
            let (after, polled) = before.act(action);
            if polled == Some(token) {
                assert(set.polls(actions)[polls.len() as int] == token);
            } else {
                let next = choose|next: int| #[trigger]
                    waits_at(after, token, next) && ahead(after, next) <= ahead(before, at) && (
                    polled is Some ==> ahead(after, next) < ahead(before, at));
                assert(waits_at(set.after(actions), token, next));
            }
        }
    }
}

/// What happens to the queue entries up to position `at` does not put a stream further back.
proof fn lemma_not_moved_back<S>(set: SetView<S>, after: SetView<S>, token: usize, at: int)
    requires
        waits_at(set, token, at),
        waits_at(after, token, at),
        forall|i: int|
            0 <= i < at && after.pollable(#[trigger] after.ready[i]) ==> set.pollable(
                set.ready[i],
            ),
    ensures
        ahead(after, at) <= ahead(set, at),
{
    lemma_no_more_tokens(set, set.ready.take(at), after, after.ready.take(at));
}

proof fn lemma_moves_up_once<S, I>(
    set: SetView<S>,
    action: Action<S, I>,
    token: usize,
    at: int,
)
    requires
        set.valid(),
        set.allows(action),
        waits_at(set, token, at),
        action != Action::<S, I>::Remove(token),
    ensures
        ({
            let (after, polled) = set.act(action);
            polled == Some(token) || exists|next: int|
                #[trigger] waits_at(after, token, next) && ahead(after, next) <= ahead(set, at) && (
                polled is Some ==> ahead(after, next) < ahead(set, at))
        }),
{
    let (after, polled) = set.act(action);
    match action {
        Action::Insert(stream) => {
            law_insert(set, stream);
            assert(waits_at(after, token, at));
            lemma_not_moved_back(set, after, token, at);
        },
        Action::Step(event, in_transit) => {
            match event {
                Event::Called => {
                    lemma_next_step_moves_up::<S, I>(set, in_transit, token, at);
                },
                Event::Polled(outcome) => {
                    let other = set.polling.unwrap();
                    match outcome {
                        Readiness::Pending => {
                            let put_back = set.put_back(other);
                            lemma_put_back_ok(set, other);
                            assert(waits_at(put_back, token, at));
                            lemma_not_moved_back(set, put_back, token, at);
                            if put_back.polled != YIELD_EVERY {
                                lemma_next_step_moves_up::<S, I>(put_back, in_transit, token, at);
                            } else {
                                assert(waits_at(after, token, at));
                                lemma_not_moved_back(set, after, token, at);
                            }
                        },
                        _ => {
                            assert(waits_at(after, token, at));
                            lemma_not_moved_back(set, after, token, at);
                        },
                    }
                },
            }
        },
        _ => {
            assert(waits_at(after, token, at));
            lemma_not_moved_back(set, after, token, at);
        },
    }
}

proof fn lemma_next_step_moves_up<S, I>(
    set: SetView<S>,
    in_transit: bool,
    token: usize,
    at: int,
)
    requires
        between_polls(set),
        waits_at(set, token, at),
    ensures
        ({
            let (after, step) = set.next_step::<I>(in_transit);
            &&& step is Poll
            &&& step == Step::<I>::Poll(token) || exists|next: int|
                #[trigger] waits_at(after, token, next) && ahead(after, next) < ahead(set, at)
        }),
{
    lemma_first_pollable(set, 0);
    let n = set.first_pollable(0) as int;
    let (after, step) = set.next_step::<I>(in_transit);
    assert(set.pollable(set.ready[at]));
    assert(n <= at);
    if n < at {
        let next = at - n - 1;
        assert(set.ready[n] != set.ready[at]);
        assert(after.ready[next] == set.ready[at]);
        assert(waits_at(after, token, next));
        let front = set.ready.take(n + 1);
        let between = set.ready.subrange(n + 1, at);
        assert(set.ready.take(at) =~= front + between);
        lemma_tokens_together(set, front, between);
        assert(front.last() == set.ready[n]);
        assert(set.tokens_of(front).len() >= 1);
        assert(after.ready.take(next) =~= between);
        lemma_same_tokens(set, after, between);
    }
}

} // verus!
