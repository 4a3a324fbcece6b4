//! What each operation changes, and what it leaves as it is.
use vstd::prelude::*;
use vstd::std_specs::cmp::PartialEqSpec;

use crate::history::{lemma_act_valid, lemma_first_pollable, Action};
use crate::laws::{law_insert, law_polling_keeps_streams};
use crate::model::{lemma_clearing_ends, lemma_clearing_step, SetView};
use crate::set::StreamUnordered;
use crate::slots::MAX_STREAMS;
use crate::step::{Event, Readiness, Step, WakeKey, WakeUp, YIELD_EVERY};
use crate::yielded::{FinishedStream, StreamYield};

verus! {

/// A new set has no streams and nothing to poll, its end has not been announced, and the first
/// stream is going to get token 1.
pub proof fn law_empty<S>()
    ensures
        ({
            let empty = SetView::<S>::empty();
            &&& forall|t: usize| !#[trigger] empty.streams.contains_key(t)
            &&& empty.streams.dom().len() == 0
            &&& empty.order.len() == 0
            &&& empty.ready.len() == 0
            &&& empty.reusable.len() == 0
            &&& !empty.terminated
            &&& empty.polling is None
            &&& empty.polled == 0
            &&& empty.next_token() == 1
        }),
{
    assert(SetView::<S>::empty().streams.dom() =~= Set::empty());
}

/// A set has room for streams up to the number at which the token table could outgrow the address
/// space.
pub proof fn law_room<S, I>(set: SetView<S>, stream: S)
    requires
        set.polling is None,
    ensures
        set.allows(Action::<S, I>::Insert(stream)) <==> set.streams.dom().len() < usize::MAX / 64,
        MAX_STREAMS == usize::MAX / 64,
{
}

/// An insertion hands out the token that was given back last, or else the first that was never
/// used. The stream counts as woken and unfinished, is visited first, and is polled after those
/// that are waiting. The streams that are there keep their places and all that is known of them.
pub proof fn law_insert_effect<S>(set: SetView<S>, stream: S)
    requires
        set.valid(),
        set.polling is None,
        set.streams.dom().len() < MAX_STREAMS,
    ensures
        ({
            let token = set.next_token();
            let after = set.inserted(stream);
            &&& set.reusable.len() > 0 ==> {
                &&& token == set.reusable[set.reusable.len() - 1]
                &&& after.reusable == set.reusable.take(set.reusable.len() - 1)
            }
            &&& set.reusable.len() == 0 ==> {
                &&& token == set.streams.dom().len() + 1
                &&& after.reusable.len() == 0
            }
            &&& after.streams.dom() == set.streams.dom().insert(token)
            &&& after.streams[token].stream == stream
            &&& after.streams[token].queued
            &&& !after.streams[token].finished
            &&& forall|t: usize| #[trigger]
                set.streams.contains_key(t) ==> t != token && after.streams[t] == set.streams[t]
            &&& after.order.len() == set.order.len() + 1
            &&& after.order[0] == token
            &&& forall|i: int|
                0 <= i < set.order.len() ==> #[trigger] set.order[i] == after.order[i + 1]
            &&& after.ready.len() == set.ready.len() + 1
            &&& after.ready[set.ready.len() as int] == Some(token)
            &&& forall|i: int|
                0 <= i < set.ready.len() ==> #[trigger] after.ready[i] == set.ready[i]
            &&& !after.terminated
            &&& after.polling is None
            &&& after.polled == set.polled
        }),
{
    law_insert(set, stream);
    assert(set.inserted(stream).streams.dom() =~= set.streams.dom().insert(set.next_token()));
    if set.reusable.len() > 0 {
        assert(set.inserted(stream).reusable =~= set.reusable.take(set.reusable.len() - 1));
    }
}

/// A removal takes out one stream. Its places in the queue stay, without a stream; its place in the
/// order of iteration closes; its token is the next to be handed out. The other streams keep their
/// places and all that is known of them.
pub proof fn law_remove_effect<S>(set: SetView<S>, token: usize)
    requires
        set.valid(),
        set.polling is None,
        set.streams.contains_key(token),
    ensures
        ({
            let after = set.removed(token);
            &&& after.streams.dom() == set.streams.dom().remove(token)
            &&& forall|t: usize| #[trigger]
                after.streams.contains_key(t) ==> after.streams[t] == set.streams[t]
            &&& closes(set.order, after.order, token)
            &&& vacates(set.ready, after.ready, token)
            &&& after.reusable.len() == set.reusable.len() + 1
            &&& after.reusable[set.reusable.len() as int] == token
            &&& forall|i: int|
                0 <= i < set.reusable.len() ==> #[trigger] after.reusable[i] == set.reusable[i]
            &&& after.next_serial == set.next_serial
            &&& after.terminated == set.terminated
            &&& after.polling is None
            &&& after.polled == set.polled
        }),
{
    assert(set.order.contains(token));
    let k = set.order.index_of(token);
    assert(set.order[k] == token);
    assert(set.removed(token).order =~= set.order.remove(k));
    assert(closes_at(set.order, set.removed(token).order, token, k));
}

/// The sequence `after` is `before` with `token` taken out.
pub open spec fn closes(before: Seq<usize>, after: Seq<usize>, token: usize) -> bool {
    exists|k: int| closes_at(before, after, token, k)
}

/// The sequence `after` is `before` with `token`, which is at position `k`, taken out.
pub open spec fn closes_at(before: Seq<usize>, after: Seq<usize>, token: usize, k: int) -> bool {
    &&& 0 <= k < before.len()
    &&& before[k] == token
    &&& after.len() == before.len() - 1
    &&& forall|i: int| 0 <= i < k ==> #[trigger] after[i] == before[i]
    &&& forall|i: int| k <= i < after.len() ==> #[trigger] after[i] == before[i + 1]
}

/// The queue `after` is `before` with the stream with token `token` gone from its entries.
pub open spec fn vacates(
    before: Seq<Option<usize>>,
    after: Seq<Option<usize>>,
    token: usize,
) -> bool {
    &&& after.len() == before.len()
    &&& forall|i: int|
        0 <= i < before.len() ==> {
            &&& before[i] == Some(token) ==> #[trigger] after[i] is None
            &&& before[i] != Some(token) ==> after[i] == before[i]
        }
}

/// A poll that is abandoned takes its stream out of the set. The order of iteration, in which the
/// stream has no place while it is polled, and the other streams stay as they are. Where nothing is
/// being polled, nothing happens.
pub proof fn law_abandon_effect<S>(set: SetView<S>)
    requires
        set.valid(),
    ensures
        set.polling is None ==> set.abandoned() == set,
        set.polling matches Some(token) ==> {
            let after = set.abandoned();
            &&& after.streams.dom() == set.streams.dom().remove(token)
            &&& forall|t: usize| #[trigger]
                after.streams.contains_key(t) ==> after.streams[t] == set.streams[t]
            &&& after.order == set.order
            &&& vacates(set.ready, after.ready, token)
            &&& after.reusable == set.reusable.push(token)
            &&& after.next_serial == set.next_serial
            &&& after.terminated == set.terminated
            &&& after.polling is None
            &&& after.polled == 0
        },
{
}

/// A change of a stream through a reference changes that stream, and nothing else.
pub proof fn law_replace_effect<S>(set: SetView<S>, token: usize, stream: S)
    requires
        set.streams.contains_key(token),
    ensures
        ({
            let after = set.with_stream(token, stream);
            &&& after.streams.dom() == set.streams.dom()
            &&& after.streams[token].stream == stream
            &&& after.streams[token].serial == set.streams[token].serial
            &&& after.streams[token].finished == set.streams[token].finished
            &&& after.streams[token].queued == set.streams[token].queued
            &&& forall|t: usize|
                t != token ==> #[trigger] after.streams[t] == set.streams[t]
            &&& after == (SetView { streams: after.streams, ..set })
        }),
{
    assert(set.with_stream(token, stream).streams.dom() =~= set.streams.dom());
}

/// A key stands for the stream of the set that has its token and its serial number. A wake-up of a
/// stream puts it at the end of the queue if it did not count as woken, and is then to be told to
/// the task that polls the set; otherwise it changes nothing. That the task is to be told, that the
/// queue grows and that the stream becomes a woken one come together.
pub proof fn law_wake_effect<S>(set: SetView<S>, key: WakeKey)
    ensures
        set.current(key) <==> set.streams.contains_key(key.token)
            && set.streams[key.token].serial == key.serial,
        ({
            let token = key.token;
            let after = set.woken(token);
            &&& set.wakes(token) <==> after.ready != set.ready
            &&& set.wakes(token) <==> after.ready.len() == set.ready.len() + 1
            &&& set.wakes(token) <==> set.streams.contains_key(token)
                && !set.streams[token].queued && after.streams[token].queued
            &&& !set.wakes(token) <==> after == set
            &&& set.streams.contains_key(token) ==> after.streams[token].queued
            &&& set.wakes(token) ==> {
                &&& after.ready[set.ready.len() as int] == Some(token)
                &&& forall|i: int|
                    0 <= i < set.ready.len() ==> #[trigger] after.ready[i] == set.ready[i]
                &&& after.streams.dom() == set.streams.dom()
                &&& after.streams[token].stream == set.streams[token].stream
                &&& after.streams[token].serial == set.streams[token].serial
                &&& after.streams[token].finished == set.streams[token].finished
                &&& forall|t: usize|
                    t != token ==> #[trigger] after.streams[t] == set.streams[t]
                &&& after == (SetView { streams: after.streams, ready: after.ready, ..set })
            }
        }),
{
    let after = set.woken(key.token);
    if set.wakes(key.token) {
        assert(after.streams.dom() =~= set.streams.dom());
        assert(after.ready.len() != set.ready.len());
    }
}

/// Clearing a set is the same as removing its streams one after the other in the order of
/// iteration: no stream is left, the queue entries stay without streams, and the tokens are handed
/// out again from the last one on.
pub proof fn law_clear_effect<S, I>(set: SetView<S>)
    requires
        set.valid(),
        set.polling is None,
    ensures
        ({
            let after = set.cleared();
            let removals = Seq::new(
                set.order.len(),
                |i: int| Action::<S, I>::Remove(set.order[i]),
            );
            &&& after == set.after(removals)
            &&& forall|t: usize| !#[trigger] after.streams.contains_key(t)
            &&& after.order.len() == 0
            &&& after.ready.len() == set.ready.len()
            &&& forall|i: int| 0 <= i < after.ready.len() ==> #[trigger] after.ready[i] is None
            &&& after.reusable.len() == set.reusable.len() + set.order.len()
            &&& forall|i: int|
                0 <= i < set.reusable.len() ==> #[trigger] after.reusable[i] == set.reusable[i]
            &&& forall|i: int|
                0 <= i < set.order.len() ==> #[trigger] set.order[i]
                    == after.reusable[set.reusable.len() + i]
            &&& after.next_serial == set.next_serial
            &&& after.terminated == set.terminated
            &&& after.polling is None
            &&& after.polled == set.polled
        }),
{
    lemma_clearing_ends(set);
    lemma_removals::<S, I>(set, set.order.len());
}

proof fn lemma_removals<S, I>(set: SetView<S>, n: nat)
    requires
        set.valid(),
        set.polling is None,
        n <= set.order.len(),
    ensures
        set.after(Seq::new(n, |i: int| Action::<S, I>::Remove(set.order[i]))) == set.clearing(n),
    decreases n,
{
    let removals = Seq::new(n, |i: int| Action::<S, I>::Remove(set.order[i]));
    if n == 0 {
        lemma_clearing_ends(set);
    } else {
        let m = (n - 1) as nat;
        lemma_removals::<S, I>(set, m);
        assert(removals.drop_last() =~= Seq::new(
            m,
            |i: int| Action::<S, I>::Remove(set.order[i]),
        ));
        lemma_clearing_step(set, m);
    }
}

/// A set made of a sequence of streams is what inserting them one after the other makes of a new
/// set.
pub proof fn law_from_iter_inserts<S, I>(streams: Seq<S>)
    ensures
        SetView::<S>::empty().inserted_all(streams) == SetView::<S>::empty().after(
            Seq::new(streams.len(), |i: int| Action::<S, I>::Insert(streams[i])),
        ),
    decreases streams.len(),
{
    let insertions = Seq::new(streams.len(), |i: int| Action::<S, I>::Insert(streams[i]));
    if streams.len() > 0 {
        let earlier = streams.drop_last();
        law_from_iter_inserts::<S, I>(earlier);
        assert(insertions.drop_last() =~= Seq::new(
            earlier.len(),
            |i: int| Action::<S, I>::Insert(earlier[i]),
        ));
    }
}

/// What the result of a step of `poll_next` says, whatever wake-up comes with it.
///
/// That the set is exhausted is only said of a set without streams, when it is called and no
/// wake-up is in transit, and its end has then been announced. An item or an end is what the stream
/// that was polled returned, with its token. A pending set either has the caller come back at once,
/// because of a wake-up in transit or after 32 polls, or has a stream, none of which is waiting to
/// be polled.
pub proof fn law_result<S, I>(set: SetView<S>, event: Event<I>, in_transit: bool)
    requires
        set.valid(),
        event is Polled <==> set.polling is Some,
    ensures
        ({
            let (after, step) = set.step(event, in_transit);
            step matches Step::Return(wake_up, result) ==> {
                &&& after.polling is None
                &&& after.polled == 0
                &&& match result {
                    Readiness::Ready(None) => {
                        &&& set.streams.dom().len() == 0
                        &&& after.streams.dom().len() == 0
                        &&& after.order.len() == 0
                        &&& after.terminated
                        &&& event is Called
                        &&& !in_transit
                        &&& wake_up is Nothing
                    },
                    Readiness::Ready(Some((StreamYield::Item(item), token))) => {
                        &&& set.polling == Some(token)
                        &&& event == Event::Polled(Readiness::Ready(Some(item)))
                        &&& wake_up == (if set.streams[token].queued {
                            WakeUp::Nothing
                        } else {
                            WakeUp::Registered
                        })
                    },
                    Readiness::Ready(Some((StreamYield::Finished(finished), token))) => {
                        &&& set.polling == Some(token)
                        &&& finished.token == token
                        &&& event == Event::<I>::Polled(Readiness::Ready(None))
                        &&& wake_up is Nothing
                    },
                    Readiness::Pending => {
                        &&& !(event matches Event::Polled(Readiness::Ready(_)))
                        &&& wake_up is Caller ==> in_transit || (event is Polled && set.polled + 1
                            == 32)
                        &&& !(wake_up is Caller) ==> {
                            &&& wake_up is Nothing
                            &&& !in_transit
                            &&& after.streams.dom().len() > 0
                            &&& after.ready.len() == 0
                            &&& forall|t: usize|
                                #[trigger] after.streams.contains_key(t)
                                    && !after.streams[t].finished ==> !after.streams[t].queued
                        }
                    },
                }
            }
        }),
{
    let (after, step) = set.step(event, in_transit);
    lemma_act_valid::<S, I>(set, Action::Step(event, in_transit));
    lemma_first_pollable(set, 0);
    if let Some(t) = set.polling {
        lemma_first_pollable(set.put_back(t), 0);
        assert(set.streams.dom().contains(t));
    }
}

/// When `poll_next` owes what. What a polled stream returned is passed on at once. After 32 polls
/// without anything to pass on, the caller is to come back. Otherwise, a stream is polled exactly
/// if one that has yet to finish counts as woken. If there is none, a set without streams is
/// exhausted and one with streams is pending; with a wake-up in transit, the caller is to come back.
pub proof fn law_owed<S, I>(set: SetView<S>, event: Event<I>, in_transit: bool)
    requires
        set.valid(),
        event is Polled <==> set.polling is Some,
    ensures
        ({
            let step = set.step(event, in_transit).1;
            let ready = exists|t: usize|
                #[trigger] set.streams.contains_key(t) && !set.streams[t].finished
                    && set.streams[t].queued;
            match event {
                Event::Polled(Readiness::Ready(Some(item))) => step matches Step::Return(_, result)
                    && result == Readiness::Ready(
                    Some((StreamYield::Item(item), set.polling.unwrap())),
                ),
                Event::Polled(Readiness::Ready(None)) => {
                    let token = set.polling.unwrap();
                    step matches Step::Return(_, result) && result == Readiness::Ready(
                        Some((StreamYield::<I>::Finished(FinishedStream { token }), token)),
                    )
                },
                _ => if event is Polled && set.polled + 1 == 32 {
                    step == Step::<I>::Return(WakeUp::Caller, Readiness::Pending)
                } else {
                    &&& step is Poll <==> ready
                    &&& !ready && in_transit ==> step == Step::<I>::Return(
                        WakeUp::Caller,
                        Readiness::Pending,
                    )
                    &&& !ready && !in_transit && set.streams.dom().len() == 0 ==> step == Step::<
                        I,
                    >::Return(WakeUp::Nothing, Readiness::Ready(None))
                    &&& !ready && !in_transit && set.streams.dom().len() > 0 ==> step == Step::<
                        I,
                    >::Return(WakeUp::Nothing, Readiness::Pending)
                },
            }
        }),
        YIELD_EVERY == 32,
{
    let step = set.step(event, in_transit).1;
    let now = match set.polling {
        Some(t) => set.put_back(t),
        None => set,
    };
    if let Some(t) = set.polling {
        assert(set.streams.dom().contains(t));
    }
    lemma_first_pollable(now, 0);
    let n = now.first_pollable(0);
    if n < now.ready.len() {
        let t = set.ready[n as int].unwrap();
        assert(set.streams.contains_key(t) && !set.streams[t].finished && set.streams[t].queued);
    } else {
        assert forall|t: usize|
            #[trigger] set.streams.contains_key(t) && !set.streams[t].finished implies
            !set.streams[t].queued by {
            if set.streams[t].queued {
                assert(set.ready.contains(Some(t)));
                let i = set.ready.index_of(Some(t));
                assert(set.ready[i] == Some(t));
                assert(now.pollable(now.ready[i]));
            }
        }
    }
}

/// The stream that is polled is the one that was woken first among those that have yet to finish.
/// Those before it in the queue, which have finished or left the set, are passed over for good.
pub proof fn law_first_come_first_served<S, I>(set: SetView<S>, event: Event<I>, in_transit: bool)
    requires
        set.valid(),
        event is Polled <==> set.polling is Some,
    ensures
        ({
            let (after, step) = set.step(event, in_transit);
            step matches Step::Poll(token) ==> {
                &&& set.streams.contains_key(token)
                &&& set.streams[token].queued
                &&& !set.streams[token].finished
                &&& exists|n: int| first_at(set, token, n) && after.ready == set.ready.skip(n + 1)
                &&& after.polling == Some(token)
                &&& after.polled == (if event is Polled {
                    set.polled + 1
                } else {
                    0
                })
            }
        }),
{
    let step = set.step(event, in_transit).1;
    let now = match set.polling {
        Some(t) => set.put_back(t),
        None => set,
    };
    lemma_first_pollable(now, 0);
    let n = now.first_pollable(0) as int;
    if let Step::Poll(token) = step {
        assert forall|i: int| 0 <= i < n implies (#[trigger] set.ready[i] matches Some(t)
            ==> set.streams[t].finished) by {
            assert(!now.pollable(now.ready[i]));
        }
        assert(first_at(set, token, n));
        assert(set.step(event, in_transit).0.ready =~= set.ready.skip(n + 1));
    }
}

/// The stream with token `token` is at position `n` of the queue, and those before it have finished
/// or left the set.
pub open spec fn first_at<S>(set: SetView<S>, token: usize, n: int) -> bool {
    &&& 0 <= n < set.ready.len()
    &&& set.ready[n] == Some(token)
    &&& forall|i: int|
        0 <= i < n ==> (#[trigger] set.ready[i] matches Some(t) ==> set.streams[t].finished)
}

/// What a step of `poll_next` changes. A stream becomes a finished one when it returned its end,
/// counts as woken from when it returned an item, and no longer from when it is to be polled. It
/// has no place in the order of iteration while it is polled, and the first place afterwards. A
/// stream that returned an item goes to the end of the queue unless it is there; otherwise the
/// queue only loses entries. The end of the set is announced by saying that it is exhausted.
pub proof fn law_step_effect<S, I>(set: SetView<S>, event: Event<I>, in_transit: bool)
    requires
        set.valid(),
        event is Polled <==> set.polling is Some,
    ensures
        ({
            let (after, step) = set.step(event, in_transit);
            let back = match set.polling {
                Some(token) => seq![token] + set.order,
                None => set.order,
            };
            &&& after.streams.dom() == set.streams.dom()
            &&& forall|t: usize| #[trigger]
                set.streams.contains_key(t) ==> {
                    &&& after.streams[t].stream == set.streams[t].stream
                    &&& after.streams[t].serial == set.streams[t].serial
                    &&& after.streams[t].finished == (set.streams[t].finished || (set.polling
                        == Some(t) && event == Event::<I>::Polled(Readiness::Ready(None))))
                    &&& step == Step::<I>::Poll(t) ==> !after.streams[t].queued
                    &&& step != Step::<I>::Poll(t) ==> after.streams[t].queued == (
                    set.streams[t].queued || (set.polling == Some(t) && event matches Event::Polled(
                        Readiness::Ready(Some(_)),
                    )))
                }
            &&& step is Return ==> after.order == back
            &&& step matches Step::Poll(token) ==> closes(back, after.order, token)
            &&& match event {
                Event::Polled(Readiness::Ready(Some(_))) => {
                    let token = set.polling.unwrap();
                    after.ready == (if set.streams[token].queued {
                        set.ready
                    } else {
                        set.ready.push(Some(token))
                    })
                },
                Event::Polled(Readiness::Ready(None)) => after.ready == set.ready,
                _ => step is Return ==> after.ready == (if event is Polled && set.polled + 1
                    == 32 {
                    set.ready
                } else {
                    Seq::empty()
                }),
            }
            &&& after.terminated == (set.terminated || (step matches Step::Return(_, result)
                && result == Readiness::<Option<(StreamYield<I>, usize)>>::Ready(None)))
            &&& after.reusable == set.reusable
            &&& after.next_serial == set.next_serial
        }),
{
    let (after, step) = set.step(event, in_transit);
    let now = match set.polling {
        Some(t) => set.put_back(t),
        None => set,
    };
    lemma_act_valid::<S, I>(set, Action::Step(event, in_transit));
    lemma_first_pollable(set, 0);
    lemma_first_pollable(now, 0);
    assert forall|t: usize| #[trigger]
        after.streams.contains_key(t) <==> set.streams.contains_key(t) by {
        law_polling_keeps_streams(set, event, in_transit, t);
    }
    assert(after.streams.dom() =~= set.streams.dom());
    if let Step::Poll(token) = step {
        let k = now.order.index_of(token);
        assert(now.order.contains(token)) by {
            if set.polling is Some {
                let other = set.polling.unwrap();
                assert(now.order[0] == other);
                if other != token {
                    assert(set.order.contains(token));
                    assert(now.order[set.order.index_of(token) + 1] == token);
                }
            }
        }
        assert(now.order[k] == token);
        assert(after.order =~= now.order.remove(k));
        assert(closes_at(now.order, after.order, token, k));
    } else {
        match event {
            Event::Polled(Readiness::Ready(_)) => {},
            _ => {
                assert(now.ready.skip(now.ready.len() as int) =~= Seq::empty());
            },
        }
    }
}

/// Items are compared as they are, and no event equals the end of a stream.
pub proof fn law_equality<I: PartialEq>(item: I, other: I, event: StreamYield<I>, token: usize)
    ensures
        StreamYield::<I>::obeys_eq_spec() == I::obeys_eq_spec(),
        StreamYield::Item(item).eq_spec(&StreamYield::Item(other)) == item.eq_spec(&other),
        !event.eq_spec(&StreamYield::<I>::Finished(FinishedStream { token })),
        !StreamYield::<I>::Finished(FinishedStream { token }).eq_spec(&event),
{
}

/// A set can be indexed by exactly the tokens of its streams.
pub proof fn law_index<S>(set: StreamUnordered<S>, token: usize)
    requires
        set.inv(),
    ensures
        vstd::std_specs::core::IndexSpec::index_req(&set, &token) <==> set@.streams.contains_key(
            token,
        ),
{
}

} // verus!
