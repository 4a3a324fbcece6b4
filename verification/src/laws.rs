//! What holds of sets of streams as a whole.
//!
//! What a history says of the streams and their items is stated in [`accounts`], and in which order
//! the streams are polled in [`turns`]. What each operation changes is stated in [`effects`],
//! and for how long the key of a stream stands for it in [`keys`].
use vstd::prelude::*;

pub mod accounts;
pub mod effects;
pub mod keys;
pub mod turns;

use crate::history::{lemma_act_valid, lemma_first_pollable, Action};
use crate::model::SetView;
use crate::rep::{lemma_remove_contains, lemma_valid};
use crate::set::StreamUnordered;
use crate::slots::MAX_STREAMS;
use crate::step::{Event, Readiness, Step, WakeKey, WakeUp, YIELD_EVERY};
use crate::yielded::{FinishedStream, StreamYield};

verus! {

/// Every well-formed set is valid: each stream has a token of its own other than 0, iterators visit
/// each stream once, no stream is twice in the queue, and a stream that was woken and has not
/// finished is in the queue.
pub proof fn law_sets_are_valid<S>(set: StreamUnordered<S>)
    requires
        set.inv(),
    ensures
        set@.valid(),
{
    lemma_valid(set);
}

/// A valid set stays valid, whatever is done to it.
pub proof fn law_validity_is_kept<S, I>(set: SetView<S>, actions: Seq<Action<S, I>>)
    requires
        set.valid(),
        set.allows_all(actions),
    ensures
        set.after(actions).valid(),
    decreases actions.len(),
{
    if actions.len() > 0 {
        law_validity_is_kept(set, actions.drop_last());
        lemma_act_valid(set.after(actions.drop_last()), actions.last());
    }
}

/// The set without streams is valid, so every set that is built up from it is.
pub proof fn law_empty_is_valid<S>()
    ensures
        SetView::<S>::empty().valid(),
{
    let empty = SetView::<S>::empty();
    assert forall|t: usize|
        #![trigger empty.streams.contains_key(t)]
        #![trigger empty.reusable.contains(t)]
        !empty.streams.contains_key(t) && !empty.reusable.contains(t) by {}
    assert forall|t: usize| #![trigger empty.order.contains(t)] !empty.order.contains(t) by {}
}

/// A set with an entry requested has the streams that it had before, and the token of the entry is
/// still the next one, so that an entry that is dropped leaves nothing behind. A stream that is
/// inserted into the entry, and then changed into `stored`, is found under the token of the entry.
pub proof fn law_entry<S>(set: SetView<S>, stream: S, stored: S)
    requires
        set.valid(),
        set.polling is None,
        set.streams.dom().len() < MAX_STREAMS,
    ensures
        ({
            let token = set.next_token();
            let reserved = set.reserved();
            &&& reserved == (SetView { terminated: false, ..set })
            &&& reserved.next_token() == token
            &&& !reserved.streams.contains_key(token)
            &&& reserved.inserted(stream) == set.inserted(stream)
        }),
        ({
            let token = set.next_token();
            let filled = set.reserved().inserted(stream).with_stream(token, stored);
            &&& filled == set.inserted(stored)
            &&& filled.streams[token].stream == stored
            &&& filled.streams.dom().len() == set.streams.dom().len() + 1
        }),
{
    law_insert(set, stored);
    let filled = set.reserved().inserted(stream).with_stream(set.next_token(), stored);
    assert(filled.streams =~= set.inserted(stored).streams);
}

/// An inserted stream can be read back under its token, which is not 0 and was not in use. The
/// other streams stay as they are. The new stream is waiting to be polled, but nothing is polled.
pub proof fn law_insert<S>(set: SetView<S>, stream: S)
    requires
        set.valid(),
        set.polling is None,
        set.streams.dom().len() < MAX_STREAMS,
    ensures
        ({
            let token = set.next_token();
            let after = set.inserted(stream);
            &&& token != 0
            &&& !set.streams.contains_key(token)
            &&& after.streams.contains_key(token)
            &&& after.streams[token].stream == stream
            &&& !after.streams[token].finished
            &&& after.streams.dom().len() == set.streams.dom().len() + 1
            &&& forall|t: usize|
                t != token ==> (#[trigger] after.streams.contains_key(t)
                    <==> set.streams.contains_key(t)) && after.streams[t] == set.streams[t]
            &&& after.ready == set.ready.push(Some(token))
            &&& after.polling is None
            &&& !after.terminated
        }),
{
    let token = set.next_token();
    if set.reusable.len() > 0 {
        assert(set.reusable.contains(token));
        assert(!set.streams.contains_key(token));
    } else {
        assert(!set.reusable.contains(token));
        assert(!set.streams.contains_key(token));
    }
    assert(set.inserted(stream).streams.dom() =~= set.streams.dom().insert(token));
}

/// A removed stream is gone: it cannot be read, and it is not waiting to be polled. The other
/// streams stay as they are, and the next stream to be inserted gets the token.
pub proof fn law_remove<S>(set: SetView<S>, token: usize)
    requires
        set.valid(),
        set.polling is None,
        set.streams.contains_key(token),
    ensures
        ({
            let after = set.removed(token);
            &&& !after.streams.contains_key(token)
            &&& !after.order.contains(token)
            &&& !after.ready.contains(Some(token))
            &&& after.streams.dom().len() == set.streams.dom().len() - 1
            &&& forall|t: usize|
                t != token ==> (#[trigger] after.streams.contains_key(t)
                    <==> set.streams.contains_key(t)) && after.streams[t] == set.streams[t]
            &&& after.next_token() == token
        }),
{
    let after = set.removed(token);
    assert(set.order.contains(token));
    lemma_remove_contains(set.order, token, token);
    assert(after.streams.dom() =~= set.streams.dom().remove(token));
    assert forall|i: int| 0 <= i < after.ready.len() implies after.ready[i] != Some(token) by {}
}

/// Removing a stream that was just inserted undoes the insertion, but for its entry in the queue,
/// which is left without a stream.
pub proof fn law_remove_undoes_insert<S>(set: SetView<S>, stream: S)
    requires
        set.valid(),
        set.polling is None,
        set.streams.dom().len() < MAX_STREAMS,
    ensures
        ({
            let token = set.next_token();
            let after = set.inserted(stream).removed(token);
            &&& after.streams == set.streams
            &&& after.order == set.order
            &&& after.ready == set.ready.push(None)
            &&& after.next_token() == token
        }),
{
    law_insert(set, stream);
    let token = set.next_token();
    let during = set.inserted(stream);
    let after = during.removed(token);
    assert(after.streams =~= set.streams);
    assert(during.order[0] == token);
    assert(during.order.contains(token));
    assert(during.order.index_of(token) == 0) by {
        let i = during.order.index_of(token);
        assert(during.order[i] == token);
        if i > 0 {
            assert(set.order[i - 1] == token);
            assert(set.order.contains(token));
        }
    }
    assert(after.order =~= set.order);
    assert forall|i: int| 0 <= i < set.ready.len() implies #[trigger] set.ready[i] != Some(
        token,
    ) by {
        if set.ready[i] is Some {
            assert(set.streams.contains_key(set.ready[i].unwrap()));
        }
    }
    assert(after.ready =~= set.ready.push(None));
}

/// A late wake-up of a stream that was removed does not reach the stream that has its token now, as
/// long as the serial numbers of the two differ.
pub proof fn law_late_wake_up<S>(set: SetView<S>, token: usize, stream: S)
    requires
        set.valid(),
        set.polling is None,
        set.streams.contains_key(token),
        set.streams[token].serial != set.next_serial,
    ensures
        ({
            let key = WakeKey { token, serial: set.streams[token].serial };
            let after = set.removed(token).inserted(stream);
            &&& set.current(key)
            &&& !set.removed(token).current(key)
            &&& after.streams[token].stream == stream
            &&& !after.current(key)
        }),
{
    law_remove(set, token);
}

/// Once a stream has left the set, its key never stands for another one, whatever happens, as long
/// as the serial numbers do not start over and reach that of the key again.
pub proof fn law_gone_for_good<S, I>(set: SetView<S>, actions: Seq<Action<S, I>>, key: WakeKey)
    requires
        set.valid(),
        set.allows_all(actions),
        !set.current(key),
        forall|n: int|
            0 <= n < actions.len() ==> set.after(#[trigger] actions.take(n)).next_serial
                != key.serial,
    ensures
        !set.after(actions).current(key),
    decreases actions.len(),
{
    if actions.len() > 0 {
        let earlier = actions.drop_last();
        assert forall|n: int| 0 <= n < earlier.len() implies set.after(
            #[trigger] earlier.take(n),
        ).next_serial != key.serial by {
            assert(earlier.take(n) =~= actions.take(n));
        }
        law_gone_for_good(set, earlier, key);
        assert(actions.take(actions.len() - 1) =~= earlier);
        law_validity_is_kept(set, earlier);
        lemma_serials_are_kept(set.after(earlier), actions.last());
    }
}

/// The key of a stream stands for it for as long as the stream is in the set: until it is removed,
/// or dropped in the middle of its poll.
pub proof fn law_key_lasts<S, I>(set: SetView<S>, actions: Seq<Action<S, I>>, key: WakeKey)
    requires
        set.valid(),
        set.allows_all(actions),
        set.current(key),
        set.stays(actions, key.token),
    ensures
        set.after(actions).current(key),
    decreases actions.len(),
{
    if actions.len() > 0 {
        let earlier = actions.drop_last();
        law_key_lasts(set, earlier, key);
        law_validity_is_kept(set, earlier);
        let before = set.after(earlier);
        lemma_serials_are_kept(before, actions.last());
        lemma_streams_stay(before, actions.last(), key.token);
    }
}

/// An operation changes no serial number, and only an insertion adds a stream, which gets the next
/// one.
pub(crate) proof fn lemma_serials_are_kept<S, I>(set: SetView<S>, action: Action<S, I>)
    requires
        set.valid(),
        set.allows(action),
    ensures
        forall|t: usize|
            #[trigger] set.act(action).0.streams.contains_key(t) ==> {
                let serial = set.act(action).0.streams[t].serial;
                if set.streams.contains_key(t) {
                    serial == set.streams[t].serial
                } else {
                    action is Insert && serial == set.next_serial
                }
            },
{
    match action {
        Action::Insert(stream) => law_insert(set, stream),
        Action::Step(event, in_transit) => {
            lemma_first_pollable(set, 0);
            if let Some(token) = set.polling {
                lemma_first_pollable(set.put_back(token), 0);
            }
        },
        _ => {},
    }
}

/// An operation removes no stream but the one that it takes out.
pub(crate) proof fn lemma_streams_stay<S, I>(set: SetView<S>, action: Action<S, I>, token: usize)
    requires
        set.valid(),
        set.allows(action),
        set.streams.contains_key(token),
        !set.takes_out(action, token),
    ensures
        set.act(action).0.streams.contains_key(token),
{
    match action {
        Action::Step(event, in_transit) => {
            lemma_first_pollable(set, 0);
            if let Some(other) = set.polling {
                lemma_first_pollable(set.put_back(other), 0);
            }
        },
        _ => {},
    }
}

/// Polling a set says that it is exhausted exactly if it has no streams. The end is then announced,
/// and stays so: polling it again says the same.
pub proof fn law_exhausted<S, I>(set: SetView<S>)
    requires
        set.valid(),
        set.polling is None,
    ensures
        ({
            let (after, step) = set.step::<I>(Event::Called, false);
            &&& set.streams.dom().len() == 0 <==> step == Step::<I>::Return(
                WakeUp::Nothing,
                Readiness::Ready(None),
            )
            &&& set.streams.dom().len() == 0 <==> (step matches Step::Return(_, result) && result
                == Readiness::<Option<(StreamYield<I>, usize)>>::Ready(None))
            &&& set.streams.dom().len() == 0 ==> after.terminated && after.step::<I>(
                Event::Called,
                false,
            ) == (after, step)
        }),
{
    lemma_first_pollable(set, 0);
    let (after, step) = set.step::<I>(Event::Called, false);
    let n = set.first_pollable(0);
    if set.streams.dom().len() == 0 {
        if n < set.ready.len() {
            let token = set.ready[n as int].unwrap();
            assert(set.streams.dom().contains(token));
            assert(set.streams.dom().len() > 0);
        }
        assert(after.ready.len() == 0);
        assert(after.skipped(0) =~= after);
        assert(after.first_pollable(0) == 0);
        assert(after.step::<I>(Event::Called, false).0 =~= after);
    }
}

/// A poll of a set that has streams is pending, with no wake-up due, exactly if none of them that
/// has yet to finish has been woken.
pub proof fn law_pending<S, I>(set: SetView<S>)
    requires
        set.valid(),
        set.polling is None,
        set.streams.dom().len() > 0,
    ensures
        set.step::<I>(Event::Called, false).1 == Step::<I>::Return(
            WakeUp::Nothing,
            Readiness::Pending,
        ) <==> forall|t: usize|
            #[trigger] set.streams.contains_key(t) && !set.streams[t].finished
                ==> !set.streams[t].queued,
{
    lemma_first_pollable(set, 0);
    let n = set.first_pollable(0);
    let step = set.step::<I>(Event::Called, false).1;
    if n < set.ready.len() {
        let token = set.ready[n as int].unwrap();
        assert(set.streams.contains_key(token) && !set.streams[token].finished
            && set.streams[token].queued);
    } else {
        assert forall|t: usize|
            #[trigger] set.streams.contains_key(t) && !set.streams[t].finished implies
            !set.streams[t].queued by {
            if set.streams[t].queued {
                let i = set.ready.index_of(Some(t));
                assert(set.ready[i] == Some(t));
                assert(set.pollable(set.ready[i]));
            }
        }
    }
}

/// Polling a set neither adds nor removes a stream nor changes one, and no stream becomes
/// unfinished.
pub proof fn law_polling_keeps_streams<S, I>(
    set: SetView<S>,
    event: Event<I>,
    in_transit: bool,
    token: usize,
)
    requires
        set.valid(),
        event is Polled <==> set.polling is Some,
    ensures
        ({
            let after = set.step(event, in_transit).0;
            &&& after.streams.contains_key(token) <==> set.streams.contains_key(token)
            &&& set.streams.contains_key(token) ==> {
                &&& after.streams[token].stream == set.streams[token].stream
                &&& after.streams[token].serial == set.streams[token].serial
                &&& set.streams[token].finished ==> after.streams[token].finished
            }
        }),
{
    lemma_first_pollable(set, 0);
    if let Some(t) = set.polling {
        lemma_first_pollable(set.put_back(t), 0);
    }
}

/// An item comes with the token of the stream that was polled. The stream stays in the set, and is
/// waiting to be polled again.
pub proof fn law_item<S, I>(set: SetView<S>, item: I, in_transit: bool)
    requires
        set.valid(),
        set.polling is Some,
    ensures
        ({
            let token = set.polling.unwrap();
            let (after, step) = set.step(
                Event::Polled(Readiness::Ready(Some(item))),
                in_transit,
            );
            &&& step matches Step::Return(_, result)
            &&& result == Readiness::Ready(Some((StreamYield::Item(item), token)))
            &&& after.polling is None
            &&& after.streams.contains_key(token)
            &&& !after.streams[token].finished
            &&& after.ready.contains(Some(token))
        }),
{
    let token = set.polling.unwrap();
    let after = set.step(Event::Polled(Readiness::Ready(Some(item))), in_transit).0;
    if set.wakes(token) {
        assert(after.ready[set.ready.len() as int] == Some(token));
    } else {
        assert(set.ready.contains(Some(token)));
    }
}

/// The end of a stream comes with its token. The stream stays in the set, as a finished one.
pub proof fn law_end_of_stream<S, I>(set: SetView<S>, in_transit: bool)
    requires
        set.valid(),
        set.polling is Some,
    ensures
        ({
            let token = set.polling.unwrap();
            let (after, step) = set.step::<I>(Event::Polled(Readiness::Ready(None)), in_transit);
            &&& step matches Step::Return(_, result)
            &&& result == Readiness::<Option<(StreamYield<I>, usize)>>::Ready(
                Some((StreamYield::Finished(FinishedStream { token }), token)),
            )
            &&& after.polling is None
            &&& after.streams.contains_key(token)
            &&& after.streams[token].finished
            &&& after.streams[token].stream == set.streams[token].stream
        }),
{
}

/// Waking a stream twice is the same as waking it once.
pub proof fn law_waking_twice<S>(set: SetView<S>, token: usize)
    ensures
        set.woken(token).woken(token) == set.woken(token),
        !set.woken(token).wakes(token),
{
}

/// A wake-up is not lost: a woken stream that has yet to finish is waiting to be polled.
pub proof fn law_wake_up_is_not_lost<S>(set: SetView<S>, token: usize)
    requires
        set.valid(),
        set.streams.contains_key(token),
        !set.streams[token].finished,
    ensures
        set.woken(token).streams[token].queued,
        set.woken(token).ready.contains(Some(token)),
{
    if set.wakes(token) {
        assert(set.woken(token).ready[set.ready.len() as int] == Some(token));
    }
}

/// Nothing is left behind: a call of `poll_next` that returns without anything to yield and without
/// a wake-up has emptied the queue, and no stream that has yet to finish counts as woken.
pub proof fn law_nothing_is_left_behind<S, I>(
    set: SetView<S>,
    event: Event<I>,
    in_transit: bool,
)
    requires
        set.valid(),
        event is Polled <==> set.polling is Some,
    ensures
        ({
            let (after, step) = set.step(event, in_transit);
            step == Step::<I>::Return(WakeUp::Nothing, Readiness::Pending) || (
            step matches Step::Return(_, result) && result == Readiness::<
                Option<(StreamYield<I>, usize)>,
            >::Ready(None)) ==> {
                &&& !in_transit
                &&& after.ready.len() == 0
                &&& forall|t: usize|
                    #[trigger] after.streams.contains_key(t) && !after.streams[t].finished
                        ==> !after.streams[t].queued
            }
        }),
{
    let (after, step) = set.step(event, in_transit);
    lemma_act_valid::<S, I>(set, Action::Step(event, in_transit));
    lemma_first_pollable(set, 0);
    if let Some(t) = set.polling {
        lemma_first_pollable(set.put_back(t), 0);
    }
}

/// A set is terminated from the poll that says it is exhausted until the next insertion, or
/// the next request for an entry.
pub proof fn law_termination<S, I>(set: SetView<S>, action: Action<S, I>)
    requires
        set.valid(),
        set.allows(action),
    ensures
        set.act(action).0.terminated == match action {
            Action::Reserve => false,
            Action::Insert(_) => false,
            Action::Step(event, in_transit) => set.terminated || (set.step(
                event,
                in_transit,
            ).1 matches Step::Return(_, result) && result == Readiness::<
                Option<(StreamYield<I>, usize)>,
            >::Ready(None)),
            _ => set.terminated,
        },
{
    if let Action::Step(event, in_transit) = action {
        lemma_first_pollable(set, 0);
        if let Some(t) = set.polling {
            lemma_first_pollable(set.put_back(t), 0);
        }
    }
}

/// Clearing a set leaves no stream in it.
pub proof fn law_clear<S>(set: SetView<S>)
    requires
        set.valid(),
        set.polling is None,
    ensures
        set.cleared().valid(),
        set.cleared().streams.dom().len() == 0,
        forall|t: usize| !set.cleared().ready.contains(Some(t)),
{
    let after = set.cleared();
    assert forall|t: usize|
        #![trigger after.reusable.contains(t)]
        after.reusable.contains(t) <==> set.reusable.contains(t) || set.order.contains(t) by {
        if set.reusable.contains(t) {
            assert(after.reusable[set.reusable.index_of(t)] == t);
        }
        if set.order.contains(t) {
            assert(after.reusable[set.reusable.len() + set.order.index_of(t)] == t);
        }
    }
    assert forall|i: int, j: int|
        0 <= i < after.reusable.len() && 0 <= j < after.reusable.len() && i != j implies
        after.reusable[i] != after.reusable[j] by {
        let n = set.reusable.len();
        if i < n && j >= n {
            assert(set.reusable.contains(set.reusable[i]));
            assert(set.order.contains(set.order[j - n]));
        }
        if j < n && i >= n {
            assert(set.reusable.contains(set.reusable[j]));
            assert(set.order.contains(set.order[i - n]));
        }
    }
    assert forall|t: usize|
        #![trigger after.streams.contains_key(t)]
        #![trigger after.reusable.contains(t)]
        (after.streams.contains_key(t) || after.reusable.contains(t)) <==> 1 <= t
            <= after.streams.dom().len() + after.reusable.len() by {
        assert(set.order.contains(t) <==> set.streams.contains_key(t));
    }
    assert forall|t: usize|
        #![trigger after.order.contains(t)]
        !after.order.contains(t) && !after.streams.contains_key(t) by {}
}

/// The streams of a sequence that are inserted into an empty set get the tokens from 1 on. They are
/// polled in the order of the sequence, and visited in the opposite order.
pub proof fn law_from_iter<S>(streams: Seq<S>)
    requires
        streams.len() <= MAX_STREAMS,
    ensures
        numbered(SetView::<S>::empty().inserted_all(streams), streams),
        SetView::<S>::empty().inserted_all(streams).valid(),
    decreases streams.len(),
{
    let set = SetView::<S>::empty().inserted_all(streams);
    if streams.len() == 0 {
        law_empty_is_valid::<S>();
        assert(set.streams.dom() =~= Set::empty());
    } else {
        let before = SetView::<S>::empty().inserted_all(streams.drop_last());
        law_from_iter(streams.drop_last());
        law_insert(before, streams.last());
        lemma_act_valid::<S, int>(before, Action::Insert(streams.last()));
        assert(before.next_token() == streams.len());
        assert forall|i: int| 0 <= i < streams.len() implies #[trigger] numbered_at(
            set,
            streams,
            i,
        ) by {
            if i < streams.len() - 1 {
                assert(numbered_at(before, streams.drop_last(), i));
            }
        }
    }
}

/// The streams of the set are those of the sequence, with tokens from 1 on. They are polled in the
/// order of the sequence, and visited in the opposite order.
pub open spec fn numbered<S>(set: SetView<S>, streams: Seq<S>) -> bool {
    &&& set.polling is None
    &&& !set.terminated
    &&& set.reusable.len() == 0
    &&& set.streams.dom().len() == streams.len()
    &&& set.ready.len() == streams.len()
    &&& set.order.len() == streams.len()
    &&& forall|i: int| 0 <= i < streams.len() ==> #[trigger] numbered_at(set, streams, i)
}

/// The stream at position `i` of the sequence has token `i + 1`.
pub open spec fn numbered_at<S>(set: SetView<S>, streams: Seq<S>, i: int) -> bool {
    let token = (i + 1) as usize;
    &&& set.streams.contains_key(token)
    &&& set.streams[token].stream == streams[i]
    &&& !set.streams[token].finished
    &&& set.streams[token].queued
    &&& set.ready[i] == Some(token)
    &&& set.order[streams.len() - 1 - i] == token
}

/// A stream is only polled when it has been woken. One that has not been woken since it was polled
/// is not polled again, whatever else happens, until it is woken.
pub proof fn law_polled_only_when_woken<S, I>(
    set: SetView<S>,
    actions: Seq<Action<S, I>>,
    token: usize,
)
    requires
        set.valid(),
        set.allows_all(actions),
        set.streams.contains_key(token),
        !set.streams[token].queued,
        set.polling != Some(token),
        forall|i: int|
            0 <= i < actions.len() ==> {
                &&& #[trigger] actions[i] != Action::<S, I>::Remove(token)
                &&& actions[i] != Action::<S, I>::Wake(token)
            },
    ensures
        !set.polls(actions).contains(token),
        set.after(actions).streams.contains_key(token),
        !set.after(actions).streams[token].queued,
        set.after(actions).polling != Some(token),
    decreases actions.len(),
{
    if actions.len() > 0 {
        let earlier = actions.drop_last();
        assert forall|i: int| 0 <= i < earlier.len() implies {
            &&& #[trigger] earlier[i] != Action::<S, I>::Remove(token)
            &&& earlier[i] != Action::<S, I>::Wake(token)
        } by {
            assert(actions[i] == earlier[i]);
        }
        law_polled_only_when_woken(set, earlier, token);
        law_validity_is_kept(set, earlier);
        let before = set.after(earlier);
        let action = actions[actions.len() - 1];
        assert(action == actions.last());
        match action {
            Action::Insert(stream) => law_insert(before, stream),
            Action::Step(event, in_transit) => {
                assert forall|i: int| 0 <= i < before.ready.len() implies #[trigger] before.ready[i]
                    != Some(token) by {}
                lemma_first_pollable(before, 0);
                if let Some(other) = before.polling {
                    lemma_first_pollable(before.put_back(other), 0);
                }
            },
            _ => {},
        }
        let polls = set.polls(earlier);
        let (after, polled) = before.act(action);
        assert(polled != Some(token));
        if set.polls(actions).contains(token) {
            let i = set.polls(actions).index_of(token);
            assert(polls[i] == token);
        }
    }
}

/// A finished stream stays in the set until it is removed, and is not polled again, even if it is
/// woken.
pub proof fn law_finished_is_final<S, I>(
    set: SetView<S>,
    actions: Seq<Action<S, I>>,
    token: usize,
)
    requires
        set.valid(),
        set.allows_all(actions),
        set.streams.contains_key(token),
        set.streams[token].finished,
        forall|i: int| 0 <= i < actions.len() ==> #[trigger] actions[i] != Action::<S, I>::Remove(
            token,
        ),
    ensures
        !set.polls(actions).contains(token),
        set.after(actions).streams.contains_key(token),
        set.after(actions).streams[token].finished,
    decreases actions.len(),
{
    if actions.len() > 0 {
        let earlier = actions.drop_last();
        assert forall|i: int| 0 <= i < earlier.len() implies #[trigger] earlier[i] != Action::<
            S,
            I,
        >::Remove(token) by {
            assert(actions[i] == earlier[i]);
        }
        law_finished_is_final(set, earlier, token);
        law_validity_is_kept(set, earlier);
        let before = set.after(earlier);
        let action = actions[actions.len() - 1];
        assert(action == actions.last());
        match action {
            Action::Insert(stream) => law_insert(before, stream),
            Action::Step(event, in_transit) => {
                lemma_first_pollable(before, 0);
                if let Some(other) = before.polling {
                    lemma_first_pollable(before.put_back(other), 0);
                }
            },
            _ => {},
        }
        let polls = set.polls(earlier);
        assert(before.act(action).1 != Some(token));
        if set.polls(actions).contains(token) {
            let i = set.polls(actions).index_of(token);
            assert(polls[i] == token);
        }
    }
}

/// The operation is one that can happen between the beginning of a call of `poll_next` and its
/// return.
pub open spec fn within_call<S, I>(action: Action<S, I>) -> bool {
    match action {
        Action::Replace(_, _) => true,
        Action::Wake(_) => true,
        Action::Step(event, _) => event is Polled,
        _ => false,
    }
}

/// One call of `poll_next` asks for at most `YIELD_EVERY` polls, however often streams are woken
/// meanwhile.
pub proof fn law_call_is_bounded<S, I>(
    set: SetView<S>,
    in_transit: bool,
    actions: Seq<Action<S, I>>,
)
    requires
        set.valid(),
        set.polling is None,
        forall|i: int| 0 <= i < actions.len() ==> within_call(#[trigger] actions[i]),
        set.allows_all(seq![Action::Step(Event::Called, in_transit)] + actions),
    ensures
        set.polls(seq![Action::Step(Event::Called, in_transit)] + actions).len() <= YIELD_EVERY,
{
    lemma_polls_counted(set, in_transit, actions);
}

/// While a call is running, it has asked for one more poll than it has completed.
proof fn lemma_polls_counted<S, I>(
    set: SetView<S>,
    in_transit: bool,
    actions: Seq<Action<S, I>>,
)
    requires
        set.valid(),
        set.polling is None,
        forall|i: int| 0 <= i < actions.len() ==> within_call(#[trigger] actions[i]),
        set.allows_all(seq![Action::Step(Event::Called, in_transit)] + actions),
    ensures
        ({
            let whole = seq![Action::Step(Event::Called, in_transit)] + actions;
            let after = set.after(whole);
            let count = set.polls(whole).len();
            &&& after.polling is Some ==> count == after.polled + 1
            &&& count <= YIELD_EVERY
        }),
    decreases actions.len(),
{
    let first: Action<S, I> = Action::Step(Event::Called, in_transit);
    let whole = seq![first] + actions;
    let earlier = whole.drop_last();
    law_validity_is_kept(set, whole);
    if actions.len() == 0 {
        assert(earlier =~= Seq::empty());
        assert(set.after(earlier) == set);
        assert(set.polls(earlier).len() == 0);
        assert(whole.last() == first);
        lemma_first_pollable(set, 0);
    } else {
        assert(earlier =~= seq![first] + actions.drop_last());
        assert forall|i: int| 0 <= i < actions.drop_last().len() implies within_call(
            #[trigger] actions.drop_last()[i],
        ) by {
            assert(actions[i] == actions.drop_last()[i]);
        }
        lemma_polls_counted(set, in_transit, actions.drop_last());
        law_validity_is_kept(set, earlier);
        let before = set.after(earlier);
        let action = actions[actions.len() - 1];
        assert(whole.last() == action);
        assert(within_call(action));
        if let Some(token) = before.polling {
            lemma_first_pollable(before.put_back(token), 0);
        }
    }
}

/// The poll that makes it `YIELD_EVERY` of them without anything to yield ends the call, and has
/// the caller woken at once.
pub proof fn law_call_yields<S, I>(set: SetView<S>, in_transit: bool)
    requires
        set.valid(),
        set.polling is Some,
        set.polled == YIELD_EVERY - 1,
    ensures
        set.step::<I>(Event::Polled(Readiness::Pending), in_transit).1 == Step::<I>::Return(
            WakeUp::Caller,
            Readiness::Pending,
        ),
{
}

} // verus!
