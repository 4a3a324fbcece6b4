//! What a history of operations says of the streams and of what they yield.
use vstd::prelude::*;

use crate::history::{lemma_first_pollable, of_token, yield_of, Action};
use crate::laws::{
    law_insert, law_polling_keeps_streams, law_remove, law_validity_is_kept, lemma_streams_stay,
};
use crate::model::SetView;
use crate::step::{Event, Readiness};

verus! {

/// After any history, a token names the stream that was inserted under it last, or has replaced
/// that one, unless it was taken out since; the stream counts as finished exactly if a poll of it
/// has returned its end; and the number of streams is that of those that came less those that went.
pub proof fn law_names_over_time<S, I>(
    set: SetView<S>,
    actions: Seq<Action<S, I>>,
    token: usize,
)
    requires
        set.valid(),
        set.allows_all(actions),
    ensures
        ({
            let after = set.after(actions);
            &&& after.streams.contains_key(token) <==> set.named(actions, token) is Some
            &&& after.streams.contains_key(token) ==> {
                &&& set.named(actions, token) == Some(after.streams[token].stream)
                &&& after.streams[token].finished == set.ended(actions, token)
            }
            &&& after.streams.dom().len() == set.count(actions)
        }),
    decreases actions.len(),
{
    if actions.len() > 0 {
        let earlier = actions.drop_last();
        law_names_over_time(set, earlier, token);
        law_validity_is_kept(set, earlier);
        let before = set.after(earlier);
        let after = set.after(actions);
        match actions.last() {
            Action::Insert(stream) => law_insert(before, stream),
            Action::Remove(t) => law_remove(before, t),
            Action::Abandon => {
                if let Some(t) = before.polling {
                    assert(after.streams.dom() =~= before.streams.dom().remove(t));
                }
            },
            Action::Step(event, in_transit) => {
                assert forall|t: usize| #[trigger]
                    after.streams.contains_key(t) <==> before.streams.contains_key(t) by {
                    law_polling_keeps_streams(before, event, in_transit, t);
                }
                assert(after.streams.dom() =~= before.streams.dom());
                law_polling_keeps_streams(before, event, in_transit, token);
                lemma_first_pollable(before, 0);
                if let Some(t) = before.polling {
                    lemma_first_pollable(before.put_back(t), 0);
                }
            },
            _ => {
                assert(after.streams.dom() =~= before.streams.dom());
            },
        }
    }
}

/// What `poll_next` yields with a token is what the streams with that token returned when they were
/// ready, item by item and in the same order. Nothing is lost, made up or passed on twice.
pub proof fn law_results_are_outcomes<S, I>(
    set: SetView<S>,
    actions: Seq<Action<S, I>>,
    token: usize,
)
    requires
        set.valid(),
        set.allows_all(actions),
    ensures
        set.results(actions) == Seq::new(
            set.outcomes(actions).len(),
            |i: int|
                (
                    yield_of(set.outcomes(actions)[i].0, set.outcomes(actions)[i].1),
                    set.outcomes(actions)[i].1,
                ),
        ),
        of_token(set.results(actions), token) == Seq::new(
            of_token(set.outcomes(actions), token).len(),
            |i: int| yield_of(of_token(set.outcomes(actions), token)[i], token),
        ),
    decreases actions.len(),
{
    let results = set.results(actions);
    let outcomes = set.outcomes(actions);
    if actions.len() > 0 {
        let earlier = actions.drop_last();
        law_results_are_outcomes(set, earlier, token);
        law_validity_is_kept(set, earlier);
        let before = set.after(earlier);
        if let Action::Step(event, in_transit) = actions.last() {
            lemma_first_pollable(before, 0);
            match event {
                Event::Polled(Readiness::Ready(outcome)) => {
                    let t = before.polling.unwrap();
                    assert(results == set.results(earlier).push((yield_of(outcome, t), t)));
                    assert(results.drop_last() =~= set.results(earlier));
                    assert(outcomes.drop_last() =~= set.outcomes(earlier));
                },
                Event::Polled(Readiness::Pending) => {
                    lemma_first_pollable(before.put_back(before.polling.unwrap()), 0);
                },
                Event::Called => {},
            }
        }
    }
}

/// A stream yields its end once, as the last thing that it yields, and exactly if it has become
/// finished. One that is finished yields nothing more.
pub proof fn law_end_comes_once<S, I>(
    set: SetView<S>,
    actions: Seq<Action<S, I>>,
    token: usize,
)
    requires
        set.valid(),
        set.allows_all(actions),
        set.streams.contains_key(token),
        set.stays(actions, token),
    ensures
        ({
            let yielded = of_token(set.results(actions), token);
            let after = set.after(actions);
            &&& after.streams.contains_key(token)
            &&& set.streams[token].finished ==> after.streams[token].finished && yielded.len()
                == 0
            &&& forall|i: int|
                0 <= i < yielded.len() - 1 ==> #[trigger] yielded[i] is Item
            &&& (yielded.len() > 0 && yielded.last() is Finished) <==> (
            after.streams[token].finished && !set.streams[token].finished)
        }),
    decreases actions.len(),
{
    if actions.len() > 0 {
        let earlier = actions.drop_last();
        law_end_comes_once(set, earlier, token);
        law_validity_is_kept(set, earlier);
        let before = set.after(earlier);
        let action = actions.last();
        lemma_streams_stay(before, action, token);
        let results = set.results(actions);
        match action {
            Action::Insert(stream) => law_insert(before, stream),
            Action::Step(event, in_transit) => {
                lemma_first_pollable(before, 0);
                if let Some(t) = before.polling {
                    lemma_first_pollable(before.put_back(t), 0);
                }
                if results != set.results(earlier) {
                    assert(results.drop_last() =~= set.results(earlier));
                    assert(results.last().1 == before.polling.unwrap());
                    assert(!before.streams[before.polling.unwrap()].finished);
                }
            },
            _ => {},
        }
    }
}

} // verus!
