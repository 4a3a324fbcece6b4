use streamunordered::{
    Event, Readiness, Step, StreamUnordered, StreamYield, WakeKey, WakeUp, YIELD_EVERY,
};

type Chars = StreamUnordered<char>;
type Next = Step<u32>;

/// Starts a poll of the set.
fn call(set: &mut Chars) -> Next {
    set.poll_next(Event::Called, false)
}

/// Goes on with a poll of the set.
fn polled(set: &mut Chars, outcome: Readiness<Option<u32>>) -> Next {
    set.poll_next(Event::Polled(outcome), false)
}

/// A step in a form that can be compared.
fn show(step: Next) -> String {
    match step {
        Step::Poll(token) => format!("poll {}", token),
        Step::Return(wake_up, result) => {
            let wake_up = match wake_up {
                WakeUp::Nothing => "",
                WakeUp::Caller => ", wake caller",
                WakeUp::Registered => ", wake registered",
            };
            match result {
                Readiness::Pending => format!("pending{}", wake_up),
                Readiness::Ready(None) => format!("exhausted{}", wake_up),
                Readiness::Ready(Some((StreamYield::Item(item), token))) => {
                    format!("item {} of {}{}", item, token, wake_up)
                }
                Readiness::Ready(Some((StreamYield::Finished(f), token))) => {
                    assert_eq!(f.token(), token);
                    format!("end of {}{}", token, wake_up)
                }
            }
        }
    }
}

/// Polls the set until nothing can be polled; every stream that is polled is pending.
fn drain(set: &mut Chars) -> Vec<usize> {
    let mut tokens = Vec::new();
    let mut step = call(set);
    loop {
        match step {
            Step::Poll(token) => {
                tokens.push(token);
                step = polled(set, Readiness::Pending);
            }
            Step::Return(WakeUp::Caller, _) => step = call(set),
            Step::Return(_, _) => return tokens,
        }
    }
}

#[test]
fn empty_set_is_exhausted() {
    let mut set = Chars::new();
    assert!(!set.is_terminated());
    assert_eq!(show(call(&mut set)), "exhausted");
    assert!(set.is_terminated());
    assert_eq!(show(call(&mut set)), "exhausted");
    assert!(set.is_terminated());
}

#[test]
fn insertion_ends_termination() {
    let mut set = Chars::new();
    call(&mut set);
    set.insert('a');
    assert!(!set.is_terminated());
    assert_eq!(show(call(&mut set)), "poll 1");

    let mut set = Chars::new();
    call(&mut set);
    let _ = set.stream_entry();
    assert!(!set.is_terminated());
    assert_eq!(show(call(&mut set)), "exhausted");
}

#[test]
fn item_is_passed_on() {
    let mut set = StreamUnordered::from_iter(vec!['a']);
    assert_eq!(show(call(&mut set)), "poll 1");
    let step = polled(&mut set, Readiness::Ready(Some(7)));
    assert_eq!(show(step), "item 7 of 1, wake registered");
    // The stream may have more.
    assert_eq!(show(call(&mut set)), "poll 1");
    let step = polled(&mut set, Readiness::Ready(Some(8)));
    assert_eq!(show(step), "item 8 of 1, wake registered");
    assert_eq!(set.is_finished(1), Some(false));
}

#[test]
fn item_of_a_stream_that_was_woken_meanwhile() {
    let mut set = StreamUnordered::from_iter(vec!['a']);
    assert_eq!(show(call(&mut set)), "poll 1");
    let key = set.waker_ref(1).unwrap();
    assert!(set.wake(key));
    let step = polled(&mut set, Readiness::Ready(Some(7)));
    assert_eq!(show(step), "item 7 of 1");
    assert_eq!(drain(&mut set), vec![1]);
}

#[test]
fn end_of_stream_is_announced_once() {
    let mut set = StreamUnordered::from_iter(vec!['a']);
    assert_eq!(show(call(&mut set)), "poll 1");
    assert_eq!(set.is_finished(1), Some(false));
    let step = polled(&mut set, Readiness::Ready(None));
    assert_eq!(show(step), "end of 1");
    assert_eq!(set.is_finished(1), Some(true));
    // It stays in the set, so the set is not exhausted.
    assert_eq!(set.len(), 1);
    assert_eq!(set.get(1), Some(&'a'));
    assert_eq!(show(call(&mut set)), "pending");
    assert!(set.remove(1));
    assert_eq!(show(call(&mut set)), "exhausted");
}

#[test]
fn finished_stream_is_not_polled_again() {
    let mut set = StreamUnordered::from_iter(vec!['a', 'b']);
    call(&mut set);
    polled(&mut set, Readiness::Ready(None));
    let key = set.waker_ref(1).unwrap();
    assert!(set.wake(key));
    assert!(!set.wake(key));
    assert_eq!(drain(&mut set), vec![2]);
    // It left the queue, but still counts as woken.
    assert!(!set.wake(key));
    assert_eq!(drain(&mut set), vec![]);
    assert_eq!(set.is_finished(1), Some(true));
    assert_eq!(set.take(1), Some('a'));
    assert_eq!(set.insert('c'), 1);
    assert_eq!(set.is_finished(1), Some(false));
    assert_eq!(drain(&mut set), vec![1]);
}

#[test]
fn pending_stream_waits_for_its_wake_up() {
    let mut set = StreamUnordered::from_iter(vec!['a', 'b']);
    assert_eq!(drain(&mut set), vec![1, 2]);
    assert_eq!(drain(&mut set), vec![]);
    assert_eq!(show(call(&mut set)), "pending");
    let key = set.waker_ref(2).unwrap();
    assert!(set.wake(key));
    assert!(!set.wake(key));
    assert_eq!(drain(&mut set), vec![2]);
    assert_eq!(drain(&mut set), vec![]);
}

#[test]
fn streams_are_polled_in_the_order_of_their_wake_ups() {
    let mut set = StreamUnordered::from_iter(vec!['a', 'b', 'c']);
    drain(&mut set);
    for token in [3, 1, 2, 3] {
        let key = set.waker_ref(token).unwrap();
        set.wake(key);
    }
    assert_eq!(drain(&mut set), vec![3, 1, 2]);
}

#[test]
fn wake_up_during_a_poll_is_not_lost() {
    let mut set = StreamUnordered::from_iter(vec!['a', 'b']);
    assert_eq!(show(call(&mut set)), "poll 1");
    let key = set.waker_ref(1).unwrap();
    assert!(set.wake(key));
    assert_eq!(show(polled(&mut set, Readiness::Pending)), "poll 2");
    assert_eq!(show(polled(&mut set, Readiness::Pending)), "poll 1");
    assert_eq!(show(polled(&mut set, Readiness::Pending)), "pending");
}

#[test]
fn stream_can_be_reached_during_its_poll() {
    let mut set = StreamUnordered::from_iter(vec!['a', 'b']);
    assert_eq!(show(call(&mut set)), "poll 1");
    *set.get_mut(1).unwrap() = 'x';
    assert_eq!(set.get(1), Some(&'x'));
    polled(&mut set, Readiness::Ready(Some(1)));
    assert_eq!(set.get(1), Some(&'x'));
    assert_eq!(set.len(), 2);
}

#[test]
fn wake_up_in_transit_has_the_caller_come_back() {
    let mut set = StreamUnordered::from_iter(vec!['a']);
    drain(&mut set);
    let step: Next = set.poll_next(Event::Called, true);
    assert_eq!(show(step), "pending, wake caller");

    // That is so even if the set is empty.
    let mut set = Chars::new();
    let step: Next = set.poll_next(Event::Called, true);
    assert_eq!(show(step), "pending, wake caller");
    assert!(!set.is_terminated());

    // A stream that can be polled comes first.
    set.insert('a');
    let step: Next = set.poll_next(Event::Called, true);
    assert_eq!(show(step), "poll 1");
    let step: Next = set.poll_next(Event::Polled(Readiness::Pending), true);
    assert_eq!(show(step), "pending, wake caller");
}

#[test]
fn call_yields_after_many_pending_streams() {
    let streams = vec!['a'; YIELD_EVERY + 3];
    let mut set = StreamUnordered::from_iter(streams);
    let mut step = call(&mut set);
    for token in 1..YIELD_EVERY + 1 {
        assert_eq!(show(step), format!("poll {}", token));
        step = polled(&mut set, Readiness::Pending);
    }
    assert_eq!(show(step), "pending, wake caller");
    // The next call goes on where this one stopped.
    assert_eq!(drain(&mut set), vec![33, 34, 35]);
    assert_eq!(YIELD_EVERY, 32);
}

#[test]
fn count_starts_anew_with_each_call() {
    let streams = vec!['a'; 40];
    let mut set = StreamUnordered::from_iter(streams);
    let mut step = call(&mut set);
    for _ in 0..20 {
        assert!(matches!(step, Step::Poll(_)));
        step = polled(&mut set, Readiness::Pending);
    }
    assert_eq!(show(step), "poll 21");
    let step = polled(&mut set, Readiness::Ready(Some(5)));
    assert_eq!(show(step), "item 5 of 21, wake registered");
    let mut step = call(&mut set);
    for token in 22..41 {
        assert_eq!(show(step), format!("poll {}", token));
        step = polled(&mut set, Readiness::Pending);
    }
    assert_eq!(show(step), "poll 21");
    assert_eq!(show(polled(&mut set, Readiness::Pending)), "pending");
}

#[test]
fn call_is_bounded_though_a_stream_keeps_waking_itself() {
    let mut set = StreamUnordered::from_iter(vec!['a']);
    let key = set.waker_ref(1).unwrap();
    let mut polls = 0;
    let mut step = call(&mut set);
    while let Step::Poll(_) = step {
        polls += 1;
        set.wake(key);
        step = polled(&mut set, Readiness::Pending);
    }
    assert_eq!(polls, 32);
    assert_eq!(show(step), "pending, wake caller");
}

#[test]
fn removed_stream_is_not_polled() {
    let mut set = StreamUnordered::from_iter(vec!['a', 'b', 'c']);
    set.remove(2);
    assert_eq!(drain(&mut set), vec![1, 3]);
    // A new stream with the same token is polled once.
    assert_eq!(set.insert('d'), 2);
    assert_eq!(drain(&mut set), vec![2]);
}

#[test]
fn removal_and_insertion_while_in_the_queue() {
    let mut set = StreamUnordered::from_iter(vec!['a', 'b']);
    set.remove(1);
    assert_eq!(set.insert('c'), 1);
    assert_eq!(drain(&mut set), vec![2, 1]);
    set.remove(1);
    set.remove(2);
    assert_eq!(show(call(&mut set)), "exhausted");
}

#[test]
fn late_wake_up_does_not_reach_another_stream() {
    let mut set = StreamUnordered::from_iter(vec!['a']);
    let key = set.waker_ref(1).unwrap();
    assert_eq!(key, WakeKey { token: 1, serial: 0 });
    drain(&mut set);
    set.remove(1);
    assert!(!set.wake(key));
    assert_eq!(set.insert('b'), 1);
    assert_eq!(set.waker_ref(1), Some(WakeKey { token: 1, serial: 1 }));
    assert_eq!(drain(&mut set), vec![1]);
    assert!(!set.wake(key));
    assert_eq!(drain(&mut set), vec![]);
    assert!(set.wake(WakeKey { token: 1, serial: 1 }));
    assert_eq!(drain(&mut set), vec![1]);
}

#[test]
fn abandoned_stream_is_dropped() {
    let mut set = StreamUnordered::from_iter(vec!['a', 'b']);
    assert_eq!(show(call(&mut set)), "poll 1");
    let key = set.waker_ref(1).unwrap();
    set.wake(key);
    set.abandon();
    assert_eq!(set.get(1), None);
    assert_eq!(set.len(), 1);
    assert!(!set.wake(key));
    assert_eq!(drain(&mut set), vec![2]);
    // Where nothing is being polled, there is nothing to abandon.
    set.abandon();
    assert_eq!(set.len(), 1);
    assert_eq!(set.insert('c'), 1);
    assert_eq!(drain(&mut set), vec![1]);
}

#[test]
fn polled_stream_is_visited_first_afterwards() {
    let mut set = StreamUnordered::from_iter(vec!['a', 'b', 'c']);
    assert_eq!(drain(&mut set), vec![1, 2, 3]);
    let key = set.waker_ref(2).unwrap();
    set.wake(key);
    drain(&mut set);
    let mut iter = set.iter_with_token();
    assert_eq!(iter.next(), Some((&'b', 2)));
    assert_eq!(iter.next(), Some((&'c', 3)));
    assert_eq!(iter.next(), Some((&'a', 1)));
    assert_eq!(iter.next(), None);
}

#[test]
fn cleared_set_polls_nothing() {
    let mut set = StreamUnordered::from_iter(vec!['a', 'b', 'c']);
    set.clear();
    assert_eq!(show(call(&mut set)), "exhausted");
    assert!(set.is_terminated());
}

#[test]
fn key_of_a_removed_stream_stays_dead() {
    let mut set = Chars::new();
    set.insert('a');
    let key = set.waker_ref(1).unwrap();
    for letter in ['b', 'c', 'd'] {
        assert!(set.remove(1));
        assert_eq!(set.insert(letter), 1);
        assert_ne!(set.waker_ref(1), Some(key));
        assert_eq!(drain(&mut set), vec![1]);
        assert!(!set.wake(key));
        assert_eq!(drain(&mut set), vec![]);
    }
}

#[test]
fn key_lasts_while_the_stream_is_in_the_set() {
    let mut set = Chars::new();
    set.insert('a');
    let key = set.waker_ref(1).unwrap();
    assert_eq!(set.insert('b'), 2);
    assert_eq!(show(call(&mut set)), "poll 1");
    assert_eq!(show(polled(&mut set, Readiness::Pending)), "poll 2");
    assert_eq!(show(polled(&mut set, Readiness::Pending)), "pending");
    assert!(set.remove(2));
    assert_eq!(set.waker_ref(1), Some(key));
    assert!(set.wake(key));
    assert_eq!(show(call(&mut set)), "poll 1");
}

/// Polls the set once; the stream that it asks for has an item. Returns the token of that stream.
fn serve(set: &mut Chars, item: u32) -> usize {
    let token = match call(set) {
        Step::Poll(token) => token,
        Step::Return(_, _) => panic!("no stream is ready"),
    };
    let outcome = Readiness::Ready(Some(item));
    assert_eq!(
        show(polled(set, outcome)),
        format!("item {} of {}, wake registered", item, token)
    );
    token
}

#[test]
fn as_many_calls_as_streams_serve_each_of_them() {
    let mut set = StreamUnordered::from_iter(vec!['a', 'b', 'c', 'd']);
    assert_eq!(show(call(&mut set)), "poll 1");
    assert_eq!(show(polled(&mut set, Readiness::Ready(None))), "end of 1");
    for round in 0..3 {
        let served: Vec<usize> = (0..3).map(|i| serve(&mut set, 10 * round + i)).collect();
        assert_eq!(served, vec![2, 3, 4]);
    }
}

#[test]
fn removed_streams_do_not_delay_those_that_wait() {
    let mut set = StreamUnordered::from_iter(vec!['a', 'b', 'c']);
    set.remove(1);
    set.remove(2);
    assert_eq!(serve(&mut set, 7), 3);
}

#[test]
fn key_outlasts_another_stream_dropped_in_its_poll() {
    let mut set = StreamUnordered::from_iter(vec!['a', 'b']);
    let key = set.waker_ref(2).unwrap();
    assert_eq!(show(call(&mut set)), "poll 1");
    set.abandon();
    assert_eq!(set.waker_ref(2), Some(key));
    assert_eq!(drain(&mut set), vec![2]);
    assert!(set.wake(key));
}

#[test]
fn results_are_what_the_streams_returned() {
    let mut set = StreamUnordered::from_iter(vec!['a', 'b']);
    let mut outcomes = [vec![None, Some(11), Some(10)], vec![None, Some(20)]];
    let mut log = Vec::new();
    loop {
        let token = match call(&mut set) {
            Step::Poll(token) => token,
            Step::Return(_, _) => break,
        };
        let outcome = outcomes[token - 1].pop().unwrap();
        log.push(show(polled(&mut set, Readiness::Ready(outcome))));
    }
    assert_eq!(
        log,
        vec![
            "item 10 of 1, wake registered",
            "item 20 of 2, wake registered",
            "item 11 of 1, wake registered",
            "end of 2",
            "end of 1",
        ]
    );
    assert_eq!(set.len(), 2);
    assert_eq!(set.is_finished(1), Some(true));
    assert_eq!(set.is_finished(2), Some(true));
}
