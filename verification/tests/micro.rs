use std::pin::Pin;
use std::task::{Context, Poll};

use futures_core::Stream;
use futures_util::stream;
use futures_util::task::noop_waker;
use streamunordered::{Event, Readiness, Step, StreamUnordered, StreamYield};

/// Polls the set once, and the streams that it asks for.
fn poll_set<S: Stream + Unpin>(
    set: &mut StreamUnordered<S>,
) -> Poll<Option<(StreamYield<S::Item>, usize)>> {
    let waker = noop_waker();
    let mut cx = Context::from_waker(&waker);
    let mut event = Event::Called;
    loop {
        match set.poll_next(event, false) {
            Step::Poll(token) => {
                let stream = set.get_mut(token).unwrap();
                event = Event::Polled(match Pin::new(stream).poll_next(&mut cx) {
                    Poll::Ready(item) => Readiness::Ready(item),
                    Poll::Pending => Readiness::Pending,
                });
            }
            Step::Return(_, Readiness::Ready(result)) => return Poll::Ready(result),
            Step::Return(_, Readiness::Pending) => return Poll::Pending,
        }
    }
}

#[test]
fn no_starvation() {
    let forever0 = Box::pin(stream::iter(vec![0].into_iter().cycle()));
    let forever1 = Box::pin(stream::iter(vec![1].into_iter().cycle()));
    let two = Box::pin(stream::iter(vec![2].into_iter()));
    let mut s = StreamUnordered::new();
    let forever0 = s.insert(forever0 as Pin<Box<dyn Stream<Item = i32>>>);
    let forever1 = s.insert(forever1 as Pin<Box<dyn Stream<Item = i32>>>);
    let two = s.insert(two as Pin<Box<dyn Stream<Item = i32>>>);
    let mut yielded = Vec::new();
    while yielded.len() < 100 {
        match poll_set(&mut s) {
            Poll::Ready(Some(y)) => yielded.push(y),
            Poll::Ready(None) => break,
            Poll::Pending => {}
        }
    }
    let mut s = yielded.into_iter();
    let mut got_two = false;
    let mut got_two_end = false;
    while let Some((v, si)) = s.next() {
        if let StreamYield::Item(v) = v {
            if si == two {
                assert_eq!(v, 2);
                got_two = true;
            } else if si == forever0 {
                assert_eq!(v, 0);
            } else if si == forever1 {
                assert_eq!(v, 1);
            } else {
                unreachable!("unknown stream {} yielded {}", si, v);
            }
        } else if si == two {
            got_two_end = true;
        } else {
            unreachable!("unexpected stream end for stream {}", si);
        }
    }
    assert!(got_two, "stream was starved");
    assert!(got_two_end, "stream end was not announced");
}

#[test]
fn streams_take_turns() {
    let mut set = StreamUnordered::new();
    set.insert(stream::iter(vec![10, 11, 12]));
    set.insert(stream::iter(vec![20]));
    set.insert(stream::iter(vec![30, 31]));
    let mut log = Vec::new();
    loop {
        match poll_set(&mut set) {
            Poll::Ready(Some((StreamYield::Item(v), token))) => log.push((token, Some(v))),
            Poll::Ready(Some((StreamYield::Finished(f), token))) => {
                log.push((token, None));
                f.remove(&mut set);
            }
            Poll::Ready(None) => break,
            Poll::Pending => unreachable!("no stream is ever pending"),
        }
    }
    assert_eq!(
        log,
        vec![
            (1, Some(10)),
            (2, Some(20)),
            (3, Some(30)),
            (1, Some(11)),
            (2, None),
            (3, Some(31)),
            (1, Some(12)),
            (3, None),
            (1, None),
        ]
    );
    assert!(set.is_empty());
    assert!(set.is_terminated());
}
