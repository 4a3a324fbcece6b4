use streamunordered::{Event, FinishedStream, Readiness, Step, StreamUnordered, StreamYield};

/// Polls the set, and lets the stream that it asks for end.
fn end_next(set: &mut StreamUnordered<char>) -> StreamYield<i32> {
    match set.poll_next::<i32>(Event::Called, false) {
        Step::Poll(_) => {}
        Step::Return(_, _) => panic!("no stream is ready"),
    }
    match set.poll_next(Event::Polled(Readiness::Ready(None)), false) {
        Step::Return(_, Readiness::Ready(Some((end, _)))) => end,
        _ => panic!("the end is not announced"),
    }
}

fn finish_next(set: &mut StreamUnordered<char>) -> FinishedStream {
    match end_next(set) {
        StreamYield::Finished(finished) => finished,
        StreamYield::Item(_) => panic!("the stream has ended"),
    }
}

#[test]
fn items_are_compared() {
    assert!(StreamYield::Item(1) == StreamYield::Item(1));
    assert!(StreamYield::Item(1) != StreamYield::Item(2));
}

#[test]
fn end_of_stream_equals_nothing() {
    let end = end_next(&mut StreamUnordered::from_iter(vec!['a']));
    let other = end_next(&mut StreamUnordered::from_iter(vec!['a']));
    assert!(end != other);
    assert!(end != StreamYield::Item(1));
    assert!(StreamYield::Item(1) != end);
}

#[test]
fn exhausted_stream_is_removed() {
    let mut set = StreamUnordered::from_iter(vec!['a', 'b']);
    finish_next(&mut set).remove(&mut set);
    assert_eq!(set.get(1), None);
    assert_eq!(set.len(), 1);
    let finished = finish_next(&mut set);
    assert!(set.remove(2));
    finished.remove(&mut set);
    assert_eq!(set.len(), 0);
}

#[test]
fn exhausted_stream_is_taken() {
    let mut set = StreamUnordered::from_iter(vec!['a', 'b']);
    let first = finish_next(&mut set);
    let second = finish_next(&mut set);
    assert_eq!(second.take(&mut set), Some('b'));
    assert!(set.remove(1));
    assert_eq!(first.take(&mut set), None);
    assert_eq!(set.len(), 0);
}

#[test]
fn exhausted_stream_is_kept() {
    let mut set = StreamUnordered::from_iter(vec!['a']);
    finish_next(&mut set).keep();
    assert_eq!(set.get_mut(1), Some(&mut 'a'));
    assert_eq!(set.is_finished(1), Some(true));
}

#[test]
fn end_of_stream_knows_its_token() {
    let mut set = StreamUnordered::from_iter(vec!['a', 'b']);
    assert_eq!(finish_next(&mut set).token(), 1);
    assert_eq!(finish_next(&mut set).token(), 2);
}
