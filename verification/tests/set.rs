use streamunordered::{StreamUnordered, MAX_STREAMS};

#[test]
fn new_set_is_empty() {
    let set: StreamUnordered<char> = StreamUnordered::new();
    assert!(set.is_empty());
    assert_eq!(set.len(), 0);
    assert_eq!(set.size_hint(), (0, Some(0)));
    assert!(!set.is_terminated());

    let set: StreamUnordered<char> = Default::default();
    assert!(set.is_empty());
}

#[test]
fn tokens_start_at_one() {
    let mut set = StreamUnordered::new();
    assert_eq!(set.insert('a'), 1);
    assert_eq!(set.push('b'), 2);
    assert_eq!(set.insert('c'), 3);
    assert_eq!(set.len(), 3);
    assert_eq!(set.size_hint(), (3, Some(3)));
    assert!(!set.is_empty());
}

#[test]
fn inserted_stream_is_read_back() {
    let mut set = StreamUnordered::new();
    let a = set.insert('a');
    let b = set.insert('b');
    assert_eq!(set.get(a), Some(&'a'));
    assert_eq!(set.get(b), Some(&'b'));
    assert_eq!(set[a], 'a');
    assert_eq!(set.get(0), None);
    assert_eq!(set.get(3), None);
    assert_eq!(set.get(usize::MAX), None);
}

#[test]
fn stream_is_changed_in_place() {
    let mut set = StreamUnordered::from_iter(vec!['a', 'b']);
    *set.get_mut(1).unwrap() = 'x';
    assert_eq!(set.get(1), Some(&'x'));
    assert_eq!(set.get(2), Some(&'b'));
    *set.get_pin_mut(2).unwrap() = 'y';
    assert_eq!(set.get(2), Some(&'y'));
    *set.index_mut(1) = 'z';
    assert_eq!(set[1], 'z');
    assert_eq!(set.get_mut(0), None);
    assert_eq!(set.get_mut(7), None);
    assert_eq!(set.get_pin_mut(0), None);
}

#[test]
fn token_zero_is_no_stream() {
    let mut set = StreamUnordered::from_iter(vec!['a']);
    assert!(!set.remove(0));
    assert_eq!(set.take(0), None);
    assert_eq!(set.is_finished(0), None);
    assert!(set.waker_ref(0).is_none());
    assert_eq!(set.len(), 1);
}

#[test]
fn removed_stream_is_gone() {
    let mut set = StreamUnordered::from_iter(vec!['a', 'b']);
    assert!(set.remove(1));
    assert!(!set.remove(1));
    assert_eq!(set.get(1), None);
    assert_eq!(set.is_finished(1), None);
    assert_eq!(set.get(2), Some(&'b'));
    assert_eq!(set.len(), 1);
    assert!(!set.remove(5));
}

#[test]
fn stream_is_taken_out() {
    let mut set = StreamUnordered::from_iter(vec![String::from("a"), String::from("b")]);
    assert_eq!(set.take(2), Some(String::from("b")));
    assert_eq!(set.take(2), None);
    assert_eq!(set.take(9), None);
    assert_eq!(set.len(), 1);
    assert_eq!(set.take(1), Some(String::from("a")));
    assert!(set.is_empty());
}

#[test]
fn token_given_back_last_is_reused_first() {
    let mut set = StreamUnordered::from_iter(vec!['a', 'b', 'c']);
    set.remove(1);
    set.remove(3);
    assert_eq!(set.insert('d'), 3);
    assert_eq!(set.insert('e'), 1);
    assert_eq!(set.insert('f'), 4);
    assert_eq!(set.get(1), Some(&'e'));
    assert_eq!(set.get(2), Some(&'b'));
    assert_eq!(set.get(3), Some(&'d'));
    assert_eq!(set.get(4), Some(&'f'));
}

#[test]
fn insertion_is_undone_by_removal() {
    let mut set = StreamUnordered::from_iter(vec!['a']);
    let token = set.insert('b');
    assert_eq!(set.take(token), Some('b'));
    assert_eq!(set.len(), 1);
    assert_eq!(set.get(1), Some(&'a'));
    assert_eq!(set.insert('c'), token);
}

#[test]
fn entry_knows_its_token() {
    let mut set = StreamUnordered::new();
    set.insert(String::from("first"));
    let entry = set.stream_entry();
    let token = entry.token();
    entry.insert(format!("stream {}", token));
    assert_eq!(token, 2);
    assert_eq!(set.get(2), Some(&String::from("stream 2")));
}

#[test]
fn entry_returns_the_stored_stream() {
    let mut set = StreamUnordered::from_iter(vec!['a']);
    let entry = set.stream_entry();
    let stored = entry.insert('b');
    assert_eq!(*stored, 'b');
    *stored = 'c';
    assert_eq!(set.get(2), Some(&'c'));
    assert_eq!(set.get(1), Some(&'a'));
    assert_eq!(set.len(), 2);
}

#[test]
fn entry_that_is_dropped_leaves_its_slot_vacant() {
    let mut set = StreamUnordered::from_iter(vec!['a']);
    let entry = set.stream_entry();
    assert_eq!(entry.token(), 2);
    drop(entry);
    assert_eq!(set.len(), 1);
    assert_eq!(set.get(2), None);
    assert_eq!(set.insert('b'), 2);
    assert_eq!(set.get(1), Some(&'a'));
    assert_eq!(set.get(2), Some(&'b'));
}

#[test]
fn cleared_set_is_empty() {
    let mut set = StreamUnordered::from_iter(vec!['a', 'b', 'c']);
    set.clear();
    assert!(set.is_empty());
    assert_eq!(set.len(), 0);
    assert_eq!(set.get(1), None);
    // The streams leave in the order c, b, a.
    assert_eq!(set.insert('d'), 1);
    assert_eq!(set.insert('e'), 2);
    assert_eq!(set.insert('f'), 3);
    assert_eq!(set.insert('g'), 4);
}

#[test]
fn set_of_a_sequence() {
    let set = StreamUnordered::from_iter(vec!['a', 'b', 'c']);
    assert_eq!(set.len(), 3);
    assert_eq!(set.get(1), Some(&'a'));
    assert_eq!(set.get(2), Some(&'b'));
    assert_eq!(set.get(3), Some(&'c'));
    let set: StreamUnordered<char> = StreamUnordered::from_iter(vec![]);
    assert!(set.is_empty());
}

#[test]
fn limit_leaves_room_for_the_token_table() {
    // An entry of the table takes up two words, and the table doubles when it grows.
    assert!(MAX_STREAMS <= isize::MAX as usize / 32);
}

#[test]
fn many_streams_come_and_go() {
    let mut set = StreamUnordered::new();
    for i in 0..200 {
        assert_eq!(set.insert(i), i + 1);
    }
    for i in 0..100 {
        assert_eq!(set.take(2 * i + 1), Some(2 * i));
    }
    assert_eq!(set.len(), 100);
    for i in (0..100).rev() {
        assert_eq!(set.insert(1000 + i), 2 * i + 1);
    }
    for i in 0..100 {
        assert_eq!(set.get(2 * i + 1), Some(&(1000 + i)));
        assert_eq!(set.get(2 * i + 2), Some(&(2 * i + 1)));
    }
}
