use std::future::ready;

use futures_util::stream;
use streamunordered::StreamUnordered;

#[test]
fn iter_methods() {
    let mut streams = StreamUnordered::new();
    for i in 0..5 {
        streams.insert(stream::once(ready(i)));
    }

    let mut tokens = Vec::new();
    let mut iter = streams.iter_with_token();
    while let Some((_, token)) = iter.next() {
        tokens.push(token);
    }
    tokens.sort(); // We sort as order is not guaranteed.
    assert_eq!(tokens, vec![1, 2, 3, 4, 5]);

    assert_eq!(streams.iter_mut().len(), 5);

    let mut tokens = Vec::new();
    let mut iter = streams.iter_mut_with_token();
    while let Some((_, token)) = iter.next() {
        tokens.push(token);
    }
    tokens.sort(); // We sort as order is not guaranteed.
    assert_eq!(tokens, vec![1, 2, 3, 4, 5]);

    assert_eq!(streams.iter_pin_mut().len(), 5);

    let mut tokens = Vec::new();
    let mut iter = streams.iter_pin_mut_with_token();
    while let Some((_, token)) = iter.next() {
        tokens.push(token);
    }
    tokens.sort(); // We sort as order is not guaranteed.
    assert_eq!(tokens, vec![1, 2, 3, 4, 5]);
}

fn visited(set: &StreamUnordered<char>) -> Vec<(char, usize)> {
    let mut found = Vec::new();
    let mut iter = set.iter_with_token();
    while let Some((stream, token)) = iter.next() {
        found.push((*stream, token));
    }
    found
}

#[test]
fn newest_stream_is_visited_first() {
    let set = StreamUnordered::from_iter(vec!['a', 'b', 'c']);
    assert_eq!(visited(&set), vec![('c', 3), ('b', 2), ('a', 1)]);
}

#[test]
fn removed_stream_is_not_visited() {
    // The head, the middle and the end of the list
    for gone in 1..4 {
        let mut set = StreamUnordered::from_iter(vec!['a', 'b', 'c']);
        assert!(set.remove(gone));
        let mut expected = vec![('c', 3), ('b', 2), ('a', 1)];
        expected.retain(|&(_, token)| token != gone);
        assert_eq!(visited(&set), expected);
        assert_eq!(set.len(), 2);
        set.insert('d');
        expected.insert(0, ('d', gone));
        assert_eq!(visited(&set), expected);
        assert_eq!(set.len(), 3);
    }
}

#[test]
fn iterators_count_down() {
    let mut set = StreamUnordered::from_iter(vec!['a', 'b']);

    let mut iter = set.iter_with_token();
    assert_eq!(iter.size_hint(), (2, Some(2)));
    assert_eq!(iter.next(), Some((&'b', 2)));
    assert_eq!(iter.size_hint(), (1, Some(1)));
    assert_eq!(iter.len(), 1);
    assert_eq!(iter.next(), Some((&'a', 1)));
    assert_eq!(iter.len(), 0);
    assert_eq!(iter.next(), None);
    assert_eq!(iter.next(), None);

    let mut iter = set.iter_pin_mut_with_token();
    assert_eq!(iter.size_hint(), (2, Some(2)));
    assert_eq!(iter.next(), Some((&mut 'b', 2)));
    assert_eq!(iter.len(), 1);
    assert_eq!(iter.next(), Some((&mut 'a', 1)));
    assert_eq!(iter.size_hint(), (0, Some(0)));
    assert_eq!(iter.next(), None);

    let mut iter = set.iter_pin_mut();
    assert_eq!(iter.size_hint(), (2, Some(2)));
    assert_eq!(iter.next(), Some(&mut 'b'));
    assert_eq!(iter.next(), Some(&mut 'a'));
    assert_eq!(iter.next(), None);

    let mut iter = set.iter_mut_with_token();
    assert_eq!(iter.len(), 2);
    assert_eq!(iter.next(), Some((&mut 'b', 2)));
    assert_eq!(iter.size_hint(), (1, Some(1)));
    assert_eq!(iter.next(), Some((&mut 'a', 1)));
    assert_eq!(iter.next(), None);

    let mut iter = set.iter_mut();
    assert_eq!(iter.size_hint(), (2, Some(2)));
    assert_eq!(iter.next(), Some(&mut 'b'));
    assert_eq!(iter.next(), Some(&mut 'a'));
    assert_eq!(iter.next(), None);
}

#[test]
fn streams_are_changed_through_iterators() {
    let mut set = StreamUnordered::from_iter(vec!['a', 'b', 'c']);
    set.remove(2);

    let mut iter = set.iter_mut_with_token();
    while let Some((stream, token)) = iter.next() {
        if token == 3 {
            *stream = 'x';
        }
    }
    assert_eq!(visited(&set), vec![('x', 3), ('a', 1)]);

    let mut iter = set.iter_mut();
    while let Some(stream) = iter.next() {
        *stream = stream.to_ascii_uppercase();
    }
    assert_eq!(visited(&set), vec![('X', 3), ('A', 1)]);

    *set.iter_pin_mut().next().unwrap() = 'y';
    assert_eq!(visited(&set), vec![('y', 3), ('A', 1)]);
}

#[test]
fn empty_set_has_nothing_to_visit() {
    let mut set: StreamUnordered<char> = StreamUnordered::new();
    assert_eq!(visited(&set), vec![]);
    assert_eq!(set.iter_with_token().len(), 0);
    assert_eq!(set.iter_mut().len(), 0);
    assert_eq!(set.iter_mut().next(), None);
}
