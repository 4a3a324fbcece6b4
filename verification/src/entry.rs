//! Inserting streams into a set.
use vstd::prelude::*;

use crate::model::SetView;
use crate::rep::{lemma_stream_count, lemma_valid};
use crate::set::StreamUnordered;
use crate::slots::{slab_vacant_key, MAX_STREAMS};

verus! {

/// A handle to a vacant stream slot in a `StreamUnordered`.
///
/// `StreamEntry` allows constructing streams that hold the token that they will be assigned. An
/// entry that is dropped leaves the slot vacant.
#[non_exhaustive]
pub struct StreamEntry<'a, S> {
    /// The token of the slot.
    pub token: usize,
    /// The set that the slot belongs to.
    pub backref: &'a mut StreamUnordered<S>,
}

impl<'a, S> StreamEntry<'a, S> {
    /// Insert a stream in the slot, and return a mutable reference to the value.
    ///
    /// To get the token associated with the stream, use [`StreamEntry::token`] prior to calling
    /// insert.
    pub fn insert(self, stream: S) -> (stored: &'a mut S)
        requires
            self.backref.wf(),
            self.backref@.streams.dom().len() < MAX_STREAMS,
            self.token == self.backref@.next_token(),
        ensures
            *stored == stream,
            final(self.backref).wf(),
            final(self.backref)@ == old(self.backref)@.inserted(stream).with_stream(
                self.token,
                *final(stored),
            ),
    {
        self.backref.fill_next_slot(stream);
        self.backref.index_mut(self.token)
    }

    /// Return the token associated with this slot.
    ///
    /// A stream stored in this slot will be associated with this token.
    pub fn token(&self) -> (token: usize)
        ensures
            token == self.token,
    {
        self.token
    }
}

impl<S> StreamUnordered<S> {
    /// Returns a handle to a vacant stream entry allowing for further manipulation.
    ///
    /// This function is useful when creating values that must contain their stream token. The
    /// returned `StreamEntry` reserves an entry for the stream and is able to query the associated
    /// token.
    pub fn stream_entry<'a>(&'a mut self) -> (entry: StreamEntry<'a, S>)
        requires
            old(self).wf(),
            old(self)@.streams.dom().len() < MAX_STREAMS,
        ensures
            entry.token == old(self)@.next_token(),
            entry.backref.wf(),
            entry.backref@ == old(self)@.reserved(),
            *final(entry.backref) == *final(self),
    {
        proof {
            lemma_stream_count(*self);
        }
        let token = slab_vacant_key(&self.by_id);
        // The end of the set has to be announced anew.
        self.is_terminated = false;
        assert(self@ =~= old(self)@.reserved());
        StreamEntry { token, backref: self }
    }

    /// Insert a stream into the set.
    ///
    /// A synonym for [`StreamUnordered::insert`].
    pub fn push(&mut self, stream: S) -> (token: usize)
        requires
            old(self).wf(),
            old(self)@.streams.dom().len() < MAX_STREAMS,
        ensures
            final(self).wf(),
            token == old(self)@.next_token(),
            final(self)@ == old(self)@.inserted(stream),
    {
        self.insert(stream)
    }

    /// Insert a stream into the set.
    ///
    /// This method adds the given stream to the set. The stream is not polled before the next call
    /// of `poll_next`.
    ///
    /// The returned token is an identifier that uniquely identifies the given stream in the current
    /// set. To get a handle to the inserted stream, pass the token to [`StreamUnordered::get`] or
    /// [`StreamUnordered::get_mut`]. The same token will be yielded whenever an element is pulled
    /// from this stream.
    ///
    /// Note that the streams are not ordered, and may not be yielded back in insertion or token
    /// order when you iterate over them.
    pub fn insert(&mut self, stream: S) -> (token: usize)
        requires
            old(self).wf(),
            old(self)@.streams.dom().len() < MAX_STREAMS,
        ensures
            final(self).wf(),
            token == old(self)@.next_token(),
            final(self)@ == old(self)@.inserted(stream),
    {
        let s = self.stream_entry();
        let token = s.token();
        let _ = s.insert(stream);
        assert(self@.streams =~= old(self)@.inserted(stream).streams);
        token
    }

    /// Constructs a set of the given streams, inserted one after the other.
    pub fn from_iter(streams: Vec<S>) -> (set: Self)
        requires
            streams@.len() <= MAX_STREAMS,
        ensures
            set.wf(),
            set@ == SetView::<S>::empty().inserted_all(streams@),
    {
        let mut acc: StreamUnordered<S> = StreamUnordered::new();
        let ghost all = streams@;
        proof {
            assert(all.take(0) =~= Seq::<S>::empty());
        }
        for stream in it: streams
            invariant
                acc.wf(),
                it.seq() == all,
                all.len() <= MAX_STREAMS,
                acc@.streams.dom().len() == it.index(),
                acc@ == SetView::<S>::empty().inserted_all(all.take(it.index() as int)),
        {
            proof {
                lemma_valid(acc);
                let next = all.take(it.index() + 1);
                assert(next.drop_last() =~= all.take(it.index() as int));
            }
            let _ = acc.insert(stream);
        }
        proof {
            assert(all.take(all.len() as int) =~= all);
        }
        acc
    }
}

impl<S> Default for StreamUnordered<S> {
    fn default() -> (set: Self)
        ensures
            set.wf(),
            set@ == SetView::<S>::empty(),
    {
        StreamUnordered::new()
    }
}

} // verus!
