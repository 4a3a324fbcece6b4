//! What a set of streams yields.
use vstd::prelude::*;
use vstd::std_specs::cmp::PartialEqSpec;
use vstd::std_specs::cmp::PartialEqSpecImpl;

use crate::set::StreamUnordered;

verus! {

/// An event that occurred for a managed stream.
pub enum StreamYield<I> {
    /// The underlying stream produced an item.
    Item(I),
    /// The underlying stream has completed.
    Finished(FinishedStream),
}

/// Two events are equal if both are items and the items are equal. The end of a stream is equal to
/// nothing, not even to itself.
impl<I: PartialEq> PartialEq for StreamYield<I> {
    fn eq(&self, other: &Self) -> (equal: bool) {
        match (self, other) {
            (StreamYield::Item(s), StreamYield::Item(o)) => s == o,
            _ => false,
        }
    }
}

impl<I: PartialEq> PartialEqSpecImpl for StreamYield<I> {
    open spec fn obeys_eq_spec() -> bool {
        I::obeys_eq_spec()
    }

    open spec fn eq_spec(&self, other: &Self) -> bool {
        match (self, other) {
            (StreamYield::Item(s), StreamYield::Item(o)) => s.eq_spec(o),
            _ => false,
        }
    }
}

/// A stream that has yielded all the items it ever will.
///
/// The underlying stream stays in its `StreamUnordered` until it is removed from it. This value is
/// marked `#[must_use]` so that its holder either removes the stream at once, or asks for it to be
/// kept around for later use.
#[must_use]
#[non_exhaustive]
pub struct FinishedStream {
    /// The token of the stream.
    pub token: usize,
}

impl FinishedStream {
    /// Remove the exhausted stream.
    ///
    /// See [`StreamUnordered::remove`].
    pub fn remove<S>(self, so: &mut StreamUnordered<S>)
        requires
            old(so).wf(),
        ensures
            final(so).wf(),
            old(so)@.streams.contains_key(self.token) ==> final(so)@ == old(so)@.removed(
                self.token,
            ),
            !old(so)@.streams.contains_key(self.token) ==> *final(so) == *old(so),
    {
        so.remove(self.token);
    }

    /// Take the exhausted stream.
    ///
    /// See [`StreamUnordered::take`].
    pub fn take<S>(self, so: &mut StreamUnordered<S>) -> (stream: Option<S>)
        requires
            old(so).wf(),
        ensures
            final(so).wf(),
            match stream {
                Some(s) => {
                    &&& old(so)@.streams.contains_key(self.token)
                    &&& s == old(so)@.streams[self.token].stream
                    &&& final(so)@ == old(so)@.removed(self.token)
                },
                None => {
                    &&& !old(so)@.streams.contains_key(self.token)
                    &&& *final(so) == *old(so)
                },
            },
    {
        so.take(self.token)
    }

    /// Leave the exhausted stream in the `StreamUnordered`.
    ///
    /// The stream can still be reached through [`StreamUnordered::get_mut`] and friends. It is not
    /// dropped until it is removed or taken.
    pub fn keep(self) {
    }

    /// Return the token associated with the exhausted stream.
    pub fn token(self) -> (token: usize)
        ensures
            token == self.token,
    {
        self.token
    }
}

} // verus!
