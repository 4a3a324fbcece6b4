# streamunordered

A set of streams that are polled together: the streams are inserted into the set, and their values
are yielded as they are produced, each with the token of its stream.

- `src/` is the set itself, verified with Verus: the tokens, the list of all streams, the queue of
  the streams that have been woken, and the decisions of a poll. `src/model.rs` says what a set is
  and what each operation makes of it, `src/history.rs` what can happen to a set over time, and
  `src/laws.rs`, with the files in `src/laws/`, states what holds of it as a whole. The token table
  is a `slab::Slab`; what is taken for granted of it is in `src/slots.rs`.
- `app/` makes a `Stream` of the set: it polls the streams that the set asks for, and delivers their
  wake-ups, which may come from any thread.
- `tests/` runs the set.
