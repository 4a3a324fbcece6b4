//! How the cells of a set represent its streams.
use vstd::prelude::*;

use crate::model::{next_serial, SetView, StreamState};
use crate::set::StreamUnordered;
use crate::slots::{
    after_insertion, keys_ok, lemma_keys_insert, lemma_keys_remove, next_key, slab_contents,
    slab_vacated, MAX_STREAMS,
};
use crate::step::YIELD_EVERY;
use crate::task::{Link, Task};

verus! {

/// The cell after position `i` of the list `all`.
pub(crate) open spec fn next_of(all: Seq<usize>, i: int) -> Link {
    if i + 1 < all.len() {
        Link::To(all[i + 1])
    } else {
        Link::End
    }
}

/// The cell before position `i` of the list `all`.
pub(crate) open spec fn prev_of(all: Seq<usize>, i: int) -> Option<usize> {
    if i > 0 {
        Some(all[i - 1])
    } else {
        None
    }
}

/// The cell at position `i` of the list `all` is linked to its neighbours.
pub(crate) open spec fn node_ok<S>(tasks: Seq<Task<S>>, all: Seq<usize>, i: int) -> bool {
    &&& 0 < all[i] < tasks.len()
    &&& tasks[all[i] as int].next_all == next_of(all, i)
    &&& tasks[all[i] as int].prev_all == prev_of(all, i)
}

/// The cells of `all`, and no others, are linked to a list with this head.
pub(crate) open spec fn list_ok<S>(
    tasks: Seq<Task<S>>,
    all: Seq<usize>,
    head: Option<usize>,
) -> bool {
    &&& all.no_duplicates()
    &&& forall|i: int| 0 <= i < all.len() ==> #[trigger] node_ok(tasks, all, i)
    &&& head == (if all.len() > 0 {
        Some(all[0])
    } else {
        None
    })
    &&& all.len() > 0 ==> tasks[all[0] as int].len_all == all.len()
    &&& forall|c: usize|
        #![trigger tasks[c as int]]
        c < tasks.len() && !all.contains(c) ==> tasks[c as int].is_detached()
}

/// The cells differ at most in their places in the list of all streams.
pub(crate) open spec fn same_cores<S>(a: Seq<Task<S>>, b: Seq<Task<S>>) -> bool {
    &&& a.len() == b.len()
    &&& forall|i: int|
        #![trigger a[i]]
        #![trigger b[i]]
        0 <= i < a.len() ==> a[i].same_core(&b[i])
}

/// The two sequences of cells have the same links.
pub(crate) open spec fn same_links<S>(a: Seq<Task<S>>, b: Seq<Task<S>>) -> bool {
    &&& a.len() == b.len()
    &&& forall|i: int|
        #![trigger a[i]]
        #![trigger b[i]]
        0 <= i < a.len() ==> a[i].next_all == b[i].next_all && a[i].prev_all == b[i].prev_all
            && a[i].len_all == b[i].len_all
}

/// Whether cells are linked to a list depends on their links alone.
pub(crate) proof fn lemma_same_links<S>(
    a: Seq<Task<S>>,
    b: Seq<Task<S>>,
    all: Seq<usize>,
    head: Option<usize>,
)
    requires
        list_ok(a, all, head),
        same_links(a, b),
    ensures
        list_ok(b, all, head),
{
    assert forall|i: int| 0 <= i < all.len() implies #[trigger] node_ok(b, all, i) by {
        assert(node_ok(a, all, i));
    }
    if all.len() > 0 {
        assert(node_ok(a, all, 0));
    }
    assert forall|c: usize|
        #![trigger b[c as int]]
        c < b.len() && !all.contains(c) implies b[c as int].is_detached() by {
        assert(a[c as int].is_detached());
    }
}

/// The cell at position `k` of the list `all` has been bypassed, and is not linked any more.
pub(crate) open spec fn bypassed<S>(
    old_task: Task<S>,
    new_task: Task<S>,
    c: usize,
    all: Seq<usize>,
    k: int,
) -> bool {
    &&& new_task.next_all == if c == all[k] {
        Link::Pending
    } else if k > 0 && c == all[k - 1] {
        next_of(all, k)
    } else {
        old_task.next_all
    }
    &&& new_task.prev_all == if c == all[k] {
        None
    } else if k + 1 < all.len() && c == all[k + 1] {
        prev_of(all, k)
    } else {
        old_task.prev_all
    }
}

/// Bypassing a cell takes it out of the list.
pub(crate) proof fn lemma_unlinked<S>(
    old_tasks: Seq<Task<S>>,
    new_tasks: Seq<Task<S>>,
    all: Seq<usize>,
    k: int,
    head: Option<usize>,
)
    requires
        all.no_duplicates(),
        0 <= k < all.len(),
        forall|i: int| 0 <= i < all.len() ==> #[trigger] node_ok(old_tasks, all, i),
        forall|c: usize|
            #![trigger old_tasks[c as int]]
            c < old_tasks.len() && !all.contains(c) ==> old_tasks[c as int].is_detached(),
        new_tasks.len() == old_tasks.len(),
        forall|c: usize|
            #![trigger new_tasks[c as int]]
            c < new_tasks.len() ==> bypassed(
                old_tasks[c as int],
                new_tasks[c as int],
                c,
                all,
                k,
            ),
        head == (if all.remove(k).len() > 0 {
            Some(all.remove(k)[0])
        } else {
            None
        }),
        all.remove(k).len() > 0 ==> new_tasks[all.remove(k)[0] as int].len_all == all.len() - 1,
    ensures
        list_ok(new_tasks, all.remove(k), head),
{
    let after = all.remove(k);
    assert(after.no_duplicates());
    assert forall|i: int| 0 <= i < after.len() implies #[trigger] node_ok(new_tasks, after, i) by {
        let j = if i < k {
            i
        } else {
            i + 1
        };
        assert(after[i] == all[j]);
        assert(node_ok(old_tasks, all, j));
        assert(bypassed(
            old_tasks[after[i] as int],
            new_tasks[after[i] as int],
            after[i],
            all,
            k,
        ));
        assert(all[j] != all[k]);
        if k > 0 {
            assert(all[j] == all[k - 1] <==> j == k - 1);
        }
        if k + 1 < all.len() {
            assert(all[j] == all[k + 1] <==> j == k + 1);
        }
    }
    assert forall|c: usize|
        #![trigger new_tasks[c as int]]
        c < new_tasks.len() && !after.contains(c) implies new_tasks[c as int].is_detached() by {
        if c != all[k] {
            if all.contains(c) {
                let j = all.index_of(c);
                let i = if j < k {
                    j
                } else {
                    j - 1
                };
                assert(after[i] == c);
            }
            assert(old_tasks[c as int].is_detached());
            if k > 0 {
                assert(all.contains(all[k - 1]));
            }
            if k + 1 < all.len() {
                assert(all.contains(all[k + 1]));
            }
        }
    }
}

/// The cell holds a stream.
pub(crate) open spec fn live<S>(tasks: Seq<Task<S>>, c: usize) -> bool {
    0 < c < tasks.len() && tasks[c as int].stream is Some
}

/// The cells that hold a stream are those of the list `all` and the one that is being polled.
pub(crate) open spec fn members_ok<S>(
    tasks: Seq<Task<S>>,
    all: Seq<usize>,
    polling: Option<usize>,
) -> bool {
    &&& forall|c: usize|
        #![trigger live(tasks, c)]
        #![trigger all.contains(c)]
        live(tasks, c) <==> all.contains(c) || polling == Some(c)
    &&& polling matches Some(c) ==> !all.contains(c) && !tasks[c as int].is_done
}

/// The token of each stream leads to its cell, and token 0 to the cell that holds no stream.
pub(crate) open spec fn tokens_ok<S>(
    tasks: Seq<Task<S>>,
    contents: Map<usize, usize>,
) -> bool {
    &&& contents.contains_key(0)
    &&& contents[0] == 0
    &&& forall|k: usize|
        #![trigger contents.contains_key(k)]
        contents.contains_key(k) && k != 0 ==> live(tasks, contents[k])
            && tasks[contents[k] as int].id == k
    &&& forall|c: usize|
        #![trigger live(tasks, c)]
        live(tasks, c) ==> {
            &&& tasks[c as int].id != 0
            &&& contents.contains_key(tasks[c as int].id)
            &&& contents[tasks[c as int].id] == c
        }
}

/// The queue holds exactly the cells that are marked as enqueued, each once, and every stream that
/// counts as woken is in it unless it has finished.
pub(crate) open spec fn queue_ok<S>(tasks: Seq<Task<S>>, queue: Seq<usize>) -> bool {
    &&& queue.no_duplicates()
    &&& forall|i: int|
        #![trigger queue[i]]
        0 <= i < queue.len() ==> 0 < queue[i] < tasks.len() && tasks[queue[i] as int].enqueued
    &&& forall|c: usize|
        #![trigger tasks[c as int]]
        c < tasks.len() && tasks[c as int].enqueued ==> queue.contains(c)
            && tasks[c as int].queued
    &&& forall|c: usize|
        #![trigger live(tasks, c)]
        live(tasks, c) && !tasks[c as int].is_done && tasks[c as int].queued
            ==> tasks[c as int].enqueued
}

/// The cell can be used for a new stream.
pub(crate) open spec fn is_vacant<S>(tasks: Seq<Task<S>>, c: usize) -> bool {
    0 < c < tasks.len() && tasks[c as int].stream is None && !tasks[c as int].enqueued
}

/// The cells of `vacant` are those that can be used for a new stream, each once.
pub(crate) open spec fn vacant_ok<S>(tasks: Seq<Task<S>>, vacant: Seq<usize>) -> bool {
    &&& vacant.no_duplicates()
    &&& forall|c: usize|
        #![trigger is_vacant(tasks, c)]
        #![trigger vacant.contains(c)]
        is_vacant(tasks, c) <==> vacant.contains(c)
}

/// What a cell contributes to the streams of the set.
pub(crate) open spec fn state_of<S>(task: Task<S>) -> StreamState<S> {
    StreamState {
        stream: task.stream.unwrap(),
        serial: task.serial,
        finished: task.is_done,
        queued: task.queued,
    }
}

/// What a cell contributes to the queue of the set.
pub(crate) open spec fn entry_of<S>(task: Task<S>) -> Option<usize> {
    if task.stream is Some {
        Some(task.id)
    } else {
        None
    }
}

impl<S> StreamUnordered<S> {
    /// The cells represent a set, which may be in the middle of a call of `poll_next`.
    pub open(crate) spec fn rep(&self) -> bool {
        &&& self.tasks@.len() > 0
        &&& self.tasks@[0].stream is None
        &&& !self.tasks@[0].enqueued
        &&& list_ok(self.tasks@, self.all@, self.head_all)
        &&& members_ok(self.tasks@, self.all@, self.polling)
        &&& tokens_ok(self.tasks@, slab_contents(self.by_id))
        &&& keys_ok(slab_contents(self.by_id), slab_vacated(self.by_id))
        &&& queue_ok(self.tasks@, self.ready_to_run_queue@)
        &&& vacant_ok(self.tasks@, self.vacant@)
        &&& slab_contents(self.by_id).dom().len() == self.all@.len() + 1 + (
        if self.polling is Some {
            1int
        } else {
            0
        })
        &&& slab_contents(self.by_id).dom().len() <= MAX_STREAMS + 1
        &&& self.is_terminated ==> slab_contents(self.by_id).dom().len() == 1
    }

    /// The set is well formed. A stream of it may be in the middle of being polled.
    pub open(crate) spec fn inv(&self) -> bool {
        &&& self.rep()
        &&& if self.polling is Some {
            self.polled < YIELD_EVERY
        } else {
            self.polled == 0
        }
    }

    /// The set is well formed, and none of its streams is being polled.
    pub open spec fn wf(&self) -> bool {
        self.inv() && self@.polling is None
    }
}

impl<S> View for StreamUnordered<S> {
    type V = SetView<S>;

    open(crate) spec fn view(&self) -> SetView<S> {
        let contents = slab_contents(self.by_id);
        SetView {
            streams: Map::new(
                |k: usize| contents.contains_key(k) && k != 0,
                |k: usize| state_of(self.tasks@[contents[k] as int]),
            ),
            order: Seq::new(
                self.all@.len(),
                |i: int| self.tasks@[self.all@[i] as int].id,
            ),
            ready: Seq::new(
                self.ready_to_run_queue@.len(),
                |i: int| entry_of(self.tasks@[self.ready_to_run_queue@[i] as int]),
            ),
            reusable: slab_vacated(self.by_id),
            next_serial: self.next_serial,
            terminated: self.is_terminated,
            polling: match self.polling {
                Some(c) => Some(self.tasks@[c as int].id),
                None => None,
            },
            polled: self.polled as nat,
        }
    }
}

/// The cells other than `cell` hold what they held, and `cell` is the only one that may be new.
pub(crate) open spec fn same_but<S>(
    old_tasks: Seq<Task<S>>,
    new_tasks: Seq<Task<S>>,
    cell: usize,
) -> bool {
    &&& old_tasks.len() <= new_tasks.len()
    &&& cell < new_tasks.len() <= old_tasks.len() + 1
    &&& new_tasks.len() > old_tasks.len() ==> cell == old_tasks.len()
    &&& forall|c: int|
        #![trigger old_tasks[c]]
        #![trigger new_tasks[c]]
        0 <= c < old_tasks.len() && c != cell ==> old_tasks[c].same_core(&new_tasks[c])
}

/// A stream that has been put into a vacant cell, linked and enqueued is part of the set.
pub(crate) proof fn lemma_inserted<S>(
    before: StreamUnordered<S>,
    after: StreamUnordered<S>,
    cell: usize,
    stream: S,
)
    requires
        before.rep(),
        before@.streams.dom().len() < MAX_STREAMS,
        if cell < before.tasks@.len() {
            &&& is_vacant(before.tasks@, cell)
            &&& before.vacant@.len() > 0
            &&& cell == before.vacant@.last()
            &&& after.vacant@ == before.vacant@.drop_last()
        } else {
            &&& after.tasks@.len() > before.tasks@.len()
            &&& after.vacant@ == before.vacant@
        },
        same_but(before.tasks@, after.tasks@, cell),
        after.tasks@[cell as int].stream == Some(stream),
        after.tasks@[cell as int].id == before@.next_token(),
        after.tasks@[cell as int].serial == before.next_serial,
        after.next_serial == next_serial(before.next_serial),
        !after.tasks@[cell as int].is_done,
        after.tasks@[cell as int].queued,
        after.tasks@[cell as int].enqueued,
        after.all@ == seq![cell] + before.all@,
        list_ok(after.tasks@, after.all@, after.head_all),
        slab_contents(after.by_id) == slab_contents(before.by_id).insert(
            before@.next_token(),
            cell,
        ),
        slab_vacated(after.by_id) == after_insertion(slab_vacated(before.by_id)),
        after.ready_to_run_queue@ == before.ready_to_run_queue@.push(cell),
        after.polling == before.polling,
        after.polled == before.polled,
        !after.is_terminated,
    ensures
        after.rep(),
        after@ == before@.inserted(stream),
{
    let token = before@.next_token();
    let contents = slab_contents(before.by_id);
    let vacated = slab_vacated(before.by_id);
    lemma_stream_count(before);
    lemma_keys_insert(contents, vacated, cell);
    assert(token == next_key(contents, vacated));
    assert(!live(before.tasks@, cell));
    assert forall|c: usize|
        #![trigger live(after.tasks@, c)]
        live(after.tasks@, c) <==> live(before.tasks@, c) || c == cell by {
        if c != cell && c < before.tasks@.len() {
            assert(before.tasks@[c as int].same_core(&after.tasks@[c as int]));
        }
    }
    // members
    assert forall|c: usize|
        #![trigger live(after.tasks@, c)]
        #![trigger after.all@.contains(c)]
        live(after.tasks@, c) <==> after.all@.contains(c) || after.polling == Some(c) by {
        assert(after.all@[0] == cell);
        assert(live(before.tasks@, c) <==> before.all@.contains(c) || before.polling == Some(c));
        if before.all@.contains(c) {
            assert(after.all@[before.all@.index_of(c) + 1] == c);
        }
        if after.all@.contains(c) && c != cell {
            let i = after.all@.index_of(c);
            assert(before.all@[i - 1] == c);
        }
    }
    if let Some(c) = before.polling {
        assert(live(before.tasks@, c));
        assert(before.tasks@[c as int].same_core(&after.tasks@[c as int]));
        if after.all@.contains(c) {
            let i = after.all@.index_of(c);
            assert(before.all@[i - 1] == c);
        }
    }
    // tokens
    assert forall|k: usize|
        #![trigger slab_contents(after.by_id).contains_key(k)]
        slab_contents(after.by_id).contains_key(k) && k != 0 implies live(
        after.tasks@,
        slab_contents(after.by_id)[k],
    ) && after.tasks@[slab_contents(after.by_id)[k] as int].id == k by {
        if k != token {
            assert(contents.contains_key(k));
            assert(live(before.tasks@, contents[k]));
        }
    }
    assert forall|c: usize| #![trigger live(after.tasks@, c)] live(after.tasks@, c) implies {
        &&& after.tasks@[c as int].id != 0
        &&& slab_contents(after.by_id).contains_key(after.tasks@[c as int].id)
        &&& slab_contents(after.by_id)[after.tasks@[c as int].id] == c
    } by {
        if c != cell {
            assert(live(before.tasks@, c));
            assert(before.tasks@[c as int].same_core(&after.tasks@[c as int]));
        }
    }
    // queue
    let queue = before.ready_to_run_queue@;
    assert(!queue.contains(cell)) by {
        if queue.contains(cell) {
            let i = queue.index_of(cell);
            assert(before.tasks@[queue[i] as int].enqueued);
        }
    }
    assert forall|i: int|
        #![trigger after.ready_to_run_queue@[i]]
        0 <= i < after.ready_to_run_queue@.len() implies 0 < after.ready_to_run_queue@[i]
        < after.tasks@.len() && after.tasks@[after.ready_to_run_queue@[i] as int].enqueued by {
        if i < queue.len() {
            assert(after.ready_to_run_queue@[i] == queue[i]);
            assert(queue.contains(queue[i]));
        }
    }
    assert forall|c: usize|
        #![trigger after.tasks@[c as int]]
        c < after.tasks@.len() && after.tasks@[c as int].enqueued implies
        after.ready_to_run_queue@.contains(c) && after.tasks@[c as int].queued by {
        if c != cell {
            assert(before.tasks@[c as int].same_core(&after.tasks@[c as int]));
            assert(after.ready_to_run_queue@[queue.index_of(c)] == c);
        } else {
            assert(after.ready_to_run_queue@[queue.len() as int] == cell);
        }
    }
    assert forall|c: usize|
        #![trigger live(after.tasks@, c)]
        live(after.tasks@, c) && !after.tasks@[c as int].is_done && after.tasks@[c as int].queued
        implies after.tasks@[c as int].enqueued by {
        if c != cell {
            assert(live(before.tasks@, c));
            assert(before.tasks@[c as int].same_core(&after.tasks@[c as int]));
        }
    }
    // vacant cells
    assert forall|c: usize|
        #![trigger is_vacant(after.tasks@, c)]
        #![trigger after.vacant@.contains(c)]
        is_vacant(after.tasks@, c) <==> after.vacant@.contains(c) by {
        if c != cell && c < before.tasks@.len() {
            assert(before.tasks@[c as int].same_core(&after.tasks@[c as int]));
        }
        assert(is_vacant(before.tasks@, c) <==> before.vacant@.contains(c));
        if after.vacant@.contains(c) {
            let i = after.vacant@.index_of(c);
            assert(before.vacant@[i] == c);
        }
        if before.vacant@.contains(c) && c != cell {
            let i = before.vacant@.index_of(c);
            assert(after.vacant@[i] == c);
        }
    }
    // the set
    assert(after@.streams =~= before@.inserted(stream).streams) by {
        assert forall|k: usize| after@.streams.contains_key(k) implies after@.streams[k]
            == before@.inserted(stream).streams[k] by {
            if k != token {
                assert(contents.contains_key(k));
                assert(live(before.tasks@, contents[k]));
            }
        }
    }
    assert(after@.order =~= before@.inserted(stream).order) by {
        assert forall|i: int| 0 <= i < after@.order.len() implies after@.order[i]
            == before@.inserted(stream).order[i] by {
            if i > 0 {
                assert(after.all@[i] == before.all@[i - 1]);
                assert(before.all@.contains(before.all@[i - 1]));
                assert(live(before.tasks@, before.all@[i - 1]));
            }
        }
    }
    assert(after@.ready =~= before@.inserted(stream).ready) by {
        assert forall|i: int| 0 <= i < after@.ready.len() implies after@.ready[i]
            == before@.inserted(stream).ready[i] by {
            if i < queue.len() {
                assert(after.ready_to_run_queue@[i] == queue[i]);
                assert(queue.contains(queue[i]));
            }
        }
    }
    if let Some(c) = before.polling {
        assert(live(before.tasks@, c));
    }
}

/// Replacing streams by others changes nothing else.
pub(crate) proof fn lemma_with_streams<S>(before: StreamUnordered<S>, after: StreamUnordered<S>)
    requires
        before.rep(),
        after.tasks@.len() == before.tasks@.len(),
        forall|c: int|
            #![trigger after.tasks@[c]]
            0 <= c < after.tasks@.len() ==> {
                &&& after.tasks@[c] == (Task {
                    stream: after.tasks@[c].stream,
                    ..before.tasks@[c]
                })
                &&& after.tasks@[c].stream is Some <==> before.tasks@[c].stream is Some
            },
        after == (StreamUnordered { tasks: after.tasks, ..before }),
    ensures
        after.rep(),
        after@ == (SetView { streams: after@.streams, ..before@ }),
        after@.streams.dom() == before@.streams.dom(),
        forall|c: usize|
            #![trigger after.tasks@[c as int]]
            live(before.tasks@, c) ==> {
                let token = before.tasks@[c as int].id;
                &&& before@.streams.contains_key(token)
                &&& after@.streams[token] == (StreamState {
                    stream: after.tasks@[c as int].stream.unwrap(),
                    ..before@.streams[token]
                })
            },
{
    let contents = slab_contents(before.by_id);
    lemma_same_links(before.tasks@, after.tasks@, after.all@, after.head_all);
    assert forall|c: usize|
        #![trigger live(after.tasks@, c)]
        live(after.tasks@, c) <==> live(before.tasks@, c) by {
        if c < before.tasks@.len() {
            assert(after.tasks@[c as int].stream is Some
                <==> before.tasks@[c as int].stream is Some);
        }
    }
    assert forall|c: usize|
        #![trigger live(after.tasks@, c)]
        #![trigger after.all@.contains(c)]
        live(after.tasks@, c) <==> after.all@.contains(c) || after.polling == Some(c) by {
        assert(live(before.tasks@, c) <==> before.all@.contains(c) || before.polling == Some(c));
    }
    if let Some(c) = before.polling {
        assert(live(before.tasks@, c));
        assert(after.tasks@[c as int].is_done == before.tasks@[c as int].is_done);
    }
    assert forall|k: usize|
        #![trigger contents.contains_key(k)]
        contents.contains_key(k) && k != 0 implies live(after.tasks@, contents[k])
        && after.tasks@[contents[k] as int].id == k by {
        assert(live(before.tasks@, contents[k]));
    }
    assert forall|c: usize| #![trigger live(after.tasks@, c)] live(after.tasks@, c) implies {
        &&& after.tasks@[c as int].id != 0
        &&& contents.contains_key(after.tasks@[c as int].id)
        &&& contents[after.tasks@[c as int].id] == c
    } by {
        assert(live(before.tasks@, c));
    }
    let queue = before.ready_to_run_queue@;
    assert forall|i: int| #![trigger queue[i]] 0 <= i < queue.len() implies 0 < queue[i]
        < after.tasks@.len() && after.tasks@[queue[i] as int].enqueued by {
        assert(before.tasks@[queue[i] as int].enqueued);
    }
    assert forall|c: usize|
        #![trigger after.tasks@[c as int]]
        c < after.tasks@.len() && after.tasks@[c as int].enqueued implies queue.contains(c)
        && after.tasks@[c as int].queued by {
        assert(before.tasks@[c as int].enqueued);
    }
    assert forall|c: usize|
        #![trigger live(after.tasks@, c)]
        live(after.tasks@, c) && !after.tasks@[c as int].is_done && after.tasks@[c as int].queued
        implies after.tasks@[c as int].enqueued by {
        assert(live(before.tasks@, c));
    }
    assert forall|c: usize|
        #![trigger is_vacant(after.tasks@, c)]
        #![trigger after.vacant@.contains(c)]
        is_vacant(after.tasks@, c) <==> after.vacant@.contains(c) by {
        assert(is_vacant(before.tasks@, c) <==> before.vacant@.contains(c));
        if c < before.tasks@.len() {
            assert(after.tasks@[c as int].stream is Some
                <==> before.tasks@[c as int].stream is Some);
        }
    }
    assert(after@.streams.dom() =~= before@.streams.dom());
    assert(after@.order =~= before@.order) by {
        assert forall|i: int| 0 <= i < after@.order.len() implies after@.order[i]
            == before@.order[i] by {
            assert(before.all@.contains(before.all@[i]));
            assert(live(before.tasks@, before.all@[i]));
        }
    }
    assert(after@.ready =~= before@.ready) by {
        assert forall|i: int| 0 <= i < queue.len() implies after@.ready[i] == before@.ready[i] by {
            assert(before.tasks@[queue[i] as int].enqueued);
        }
    }
    if let Some(c) = before.polling {
        assert(live(before.tasks@, c));
    }
    assert forall|c: usize|
        #![trigger after.tasks@[c as int]]
        live(before.tasks@, c) implies {
        let token = before.tasks@[c as int].id;
        &&& before@.streams.contains_key(token)
        &&& after@.streams[token] == (StreamState {
            stream: after.tasks@[c as int].stream.unwrap(),
            ..before@.streams[token]
        })
    } by {
        let token = before.tasks@[c as int].id;
        assert(contents.contains_key(token) && contents[token] == c);
    }
}

/// Replacing a stream by another one changes nothing else.
pub(crate) proof fn lemma_with_stream<S>(
    before: StreamUnordered<S>,
    after: StreamUnordered<S>,
    cell: usize,
    stream: S,
)
    requires
        before.rep(),
        live(before.tasks@, cell),
        after.tasks@ == before.tasks@.update(
            cell as int,
            Task { stream: Some(stream), ..before.tasks@[cell as int] },
        ),
        after == (StreamUnordered { tasks: after.tasks, ..before }),
    ensures
        after.rep(),
        after@ == before@.with_stream(before.tasks@[cell as int].id, stream),
{
    let contents = slab_contents(before.by_id);
    let token = before.tasks@[cell as int].id;
    lemma_with_streams(before, after);
    let expected = before@.with_stream(token, stream);
    assert(after@.streams =~= expected.streams) by {
        assert(contents.contains_key(token) && contents[token] == cell);
        assert forall|k: usize| after@.streams.contains_key(k) implies after@.streams[k]
            == expected.streams[k] by {
            assert(contents.contains_key(k));
            assert(live(before.tasks@, contents[k]));
            assert(after.tasks@[contents[k] as int].id == k);
        }
    }
}

/// The list of all streams after `cell` has left the set.
pub(crate) open spec fn list_without<S>(set: StreamUnordered<S>, cell: usize) -> Seq<usize> {
    if set.polling == Some(cell) {
        set.all@
    } else {
        set.all@.remove(set.all@.index_of(cell))
    }
}

/// A cell that has been unlinked and emptied, and whose token has been given up, is not part of the
/// set any more.
pub(crate) proof fn lemma_released<S>(
    before: StreamUnordered<S>,
    after: StreamUnordered<S>,
    cell: usize,
)
    requires
        before.rep(),
        live(before.tasks@, cell),
        after.tasks@.len() == before.tasks@.len(),
        same_but(before.tasks@, after.tasks@, cell),
        after.tasks@[cell as int].stream is None,
        after.tasks@[cell as int].queued,
        after.tasks@[cell as int].enqueued == before.tasks@[cell as int].enqueued,
        after.tasks@[cell as int].id == before.tasks@[cell as int].id,
        after.all@ == list_without(before, cell),
        list_ok(after.tasks@, after.all@, after.head_all),
        slab_contents(after.by_id) == slab_contents(before.by_id).remove(
            before.tasks@[cell as int].id,
        ),
        slab_vacated(after.by_id) == slab_vacated(before.by_id).push(
            before.tasks@[cell as int].id,
        ),
        after.ready_to_run_queue@ == before.ready_to_run_queue@,
        after.vacant@ == (if before.tasks@[cell as int].enqueued {
            before.vacant@
        } else {
            before.vacant@.push(cell)
        }),
        after.polling == (if before.polling == Some(cell) {
            None
        } else {
            before.polling
        }),
        after.is_terminated == before.is_terminated,
        after.next_serial == before.next_serial,
    ensures
        after.rep(),
        after@ == (SetView {
            polled: after.polled as nat,
            ..if before.polling == Some(cell) {
                before@.abandoned()
            } else {
                before@.removed(before.tasks@[cell as int].id)
            }
        }),
{
    let token = before.tasks@[cell as int].id;
    let contents = slab_contents(before.by_id);
    let vacated = slab_vacated(before.by_id);
    let queue = before.ready_to_run_queue@;
    let all = before.all@;
    lemma_stream_count(before);
    lemma_keys_remove(contents, vacated, token);
    assert(contents.dom().remove(token) =~= slab_contents(after.by_id).dom());
    assert(all.contains(cell) <==> before.polling != Some(cell));
    assert forall|c: usize|
        #![trigger live(after.tasks@, c)]
        live(after.tasks@, c) <==> live(before.tasks@, c) && c != cell by {
        if c != cell && c < before.tasks@.len() {
            assert(before.tasks@[c as int].same_core(&after.tasks@[c as int]));
        }
    }
    // members
    assert forall|c: usize| #![trigger after.all@.contains(c)]
        after.all@.contains(c) <==> all.contains(c) && c != cell by {
        if before.polling != Some(cell) {
            lemma_remove_contains(all, cell, c);
        }
    }
    assert forall|c: usize|
        #![trigger live(after.tasks@, c)]
        #![trigger after.all@.contains(c)]
        live(after.tasks@, c) <==> after.all@.contains(c) || after.polling == Some(c) by {
        assert(live(before.tasks@, c) <==> all.contains(c) || before.polling == Some(c));
    }
    if let Some(c) = before.polling {
        assert(live(before.tasks@, c));
        assert(c != cell ==> before.tasks@[c as int].same_core(&after.tasks@[c as int]));
    }
    // tokens
    assert forall|k: usize|
        #![trigger slab_contents(after.by_id).contains_key(k)]
        slab_contents(after.by_id).contains_key(k) && k != 0 implies live(
        after.tasks@,
        slab_contents(after.by_id)[k],
    ) && after.tasks@[slab_contents(after.by_id)[k] as int].id == k by {
        assert(contents.contains_key(k));
        assert(live(before.tasks@, contents[k]));
        assert(contents[k] != cell);
    }
    assert forall|c: usize| #![trigger live(after.tasks@, c)] live(after.tasks@, c) implies {
        &&& after.tasks@[c as int].id != 0
        &&& slab_contents(after.by_id).contains_key(after.tasks@[c as int].id)
        &&& slab_contents(after.by_id)[after.tasks@[c as int].id] == c
    } by {
        assert(live(before.tasks@, c));
        assert(before.tasks@[c as int].same_core(&after.tasks@[c as int]));
        assert(contents[token] == cell);
    }
    // queue
    assert forall|i: int|
        #![trigger after.ready_to_run_queue@[i]]
        0 <= i < after.ready_to_run_queue@.len() implies 0 < after.ready_to_run_queue@[i]
        < after.tasks@.len() && after.tasks@[after.ready_to_run_queue@[i] as int].enqueued by {
        assert(before.tasks@[queue[i] as int].enqueued);
        if queue[i] != cell {
            assert(before.tasks@[queue[i] as int].same_core(&after.tasks@[queue[i] as int]));
        }
    }
    assert forall|c: usize|
        #![trigger after.tasks@[c as int]]
        c < after.tasks@.len() && after.tasks@[c as int].enqueued implies
        after.ready_to_run_queue@.contains(c) && after.tasks@[c as int].queued by {
        assert(before.tasks@[c as int].enqueued) by {
            if c != cell {
                assert(before.tasks@[c as int].same_core(&after.tasks@[c as int]));
            }
        }
    }
    assert forall|c: usize|
        #![trigger live(after.tasks@, c)]
        live(after.tasks@, c) && !after.tasks@[c as int].is_done && after.tasks@[c as int].queued
        implies after.tasks@[c as int].enqueued by {
        assert(live(before.tasks@, c));
        assert(before.tasks@[c as int].same_core(&after.tasks@[c as int]));
    }
    // vacant cells
    assert(!before.vacant@.contains(cell)) by {
        assert(!is_vacant(before.tasks@, cell));
    }
    assert forall|c: usize|
        #![trigger is_vacant(after.tasks@, c)]
        #![trigger after.vacant@.contains(c)]
        is_vacant(after.tasks@, c) <==> after.vacant@.contains(c) by {
        if c != cell && c < before.tasks@.len() {
            assert(before.tasks@[c as int].same_core(&after.tasks@[c as int]));
        }
        assert(is_vacant(before.tasks@, c) <==> before.vacant@.contains(c));
        if before.vacant@.contains(c) {
            assert(after.vacant@[before.vacant@.index_of(c)] == c);
        }
        if !before.tasks@[cell as int].enqueued {
            assert(after.vacant@[before.vacant@.len() as int] == cell);
        }
    }
    // the set
    let expected = if before.polling == Some(cell) {
        before@.abandoned()
    } else {
        before@.removed(token)
    };
    assert(after@.streams =~= expected.streams) by {
        assert forall|k: usize| after@.streams.contains_key(k) implies after@.streams[k]
            == expected.streams[k] by {
            assert(contents.contains_key(k));
            assert(live(before.tasks@, contents[k]));
            assert(contents[k] != cell);
            assert(before.tasks@[contents[k] as int].same_core(&after.tasks@[contents[k] as int]));
        }
    }
    assert forall|c: usize| #[trigger] all.contains(c) implies before.tasks@[c as int].same_core(
        &after.tasks@[c as int],
    ) || c == cell by {
        assert(live(before.tasks@, c));
    }
    if before.polling == Some(cell) {
        assert(after@.order =~= expected.order) by {
            assert forall|i: int| 0 <= i < all.len() implies after@.order[i]
                == before@.order[i] by {
                assert(all.contains(all[i]));
            }
        }
    } else {
        let k = all.index_of(cell);
        lemma_order_index(before, k);
        assert(before@.order.index_of(token) == k);
        assert(after@.order =~= expected.order) by {
            assert forall|i: int| 0 <= i < after@.order.len() implies after@.order[i]
                == expected.order[i] by {
                let j = if i < k {
                    i
                } else {
                    i + 1
                };
                assert(after.all@[i] == all[j]);
                assert(all.contains(all[j]));
                assert(all[j] != cell);
            }
        }
    }
    assert(after@.ready =~= expected.ready) by {
        assert forall|i: int| 0 <= i < queue.len() implies after@.ready[i]
            == expected.ready[i] by {
            assert(before.tasks@[queue[i] as int].enqueued);
            if queue[i] != cell {
                assert(before.tasks@[queue[i] as int].same_core(&after.tasks@[queue[i] as int]));
                if before.tasks@[queue[i] as int].stream is Some {
                    assert(live(before.tasks@, queue[i]));
                    assert(contents[token] == cell);
                    assert(contents[before.tasks@[queue[i] as int].id] == queue[i]);
                }
            }
        }
    }
}

/// What is left of a sequence without duplicates when one of its values is removed.
pub(crate) proof fn lemma_remove_contains(s: Seq<usize>, v: usize, c: usize)
    requires
        s.no_duplicates(),
        s.contains(v),
    ensures
        s.remove(s.index_of(v)).contains(c) <==> s.contains(c) && c != v,
{
    let k = s.index_of(v);
    let r = s.remove(k);
    if s.contains(c) && c != v {
        let j = s.index_of(c);
        if j < k {
            assert(r[j] == c);
        } else {
            assert(r[j - 1] == c);
        }
    }
    if r.contains(c) {
        let i = r.index_of(c);
        if i < k {
            assert(s[i] == c);
        } else {
            assert(s[i + 1] == c);
        }
    }
}

/// Different positions of the list hold different tokens.
pub(crate) proof fn lemma_order_index<S>(set: StreamUnordered<S>, k: int)
    requires
        set.rep(),
        0 <= k < set.all@.len(),
    ensures
        set@.order.no_duplicates(),
        set@.order.index_of(set.tasks@[set.all@[k] as int].id) == k,
{
    let all = set.all@;
    let contents = slab_contents(set.by_id);
    assert forall|i: int| 0 <= i < all.len() implies #[trigger] contents[set@.order[i]]
        == all[i] by {
        assert(all.contains(all[i]));
        assert(live(set.tasks@, all[i]));
    }
    assert forall|i: int, j: int| 0 <= i < all.len() && 0 <= j < all.len() && i != j implies
        set@.order[i] != set@.order[j] by {
        assert(contents[set@.order[i]] == all[i]);
        assert(contents[set@.order[j]] == all[j]);
    }
    let token = set.tasks@[all[k] as int].id;
    assert(set@.order[k] == token);
    assert(set@.order.contains(token));
    assert(set@.order[set@.order.index_of(token)] == token);
}

/// What every set represents is a valid set.
pub proof fn lemma_valid<S>(set: StreamUnordered<S>)
    requires
        set.inv(),
    ensures
        set@.valid(),
{
    let view = set@;
    let contents = slab_contents(set.by_id);
    let vacated = slab_vacated(set.by_id);
    let all = set.all@;
    let queue = set.ready_to_run_queue@;
    lemma_stream_count(set);
    // tokens
    assert forall|t: usize|
        #![trigger view.streams.contains_key(t)]
        #![trigger view.reusable.contains(t)]
        (view.streams.contains_key(t) || view.reusable.contains(t)) <==> 1 <= t
            <= view.streams.dom().len() + view.reusable.len() by {
        assert((contents.contains_key(t) || vacated.contains(t)) <==> t < contents.dom().len()
            + vacated.len());
        assert(!vacated.contains(0));
    }
    // order
    if all.len() > 0 {
        lemma_order_index(set, 0);
    }
    assert forall|t: usize|
        #![trigger view.order.contains(t)]
        #![trigger view.streams.contains_key(t)]
        view.order.contains(t) <==> view.streams.contains_key(t) && view.polling != Some(t) by {
        if view.order.contains(t) {
            let i = view.order.index_of(t);
            assert(all.contains(all[i]));
            assert(live(set.tasks@, all[i]));
            if let Some(c) = set.polling {
                assert(live(set.tasks@, c));
            }
        }
        if view.streams.contains_key(t) && view.polling != Some(t) {
            assert(contents.contains_key(t));
            assert(live(set.tasks@, contents[t]));
            assert(all.contains(contents[t]));
            let i = all.index_of(contents[t]);
            assert(view.order[i] == t);
        }
    }
    // queue
    assert forall|i: int, j: int|
        0 <= i < j < view.ready.len() && view.ready[i] is Some implies view.ready[i]
        != view.ready[j] by {
        assert(set.tasks@[queue[i] as int].enqueued);
        assert(set.tasks@[queue[j] as int].enqueued);
        assert(live(set.tasks@, queue[i]));
        if view.ready[j] is Some {
            assert(live(set.tasks@, queue[j]));
        }
    }
    assert forall|i: int| 0 <= i < view.ready.len() implies (#[trigger] view.ready[i] matches Some(
        t,
    ) ==> {
        &&& view.streams.contains_key(t)
        &&& view.streams[t].queued
    }) by {
        assert(set.tasks@[queue[i] as int].enqueued);
        if view.ready[i] is Some {
            assert(live(set.tasks@, queue[i]));
        }
    }
    assert forall|t: usize|
        #[trigger] view.streams.contains_key(t) && !view.streams[t].finished
            && view.streams[t].queued implies view.ready.contains(Some(t)) by {
        assert(contents.contains_key(t));
        assert(live(set.tasks@, contents[t]));
        let i = queue.index_of(contents[t]);
        assert(queue[i] == contents[t]);
        assert(view.ready[i] == Some(t));
    }
    if let Some(c) = set.polling {
        assert(live(set.tasks@, c));
    }
}

/// The streams of the set are as many as the tokens in use, but for token 0.
pub(crate) proof fn lemma_stream_count<S>(set: StreamUnordered<S>)
    requires
        set.rep(),
    ensures
        set@.streams.dom().finite(),
        set@.streams.dom().len() + 1 == slab_contents(set.by_id).dom().len(),
{
    assert(set@.streams.dom() =~= slab_contents(set.by_id).dom().remove(0));
}

} // verus!
