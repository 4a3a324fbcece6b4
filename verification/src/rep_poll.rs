//! What the steps of a poll do to the cells of a set, and what that means for the set.
use vstd::prelude::*;

use crate::model::SetView;
use crate::rep::{
    is_vacant, lemma_order_index, lemma_remove_contains, list_ok, live, same_but,
};
use crate::set::StreamUnordered;
use crate::slots::slab_contents;
use crate::task::Task;

verus! {

/// The two sets agree in everything but their cells, the list of all streams, the queue and the
/// progress of a poll.
pub(crate) open spec fn same_tables<S>(
    before: StreamUnordered<S>,
    after: StreamUnordered<S>,
) -> bool {
    &&& after.by_id == before.by_id
    &&& after.is_terminated == before.is_terminated
    &&& after.next_serial == before.next_serial
}

/// A stream that is marked as woken and put at the end of the queue has been woken.
pub(crate) proof fn lemma_woken<S>(
    before: StreamUnordered<S>,
    after: StreamUnordered<S>,
    cell: usize,
)
    requires
        before.rep(),
        live(before.tasks@, cell),
        !before.tasks@[cell as int].queued,
        after.tasks@ == before.tasks@.update(
            cell as int,
            Task { queued: true, enqueued: true, ..before.tasks@[cell as int] },
        ),
        list_ok(after.tasks@, after.all@, after.head_all),
        after.all@ == before.all@,
        after.ready_to_run_queue@ == before.ready_to_run_queue@.push(cell),
        after.vacant@ == before.vacant@,
        after.polling == before.polling,
        after.polled == before.polled,
        same_tables(before, after),
    ensures
        after.rep(),
        after@ == before@.woken(before.tasks@[cell as int].id),
{
    let token = before.tasks@[cell as int].id;
    let contents = slab_contents(before.by_id);
    let queue = before.ready_to_run_queue@;
    assert(!before.tasks@[cell as int].enqueued);
    assert forall|c: usize|
        #![trigger live(after.tasks@, c)]
        live(after.tasks@, c) <==> live(before.tasks@, c) by {}
    assert forall|c: usize|
        #![trigger live(after.tasks@, c)]
        #![trigger after.all@.contains(c)]
        live(after.tasks@, c) <==> after.all@.contains(c) || after.polling == Some(c) by {
        assert(live(before.tasks@, c) <==> before.all@.contains(c) || before.polling == Some(c));
    }
    assert(!queue.contains(cell)) by {
        if queue.contains(cell) {
            assert(before.tasks@[queue[queue.index_of(cell)] as int].enqueued);
        }
    }
    let pushed = after.ready_to_run_queue@;
    assert forall|i: int| #![trigger pushed[i]] 0 <= i < pushed.len() implies 0 < pushed[i]
        < after.tasks@.len() && after.tasks@[pushed[i] as int].enqueued by {
        if i < queue.len() {
            assert(pushed[i] == queue[i]);
        }
    }
    assert forall|c: usize|
        #![trigger after.tasks@[c as int]]
        c < after.tasks@.len() && after.tasks@[c as int].enqueued implies pushed.contains(c)
        && after.tasks@[c as int].queued by {
        if c == cell {
            assert(pushed[queue.len() as int] == cell);
        } else {
            assert(before.tasks@[c as int].enqueued);
            assert(pushed[queue.index_of(c)] == c);
        }
    }
    assert forall|c: usize|
        #![trigger is_vacant(after.tasks@, c)]
        #![trigger after.vacant@.contains(c)]
        is_vacant(after.tasks@, c) <==> after.vacant@.contains(c) by {
        assert(is_vacant(before.tasks@, c) <==> before.vacant@.contains(c));
    }
    let expected = before@.woken(token);
    assert(contents.contains_key(token) && contents[token] == cell);
    assert(after@.streams =~= expected.streams) by {
        assert forall|k: usize| after@.streams.contains_key(k) implies after@.streams[k]
            == expected.streams[k] by {
            assert(contents.contains_key(k));
            assert(live(before.tasks@, contents[k]));
        }
    }
    assert(after@.order =~= expected.order) by {
        assert forall|i: int| 0 <= i < after@.order.len() implies after@.order[i]
            == expected.order[i] by {
            assert(before.all@.contains(before.all@[i]));
            assert(live(before.tasks@, before.all@[i]));
        }
    }
    assert(after@.ready =~= expected.ready);
}

/// The first cell of the queue that is taken out without being polled has been skipped. It can be
/// used again if it holds no stream.
pub(crate) proof fn lemma_skipped<S>(
    before: StreamUnordered<S>,
    after: StreamUnordered<S>,
    cell: usize,
)
    requires
        before.rep(),
        before.ready_to_run_queue@.len() > 0,
        cell == before.ready_to_run_queue@[0],
        before.tasks@[cell as int].stream is None || before.tasks@[cell as int].is_done,
        after.tasks@ == before.tasks@.update(
            cell as int,
            Task { enqueued: false, ..before.tasks@[cell as int] },
        ),
        list_ok(after.tasks@, after.all@, after.head_all),
        after.all@ == before.all@,
        after.ready_to_run_queue@ == before.ready_to_run_queue@.drop_first(),
        after.vacant@ == (if before.tasks@[cell as int].stream is None {
            before.vacant@.push(cell)
        } else {
            before.vacant@
        }),
        after.polling == before.polling,
        after.polled == before.polled,
        same_tables(before, after),
    ensures
        after.rep(),
        after@ == before@.skipped(1),
        !before@.pollable(before@.ready[0]),
{
    let contents = slab_contents(before.by_id);
    let queue = before.ready_to_run_queue@;
    let popped = after.ready_to_run_queue@;
    assert(before.tasks@[queue[0] as int].enqueued);
    assert forall|c: usize|
        #![trigger live(after.tasks@, c)]
        live(after.tasks@, c) <==> live(before.tasks@, c) by {}
    assert forall|c: usize|
        #![trigger live(after.tasks@, c)]
        #![trigger after.all@.contains(c)]
        live(after.tasks@, c) <==> after.all@.contains(c) || after.polling == Some(c) by {
        assert(live(before.tasks@, c) <==> before.all@.contains(c) || before.polling == Some(c));
    }
    lemma_popped(before, after, cell);
    assert(!before.vacant@.contains(cell)) by {
        assert(!is_vacant(before.tasks@, cell));
    }
    assert forall|c: usize|
        #![trigger is_vacant(after.tasks@, c)]
        #![trigger after.vacant@.contains(c)]
        is_vacant(after.tasks@, c) <==> after.vacant@.contains(c) by {
        assert(is_vacant(before.tasks@, c) <==> before.vacant@.contains(c));
        if before.vacant@.contains(c) {
            assert(after.vacant@[before.vacant@.index_of(c)] == c);
        }
        if before.tasks@[cell as int].stream is None {
            assert(after.vacant@[before.vacant@.len() as int] == cell);
        }
    }
    assert forall|c: usize|
        #![trigger live(after.tasks@, c)]
        live(after.tasks@, c) && !after.tasks@[c as int].is_done && after.tasks@[c as int].queued
        implies after.tasks@[c as int].enqueued by {
        assert(live(before.tasks@, c));
    }
    let expected = before@.skipped(1);
    assert(after@.streams =~= expected.streams);
    assert(after@.order =~= expected.order) by {
        assert forall|i: int| 0 <= i < after@.order.len() implies after@.order[i]
            == expected.order[i] by {
            assert(before.all@.contains(before.all@[i]));
            assert(live(before.tasks@, before.all@[i]));
        }
    }
    assert(after@.ready =~= expected.ready);
    if before.tasks@[cell as int].stream is Some {
        assert(live(before.tasks@, cell));
    }
}

/// The queue without its first cell holds exactly the cells that are still marked as enqueued.
proof fn lemma_popped<S>(before: StreamUnordered<S>, after: StreamUnordered<S>, cell: usize)
    requires
        before.rep(),
        before.ready_to_run_queue@.len() > 0,
        cell == before.ready_to_run_queue@[0],
        after.tasks@.len() == before.tasks@.len(),
        !after.tasks@[cell as int].enqueued,
        forall|i: int|
            #![trigger after.tasks@[i]]
            0 <= i < after.tasks@.len() && i != cell ==> after.tasks@[i].enqueued
                == before.tasks@[i].enqueued && after.tasks@[i].queued == before.tasks@[i].queued,
        after.ready_to_run_queue@ == before.ready_to_run_queue@.drop_first(),
    ensures
        after.ready_to_run_queue@.no_duplicates(),
        forall|i: int|
            #![trigger after.ready_to_run_queue@[i]]
            0 <= i < after.ready_to_run_queue@.len() ==> 0 < after.ready_to_run_queue@[i]
                < after.tasks@.len() && after.tasks@[after.ready_to_run_queue@[i] as int].enqueued
                && after.ready_to_run_queue@[i] != cell,
        forall|c: usize|
            #![trigger after.tasks@[c as int]]
            c < after.tasks@.len() && after.tasks@[c as int].enqueued
                ==> after.ready_to_run_queue@.contains(c) && after.tasks@[c as int].queued,
{
    let queue = before.ready_to_run_queue@;
    let popped = after.ready_to_run_queue@;
    assert forall|i: int| #![trigger popped[i]] 0 <= i < popped.len() implies 0 < popped[i]
        < after.tasks@.len() && after.tasks@[popped[i] as int].enqueued && popped[i] != cell by {
        assert(popped[i] == queue[i + 1]);
        assert(queue[i + 1] != queue[0]);
        assert(before.tasks@[queue[i + 1] as int].enqueued);
    }
    assert forall|c: usize|
        #![trigger after.tasks@[c as int]]
        c < after.tasks@.len() && after.tasks@[c as int].enqueued implies popped.contains(c)
        && after.tasks@[c as int].queued by {
        assert(before.tasks@[c as int].enqueued);
        let i = queue.index_of(c);
        assert(queue[i] == c);
        assert(popped[i - 1] == c);
    }
}

/// A woken stream that has left the queue and the list of all streams is being polled.
pub(crate) proof fn lemma_dispatched<S>(
    before: StreamUnordered<S>,
    after: StreamUnordered<S>,
    cell: usize,
)
    requires
        before.rep(),
        before.polling is None,
        before.ready_to_run_queue@.len() > 0,
        cell == before.ready_to_run_queue@[0],
        live(before.tasks@, cell),
        !before.tasks@[cell as int].is_done,
        after.tasks@.len() == before.tasks@.len(),
        same_but(before.tasks@, after.tasks@, cell),
        after.tasks@[cell as int].stream == before.tasks@[cell as int].stream,
        after.tasks@[cell as int].id == before.tasks@[cell as int].id,
        after.tasks@[cell as int].serial == before.tasks@[cell as int].serial,
        !after.tasks@[cell as int].is_done,
        !after.tasks@[cell as int].queued,
        !after.tasks@[cell as int].enqueued,
        after.all@ == before.all@.remove(before.all@.index_of(cell)),
        list_ok(after.tasks@, after.all@, after.head_all),
        after.ready_to_run_queue@ == before.ready_to_run_queue@.drop_first(),
        after.vacant@ == before.vacant@,
        after.polling == Some(cell),
        after.polled == before.polled,
        same_tables(before, after),
    ensures
        after.rep(),
        after@ == before@.dispatched(before.tasks@[cell as int].id),
        before@.ready[0] == Some(before.tasks@[cell as int].id),
        before@.pollable(before@.ready[0]),
{
    let token = before.tasks@[cell as int].id;
    let contents = slab_contents(before.by_id);
    let queue = before.ready_to_run_queue@;
    let popped = after.ready_to_run_queue@;
    let all = before.all@;
    assert(all.contains(cell));
    assert(contents.contains_key(token) && contents[token] == cell);
    assert forall|i: int|
        #![trigger after.tasks@[i]]
        0 <= i < after.tasks@.len() && i != cell implies after.tasks@[i].enqueued
        == before.tasks@[i].enqueued && after.tasks@[i].queued == before.tasks@[i].queued by {
        assert(before.tasks@[i].same_core(&after.tasks@[i]));
    }
    lemma_popped(before, after, cell);
    assert forall|c: usize|
        #![trigger live(after.tasks@, c)]
        live(after.tasks@, c) <==> live(before.tasks@, c) by {
        if c != cell && c < before.tasks@.len() {
            assert(before.tasks@[c as int].same_core(&after.tasks@[c as int]));
        }
    }
    assert forall|c: usize|
        #![trigger live(after.tasks@, c)]
        #![trigger after.all@.contains(c)]
        live(after.tasks@, c) <==> after.all@.contains(c) || after.polling == Some(c) by {
        assert(live(before.tasks@, c) <==> all.contains(c));
        lemma_remove_contains(all, cell, c);
    }
    lemma_remove_contains(all, cell, cell);
    assert forall|k: usize|
        #![trigger contents.contains_key(k)]
        contents.contains_key(k) && k != 0 implies live(after.tasks@, contents[k])
        && after.tasks@[contents[k] as int].id == k by {
        assert(live(before.tasks@, contents[k]));
        if contents[k] != cell {
            assert(before.tasks@[contents[k] as int].same_core(&after.tasks@[contents[k] as int]));
        }
    }
    assert forall|c: usize| #![trigger live(after.tasks@, c)] live(after.tasks@, c) implies {
        &&& after.tasks@[c as int].id != 0
        &&& contents.contains_key(after.tasks@[c as int].id)
        &&& contents[after.tasks@[c as int].id] == c
    } by {
        assert(live(before.tasks@, c));
        if c != cell {
            assert(before.tasks@[c as int].same_core(&after.tasks@[c as int]));
        }
    }
    assert forall|c: usize|
        #![trigger is_vacant(after.tasks@, c)]
        #![trigger after.vacant@.contains(c)]
        is_vacant(after.tasks@, c) <==> after.vacant@.contains(c) by {
        assert(is_vacant(before.tasks@, c) <==> before.vacant@.contains(c));
        if c != cell && c < before.tasks@.len() {
            assert(before.tasks@[c as int].same_core(&after.tasks@[c as int]));
        }
    }
    assert forall|c: usize|
        #![trigger live(after.tasks@, c)]
        live(after.tasks@, c) && !after.tasks@[c as int].is_done && after.tasks@[c as int].queued
        implies after.tasks@[c as int].enqueued by {
        assert(live(before.tasks@, c));
        assert(before.tasks@[c as int].same_core(&after.tasks@[c as int]));
    }
    // the set
    let expected = before@.dispatched(token);
    assert(after@.streams =~= expected.streams) by {
        assert forall|k: usize| after@.streams.contains_key(k) implies after@.streams[k]
            == expected.streams[k] by {
            assert(contents.contains_key(k));
            assert(live(before.tasks@, contents[k]));
            if contents[k] != cell {
                assert(before.tasks@[contents[k] as int].same_core(
                    &after.tasks@[contents[k] as int],
                ));
            }
        }
    }
    let k = all.index_of(cell);
    lemma_order_index(before, k);
    assert(after@.order =~= expected.order) by {
        assert forall|i: int| 0 <= i < after@.order.len() implies after@.order[i]
            == expected.order[i] by {
            let j = if i < k {
                i
            } else {
                i + 1
            };
            assert(after.all@[i] == all[j]);
            assert(all.contains(all[j]));
            assert(live(before.tasks@, all[j]));
            assert(all[j] != cell);
            assert(before.tasks@[all[j] as int].same_core(&after.tasks@[all[j] as int]));
        }
    }
    assert(after@.ready =~= expected.ready) by {
        assert forall|i: int| 0 <= i < popped.len() implies after@.ready[i]
            == expected.ready[i] by {
            assert(popped[i] == queue[i + 1]);
            assert(before.tasks@[popped[i] as int].same_core(&after.tasks@[popped[i] as int]));
        }
    }
}

/// A polled stream that is linked again is back in the set. It may have been marked as finished.
pub(crate) proof fn lemma_put_back<S>(
    before: StreamUnordered<S>,
    after: StreamUnordered<S>,
    cell: usize,
)
    requires
        before.rep(),
        before.polling == Some(cell),
        after.tasks@.len() == before.tasks@.len(),
        same_but(before.tasks@, after.tasks@, cell),
        after.tasks@[cell as int].stream == before.tasks@[cell as int].stream,
        after.tasks@[cell as int].id == before.tasks@[cell as int].id,
        after.tasks@[cell as int].serial == before.tasks@[cell as int].serial,
        after.tasks@[cell as int].queued == before.tasks@[cell as int].queued,
        after.tasks@[cell as int].enqueued == before.tasks@[cell as int].enqueued,
        after.all@ == seq![cell] + before.all@,
        list_ok(after.tasks@, after.all@, after.head_all),
        after.ready_to_run_queue@ == before.ready_to_run_queue@,
        after.vacant@ == before.vacant@,
        after.polling is None,
        same_tables(before, after),
    ensures
        after.rep(),
        after@ == (SetView {
            polled: after.polled as nat,
            ..if after.tasks@[cell as int].is_done {
                before@.finished(before.tasks@[cell as int].id)
            } else {
                before@
            }.put_back(before.tasks@[cell as int].id)
        }),
{
    let token = before.tasks@[cell as int].id;
    let contents = slab_contents(before.by_id);
    let queue = before.ready_to_run_queue@;
    let all = before.all@;
    assert(live(before.tasks@, cell));
    assert(contents.contains_key(token) && contents[token] == cell);
    assert forall|c: usize|
        #![trigger live(after.tasks@, c)]
        live(after.tasks@, c) <==> live(before.tasks@, c) by {
        if c != cell && c < before.tasks@.len() {
            assert(before.tasks@[c as int].same_core(&after.tasks@[c as int]));
        }
    }
    assert forall|c: usize|
        #![trigger live(after.tasks@, c)]
        #![trigger after.all@.contains(c)]
        live(after.tasks@, c) <==> after.all@.contains(c) || after.polling == Some(c) by {
        assert(live(before.tasks@, c) <==> all.contains(c) || c == cell);
        assert(after.all@[0] == cell);
        if all.contains(c) {
            assert(after.all@[all.index_of(c) + 1] == c);
        }
        if after.all@.contains(c) && c != cell {
            assert(all[after.all@.index_of(c) - 1] == c);
        }
    }
    assert forall|k: usize|
        #![trigger contents.contains_key(k)]
        contents.contains_key(k) && k != 0 implies live(after.tasks@, contents[k])
        && after.tasks@[contents[k] as int].id == k by {
        assert(live(before.tasks@, contents[k]));
        if contents[k] != cell {
            assert(before.tasks@[contents[k] as int].same_core(&after.tasks@[contents[k] as int]));
        }
    }
    assert forall|c: usize| #![trigger live(after.tasks@, c)] live(after.tasks@, c) implies {
        &&& after.tasks@[c as int].id != 0
        &&& contents.contains_key(after.tasks@[c as int].id)
        &&& contents[after.tasks@[c as int].id] == c
    } by {
        assert(live(before.tasks@, c));
        if c != cell {
            assert(before.tasks@[c as int].same_core(&after.tasks@[c as int]));
        }
    }
    assert forall|i: int| #![trigger queue[i]] 0 <= i < queue.len() implies 0 < queue[i]
        < after.tasks@.len() && after.tasks@[queue[i] as int].enqueued by {
        assert(before.tasks@[queue[i] as int].enqueued);
        if queue[i] != cell {
            assert(before.tasks@[queue[i] as int].same_core(&after.tasks@[queue[i] as int]));
        }
    }
    assert forall|c: usize|
        #![trigger after.tasks@[c as int]]
        c < after.tasks@.len() && after.tasks@[c as int].enqueued implies queue.contains(c)
        && after.tasks@[c as int].queued by {
        if c != cell {
            assert(before.tasks@[c as int].same_core(&after.tasks@[c as int]));
        }
        assert(before.tasks@[c as int].enqueued);
    }
    assert forall|c: usize|
        #![trigger is_vacant(after.tasks@, c)]
        #![trigger after.vacant@.contains(c)]
        is_vacant(after.tasks@, c) <==> after.vacant@.contains(c) by {
        assert(is_vacant(before.tasks@, c) <==> before.vacant@.contains(c));
        if c != cell && c < before.tasks@.len() {
            assert(before.tasks@[c as int].same_core(&after.tasks@[c as int]));
        }
    }
    assert forall|c: usize|
        #![trigger live(after.tasks@, c)]
        live(after.tasks@, c) && !after.tasks@[c as int].is_done && after.tasks@[c as int].queued
        implies after.tasks@[c as int].enqueued by {
        assert(live(before.tasks@, c));
        if c != cell {
            assert(before.tasks@[c as int].same_core(&after.tasks@[c as int]));
        }
    }
    // the set
    let expected = if after.tasks@[cell as int].is_done {
        before@.finished(token)
    } else {
        before@
    }.put_back(token);
    assert(after@.streams =~= expected.streams) by {
        assert forall|k: usize| after@.streams.contains_key(k) implies after@.streams[k]
            == expected.streams[k] by {
            assert(contents.contains_key(k));
            assert(live(before.tasks@, contents[k]));
            if contents[k] != cell {
                assert(before.tasks@[contents[k] as int].same_core(
                    &after.tasks@[contents[k] as int],
                ));
            }
        }
    }
    assert(after@.order =~= expected.order) by {
        assert forall|i: int| 0 <= i < after@.order.len() implies after@.order[i]
            == expected.order[i] by {
            if i > 0 {
                assert(after.all@[i] == all[i - 1]);
                assert(all.contains(all[i - 1]));
                assert(live(before.tasks@, all[i - 1]));
                assert(all[i - 1] != cell);
                assert(before.tasks@[all[i - 1] as int].same_core(
                    &after.tasks@[all[i - 1] as int],
                ));
            }
        }
    }
    assert(after@.ready =~= expected.ready) by {
        assert forall|i: int| 0 <= i < queue.len() implies after@.ready[i]
            == expected.ready[i] by {
            assert(before.tasks@[queue[i] as int].enqueued);
            if queue[i] != cell {
                assert(before.tasks@[queue[i] as int].same_core(&after.tasks@[queue[i] as int]));
            }
        }
    }
}

} // verus!
