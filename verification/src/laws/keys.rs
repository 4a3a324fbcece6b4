//! For how long the key of a stream stands for it.
use vstd::prelude::*;

use crate::history::{insertions, Action};
use crate::laws::{
    law_empty_is_valid, law_insert, law_validity_is_kept, lemma_serials_are_kept,
};
use crate::model::SetView;
use crate::step::WakeKey;

verus! {

/// Among the first 2^64 streams that are inserted into a set, no two get the same serial number,
/// whatever else happens. The insertions are the operations at positions `i` and `j`.
pub proof fn law_serials_differ<S, I>(actions: Seq<Action<S, I>>, i: int, j: int)
    requires
        SetView::<S>::empty().allows_all(actions),
        insertions(actions) <= 0x1_0000_0000_0000_0000,
        0 <= i < j < actions.len(),
        actions[i] is Insert,
        actions[j] is Insert,
    ensures
        ({
            let empty = SetView::<S>::empty();
            let first = empty.after(actions.take(i)).next_token();
            let second = empty.after(actions.take(j)).next_token();
            empty.after(actions.take(i + 1)).streams[first].serial != empty.after(
                actions.take(j + 1),
            ).streams[second].serial
        }),
{
    lemma_serial_of_insertion(actions, i);
    lemma_serial_of_insertion(actions, j);
    lemma_more_insertions(actions, i + 1, j);
    lemma_one_more(actions, i);
}

/// A stream that has left the set is gone for good. Within the first 2^64 insertions into a set, a
/// key that stood for a stream of it once, after the first `m` operations, and no longer does after
/// the first `n`, never stands for a stream again. So a late wake-up does not reach another stream.
pub proof fn law_keys_are_not_reused<S, I>(
    actions: Seq<Action<S, I>>,
    m: int,
    n: int,
    key: WakeKey,
)
    requires
        SetView::<S>::empty().allows_all(actions),
        insertions(actions) <= 0x1_0000_0000_0000_0000,
        0 <= m <= n <= actions.len(),
        SetView::<S>::empty().after(actions.take(m)).current(key),
        !SetView::<S>::empty().after(actions.take(n)).current(key),
    ensures
        !SetView::<S>::empty().after(actions).current(key),
    decreases actions.len() - n,
{
    let empty = SetView::<S>::empty();
    if n == actions.len() {
        assert(actions.take(n) =~= actions);
    } else {
        let before = empty.after(actions.take(n));
        lemma_prefix(actions, m);
        lemma_serials_are_counted(actions.take(m));
        lemma_more_insertions(actions, m, n);
        lemma_prefix(actions, n);
        lemma_serials_are_counted(actions.take(n));
        lemma_prefix(actions, n + 1);
        lemma_taken(actions, n);
        law_empty_is_valid::<S>();
        law_validity_is_kept(empty, actions.take(n));
        lemma_one_more(actions, n);
        lemma_serials_are_kept(before, actions[n]);
        assert(!empty.after(actions.take(n + 1)).current(key));
        law_keys_are_not_reused(actions, m, n + 1, key);
    }
}

/// The streams of one set have different serial numbers, within the first 2^64 insertions.
pub proof fn law_keys_differ<S, I>(actions: Seq<Action<S, I>>, t: usize, u: usize)
    requires
        SetView::<S>::empty().allows_all(actions),
        insertions(actions) <= 0x1_0000_0000_0000_0000,
        SetView::<S>::empty().after(actions).streams.contains_key(t),
        SetView::<S>::empty().after(actions).streams.contains_key(u),
        t != u,
    ensures
        SetView::<S>::empty().after(actions).streams[t].serial
            != SetView::<S>::empty().after(actions).streams[u].serial,
    decreases actions.len(),
{
    let empty = SetView::<S>::empty();
    law_empty_is_valid::<S>();
    if actions.len() > 0 {
        let earlier = actions.drop_last();
        let before = empty.after(earlier);
        law_validity_is_kept(empty, earlier);
        lemma_serials_are_kept(before, actions.last());
        lemma_serials_are_counted(earlier);
        if before.streams.contains_key(t) && before.streams.contains_key(u) {
            law_keys_differ(earlier, t, u);
        } else if let Action::Insert(stream) = actions.last() {
            law_insert(before, stream);
        }
    }
}

/// The serial number of a stream is the number of insertions before its own.
proof fn lemma_serial_of_insertion<S, I>(actions: Seq<Action<S, I>>, i: int)
    requires
        SetView::<S>::empty().allows_all(actions),
        insertions(actions) <= 0x1_0000_0000_0000_0000,
        0 <= i < actions.len(),
        actions[i] is Insert,
    ensures
        ({
            let before = SetView::<S>::empty().after(actions.take(i));
            let after = SetView::<S>::empty().after(actions.take(i + 1));
            after.streams[before.next_token()].serial == insertions(actions.take(i))
        }),
{
    let empty = SetView::<S>::empty();
    lemma_prefix(actions, i);
    lemma_prefix(actions, i + 1);
    lemma_taken(actions, i);
    lemma_one_more(actions, i);
    lemma_serials_are_counted(actions.take(i));
    law_empty_is_valid::<S>();
    law_validity_is_kept(empty, actions.take(i));
}

/// Every serial number in use is below the number of insertions, which is the next one.
proof fn lemma_serials_are_counted<S, I>(actions: Seq<Action<S, I>>)
    requires
        SetView::<S>::empty().allows_all(actions),
        insertions(actions) <= 0x1_0000_0000_0000_0000,
    ensures
        ({
            let after = SetView::<S>::empty().after(actions);
            &&& insertions(actions) < 0x1_0000_0000_0000_0000 ==> after.next_serial == insertions(
                actions,
            )
            &&& forall|t: usize| #[trigger]
                after.streams.contains_key(t) ==> after.streams[t].serial < insertions(actions)
        }),
    decreases actions.len(),
{
    if actions.len() > 0 {
        let empty = SetView::<S>::empty();
        let earlier = actions.drop_last();
        lemma_serials_are_counted(earlier);
        law_empty_is_valid::<S>();
        law_validity_is_kept(empty, earlier);
        let before = empty.after(earlier);
        lemma_serials_are_kept(before, actions.last());
    }
}

/// The operations that come first can be carried out, and are no more insertions than all of them.
proof fn lemma_prefix<S, I>(actions: Seq<Action<S, I>>, n: int)
    requires
        SetView::<S>::empty().allows_all(actions),
        0 <= n <= actions.len(),
    ensures
        SetView::<S>::empty().allows_all(actions.take(n)),
        insertions(actions.take(n)) <= insertions(actions),
    decreases actions.len(),
{
    if n == actions.len() {
        assert(actions.take(n) =~= actions);
    } else {
        lemma_prefix(actions.drop_last(), n);
        assert(actions.drop_last().take(n) =~= actions.take(n));
    }
}

/// The operation at position `n` comes after those before it.
proof fn lemma_taken<S, I>(actions: Seq<Action<S, I>>, n: int)
    requires
        0 <= n < actions.len(),
    ensures
        actions.take(n + 1).drop_last() == actions.take(n),
        actions.take(n + 1).last() == actions[n],
{
    assert(actions.take(n + 1).drop_last() =~= actions.take(n));
}

/// One more operation is at most one more insertion.
proof fn lemma_one_more<S, I>(actions: Seq<Action<S, I>>, n: int)
    requires
        0 <= n < actions.len(),
    ensures
        insertions(actions.take(n + 1)) == insertions(actions.take(n)) + (if actions[n] is Insert {
            1nat
        } else {
            0
        }),
{
    lemma_taken(actions, n);
}

/// More operations are no fewer insertions.
proof fn lemma_more_insertions<S, I>(actions: Seq<Action<S, I>>, m: int, n: int)
    requires
        0 <= m <= n <= actions.len(),
    ensures
        insertions(actions.take(m)) <= insertions(actions.take(n)),
    decreases n - m,
{
    if m < n {
        lemma_more_insertions(actions, m, n - 1);
        lemma_one_more(actions, n - 1);
    }
}

} // verus!
