//! The table that hands out tokens.
//!
//! A token is a key of a [`slab::Slab`], and the value stored under it is the cell that holds the
//! stream. The functions of this module are the only ones that touch the slab. What a slab holds is
//! described by two names, [`slab_contents`] and [`slab_vacated`], and every key it hands out
//! follows from them by [`next_key`].
use slab::Slab;
use vstd::prelude::*;

verus! {

/// The largest number of streams that a set can hold at a time.
///
/// Growing the token table past this point could ask for more memory than an address space has.
pub const MAX_STREAMS: usize = usize::MAX / 64;

/// The slab of the `slab` crate, as an opaque type.
#[verifier::external_type_specification]
#[verifier::external_body]
#[verifier::reject_recursive_types(T)]
pub struct ExSlab<T>(slab::Slab<T>);

/// The keys that a slab has in use, each with its value.
pub uninterp spec fn slab_contents(table: Slab<usize>) -> Map<usize, usize>;

/// The keys that a slab has given up and not reused yet. The last one is reused first.
pub uninterp spec fn slab_vacated(table: Slab<usize>) -> Seq<usize>;

/// The key that the next insertion into a slab is stored under: the key vacated last if there is
/// one, and otherwise the first key that was never used.
pub open spec fn next_key(contents: Map<usize, usize>, vacated: Seq<usize>) -> usize {
    if vacated.len() > 0 {
        vacated.last()
    } else {
        contents.dom().len() as usize
    }
}

/// The vacated keys that are left once the next insertion has taken its key.
pub open spec fn after_insertion(vacated: Seq<usize>) -> Seq<usize> {
    if vacated.len() > 0 {
        vacated.drop_last()
    } else {
        vacated
    }
}

/// Calls `slab::Slab::new`: the new slab has no key in use and none vacated.
#[verifier::external_body]
pub(crate) fn slab_new() -> (table: Slab<usize>)
    ensures
        slab_contents(table) == (Map::<usize, usize>::empty()),
        slab_vacated(table) == (Seq::<usize>::empty()),
{
    Slab::new()
}

/// Calls `slab::Slab::vacant_key`: the key that the next insertion will use.
#[verifier::external_body]
pub(crate) fn slab_vacant_key(table: &Slab<usize>) -> (key: usize)
    ensures
        key == next_key(slab_contents(*table), slab_vacated(*table)),
{
    table.vacant_key()
}

/// Calls `slab::Slab::insert`: stores `value` under the next key and returns that key.
///
/// The insertion panics where the slab would have to grow its storage past `isize::MAX` bytes. It
/// grows only when no vacated key is left. An entry takes up two words, and the bound on the number
/// of keys in use leaves room for twice as many.
#[verifier::external_body]
pub(crate) fn slab_insert(table: &mut Slab<usize>, value: usize) -> (key: usize)
    requires
        slab_contents(*old(table)).dom().len() <= MAX_STREAMS,
    ensures
        key == next_key(slab_contents(*old(table)), slab_vacated(*old(table))),
        slab_contents(*final(table)) == slab_contents(*old(table)).insert(key, value),
        slab_vacated(*final(table)) == after_insertion(slab_vacated(*old(table))),
{
    table.insert(value)
}

/// Calls `slab::Slab::get`: the value stored under `key`, if `key` is in use.
#[verifier::external_body]
pub(crate) fn slab_get(table: &Slab<usize>, key: usize) -> (value: Option<usize>)
    ensures
        value == (if slab_contents(*table).contains_key(key) {
            Some(slab_contents(*table)[key])
        } else {
            None
        }),
{
    table.get(key).copied()
}

/// Calls `slab::Slab::remove`: gives up `key` and returns the value stored under it.
///
/// The call panics where `key` is not in use.
#[verifier::external_body]
pub(crate) fn slab_remove(table: &mut Slab<usize>, key: usize) -> (value: usize)
    requires
        slab_contents(*old(table)).contains_key(key),
    ensures
        value == slab_contents(*old(table))[key],
        slab_contents(*final(table)) == slab_contents(*old(table)).remove(key),
        slab_vacated(*final(table)) == slab_vacated(*old(table)).push(key),
{
    table.remove(key)
}

/// What holds of the keys of every slab that the functions of this module have built: a key is in
/// use or vacated, not both, exactly if it is below the number of all keys.
pub open spec fn keys_ok(contents: Map<usize, usize>, vacated: Seq<usize>) -> bool {
    &&& contents.dom().finite()
    &&& vacated.no_duplicates()
    &&& forall|k: usize| #![trigger contents.contains_key(k)] #![trigger vacated.contains(k)]
        !(contents.contains_key(k) && vacated.contains(k))
    &&& forall|k: usize| #![trigger contents.contains_key(k)] #![trigger vacated.contains(k)]
        (contents.contains_key(k) || vacated.contains(k)) <==> k < contents.dom().len()
            + vacated.len()
}

/// Taking the next key keeps [`keys_ok`], and the key was not in use.
pub(crate) proof fn lemma_keys_insert(
    contents: Map<usize, usize>,
    vacated: Seq<usize>,
    value: usize,
)
    requires
        keys_ok(contents, vacated),
        contents.dom().len() <= MAX_STREAMS,
    ensures
        !contents.contains_key(next_key(contents, vacated)),
        keys_ok(
            contents.insert(next_key(contents, vacated), value),
            after_insertion(vacated),
        ),
{
    let key = next_key(contents, vacated);
    let after = contents.insert(key, value);
    let rest = after_insertion(vacated);
    assert(after.dom() =~= contents.dom().insert(key));
    if vacated.len() > 0 {
        assert(vacated.contains(key));
        assert forall|k: usize| rest.contains(k) <==> vacated.contains(k) && k != key by {
            if vacated.contains(k) && k != key {
                let i = vacated.index_of(k);
                assert(rest[i] == k);
            }
            if rest.contains(k) {
                let i = rest.index_of(k);
                assert(vacated[i] == k);
                assert(vacated[vacated.len() - 1] == key);
            }
        }
    } else {
        assert(!contents.contains_key(key)) by {
            assert(!vacated.contains(key));
        }
        assert forall|k: usize| #![trigger after.contains_key(k)] #![trigger rest.contains(k)]
            (after.contains_key(k) || rest.contains(k)) <==> k < after.dom().len()
                + rest.len() by {
            assert(!vacated.contains(k));
            assert(contents.contains_key(k) || vacated.contains(k) <==> k < contents.dom().len()
                + vacated.len());
        }
    }
}

/// Giving up a key keeps [`keys_ok`].
pub(crate) proof fn lemma_keys_remove(
    contents: Map<usize, usize>,
    vacated: Seq<usize>,
    key: usize,
)
    requires
        keys_ok(contents, vacated),
        contents.contains_key(key),
    ensures
        keys_ok(contents.remove(key), vacated.push(key)),
{
    let after = contents.remove(key);
    let rest = vacated.push(key);
    assert(after.dom() =~= contents.dom().remove(key));
    assert(!vacated.contains(key));
    assert forall|k: usize| rest.contains(k) <==> vacated.contains(k) || k == key by {
        assert(rest[vacated.len() as int] == key);
        if vacated.contains(k) {
            assert(rest[vacated.index_of(k)] == k);
        }
    }
}

} // verus!
