//! The laws the table obeys across operations, each proved from the
//! operations' contracts alone: a lemma's premises are what one operation's
//! `ensures` gives, and its conclusions are what the next operation's
//! contract turns into observable behaviour.

use crate::table::{lemma_wf_positive_capacity, HashTable, NoCollisionsHashTable};
use vstd::prelude::*;

verus! {

/// Empty-table get: a table whose contents are empty — as a fresh one's
/// constructor guarantees — misses every key, so `get` returns absent for
/// any key whatsoever.
pub proof fn lemma_empty_table_misses(table: NoCollisionsHashTable, key: Seq<char>)
    requires
        table.contents() == Map::<Seq<char>, Seq<char>>::empty(),
    ensures
        !table.contents().contains_key(key),
{
}

/// Round-trip: inserting a pair whose key was absent leaves the key present
/// with exactly the value given — what `get` then returns — and the entry
/// count one higher than before.
pub proof fn lemma_round_trip(
    pre: NoCollisionsHashTable,
    post: NoCollisionsHashTable,
    key: Seq<char>,
    value: Seq<char>,
)
    requires
        !pre.contents().contains_key(key),
        post.contents() == pre.contents().insert(key, value),
        post.entry_count() == pre.entry_count() + 1,
    ensures
        post.contents().contains_key(key),
        post.contents()[key] == value,
        post.entry_count() == pre.entry_count() + 1,
{
}

/// Duplicate rejection: a rejected insert leaves the contents untouched, so
/// the key is still present and still carries the value stored first.
pub proof fn lemma_duplicate_rejection(
    pre: NoCollisionsHashTable,
    post: NoCollisionsHashTable,
    key: Seq<char>,
)
    requires
        pre.contents().contains_key(key),
        post.contents() == pre.contents(),
    ensures
        post.contents().contains_key(key),
        post.contents()[key] == pre.contents()[key],
{
}

/// Remove-then-miss: inserting a pair whose key was absent and then removing
/// that key restores the contents and the entry count exactly, and the key
/// misses afterwards.
pub proof fn lemma_remove_round_trip(
    pre: NoCollisionsHashTable,
    mid: NoCollisionsHashTable,
    post: NoCollisionsHashTable,
    key: Seq<char>,
    value: Seq<char>,
)
    requires
        !pre.contents().contains_key(key),
        mid.contents() == pre.contents().insert(key, value),
        mid.entry_count() == pre.entry_count() + 1,
        post.contents() == mid.contents().remove(key),
        post.entry_count() == (mid.entry_count() - 1) as nat,
    ensures
        !post.contents().contains_key(key),
        post.contents() == pre.contents(),
        post.entry_count() == pre.entry_count(),
{
    assert(post.contents() =~= pre.contents());
}

/// Collision containment: removing one key never disturbs any other key —
/// in particular not a key that shares its bucket. The sibling stays exactly
/// as reachable, with exactly the value it had.
pub proof fn lemma_remove_spares_siblings(
    pre: NoCollisionsHashTable,
    post: NoCollisionsHashTable,
    removed: Seq<char>,
    sibling: Seq<char>,
)
    requires
        post.contents() == pre.contents().remove(removed),
        sibling != removed,
    ensures
        post.contents().contains_key(sibling) <==> pre.contents().contains_key(sibling),
        pre.contents().contains_key(sibling) ==> post.contents()[sibling]
            == pre.contents()[sibling],
{
}

/// Capacity guard: a guarded table refuses an insert exactly while the entry
/// count equals the slot count — the first branch of `insert`'s contract —
/// and removing one stored entry takes the count back below the slot count,
/// so the guard no longer blocks the next insert.
pub proof fn lemma_guard_frees_after_remove(
    pre: NoCollisionsHashTable,
    post: NoCollisionsHashTable,
    removed: Seq<char>,
)
    requires
        pre.wf(),
        pre.entry_count() == pre.capacity_spec(),
        pre.contents().contains_key(removed),
        post.contents() == pre.contents().remove(removed),
        post.entry_count() == (pre.entry_count() - 1) as nat,
        post.capacity_spec() == pre.capacity_spec(),
    ensures
        post.entry_count() < post.capacity_spec(),
{
    lemma_wf_positive_capacity(&pre);
}

} // verus!
