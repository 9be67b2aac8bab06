//! The bucket table: a fixed-length array of slots, each optionally holding a
//! chain of entries whose keys hash to that slot.
//!
//! Policy choices, stated once here:
//! - Duplicate keys are always rejected; an insert never overwrites.
//! - The global capacity guard (refuse inserts once `size == capacity`) is a
//!   per-table option, disabled by [`NoCollisionsHashTable::new`] and enabled
//!   by [`NoCollisionsHashTable::with_capacity_guard`]. With the guard off,
//!   chains let the entry count grow past the slot count.
//! - `remove` takes out only the entry whose key matches; entries that merely
//!   share its bucket stay untouched.
//!
//! A slot holding an empty chain is never represented: an empty chain is
//! stored as an absent slot, so the two are indistinguishable.

use crate::hashing;
use vstd::prelude::*;

verus! {

/// One stored key/value pair. Entries are immutable once stored: the table
/// replaces them only by remove-then-reinsert.
#[derive(Debug, Clone)]
pub struct HashItem {
    pub key: String,
    pub value: String,
}

/// Every failure a table operation can report.
#[derive(Clone, Copy, Debug, PartialEq, Eq, Structural)]
pub enum TableError {
    /// Construction was asked for zero slots; indexing by `digest % capacity`
    /// would be undefined.
    InvalidCapacity,
    /// The capacity guard is enabled and the table already holds as many
    /// entries as it has slots.
    AtCapacity,
    /// The key to insert is already stored; an insert never overwrites.
    DuplicateKey,
}

/// Does some entry of `chain` carry exactly this key?
spec fn chain_has_key(chain: Seq<HashItem>, key: Seq<char>) -> bool {
    exists|j: int| 0 <= j < chain.len() && chain[j].key@ == key
}

/// The position of the entry carrying `key`; meaningful only when
/// `chain_has_key` holds and the chain's keys are distinct.
spec fn chain_index_of(chain: Seq<HashItem>, key: Seq<char>) -> int {
    choose|j: int| 0 <= j < chain.len() && chain[j].key@ == key
}

/// The value stored beside `key` in `chain`.
spec fn chain_value_of(chain: Seq<HashItem>, key: Seq<char>) -> Seq<char> {
    chain[chain_index_of(chain, key)].value@
}

/// All entries of `chain` carry pairwise distinct keys.
spec fn distinct_keys(chain: Seq<HashItem>) -> bool {
    forall|j: int, k: int| 0 <= j < k < chain.len() ==> chain[j].key@ != chain[k].key@
}

/// How many entries a slot holds.
spec fn slot_len(slot: Option<Vec<HashItem>>) -> nat {
    match slot {
        Some(chain) => chain@.len(),
        None => 0,
    }
}

/// The exact number of entries reachable by scanning every slot of `store`.
spec fn total_entries(store: Seq<Option<Vec<HashItem>>>) -> nat
    decreases store.len(),
{
    if store.len() == 0 {
        0
    } else {
        total_entries(store.drop_last()) + slot_len(store.last())
    }
}

/// What a single slot must satisfy: absent, or a non-empty chain of
/// distinct-keyed entries that all hash to this slot.
spec fn slot_wf(slot: Option<Vec<HashItem>>, bucket: int, capacity: nat) -> bool {
    match slot {
        None => true,
        Some(chain) => {
            &&& chain@.len() > 0
            &&& distinct_keys(chain@)
            &&& forall|j: int|
                0 <= j < chain@.len() ==> hashing::spec_bucket_of(
                    #[trigger] chain@[j].key@,
                    capacity,
                ) == bucket
        },
    }
}

proof fn lemma_total_entries_all_absent(store: Seq<Option<Vec<HashItem>>>)
    requires
        forall|i: int| 0 <= i < store.len() ==> store[i] is None,
    ensures
        total_entries(store) == 0,
    decreases store.len(),
{
    if store.len() > 0 {
        lemma_total_entries_all_absent(store.drop_last());
        assert(store[store.len() - 1] is None);
    }
}

/// Replacing one slot changes the scan count by exactly the difference of the
/// two slots' lengths.
proof fn lemma_total_entries_update(
    store: Seq<Option<Vec<HashItem>>>,
    i: int,
    slot: Option<Vec<HashItem>>,
)
    requires
        0 <= i < store.len(),
    ensures
        total_entries(store.update(i, slot)) + slot_len(store[i]) == total_entries(store)
            + slot_len(slot),
    decreases store.len(),
{
    let updated = store.update(i, slot);
    if i == store.len() - 1 {
        assert(updated.drop_last() =~= store.drop_last());
        assert(updated.last() == slot);
    } else {
        assert(updated.drop_last() =~= store.drop_last().update(i, slot));
        assert(updated.last() == store.last());
        lemma_total_entries_update(store.drop_last(), i, slot);
    }
}

/// In a chain with distinct keys, an entry carrying `key` at position `j` is
/// the one `chain_index_of` picks.
proof fn lemma_chain_index_unique(chain: Seq<HashItem>, key: Seq<char>, j: int)
    requires
        distinct_keys(chain),
        0 <= j < chain.len(),
        chain[j].key@ == key,
    ensures
        chain_has_key(chain, key),
        chain_index_of(chain, key) == j,
        chain_value_of(chain, key) == chain[j].value@,
{
    assert(chain_has_key(chain, key));
    let j2 = chain_index_of(chain, key);
    if j2 < j {
        assert(chain[j2].key@ != chain[j].key@);
    } else if j < j2 {
        assert(chain[j].key@ != chain[j2].key@);
    }
}

/// How appending an entry with a fresh key changes what a chain holds:
/// exactly that key joins, every other key keeps its value.
proof fn lemma_chain_push(chain: Seq<HashItem>, item: HashItem, k: Seq<char>)
    requires
        distinct_keys(chain),
        !chain_has_key(chain, item.key@),
    ensures
        distinct_keys(chain.push(item)),
        chain_has_key(chain.push(item), k) <==> (chain_has_key(chain, k) || k == item.key@),
        k == item.key@ ==> chain_value_of(chain.push(item), k) == item.value@,
        (chain_has_key(chain, k) && k != item.key@) ==> chain_value_of(chain.push(item), k)
            == chain_value_of(chain, k),
{
    let grown = chain.push(item);
    assert forall|a: int, b: int| 0 <= a < b < grown.len() implies grown[a].key@ != grown[b].key@ by {
        if b == chain.len() {
            assert(grown[a] == chain[a]);
            if grown[a].key@ == item.key@ {
                assert(chain_has_key(chain, item.key@));
            }
        }
    }
    if k == item.key@ {
        lemma_chain_index_unique(grown, k, chain.len() as int);
    } else {
        if chain_has_key(chain, k) {
            let t = chain_index_of(chain, k);
            assert(chain[t] == grown[t]);
            lemma_chain_index_unique(chain, k, t);
            lemma_chain_index_unique(grown, k, t);
        }
        if chain_has_key(grown, k) {
            let t = chain_index_of(grown, k);
            assert(t < chain.len());
            assert(chain[t] == grown[t]);
            assert(chain_has_key(chain, k));
        }
    }
}

/// How taking one entry out changes what a chain holds: exactly that entry's
/// key leaves, every other key keeps its value.
proof fn lemma_chain_remove(chain: Seq<HashItem>, j: int, k: Seq<char>)
    requires
        distinct_keys(chain),
        0 <= j < chain.len(),
    ensures
        distinct_keys(chain.remove(j)),
        chain_has_key(chain.remove(j), k) <==> (chain_has_key(chain, k) && k != chain[j].key@),
        (chain_has_key(chain, k) && k != chain[j].key@) ==> chain_value_of(chain.remove(j), k)
            == chain_value_of(chain, k),
{
    let shrunk = chain.remove(j);
    chain.remove_ensures(j);
    assert forall|a: int, b: int| 0 <= a < b < shrunk.len() implies shrunk[a].key@ != shrunk[b].key@ by {
        let a0 = if a < j { a } else { a + 1 };
        let b0 = if b < j { b } else { b + 1 };
        assert(shrunk[a] == chain[a0]);
        assert(shrunk[b] == chain[b0]);
    }
    if chain_has_key(shrunk, k) {
        let t = chain_index_of(shrunk, k);
        lemma_chain_index_unique(shrunk, k, t);
        let t0 = if t < j { t } else { t + 1 };
        assert(shrunk[t] == chain[t0]);
        lemma_chain_index_unique(chain, k, t0);
        if k == chain[j].key@ {
            assert(chain[t0].key@ == chain[j].key@ && t0 != j);
            assert(false);
        }
    }
    if chain_has_key(chain, k) && k != chain[j].key@ {
        let t0 = chain_index_of(chain, k);
        lemma_chain_index_unique(chain, k, t0);
        assert(t0 != j);
        let t = if t0 < j { t0 } else { t0 - 1 };
        assert(shrunk[t] == chain[t0]);
        lemma_chain_index_unique(shrunk, k, t);
    }
}

/// The chain a slot holds; the empty chain for an absent slot.
spec fn slot_chain(slot: Option<Vec<HashItem>>) -> Seq<HashItem> {
    match slot {
        Some(chain) => chain@,
        None => Seq::empty(),
    }
}

/// Does the slot hold exactly this non-empty chain?
spec fn slot_is_chain(slot: Option<Vec<HashItem>>, s: Seq<HashItem>) -> bool {
    match slot {
        Some(chain) => chain@ == s,
        None => false,
    }
}

/// What a successful insert does to the whole table: appending a fresh-keyed
/// entry to its bucket's chain keeps the table well-formed and adds exactly
/// that key to the contents.
proof fn lemma_insert_rebuild(
    pre: NoCollisionsHashTable,
    post: NoCollisionsHashTable,
    key: Seq<char>,
    value: Seq<char>,
    item: HashItem,
    old_chain: Seq<HashItem>,
)
    requires
        pre.wf(),
        post.capacity == pre.capacity,
        post.enforce_capacity_guard == pre.enforce_capacity_guard,
        post.size == pre.size + 1,
        !pre.has_key(key),
        item.key@ == key,
        item.value@ == value,
        old_chain == slot_chain(pre.store@[pre.bucket_of_spec(key)]),
        post.store@.len() == pre.store@.len(),
        forall|t: int|
            0 <= t < pre.store@.len() && t != pre.bucket_of_spec(key) ==> post.store@[t]
                == pre.store@[t],
        slot_is_chain(post.store@[pre.bucket_of_spec(key)], old_chain.push(item)),
    ensures
        post.wf(),
        post.contents() == pre.contents().insert(key, value),
{
    let idx = pre.bucket_of_spec(key);
    let cap = pre.capacity as nat;
    let new_chain = old_chain.push(item);
    assert(0 <= idx < pre.store@.len());
    assert(slot_wf(pre.store@[idx], idx, cap));
    assert(distinct_keys(old_chain) && !chain_has_key(old_chain, key)) by {
        match pre.store@[idx] {
            Some(c) => {
                assert(old_chain == c@);
            },
            None => {
                assert(old_chain.len() == 0);
            },
        }
    }
    assert forall|i: int| 0 <= i < post.store@.len() implies slot_wf(
        #[trigger] post.store@[i],
        i,
        cap,
    ) by {
        if i != idx {
            assert(post.store@[i] == pre.store@[i]);
            assert(slot_wf(pre.store@[i], i, cap));
        } else {
            lemma_chain_push(old_chain, item, key);
            assert forall|j: int| 0 <= j < new_chain.len() implies hashing::spec_bucket_of(
                #[trigger] new_chain[j].key@,
                cap,
            ) == idx by {
                if j < old_chain.len() {
                    assert(new_chain[j] == old_chain[j]);
                    match pre.store@[idx] {
                        Some(c) => {
                            assert(old_chain[j] == c@[j]);
                        },
                        None => {},
                    }
                } else {
                    assert(new_chain[j] == item);
                }
            }
        }
    }
    assert(post.store@ =~= pre.store@.update(idx, post.store@[idx]));
    lemma_total_entries_update(pre.store@, idx, post.store@[idx]);
    assert(slot_len(pre.store@[idx]) == old_chain.len());
    assert(slot_len(post.store@[idx]) == new_chain.len());
    assert(post.size == total_entries(post.store@));
    assert forall|k: Seq<char>| post.has_key(k) == (pre.has_key(k) || k == key) by {
        let kb = pre.bucket_of_spec(k);
        assert(post.bucket_of_spec(k) == kb);
        lemma_chain_push(old_chain, item, k);
        if kb != idx {
            assert(post.store@[kb] == pre.store@[kb]);
        }
    }
    assert forall|k: Seq<char>| #[trigger] post.has_key(k) implies post.value_of(k) == (if k
        == key {
        value
    } else {
        pre.value_of(k)
    }) by {
        let kb = pre.bucket_of_spec(k);
        assert(post.bucket_of_spec(k) == kb);
        lemma_chain_push(old_chain, item, k);
        if kb != idx {
            assert(post.store@[kb] == pre.store@[kb]);
        }
    }
    assert(post.contents() =~= pre.contents().insert(key, value));
}

/// What a successful remove does to the whole table: taking the matching
/// entry out of its bucket's chain (dropping the slot when the chain empties)
/// keeps the table well-formed and takes exactly that key out of the
/// contents.
proof fn lemma_remove_rebuild(
    pre: NoCollisionsHashTable,
    post: NoCollisionsHashTable,
    key: Seq<char>,
    j: int,
    old_chain: Seq<HashItem>,
)
    requires
        pre.wf(),
        post.capacity == pre.capacity,
        post.enforce_capacity_guard == pre.enforce_capacity_guard,
        post.size == pre.size - 1,
        slot_is_chain(pre.store@[pre.bucket_of_spec(key)], old_chain),
        0 <= j < old_chain.len(),
        old_chain[j].key@ == key,
        post.store@.len() == pre.store@.len(),
        forall|t: int|
            0 <= t < pre.store@.len() && t != pre.bucket_of_spec(key) ==> post.store@[t]
                == pre.store@[t],
        (if old_chain.len() == 1 {
            post.store@[pre.bucket_of_spec(key)] is None
        } else {
            slot_is_chain(post.store@[pre.bucket_of_spec(key)], old_chain.remove(j))
        }),
    ensures
        post.wf(),
        pre.contents().contains_key(key),
        post.contents() == pre.contents().remove(key),
{
    let idx = pre.bucket_of_spec(key);
    let cap = pre.capacity as nat;
    assert(0 <= idx < pre.store@.len());
    assert(slot_wf(pre.store@[idx], idx, cap));
    assert(distinct_keys(old_chain));
    lemma_chain_index_unique(old_chain, key, j);
    assert(pre.has_key(key));
    old_chain.remove_ensures(j);
    assert forall|i: int| 0 <= i < post.store@.len() implies slot_wf(
        #[trigger] post.store@[i],
        i,
        cap,
    ) by {
        if i != idx {
            assert(post.store@[i] == pre.store@[i]);
            assert(slot_wf(pre.store@[i], i, cap));
        } else if old_chain.len() > 1 {
            let kept = old_chain.remove(j);
            lemma_chain_remove(old_chain, j, key);
            assert forall|t: int| 0 <= t < kept.len() implies hashing::spec_bucket_of(
                #[trigger] kept[t].key@,
                cap,
            ) == idx by {
                let t0 = if t < j {
                    t
                } else {
                    t + 1
                };
                assert(kept[t] == old_chain[t0]);
            }
        }
    }
    assert(post.store@ =~= pre.store@.update(idx, post.store@[idx]));
    lemma_total_entries_update(pre.store@, idx, post.store@[idx]);
    assert(slot_len(pre.store@[idx]) == old_chain.len());
    assert(slot_len(post.store@[idx]) == old_chain.len() - 1);
    assert(post.size == total_entries(post.store@));
    assert forall|k: Seq<char>| post.has_key(k) == (pre.has_key(k) && k != key) by {
        let kb = pre.bucket_of_spec(k);
        assert(post.bucket_of_spec(k) == kb);
        lemma_chain_remove(old_chain, j, k);
        if kb != idx {
            assert(post.store@[kb] == pre.store@[kb]);
        } else if old_chain.len() == 1 {
            if chain_has_key(old_chain, k) {
                let t = chain_index_of(old_chain, k);
                lemma_chain_index_unique(old_chain, k, t);
                assert(t == 0 && j == 0);
            }
        }
    }
    assert forall|k: Seq<char>| #[trigger] post.has_key(k) implies post.value_of(k)
        == pre.value_of(k) by {
        let kb = pre.bucket_of_spec(k);
        assert(post.bucket_of_spec(k) == kb);
        lemma_chain_remove(old_chain, j, k);
        if kb != idx {
            assert(post.store@[kb] == pre.store@[kb]);
        }
    }
    assert(post.contents() =~= pre.contents().remove(key));
}

/// A keyed store: get, insert, remove and size over an abstract map from key
/// characters to value characters. The trait is the seam where another
/// collision strategy could be substituted without changing callers.
pub trait HashTable: Sized {
    /// The structure's internal invariant; every operation preserves it.
    spec fn wf(&self) -> bool;

    /// The abstract contents: which keys are stored, and with which values.
    spec fn contents(&self) -> Map<Seq<char>, Seq<char>>;

    /// The number of entries stored, over all buckets.
    spec fn entry_count(&self) -> nat;

    /// The fixed number of slots chosen at construction.
    spec fn capacity_spec(&self) -> nat;

    /// Whether the global capacity guard throttles inserts.
    spec fn guard_enabled(&self) -> bool;

    /// Looks the key up: a reference to its entry, or `None` when the key is
    /// not stored.
    fn get(&self, key: &String) -> (r: Option<&HashItem>)
        requires
            self.wf(),
        ensures
            (match r {
                Some(item) => {
                    &&& self.contents().contains_key(key@)
                    &&& item.key@ == key@
                    &&& item.value@ == self.contents()[key@]
                },
                None => !self.contents().contains_key(key@),
            }),
    ;

    /// Stores the pair, unless the capacity guard blocks it (checked first)
    /// or the key is already present.
    fn insert(&mut self, key: String, value: String) -> (r: Result<(), TableError>)
        requires
            old(self).wf(),
            old(self).entry_count() < usize::MAX,
        ensures
            final(self).wf(),
            final(self).capacity_spec() == old(self).capacity_spec(),
            final(self).guard_enabled() == old(self).guard_enabled(),
            (if old(self).guard_enabled() && old(self).entry_count() == old(
                self,
            ).capacity_spec() {
                &&& r == Err::<(), TableError>(TableError::AtCapacity)
                &&& final(self).contents() == old(self).contents()
                &&& final(self).entry_count() == old(self).entry_count()
            } else if old(self).contents().contains_key(key@) {
                &&& r == Err::<(), TableError>(TableError::DuplicateKey)
                &&& final(self).contents() == old(self).contents()
                &&& final(self).entry_count() == old(self).entry_count()
            } else {
                &&& r == Ok::<(), TableError>(())
                &&& final(self).contents() == old(self).contents().insert(key@, value@)
                &&& final(self).entry_count() == old(self).entry_count() + 1
            }),
    ;

    /// Takes out the entry whose key matches, if one is stored; idempotent,
    /// and entries that merely share the key's bucket are left in place.
    fn remove(&mut self, key: &String)
        requires
            old(self).wf(),
        ensures
            final(self).wf(),
            final(self).capacity_spec() == old(self).capacity_spec(),
            final(self).guard_enabled() == old(self).guard_enabled(),
            final(self).contents() == old(self).contents().remove(key@),
            final(self).entry_count() == (if old(self).contents().contains_key(key@) {
                (old(self).entry_count() - 1) as nat
            } else {
                old(self).entry_count()
            }),
    ;

    /// The current entry count: the maintained counter, never a rescan.
    fn size(&self) -> (r: usize)
        ensures
            r == self.entry_count(),
    ;
}

/// The chained bucket table. Collisions are no failure: keys that hash to one
/// slot queue up in that slot's chain.
pub struct NoCollisionsHashTable {
    capacity: usize,
    size: usize,
    enforce_capacity_guard: bool,
    store: Vec<Option<Vec<HashItem>>>,
}

impl NoCollisionsHashTable {
    /// The bucket `key` belongs to in this table.
    spec fn bucket_of_spec(&self, key: Seq<char>) -> int {
        hashing::spec_bucket_of(key, self.capacity as nat) as int
    }

    /// Whether `key` is stored: only its own bucket's chain can hold it.
    spec fn has_key(&self, key: Seq<char>) -> bool {
        match self.store@[self.bucket_of_spec(key)] {
            Some(chain) => chain_has_key(chain@, key),
            None => false,
        }
    }

    /// The value stored beside `key`; meaningful only when `has_key` holds.
    spec fn value_of(&self, key: Seq<char>) -> Seq<char> {
        match self.store@[self.bucket_of_spec(key)] {
            Some(chain) => chain_value_of(chain@, key),
            None => Seq::empty(),
        }
    }

    /// Builds the table: `capacity` absent slots, no entries.
    fn with_guard_choice(capacity: usize, enforce_capacity_guard: bool) -> (r: Result<
        Self,
        TableError,
    >)
        ensures
            (match r {
                Ok(table) => {
                    &&& capacity > 0
                    &&& table.wf()
                    &&& table.contents() == Map::<Seq<char>, Seq<char>>::empty()
                    &&& table.entry_count() == 0
                    &&& table.capacity_spec() == capacity
                    &&& table.guard_enabled() == enforce_capacity_guard
                },
                Err(e) => capacity == 0 && e == TableError::InvalidCapacity,
            }),
    {
        if capacity == 0 {
            return Err(TableError::InvalidCapacity);
        }
        let mut store: Vec<Option<Vec<HashItem>>> = Vec::new();
        let mut filled: usize = 0;
        while filled < capacity
            invariant
                filled <= capacity,
                store@.len() == filled,
                forall|i: int| 0 <= i < filled ==> store@[i] is None,
            decreases capacity - filled,
        {
            store.push(None);
            filled = filled + 1;
        }
        let table = NoCollisionsHashTable { capacity, size: 0, enforce_capacity_guard, store };
        proof {
            lemma_total_entries_all_absent(table.store@);
            assert(table.contents() =~= Map::<Seq<char>, Seq<char>>::empty());
        }
        Ok(table)
    }

    /// Constructs a table with `capacity` slots and the capacity guard
    /// disabled: the number of entries may then exceed the slot count, one
    /// chain absorbing the surplus.
    pub fn new(capacity: usize) -> (r: Result<Self, TableError>)
        ensures
            (match r {
                Ok(table) => {
                    &&& capacity > 0
                    &&& table.wf()
                    &&& table.contents() == Map::<Seq<char>, Seq<char>>::empty()
                    &&& table.entry_count() == 0
                    &&& table.capacity_spec() == capacity
                    &&& !table.guard_enabled()
                },
                Err(e) => capacity == 0 && e == TableError::InvalidCapacity,
            }),
    {
        Self::with_guard_choice(capacity, false)
    }

    /// Constructs a table with the capacity guard enabled: once the entry
    /// count reaches the slot count, further inserts fail with `AtCapacity`
    /// before the key is even hashed.
    pub fn with_capacity_guard(capacity: usize) -> (r: Result<Self, TableError>)
        ensures
            (match r {
                Ok(table) => {
                    &&& capacity > 0
                    &&& table.wf()
                    &&& table.contents() == Map::<Seq<char>, Seq<char>>::empty()
                    &&& table.entry_count() == 0
                    &&& table.capacity_spec() == capacity
                    &&& table.guard_enabled()
                },
                Err(e) => capacity == 0 && e == TableError::InvalidCapacity,
            }),
    {
        Self::with_guard_choice(capacity, true)
    }

    /// Maps `key` to its bucket index: `digest mod capacity`, always in
    /// `[0, capacity)`.
    pub fn hash(&self, key: &String) -> (index: usize)
        requires
            self.wf(),
        ensures
            index as nat == hashing::spec_bucket_of(key@, self.capacity_spec()),
            index < self.capacity_spec(),
    {
        hashing::bucket_of(key.as_str(), self.capacity)
    }
}

/// A well-formed table has at least one slot: zero capacity is rejected at
/// construction, and the slot count never changes afterwards.
pub proof fn lemma_wf_positive_capacity(table: &NoCollisionsHashTable)
    requires
        table.wf(),
    ensures
        table.capacity_spec() > 0,
{
}

impl HashTable for NoCollisionsHashTable {
    closed spec fn wf(&self) -> bool {
        &&& self.capacity > 0
        &&& self.store@.len() == self.capacity
        &&& self.size == total_entries(self.store@)
        &&& forall|i: int|
            0 <= i < self.store@.len() ==> slot_wf(
                #[trigger] self.store@[i],
                i,
                self.capacity as nat,
            )
    }

    closed spec fn contents(&self) -> Map<Seq<char>, Seq<char>> {
        Map::new(|k: Seq<char>| self.has_key(k), |k: Seq<char>| self.value_of(k))
    }

    closed spec fn entry_count(&self) -> nat {
        self.size as nat
    }

    closed spec fn capacity_spec(&self) -> nat {
        self.capacity as nat
    }

    closed spec fn guard_enabled(&self) -> bool {
        self.enforce_capacity_guard
    }

    fn get(&self, key: &String) -> (r: Option<&HashItem>) {
        let index = self.hash(key);
        match &self.store[index] {
            Some(chain) => {
                match chain_position(chain, key) {
                    Some(j) => {
                        proof {
                            assert(slot_wf(
                                self.store@[index as int],
                                index as int,
                                self.capacity as nat,
                            ));
                            lemma_chain_index_unique(chain@, key@, j as int);
                        }
                        Some(&chain[j])
                    },
                    None => None,
                }
            },
            None => None,
        }
    }

    fn insert(&mut self, key: String, value: String) -> (r: Result<(), TableError>) {
        if self.enforce_capacity_guard && self.size == self.capacity {
            return Err(TableError::AtCapacity);
        }
        let index = self.hash(&key);
        let duplicate = match &self.store[index] {
            Some(chain) => chain_position(chain, &key).is_some(),
            None => false,
        };
        if duplicate {
            proof {
                assert(old(self).has_key(key@));
            }
            return Err(TableError::DuplicateKey);
        }
        let ghost key_view = key@;
        let ghost value_view = value@;
        let mut chain = match self.store[index].take() {
            Some(chain) => chain,
            None => Vec::new(),
        };
        let ghost old_chain = chain@;
        chain.push(HashItem { key, value });
        let ghost new_chain = chain@;
        self.store[index] = Some(chain);
        self.size = self.size + 1;
        proof {
            assert(!old(self).has_key(key_view));
            lemma_insert_rebuild(
                *old(self),
                *self,
                key_view,
                value_view,
                new_chain.last(),
                old_chain,
            );
        }
        Ok(())
    }

    fn remove(&mut self, key: &String) {
        let index = self.hash(key);
        let ghost key_view = key@;
        let ghost old_store = self.store@;
        match self.store[index].take() {
            Some(mut chain) => {
                let ghost old_chain = chain@;
                match chain_position(&chain, key) {
                    Some(j) => {
                        proof {
                            lemma_total_entries_update(old_store, index as int, None);
                            assert(old(self).size >= 1);
                        }
                        if chain.len() > 1 {
                            chain.remove(j);
                            self.store[index] = Some(chain);
                        }
                        self.size = self.size - 1;
                        proof {
                            lemma_remove_rebuild(*old(self), *self, key_view, j as int, old_chain);
                        }
                    },
                    None => {
                        self.store[index] = Some(chain);
                        proof {
                            assert(self.store@ =~= old_store);
                            assert(!old(self).has_key(key_view));
                            assert(self.contents() =~= old(self).contents().remove(key_view));
                        }
                    },
                }
            },
            None => {
                proof {
                    assert(self.store@ =~= old_store);
                    assert(!old(self).has_key(key_view));
                    assert(self.contents() =~= old(self).contents().remove(key_view));
                }
            },
        }
    }

    fn size(&self) -> (r: usize) {
        self.size
    }
}

/// Scans `chain` for an entry carrying exactly `key` and reports its
/// position; `None` when no entry matches.
fn chain_position(chain: &Vec<HashItem>, key: &String) -> (r: Option<usize>)
    ensures
        (match r {
            Some(j) => j < chain@.len() && chain@[j as int].key@ == key@,
            None => !chain_has_key(chain@, key@),
        }),
{
    let mut j: usize = 0;
    while j < chain.len()
        invariant
            j <= chain@.len(),
            forall|t: int| 0 <= t < j ==> chain@[t].key@ != key@,
        decreases chain@.len() - j,
    {
        if chain[j].key == *key {
            return Some(j);
        }
        j = j + 1;
    }
    None
}

} // verus!
