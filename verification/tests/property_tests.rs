use bucket_table::table::{HashTable, NoCollisionsHashTable, TableError};

#[test]
fn round_trip_returns_value_and_grows_size() {
    let mut table = NoCollisionsHashTable::new(7).unwrap();
    let before = table.size();
    table
        .insert("key".to_string(), "value".to_string())
        .expect("insert failed");
    assert_eq!(table.size(), before + 1);
    assert_eq!(table.get(&"key".to_string()).unwrap().value, "value");
}

#[test]
fn duplicate_insert_keeps_first_value() {
    let mut table = NoCollisionsHashTable::new(10).unwrap();
    table
        .insert("hello".to_string(), "there".to_string())
        .expect("insert failed");
    let second = table.insert("hello".to_string(), "again".to_string());
    assert_eq!(second, Err(TableError::DuplicateKey));
    assert_eq!(table.get(&"hello".to_string()).unwrap().value, "there");
    assert_eq!(table.size(), 1);
}

#[test]
fn remove_restores_size_and_misses() {
    let mut table = NoCollisionsHashTable::new(5).unwrap();
    table
        .insert("keep".to_string(), "kept".to_string())
        .expect("insert failed");
    let before = table.size();
    table
        .insert("gone".to_string(), "soon".to_string())
        .expect("insert failed");
    table.remove(&"gone".to_string());
    assert!(table.get(&"gone".to_string()).is_none());
    assert_eq!(table.size(), before);
    assert_eq!(table.get(&"keep".to_string()).unwrap().value, "kept");
}

#[test]
fn colliding_sibling_survives_remove() {
    // With a single slot every key lands in the same bucket, so these two
    // keys collide by construction.
    let mut table = NoCollisionsHashTable::new(1).unwrap();
    table
        .insert("first".to_string(), "one".to_string())
        .expect("insert failed");
    table
        .insert("second".to_string(), "two".to_string())
        .expect("insert failed");
    assert_eq!(table.size(), 2);

    table.remove(&"first".to_string());

    assert!(table.get(&"first".to_string()).is_none());
    assert_eq!(table.get(&"second".to_string()).unwrap().value, "two");
    assert_eq!(table.size(), 1);
}

#[test]
fn capacity_guard_blocks_then_frees() {
    let mut table = NoCollisionsHashTable::with_capacity_guard(3).unwrap();
    for key in ["one", "two", "three"] {
        table
            .insert(key.to_string(), key.to_string())
            .expect("insert failed");
    }
    assert_eq!(table.size(), 3);

    let blocked = table.insert("four".to_string(), "four".to_string());
    assert_eq!(blocked, Err(TableError::AtCapacity));
    assert_eq!(table.size(), 3);

    table.remove(&"one".to_string());
    table
        .insert("four".to_string(), "four".to_string())
        .expect("insert failed");
    assert_eq!(table.size(), 3);
    assert_eq!(table.get(&"four".to_string()).unwrap().value, "four");
}

#[test]
fn guarded_table_checks_guard_before_duplicates() {
    // The guard is checked before the key is hashed, so a full guarded table
    // reports AtCapacity even for a key it already stores.
    let mut table = NoCollisionsHashTable::with_capacity_guard(1).unwrap();
    table
        .insert("only".to_string(), "one".to_string())
        .expect("insert failed");
    let blocked = table.insert("only".to_string(), "two".to_string());
    assert_eq!(blocked, Err(TableError::AtCapacity));
}

#[test]
fn scenario_three_keys_capacity_three() {
    let mut table = NoCollisionsHashTable::new(3).unwrap();
    for key in ["hello", "aaaaaaaaa", "again"] {
        table
            .insert(key.to_string(), key.to_string())
            .expect("insert failed");
    }
    assert_eq!(table.size(), 3);
    assert_eq!(table.get(&"hello".to_string()).unwrap().value, "hello");
    assert_eq!(
        table.get(&"aaaaaaaaa".to_string()).unwrap().value,
        "aaaaaaaaa"
    );
    assert_eq!(table.get(&"again".to_string()).unwrap().value, "again");
}

#[test]
fn zero_capacity_rejected() {
    assert_eq!(
        NoCollisionsHashTable::new(0).err(),
        Some(TableError::InvalidCapacity)
    );
    assert_eq!(
        NoCollisionsHashTable::with_capacity_guard(0).err(),
        Some(TableError::InvalidCapacity)
    );
}

#[test]
fn empty_key_round_trip() {
    let mut table = NoCollisionsHashTable::new(4).unwrap();
    table
        .insert("".to_string(), "nothing".to_string())
        .expect("insert failed");
    assert_eq!(table.get(&"".to_string()).unwrap().value, "nothing");
    table.remove(&"".to_string());
    assert!(table.get(&"".to_string()).is_none());
    assert_eq!(table.size(), 0);
}

#[test]
fn remove_is_idempotent() {
    let mut table = NoCollisionsHashTable::new(4).unwrap();
    table
        .insert("once".to_string(), "value".to_string())
        .expect("insert failed");
    table.remove(&"once".to_string());
    table.remove(&"once".to_string());
    assert_eq!(table.size(), 0);
    assert!(table.get(&"once".to_string()).is_none());
}

#[test]
fn capacity_one_chains_without_guard() {
    // All keys share the one bucket; with the guard off, the chain absorbs
    // them all and every key stays reachable.
    let mut table = NoCollisionsHashTable::new(1).unwrap();
    let keys = ["a", "b", "c", "d", "e"];
    for key in keys {
        table
            .insert(key.to_string(), format!("value-{}", key))
            .expect("insert failed");
    }
    assert_eq!(table.size(), keys.len());
    for key in keys {
        assert_eq!(
            table.get(&key.to_string()).unwrap().value,
            format!("value-{}", key)
        );
    }
}

#[test]
fn hash_stays_in_range() {
    let table = NoCollisionsHashTable::new(3).unwrap();
    for key in ["", "a", "hello", "#∞§ª", "a longer key with spaces"] {
        assert!(table.hash(&key.to_string()) < 3);
    }
}
