use kepos_tact_memory::protocol::{
    ExportCursor, MemoryError, MemoryKey, MemoryLimits, MemoryRecord, SyncReport,
};
use kepos_tact_memory::rows::StoredMemory;
use kepos_tact_memory::storage::{
    changes, schema_is_new, sqlite_error, sqlite_write_error, step_error, Purpose, Step,
    StorageFailure,
};
use kepos_tact_memory::store::{time_ms, validate_snapshot, SqliteMemoryStore};
use kepos_tact_memory::table::{Database, NamespaceRow};

const NOW: i64 = 1_700_000_000_000;
const WEEK: i64 = 7 * 24 * 60 * 60 * 1000;

fn memory(id: i64, content: &str) -> MemoryRecord {
    MemoryRecord {
        key: MemoryKey::local(id, 1),
        content: content.to_owned(),
        created_at_ms: 1,
        updated_at_ms: 1,
        last_scanned_at_ms: None,
        scan_count: 0,
        last_used_at_ms: None,
        use_count: 0,
        probation_until_ms: None,
    }
}

fn store(namespace: &str) -> SqliteMemoryStore {
    SqliteMemoryStore::new("memory.sqlite3".to_owned(), namespace.to_owned())
}

fn limited(namespace: &str, limits: MemoryLimits) -> SqliteMemoryStore {
    SqliteMemoryStore::with_limits("memory.sqlite3".to_owned(), namespace.to_owned(), limits)
}

fn keys(records: &[MemoryRecord]) -> Vec<MemoryKey> {
    records.iter().map(|record| record.key.clone()).collect()
}

#[test]
fn put_read_replace_delete_round_trip() {
    let mut db = Database::new();
    let store = store("kepos-a");
    let memory = store
        .put_local(&mut db, "The team uses cargo nextest in CI.", None, NOW)
        .unwrap();
    assert_eq!(memory.key.namespace.as_deref(), Some("kepos-a"));
    assert_eq!(memory.key.version, 1);
    assert!(memory.probation_until_ms.is_some());

    let read = store.read_local(&mut db, &[memory.key.id], &[], NOW);
    assert_eq!(read.len(), 1);
    assert_eq!(read[0].content, memory.content);
    assert_eq!(read[0].use_count, 1);
    assert!(read[0].probation_until_ms.is_none());

    let replaced = store
        .put_local(
            &mut db,
            "The team uses cargo nextest for integration tests.",
            Some(memory.key.clone()),
            NOW,
        )
        .unwrap();
    assert_eq!(replaced.key.version, 2);
    assert_eq!(replaced.use_count, 0);
    assert!(replaced.probation_until_ms.is_some());

    store.delete_local(&mut db, &replaced.key).unwrap();
    assert!(store
        .read_local(&mut db, &[replaced.key.id], &[], NOW)
        .is_empty());
}

#[test]
fn cas_conflicts_are_rejected() {
    let mut db = Database::new();
    let store = store("kepos-a");
    let memory = store.put_local(&mut db, "original", None, NOW).unwrap();
    let stale = MemoryKey::remote("kepos-a".to_owned(), memory.key.id, 1);
    let current = store
        .put_local(&mut db, "replacement", Some(stale.clone()), NOW)
        .unwrap();
    assert_eq!(current.key.version, 2);
    assert!(matches!(
        store.put_local(&mut db, "replacement", Some(stale.clone()), NOW),
        Err(MemoryError::Conflict)
    ));
    assert!(matches!(
        store.delete_local(&mut db, &stale),
        Err(MemoryError::Conflict)
    ));
    assert!(matches!(store.delete_local(&mut db, &current.key), Ok(())));
    assert!(matches!(store.delete_local(&mut db, &current.key), Ok(())));
    assert!(matches!(
        store.put_local(&mut db, "again", Some(current.key.clone()), NOW),
        Err(MemoryError::NotFound)
    ));
}

#[test]
fn duplicate_identity_is_rejected_per_namespace() {
    let mut db = Database::new();
    let alice = store("kepos-a");
    alice
        .put_local(&mut db, "The team uses cargo nextest in CI.", None, NOW)
        .unwrap();
    let duplicate = alice.put_local(
        &mut db,
        "  the team   USES cargo  nextest in ci. ",
        None,
        NOW,
    );
    assert!(matches!(duplicate, Err(MemoryError::Duplicate)));
    let other = store("kepos-b").put_local(
        &mut db,
        "  the team   USES cargo  nextest in ci. ",
        None,
        NOW,
    );
    assert!(other.is_ok());
}

#[test]
fn a_replacement_may_keep_its_own_identity_only() {
    let mut db = Database::new();
    let store = store("kepos-a");
    let first = store.put_local(&mut db, "one fact", None, NOW).unwrap();
    store.put_local(&mut db, "other fact", None, NOW).unwrap();
    let same = store
        .put_local(&mut db, "ONE  fact", Some(first.key.clone()), NOW + 5)
        .unwrap();
    assert_eq!(same.key.version, 2);
    assert_eq!(same.created_at_ms, NOW);
    assert_eq!(same.updated_at_ms, NOW + 5);
    assert_eq!(same.probation_until_ms, Some(NOW + 5 + WEEK));
    assert_eq!(
        store.put_local(&mut db, "Other Fact", Some(same.key.clone()), NOW),
        Err(MemoryError::Duplicate)
    );
}

#[test]
fn namespaces_are_isolated_for_writes_and_shared_for_reads() {
    let mut db = Database::new();
    let alice = store("kepos-alice");
    let bob = store("kepos-bob");
    let alice_record = alice.put_local(&mut db, "alice fact", None, NOW).unwrap();
    bob.put_local(&mut db, "bob fact", None, NOW).unwrap();

    let scan = alice.scan_local(&mut db, "fact", 5, NOW).unwrap();
    assert_eq!(scan.limit, 5);
    assert_eq!(scan.memories.len(), 2);
    assert_eq!(scan.memories[0].key.namespace.as_deref(), Some("kepos-alice"));
    assert_eq!(scan.memories[1].key.namespace.as_deref(), Some("kepos-bob"));
    alice.record_scan(&mut db, &keys(&scan.memories), NOW);

    let foreign_read = alice.read_local(&mut db, &[], &[scan.memories[1].key.clone()], NOW);
    assert_eq!(foreign_read.len(), 1);
    assert_eq!(foreign_read[0].key.namespace.as_deref(), Some("kepos-bob"));

    let bob_delete = bob.delete_local(&mut db, &alice_record.key);
    assert!(matches!(bob_delete, Err(MemoryError::RemoteReadOnly)));
    let bob_replace = bob.put_local(&mut db, "mine", Some(alice_record.key.clone()), NOW);
    assert!(matches!(bob_replace, Err(MemoryError::RemoteReadOnly)));
    let local_key = bob.delete_local(&mut db, &MemoryKey::local(1, 1));
    assert!(matches!(local_key, Err(MemoryError::RemoteReadOnly)));
}

#[test]
fn store_sync_reconciles_a_namespace_snapshot() {
    let mut db = Database::new();
    let store = store("kepos-alice");
    let incoming = vec![memory(1, "existing"), memory(2, "new fact")];
    let report = store.sync_local(&mut db, &incoming, NOW).unwrap();
    assert_eq!(report.inserted, 2);
    assert_eq!(report.unchanged, 0);
    assert_eq!(report.deleted, 0);

    let again = store.sync_local(&mut db, &incoming, NOW).unwrap();
    assert_eq!(again.unchanged, 2);
    assert_eq!(
        again,
        SyncReport { inserted: 0, replaced: 0, unchanged: 2, deleted: 0 }
    );

    let changed = vec![memory(1, "existing updated"), memory(2, "new fact")];
    let report = store.sync_local(&mut db, &changed, NOW).unwrap();
    assert_eq!(report.replaced, 1);
    assert_eq!(report.unchanged, 1);

    let third = store
        .sync_local(&mut db, &[memory(1, "existing updated")], NOW)
        .unwrap();
    assert_eq!(third.deleted, 1);
    let inserted = store.put_local(&mut db, "fresh", None, NOW).unwrap();
    assert!(inserted.key.id > 2);
    assert_eq!(inserted.key.id, 3);
}

#[test]
fn export_pages_without_omission_or_repetition() {
    let mut db = Database::new();
    let alice = store("kepos-alice");
    let bob = store("kepos-bob");
    for id in 1..=3 {
        alice
            .put_local(&mut db, &format!("alice {id}"), None, NOW)
            .unwrap();
    }
    bob.put_local(&mut db, "bob fact", None, NOW).unwrap();

    for size in [0, 1, 2, 3, 4, 5, 1000] {
        let mut cursor: Option<ExportCursor> = None;
        let mut collected = Vec::new();
        loop {
            let (page, next) = alice.export_local_page(&db, None, cursor.as_ref(), size, NOW);
            assert!(page.len() <= size.max(1));
            collected.extend(page);
            match next {
                Some(next) => cursor = Some(next),
                None => break,
            }
        }
        assert_eq!(collected.len(), 4);
        let logical = collected
            .iter()
            .map(|m| (m.key.namespace.clone().unwrap(), m.key.id))
            .collect::<Vec<_>>();
        let mut sorted = logical.clone();
        sorted.sort();
        assert_eq!(logical, sorted);
    }

    let selected = ["kepos-bob".to_owned()];
    let (page, _) = alice.export_local_page(&db, Some(&selected), None, 10, NOW);
    assert_eq!(page.len(), 1);
    assert_eq!(page[0].key.namespace.as_deref(), Some("kepos-bob"));
    assert_eq!(
        alice.export_local_page(&db, Some(&[]), None, 10, NOW),
        (vec![], None)
    );
    assert_eq!(
        alice.export_local_page(&db, None, None, 10, NOW + WEEK),
        (vec![], None)
    );
}

#[test]
fn scan_graduates_only_after_read_and_records_telemetry() {
    let mut db = Database::new();
    let store = store("kepos-a");
    let memory = store.put_local(&mut db, "sqlite facts", None, NOW).unwrap();

    let scan = store.scan_local(&mut db, "sqlite", 5, NOW + 1).unwrap();
    assert_eq!(scan.memories.len(), 1);
    store.record_scan(&mut db, &keys(&scan.memories), NOW + 1);
    let listed = store.list_local(&mut db, NOW + 2);
    assert_eq!(listed[0].scan_count, 1);
    assert_eq!(listed[0].last_scanned_at_ms, Some(NOW + 1));
    assert_eq!(listed[0].probation_until_ms, Some(NOW + WEEK));
    let scanned = store.read_local(&mut db, &[memory.key.id], &[], NOW + 3);
    assert_eq!(scanned[0].scan_count, 1);
    assert_eq!(scanned[0].use_count, 1);
    assert!(scanned[0].probation_until_ms.is_none());
    assert_eq!(scanned[0].last_used_at_ms, Some(NOW + 3));
    // A memory that was read outlives its probation.
    assert_eq!(store.list_local(&mut db, NOW + 2 * WEEK).len(), 1);
}

#[test]
fn scans_are_limited_and_count_exact_versions_only() {
    let mut db = Database::new();
    let store = store("kepos-a");
    store.put_local(&mut db, "fact", None, NOW).unwrap();
    assert_eq!(store.scan_local(&mut db, "q", 100, NOW).unwrap().limit, 5);
    assert_eq!(
        store.scan_local(&mut db, &"q".repeat(513), 5, NOW).unwrap_err(),
        MemoryError::QueryTooLarge { maximum_bytes: 512 }
    );
    let stale = MemoryKey::remote("kepos-a".to_owned(), 1, 2);
    let foreign = MemoryKey::remote("kepos-b".to_owned(), 1, 1);
    let local = MemoryKey::local(1, 1);
    store.record_scan(&mut db, &[stale, foreign, local], NOW);
    assert_eq!(store.list_local(&mut db, NOW)[0].scan_count, 0);
}

#[test]
fn expired_unread_probation_is_pruned() {
    let mut db = Database::new();
    let mut limits = MemoryLimits::production();
    limits.probation_duration_ms = 0;
    let store = limited("kepos-a", limits);
    let memory = store.put_local(&mut db, "transient", None, NOW).unwrap();
    store.put_local(&mut db, "another", None, NOW).unwrap();
    let read = store.read_local(&mut db, &[memory.key.id], &[], NOW);
    assert!(read.is_empty());
}

#[test]
fn probation_ends_at_its_last_millisecond() {
    let mut db = Database::new();
    let store = store("kepos-a");
    let id = store.put_local(&mut db, "fact", None, NOW).unwrap().key.id;
    let mut kept = db.clone();
    assert_eq!(store.read_local(&mut kept, &[id], &[], NOW + WEEK - 1).len(), 1);
    assert_eq!(store.read_local(&mut db, &[id], &[], NOW + WEEK).len(), 0);
    assert_eq!(db.memory_rows().len(), 0);
    // The identifier of an expired memory is not reused.
    let next = store.put_local(&mut db, "fact", None, NOW + WEEK).unwrap();
    assert_eq!(next.key.id, id + 1);
}

#[test]
fn record_capacity_is_enforced_per_namespace() {
    let mut db = Database::new();
    let mut limits = MemoryLimits::production();
    limits.records = 2;
    let store = limited("kepos-a", limits);
    for index in 1..=2 {
        store
            .put_local(&mut db, &format!("record {index}"), None, NOW)
            .unwrap();
    }
    let result = store.put_local(&mut db, "third record", None, NOW);
    assert!(matches!(
        result,
        Err(MemoryError::RecordCapacity { maximum: 2 })
    ));
    assert!(limited("kepos-b", limits)
        .put_local(&mut db, "third record", None, NOW)
        .is_ok());
}

#[test]
fn content_limits_are_enforced() {
    let mut db = Database::new();
    let mut limits = MemoryLimits::production();
    limits.content_bytes = 8;
    limits.total_content_bytes = 12;
    let store = limited("kepos-a", limits);
    assert_eq!(
        store.put_local(&mut db, " \t\n", None, NOW),
        Err(MemoryError::EmptyContent)
    );
    assert_eq!(
        store.put_local(&mut db, "123456789", None, NOW),
        Err(MemoryError::ContentTooLarge { maximum_bytes: 8 })
    );
    let first = store.put_local(&mut db, "12345678", None, NOW).unwrap();
    store.put_local(&mut db, "1234", None, NOW).unwrap();
    assert_eq!(
        store.put_local(&mut db, "x", None, NOW),
        Err(MemoryError::ContentCapacity { maximum_bytes: 12 })
    );
    let second = store
        .put_local(&mut db, "1", Some(first.key.clone()), NOW)
        .unwrap();
    store.put_local(&mut db, "1234567", None, NOW).unwrap();
    assert_eq!(
        store.put_local(&mut db, "12", Some(second.key.clone()), NOW),
        Err(MemoryError::ContentCapacity { maximum_bytes: 12 })
    );
    assert_eq!(store.list_local(&mut db, NOW).len(), 3);
}

#[test]
fn failed_operations_leave_the_database_unchanged() {
    let mut db = Database::new();
    let store = store("kepos-a");
    store.put_local(&mut db, "old fact", None, NOW - WEEK).unwrap();
    store.put_local(&mut db, "fact", None, NOW).unwrap();
    // The first memory has expired, but a failure rolls its removal back.
    assert_eq!(
        store.put_local(&mut db, "Fact", None, NOW),
        Err(MemoryError::Duplicate)
    );
    assert_eq!(db.memory_rows().len(), 1);
    store.put_local(&mut db, "more", None, NOW - 2 * WEEK).unwrap();
    assert_eq!(db.memory_rows().len(), 2);
    assert_eq!(
        store.put_local(&mut db, "FACT", None, NOW),
        Err(MemoryError::Duplicate)
    );
    assert_eq!(db.memory_rows().len(), 2);
    let mut bad = memory(1, "x");
    bad.key.version = 0;
    assert_eq!(
        store.sync_local(&mut db, &[bad], NOW),
        Err(MemoryError::Conflict)
    );
    assert_eq!(db.memory_rows().len(), 2);
}

#[test]
fn reads_resolve_each_memory_once_in_the_order_asked() {
    let mut db = Database::new();
    let alice = store("alice");
    let bob = store("bob");
    let one = alice.put_local(&mut db, "one", None, NOW).unwrap();
    let two = alice.put_local(&mut db, "two", None, NOW).unwrap();
    let other = bob.put_local(&mut db, "other", None, NOW).unwrap();
    let stale = MemoryKey::remote("alice".to_owned(), one.key.id, 9);
    let read = alice.read_local(
        &mut db,
        &[two.key.id, one.key.id, 77, two.key.id],
        &[other.key.clone(), stale, MemoryKey::local(2, 1), other.key.clone()],
        NOW,
    );
    // The stale key claims the first memory, so its identifier does not bring it back.
    let contents = read.iter().map(|r| r.content.as_str()).collect::<Vec<_>>();
    assert_eq!(contents, ["other", "two"]);
    assert_eq!(read[0].use_count, 1);
    let again = alice.read_local(&mut db, &[one.key.id, two.key.id], &[], NOW);
    assert_eq!(again[0].use_count, 1);
    assert_eq!(again[1].use_count, 2);
}

#[test]
fn a_read_of_nothing_prunes_nothing() {
    let mut db = Database::new();
    let store = store("kepos-a");
    store.put_local(&mut db, "fact", None, NOW).unwrap();
    assert!(store
        .read_local(&mut db, &[], &[MemoryKey::local(1, 1)], NOW + WEEK)
        .is_empty());
    assert_eq!(db.memory_rows().len(), 1);
}

#[test]
fn lists_are_bounded_and_ordered() {
    let mut db = Database::new();
    let mut limits = MemoryLimits::production();
    store("b").put_local(&mut db, "one", None, NOW).unwrap();
    store("a").put_local(&mut db, "two", None, NOW).unwrap();
    store("a").put_local(&mut db, "three", None, NOW).unwrap();
    let all = store("z").list_local(&mut db, NOW);
    let contents = all.iter().map(|r| r.content.as_str()).collect::<Vec<_>>();
    assert_eq!(contents, ["two", "three", "one"]);
    limits.records = 2;
    assert_eq!(limited("z", limits).list_local(&mut db, NOW).len(), 2);
}

#[test]
fn identifiers_run_out() {
    let mut db = Database::new();
    let store = store("kepos-a");
    store
        .sync_local(&mut db, &[memory(i64::MAX - 1, "last")], NOW)
        .unwrap();
    assert_eq!(
        store.put_local(&mut db, "one more", None, NOW),
        Err(MemoryError::StorageCapacity)
    );
    assert_eq!(
        store.sync_local(&mut db, &[memory(i64::MAX, "too far")], NOW),
        Err(MemoryError::StorageCapacity)
    );
    assert_eq!(db.memory_rows().len(), 1);
}

#[test]
fn versions_run_out() {
    let mut db = Database::new();
    let store = store("kepos-a");
    let mut last = memory(1, "last");
    last.key.version = i64::MAX as u64;
    store.sync_local(&mut db, &[last], NOW).unwrap();
    let key = MemoryKey::remote("kepos-a".to_owned(), 1, i64::MAX as u64);
    assert_eq!(
        store.put_local(&mut db, "next", Some(key), NOW),
        Err(MemoryError::Backend)
    );
}

#[test]
fn snapshots_are_validated() {
    let limits = MemoryLimits::production();
    assert_eq!(validate_snapshot(&[], &limits), Ok(()));
    assert_eq!(
        validate_snapshot(&[memory(1, "a"), memory(2, "b")], &limits),
        Ok(())
    );
    let too_many = (1..=513).map(|id| memory(id, &format!("m {id}"))).collect::<Vec<_>>();
    assert_eq!(
        validate_snapshot(&too_many, &limits),
        Err(MemoryError::RecordCapacity { maximum: 512 })
    );
    let with = |change: fn(&mut MemoryRecord)| {
        let mut record = memory(1, "a");
        change(&mut record);
        validate_snapshot(&[memory(7, "z"), record], &limits)
    };
    let conflict = Err(MemoryError::Conflict);
    assert_eq!(with(|r| r.key.namespace = Some("a".to_owned())), conflict);
    assert_eq!(with(|r| r.key.id = 0), conflict);
    assert_eq!(with(|r| r.key.id = 7), conflict);
    assert_eq!(with(|r| r.key.version = 0), conflict);
    assert_eq!(with(|r| r.key.version = i64::MAX as u64 + 1), conflict);
    assert_eq!(with(|r| r.scan_count = i64::MAX as u64 + 1), conflict);
    assert_eq!(with(|r| r.use_count = i64::MAX as u64 + 1), conflict);
    assert_eq!(with(|r| r.created_at_ms = -1), conflict);
    assert_eq!(with(|r| r.updated_at_ms = 0), conflict);
    assert_eq!(with(|r| r.content = " ".to_owned()), Err(MemoryError::EmptyContent));
    assert_eq!(
        with(|r| r.content = "x".repeat(1025)),
        Err(MemoryError::ContentTooLarge { maximum_bytes: 1024 })
    );
    assert_eq!(with(|r| r.content = " Z ".to_owned()), Err(MemoryError::Duplicate));
    let heavy = (1..=257)
        .map(|id| memory(id, &format!("{id:0>1024}")))
        .collect::<Vec<_>>();
    assert_eq!(
        validate_snapshot(&heavy, &limits),
        Err(MemoryError::ContentCapacity { maximum_bytes: 262144 })
    );
    assert_eq!(validate_snapshot(&heavy[..256], &limits), Ok(()));
}

#[test]
fn a_snapshot_leaves_other_namespaces_alone() {
    let mut db = Database::new();
    store("b").put_local(&mut db, "theirs", None, NOW).unwrap();
    let report = store("a").sync_local(&mut db, &[memory(4, "mine"), memory(2, "too")], NOW).unwrap();
    assert_eq!(report.inserted, 2);
    let rows = db
        .memory_rows()
        .iter()
        .map(|row| (row.namespace.as_str(), row.id, row.content.as_str()))
        .collect::<Vec<_>>();
    assert_eq!(rows, [("a", 2, "too"), ("a", 4, "mine"), ("b", 1, "theirs")]);
    assert_eq!(
        store("c").sync_local(&mut db, &[], NOW).unwrap(),
        SyncReport { inserted: 0, replaced: 0, unchanged: 0, deleted: 0 }
    );
    assert_eq!(db.memory_rows().len(), 3);
}

#[test]
fn counters_stop_where_the_database_does() {
    let mut db = Database::new();
    let store = store("a");
    let mut worn = memory(1, "worn");
    worn.scan_count = i64::MAX as u64;
    worn.use_count = i64::MAX as u64;
    store.sync_local(&mut db, &[worn], NOW).unwrap();
    store.record_scan(&mut db, &[MemoryKey::remote("a".to_owned(), 1, 1)], NOW);
    let read = store.read_local(&mut db, &[1], &[], NOW);
    assert_eq!(read[0].use_count, i64::MAX as u64 + 1);
    assert_eq!(db.memory_rows()[0].use_count, i64::MAX as u64);
    assert_eq!(db.memory_rows()[0].scan_count, i64::MAX as u64);
}

fn row(namespace: &str, id: i64, content: &str) -> StoredMemory {
    StoredMemory {
        namespace: namespace.to_owned(),
        id,
        version: 1,
        content: content.to_owned(),
        identity: content.to_owned(),
        created_at_ms: 1,
        updated_at_ms: 1,
        last_scanned_at_ms: None,
        scan_count: 0,
        last_used_at_ms: None,
        use_count: 0,
        probation_until_ms: None,
    }
}

fn name(namespace: &str, next_id: i64) -> NamespaceRow {
    NamespaceRow { namespace: namespace.to_owned(), next_id }
}

#[test]
fn tables_are_loaded_if_they_satisfy_the_schema() {
    let names = || vec![name("a", 3), name("b", 1)];
    let good = Database::load(names(), vec![row("a", 1, "x"), row("a", 2, "y"), row("b", 1, "x")]);
    assert_eq!(good.unwrap().memory_rows().len(), 3);
    let bad = |names: Vec<NamespaceRow>, rows: Vec<StoredMemory>| {
        assert!(matches!(Database::load(names, rows), Err(MemoryError::Backend)));
    };
    bad(names(), vec![row("a", 2, "x"), row("a", 1, "y")]);
    bad(names(), vec![row("b", 1, "x"), row("a", 1, "y")]);
    bad(names(), vec![row("a", 1, "x"), row("a", 1, "y")]);
    bad(names(), vec![row("a", 1, "x"), row("a", 2, "x")]);
    bad(names(), vec![row("a", 0, "x")]);
    bad(names(), vec![row("c", 1, "x")]);
    bad(vec![name("a", 1), name("a", 2)], vec![]);
    bad(vec![name("a", 0)], vec![]);
    let mut broken = row("a", 1, "x");
    broken.version = 0;
    bad(names(), vec![broken]);
}

#[test]
fn a_loaded_database_allocates_above_what_it_holds() {
    let mut db = Database::load(vec![name("a", 2)], vec![row("a", 9, "x")]).unwrap();
    let put = store("a").put_local(&mut db, "new", None, NOW).unwrap();
    assert_eq!(put.key.id, 10);
    assert_eq!(db.namespace_rows()[0].next_id, 11);
}

#[test]
fn changes_turn_one_database_into_another() {
    let mut db = Database::new();
    let store = store("a");
    let one = store.put_local(&mut db, "one", None, NOW).unwrap();
    let two = store.put_local(&mut db, "two", None, NOW).unwrap();
    store.put_local(&mut db, "three", None, NOW).unwrap();
    let before = db.clone();
    store.delete_local(&mut db, &one.key).unwrap();
    store.put_local(&mut db, "deux", Some(two.key.clone()), NOW).unwrap();
    store.put_local(&mut db, "four", None, NOW).unwrap();
    let diff = changes(&before, &db);
    let ids = |rows: &[StoredMemory]| rows.iter().map(|row| row.id).collect::<Vec<_>>();
    assert_eq!(ids(&diff.deleted), [1, 2]);
    assert_eq!(ids(&diff.inserted), [2, 4]);
    assert_eq!(diff.namespaces, vec![name("a", 5)]);
    let none = changes(&db, &db.clone());
    assert!(none.deleted.is_empty() && none.inserted.is_empty() && none.namespaces.is_empty());
}

#[test]
fn storage_failures_have_a_meaning() {
    assert_eq!(sqlite_error(StorageFailure::Busy), MemoryError::Unavailable);
    assert_eq!(sqlite_error(StorageFailure::Locked), MemoryError::Unavailable);
    assert_eq!(sqlite_error(StorageFailure::DiskFull), MemoryError::Backend);
    assert_eq!(sqlite_error(StorageFailure::Other), MemoryError::Backend);
    assert_eq!(sqlite_write_error(StorageFailure::Busy), MemoryError::Unavailable);
    assert_eq!(sqlite_write_error(StorageFailure::DiskFull), MemoryError::StorageCapacity);
    assert_eq!(sqlite_write_error(StorageFailure::Other), MemoryError::Backend);
}

#[test]
fn a_full_device_is_reported_where_rows_are_stored() {
    let full = |purpose, step| step_error(purpose, step, StorageFailure::DiskFull);
    let reported = MemoryError::StorageCapacity;
    let broken = MemoryError::Backend;
    for (purpose, change, commit) in [
        (Purpose::Access, broken, broken),
        (Purpose::Put, reported, broken),
        (Purpose::Sync, reported, reported),
    ] {
        assert_eq!(full(purpose, Step::Prune), broken);
        assert_eq!(full(purpose, Step::Change), change);
        assert_eq!(full(purpose, Step::Commit), commit);
        for step in [Step::Prune, Step::Change, Step::Commit] {
            assert_eq!(
                step_error(purpose, step, StorageFailure::Busy),
                MemoryError::Unavailable
            );
        }
    }
}

#[test]
fn requests_are_checked_without_the_database() {
    let store = store("kepos-a");
    assert_eq!(store.check_query(&"q".repeat(512)), Ok(()));
    assert_eq!(
        store.check_query(&"q".repeat(513)),
        Err(MemoryError::QueryTooLarge { maximum_bytes: 512 })
    );
    assert_eq!(store.check_content("fact"), Ok(()));
    assert_eq!(store.check_content(" "), Err(MemoryError::EmptyContent));
    assert_eq!(
        store.check_content(&"x".repeat(1025)),
        Err(MemoryError::ContentTooLarge { maximum_bytes: 1024 })
    );
    let own = MemoryKey::remote("kepos-a".to_owned(), 1, 1);
    let foreign = MemoryKey::remote("kepos-b".to_owned(), 1, 1);
    assert_eq!(store.check_owned(&own), Ok(()));
    assert_eq!(store.check_owned(&foreign), Err(MemoryError::RemoteReadOnly));
    assert_eq!(store.check_snapshot(&[memory(1, "a")]), Ok(()));
    assert_eq!(
        store.check_snapshot(&[memory(1, "a"), memory(1, "b")]),
        Err(MemoryError::Conflict)
    );
    assert!(store.names_memories(&[7], &[]));
    assert!(store.names_memories(&[], &[foreign]));
    assert!(!store.names_memories(&[], &[MemoryKey::local(1, 1)]));
}

#[test]
fn only_known_schemas_are_opened() {
    assert_eq!(schema_is_new(0), Ok(true));
    assert_eq!(schema_is_new(1), Ok(false));
    assert_eq!(
        schema_is_new(2),
        Err(MemoryError::UnsupportedSchemaVersion { found: 2, supported: 1 })
    );
    assert_eq!(
        schema_is_new(-1),
        Err(MemoryError::UnsupportedSchemaVersion { found: -1, supported: 1 })
    );
}

#[test]
fn times_are_held_in_range() {
    assert_eq!(time_ms(0), 0);
    assert_eq!(time_ms(NOW as u128), NOW);
    assert_eq!(time_ms(u128::MAX), i64::MAX);
    let mut db = Database::new();
    let put = store("a").put_local(&mut db, "late", None, i64::MAX - 1).unwrap();
    assert_eq!(put.probation_until_ms, Some(i64::MAX));
}
