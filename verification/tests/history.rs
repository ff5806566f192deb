use std::collections::{HashMap, HashSet};

use kepos_tact_memory::protocol::{MemoryKey, MemoryLimits, MemoryRecord};
use kepos_tact_memory::store::SqliteMemoryStore;
use kepos_tact_memory::table::Database;

const NOW: i64 = 1_700_000_000_000;

struct Numbers(u64);

impl Numbers {
    fn below(&mut self, bound: u64) -> u64 {
        self.0 = self
            .0
            .wrapping_mul(6364136223846793005)
            .wrapping_add(1442695040888963407);
        (self.0 >> 33) % bound
    }
}

fn limits() -> MemoryLimits {
    let mut limits = MemoryLimits::production();
    limits.records = 4;
    limits.content_bytes = 12;
    limits.total_content_bytes = 30;
    limits.probation_duration_ms = 40;
    limits
}

fn store(namespace: &str) -> SqliteMemoryStore {
    SqliteMemoryStore::with_limits("db".to_owned(), namespace.to_owned(), limits())
}

fn record(id: i64, content: &str) -> MemoryRecord {
    MemoryRecord {
        key: MemoryKey::local(id, 1),
        content: content.to_owned(),
        created_at_ms: 1,
        updated_at_ms: 1,
        last_scanned_at_ms: None,
        scan_count: 0,
        last_used_at_ms: None,
        use_count: 0,
        probation_until_ms: None,
    }
}

fn check(database: &Database) {
    let rows = database.memory_rows();
    let mut counts: HashMap<&str, (usize, usize)> = HashMap::new();
    let mut identities = HashSet::new();
    for row in rows {
        let entry = counts.entry(row.namespace.as_str()).or_default();
        entry.0 += 1;
        entry.1 += row.content.len();
        assert!(row.content.len() <= 12);
        assert!(identities.insert((row.namespace.clone(), row.identity.clone())));
        let owner = database
            .namespace_rows()
            .iter()
            .find(|known| known.namespace == row.namespace)
            .unwrap();
        assert!(row.id < owner.next_id);
    }
    for (records, bytes) in counts.into_values() {
        assert!(records <= 4 && bytes <= 30);
    }
    for pair in rows.windows(2) {
        assert!((&pair[0].namespace, pair[0].id) < (&pair[1].namespace, pair[1].id));
    }
    // The tables could be written and read back.
    let copy = Database::load(
        database.namespace_rows().clone(),
        database.memory_rows().clone(),
    );
    assert!(copy.is_ok());
}

#[test]
fn histories_keep_the_invariant_and_never_reuse_identifiers() {
    let namespaces = ["a", "b", "é"];
    let mut numbers = Numbers(7);
    let mut database = Database::new();
    let mut used: HashMap<&str, i64> = HashMap::new();
    for step in 0..3000i64 {
        let now = NOW + step;
        let namespace = namespaces[numbers.below(3) as usize];
        let store = store(namespace);
        let keys = database
            .memory_rows()
            .iter()
            .map(|row| row.key())
            .collect::<Vec<_>>();
        let some_key = if keys.is_empty() {
            MemoryKey::remote(namespace.to_owned(), 1, 1)
        } else {
            keys[numbers.below(keys.len() as u64) as usize].clone()
        };
        let word = "wörd".repeat(numbers.below(4) as usize + 1);
        let content = format!("{} {}", &word[..word.len().min(10)], numbers.below(6));
        match numbers.below(8) {
            0..=2 => {
                if let Ok(stored) = store.put_local(&mut database, &content, None, now) {
                    assert!(stored.key.id > used.get(namespace).copied().unwrap_or(0));
                    used.insert(namespace, stored.key.id);
                    let read = store.read_local(&mut database.clone(), &[stored.key.id], &[], now);
                    assert_eq!(read[0].content, content);
                    assert_eq!(read[0].key, stored.key);
                }
            }
            3 => {
                if let Ok(stored) =
                    store.put_local(&mut database, &content, Some(some_key.clone()), now)
                {
                    assert_eq!(stored.key.version, some_key.version + 1);
                    assert_eq!(stored.key.id, some_key.id);
                }
            }
            4 => {
                let own = some_key.namespace.as_deref() == Some(namespace);
                assert_eq!(store.delete_local(&mut database, &some_key).is_ok(), own);
            }
            5 => {
                store.read_local(&mut database, &[], &[some_key], now);
            }
            6 => {
                store.record_scan(&mut database, &[some_key], now);
                store.list_local(&mut database, now);
            }
            _ => {
                let first = used.get(namespace).copied().unwrap_or(0) + numbers.below(3) as i64;
                let snapshot = [record(first + 1, "one"), record(first + 2, "two")];
                if numbers.below(4) == 0 && store.sync_local(&mut database, &snapshot, now).is_ok() {
                    used.insert(namespace, first + 2);
                }
            }
        }
        check(&database);
    }
    assert!(used.values().all(|id| *id > 10));
}

#[test]
fn a_delete_undoes_a_put() {
    let mut database = Database::new();
    let a = store("a");
    a.put_local(&mut database, "kept", None, NOW).unwrap();
    let before = database.memory_rows().clone();
    let added = a.put_local(&mut database, "added", None, NOW).unwrap();
    a.delete_local(&mut database, &added.key).unwrap();
    assert_eq!(database.memory_rows(), &before);
    assert_eq!(database.namespace_rows()[0].next_id, added.key.id + 1);
}

#[test]
fn an_export_returns_a_snapshot() {
    let mut database = Database::new();
    store("b").put_local(&mut database, "other", None, NOW).unwrap();
    let snapshot = [record(5, "five"), record(2, "two")];
    store("a").sync_local(&mut database, &snapshot, NOW).unwrap();
    let selected = ["a".to_owned()];
    let (page, next) = store("z").export_local_page(&database, Some(&selected), None, 9, NOW);
    assert_eq!(next, None);
    let contents = page.iter().map(|r| r.content.as_str()).collect::<Vec<_>>();
    assert_eq!(contents, ["two", "five"]);
    assert_eq!(page[0].key, MemoryKey::remote("a".to_owned(), 2, 1));
}
