//! Operations of a namespace-bound memory store on a database.
//!
//! Reads span the visible memories of every namespace; mutations are bound to the namespace of
//! the store. Each operation is one transaction: it either succeeds as a whole or fails and
//! leaves the database unchanged.

use vstd::prelude::*;

use crate::mutations::{
    clamped, content_fault, delete_outcome, insert_outcome, optional_key, pruned, put_outcome,
    replace_outcome, storing_fault,
};
use crate::protocol::{
    key_views, optional_cursor, production_limits, record_views, same_moment, CursorView,
    ExportCursor, KeyView, MemoryError, MemoryKey, MemoryLimits, MemoryRecord, RecordView,
    SyncReport, MAX_EXPORT_PAGE_RECORDS,
};
use crate::queries::{
    cursor_of, export_page, exported, key_references, lemma_references_distinct, lemma_scanned_step,
    lemma_used_lookup, lemma_used_step, listed, read_outcome, read_record, read_records, referenced,
    references, references_distinct, scan_recorded, scanned_row, used_row, used_rows, ReferenceView,
};
use crate::rows::{
    bytes_in, expired, first, holds, identity_taken, key_before, lemma_filter_add, lemma_filter_all,
    lemma_filter_empty, lemma_filter_members, lemma_filter_step, lemma_identity_free,
    lemma_insert_sorted, lemma_lookup_index, lemma_max_id, lemma_tally_at_least, rank, record_of,
    records_of, row_views, rows_in, unexpired, valid_row, valid_state, RowView, StoreView,
    StoredMemory,
};
use crate::snapshot::{
    change_count, change_of, deleted_rows, first_fault, identity_in, insert_snapshot,
    lemma_fault_stays, lemma_no_fault, raised, reports, snapshot_bytes, snapshot_fault,
    snapshot_has, snapshot_row, sync_outcome, well_shaped, Change,
};
use crate::table::{with_namespace, Database};
use crate::text::{
    blank, byte_len, identity_of, lemma_utf8_empty, normalize_identity, same_text, texts, utf8_len,
    Place,
};

verus! {

/// Accepts a content that is neither blank nor too large.
pub fn validate_content(content: &str, limits: &MemoryLimits) -> (valid: Result<(), MemoryError>)
    ensures
        match valid {
            Ok(()) => content_fault(content@, *limits) is None,
            Err(error) => content_fault(content@, *limits) == Some(error),
        },
{
    if blank(content) {
        return Err(MemoryError::EmptyContent);
    }
    if byte_len(content) > limits.content_bytes {
        return Err(MemoryError::ContentTooLarge { maximum_bytes: limits.content_bytes });
    }
    Ok(())
}

/// The sum of two times, held within the range of a signed 64-bit number.
fn later(time_ms: i64, duration_ms: i64) -> (sum: i64)
    ensures
        sum == clamped(time_ms + duration_ms),
{
    let sum: i128 = time_ms as i128 + duration_ms as i128;
    if sum < i64::MIN as i128 {
        i64::MIN
    } else if sum > i64::MAX as i128 {
        i64::MAX
    } else {
        sum as i64
    }
}

/// The time that a clock shows `elapsed_ms` milliseconds after the Unix epoch.
pub fn time_ms(elapsed_ms: u128) -> (now: i64)
    ensures
        now == clamped(elapsed_ms as int),
{
    if elapsed_ms > i64::MAX as u128 {
        i64::MAX
    } else {
        elapsed_ms as i64
    }
}

/// A store that is bound to one namespace of the database at `path`.
#[derive(Clone, Debug)]
pub struct SqliteMemoryStore {
    path: String,
    namespace: String,
    limits: MemoryLimits,
}

impl SqliteMemoryStore {
    /// Where the database is.
    pub closed spec fn location(&self) -> Seq<char> {
        self.path@
    }

    /// The namespace that mutations are bound to.
    pub closed spec fn owner(&self) -> Seq<char> {
        self.namespace@
    }

    /// The limits that the store enforces.
    pub closed spec fn bounds(&self) -> MemoryLimits {
        self.limits
    }

    /// A store on the database at `path`, bound to one writer namespace.
    pub fn new(path: String, namespace: String) -> (store: SqliteMemoryStore)
        ensures
            store.location() == path@,
            store.owner() == namespace@,
            store.bounds() == production_limits(),
    {
        SqliteMemoryStore { path, namespace, limits: MemoryLimits::production() }
    }

    /// A store with limits of its own.
    pub fn with_limits(path: String, namespace: String, limits: MemoryLimits) -> (store:
        SqliteMemoryStore)
        ensures
            store.location() == path@,
            store.owner() == namespace@,
            store.bounds() == limits,
    {
        SqliteMemoryStore { path, namespace, limits }
    }

    /// Where the database is.
    pub fn path(&self) -> (path: &str)
        ensures
            path@ == self.location(),
    {
        self.path.as_str()
    }

    /// Accepts a content that can be stored, whatever the database holds.
    pub fn check_content(&self, content: &str) -> (checked: Result<(), MemoryError>)
        ensures
            match checked {
                Ok(()) => storing_fault(content@, self.bounds()) is None,
                Err(error) => storing_fault(content@, self.bounds()) == Some(error),
            },
    {
        if let Err(error) = validate_content(content, &self.limits) {
            return Err(error);
        }
        let identity = normalize_identity(content);
        proof {
            lemma_utf8_empty(identity@);
        }
        if byte_len(identity.as_str()) == 0 {
            return Err(MemoryError::EmptyContent);
        }
        Ok(())
    }

    /// Accepts a query that is not too large.
    pub fn check_query(&self, query: &str) -> (checked: Result<(), MemoryError>)
        ensures
            match checked {
                Ok(()) => utf8_len(query@) <= self.bounds().query_bytes,
                Err(error) => utf8_len(query@) > self.bounds().query_bytes && error == (
                MemoryError::QueryTooLarge { maximum_bytes: self.bounds().query_bytes }),
            },
    {
        if byte_len(query) > self.limits.query_bytes {
            return Err(MemoryError::QueryTooLarge { maximum_bytes: self.limits.query_bytes });
        }
        Ok(())
    }

    /// Accepts a key of the namespace of the store.
    pub fn check_owned(&self, key: &MemoryKey) -> (checked: Result<(), MemoryError>)
        ensures
            match checked {
                Ok(()) => key@.namespace == Some(self.owner()),
                Err(error) => key@.namespace != Some(self.owner()) && error
                    == MemoryError::RemoteReadOnly,
            },
    {
        if !key.is_in(self.namespace.as_str()) {
            return Err(MemoryError::RemoteReadOnly);
        }
        Ok(())
    }

    /// Accepts a snapshot whose records can be stored, are apart, and stay within the limits.
    pub fn check_snapshot(&self, memories: &[MemoryRecord]) -> (checked: Result<(), MemoryError>)
        ensures
            match checked {
                Ok(()) => snapshot_fault(record_views(memories@), self.bounds()) is None,
                Err(error) => snapshot_fault(record_views(memories@), self.bounds()) == Some(error),
            },
    {
        validate_snapshot(memories, &self.limits)
    }

    /// Whether a read names any memory; one that does not gives nothing and changes nothing.
    pub fn names_memories(&self, ids: &[i64], keys: &[MemoryKey]) -> (r: bool)
        ensures
            r == (references(self.owner(), ids@, key_views(keys@)).len() > 0),
    {
        let asked = self.references(ids, keys);
        assert(reference_views(asked@).len() == asked@.len());
        asked.len() > 0
    }

    /// Adds a memory to the namespace of the store.
    fn insert(&self, database: &mut Database, content: &str, identity: String, now_ms: i64) -> (row:
        Result<StoredMemory, MemoryError>)
        requires
            old(database).wf(),
            identity@ == identity_of(content@),
        ensures
            match row {
                Ok(row) => final(database).wf() && insert_outcome(
                    old(database)@,
                    self.owner(),
                    self.bounds(),
                    content@,
                    now_ms as int,
                ) == Ok::<(StoreView, RowView), MemoryError>((final(database)@, row@)),
                Err(error) => insert_outcome(
                    old(database)@,
                    self.owner(),
                    self.bounds(),
                    content@,
                    now_ms as int,
                ) == Err::<(StoreView, RowView), MemoryError>(error) && final(database)@ == (
                if error == MemoryError::StorageCapacity {
                    StoreView {
                        next_ids: with_namespace(old(database)@.next_ids, self.owner()),
                        ..old(database)@
                    }
                } else {
                    old(database)@
                }),
            },
    {
        let namespace = self.namespace.as_str();
        if database.identity_exists(namespace, identity.as_str(), None) {
            return Err(MemoryError::Duplicate);
        }
        let totals = match database.totals(namespace) {
            Ok(totals) => totals,
            Err(error) => {
                return Err(error);
            },
        };
        if totals.records >= self.limits.records as u64 {
            return Err(MemoryError::RecordCapacity { maximum: self.limits.records });
        }
        if totals.content_bytes.saturating_add(byte_len(content) as u64)
            > self.limits.total_content_bytes as u64 {
            return Err(
                MemoryError::ContentCapacity { maximum_bytes: self.limits.total_content_bytes },
            );
        }
        database.ensure_namespace(namespace);
        proof {
            database.lemma_wf();
            lemma_max_id(database@.rows, namespace@);
        }
        let probation_until_ms: i64 = later(now_ms, self.limits.probation_duration_ms);
        let id: i64 = match database.allocate_id(namespace) {
            Ok(id) => id,
            Err(error) => {
                return Err(error);
            },
        };
        let row = StoredMemory {
            namespace: namespace.to_string(),
            id,
            version: 1,
            content: content.to_string(),
            identity,
            created_at_ms: now_ms,
            updated_at_ms: now_ms,
            last_scanned_at_ms: None,
            scan_count: 0,
            last_used_at_ms: None,
            use_count: 0,
            probation_until_ms: Some(probation_until_ms),
        };
        let result = row.duplicate();
        database.insert_memory(row);
        Ok(result)
    }

    /// Replaces a memory of the namespace of the store, if it still has the version of `key`.
    fn replace(
        &self,
        database: &mut Database,
        content: &str,
        identity: String,
        key: &MemoryKey,
        now_ms: i64,
    ) -> (row: Result<StoredMemory, MemoryError>)
        requires
            old(database).wf(),
            identity@ == identity_of(content@),
        ensures
            match row {
                Ok(row) => final(database).wf() && replace_outcome(
                    old(database)@,
                    self.owner(),
                    self.bounds(),
                    content@,
                    key@,
                    now_ms as int,
                ) == Ok::<(StoreView, RowView), MemoryError>((final(database)@, row@)),
                Err(error) => replace_outcome(
                    old(database)@,
                    self.owner(),
                    self.bounds(),
                    content@,
                    key@,
                    now_ms as int,
                ) == Err::<(StoreView, RowView), MemoryError>(error) && final(database)@
                    == old(database)@,
            },
    {
        if let Err(error) = self.check_owned(key) {
            return Err(error);
        }
        let namespace = self.namespace.as_str();
        let current = match database.load_one(namespace, key.id) {
            Some(current) => current,
            None => {
                return Err(MemoryError::NotFound);
            },
        };
        if current.version != key.version {
            return Err(MemoryError::Conflict);
        }
        if database.identity_exists(namespace, identity.as_str(), Some(key.id)) {
            return Err(MemoryError::Duplicate);
        }
        let totals = match database.totals(namespace) {
            Ok(totals) => totals,
            Err(error) => {
                return Err(error);
            },
        };
        proof {
            let i = lemma_lookup_index(database@.rows, namespace@, key@.id);
            lemma_tally_at_least(database@.rows, bytes_in(namespace@), i);
            database.lemma_wf();
            assert(valid_row(database@.rows[i]));
        }
        let resulting_bytes: u64 = totals.content_bytes.saturating_sub(
            byte_len(current.content.as_str()) as u64,
        ).saturating_add(byte_len(content) as u64);
        if resulting_bytes > self.limits.total_content_bytes as u64 {
            return Err(
                MemoryError::ContentCapacity { maximum_bytes: self.limits.total_content_bytes },
            );
        }
        if current.version >= i64::MAX as u64 {
            return Err(MemoryError::Backend);
        }
        let probation_until_ms: i64 = later(now_ms, self.limits.probation_duration_ms);
        let row = StoredMemory {
            namespace: namespace.to_string(),
            id: key.id,
            version: key.version + 1,
            content: content.to_string(),
            identity,
            created_at_ms: current.created_at_ms,
            updated_at_ms: now_ms,
            last_scanned_at_ms: None,
            scan_count: 0,
            last_used_at_ms: None,
            use_count: 0,
            probation_until_ms: Some(probation_until_ms),
        };
        let result = row.duplicate();
        database.replace_memory(row);
        Ok(result)
    }

    /// Stores `content`, as a new memory or as the next version of `replacement`.
    pub fn put_local(
        &self,
        database: &mut Database,
        content: &str,
        replacement: Option<MemoryKey>,
        now_ms: i64,
    ) -> (record: Result<MemoryRecord, MemoryError>)
        requires
            old(database).wf(),
        ensures
            final(database).wf(),
            match record {
                Ok(record) => put_outcome(
                    old(database)@,
                    self.owner(),
                    self.bounds(),
                    content@,
                    optional_key(replacement),
                    now_ms as int,
                ) == Ok::<(StoreView, RecordView), MemoryError>((final(database)@, record@)),
                Err(error) => put_outcome(
                    old(database)@,
                    self.owner(),
                    self.bounds(),
                    content@,
                    optional_key(replacement),
                    now_ms as int,
                ) == Err::<(StoreView, RecordView), MemoryError>(error) && final(database)@
                    == old(database)@,
            },
    {
        if let Err(error) = self.check_content(content) {
            return Err(error);
        }
        let identity = normalize_identity(content);
        let mut after = database.clone();
        after.prune_expired(now_ms);
        let row = match &replacement {
            Some(key) => self.replace(&mut after, content, identity, key, now_ms),
            None => self.insert(&mut after, content, identity, now_ms),
        };
        match row {
            Ok(row) => {
                *database = after;
                Ok(row.record())
            },
            Err(error) => Err(error),
        }
    }

    /// Deletes a memory of the namespace of the store, if it still has the version of `key`.
    pub fn delete_local(&self, database: &mut Database, key: &MemoryKey) -> (deleted: Result<
        (),
        MemoryError,
    >)
        requires
            old(database).wf(),
        ensures
            final(database).wf(),
            match deleted {
                Ok(()) => delete_outcome(old(database)@, self.owner(), key@) == Ok::<
                    StoreView,
                    MemoryError,
                >(final(database)@),
                Err(error) => delete_outcome(old(database)@, self.owner(), key@) == Err::<
                    StoreView,
                    MemoryError,
                >(error) && final(database)@ == old(database)@,
            },
    {
        if let Err(error) = self.check_owned(key) {
            return Err(error);
        }
        let namespace = self.namespace.as_str();
        match database.load_one(namespace, key.id) {
            None => {
                return Ok(());
            },
            Some(current) => {
                if current.version != key.version {
                    return Err(MemoryError::Conflict);
                }
            },
        }
        database.delete_memory(namespace, key.id);
        Ok(())
    }

    /// Reads the memories that `keys` name in any namespace, then the memories `ids` of the
    /// namespace of the store. A memory that is read leaves probation.
    pub fn read_local(
        &self,
        database: &mut Database,
        ids: &[i64],
        keys: &[MemoryKey],
        now_ms: i64,
    ) -> (records: Vec<MemoryRecord>)
        requires
            old(database).wf(),
        ensures
            final(database).wf(),
            read_outcome(old(database)@, self.owner(), ids@, key_views(keys@), now_ms as int) == (
                final(database)@,
                record_views(records@),
            ),
    {
        let wanted_memories = self.references(ids, keys);
        let mut records: Vec<MemoryRecord> = Vec::new();
        assert(record_views(records@) =~= Seq::<RecordView>::empty());
        if wanted_memories.len() == 0 {
            return records;
        }
        let ghost asked = reference_views(wanted_memories@);
        let ghost now = now_ms as int;
        proof {
            lemma_references_distinct(self.owner(), ids@, key_views(keys@));
            assert(asked.len() > 0);
        }
        database.prune_expired(now_ms);
        let ghost start = database@;
        let mut i: usize = 0;
        proof {
            database.lemma_wf();
            assert(used_rows(start.rows, asked.take(0), now) =~= start.rows);
        }
        while i < wanted_memories.len()
            invariant
                i <= wanted_memories@.len(),
                asked == reference_views(wanted_memories@),
                references_distinct(asked),
                now == now_ms,
                valid_state(start),
                database.wf(),
                database@ == (StoreView {
                    rows: used_rows(start.rows, asked.take(i as int), now),
                    ..start
                }),
                record_views(records@) == read_records(start.rows, asked.take(i as int), now),
            decreases wanted_memories@.len() - i,
        {
            let reference = &wanted_memories[i];
            let ghost earlier = asked.take(i as int);
            let ghost before = database@.rows;
            proof {
                assert(reference@ == asked[i as int]);
                assert(asked.take(i + 1) =~= earlier.push(reference@));
                assert(asked.take(i + 1).drop_last() =~= earlier);
                assert(!referenced(earlier, reference@.namespace, reference@.id));
                lemma_used_lookup(
                    start.rows,
                    earlier,
                    now,
                    reference@.namespace,
                    reference@.id,
                );
                lemma_used_step(start.rows, earlier, reference@, now);
                database.lemma_wf();
            }
            let found = match database.load_one(reference.namespace.as_str(), reference.id) {
                Some(row) => if match reference.version {
                    Some(version) => version == row.version,
                    None => true,
                } {
                    Some(row.duplicate())
                } else {
                    None
                },
                None => None,
            };
            if let Some(row) = found {
                let ghost old_row = row@;
                let ghost place = lemma_lookup_index(
                    before,
                    reference@.namespace,
                    reference@.id,
                );
                proof {
                    lemma_identity_free(before, place);
                    assert(valid_row(before[place]));
                }
                let mut used = row;
                used.last_used_at_ms = Some(now_ms);
                used.probation_until_ms = None;
                let uses: u64 = used.use_count;
                used.use_count = uses + 1;
                let ghost shown = records@;
                let record = used.record();
                records.push(record);
                if uses == i64::MAX as u64 {
                    used.use_count = uses;
                }
                proof {
                    assert(record@ == read_record(old_row, now));
                    assert(used@ == used_row(old_row, now));
                    assert(record_views(records@) =~= record_views(shown).push(record@));
                    assert(holds(before, used@.namespace, used@.id));
                }
                database.replace_memory(used);
            }
            i += 1;
        }
        proof {
            assert(asked.take(i as int) =~= asked);
        }
        records
    }

    /// The memories that a read asks for, each once.
    fn references(&self, ids: &[i64], keys: &[MemoryKey]) -> (list: Vec<Reference>)
        ensures
            reference_views(list@) == references(self.owner(), ids@, key_views(keys@)),
    {
        let mut list: Vec<Reference> = Vec::new();
        let ghost names = key_views(keys@);
        let mut i: usize = 0;
        assert(reference_views(list@) =~= key_references(names.take(0)));
        while i < keys.len()
            invariant
                i <= keys@.len(),
                names == key_views(keys@),
                reference_views(list@) == key_references(names.take(i as int)),
            decreases keys@.len() - i,
        {
            let key = &keys[i];
            proof {
                assert(names.take(i + 1).drop_last() =~= names.take(i as int));
                assert(names.take(i + 1).last() == key@);
            }
            if let Some(namespace) = &key.namespace {
                if !has_reference(&list, namespace.as_str(), key.id) {
                    let ghost before = list@;
                    let reference = Reference {
                        namespace: namespace.clone(),
                        id: key.id,
                        version: Some(key.version),
                    };
                    list.push(reference);
                    assert(reference_views(list@) =~= reference_views(before).push(reference@));
                }
            }
            i += 1;
        }
        assert(names.take(i as int) =~= names);
        let mut j: usize = 0;
        assert(ids@.take(0) =~= Seq::<i64>::empty());
        while j < ids.len()
            invariant
                j <= ids@.len(),
                names == key_views(keys@),
                reference_views(list@) == references(self.owner(), ids@.take(j as int), names),
            decreases ids@.len() - j,
        {
            let id: i64 = ids[j];
            proof {
                assert(ids@.take(j + 1).drop_last() =~= ids@.take(j as int));
                assert(ids@.take(j + 1).last() == id);
            }
            if !has_reference(&list, self.namespace.as_str(), id) {
                let ghost before = list@;
                let reference = Reference { namespace: self.namespace.clone(), id, version: None };
                list.push(reference);
                assert(reference_views(list@) =~= reference_views(before).push(reference@));
            }
            j += 1;
        }
        assert(ids@.take(j as int) =~= ids@);
        list
    }

    /// The first of all the visible memories.
    pub fn list_local(&self, database: &mut Database, now_ms: i64) -> (records: Vec<MemoryRecord>)
        requires
            old(database).wf(),
        ensures
            final(database).wf(),
            final(database)@ == pruned(old(database)@, now_ms as int),
            record_views(records@) == listed(old(database)@, self.bounds(), now_ms as int),
    {
        database.prune_expired(now_ms);
        proof {
            lemma_unexpired_twice(old(database)@.rows, now_ms as int);
        }
        database.load_visible(now_ms, self.limits.records)
    }

    /// Starts a scan: the visible memories that are to be ranked against `query`, and the number
    /// of results to keep. `record_scan` completes it.
    pub fn scan_local(
        &self,
        database: &mut Database,
        query: &str,
        limit: usize,
        now_ms: i64,
    ) -> (scan: Result<Scan, MemoryError>)
        requires
            old(database).wf(),
        ensures
            final(database).wf(),
            match scan {
                Ok(scan) => utf8_len(query@) <= self.bounds().query_bytes && final(database)@
                    == pruned(old(database)@, now_ms as int) && record_views(scan.memories@)
                    == records_of(unexpired(old(database)@.rows, now_ms as int)) && scan.limit == (
                if limit <= self.bounds().scan_results {
                    limit
                } else {
                    self.bounds().scan_results
                }),
                Err(error) => error == (MemoryError::QueryTooLarge {
                    maximum_bytes: self.bounds().query_bytes,
                }) && utf8_len(query@) > self.bounds().query_bytes && final(database)@
                    == old(database)@,
            },
    {
        if let Err(error) = self.check_query(query) {
            return Err(error);
        }
        database.prune_expired(now_ms);
        proof {
            lemma_unexpired_twice(old(database)@.rows, now_ms as int);
        }
        let count: usize = database.memory_rows().len();
        let memories = database.load_visible(now_ms, count);
        let limit: usize = if limit <= self.limits.scan_results {
            limit
        } else {
            self.limits.scan_results
        };
        Ok(Scan { memories, limit })
    }

    /// Completes a scan: counts it for each memory that it showed.
    pub fn record_scan(&self, database: &mut Database, shown: &[MemoryKey], now_ms: i64)
        requires
            old(database).wf(),
        ensures
            final(database).wf(),
            final(database)@ == (StoreView {
                rows: scan_recorded(old(database)@.rows, key_views(shown@), now_ms as int),
                ..old(database)@
            }),
    {
        let ghost keys = key_views(shown@);
        let ghost now = now_ms as int;
        let ghost start = database@;
        let mut i: usize = 0;
        assert(keys.take(0) =~= Seq::<KeyView>::empty());
        while i < shown.len()
            invariant
                i <= shown@.len(),
                keys == key_views(shown@),
                now == now_ms,
                database.wf(),
                database@ == (StoreView {
                    rows: scan_recorded(start.rows, keys.take(i as int), now),
                    ..start
                }),
            decreases shown@.len() - i,
        {
            let key = &shown[i];
            let ghost before = database@.rows;
            proof {
                database.lemma_wf();
                assert(keys.take(i + 1).drop_last() =~= keys.take(i as int));
                assert(keys.take(i + 1).last() == key@);
                lemma_scanned_step(before, key@, now);
            }
            if let Some(namespace) = &key.namespace {
                let found = match database.load_one(namespace.as_str(), key.id) {
                    Some(row) => if row.version == key.version {
                        Some(row.duplicate())
                    } else {
                        None
                    },
                    None => None,
                };
                if let Some(row) = found {
                    proof {
                        let place = lemma_lookup_index(before, namespace@, key@.id);
                        lemma_identity_free(before, place);
                        assert(valid_row(before[place]));
                        assert(holds(before, row@.namespace, row@.id));
                    }
                    let ghost old_row = row@;
                    let mut scanned = row;
                    scanned.last_scanned_at_ms = Some(now_ms);
                    if scanned.scan_count < i64::MAX as u64 {
                        scanned.scan_count = scanned.scan_count + 1;
                    }
                    assert(scanned@ == scanned_row(old_row, now));
                    database.replace_memory(scanned);
                }
            }
            i += 1;
        }
        assert(keys.take(i as int) =~= keys);
    }

    /// One page of the visible memories of the namespaces asked for, in the order of their keys.
    pub fn export_local_page(
        &self,
        database: &Database,
        namespaces: Option<&[String]>,
        cursor: Option<&ExportCursor>,
        limit: usize,
        now_ms: i64,
    ) -> (page: (Vec<MemoryRecord>, Option<ExportCursor>))
        ensures
            export_page(
                database@.rows,
                selection(namespaces),
                position_after(cursor),
                limit as int,
                now_ms as int,
            ) == (record_views(page.0@), optional_cursor(page.1)),
    {
        let size: usize = if limit < 1 {
            1
        } else if limit > MAX_EXPORT_PAGE_RECORDS {
            MAX_EXPORT_PAGE_RECORDS
        } else {
            limit
        };
        let rows = database.memory_rows();
        let ghost all = database@.rows;
        let ghost chosen = selection(namespaces);
        let ghost after = position_after(cursor);
        let ghost keep = |row: RowView| exported(row, chosen, after, now_ms as int);
        let mut records: Vec<MemoryRecord> = Vec::new();
        let mut next_cursor: Option<ExportCursor> = None;
        let mut more = false;
        let mut i: usize = 0;
        proof {
            lemma_filter_empty(all.take(0), keep);
            assert(record_views(records@) =~= records_of(all.take(0).filter(keep)));
        }
        while i < rows.len() && !more
            invariant
                row_views(rows@) == all,
                all.len() == rows@.len(),
                chosen == selection(namespaces),
                after == position_after(cursor),
                keep == (|row: RowView| exported(row, chosen, after, now_ms as int)),
                i <= rows@.len(),
                1 <= size,
                records.len() <= size,
                !more ==> record_views(records@) == records_of(all.take(i as int).filter(keep)),
                more ==> records.len() == size && all.take(i as int).filter(keep).len() == size + 1
                    && record_views(records@) == records_of(
                    all.take(i as int).filter(keep).drop_last(),
                ),
                records.len() > 0 ==> optional_cursor(next_cursor) == Some(
                    cursor_of(all.take(i as int).filter(keep)[records.len() - 1]),
                ),
            decreases rows@.len() - i,
        {
            let row = &rows[i];
            let ghost shown = records@;
            let ghost earlier = all.take(i as int).filter(keep);
            proof {
                assert(row@ == all[i as int]);
                lemma_filter_step(all, keep, i as int);
            }
            if !row.is_expired(now_ms) && selects(namespaces, row.namespace.as_str()) && follows(
                cursor,
                row,
            ) {
                if records.len() == size {
                    more = true;
                    assert(earlier.push(row@).drop_last() =~= earlier);
                } else {
                    records.push(row.record());
                    next_cursor =
                    Some(ExportCursor { namespace: row.namespace.clone(), id: row.id });
                    proof {
                        assert(record_views(records@) =~= record_views(shown).push(
                            record_of(row@),
                        ));
                        assert(records_of(earlier.push(row@)) =~= records_of(earlier).push(
                            record_of(row@),
                        ));
                    }
                }
            }
            i += 1;
        }
        proof {
            let seen = all.take(i as int);
            let kept = seen.filter(keep);
            let rest = all.skip(i as int);
            lemma_filter_add(seen, rest, keep);
            assert(all =~= seen + rest);
            let selected = all.filter(keep);
            assert(record_views(records@).len() == records.len());
            if more {
                assert(first(selected, size as int) =~= kept.drop_last());
                assert(first(selected, size as int).last() == kept[size - 1]);
            } else {
                lemma_filter_empty(rest, keep);
                assert(selected =~= kept);
            }
        }
        if !more {
            next_cursor = None;
        }
        (records, next_cursor)
    }

    /// Replaces the memories of the namespace of the store by those of a snapshot.
    pub fn sync_local(
        &self,
        database: &mut Database,
        memories: &[MemoryRecord],
        now_ms: i64,
    ) -> (report: Result<SyncReport, MemoryError>)
        requires
            old(database).wf(),
        ensures
            final(database).wf(),
            match report {
                Ok(report) => sync_outcome(
                    old(database)@,
                    self.owner(),
                    self.bounds(),
                    record_views(memories@),
                    now_ms as int,
                ) == Ok::<StoreView, MemoryError>(final(database)@) && reports(
                    report,
                    unexpired(old(database)@.rows, now_ms as int),
                    self.owner(),
                    record_views(memories@),
                ),
                Err(error) => sync_outcome(
                    old(database)@,
                    self.owner(),
                    self.bounds(),
                    record_views(memories@),
                    now_ms as int,
                ) == Err::<StoreView, MemoryError>(error) && final(database)@ == old(database)@,
            },
    {
        if let Err(error) = self.check_snapshot(memories) {
            return Err(error);
        }
        let namespace = self.namespace.as_str();
        let ghost snapshot = record_views(memories@);
        let ghost limits = self.limits;
        let mut previous = database.clone();
        previous.prune_expired(now_ms);
        let mut after = previous.clone();
        after.ensure_namespace(namespace);
        after.delete_namespace(namespace);
        let ghost outside = after@.rows;
        let ghost known_ids = after@.next_ids;
        let deleted: usize = count_deleted(&previous, namespace, memories);
        let mut report = SyncReport { inserted: 0, replaced: 0, unchanged: 0, deleted };
        let mut i: usize = 0;
        proof {
            previous.lemma_wf();
            lemma_filter_members(
                previous@.rows,
                |row: RowView| row.namespace != namespace@,
            );
            assert(snapshot.take(0) =~= Seq::<RecordView>::empty());
            assert(known_ids.insert(namespace@, known_ids[namespace@]) =~= known_ids);
        }
        while i < memories.len()
            invariant
                i <= memories@.len(),
                namespace@ == self.owner(),
                snapshot == record_views(memories@),
                snapshot_fault(snapshot, limits) is None,
                limits == self.bounds(),
                *database == *old(database),
                database.wf(),
                previous.wf(),
                after.wf(),
                known_ids.dom().contains(namespace@),
                after@.rows == insert_snapshot(outside, namespace@, snapshot.take(i as int)),
                after@.next_ids == known_ids.insert(
                    namespace@,
                    raised(known_ids[namespace@], snapshot.take(i as int)),
                ),
                forall|k: int|
                    0 <= k < after@.rows.len() && (#[trigger] after@.rows[k]).namespace
                        == namespace@ ==> exists|j: int|
                        0 <= j < i && after@.rows[k] == snapshot_row(
                            namespace@,
                            #[trigger] snapshot[j],
                        ),
                forall|j: int| 0 <= j < i ==> (#[trigger] snapshot[j]).key.id < i64::MAX,
                report.deleted == deleted,
                report.inserted + report.replaced + report.unchanged == i,
                report.inserted == change_count(
                    previous@.rows,
                    namespace@,
                    snapshot.take(i as int),
                    Change::Inserted,
                ),
                report.replaced == change_count(
                    previous@.rows,
                    namespace@,
                    snapshot.take(i as int),
                    Change::Replaced,
                ),
                report.unchanged == change_count(
                    previous@.rows,
                    namespace@,
                    snapshot.take(i as int),
                    Change::Unchanged,
                ),
            decreases memories@.len() - i,
        {
            let memory = &memories[i];
            let ghost earlier = snapshot.take(i as int);
            let ghost before = after@.rows;
            let ghost added = snapshot_row(namespace@, memory@);
            proof {
                assert(memory@ == snapshot[i as int]);
                assert(snapshot.take(i + 1).drop_last() =~= earlier);
                assert(snapshot.take(i + 1).last() == memory@);
                lemma_no_fault(snapshot, limits, i as int);
                after.lemma_wf();
                assert(!holds(before, namespace@, memory@.key.id)) by {
                    if holds(before, namespace@, memory@.key.id) {
                        let k = lemma_lookup_index(before, namespace@, memory@.key.id);
                        let j = choose|j: int|
                            0 <= j < i && before[k] == snapshot_row(
                                namespace@,
                                #[trigger] snapshot[j],
                            );
                        assert(earlier[j] == snapshot[j]);
                        assert(snapshot_has(earlier, memory@.key.id));
                    }
                }
                assert(!identity_taken(before, namespace@, added.identity, None)) by {
                    if identity_taken(before, namespace@, added.identity, None) {
                        let k = choose|k: int|
                            0 <= k < before.len() && (#[trigger] before[k]).namespace == namespace@
                                && before[k].identity == added.identity;
                        let j = choose|j: int|
                            0 <= j < i && before[k] == snapshot_row(
                                namespace@,
                                #[trigger] snapshot[j],
                            );
                        assert(earlier[j] == snapshot[j]);
                        assert(identity_in(earlier, added.identity));
                    }
                }
            }
            match change(&previous, namespace, memory) {
                Change::Inserted => {
                    report.inserted = report.inserted + 1;
                },
                Change::Replaced => {
                    report.replaced = report.replaced + 1;
                },
                Change::Unchanged => {
                    report.unchanged = report.unchanged + 1;
                },
            }
            after.insert_memory(
                StoredMemory {
                    namespace: namespace.to_string(),
                    id: memory.key.id,
                    version: memory.key.version,
                    content: memory.content.clone(),
                    identity: normalize_identity(memory.content.as_str()),
                    created_at_ms: memory.created_at_ms,
                    updated_at_ms: memory.updated_at_ms,
                    last_scanned_at_ms: memory.last_scanned_at_ms,
                    scan_count: memory.scan_count,
                    last_used_at_ms: memory.last_used_at_ms,
                    use_count: memory.use_count,
                    probation_until_ms: memory.probation_until_ms,
                },
            );
            proof {
                let rows = after@.rows;
                lemma_insert_sorted(before, added);
                let place = rank(before, added);
                assert forall|k: int|
                    0 <= k < rows.len() && (#[trigger] rows[k]).namespace
                        == namespace@ implies exists|j: int|
                    0 <= j < i + 1 && rows[k] == snapshot_row(
                        namespace@,
                        #[trigger] snapshot[j],
                    ) by {
                    if k == place {
                        assert(rows[k] == snapshot_row(namespace@, snapshot[i as int]));
                    } else {
                        let old_k = if k < place { k } else { k - 1 };
                        assert(before[old_k] == rows[k]);
                        let j = choose|j: int|
                            0 <= j < i && before[old_k] == snapshot_row(
                                namespace@,
                                #[trigger] snapshot[j],
                            );
                        assert(rows[k] == snapshot_row(namespace@, snapshot[j]));
                    }
                }
            }
            if let Err(error) = after.observe_id(namespace, memory.key.id) {
                proof {
                    assert(snapshot[i as int].key.id == i64::MAX);
                }
                return Err(error);
            }
            proof {
                let start = known_ids[namespace@];
                assert(after@.next_ids =~= known_ids.insert(
                    namespace@,
                    raised(start, snapshot.take(i + 1)),
                ));
            }
            i += 1;
        }
        proof {
            assert(snapshot.take(i as int) =~= snapshot);
        }
        *database = after;
        Ok(report)
    }
}

/// Accepts a snapshot whose records can be stored, are apart, and stay within the limits.
pub fn validate_snapshot(memories: &[MemoryRecord], limits: &MemoryLimits) -> (valid: Result<
    (),
    MemoryError,
>)
    ensures
        match valid {
            Ok(()) => snapshot_fault(record_views(memories@), *limits) is None,
            Err(error) => snapshot_fault(record_views(memories@), *limits) == Some(error),
        },
{
    let ghost snapshot = record_views(memories@);
    if memories.len() > limits.records {
        return Err(MemoryError::RecordCapacity { maximum: limits.records });
    }
    let largest: u64 = i64::MAX as u64;
    let mut identities: Vec<String> = Vec::new();
    let mut bytes: usize = 0;
    let mut i: usize = 0;
    assert(snapshot.take(0) =~= Seq::<RecordView>::empty());
    while i < memories.len()
        invariant
            snapshot == record_views(memories@),
            memories@.len() <= limits.records,
            largest == i64::MAX,
            i <= memories@.len(),
            identities@.len() == i,
            forall|j: int|
                0 <= j < i ==> (#[trigger] identities@[j])@ == identity_of(snapshot[j].content),
            bytes == snapshot_bytes(snapshot.take(i as int)),
            first_fault(snapshot.take(i as int), *limits) is None,
        decreases memories@.len() - i,
    {
        let memory = &memories[i];
        let ghost earlier = snapshot.take(i as int);
        proof {
            assert(memory@ == snapshot[i as int]);
            assert(snapshot.take(i + 1).drop_last() =~= earlier);
            assert(snapshot.take(i + 1).last() == memory@);
            if first_fault(snapshot.take(i + 1), *limits) is Some {
                lemma_fault_stays(snapshot, *limits, i + 1);
            }
        }
        if !memory.key.is_local() || memory.key.id <= 0 || memory.key.version == 0
            || memory.key.version > largest || memory.scan_count > largest || memory.use_count
            > largest || memory.created_at_ms < 0 || memory.updated_at_ms < memory.created_at_ms {
            return Err(MemoryError::Conflict);
        }
        let mut j: usize = 0;
        while j < i
            invariant
                snapshot == record_views(memories@),
                memories@.len() <= limits.records,
                earlier == snapshot.take(i as int),
                i < memories@.len(),
                j <= i,
                memory@ == snapshot[i as int],
                first_fault(snapshot.take(i as int), *limits) is None,
                snapshot.take(i + 1).drop_last() == earlier,
                snapshot.take(i + 1).last() == memory@,
                first_fault(snapshot.take(i + 1), *limits) is Some ==> first_fault(
                    snapshot,
                    *limits,
                ) == first_fault(snapshot.take(i + 1), *limits),
                forall|k: int| 0 <= k < j ==> (#[trigger] earlier[k]).key.id != memory@.key.id,
            decreases i - j,
        {
            if memories[j].key.id == memory.key.id {
                assert(earlier[j as int] == memories@[j as int]@);
                assert(snapshot_has(earlier, memory@.key.id));
                return Err(MemoryError::Conflict);
            }
            assert(earlier[j as int] == memories@[j as int]@);
            j += 1;
        }
        assert(!snapshot_has(earlier, memory@.key.id));
        if let Err(error) = validate_content(memory.content.as_str(), limits) {
            return Err(error);
        }
        let identity = normalize_identity(memory.content.as_str());
        let mut k: usize = 0;
        while k < i
            invariant
                snapshot == record_views(memories@),
                memories@.len() <= limits.records,
                earlier == snapshot.take(i as int),
                i < memories@.len(),
                k <= i,
                identities@.len() == i,
                forall|j: int|
                    0 <= j < i ==> (#[trigger] identities@[j])@ == identity_of(snapshot[j].content),
                memory@ == snapshot[i as int],
                identity@ == identity_of(memory@.content),
                content_fault(memory@.content, *limits) is None,
                well_shaped(memory@),
                !snapshot_has(earlier, memory@.key.id),
                first_fault(earlier, *limits) is None,
                snapshot.take(i + 1).drop_last() == earlier,
                snapshot.take(i + 1).last() == memory@,
                first_fault(snapshot.take(i + 1), *limits) is Some ==> first_fault(
                    snapshot,
                    *limits,
                ) == first_fault(snapshot.take(i + 1), *limits),
                forall|j: int|
                    0 <= j < k ==> identity_of((#[trigger] earlier[j]).content) != identity@,
            decreases i - k,
        {
            assert(earlier[k as int] == snapshot[k as int]);
            if same_text(identities[k].as_str(), identity.as_str()) {
                assert(identity_in(earlier, identity@));
                return Err(MemoryError::Duplicate);
            }
            k += 1;
        }
        assert(!identity_in(earlier, identity@));
        let more: usize = byte_len(memory.content.as_str());
        bytes = match bytes.checked_add(more) {
            Some(sum) => sum,
            None => {
                return Err(
                    MemoryError::ContentCapacity { maximum_bytes: limits.total_content_bytes },
                );
            },
        };
        identities.push(identity);
        i += 1;
    }
    assert(snapshot.take(i as int) =~= snapshot);
    if bytes > limits.total_content_bytes {
        return Err(MemoryError::ContentCapacity { maximum_bytes: limits.total_content_bytes });
    }
    Ok(())
}

/// What a snapshot of `namespace` does to one memory that it holds.
fn change(database: &Database, namespace: &str, memory: &MemoryRecord) -> (change: Change)
    requires
        database.wf(),
    ensures
        change == change_of(database@.rows, namespace@, memory@),
{
    match database.load_one(namespace, memory.key.id) {
        None => Change::Inserted,
        Some(row) => {
            proof {
                let place = lemma_lookup_index(database@.rows, namespace@, memory@.key.id);
                assert(row@.namespace == namespace@ && row@.id == memory@.key.id);
            }
            if row.version == memory.key.version && row.created_at_ms == memory.created_at_ms
                && row.updated_at_ms == memory.updated_at_ms && same_moment(
                row.last_scanned_at_ms,
                memory.last_scanned_at_ms,
            ) && row.scan_count == memory.scan_count && same_moment(
                row.last_used_at_ms,
                memory.last_used_at_ms,
            ) && row.use_count == memory.use_count && same_moment(
                row.probation_until_ms,
                memory.probation_until_ms,
            ) && same_text(row.content.as_str(), memory.content.as_str()) {
                Change::Unchanged
            } else {
                Change::Replaced
            }
        },
    }
}

/// Number of the memories of `namespace` that a snapshot does not hold.
fn count_deleted(database: &Database, namespace: &str, memories: &[MemoryRecord]) -> (count: usize)
    ensures
        count == deleted_rows(database@.rows, namespace@, record_views(memories@)).len(),
{
    let ghost snapshot = record_views(memories@);
    let ghost rows = rows_in(database@.rows, namespace@);
    let ghost gone = |row: RowView| !snapshot_has(snapshot, row.id);
    let previous = database.load_namespace(namespace);
    let mut count: usize = 0;
    let mut i: usize = 0;
    proof {
        assert(record_views(previous@).len() == records_of(rows).len());
        lemma_filter_empty(rows.take(0), gone);
    }
    while i < previous.len()
        invariant
            snapshot == record_views(memories@),
            gone == (|row: RowView| !snapshot_has(snapshot, row.id)),
            record_views(previous@) == records_of(rows),
            rows.len() == previous@.len(),
            i <= previous@.len(),
            count <= i,
            count == rows.take(i as int).filter(gone).len(),
        decreases previous@.len() - i,
    {
        let id: i64 = previous[i].key.id;
        proof {
            assert(record_views(previous@)[i as int] == previous@[i as int]@);
            assert(records_of(rows)[i as int] == record_of(rows[i as int]));
            assert(rows[i as int].id == id);
            lemma_filter_step(rows, gone, i as int);
        }
        if !has_id(memories, id) {
            count += 1;
        }
        i += 1;
    }
    assert(rows.take(i as int) =~= rows);
    count
}

/// Whether a snapshot holds the identifier `id`.
fn has_id(memories: &[MemoryRecord], id: i64) -> (found: bool)
    ensures
        found == snapshot_has(record_views(memories@), id as int),
{
    let mut i: usize = 0;
    while i < memories.len()
        invariant
            i <= memories@.len(),
            forall|j: int|
                0 <= j < i ==> (#[trigger] record_views(memories@)[j]).key.id != id,
        decreases memories@.len() - i,
    {
        assert(record_views(memories@)[i as int] == memories@[i as int]@);
        if memories[i].key.id == id {
            return true;
        }
        i += 1;
    }
    false
}

/// The memories that a scan ranks, and the number of results that it keeps.
#[derive(Debug)]
pub struct Scan {
    pub memories: Vec<MemoryRecord>,
    pub limit: usize,
}

/// A memory that a read asks for, at one version or at any.
struct Reference {
    namespace: String,
    id: i64,
    version: Option<u64>,
}

impl View for Reference {
    type V = ReferenceView;

    closed spec fn view(&self) -> ReferenceView {
        ReferenceView {
            namespace: self.namespace@,
            id: self.id as int,
            version: match self.version {
                Some(version) => Some(version as int),
                None => None,
            },
        }
    }
}

spec fn reference_views(list: Seq<Reference>) -> Seq<ReferenceView> {
    list.map_values(|reference: Reference| reference@)
}

/// Whether `list` holds a reference to the memory `id` of `namespace`.
fn has_reference(list: &Vec<Reference>, namespace: &str, id: i64) -> (found: bool)
    ensures
        found == referenced(reference_views(list@), namespace@, id as int),
{
    let mut i: usize = 0;
    while i < list.len()
        invariant
            i <= list@.len(),
            forall|j: int|
                0 <= j < i ==> !((#[trigger] reference_views(list@)[j]).namespace == namespace@
                    && reference_views(list@)[j].id == id),
        decreases list@.len() - i,
    {
        let reference = &list[i];
        assert(reference@ == reference_views(list@)[i as int]);
        if reference.id == id && same_text(reference.namespace.as_str(), namespace) {
            return true;
        }
        i += 1;
    }
    false
}

/// The namespaces that an export asks for.
pub open spec fn selection(namespaces: Option<&[String]>) -> Option<Seq<Seq<char>>> {
    match namespaces {
        Some(selected) => Some(texts(selected@)),
        None => None,
    }
}

/// The key after which an export page starts.
pub open spec fn position_after(cursor: Option<&ExportCursor>) -> Option<CursorView> {
    match cursor {
        Some(cursor) => Some(cursor@),
        None => None,
    }
}

/// Whether an export asks for `namespace`.
fn selects(namespaces: Option<&[String]>, namespace: &str) -> (r: bool)
    ensures
        r == match selection(namespaces) {
            Some(selected) => selected.contains(namespace@),
            None => true,
        },
{
    match namespaces {
        None => true,
        Some(selected) => {
            let mut i: usize = 0;
            while i < selected.len()
                invariant
                    selection(namespaces) == Some(texts(selected@)),
                    i <= selected@.len(),
                    forall|j: int| 0 <= j < i ==> #[trigger] texts(selected@)[j] != namespace@,
                decreases selected@.len() - i,
            {
                assert(texts(selected@)[i as int] == selected@[i as int]@);
                if same_text(selected[i].as_str(), namespace) {
                    return true;
                }
                i += 1;
            }
            false
        },
    }
}

/// Whether `row` comes after the cursor.
fn follows(cursor: Option<&ExportCursor>, row: &StoredMemory) -> (r: bool)
    ensures
        r == match position_after(cursor) {
            Some(cursor) => key_before(cursor.namespace, cursor.id, row@.namespace, row@.id),
            None => true,
        },
{
    match cursor {
        None => true,
        Some(cursor) => match row.placed(cursor.namespace.as_str(), cursor.id) {
            Place::After => true,
            _ => false,
        },
    }
}

/// Pruning twice at one time is pruning once.
pub proof fn lemma_unexpired_twice(rows: Seq<RowView>, now: int)
    ensures
        unexpired(unexpired(rows, now), now) == unexpired(rows, now),
{
    let keep = |row: RowView| !expired(row, now);
    lemma_filter_members(rows, keep);
    lemma_filter_all(rows.filter(keep), keep);
}

} // verus!
