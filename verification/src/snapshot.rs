//! What reconciling a namespace with a snapshot means.

use vstd::prelude::*;

use crate::mutations::{content_fault, pruned};
use crate::protocol::{KeyView, MemoryError, MemoryLimits, RecordView, SyncReport};
use crate::rows::{insert_row, lookup, record_of, rows_in, rows_outside, RowView, StoreView};
use crate::table::{larger, with_namespace};
use crate::text::{identity_of, utf8_len};

verus! {

/// Whether one record of a snapshot can be stored: it has a local key, and its numbers and times
/// are in range.
pub open spec fn well_shaped(memory: RecordView) -> bool {
    &&& memory.key.namespace is None
    &&& memory.key.id > 0
    &&& 0 < memory.key.version <= i64::MAX
    &&& memory.scan_count <= i64::MAX
    &&& memory.use_count <= i64::MAX
    &&& 0 <= memory.created_at_ms <= memory.updated_at_ms
}

/// Whether one of `memories` has the identifier `id`.
pub open spec fn snapshot_has(memories: Seq<RecordView>, id: int) -> bool {
    exists|i: int| 0 <= i < memories.len() && (#[trigger] memories[i]).key.id == id
}

/// Whether one of `memories` has `identity`.
pub open spec fn identity_in(memories: Seq<RecordView>, identity: Seq<char>) -> bool {
    exists|i: int|
        0 <= i < memories.len() && identity_of((#[trigger] memories[i]).content) == identity
}

/// Bytes of all the contents of `memories`.
pub open spec fn snapshot_bytes(memories: Seq<RecordView>) -> int
    decreases memories.len(),
{
    if memories.len() == 0 {
        0
    } else {
        snapshot_bytes(memories.drop_last()) + utf8_len(memories.last().content)
    }
}

/// What is wrong with one record of a snapshot that follows `earlier` ones, if anything.
pub open spec fn record_fault(
    earlier: Seq<RecordView>,
    memory: RecordView,
    limits: MemoryLimits,
) -> Option<MemoryError> {
    if !well_shaped(memory) || snapshot_has(earlier, memory.key.id) {
        Some(MemoryError::Conflict)
    } else if content_fault(memory.content, limits) is Some {
        content_fault(memory.content, limits)
    } else if identity_in(earlier, identity_of(memory.content)) {
        Some(MemoryError::Duplicate)
    } else if snapshot_bytes(earlier) + utf8_len(memory.content) > usize::MAX {
        Some(MemoryError::ContentCapacity { maximum_bytes: limits.total_content_bytes })
    } else {
        None
    }
}

/// What is wrong with the first bad record of a snapshot, if there is one.
pub open spec fn first_fault(memories: Seq<RecordView>, limits: MemoryLimits) -> Option<MemoryError>
    decreases memories.len(),
{
    if memories.len() == 0 {
        None
    } else if first_fault(memories.drop_last(), limits) is Some {
        first_fault(memories.drop_last(), limits)
    } else {
        record_fault(memories.drop_last(), memories.last(), limits)
    }
}

/// What is wrong with a snapshot, if anything: too many records, a bad record, or too many bytes.
pub open spec fn snapshot_fault(
    memories: Seq<RecordView>,
    limits: MemoryLimits,
) -> Option<MemoryError> {
    if memories.len() > limits.records {
        Some(MemoryError::RecordCapacity { maximum: limits.records })
    } else if first_fault(memories, limits) is Some {
        first_fault(memories, limits)
    } else if snapshot_bytes(memories) > limits.total_content_bytes {
        Some(MemoryError::ContentCapacity { maximum_bytes: limits.total_content_bytes })
    } else {
        None
    }
}

/// The row that stores one record of a snapshot of `namespace`.
pub open spec fn snapshot_row(namespace: Seq<char>, memory: RecordView) -> RowView {
    RowView {
        namespace,
        id: memory.key.id,
        version: memory.key.version,
        content: memory.content,
        identity: identity_of(memory.content),
        created_at_ms: memory.created_at_ms,
        updated_at_ms: memory.updated_at_ms,
        last_scanned_at_ms: memory.last_scanned_at_ms,
        scan_count: memory.scan_count,
        last_used_at_ms: memory.last_used_at_ms,
        use_count: memory.use_count,
        probation_until_ms: memory.probation_until_ms,
    }
}

/// `rows` with the records of a snapshot of `namespace` added.
pub open spec fn insert_snapshot(
    rows: Seq<RowView>,
    namespace: Seq<char>,
    memories: Seq<RecordView>,
) -> Seq<RowView>
    decreases memories.len(),
{
    if memories.len() == 0 {
        rows
    } else {
        insert_row(
            insert_snapshot(rows, namespace, memories.drop_last()),
            snapshot_row(namespace, memories.last()),
        )
    }
}

/// `next_id` raised above every identifier of a snapshot.
pub open spec fn raised(next_id: int, memories: Seq<RecordView>) -> int
    decreases memories.len(),
{
    if memories.len() == 0 {
        next_id
    } else {
        larger(raised(next_id, memories.drop_last()), memories.last().key.id + 1)
    }
}

/// What a snapshot does to one memory that it holds.
#[derive(Clone, Copy, Debug, PartialEq, Eq, Structural)]
pub enum Change {
    Inserted,
    Replaced,
    Unchanged,
}

/// What a snapshot of `namespace` does to one memory that it holds.
pub open spec fn change_of(rows: Seq<RowView>, namespace: Seq<char>, memory: RecordView) -> Change {
    match lookup(rows, namespace, memory.key.id) {
        None => Change::Inserted,
        Some(row) => if record_of(row) == (RecordView {
            key: KeyView { namespace: Some(namespace), ..memory.key },
            ..memory
        }) {
            Change::Unchanged
        } else {
            Change::Replaced
        },
    }
}

/// Number of the records of a snapshot to which `change` happens.
pub open spec fn change_count(
    rows: Seq<RowView>,
    namespace: Seq<char>,
    memories: Seq<RecordView>,
    change: Change,
) -> int
    decreases memories.len(),
{
    if memories.len() == 0 {
        0
    } else {
        change_count(rows, namespace, memories.drop_last(), change) + if change_of(
            rows,
            namespace,
            memories.last(),
        ) == change {
            1int
        } else {
            0int
        }
    }
}

/// The memories of `namespace` that a snapshot does not hold.
pub open spec fn deleted_rows(
    rows: Seq<RowView>,
    namespace: Seq<char>,
    memories: Seq<RecordView>,
) -> Seq<RowView> {
    rows_in(rows, namespace).filter(|row: RowView| !snapshot_has(memories, row.id))
}

/// Whether `report` tells what a snapshot of `namespace` does to `rows`.
pub open spec fn reports(
    report: SyncReport,
    rows: Seq<RowView>,
    namespace: Seq<char>,
    memories: Seq<RecordView>,
) -> bool {
    &&& report.inserted == change_count(rows, namespace, memories, Change::Inserted)
    &&& report.replaced == change_count(rows, namespace, memories, Change::Replaced)
    &&& report.unchanged == change_count(rows, namespace, memories, Change::Unchanged)
    &&& report.deleted == deleted_rows(rows, namespace, memories).len()
}

/// `state` with the memories of `namespace` replaced by those of a snapshot.
pub open spec fn reconciled(
    state: StoreView,
    namespace: Seq<char>,
    memories: Seq<RecordView>,
) -> StoreView {
    let next_ids = with_namespace(state.next_ids, namespace);
    StoreView {
        rows: insert_snapshot(rows_outside(state.rows, namespace), namespace, memories),
        next_ids: next_ids.insert(namespace, raised(next_ids[namespace], memories)),
    }
}

/// What reconciling `namespace` with a snapshot gives: the database, or a failure. No memory can
/// have the largest identifier, since no unused one would be left above it.
pub open spec fn sync_outcome(
    state: StoreView,
    namespace: Seq<char>,
    limits: MemoryLimits,
    memories: Seq<RecordView>,
    now: int,
) -> Result<StoreView, MemoryError> {
    if snapshot_fault(memories, limits) is Some {
        Err(snapshot_fault(memories, limits)->0)
    } else if snapshot_has(memories, i64::MAX as int) {
        Err(MemoryError::StorageCapacity)
    } else {
        Ok(reconciled(pruned(state, now), namespace, memories))
    }
}

/// A snapshot without a bad record has none among its first records either, and each record
/// differs from the earlier ones.
pub proof fn lemma_no_fault(memories: Seq<RecordView>, limits: MemoryLimits, n: int)
    requires
        first_fault(memories, limits) is None,
        0 <= n <= memories.len(),
    ensures
        first_fault(memories.take(n), limits) is None,
        n < memories.len() ==> record_fault(memories.take(n), memories[n], limits) is None,
    decreases memories.len(),
{
    if n == memories.len() {
        assert(memories.take(n) =~= memories);
    } else if n == memories.len() - 1 {
        assert(memories.take(n) =~= memories.drop_last());
    } else {
        lemma_no_fault(memories.drop_last(), limits, n);
        assert(memories.drop_last().take(n) =~= memories.take(n));
        assert(memories.drop_last()[n] == memories[n]);
    }
}

/// A bad record among the first ones is the first bad record of the snapshot.
pub proof fn lemma_fault_stays(memories: Seq<RecordView>, limits: MemoryLimits, n: int)
    requires
        0 <= n <= memories.len(),
        first_fault(memories.take(n), limits) is Some,
    ensures
        first_fault(memories, limits) == first_fault(memories.take(n), limits),
    decreases memories.len(),
{
    if n == memories.len() {
        assert(memories.take(n) =~= memories);
    } else {
        assert(memories.drop_last().take(n) =~= memories.take(n));
        lemma_fault_stays(memories.drop_last(), limits, n);
    }
}

} // verus!
