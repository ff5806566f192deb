//! Laws of a single sync: which snapshots are accepted, what is stored, and what is reported.

use vstd::prelude::*;
use vstd::utf8::encode_utf8;

use crate::laws::law_pruning;
use crate::mutation_laws::{lemma_bytes_push, lemma_unexpired_members};
use crate::mutations::pruned;
use crate::protocol::{MemoryError, MemoryLimits, RecordView, SyncReport};
use crate::rows::{
    expired, lemma_filter_push, lemma_lookup, lemma_lookup_index, lookup, unexpired, valid_state,
    RowView, StoreView,
};
use crate::snapshot::{
    change_count, change_of, deleted_rows, first_fault, identity_in, lemma_fault_stays,
    lemma_no_fault, raised, record_fault, reports, snapshot_bytes, snapshot_has, snapshot_row,
    sync_outcome, Change,
};
use crate::sync_laws::{law_sync_reconciles, lemma_raised, representable};
use crate::table::with_namespace;
use crate::terms::{bytes_of, visible};
use crate::text::{identity_of, is_space};

verus! {

/// The contents of `memories`.
pub open spec fn texts_of(memories: Seq<RecordView>) -> Seq<Seq<char>> {
    memories.map_values(|memory: RecordView| memory.content)
}

/// Whether one record can be stored whatever else the snapshot holds: its key is local, its numbers
/// and times are in range, and its content is neither blank nor too large. When it was scanned or
/// read, and whether it is on probation, does not matter.
pub open spec fn storable(memory: RecordView, limits: MemoryLimits) -> bool {
    &&& memory.key.namespace is None
    &&& 1 <= memory.key.id
    &&& 1 <= memory.key.version <= i64::MAX
    &&& memory.scan_count <= i64::MAX
    &&& memory.use_count <= i64::MAX
    &&& 0 <= memory.created_at_ms
    &&& memory.created_at_ms <= memory.updated_at_ms
    &&& exists|i: int| 0 <= i < memory.content.len() && !is_space(#[trigger] memory.content[i])
    &&& encode_utf8(memory.content).len() <= limits.content_bytes
}

/// Whether two records can stand in one snapshot: their identifiers and their identities differ.
pub open spec fn apart(left: RecordView, right: RecordView) -> bool {
    left.key.id != right.key.id && identity_of(left.content) != identity_of(right.content)
}

pub proof fn lemma_snapshot_bytes(memories: Seq<RecordView>)
    ensures
        snapshot_bytes(memories) == bytes_of(texts_of(memories)),
    decreases memories.len(),
{
    if memories.len() > 0 {
        let earlier = memories.drop_last();
        lemma_snapshot_bytes(earlier);
        assert(texts_of(memories) =~= texts_of(earlier).push(memories.last().content));
        lemma_bytes_push(texts_of(earlier), memories.last().content);
    } else {
        assert(texts_of(memories) =~= Seq::empty());
    }
}

/// Fewer records have no more bytes.
proof fn lemma_fewer_bytes(memories: Seq<RecordView>, n: int)
    requires
        0 <= n <= memories.len(),
    ensures
        0 <= snapshot_bytes(memories.take(n)) <= snapshot_bytes(memories),
    decreases memories.len(),
{
    if n == memories.len() {
        assert(memories.take(n) =~= memories);
        if n > 0 {
            assert(memories.drop_last().take(n - 1) =~= memories.drop_last());
            lemma_fewer_bytes(memories.drop_last(), n - 1);
        }
    } else {
        assert(memories.drop_last().take(n) =~= memories.take(n));
        lemma_fewer_bytes(memories.drop_last(), n);
    }
}

/// The first bad record of a snapshot of few enough bytes: there is none where each record can be
/// stored and any two are apart.
proof fn lemma_faultless(memories: Seq<RecordView>, limits: MemoryLimits)
    requires
        forall|i: int| 0 <= i < memories.len() ==> storable(#[trigger] memories[i], limits),
        forall|i: int, j: int|
            0 <= i < j < memories.len() ==> apart(#[trigger] memories[i], #[trigger] memories[j]),
        snapshot_bytes(memories) <= usize::MAX,
    ensures
        first_fault(memories, limits) is None,
    decreases memories.len(),
{
    if memories.len() > 0 {
        let earlier = memories.drop_last();
        let memory = memories.last();
        assert(memory == memories[memories.len() - 1]);
        assert forall|i: int| 0 <= i < earlier.len() implies storable(
            #[trigger] earlier[i],
            limits,
        ) by {
            assert(earlier[i] == memories[i]);
        }
        assert forall|i: int, j: int| 0 <= i < j < earlier.len() implies apart(
            #[trigger] earlier[i],
            #[trigger] earlier[j],
        ) by {
            assert(apart(memories[i], memories[j]));
        }
        lemma_fewer_bytes(memories, memories.len() - 1);
        assert(memories.take(memories.len() - 1) =~= earlier);
        lemma_faultless(earlier, limits);
        assert(storable(memories[memories.len() - 1], limits));
        assert forall|i: int| 0 <= i < earlier.len() implies apart(
            #[trigger] earlier[i],
            memory,
        ) by {
            assert(apart(memories[i], memories[memories.len() - 1]));
        }
    }
}

/// A record without a fault can be stored and is apart from the earlier ones.
proof fn lemma_no_record_fault(
    memories: Seq<RecordView>,
    limits: MemoryLimits,
    i: int,
    j: int,
)
    requires
        first_fault(memories, limits) is None,
        0 <= i < j < memories.len(),
    ensures
        storable(memories[i], limits),
        storable(memories[j], limits),
        apart(memories[i], memories[j]),
{
    lemma_no_fault(memories, limits, i);
    lemma_no_fault(memories, limits, j);
    let earlier = memories.take(j);
    assert(earlier[i] == memories[i]);
    assert(!snapshot_has(earlier, memories[j].key.id));
    assert(!identity_in(earlier, identity_of(memories[j].content)));
}

/// A sync succeeds exactly where the snapshot has few enough records and bytes, each record can be
/// stored, any two are apart, and no identifier is the largest; whatever the database holds.
pub proof fn law_sync_succeeds(
    state: StoreView,
    namespace: Seq<char>,
    limits: MemoryLimits,
    memories: Seq<RecordView>,
    now: int,
)
    requires
        representable(memories),
    ensures
        sync_outcome(state, namespace, limits, memories, now) is Ok <==> {
            &&& memories.len() <= limits.records
            &&& forall|i: int| 0 <= i < memories.len() ==> storable(#[trigger] memories[i], limits)
            &&& forall|i: int, j: int|
                0 <= i < j < memories.len() ==> apart(
                    #[trigger] memories[i],
                    #[trigger] memories[j],
                )
            &&& bytes_of(texts_of(memories)) <= limits.total_content_bytes
            &&& forall|i: int|
                0 <= i < memories.len() ==> (#[trigger] memories[i]).key.id < i64::MAX
        },
{
    lemma_snapshot_bytes(memories);
    let fine = {
        &&& memories.len() <= limits.records
        &&& forall|i: int| 0 <= i < memories.len() ==> storable(#[trigger] memories[i], limits)
        &&& forall|i: int, j: int|
            0 <= i < j < memories.len() ==> apart(#[trigger] memories[i], #[trigger] memories[j])
        &&& bytes_of(texts_of(memories)) <= limits.total_content_bytes
        &&& forall|i: int| 0 <= i < memories.len() ==> (#[trigger] memories[i]).key.id < i64::MAX
    };
    if fine {
        lemma_faultless(memories, limits);
        if snapshot_has(memories, i64::MAX as int) {
            let i = choose|i: int|
                0 <= i < memories.len() && (#[trigger] memories[i]).key.id == i64::MAX;
            assert(memories[i].key.id < i64::MAX);
        }
    }
    if sync_outcome(state, namespace, limits, memories, now) is Ok {
        assert forall|i: int| 0 <= i < memories.len() implies storable(
            #[trigger] memories[i],
            limits,
        ) by {
            lemma_no_fault(memories, limits, i);
        }
        assert forall|i: int, j: int| 0 <= i < j < memories.len() implies apart(
            #[trigger] memories[i],
            #[trigger] memories[j],
        ) by {
            lemma_no_record_fault(memories, limits, i, j);
        }
        assert forall|i: int| 0 <= i < memories.len() implies (#[trigger] memories[i]).key.id
            < i64::MAX by {
            if memories[i].key.id >= i64::MAX {
                assert(snapshot_has(memories, i64::MAX as int));
            }
        }
    }
}

/// Why a sync is refused: too many records; or, of the first record that is at fault, that its
/// shape is wrong or its identifier occurred before, that its content is blank, that it is too
/// large, or that its identity occurred before; or too many bytes; or the largest identifier.
pub proof fn law_sync_refuses(
    state: StoreView,
    namespace: Seq<char>,
    limits: MemoryLimits,
    memories: Seq<RecordView>,
    now: int,
    n: int,
)
    requires
        representable(memories),
        0 <= n < memories.len(),
        forall|i: int| 0 <= i < n ==> storable(#[trigger] memories[i], limits),
        forall|i: int, j: int|
            0 <= i < j < n ==> apart(#[trigger] memories[i], #[trigger] memories[j]),
        bytes_of(texts_of(memories)) <= usize::MAX,
    ensures
        memories.len() > limits.records ==> sync_outcome(state, namespace, limits, memories, now)
            == Err::<StoreView, MemoryError>(
            MemoryError::RecordCapacity { maximum: limits.records },
        ),
        memories.len() <= limits.records ==> {
            let outcome = sync_outcome(state, namespace, limits, memories, now);
            let memory = memories[n];
            let shaped = memory.key.namespace is None && memory.key.id >= 1 && 1
                <= memory.key.version <= i64::MAX && memory.scan_count <= i64::MAX
                && memory.use_count <= i64::MAX && 0 <= memory.created_at_ms
                && memory.created_at_ms <= memory.updated_at_ms && forall|i: int|
                0 <= i < n ==> (#[trigger] memories[i]).key.id != memory.key.id;
            let blank = forall|i: int|
                0 <= i < memory.content.len() ==> is_space(#[trigger] memory.content[i]);
            let large = encode_utf8(memory.content).len() > limits.content_bytes;
            let repeated = exists|i: int|
                0 <= i < n && identity_of((#[trigger] memories[i]).content) == identity_of(
                    memory.content,
                );
            &&& !shaped ==> outcome == Err::<StoreView, MemoryError>(MemoryError::Conflict)
            &&& shaped && blank ==> outcome == Err::<StoreView, MemoryError>(
                MemoryError::EmptyContent,
            )
            &&& shaped && !blank && large ==> outcome == Err::<StoreView, MemoryError>(
                MemoryError::ContentTooLarge { maximum_bytes: limits.content_bytes },
            )
            &&& shaped && !blank && !large && repeated ==> outcome == Err::<StoreView, MemoryError>(
                MemoryError::Duplicate,
            )
            &&& shaped && !blank && !large && !repeated && n == memories.len() - 1 && bytes_of(
                texts_of(memories),
            ) > limits.total_content_bytes ==> outcome == Err::<StoreView, MemoryError>(
                MemoryError::ContentCapacity { maximum_bytes: limits.total_content_bytes },
            )
            &&& shaped && !blank && !large && !repeated && n == memories.len() - 1 && bytes_of(
                texts_of(memories),
            ) <= limits.total_content_bytes && (exists|i: int|
                0 <= i < memories.len() && (#[trigger] memories[i]).key.id == i64::MAX) ==> outcome
                == Err::<StoreView, MemoryError>(MemoryError::StorageCapacity)
        },
{
    lemma_snapshot_bytes(memories);
    let earlier = memories.take(n);
    let memory = memories[n];
    lemma_fewer_bytes(memories, n);
    lemma_fewer_bytes(memories, n + 1);
    assert forall|i: int| 0 <= i < earlier.len() implies storable(
        #[trigger] earlier[i],
        limits,
    ) by {
        assert(earlier[i] == memories[i]);
    }
    assert forall|i: int, j: int| 0 <= i < j < earlier.len() implies apart(
        #[trigger] earlier[i],
        #[trigger] earlier[j],
    ) by {
        assert(apart(memories[i], memories[j]));
    }
    lemma_faultless(earlier, limits);
    let longer = memories.take(n + 1);
    assert(longer.drop_last() =~= earlier);
    assert(longer.last() == memory);
    assert(first_fault(longer, limits) == record_fault(earlier, memory, limits));
    if first_fault(longer, limits) is Some {
        lemma_fault_stays(memories, limits, n + 1);
    } else if n == memories.len() - 1 {
        assert(longer =~= memories);
    }
    assert(snapshot_bytes(longer) == snapshot_bytes(earlier) + encode_utf8(memory.content).len());
    assert(snapshot_has(earlier, memory.key.id) <==> exists|i: int|
        0 <= i < n && (#[trigger] memories[i]).key.id == memory.key.id) by {
        if snapshot_has(earlier, memory.key.id) {
            let i = choose|i: int|
                0 <= i < earlier.len() && (#[trigger] earlier[i]).key.id == memory.key.id;
            assert(memories[i].key.id == memory.key.id);
        }
        if exists|i: int| 0 <= i < n && (#[trigger] memories[i]).key.id == memory.key.id {
            let i = choose|i: int|
                0 <= i < n && (#[trigger] memories[i]).key.id == memory.key.id;
            assert(earlier[i].key.id == memory.key.id);
        }
    }
    let identity = identity_of(memory.content);
    assert(identity_in(earlier, identity) <==> exists|i: int|
        0 <= i < n && identity_of((#[trigger] memories[i]).content) == identity) by {
        if identity_in(earlier, identity) {
            let i = choose|i: int|
                0 <= i < earlier.len() && identity_of((#[trigger] earlier[i]).content) == identity;
            assert(identity_of(memories[i].content) == identity);
        }
        if exists|i: int| 0 <= i < n && identity_of((#[trigger] memories[i]).content) == identity {
            let i = choose|i: int|
                0 <= i < n && identity_of((#[trigger] memories[i]).content) == identity;
            assert(identity_of(earlier[i].content) == identity);
        }
    }
}

/// Whether `row` stores `memory` in `namespace`: every field of it as it is, telemetry and
/// probation included, and its identity.
pub open spec fn stores(row: RowView, namespace: Seq<char>, memory: RecordView) -> bool {
    &&& row.namespace == namespace
    &&& row.id == memory.key.id
    &&& row.version == memory.key.version
    &&& row.content == memory.content
    &&& row.identity == identity_of(memory.content)
    &&& row.created_at_ms == memory.created_at_ms
    &&& row.updated_at_ms == memory.updated_at_ms
    &&& row.last_scanned_at_ms == memory.last_scanned_at_ms
    &&& row.scan_count == memory.scan_count
    &&& row.last_used_at_ms == memory.last_used_at_ms
    &&& row.use_count == memory.use_count
    &&& row.probation_until_ms == memory.probation_until_ms
}

/// After a sync the namespace holds each record of the snapshot as it is, and nothing else; every
/// other namespace holds what could be seen in it. The namespace's smallest unused identifier is
/// the one it had, or 1, or the one after an identifier of the snapshot, whichever is largest.
pub proof fn law_sync_effect(
    state: StoreView,
    namespace: Seq<char>,
    limits: MemoryLimits,
    memories: Seq<RecordView>,
    now: int,
    after: StoreView,
    row: RowView,
)
    requires
        valid_state(state),
        representable(memories),
        sync_outcome(state, namespace, limits, memories, now) == Ok::<StoreView, MemoryError>(
            after,
        ),
    ensures
        row.namespace == namespace ==> (after.rows.contains(row) <==> exists|i: int|
            0 <= i < memories.len() && stores(row, namespace, #[trigger] memories[i])),
        row.namespace != namespace ==> (after.rows.contains(row) <==> state.rows.contains(row)
            && visible(row, now)),
        after.next_ids == state.next_ids.insert(namespace, after.next_ids[namespace]),
        after.next_ids[namespace] >= 1,
        state.next_ids.dom().contains(namespace) ==> after.next_ids[namespace]
            >= state.next_ids[namespace],
        forall|i: int|
            0 <= i < memories.len() ==> (#[trigger] memories[i]).key.id < after.next_ids[namespace],
        (state.next_ids.dom().contains(namespace) && after.next_ids[namespace]
            == state.next_ids[namespace]) || (!state.next_ids.dom().contains(namespace)
            && after.next_ids[namespace] == 1) || exists|i: int|
            0 <= i < memories.len() && (#[trigger] memories[i]).key.id + 1
                == after.next_ids[namespace],
{
    law_sync_reconciles(state, namespace, limits, memories, now, after);
    let before = pruned(state, now);
    lemma_unexpired_members(state.rows, now);
    if row.namespace == namespace {
        if after.rows.contains(row) {
            let k = choose|k: int| 0 <= k < after.rows.len() && after.rows[k] == row;
            assert(after.rows[k].namespace == namespace);
            let j = choose|j: int|
                0 <= j < memories.len() && after.rows[k] == snapshot_row(
                    namespace,
                    #[trigger] memories[j],
                );
            assert(stores(row, namespace, memories[j]));
        }
        if exists|i: int|
            0 <= i < memories.len() && stores(row, namespace, #[trigger] memories[i]) {
            let i = choose|i: int|
                0 <= i < memories.len() && stores(row, namespace, #[trigger] memories[i]);
            assert(row == snapshot_row(namespace, memories[i]));
            let k = lemma_lookup_index(after.rows, namespace, memories[i].key.id);
            assert(after.rows[k] == row);
        }
    } else {
        law_pruning(state, now, row.namespace, row.id);
        assert(lookup(after.rows, row.namespace, row.id) == lookup(
            before.rows,
            row.namespace,
            row.id,
        ));
        if after.rows.contains(row) {
            let k = choose|k: int| 0 <= k < after.rows.len() && after.rows[k] == row;
            lemma_lookup(after.rows, k);
            let m = lemma_lookup_index(before.rows, row.namespace, row.id);
            assert(before.rows.contains(before.rows[m]));
        }
        if before.rows.contains(row) {
            let k = choose|k: int| 0 <= k < before.rows.len() && before.rows[k] == row;
            lemma_lookup(before.rows, k);
            let m = lemma_lookup_index(after.rows, row.namespace, row.id);
            assert(after.rows[m] == row);
        }
    }
    let start = with_namespace(state.next_ids, namespace)[namespace];
    lemma_raised(start, memories);
    lemma_raised_attained(start, memories);
    assert(after.next_ids =~= state.next_ids.insert(namespace, after.next_ids[namespace]));
}

proof fn lemma_raised_attained(next_id: int, memories: Seq<RecordView>)
    ensures
        raised(next_id, memories) == next_id || exists|i: int|
            0 <= i < memories.len() && (#[trigger] memories[i]).key.id + 1 == raised(
                next_id,
                memories,
            ),
    decreases memories.len(),
{
    if memories.len() > 0 {
        let earlier = memories.drop_last();
        lemma_raised_attained(next_id, earlier);
        if raised(next_id, memories) == raised(next_id, earlier) {
            if raised(next_id, earlier) != next_id {
                let i = choose|i: int|
                    0 <= i < earlier.len() && (#[trigger] earlier[i]).key.id + 1 == raised(
                        next_id,
                        earlier,
                    );
                assert(memories[i].key.id + 1 == raised(next_id, memories));
            }
        } else {
            assert(memories[memories.len() - 1].key.id + 1 == raised(next_id, memories));
        }
    }
}

/// Whether `row` is, in every field that a client sees, `memory` stored in `namespace`.
pub open spec fn matches_record(row: RowView, namespace: Seq<char>, memory: RecordView) -> bool {
    &&& row.namespace == namespace
    &&& row.id == memory.key.id
    &&& row.version == memory.key.version
    &&& row.content == memory.content
    &&& row.created_at_ms == memory.created_at_ms
    &&& row.updated_at_ms == memory.updated_at_ms
    &&& row.last_scanned_at_ms == memory.last_scanned_at_ms
    &&& row.scan_count == memory.scan_count
    &&& row.last_used_at_ms == memory.last_used_at_ms
    &&& row.use_count == memory.use_count
    &&& row.probation_until_ms == memory.probation_until_ms
}

/// Whether the memory `id` of `namespace` can be seen among `rows`.
pub open spec fn seen(rows: Seq<RowView>, namespace: Seq<char>, id: int, now: int) -> bool {
    exists|k: int|
        0 <= k < rows.len() && (#[trigger] rows[k]).namespace == namespace && rows[k].id == id
            && visible(rows[k], now)
}

/// Whether a memory that can be seen among `rows` is the same as `memory` in every field.
pub open spec fn seen_same(
    rows: Seq<RowView>,
    namespace: Seq<char>,
    memory: RecordView,
    now: int,
) -> bool {
    exists|k: int|
        0 <= k < rows.len() && matches_record(#[trigger] rows[k], namespace, memory) && visible(
            rows[k],
            now,
        )
}

/// A sync reports as inserted the records whose identifier could not be seen before, as unchanged
/// those that were there in every field, as replaced the others, and as deleted the memories that
/// could be seen and whose identifier the snapshot lacks.
pub proof fn law_sync_reports(
    state: StoreView,
    namespace: Seq<char>,
    memories: Seq<RecordView>,
    now: int,
    report: SyncReport,
)
    requires
        valid_state(state),
        forall|i: int| 0 <= i < memories.len() ==> (#[trigger] memories[i]).key.namespace is None,
        reports(report, unexpired(state.rows, now), namespace, memories),
    ensures
        report.inserted == memories.filter(
            |memory: RecordView| !seen(state.rows, namespace, memory.key.id, now),
        ).len(),
        report.unchanged == memories.filter(
            |memory: RecordView| seen_same(state.rows, namespace, memory, now),
        ).len(),
        report.replaced == memories.filter(
            |memory: RecordView|
                seen(state.rows, namespace, memory.key.id, now) && !seen_same(
                    state.rows,
                    namespace,
                    memory,
                    now,
                ),
        ).len(),
        report.deleted == state.rows.filter(
            |row: RowView|
                row.namespace == namespace && visible(row, now) && forall|i: int|
                    0 <= i < memories.len() ==> (#[trigger] memories[i]).key.id != row.id,
        ).len(),
{
    law_pruning(state, now, namespace, 0);
    lemma_report_counts(state, namespace, memories, now);
    lemma_deleted_count(state.rows, namespace, memories, now);
}

proof fn lemma_change(state: StoreView, namespace: Seq<char>, memory: RecordView, now: int)
    requires
        valid_state(state),
        memory.key.namespace is None,
    ensures
        change_of(unexpired(state.rows, now), namespace, memory) == Change::Inserted <==> !seen(
            state.rows,
            namespace,
            memory.key.id,
            now,
        ),
        change_of(unexpired(state.rows, now), namespace, memory) == Change::Unchanged
            <==> seen_same(state.rows, namespace, memory, now),
{
    let rows = state.rows;
    let kept = unexpired(rows, now);
    let id = memory.key.id;
    law_pruning(state, now, namespace, id);
    lemma_unexpired_members(rows, now);
    if lookup(kept, namespace, id) is Some {
        let m = lemma_lookup_index(kept, namespace, id);
        assert(kept.contains(kept[m]));
        let k = choose|k: int| 0 <= k < rows.len() && rows[k] == kept[m];
        assert(rows[k].namespace == namespace && rows[k].id == id && visible(rows[k], now));
        if change_of(kept, namespace, memory) == Change::Unchanged {
            assert(matches_record(rows[k], namespace, memory));
        }
    }
    if seen(rows, namespace, id, now) {
        let k = choose|k: int|
            0 <= k < rows.len() && (#[trigger] rows[k]).namespace == namespace && rows[k].id == id
                && visible(rows[k], now);
        lemma_lookup(rows, k);
    }
    if seen_same(rows, namespace, memory, now) {
        let k = choose|k: int|
            0 <= k < rows.len() && matches_record(#[trigger] rows[k], namespace, memory)
                && visible(rows[k], now);
        lemma_lookup(rows, k);
        assert(lookup(kept, namespace, id) == Some(rows[k]));
    }
}

proof fn lemma_report_counts(
    state: StoreView,
    namespace: Seq<char>,
    memories: Seq<RecordView>,
    now: int,
)
    requires
        valid_state(state),
        forall|i: int| 0 <= i < memories.len() ==> (#[trigger] memories[i]).key.namespace is None,
    ensures
        change_count(unexpired(state.rows, now), namespace, memories, Change::Inserted)
            == memories.filter(
            |memory: RecordView| !seen(state.rows, namespace, memory.key.id, now),
        ).len(),
        change_count(unexpired(state.rows, now), namespace, memories, Change::Unchanged)
            == memories.filter(
            |memory: RecordView| seen_same(state.rows, namespace, memory, now),
        ).len(),
        change_count(unexpired(state.rows, now), namespace, memories, Change::Replaced)
            == memories.filter(
            |memory: RecordView|
                seen(state.rows, namespace, memory.key.id, now) && !seen_same(
                    state.rows,
                    namespace,
                    memory,
                    now,
                ),
        ).len(),
    decreases memories.len(),
{
    reveal(Seq::filter);
    if memories.len() > 0 {
        let earlier = memories.drop_last();
        assert forall|i: int| 0 <= i < earlier.len() implies (
        #[trigger] earlier[i]).key.namespace is None by {
            assert(earlier[i] == memories[i]);
        }
        lemma_report_counts(state, namespace, earlier, now);
        assert(memories[memories.len() - 1].key.namespace is None);
        lemma_change(state, namespace, memories.last(), now);
    }
}

proof fn lemma_deleted_count(
    rows: Seq<RowView>,
    namespace: Seq<char>,
    memories: Seq<RecordView>,
    now: int,
)
    ensures
        deleted_rows(unexpired(rows, now), namespace, memories).len() == rows.filter(
            |row: RowView|
                row.namespace == namespace && visible(row, now) && forall|i: int|
                    0 <= i < memories.len() ==> (#[trigger] memories[i]).key.id != row.id,
        ).len(),
    decreases rows.len(),
{
    let keep = |row: RowView| !expired(row, now);
    let mine = |row: RowView| row.namespace == namespace;
    let gone = |row: RowView| !snapshot_has(memories, row.id);
    reveal(Seq::filter);
    if rows.len() > 0 {
        let rest = rows.drop_last();
        let row = rows.last();
        lemma_deleted_count(rest, namespace, memories, now);
        assert(rows =~= rest.push(row));
        lemma_filter_push(rest, row, keep);
        lemma_filter_push(rest.filter(keep), row, mine);
        lemma_filter_push(rest.filter(keep).filter(mine), row, gone);
        assert(snapshot_has(memories, row.id) <==> !(forall|i: int|
            0 <= i < memories.len() ==> (#[trigger] memories[i]).key.id != row.id));
    }
}

} // verus!
