//! Laws of reconciling a namespace with a snapshot.

use vstd::prelude::*;

use crate::laws::{
    ids_reserved, law_pruning, lemma_filter_lookup, lemma_filter_reserved, lemma_insert_lookup,
};
use crate::mutations::pruned;
use crate::protocol::{MemoryError, MemoryLimits, RecordView, SyncReport};
use crate::queries::{export_rows, exported};
use crate::rows::{
    expired, holds, identity_taken, lemma_filter_members, lemma_filter_valid, lemma_insert_sorted,
    lemma_insert_valid, lemma_lookup, lemma_lookup_index, lemma_sorted_unique, lookup, rank,
    rows_in, rows_outside, unexpired, valid_state, RowView, StoreView,
};
use crate::snapshot::{
    change_count, change_of, deleted_rows, first_fault, identity_in, insert_snapshot,
    lemma_no_fault, raised, reconciled, record_fault, reports, snapshot_has, snapshot_row,
    sync_outcome, well_shaped, Change,
};
use crate::table::with_namespace;

verus! {

/// Whether `rows` hold nothing of `namespace` but the memories of a snapshot.
pub open spec fn only_snapshot(
    rows: Seq<RowView>,
    namespace: Seq<char>,
    memories: Seq<RecordView>,
) -> bool {
    forall|k: int|
        0 <= k < rows.len() && (#[trigger] rows[k]).namespace == namespace ==> exists|j: int|
            0 <= j < memories.len() && rows[k] == snapshot_row(namespace, #[trigger] memories[j])
}

/// Adding the records of a snapshot to rows of other namespaces keeps the invariant; lookups then
/// find the records of the snapshot, and in the other namespaces what they found before.
proof fn lemma_insert_snapshot(
    state: StoreView,
    namespace: Seq<char>,
    memories: Seq<RecordView>,
    limits: MemoryLimits,
)
    requires
        valid_state(state),
        state.next_ids.dom().contains(namespace),
        forall|i: int|
            0 <= i < state.rows.len() ==> (#[trigger] state.rows[i]).namespace != namespace,
        first_fault(memories, limits) is None,
        forall|i: int| 0 <= i < memories.len() ==> (#[trigger] memories[i]).key.id <= i64::MAX,
        forall|i: int| 0 <= i < memories.len() ==> (#[trigger] memories[i]).scan_count >= 0,
        forall|i: int| 0 <= i < memories.len() ==> (#[trigger] memories[i]).use_count >= 0,
    ensures
        valid_state(
            StoreView { rows: insert_snapshot(state.rows, namespace, memories), ..state },
        ),
        only_snapshot(insert_snapshot(state.rows, namespace, memories), namespace, memories),
        forall|i: int|
            0 <= i < memories.len() ==> lookup(
                insert_snapshot(state.rows, namespace, memories),
                namespace,
                (#[trigger] memories[i]).key.id,
            ) == Some(snapshot_row(namespace, memories[i])),
        forall|other: Seq<char>, id: int|
            other != namespace ==> #[trigger] lookup(
                insert_snapshot(state.rows, namespace, memories),
                other,
                id,
            ) == lookup(state.rows, other, id),
    decreases memories.len(),
{
    if memories.len() > 0 {
        let earlier = memories.drop_last();
        let memory = memories.last();
        let row = snapshot_row(namespace, memory);
        assert forall|i: int| 0 <= i < earlier.len() implies (#[trigger] earlier[i]).key.id
            <= i64::MAX && earlier[i].scan_count >= 0 && earlier[i].use_count >= 0 by {
            assert(earlier[i] == memories[i]);
        }
        assert(memory == memories[memories.len() - 1]);
        lemma_insert_snapshot(state, namespace, earlier, limits);
        assert(record_fault(earlier, memory, limits) is None);
        let before = insert_snapshot(state.rows, namespace, earlier);
        let after = insert_snapshot(state.rows, namespace, memories);
        assert(!holds(before, namespace, row.id)) by {
            if holds(before, namespace, row.id) {
                let k = lemma_lookup_index(before, namespace, row.id);
                let j = choose|j: int|
                    0 <= j < earlier.len() && before[k] == snapshot_row(
                        namespace,
                        #[trigger] earlier[j],
                    );
                assert(snapshot_has(earlier, memory.key.id));
            }
        }
        assert(!identity_taken(before, namespace, row.identity, None)) by {
            if identity_taken(before, namespace, row.identity, None) {
                let k = choose|k: int|
                    0 <= k < before.len() && (#[trigger] before[k]).namespace == namespace
                        && before[k].identity == row.identity;
                let j = choose|j: int|
                    0 <= j < earlier.len() && before[k] == snapshot_row(
                        namespace,
                        #[trigger] earlier[j],
                    );
                assert(identity_in(earlier, row.identity));
            }
        }
        lemma_insert_valid(StoreView { rows: before, ..state }, row);
        lemma_insert_sorted(before, row);
        let place = rank(before, row);
        assert forall|k: int|
            0 <= k < after.len() && (#[trigger] after[k]).namespace == namespace implies exists|
            j: int,
        |
            0 <= j < memories.len() && after[k] == snapshot_row(
                namespace,
                #[trigger] memories[j],
            ) by {
            if k == place {
                assert(after[k] == snapshot_row(namespace, memories[memories.len() - 1]));
            } else {
                let old_k = if k < place { k } else { k - 1 };
                assert(before[old_k] == after[k]);
                let j = choose|j: int|
                    0 <= j < earlier.len() && before[old_k] == snapshot_row(
                        namespace,
                        #[trigger] earlier[j],
                    );
                assert(after[k] == snapshot_row(namespace, memories[j]));
            }
        }
        assert forall|i: int| 0 <= i < memories.len() implies lookup(
            after,
            namespace,
            (#[trigger] memories[i]).key.id,
        ) == Some(snapshot_row(namespace, memories[i])) by {
            lemma_insert_lookup(before, row, namespace, memories[i].key.id);
            if i < earlier.len() {
                assert(earlier[i] == memories[i]);
                if memories[i].key.id == memory.key.id {
                    assert(snapshot_has(earlier, memory.key.id));
                }
            }
        }
        assert forall|other: Seq<char>, id: int| other != namespace implies #[trigger] lookup(
            after,
            other,
            id,
        ) == lookup(state.rows, other, id) by {
            lemma_insert_lookup(before, row, other, id);
        }
    } else {
        assert(insert_snapshot(state.rows, namespace, memories) == state.rows);
    }
}

/// The smallest unused identifier after a snapshot is above every identifier of it, is not
/// smaller than before, and fits where the identifiers are not the largest.
pub proof fn lemma_raised(next_id: int, memories: Seq<RecordView>)
    ensures
        raised(next_id, memories) >= next_id,
        forall|i: int|
            0 <= i < memories.len() ==> (#[trigger] memories[i]).key.id < raised(
                next_id,
                memories,
            ),
        next_id <= i64::MAX && !snapshot_above(memories) ==> raised(next_id, memories) <= i64::MAX,
    decreases memories.len(),
{
    if memories.len() > 0 {
        let earlier = memories.drop_last();
        lemma_raised(next_id, earlier);
        assert forall|i: int| 0 <= i < memories.len() implies (#[trigger] memories[i]).key.id
            < raised(next_id, memories) by {
            if i < earlier.len() {
                assert(earlier[i] == memories[i]);
            }
        }
        if snapshot_above(earlier) {
            let i = choose|i: int|
                0 <= i < earlier.len() && (#[trigger] earlier[i]).key.id >= i64::MAX;
            assert(memories[i].key.id >= i64::MAX);
        }
        if memories.last().key.id >= i64::MAX {
            assert(memories[memories.len() - 1].key.id >= i64::MAX);
        }
    }
}

/// Whether one of `memories` has an identifier that leaves none above it.
pub open spec fn snapshot_above(memories: Seq<RecordView>) -> bool {
    exists|i: int| 0 <= i < memories.len() && (#[trigger] memories[i]).key.id >= i64::MAX
}

/// Whether the numbers of a snapshot fit where records hold them: identifiers are at most the
/// largest signed 64-bit number, and counts are not negative.
pub open spec fn representable(memories: Seq<RecordView>) -> bool {
    forall|i: int|
        0 <= i < memories.len() ==> (#[trigger] memories[i]).key.id <= i64::MAX
            && memories[i].scan_count >= 0 && memories[i].use_count >= 0
}

/// Reconciling keeps the invariant. Afterwards the namespace holds exactly the records of the
/// snapshot, and the other namespaces hold what they held, but for what expired.
pub proof fn law_sync_reconciles(
    state: StoreView,
    namespace: Seq<char>,
    limits: MemoryLimits,
    memories: Seq<RecordView>,
    now: int,
    after: StoreView,
)
    requires
        valid_state(state),
        representable(memories),
        sync_outcome(state, namespace, limits, memories, now) == Ok::<StoreView, MemoryError>(
            after,
        ),
    ensures
        valid_state(after),
        only_snapshot(after.rows, namespace, memories),
        forall|i: int|
            0 <= i < memories.len() ==> lookup(
                after.rows,
                namespace,
                (#[trigger] memories[i]).key.id,
            ) == Some(snapshot_row(namespace, memories[i])),
        forall|other: Seq<char>, id: int|
            other != namespace ==> #[trigger] lookup(after.rows, other, id) == lookup(
                pruned(state, now).rows,
                other,
                id,
            ),
        forall|other: Seq<char>|
            other != namespace ==> (#[trigger] after.next_ids.dom().contains(other)
                == state.next_ids.dom().contains(other)) && after.next_ids[other]
                == state.next_ids[other],
{
    let before = pruned(state, now);
    law_pruning(state, now, namespace, 0);
    let keep = |row: RowView| row.namespace != namespace;
    let known = StoreView { next_ids: with_namespace(before.next_ids, namespace), ..before };
    assert(valid_state(known));
    lemma_filter_valid(known, keep);
    lemma_filter_members(known.rows, keep);
    let outside = StoreView { rows: rows_outside(known.rows, namespace), ..known };
    assert forall|i: int| 0 <= i < outside.rows.len() implies (
    #[trigger] outside.rows[i]).namespace != namespace by {
        assert(keep(known.rows.filter(keep)[i]));
    }
    lemma_insert_snapshot(outside, namespace, memories, limits);
    let start = known.next_ids[namespace];
    lemma_raised(start, memories);
    assert(!snapshot_above(memories)) by {
        if snapshot_above(memories) {
            let i = choose|i: int|
                0 <= i < memories.len() && (#[trigger] memories[i]).key.id >= i64::MAX;
            assert(snapshot_has(memories, i64::MAX as int));
        }
    }
    assert(after.next_ids.dom() =~= known.next_ids.dom());
    assert forall|other: Seq<char>, id: int| other != namespace implies #[trigger] lookup(
        after.rows,
        other,
        id,
    ) == lookup(before.rows, other, id) by {
        lemma_filter_lookup(known.rows, keep, other, id);
        if holds(known.rows, other, id) {
            let i = lemma_lookup_index(known.rows, other, id);
        }
    }
}

/// Raising again by the same snapshot changes nothing.
proof fn lemma_raised_again(next_id: int, memories: Seq<RecordView>)
    requires
        forall|i: int| 0 <= i < memories.len() ==> (#[trigger] memories[i]).key.id < next_id,
    ensures
        raised(next_id, memories) == next_id,
    decreases memories.len(),
{
    if memories.len() > 0 {
        let earlier = memories.drop_last();
        assert forall|i: int| 0 <= i < earlier.len() implies (#[trigger] earlier[i]).key.id
            < next_id by {
            assert(earlier[i] == memories[i]);
        }
        lemma_raised_again(next_id, earlier);
        assert(memories[memories.len() - 1].key.id < next_id);
    }
}

/// The changes that a snapshot makes add up to its records.
pub proof fn law_sync_counts(
    rows: Seq<RowView>,
    namespace: Seq<char>,
    memories: Seq<RecordView>,
    report: SyncReport,
)
    requires
        reports(report, rows, namespace, memories),
    ensures
        report.inserted + report.replaced + report.unchanged == memories.len(),
{
    lemma_change_counts(rows, namespace, memories);
}

proof fn lemma_change_counts(rows: Seq<RowView>, namespace: Seq<char>, memories: Seq<RecordView>)
    ensures
        change_count(rows, namespace, memories, Change::Inserted) + change_count(
            rows,
            namespace,
            memories,
            Change::Replaced,
        ) + change_count(rows, namespace, memories, Change::Unchanged) == memories.len(),
    decreases memories.len(),
{
    if memories.len() > 0 {
        lemma_change_counts(rows, namespace, memories.drop_last());
    }
}

/// Where every record of a snapshot is unchanged, the counts say so.
proof fn lemma_all_unchanged(rows: Seq<RowView>, namespace: Seq<char>, memories: Seq<RecordView>)
    requires
        forall|i: int|
            0 <= i < memories.len() ==> change_of(rows, namespace, #[trigger] memories[i])
                == Change::Unchanged,
    ensures
        change_count(rows, namespace, memories, Change::Inserted) == 0,
        change_count(rows, namespace, memories, Change::Replaced) == 0,
        change_count(rows, namespace, memories, Change::Unchanged) == memories.len(),
    decreases memories.len(),
{
    if memories.len() > 0 {
        let earlier = memories.drop_last();
        assert forall|i: int| 0 <= i < earlier.len() implies change_of(
            rows,
            namespace,
            #[trigger] earlier[i],
        ) == Change::Unchanged by {
            assert(earlier[i] == memories[i]);
        }
        lemma_all_unchanged(rows, namespace, earlier);
        assert(change_of(rows, namespace, memories[memories.len() - 1]) == Change::Unchanged);
    }
}

/// Reconciling again with the same snapshot, while none of its records has expired, succeeds,
/// reports every record as unchanged and none as deleted, and changes nothing but for what
/// expired in other namespaces.
pub proof fn law_sync_again_is_unchanged(
    state: StoreView,
    namespace: Seq<char>,
    limits: MemoryLimits,
    memories: Seq<RecordView>,
    now: int,
    after: StoreView,
    next_time: int,
    report: SyncReport,
)
    requires
        valid_state(state),
        representable(memories),
        sync_outcome(state, namespace, limits, memories, now) == Ok::<StoreView, MemoryError>(
            after,
        ),
        forall|i: int|
            0 <= i < memories.len() ==> !expired(
                snapshot_row(namespace, #[trigger] memories[i]),
                next_time,
            ),
        reports(report, unexpired(after.rows, next_time), namespace, memories),
    ensures
        sync_outcome(after, namespace, limits, memories, next_time) == Ok::<
            StoreView,
            MemoryError,
        >(pruned(after, next_time)),
        report.unchanged == memories.len(),
        report.inserted == 0,
        report.replaced == 0,
        report.deleted == 0,
{
    law_sync_reconciles(state, namespace, limits, memories, now, after);
    let before = pruned(after, next_time);
    law_pruning(after, next_time, namespace, 0);
    assert forall|i: int| 0 <= i < memories.len() implies change_of(
        before.rows,
        namespace,
        #[trigger] memories[i],
    ) == Change::Unchanged by {
        law_pruning(after, next_time, namespace, memories[i].key.id);
        lemma_no_fault(memories, limits, i);
        assert(well_shaped(memories[i]));
    }
    lemma_all_unchanged(before.rows, namespace, memories);
    let mine = |row: RowView| row.namespace == namespace;
    let gone = |row: RowView| !snapshot_has(memories, row.id);
    let rows = rows_in(before.rows, namespace);
    assert(deleted_rows(before.rows, namespace, memories).len() == 0) by {
        let deleted = deleted_rows(before.rows, namespace, memories);
        if deleted.len() > 0 {
            lemma_filter_members(rows, gone);
            lemma_filter_members(before.rows, mine);
            lemma_filter_members(after.rows, |row: RowView| !expired(row, next_time));
            assert(gone(deleted[0]));
            assert(rows.contains(deleted[0]));
            let k = choose|k: int| 0 <= k < rows.len() && rows[k] == deleted[0];
            assert(mine(rows[k]));
            assert(before.rows.contains(rows[k]));
            let l = choose|l: int| 0 <= l < before.rows.len() && before.rows[l] == rows[k];
            assert(after.rows.contains(before.rows[l]));
            let m = choose|m: int| 0 <= m < after.rows.len() && after.rows[m] == before.rows[l];
            let j = choose|j: int|
                0 <= j < memories.len() && after.rows[m] == snapshot_row(
                    namespace,
                    #[trigger] memories[j],
                );
            assert(memories[j].key.id == deleted[0].id);
            assert(snapshot_has(memories, deleted[0].id));
        }
    }
    let again = reconciled(before, namespace, memories);
    law_sync_reconciles(after, namespace, limits, memories, next_time, again);
    assert forall|other: Seq<char>, id: int| #[trigger]
        lookup(again.rows, other, id) == lookup(before.rows, other, id) by {
        if other == namespace {
            lemma_sync_lookup(again.rows, namespace, memories, id);
            law_pruning(after, next_time, namespace, id);
            lemma_sync_lookup(after.rows, namespace, memories, id);
            if snapshot_has(memories, id) {
                let i = choose|i: int| 0 <= i < memories.len() && (#[trigger] memories[i]).key.id
                    == id;
                assert(lookup(after.rows, namespace, memories[i].key.id) == Some(
                    snapshot_row(namespace, memories[i]),
                ));
                assert(lookup(again.rows, namespace, memories[i].key.id) == Some(
                    snapshot_row(namespace, memories[i]),
                ));
            }
        }
    }
    lemma_sorted_unique(again.rows, before.rows);
    let start = with_namespace(pruned(state, now).next_ids, namespace)[namespace];
    lemma_raised(start, memories);
    lemma_raised_again(raised(start, memories), memories);
    assert(again.next_ids =~= after.next_ids);
}

/// After a snapshot, an identifier that it does not hold is not found.
proof fn lemma_sync_lookup(
    rows: Seq<RowView>,
    namespace: Seq<char>,
    memories: Seq<RecordView>,
    id: int,
)
    requires
        only_snapshot(rows, namespace, memories),
    ensures
        lookup(rows, namespace, id) is Some ==> snapshot_has(memories, id),
{
    if lookup(rows, namespace, id) is Some {
        let k = lemma_lookup_index(rows, namespace, id);
        let j = choose|j: int|
            0 <= j < memories.len() && rows[k] == snapshot_row(namespace, #[trigger] memories[j]);
        assert(memories[j].key.id == id);
    }
}

/// A snapshot reserves its identifiers, and lowers no smallest unused identifier.
pub proof fn law_sync_reserves_ids(
    state: StoreView,
    namespace: Seq<char>,
    limits: MemoryLimits,
    memories: Seq<RecordView>,
    now: int,
    after: StoreView,
)
    requires
        valid_state(state),
        ids_reserved(state),
        representable(memories),
        sync_outcome(state, namespace, limits, memories, now) == Ok::<StoreView, MemoryError>(
            after,
        ),
    ensures
        ids_reserved(after),
        forall|i: int|
            0 <= i < memories.len() ==> (#[trigger] memories[i]).key.id < after.next_ids[namespace],
        forall|other: Seq<char>| #[trigger]
            state.next_ids.dom().contains(other) ==> after.next_ids.dom().contains(other)
                && state.next_ids[other] <= after.next_ids[other],
{
    law_sync_reconciles(state, namespace, limits, memories, now, after);
    let before = pruned(state, now);
    law_pruning(state, now, namespace, 0);
    lemma_filter_reserved(state, |row: RowView| !expired(row, now));
    lemma_raised(with_namespace(before.next_ids, namespace)[namespace], memories);
    assert forall|i: int| 0 <= i < after.rows.len() implies (#[trigger] after.rows[i]).id
        < after.next_ids[after.rows[i].namespace] by {
        let row = after.rows[i];
        if row.namespace == namespace {
            let j = choose|j: int|
                0 <= j < memories.len() && row == snapshot_row(namespace, #[trigger] memories[j]);
            assert(memories[j].key.id == row.id);
        } else {
            lemma_lookup(after.rows, i);
            assert(lookup(after.rows, row.namespace, row.id) == lookup(
                before.rows,
                row.namespace,
                row.id,
            ));
            let k = lemma_lookup_index(before.rows, row.namespace, row.id);
            assert(before.rows[k].id < before.next_ids[row.namespace]);
            assert(before.next_ids.dom().contains(row.namespace));
        }
    }
}

/// An export of the namespace gives back the records of a snapshot: all of those that have not
/// expired, and nothing else.
pub proof fn law_export_returns_the_snapshot(
    state: StoreView,
    namespace: Seq<char>,
    limits: MemoryLimits,
    memories: Seq<RecordView>,
    now: int,
    after: StoreView,
    next_time: int,
)
    requires
        valid_state(state),
        representable(memories),
        sync_outcome(state, namespace, limits, memories, now) == Ok::<StoreView, MemoryError>(
            after,
        ),
    ensures
        forall|i: int|
            0 <= i < memories.len() && !expired(
                snapshot_row(namespace, #[trigger] memories[i]),
                next_time,
            ) ==> export_rows(after.rows, Some(seq![namespace]), None, next_time).contains(
                snapshot_row(namespace, memories[i]),
            ),
        forall|row: RowView| #[trigger]
            export_rows(after.rows, Some(seq![namespace]), None, next_time).contains(row)
                ==> exists|i: int|
                0 <= i < memories.len() && row == snapshot_row(namespace, #[trigger] memories[i]),
{
    law_sync_reconciles(state, namespace, limits, memories, now, after);
    let chosen = Some(seq![namespace]);
    let keep = |row: RowView| exported(row, chosen, None, next_time);
    lemma_filter_members(after.rows, keep);
    let page = export_rows(after.rows, chosen, None, next_time);
    assert(seq![namespace][0] == namespace);
    assert forall|i: int|
        0 <= i < memories.len() && !expired(
            snapshot_row(namespace, #[trigger] memories[i]),
            next_time,
        ) implies page.contains(snapshot_row(namespace, memories[i])) by {
        let row = snapshot_row(namespace, memories[i]);
        let k = lemma_lookup_index(after.rows, namespace, memories[i].key.id);
        assert(after.rows[k] == row);
        assert(seq![namespace].contains(namespace));
        assert(keep(after.rows[k]));
    }
    assert forall|row: RowView| #[trigger] page.contains(row) implies exists|i: int|
        0 <= i < memories.len() && row == snapshot_row(namespace, #[trigger] memories[i]) by {
        let k = choose|k: int| 0 <= k < page.len() && page[k] == row;
        assert(keep(after.rows.filter(keep)[k]));
        assert(row.namespace == namespace);
        assert(after.rows.contains(page[k]));
        let l = choose|l: int| 0 <= l < after.rows.len() && after.rows[l] == page[k];
        assert(after.rows[l].namespace == namespace);
    }
}

} // verus!
