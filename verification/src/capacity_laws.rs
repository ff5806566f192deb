//! Laws of the limits: no operation takes a namespace over them.

use vstd::prelude::*;

use crate::laws::{law_pruning, law_scan_only_counts, stored_row};
use crate::mutations::{content_fault, delete_outcome, pruned, put_outcome};
use crate::protocol::{KeyView, MemoryError, MemoryLimits, RecordView};
use crate::queries::{read_outcome, references, scan_recorded, used_rows};
use crate::rows::{
    at, bytes_in, content_total, expired, holds, lemma_filter_members, lemma_insert_sorted,
    lemma_lookup, lemma_lookup_index, lemma_max_id, lemma_replace_at, lookup, one_in, rank,
    record_count, rows_outside, tally, valid_state, RowView, StoreView,
};
use crate::snapshot::{
    insert_snapshot, lemma_no_fault, record_fault, snapshot_bytes, snapshot_row, sync_outcome,
};
use crate::sync_laws::{law_sync_reconciles, representable};
use crate::text::{identity_of, utf8_len};

verus! {

/// Whether every namespace is within the limits: its number of memories, the bytes of each
/// content, and the bytes of all its contents.
pub open spec fn within_limits(rows: Seq<RowView>, limits: MemoryLimits) -> bool {
    &&& forall|namespace: Seq<char>| #[trigger] record_count(rows, namespace) <= limits.records
    &&& forall|namespace: Seq<char>| #[trigger]
        content_total(rows, namespace) <= limits.total_content_bytes
    &&& forall|i: int|
        0 <= i < rows.len() ==> utf8_len((#[trigger] rows[i]).content) <= limits.content_bytes
}

/// A sum over rows with one row added.
pub proof fn lemma_tally_insert(
    rows: Seq<RowView>,
    k: int,
    row: RowView,
    measure: spec_fn(RowView) -> int,
)
    requires
        0 <= k <= rows.len(),
    ensures
        tally(rows.insert(k, row), measure) == tally(rows, measure) + measure(row),
    decreases rows.len(),
{
    let after = rows.insert(k, row);
    if k == rows.len() {
        assert(after.drop_last() =~= rows);
    } else {
        assert(after.drop_last() =~= rows.drop_last().insert(k, row));
        assert(after.last() == rows.last());
        lemma_tally_insert(rows.drop_last(), k, row, measure);
    }
}

/// A sum over rows with one row replaced.
pub proof fn lemma_tally_update(
    rows: Seq<RowView>,
    k: int,
    row: RowView,
    measure: spec_fn(RowView) -> int,
)
    requires
        0 <= k < rows.len(),
    ensures
        tally(rows.update(k, row), measure) == tally(rows, measure) - measure(rows[k]) + measure(
            row,
        ),
    decreases rows.len(),
{
    let after = rows.update(k, row);
    if k == rows.len() - 1 {
        assert(after.drop_last() =~= rows.drop_last());
    } else {
        assert(after.drop_last() =~= rows.drop_last().update(k, row));
        lemma_tally_update(rows.drop_last(), k, row, measure);
    }
}

/// A sum over filtered rows is not larger.
pub proof fn lemma_tally_filter(
    rows: Seq<RowView>,
    pred: spec_fn(RowView) -> bool,
    measure: spec_fn(RowView) -> int,
)
    requires
        forall|row: RowView| #[trigger] measure(row) >= 0,
    ensures
        tally(rows.filter(pred), measure) <= tally(rows, measure),
    decreases rows.len(),
{
    reveal(Seq::filter);
    if rows.len() > 0 {
        let rest = rows.drop_last();
        lemma_tally_filter(rest, pred, measure);
        if pred(rows.last()) {
            assert(rows.filter(pred).drop_last() =~= rest.filter(pred));
        }
    }
}

/// A sum over rows is the same where each row has the same measure.
pub proof fn lemma_tally_same(
    a: Seq<RowView>,
    b: Seq<RowView>,
    measure: spec_fn(RowView) -> int,
)
    requires
        a.len() == b.len(),
        forall|i: int| 0 <= i < a.len() ==> measure(#[trigger] a[i]) == measure(b[i]),
    ensures
        tally(a, measure) == tally(b, measure),
    decreases a.len(),
{
    if a.len() > 0 {
        assert forall|i: int| 0 <= i < a.drop_last().len() implies measure(
            #[trigger] a.drop_last()[i],
        ) == measure(b.drop_last()[i]) by {
            assert(measure(a[i]) == measure(b[i]));
        }
        lemma_tally_same(a.drop_last(), b.drop_last(), measure);
        assert(measure(a[a.len() - 1]) == measure(b[b.len() - 1]));
    }
}

/// A sum is 0 where each row has measure 0.
proof fn lemma_tally_zero(rows: Seq<RowView>, measure: spec_fn(RowView) -> int)
    requires
        forall|i: int| 0 <= i < rows.len() ==> measure(#[trigger] rows[i]) == 0,
    ensures
        tally(rows, measure) == 0,
    decreases rows.len(),
{
    if rows.len() > 0 {
        let rest = rows.drop_last();
        assert forall|i: int| 0 <= i < rest.len() implies measure(#[trigger] rest[i]) == 0 by {
            assert(rest[i] == rows[i]);
        }
        lemma_tally_zero(rest, measure);
        assert(measure(rows[rows.len() - 1]) == 0);
    }
}

/// Filtering keeps every namespace within the limits.
pub proof fn lemma_filter_within(
    rows: Seq<RowView>,
    pred: spec_fn(RowView) -> bool,
    limits: MemoryLimits,
)
    requires
        within_limits(rows, limits),
    ensures
        within_limits(rows.filter(pred), limits),
{
    let kept = rows.filter(pred);
    assert forall|namespace: Seq<char>| #[trigger]
        record_count(kept, namespace) <= limits.records by {
        lemma_tally_filter(rows, pred, one_in(namespace));
        assert(record_count(rows, namespace) <= limits.records);
    }
    assert forall|namespace: Seq<char>| #[trigger]
        content_total(kept, namespace) <= limits.total_content_bytes by {
        lemma_tally_filter(rows, pred, bytes_in(namespace));
        assert(content_total(rows, namespace) <= limits.total_content_bytes);
    }
    lemma_filter_members(rows, pred);
    assert forall|i: int| 0 <= i < kept.len() implies utf8_len((#[trigger] kept[i]).content)
        <= limits.content_bytes by {
        assert(rows.contains(kept[i]));
    }
}

/// Changing rows without changing their namespaces or contents keeps every namespace within the
/// limits.
proof fn lemma_same_within(a: Seq<RowView>, b: Seq<RowView>, limits: MemoryLimits)
    requires
        within_limits(a, limits),
        a.len() == b.len(),
        forall|i: int|
            0 <= i < a.len() ==> (#[trigger] b[i]).namespace == a[i].namespace && b[i].content
                == a[i].content,
    ensures
        within_limits(b, limits),
{
    assert forall|namespace: Seq<char>| #[trigger] record_count(b, namespace) <= limits.records by {
        lemma_tally_same(b, a, one_in(namespace));
        assert(record_count(a, namespace) <= limits.records);
    }
    assert forall|namespace: Seq<char>| #[trigger]
        content_total(b, namespace) <= limits.total_content_bytes by {
        lemma_tally_same(b, a, bytes_in(namespace));
        assert(content_total(a, namespace) <= limits.total_content_bytes);
    }
    assert forall|i: int| 0 <= i < b.len() implies utf8_len((#[trigger] b[i]).content)
        <= limits.content_bytes by {
        assert(utf8_len(a[i].content) <= limits.content_bytes);
    }
}

/// No put takes a namespace over the limits.
pub proof fn law_put_keeps_limits(
    state: StoreView,
    namespace: Seq<char>,
    limits: MemoryLimits,
    content: Seq<char>,
    replacement: Option<KeyView>,
    now: int,
    after: StoreView,
    record: RecordView,
)
    requires
        valid_state(state),
        within_limits(state.rows, limits),
        limits.total_content_bytes < u64::MAX,
        put_outcome(state, namespace, limits, content, replacement, now) == Ok::<
            (StoreView, RecordView),
            MemoryError,
        >((after, record)),
    ensures
        within_limits(after.rows, limits),
{
    let before = pruned(state, now);
    law_pruning(state, now, namespace, 0);
    lemma_filter_within(state.rows, |row: RowView| !expired(row, now), limits);
    let row = stored_row(state, namespace, limits, content, replacement, now);
    let rows = before.rows;
    match replacement {
        Some(key) => {
            let k = lemma_lookup_index(rows, namespace, key.id);
            lemma_replace_at(rows, k, row);
            assert forall|other: Seq<char>| #[trigger]
                record_count(after.rows, other) <= limits.records by {
                lemma_tally_update(rows, k, row, one_in(other));
                assert(record_count(rows, other) <= limits.records);
            }
            assert forall|other: Seq<char>| #[trigger]
                content_total(after.rows, other) <= limits.total_content_bytes by {
                lemma_tally_update(rows, k, row, bytes_in(other));
                assert(content_total(rows, other) <= limits.total_content_bytes);
            }
        },
        None => {
            lemma_max_id(rows, namespace);
            assert(!holds(rows, namespace, row.id));
            lemma_insert_sorted(rows, row);
            let k = rank(rows, row);
            assert forall|other: Seq<char>| #[trigger]
                record_count(after.rows, other) <= limits.records by {
                lemma_tally_insert(rows, k, row, one_in(other));
                assert(record_count(rows, other) <= limits.records);
            }
            assert forall|other: Seq<char>| #[trigger]
                content_total(after.rows, other) <= limits.total_content_bytes by {
                lemma_tally_insert(rows, k, row, bytes_in(other));
                assert(content_total(rows, other) <= limits.total_content_bytes);
            }
            assert forall|i: int| 0 <= i < after.rows.len() implies utf8_len(
                (#[trigger] after.rows[i]).content,
            ) <= limits.content_bytes by {
                if i != k {
                    let j = if i < k { i } else { i - 1 };
                    assert(after.rows[i] == rows[j]);
                }
            }
        },
    }
}

/// A namespace that holds as many memories as it may refuses a new one, whatever its content,
/// unless it is a duplicate.
pub proof fn law_full_namespace_refuses(
    state: StoreView,
    namespace: Seq<char>,
    limits: MemoryLimits,
    content: Seq<char>,
    now: int,
)
    requires
        record_count(pruned(state, now).rows, namespace) >= limits.records,
        content_total(pruned(state, now).rows, namespace) <= i64::MAX,
        content_fault(content, limits) is None,
        identity_of(content).len() > 0,
    ensures
        put_outcome(state, namespace, limits, content, None, now) == Err::<
            (StoreView, RecordView),
            MemoryError,
        >(MemoryError::RecordCapacity { maximum: limits.records }) || put_outcome(
            state,
            namespace,
            limits,
            content,
            None,
            now,
        ) == Err::<(StoreView, RecordView), MemoryError>(MemoryError::Duplicate),
{
}

/// Sums over the rows that a snapshot adds.
proof fn lemma_tally_snapshot(
    rows: Seq<RowView>,
    namespace: Seq<char>,
    memories: Seq<RecordView>,
    measure: spec_fn(RowView) -> int,
)
    ensures
        tally(insert_snapshot(rows, namespace, memories), measure) == tally(rows, measure) + tally(
            memories.map_values(|memory: RecordView| snapshot_row(namespace, memory)),
            measure,
        ),
    decreases memories.len(),
{
    let row_of = |memory: RecordView| snapshot_row(namespace, memory);
    if memories.len() > 0 {
        let earlier = memories.drop_last();
        lemma_tally_snapshot(rows, namespace, earlier, measure);
        let before = insert_snapshot(rows, namespace, earlier);
        let row = snapshot_row(namespace, memories.last());
        lemma_rank_bounds(before, row);
        lemma_tally_insert(before, rank(before, row), row, measure);
        assert(memories.map_values(row_of).drop_last() =~= earlier.map_values(row_of));
    } else {
        assert(memories.map_values(row_of) =~= Seq::<RowView>::empty());
    }
}

proof fn lemma_rank_bounds(rows: Seq<RowView>, row: RowView)
    ensures
        0 <= rank(rows, row) <= rows.len(),
    decreases rows.len(),
{
    if rows.len() > 0 {
        lemma_rank_bounds(rows.drop_last(), row);
    }
}

/// The rows of a snapshot count as many as its records and weigh as many bytes.
proof fn lemma_snapshot_sums(namespace: Seq<char>, memories: Seq<RecordView>)
    ensures
        tally(
            memories.map_values(|memory: RecordView| snapshot_row(namespace, memory)),
            one_in(namespace),
        ) == memories.len(),
        tally(
            memories.map_values(|memory: RecordView| snapshot_row(namespace, memory)),
            bytes_in(namespace),
        ) == snapshot_bytes(memories),
    decreases memories.len(),
{
    let row_of = |memory: RecordView| snapshot_row(namespace, memory);
    if memories.len() > 0 {
        lemma_snapshot_sums(namespace, memories.drop_last());
        assert(memories.map_values(row_of).drop_last() =~= memories.drop_last().map_values(row_of));
    }
}

/// No snapshot takes a namespace over the limits.
pub proof fn law_sync_keeps_limits(
    state: StoreView,
    namespace: Seq<char>,
    limits: MemoryLimits,
    memories: Seq<RecordView>,
    now: int,
    after: StoreView,
)
    requires
        valid_state(state),
        representable(memories),
        within_limits(state.rows, limits),
        sync_outcome(state, namespace, limits, memories, now) == Ok::<StoreView, MemoryError>(
            after,
        ),
    ensures
        within_limits(after.rows, limits),
{
    law_sync_reconciles(state, namespace, limits, memories, now, after);
    let before = pruned(state, now);
    law_pruning(state, now, namespace, 0);
    lemma_filter_within(state.rows, |row: RowView| !expired(row, now), limits);
    let keep = |row: RowView| row.namespace != namespace;
    let outside = rows_outside(before.rows, namespace);
    lemma_filter_within(before.rows, keep, limits);
    lemma_filter_members(before.rows, keep);
    let row_of = |memory: RecordView| snapshot_row(namespace, memory);
    let added = memories.map_values(row_of);
    assert forall|i: int| 0 <= i < outside.len() implies (#[trigger] outside[i]).namespace
        != namespace by {
        assert(keep(before.rows.filter(keep)[i]));
    }
    lemma_snapshot_sums(namespace, memories);
    assert forall|other: Seq<char>| #[trigger]
        record_count(after.rows, other) <= limits.records by {
        lemma_tally_snapshot(outside, namespace, memories, one_in(other));
        if other == namespace {
            lemma_tally_zero(outside, one_in(namespace));
        } else {
            lemma_tally_zero(added, one_in(other));
            assert(record_count(outside, other) <= limits.records);
        }
    }
    assert forall|other: Seq<char>| #[trigger]
        content_total(after.rows, other) <= limits.total_content_bytes by {
        lemma_tally_snapshot(outside, namespace, memories, bytes_in(other));
        if other == namespace {
            lemma_tally_zero(outside, bytes_in(namespace));
        } else {
            lemma_tally_zero(added, bytes_in(other));
            assert(content_total(outside, other) <= limits.total_content_bytes);
        }
    }
    assert forall|i: int| 0 <= i < after.rows.len() implies utf8_len(
        (#[trigger] after.rows[i]).content,
    ) <= limits.content_bytes by {
        let row = after.rows[i];
        if row.namespace == namespace {
            let j = choose|j: int|
                0 <= j < memories.len() && row == snapshot_row(namespace, #[trigger] memories[j]);
            lemma_no_fault(memories, limits, j);
            assert(record_fault(memories.take(j), memories[j], limits) is None);
        } else {
            lemma_lookup(after.rows, i);
            assert(lookup(after.rows, row.namespace, row.id) == lookup(
                before.rows,
                row.namespace,
                row.id,
            ));
            let k = lemma_lookup_index(before.rows, row.namespace, row.id);
            assert(utf8_len(before.rows[k].content) <= limits.content_bytes);
        }
    }
}

/// Pruning, reads, deletes and scans keep every namespace within the limits.
pub proof fn law_others_keep_limits(
    state: StoreView,
    namespace: Seq<char>,
    limits: MemoryLimits,
    ids: Seq<i64>,
    keys: Seq<KeyView>,
    key: KeyView,
    now: int,
)
    requires
        within_limits(state.rows, limits),
    ensures
        within_limits(pruned(state, now).rows, limits),
        within_limits(read_outcome(state, namespace, ids, keys, now).0.rows, limits),
        match delete_outcome(state, namespace, key) {
            Ok(after) => within_limits(after.rows, limits),
            Err(_) => true,
        },
        within_limits(scan_recorded(state.rows, keys, now), limits),
{
    lemma_filter_within(state.rows, |row: RowView| !expired(row, now), limits);
    lemma_filter_within(state.rows, |row: RowView| !at(row, namespace, key.id), limits);
    let rows = pruned(state, now).rows;
    let asked = references(namespace, ids, keys);
    lemma_same_within(rows, used_rows(rows, asked, now), limits);
    law_scan_only_counts(state.rows, keys, now);
    let scanned = scan_recorded(state.rows, keys, now);
    assert forall|i: int| 0 <= i < scanned.len() implies (#[trigger] scanned[i]).namespace
        == state.rows[i].namespace && scanned[i].content == state.rows[i].content by {
        assert(scanned[i] == (RowView {
            last_scanned_at_ms: scanned[i].last_scanned_at_ms,
            scan_count: scanned[i].scan_count,
            ..state.rows[i]
        }));
    }
    lemma_same_within(state.rows, scanned, limits);
}

} // verus!
