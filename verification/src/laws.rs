//! Laws of the memory store: what holds across operations, for every database.

use vstd::prelude::*;

use crate::mutations::{
    clamped, content_fault, delete_outcome, new_row, next_row, pruned, put_outcome,
};
use crate::protocol::{KeyView, MemoryError, MemoryLimits, RecordView};
use crate::queries::{
    key_references, listed, names, read_outcome, read_record, read_records, references,
    scan_recorded, used_row, used_rows, wanted_by, ReferenceView,
};
use crate::rows::{
    at, expired, holds, identities_differ, identity_taken, insert_row, lemma_filter_members,
    lemma_filter_valid, lemma_insert_sorted, lemma_insert_valid, lemma_lookup, lemma_lookup_index,
    lemma_max_id, lemma_replace_at, lemma_replace_valid, lemma_sorted_unique, lookup, rank,
    record_of, records_of, replace_row, row_before, sorted, unexpired, valid_row, valid_state,
    RowView, StoreView,
};
use crate::table::{fresh_id, with_namespace};
use crate::text::identity_of;

verus! {

/// Looking a memory up among filtered rows finds it exactly where the filter keeps it.
pub proof fn lemma_filter_lookup(
    rows: Seq<RowView>,
    pred: spec_fn(RowView) -> bool,
    namespace: Seq<char>,
    id: int,
)
    requires
        sorted(rows),
        sorted(rows.filter(pred)),
    ensures
        lookup(rows.filter(pred), namespace, id) == match lookup(rows, namespace, id) {
            Some(row) => if pred(row) {
                Some(row)
            } else {
                None
            },
            None => None,
        },
{
    let kept = rows.filter(pred);
    lemma_filter_members(rows, pred);
    if holds(kept, namespace, id) {
        let i = lemma_lookup_index(kept, namespace, id);
        assert(rows.contains(kept[i]));
        let j = choose|j: int| 0 <= j < rows.len() && rows[j] == kept[i];
        lemma_lookup(rows, j);
    }
    if holds(rows, namespace, id) {
        let j = lemma_lookup_index(rows, namespace, id);
        if pred(rows[j]) {
            assert(kept.contains(rows[j]));
            let i = choose|i: int| 0 <= i < kept.len() && kept[i] == rows[j];
            lemma_lookup(kept, i);
        }
    }
}

/// Pruning keeps the invariant, and a memory can be found afterwards exactly where it has not
/// expired.
pub proof fn law_pruning(state: StoreView, now: int, namespace: Seq<char>, id: int)
    requires
        valid_state(state),
    ensures
        valid_state(pruned(state, now)),
        lookup(pruned(state, now).rows, namespace, id) == match lookup(state.rows, namespace, id) {
            Some(row) => if expired(row, now) {
                None
            } else {
                Some(row)
            },
            None => None,
        },
{
    let keep = |row: RowView| !expired(row, now);
    lemma_filter_valid(state, keep);
    lemma_filter_lookup(state.rows, keep, namespace, id);
}

/// After a memory is added, a lookup of its key finds it, and any other lookup is unaffected.
pub proof fn lemma_insert_lookup(rows: Seq<RowView>, row: RowView, namespace: Seq<char>, id: int)
    requires
        sorted(rows),
        !holds(rows, row.namespace, row.id),
    ensures
        lookup(insert_row(rows, row), namespace, id) == if at(row, namespace, id) {
            Some(row)
        } else {
            lookup(rows, namespace, id)
        },
{
    lemma_insert_sorted(rows, row);
    let after = insert_row(rows, row);
    let k = rank(rows, row);
    assert(after[k] == row);
    if at(row, namespace, id) {
        lemma_lookup(after, k);
    } else {
        if holds(rows, namespace, id) {
            let i = lemma_lookup_index(rows, namespace, id);
            let j = if i < k { i } else { i + 1 };
            assert(after[j] == rows[i]);
            lemma_lookup(after, j);
        }
        if holds(after, namespace, id) {
            let j = lemma_lookup_index(after, namespace, id);
            let i = if j < k { j } else { j - 1 };
            assert(rows[i] == after[j]);
        }
    }
}

/// After a memory is replaced, a lookup of its key finds the new row, and any other lookup is
/// unaffected.
pub proof fn lemma_replace_lookup(rows: Seq<RowView>, row: RowView, namespace: Seq<char>, id: int)
    requires
        sorted(rows),
        holds(rows, row.namespace, row.id),
    ensures
        lookup(replace_row(rows, row), namespace, id) == if at(row, namespace, id) {
            Some(row)
        } else {
            lookup(rows, namespace, id)
        },
{
    let k = lemma_lookup_index(rows, row.namespace, row.id);
    lemma_replace_at(rows, k, row);
    let after = replace_row(rows, row);
    if at(row, namespace, id) {
        lemma_lookup(after, k);
    } else {
        if holds(rows, namespace, id) {
            let i = lemma_lookup_index(rows, namespace, id);
            assert(after[i] == rows[i]);
            lemma_lookup(after, i);
        }
        if holds(after, namespace, id) {
            let i = lemma_lookup_index(after, namespace, id);
            assert(rows[i] == after[i]);
        }
    }
}

/// A memory that was just stored.
pub open spec fn stored_row(
    state: StoreView,
    namespace: Seq<char>,
    limits: MemoryLimits,
    content: Seq<char>,
    replacement: Option<KeyView>,
    now: int,
) -> RowView {
    let before = pruned(state, now);
    match replacement {
        Some(key) => next_row(lookup(before.rows, namespace, key.id)->0, content, limits, now),
        None => new_row(
            namespace,
            fresh_id(
                StoreView { next_ids: with_namespace(before.next_ids, namespace), ..before },
                namespace,
            ),
            content,
            limits,
            now,
        ),
    }
}

/// Storing a memory keeps the invariant. The record returned is what the database then holds
/// under its key, and no other memory changes but for those that expire.
pub proof fn law_put_stores(
    state: StoreView,
    namespace: Seq<char>,
    limits: MemoryLimits,
    content: Seq<char>,
    replacement: Option<KeyView>,
    now: int,
    after: StoreView,
    record: RecordView,
)
    requires
        valid_state(state),
        put_outcome(state, namespace, limits, content, replacement, now) == Ok::<
            (StoreView, RecordView),
            MemoryError,
        >((after, record)),
    ensures
        valid_state(after),
        record == record_of(stored_row(state, namespace, limits, content, replacement, now)),
        record.content == content,
        record.key.namespace == Some(namespace),
        forall|other: Seq<char>, id: int| #[trigger]
            lookup(after.rows, other, id) == if other == namespace && id == record.key.id {
                Some(stored_row(state, namespace, limits, content, replacement, now))
            } else {
                lookup(pruned(state, now).rows, other, id)
            },
{
    let before = pruned(state, now);
    law_pruning(state, now, namespace, 0);
    let row = stored_row(state, namespace, limits, content, replacement, now);
    match replacement {
        Some(key) => {
            let k = lemma_lookup_index(before.rows, namespace, key.id);
            assert(valid_row(before.rows[k]));
            lemma_replace_valid(before, row);
            assert forall|other: Seq<char>, id: int| #[trigger]
                lookup(after.rows, other, id) == if other == namespace && id == record.key.id {
                    Some(row)
                } else {
                    lookup(before.rows, other, id)
                } by {
                lemma_replace_lookup(before.rows, row, other, id);
            }
        },
        None => {
            lemma_max_id(before.rows, namespace);
            let known = StoreView {
                next_ids: with_namespace(before.next_ids, namespace),
                ..before
            };
            assert(valid_state(known));
            assert(!holds(before.rows, namespace, row.id));
            lemma_insert_valid(known, row);
            assert(after.next_ids.dom() =~= known.next_ids.dom());
            assert forall|other: Seq<char>, id: int| #[trigger]
                lookup(after.rows, other, id) == if other == namespace && id == record.key.id {
                    Some(row)
                } else {
                    lookup(before.rows, other, id)
                } by {
                lemma_insert_lookup(before.rows, row, other, id);
            }
        },
    }
}

/// A read of one memory of the reader's own namespace gives that memory if it is visible, and
/// nothing otherwise.
pub proof fn law_read_one(state: StoreView, namespace: Seq<char>, id: i64, now: int)
    requires
        valid_state(state),
    ensures
        read_outcome(state, namespace, seq![id], Seq::empty(), now).1 == match lookup(
            state.rows,
            namespace,
            id as int,
        ) {
            Some(row) => if expired(row, now) {
                Seq::empty()
            } else {
                seq![read_record(row, now)]
            },
            None => Seq::empty(),
        },
{
    let ids = seq![id];
    let keys = Seq::<KeyView>::empty();
    let reference = ReferenceView { namespace, id: id as int, version: None };
    reveal_with_fuel(references, 2);
    assert(ids.drop_last() =~= Seq::<i64>::empty());
    assert(references(namespace, ids, keys) =~= seq![reference]);
    law_pruning(state, now, namespace, id as int);
    let rows = pruned(state, now).rows;
    reveal_with_fuel(read_records, 2);
    assert(seq![reference].drop_last() =~= Seq::<ReferenceView>::empty());
    assert(seq![reference].last() == reference);
    if lookup(rows, namespace, id as int) is Some {
        let row = lookup(rows, namespace, id as int)->0;
        let i = lemma_lookup_index(rows, namespace, id as int);
        assert(Seq::<RecordView>::empty().push(read_record(row, now)) =~= seq![
            read_record(row, now),
        ]);
    }
}

/// A read by key gives a memory of any namespace, if it is visible and has the version named, and
/// nothing otherwise.
pub proof fn law_read_by_key(
    state: StoreView,
    reader: Seq<char>,
    namespace: Seq<char>,
    id: int,
    version: int,
    now: int,
)
    requires
        valid_state(state),
    ensures
        read_outcome(
            state,
            reader,
            Seq::empty(),
            seq![KeyView { id, version, namespace: Some(namespace) }],
            now,
        ).1 == match lookup(state.rows, namespace, id) {
            Some(row) => if expired(row, now) || row.version != version {
                Seq::empty()
            } else {
                seq![read_record(row, now)]
            },
            None => Seq::empty(),
        },
{
    let key = KeyView { id, version, namespace: Some(namespace) };
    let keys = seq![key];
    let reference = ReferenceView { namespace, id, version: Some(version) };
    reveal_with_fuel(key_references, 2);
    assert(keys.drop_last() =~= Seq::<KeyView>::empty());
    assert(keys.last() == key);
    assert(key_references(keys) =~= seq![reference]);
    assert(references(reader, Seq::empty(), keys) =~= seq![reference]);
    law_pruning(state, now, namespace, id);
    let rows = pruned(state, now).rows;
    reveal_with_fuel(read_records, 2);
    assert(seq![reference].drop_last() =~= Seq::<ReferenceView>::empty());
    assert(seq![reference].last() == reference);
    if lookup(rows, namespace, id) is Some {
        let row = lookup(rows, namespace, id)->0;
        let i = lemma_lookup_index(rows, namespace, id);
        assert(Seq::<RecordView>::empty().push(read_record(row, now)) =~= seq![
            read_record(row, now),
        ]);
    }
}

/// A read gives back what a put wrote, until the probation of the memory is over.
pub proof fn law_read_after_put(
    state: StoreView,
    namespace: Seq<char>,
    limits: MemoryLimits,
    content: Seq<char>,
    replacement: Option<KeyView>,
    now: int,
    after: StoreView,
    record: RecordView,
    id: i64,
    read_at: int,
)
    requires
        valid_state(state),
        put_outcome(state, namespace, limits, content, replacement, now) == Ok::<
            (StoreView, RecordView),
            MemoryError,
        >((after, record)),
        id == record.key.id,
        read_at < clamped(now + limits.probation_duration_ms),
    ensures
        read_outcome(after, namespace, seq![id], Seq::empty(), read_at).1 == seq![
            RecordView {
                last_used_at_ms: Some(read_at),
                use_count: 1,
                probation_until_ms: None,
                ..record
            },
        ],
{
    law_put_stores(state, namespace, limits, content, replacement, now, after, record);
    law_read_one(after, namespace, id, read_at);
    let row = stored_row(state, namespace, limits, content, replacement, now);
    assert(lookup(after.rows, namespace, id as int) == Some(row));
}

/// A memory that nobody reads is gone once its probation is over.
pub proof fn law_unread_expires(
    state: StoreView,
    namespace: Seq<char>,
    limits: MemoryLimits,
    content: Seq<char>,
    replacement: Option<KeyView>,
    now: int,
    after: StoreView,
    record: RecordView,
    id: i64,
    read_at: int,
)
    requires
        valid_state(state),
        put_outcome(state, namespace, limits, content, replacement, now) == Ok::<
            (StoreView, RecordView),
            MemoryError,
        >((after, record)),
        id == record.key.id,
        read_at >= clamped(now + limits.probation_duration_ms),
    ensures
        read_outcome(after, namespace, seq![id], Seq::empty(), read_at).1 == Seq::<
            RecordView,
        >::empty(),
{
    law_put_stores(state, namespace, limits, content, replacement, now, after, record);
    law_read_one(after, namespace, id, read_at);
    let row = stored_row(state, namespace, limits, content, replacement, now);
    assert(lookup(after.rows, namespace, id as int) == Some(row));
}

/// A read keeps the invariant and every key. A memory that it gives is never pruned afterwards;
/// any other memory stays as it was, or is pruned if it has expired.
pub proof fn law_read_graduates(
    state: StoreView,
    reader: Seq<char>,
    ids: Seq<i64>,
    keys: Seq<KeyView>,
    now: int,
    namespace: Seq<char>,
    id: int,
    any_time: int,
)
    requires
        valid_state(state),
        references(reader, ids, keys).len() > 0,
    ensures
        valid_state(read_outcome(state, reader, ids, keys, now).0),
        lookup(read_outcome(state, reader, ids, keys, now).0.rows, namespace, id) == match lookup(
            pruned(state, now).rows,
            namespace,
            id,
        ) {
            Some(row) => if wanted_by(row, references(reader, ids, keys)) {
                Some(used_row(row, now))
            } else {
                Some(row)
            },
            None => None,
        },
        match lookup(pruned(state, now).rows, namespace, id) {
            Some(row) => wanted_by(row, references(reader, ids, keys)) ==> lookup(
                pruned(read_outcome(state, reader, ids, keys, now).0, any_time).rows,
                namespace,
                id,
            ) == Some(used_row(row, now)),
            None => true,
        },
{
    let asked = references(reader, ids, keys);
    let before = pruned(state, now);
    law_pruning(state, now, namespace, id);
    let after = read_outcome(state, reader, ids, keys, now).0;
    lemma_used_valid(before, asked, now);
    lemma_used_rows_lookup(before.rows, asked, now, namespace, id);
    law_pruning(after, any_time, namespace, id);
}

/// Marking the memories that a read gives keeps the invariant.
proof fn lemma_used_valid(state: StoreView, asked: Seq<ReferenceView>, now: int)
    requires
        valid_state(state),
    ensures
        valid_state(StoreView { rows: used_rows(state.rows, asked, now), ..state }),
{
    let rows = state.rows;
    let after = used_rows(rows, asked, now);
    assert forall|i: int, j: int| 0 <= i < j < after.len() implies row_before(after[i], after[j])
        && identities_differ(after[i], after[j]) by {
        assert(row_before(rows[i], rows[j]));
        assert(identities_differ(rows[i], rows[j]));
    }
    assert forall|i: int| 0 <= i < after.len() implies valid_row(#[trigger] after[i])
        && state.next_ids.dom().contains(after[i].namespace) by {
        assert(valid_row(rows[i]));
    }
}

/// A lookup after a read finds the memory as the read left it.
proof fn lemma_used_rows_lookup(
    rows: Seq<RowView>,
    asked: Seq<ReferenceView>,
    now: int,
    namespace: Seq<char>,
    id: int,
)
    requires
        sorted(rows),
        sorted(used_rows(rows, asked, now)),
    ensures
        lookup(used_rows(rows, asked, now), namespace, id) == match lookup(rows, namespace, id) {
            Some(row) => if wanted_by(row, asked) {
                Some(used_row(row, now))
            } else {
                Some(row)
            },
            None => None,
        },
{
    let after = used_rows(rows, asked, now);
    if holds(rows, namespace, id) {
        let i = lemma_lookup_index(rows, namespace, id);
        assert(at(after[i], namespace, id));
        lemma_lookup(after, i);
    }
    if holds(after, namespace, id) {
        let i = lemma_lookup_index(after, namespace, id);
        assert(at(rows[i], namespace, id));
    }
}

/// A replacement raises the version by one and keeps the identifier and the time of creation. The
/// key that it was made with is stale from then on: as long as the new version is visible, a put
/// of any acceptable content with that key conflicts, and so does a delete.
pub proof fn law_compare_and_swap(
    state: StoreView,
    namespace: Seq<char>,
    limits: MemoryLimits,
    content: Seq<char>,
    key: KeyView,
    now: int,
    after: StoreView,
    record: RecordView,
    next_content: Seq<char>,
    next_time: int,
)
    requires
        valid_state(state),
        put_outcome(state, namespace, limits, content, Some(key), now) == Ok::<
            (StoreView, RecordView),
            MemoryError,
        >((after, record)),
        content_fault(next_content, limits) is None,
        identity_of(next_content).len() > 0,
    ensures
        record.key.id == key.id,
        record.key.version == key.version + 1,
        delete_outcome(after, namespace, key) == Err::<StoreView, MemoryError>(
            MemoryError::Conflict,
        ),
        next_time < clamped(now + limits.probation_duration_ms) ==> put_outcome(
            after,
            namespace,
            limits,
            next_content,
            Some(key),
            next_time,
        ) == Err::<(StoreView, RecordView), MemoryError>(MemoryError::Conflict),
{
    law_put_stores(state, namespace, limits, content, Some(key), now, after, record);
    let row = stored_row(state, namespace, limits, content, Some(key), now);
    let k = lemma_lookup_index(pruned(state, now).rows, namespace, key.id);
    assert(lookup(after.rows, namespace, key.id) == Some(row));
    law_pruning(after, next_time, namespace, key.id);
}

/// A mutation that names any version but the current one conflicts.
pub proof fn law_stale_version_conflicts(
    state: StoreView,
    namespace: Seq<char>,
    limits: MemoryLimits,
    content: Seq<char>,
    key: KeyView,
    now: int,
    row: RowView,
)
    requires
        valid_state(state),
        key.namespace == Some(namespace),
        lookup(state.rows, namespace, key.id) == Some(row),
        row.version != key.version,
    ensures
        delete_outcome(state, namespace, key) == Err::<StoreView, MemoryError>(
            MemoryError::Conflict,
        ),
        !expired(row, now) && content_fault(content, limits) is None && identity_of(content).len()
            > 0 ==> put_outcome(state, namespace, limits, content, Some(key), now) == Err::<
            (StoreView, RecordView),
            MemoryError,
        >(MemoryError::Conflict),
{
    law_pruning(state, now, namespace, key.id);
}

/// Content that a visible memory of the namespace already has, up to letter case and spacing, is
/// refused as a duplicate.
pub proof fn law_duplicate_refused(
    state: StoreView,
    namespace: Seq<char>,
    limits: MemoryLimits,
    content: Seq<char>,
    now: int,
    row: RowView,
)
    requires
        valid_state(state),
        lookup(state.rows, namespace, row.id) == Some(row),
        !expired(row, now),
        row.identity == identity_of(content),
        content_fault(content, limits) is None,
        identity_of(content).len() > 0,
    ensures
        put_outcome(state, namespace, limits, content, None, now) == Err::<
            (StoreView, RecordView),
            MemoryError,
        >(MemoryError::Duplicate),
{
    law_pruning(state, now, namespace, row.id);
    let i = lemma_lookup_index(pruned(state, now).rows, namespace, row.id);
    assert(identity_taken(pruned(state, now).rows, namespace, identity_of(content), None));
}

/// Content equivalent to that of a memory that was just stored is refused as a duplicate, until
/// the probation of that memory is over.
pub proof fn law_second_put_is_duplicate(
    state: StoreView,
    namespace: Seq<char>,
    limits: MemoryLimits,
    content: Seq<char>,
    replacement: Option<KeyView>,
    now: int,
    after: StoreView,
    record: RecordView,
    equivalent: Seq<char>,
    next_time: int,
)
    requires
        valid_state(state),
        put_outcome(state, namespace, limits, content, replacement, now) == Ok::<
            (StoreView, RecordView),
            MemoryError,
        >((after, record)),
        identity_of(equivalent) == identity_of(content),
        content_fault(equivalent, limits) is None,
        next_time < clamped(now + limits.probation_duration_ms),
    ensures
        put_outcome(after, namespace, limits, equivalent, None, next_time) == Err::<
            (StoreView, RecordView),
            MemoryError,
        >(MemoryError::Duplicate),
{
    law_put_stores(state, namespace, limits, content, replacement, now, after, record);
    let row = stored_row(state, namespace, limits, content, replacement, now);
    assert(lookup(after.rows, namespace, record.key.id) == Some(row));
    law_duplicate_refused(after, namespace, limits, equivalent, next_time, row);
}

/// A delete keeps the invariant. The memory cannot be found afterwards, every other memory stays
/// as it was, and the same delete again succeeds and changes nothing.
pub proof fn law_delete(
    state: StoreView,
    namespace: Seq<char>,
    key: KeyView,
    after: StoreView,
    other: Seq<char>,
    id: int,
)
    requires
        valid_state(state),
        delete_outcome(state, namespace, key) == Ok::<StoreView, MemoryError>(after),
    ensures
        valid_state(after),
        lookup(after.rows, namespace, key.id) is None,
        !(other == namespace && id == key.id) ==> lookup(after.rows, other, id) == lookup(
            state.rows,
            other,
            id,
        ),
        after.next_ids == state.next_ids,
        delete_outcome(after, namespace, key) == Ok::<StoreView, MemoryError>(after),
{
    let keep = |row: RowView| !at(row, namespace, key.id);
    lemma_filter_valid(state, keep);
    if lookup(state.rows, namespace, key.id) is Some {
        lemma_filter_lookup(state.rows, keep, namespace, key.id);
        lemma_filter_lookup(state.rows, keep, other, id);
        let i = lemma_lookup_index(state.rows, namespace, key.id);
        if lookup(state.rows, other, id) is Some {
            let j = lemma_lookup_index(state.rows, other, id);
        }
    }
}

/// A read after a delete gives nothing.
pub proof fn law_read_after_delete(
    state: StoreView,
    namespace: Seq<char>,
    key: KeyView,
    after: StoreView,
    id: i64,
    now: int,
)
    requires
        valid_state(state),
        delete_outcome(state, namespace, key) == Ok::<StoreView, MemoryError>(after),
        id == key.id,
    ensures
        read_outcome(after, namespace, seq![id], Seq::empty(), now).1 == Seq::<RecordView>::empty(),
{
    law_delete(state, namespace, key, after, namespace, key.id);
    law_read_one(after, namespace, id, now);
}

/// A memory of another namespace, or of none, cannot be replaced or deleted.
pub proof fn law_foreign_memories_are_read_only(
    state: StoreView,
    namespace: Seq<char>,
    limits: MemoryLimits,
    content: Seq<char>,
    key: KeyView,
    now: int,
)
    requires
        key.namespace != Some(namespace),
        content_fault(content, limits) is None,
        identity_of(content).len() > 0,
    ensures
        put_outcome(state, namespace, limits, content, Some(key), now) == Err::<
            (StoreView, RecordView),
            MemoryError,
        >(MemoryError::RemoteReadOnly),
        delete_outcome(state, namespace, key) == Err::<StoreView, MemoryError>(
            MemoryError::RemoteReadOnly,
        ),
{
}

/// A put does not touch the memories of other namespaces, but for those that expire, nor their
/// unused identifiers.
pub proof fn law_put_is_isolated(
    state: StoreView,
    namespace: Seq<char>,
    limits: MemoryLimits,
    content: Seq<char>,
    replacement: Option<KeyView>,
    now: int,
    after: StoreView,
    record: RecordView,
    other: Seq<char>,
    id: int,
)
    requires
        valid_state(state),
        put_outcome(state, namespace, limits, content, replacement, now) == Ok::<
            (StoreView, RecordView),
            MemoryError,
        >((after, record)),
        other != namespace,
    ensures
        lookup(after.rows, other, id) == match lookup(state.rows, other, id) {
            Some(row) => if expired(row, now) {
                None
            } else {
                Some(row)
            },
            None => None,
        },
        after.next_ids.dom().contains(other) == state.next_ids.dom().contains(other),
        after.next_ids[other] == state.next_ids[other],
{
    law_put_stores(state, namespace, limits, content, replacement, now, after, record);
    law_pruning(state, now, other, id);
}

/// Whether every identifier in use is below the smallest unused one of its namespace.
pub open spec fn ids_reserved(state: StoreView) -> bool {
    forall|i: int|
        0 <= i < state.rows.len() ==> (#[trigger] state.rows[i]).id
            < state.next_ids[state.rows[i].namespace]
}

/// Filtering keeps identifiers reserved.
pub proof fn lemma_filter_reserved(state: StoreView, pred: spec_fn(RowView) -> bool)
    requires
        ids_reserved(state),
    ensures
        ids_reserved(StoreView { rows: state.rows.filter(pred), ..state }),
{
    lemma_filter_members(state.rows, pred);
}

/// A new memory gets an identifier that its namespace never used, which is reserved from then on.
/// No put lowers the smallest unused identifier of a namespace.
pub proof fn law_put_reserves_ids(
    state: StoreView,
    namespace: Seq<char>,
    limits: MemoryLimits,
    content: Seq<char>,
    replacement: Option<KeyView>,
    now: int,
    after: StoreView,
    record: RecordView,
)
    requires
        valid_state(state),
        ids_reserved(state),
        put_outcome(state, namespace, limits, content, replacement, now) == Ok::<
            (StoreView, RecordView),
            MemoryError,
        >((after, record)),
    ensures
        ids_reserved(after),
        record.key.id < after.next_ids[namespace],
        replacement is None && state.next_ids.dom().contains(namespace)
            ==> state.next_ids[namespace] <= record.key.id,
        forall|other: Seq<char>| #[trigger]
            state.next_ids.dom().contains(other) ==> after.next_ids.dom().contains(other)
                && state.next_ids[other] <= after.next_ids[other],
{
    let before = pruned(state, now);
    law_pruning(state, now, namespace, 0);
    lemma_filter_reserved(state, |row: RowView| !expired(row, now));
    let row = stored_row(state, namespace, limits, content, replacement, now);
    match replacement {
        Some(key) => {
            let k = lemma_lookup_index(before.rows, namespace, key.id);
            lemma_replace_at(before.rows, k, row);
            assert forall|i: int| 0 <= i < after.rows.len() implies (#[trigger] after.rows[i]).id
                < after.next_ids[after.rows[i].namespace] by {
                assert(before.rows[i].id < before.next_ids[before.rows[i].namespace]);
            }
        },
        None => {
            lemma_max_id(before.rows, namespace);
            assert(!holds(before.rows, namespace, row.id));
            lemma_insert_sorted(before.rows, row);
            let place = rank(before.rows, row);
            assert forall|i: int| 0 <= i < after.rows.len() implies (#[trigger] after.rows[i]).id
                < after.next_ids[after.rows[i].namespace] by {
                if i != place {
                    let j = if i < place { i } else { i - 1 };
                    assert(after.rows[i] == before.rows[j]);
                    assert(valid_row(before.rows[j]));
                }
            }
        },
    }
}

/// An identifier that was once in use is never given to a new memory: not as long as no smallest
/// unused identifier is lowered, and no operation lowers one.
pub proof fn law_ids_are_not_reused(
    earlier: StoreView,
    used: RowView,
    state: StoreView,
    limits: MemoryLimits,
    content: Seq<char>,
    now: int,
    after: StoreView,
    record: RecordView,
)
    requires
        ids_reserved(earlier),
        earlier.rows.contains(used),
        state.next_ids.dom().contains(used.namespace),
        earlier.next_ids[used.namespace] <= state.next_ids[used.namespace],
        put_outcome(state, used.namespace, limits, content, None, now) == Ok::<
            (StoreView, RecordView),
            MemoryError,
        >((after, record)),
    ensures
        record.key.id > used.id,
{
    let i = choose|i: int| 0 <= i < earlier.rows.len() && earlier.rows[i] == used;
    assert(earlier.rows[i].id < earlier.next_ids[used.namespace]);
}

/// Reads, deletes and scans keep the identifiers in use reserved, and leave the unused ones as they
/// are.
pub proof fn law_ids_stay_reserved(
    state: StoreView,
    namespace: Seq<char>,
    ids: Seq<i64>,
    keys: Seq<KeyView>,
    key: KeyView,
    now: int,
)
    requires
        valid_state(state),
        ids_reserved(state),
    ensures
        ids_reserved(pruned(state, now)),
        ids_reserved(read_outcome(state, namespace, ids, keys, now).0),
        read_outcome(state, namespace, ids, keys, now).0.next_ids == state.next_ids,
        match delete_outcome(state, namespace, key) {
            Ok(after) => ids_reserved(after) && after.next_ids == state.next_ids,
            Err(_) => true,
        },
        ids_reserved(StoreView { rows: scan_recorded(state.rows, keys, now), ..state }),
{
    lemma_filter_reserved(state, |row: RowView| !expired(row, now));
    lemma_filter_reserved(state, |row: RowView| !at(row, namespace, key.id));
    let rows = pruned(state, now).rows;
    let after = read_outcome(state, namespace, ids, keys, now).0;
    if references(namespace, ids, keys).len() > 0 {
        assert forall|i: int| 0 <= i < after.rows.len() implies (#[trigger] after.rows[i]).id
            < after.next_ids[after.rows[i].namespace] by {
            assert(rows[i].id < state.next_ids[rows[i].namespace]);
        }
    }
    let scanned = scan_recorded(state.rows, keys, now);
    law_scan_only_counts(state.rows, keys, now);
    assert forall|i: int| 0 <= i < scanned.len() implies (#[trigger] scanned[i]).id
        < state.next_ids[scanned[i].namespace] by {
        assert(state.rows[i].id < state.next_ids[state.rows[i].namespace]);
    }
}

/// Recording a scan changes nothing of a memory but when it was last scanned and how often. So a
/// scan neither prolongs nor ends the probation of a memory.
pub proof fn law_scan_only_counts(rows: Seq<RowView>, keys: Seq<KeyView>, now: int)
    ensures
        scan_recorded(rows, keys, now).len() == rows.len(),
        forall|i: int|
            0 <= i < rows.len() ==> (#[trigger] scan_recorded(rows, keys, now)[i]) == (RowView {
                last_scanned_at_ms: scan_recorded(rows, keys, now)[i].last_scanned_at_ms,
                scan_count: scan_recorded(rows, keys, now)[i].scan_count,
                ..rows[i]
            }),
        forall|i: int, time: int|
            0 <= i < rows.len() ==> expired(#[trigger] scan_recorded(rows, keys, now)[i], time)
                == #[trigger] expired(rows[i], time),
    decreases keys.len(),
{
    if keys.len() > 0 {
        law_scan_only_counts(rows, keys.drop_last(), now);
    }
}

/// A scan that shows a visible memory once counts it once, and notes the time.
pub proof fn law_scan_counts_what_it_shows(rows: Seq<RowView>, i: int, now: int)
    requires
        0 <= i < rows.len(),
        rows[i].scan_count < i64::MAX,
    ensures
        scan_recorded(rows, seq![record_of(rows[i]).key], now)[i] == (RowView {
            last_scanned_at_ms: Some(now),
            scan_count: rows[i].scan_count + 1,
            ..rows[i]
        }),
{
    let key = record_of(rows[i]).key;
    let keys = seq![key];
    reveal_with_fuel(scan_recorded, 2);
    assert(keys.drop_last() =~= Seq::<KeyView>::empty());
    assert(keys.last() == key);
    assert(names(key, rows[i]));
}

/// Content is refused as a duplicate only where a visible memory of the same namespace has it; what
/// other namespaces hold does not matter.
pub proof fn law_duplicates_are_per_namespace(
    state: StoreView,
    namespace: Seq<char>,
    limits: MemoryLimits,
    content: Seq<char>,
    now: int,
)
    requires
        valid_state(state),
        put_outcome(state, namespace, limits, content, None, now) == Err::<
            (StoreView, RecordView),
            MemoryError,
        >(MemoryError::Duplicate),
    ensures
        exists|i: int|
            0 <= i < state.rows.len() && (#[trigger] state.rows[i]).namespace == namespace
                && state.rows[i].identity == identity_of(content) && !expired(state.rows[i], now),
{
    let keep = |row: RowView| !expired(row, now);
    let kept = pruned(state, now).rows;
    lemma_filter_members(state.rows, keep);
    let k = choose|k: int|
        0 <= k < kept.len() && (#[trigger] kept[k]).namespace == namespace && kept[k].identity
            == identity_of(content);
    assert(keep(kept[k]));
    assert(state.rows.contains(kept[k]));
    let i = choose|i: int| 0 <= i < state.rows.len() && state.rows[i] == kept[k];
    assert(state.rows[i].namespace == namespace);
}

/// A list shows visible memories only, in the order of their keys, at most as many as the limit,
/// and all of them where they are not more.
pub proof fn law_list_is_a_window(state: StoreView, limits: MemoryLimits, now: int)
    requires
        valid_state(state),
    ensures
        listed(state, limits, now).len() <= limits.records,
        unexpired(state.rows, now).len() <= limits.records ==> listed(state, limits, now)
            == records_of(unexpired(state.rows, now)),
        forall|i: int|
            0 <= i < listed(state, limits, now).len() ==> #[trigger] listed(state, limits, now)[i]
                == record_of(unexpired(state.rows, now)[i]) && !expired(
                unexpired(state.rows, now)[i],
                now,
            ),
        sorted(unexpired(state.rows, now)),
{
    let keep = |row: RowView| !expired(row, now);
    lemma_filter_valid(state, keep);
    lemma_filter_members(state.rows, keep);
    let kept = unexpired(state.rows, now);
    assert forall|i: int| 0 <= i < listed(state, limits, now).len() implies #[trigger] listed(
        state,
        limits,
        now,
    )[i] == record_of(kept[i]) && !expired(kept[i], now) by {
        assert(keep(state.rows.filter(keep)[i]));
    }
}

/// Deleting a memory that was just added leaves the memories that were there, but for those that
/// expired; only the identifier stays used.
pub proof fn law_delete_undoes_put(
    state: StoreView,
    namespace: Seq<char>,
    limits: MemoryLimits,
    content: Seq<char>,
    now: int,
    after: StoreView,
    record: RecordView,
)
    requires
        valid_state(state),
        put_outcome(state, namespace, limits, content, None, now) == Ok::<
            (StoreView, RecordView),
            MemoryError,
        >((after, record)),
    ensures
        delete_outcome(after, namespace, record.key) == Ok::<StoreView, MemoryError>(
            StoreView {
                rows: pruned(state, now).rows,
                next_ids: with_namespace(state.next_ids, namespace).insert(
                    namespace,
                    record.key.id + 1,
                ),
            },
        ),
{
    let before = pruned(state, now);
    law_pruning(state, now, namespace, record.key.id);
    law_put_stores(state, namespace, limits, content, None, now, after, record);
    let row = stored_row(state, namespace, limits, content, None, now);
    assert(lookup(after.rows, namespace, record.key.id) == Some(row));
    let left = delete_outcome(after, namespace, record.key)->Ok_0;
    lemma_max_id(before.rows, namespace);
    assert forall|other: Seq<char>, id: int| #[trigger]
        lookup(left.rows, other, id) == lookup(before.rows, other, id) by {
        law_delete(after, namespace, record.key, left, other, id);
        if other == namespace && id == record.key.id {
            if holds(before.rows, namespace, id) {
                let i = lemma_lookup_index(before.rows, namespace, id);
            }
        } else {
            assert(lookup(after.rows, other, id) == lookup(before.rows, other, id));
        }
    }
    law_delete(after, namespace, record.key, left, namespace, record.key.id);
    lemma_sorted_unique(left.rows, before.rows);
}

} // verus!
