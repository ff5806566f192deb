//! Laws of single puts and deletes: when they succeed, and what they change.

use vstd::prelude::*;
use vstd::utf8::encode_utf8;

use crate::laws::law_pruning;
use crate::mutations::{delete_outcome, new_row, next_row, pruned, put_outcome};
use crate::protocol::{KeyView, MemoryError, MemoryLimits, RecordView};
use crate::rows::{
    at, content_total, expired, holds, identity_taken, insert_row, lemma_filter_members,
    lemma_filter_push, lemma_insert_sorted, lemma_lookup, lemma_lookup_index, lemma_max_id,
    lemma_replace_at, lookup, max_id, rank, record_count, record_of, unexpired, valid_state,
    RowView, StoreView,
};
use crate::table::{fresh_id, with_namespace};
use crate::terms::{bytes_of, contents_of, shows, visible, visible_in, within_i64};
use crate::text::{identity_of, is_space};

verus! {

/// Appending a content adds its bytes.
pub proof fn lemma_bytes_push(contents: Seq<Seq<char>>, content: Seq<char>)
    ensures
        bytes_of(contents.push(content)) == bytes_of(contents) + encode_utf8(content).len(),
{
    assert(contents.push(content).drop_last() =~= contents);
    reveal_with_fuel(Seq::fold_left, 2);
}

/// What the store counts of a namespace is what can be seen in it.
pub proof fn lemma_counts(rows: Seq<RowView>, namespace: Seq<char>, now: int)
    ensures
        record_count(unexpired(rows, now), namespace) == visible_in(rows, namespace, now).len(),
        content_total(unexpired(rows, now), namespace) == bytes_of(
            contents_of(visible_in(rows, namespace, now)),
        ),
    decreases rows.len(),
{
    let keep = |row: RowView| !expired(row, now);
    let mine = |row: RowView| row.namespace == namespace && visible(row, now);
    reveal(Seq::filter);
    if rows.len() > 0 {
        let rest = rows.drop_last();
        let row = rows.last();
        lemma_counts(rest, namespace, now);
        let before = unexpired(rest, now);
        let seen = visible_in(rest, namespace, now);
        assert(rows =~= rest.push(row));
        lemma_filter_push(rest, row, keep);
        lemma_filter_push(rest, row, mine);
        if keep(row) {
            assert(before.push(row).drop_last() =~= before);
        }
        if mine(row) {
            assert(contents_of(seen.push(row)) =~= contents_of(seen).push(row.content));
            lemma_bytes_push(contents_of(seen), row.content);
        }
    } else {
        assert(contents_of(visible_in(rows, namespace, now)) =~= Seq::empty());
    }
}

/// Pruning keeps exactly the memories that can be seen.
pub proof fn lemma_unexpired_members(rows: Seq<RowView>, now: int)
    ensures
        forall|row: RowView| #[trigger]
            unexpired(rows, now).contains(row) <==> rows.contains(row) && visible(row, now),
{
    let keep = |row: RowView| !expired(row, now);
    lemma_filter_members(rows, keep);
    let kept = unexpired(rows, now);
    assert forall|row: RowView| #[trigger] kept.contains(row) implies rows.contains(row)
        && visible(row, now) by {
        let i = choose|i: int| 0 <= i < kept.len() && kept[i] == row;
        assert(keep(rows.filter(keep)[i]));
    }
    assert forall|row: RowView| rows.contains(row) && visible(row, now) implies #[trigger]
        kept.contains(row) by {
        let i = choose|i: int| 0 <= i < rows.len() && rows[i] == row;
        assert(keep(rows[i]));
    }
}

/// Whether a memory that can be seen has the content's identity in the namespace.
proof fn lemma_taken(
    rows: Seq<RowView>,
    namespace: Seq<char>,
    identity: Seq<char>,
    excluded: Option<int>,
    now: int,
)
    ensures
        identity_taken(unexpired(rows, now), namespace, identity, excluded) <==> exists|i: int|
            0 <= i < rows.len() && (#[trigger] rows[i]).namespace == namespace
                && rows[i].identity == identity && excluded != Some(rows[i].id) && visible(
                rows[i],
                now,
            ),
{
    let kept = unexpired(rows, now);
    lemma_unexpired_members(rows, now);
    if identity_taken(kept, namespace, identity, excluded) {
        let k = choose|k: int|
            0 <= k < kept.len() && (#[trigger] kept[k]).namespace == namespace && kept[k].identity
                == identity && excluded != Some(kept[k].id);
        assert(kept.contains(kept[k]));
        let i = choose|i: int| 0 <= i < rows.len() && rows[i] == kept[k];
        assert(rows[i].namespace == namespace);
    }
    if exists|i: int|
        0 <= i < rows.len() && (#[trigger] rows[i]).namespace == namespace && rows[i].identity
            == identity && excluded != Some(rows[i].id) && visible(rows[i], now) {
        let i = choose|i: int|
            0 <= i < rows.len() && (#[trigger] rows[i]).namespace == namespace && rows[i].identity
                == identity && excluded != Some(rows[i].id) && visible(rows[i], now);
        assert(rows.contains(rows[i]));
        assert(kept.contains(rows[i]));
        let k = choose|k: int| 0 <= k < kept.len() && kept[k] == rows[i];
        assert(kept[k].namespace == namespace);
    }
}

/// Adding a row adds it and nothing else.
pub proof fn lemma_insert_members(rows: Seq<RowView>, row: RowView)
    requires
        0 <= rank(rows, row) <= rows.len(),
    ensures
        forall|other: RowView| #[trigger]
            insert_row(rows, row).contains(other) <==> rows.contains(other) || other == row,
{
    let k = rank(rows, row);
    let after = insert_row(rows, row);
    assert forall|other: RowView| #[trigger] after.contains(other) <==> rows.contains(other)
        || other == row by {
        if after.contains(other) && other != row {
            let j = choose|j: int| 0 <= j < after.len() && after[j] == other;
            let i = if j < k { j } else { j - 1 };
            assert(rows[i] == other);
        }
        if rows.contains(other) {
            let i = choose|i: int| 0 <= i < rows.len() && rows[i] == other;
            let j = if i < k { i } else { i + 1 };
            assert(after[j] == other);
        }
        if other == row {
            assert(after[k] == other);
        }
    }
}

/// A put of a content that is blank, too large, or without an identity is refused; every other
/// refusal has a reason in the database.
pub proof fn law_put_refuses_content(
    state: StoreView,
    namespace: Seq<char>,
    limits: MemoryLimits,
    content: Seq<char>,
    replacement: Option<KeyView>,
    now: int,
)
    ensures
        (forall|i: int| 0 <= i < content.len() ==> is_space(#[trigger] content[i])) ==> put_outcome(
            state,
            namespace,
            limits,
            content,
            replacement,
            now,
        ) == Err::<(StoreView, RecordView), MemoryError>(MemoryError::EmptyContent),
        !(forall|i: int| 0 <= i < content.len() ==> is_space(#[trigger] content[i]))
            && encode_utf8(content).len() > limits.content_bytes ==> put_outcome(
            state,
            namespace,
            limits,
            content,
            replacement,
            now,
        ) == Err::<(StoreView, RecordView), MemoryError>(
            MemoryError::ContentTooLarge { maximum_bytes: limits.content_bytes },
        ),
        !(forall|i: int| 0 <= i < content.len() ==> is_space(#[trigger] content[i]))
            && encode_utf8(content).len() <= limits.content_bytes && identity_of(content).len()
            == 0 ==> put_outcome(state, namespace, limits, content, replacement, now) == Err::<
            (StoreView, RecordView),
            MemoryError,
        >(MemoryError::EmptyContent),
{
}

/// A new memory is stored exactly where its content can be stored, no memory that can be seen in
/// the namespace has its identity, and the namespace has room for one more record, for its bytes,
/// and for its identifier. A refusal names the first of these that fails.
pub proof fn law_insert_succeeds(
    state: StoreView,
    namespace: Seq<char>,
    limits: MemoryLimits,
    content: Seq<char>,
    now: int,
)
    requires
        valid_state(state),
        limits.total_content_bytes < u64::MAX,
        exists|i: int| 0 <= i < content.len() && !is_space(#[trigger] content[i]),
        encode_utf8(content).len() <= limits.content_bytes,
        identity_of(content).len() > 0,
    ensures
        ({
            let outcome = put_outcome(state, namespace, limits, content, None, now);
            let duplicate = exists|i: int|
                0 <= i < state.rows.len() && (#[trigger] state.rows[i]).namespace == namespace
                    && state.rows[i].identity == identity_of(content) && visible(
                    state.rows[i],
                    now,
                );
            let seen = visible_in(state.rows, namespace, now);
            let bytes = bytes_of(contents_of(seen));
            let ids_left = (state.next_ids.dom().contains(namespace)
                ==> state.next_ids[namespace] < i64::MAX) && forall|i: int|
                0 <= i < seen.len() ==> (#[trigger] seen[i]).id < i64::MAX - 1;
            &&& outcome is Ok <==> !duplicate && seen.len() < limits.records && bytes
                + encode_utf8(content).len() <= limits.total_content_bytes && bytes <= i64::MAX
                && ids_left
            &&& duplicate ==> outcome == Err::<(StoreView, RecordView), MemoryError>(
                MemoryError::Duplicate,
            )
            &&& !duplicate && bytes > i64::MAX ==> outcome == Err::<
                (StoreView, RecordView),
                MemoryError,
            >(MemoryError::Backend)
            &&& !duplicate && bytes <= i64::MAX && seen.len() >= limits.records ==> outcome
                == Err::<(StoreView, RecordView), MemoryError>(
                MemoryError::RecordCapacity { maximum: limits.records },
            )
            &&& !duplicate && bytes <= i64::MAX && seen.len() < limits.records && bytes
                + encode_utf8(content).len() > limits.total_content_bytes ==> outcome == Err::<
                (StoreView, RecordView),
                MemoryError,
            >(MemoryError::ContentCapacity { maximum_bytes: limits.total_content_bytes })
            &&& !duplicate && bytes <= i64::MAX && seen.len() < limits.records && bytes
                + encode_utf8(content).len() <= limits.total_content_bytes && !ids_left ==> outcome
                == Err::<(StoreView, RecordView), MemoryError>(MemoryError::StorageCapacity)
        }),
{
    let rows = state.rows;
    let before = pruned(state, now);
    law_pruning(state, now, namespace, 0);
    lemma_counts(rows, namespace, now);
    lemma_taken(rows, namespace, identity_of(content), None, now);
    lemma_ids_left(state, namespace, now);
}

/// Whether an identifier is left, in terms of the identifiers that can be seen.
proof fn lemma_ids_left(state: StoreView, namespace: Seq<char>, now: int)
    requires
        valid_state(state),
    ensures
        ({
            let before = pruned(state, now);
            let known = StoreView {
                next_ids: with_namespace(before.next_ids, namespace),
                ..before
            };
            let seen = visible_in(state.rows, namespace, now);
            fresh_id(known, namespace) < i64::MAX <==> (state.next_ids.dom().contains(namespace)
                ==> state.next_ids[namespace] < i64::MAX) && forall|i: int|
                0 <= i < seen.len() ==> (#[trigger] seen[i]).id < i64::MAX - 1
        }),
{
    let rows = state.rows;
    let kept = unexpired(rows, now);
    let mine = |row: RowView| row.namespace == namespace && visible(row, now);
    let seen = visible_in(rows, namespace, now);
    lemma_unexpired_members(rows, now);
    lemma_filter_members(rows, mine);
    lemma_max_id(kept, namespace);
    lemma_max_id_attained(kept, namespace);
    assert forall|i: int| 0 <= i < seen.len() implies (#[trigger] seen[i]).id <= max_id(
        kept,
        namespace,
    ) by {
        assert(mine(rows.filter(mine)[i]));
        assert(rows.contains(seen[i]));
        assert(kept.contains(seen[i]));
        let k = choose|k: int| 0 <= k < kept.len() && kept[k] == seen[i];
        assert(kept[k].namespace == namespace);
    }
    if max_id(kept, namespace) > 0 {
        let k = choose|k: int|
            0 <= k < kept.len() && (#[trigger] kept[k]).namespace == namespace && kept[k].id
                == max_id(kept, namespace);
        assert(kept.contains(kept[k]));
        let i = choose|i: int| 0 <= i < rows.len() && rows[i] == kept[k];
        assert(mine(rows[i]));
        assert(seen.contains(rows[i]));
    }
}

/// The largest identifier of a namespace is that of one of its memories, or 0.
pub proof fn lemma_max_id_attained(rows: Seq<RowView>, namespace: Seq<char>)
    ensures
        max_id(rows, namespace) == 0 || exists|k: int|
            0 <= k < rows.len() && (#[trigger] rows[k]).namespace == namespace && rows[k].id
                == max_id(rows, namespace),
    decreases rows.len(),
{
    if rows.len() > 0 {
        let rest = rows.drop_last();
        lemma_max_id_attained(rest, namespace);
        if max_id(rows, namespace) == max_id(rest, namespace) && max_id(rest, namespace) != 0 {
            let k = choose|k: int|
                0 <= k < rest.len() && (#[trigger] rest[k]).namespace == namespace && rest[k].id
                    == max_id(rest, namespace);
            assert(rows[k] == rest[k]);
        } else if max_id(rows, namespace) != max_id(rest, namespace) {
            assert(rows[rows.len() - 1].id == max_id(rows, namespace));
        }
    }
}

/// What a new memory is: version 1 of the content, written now, neither scanned nor read, and on
/// probation for the duration of the limits. Its identifier is the smallest that is neither below
/// the namespace's unused ones nor at or below one that can be seen. The database gains this row
/// with the content's identity, loses what expired, and changes in nothing else.
pub proof fn law_insert_effect(
    state: StoreView,
    namespace: Seq<char>,
    limits: MemoryLimits,
    content: Seq<char>,
    now: int,
    after: StoreView,
    record: RecordView,
    row: RowView,
)
    requires
        valid_state(state),
        put_outcome(state, namespace, limits, content, None, now) == Ok::<
            (StoreView, RecordView),
            MemoryError,
        >((after, record)),
    ensures
        record.key.namespace == Some(namespace),
        record.key.version == 1,
        record.content == content,
        record.created_at_ms == now,
        record.updated_at_ms == now,
        record.last_scanned_at_ms is None,
        record.scan_count == 0,
        record.last_used_at_ms is None,
        record.use_count == 0,
        record.probation_until_ms == Some(within_i64(now + limits.probation_duration_ms)),
        record.key.id >= 1,
        state.next_ids.dom().contains(namespace) ==> record.key.id >= state.next_ids[namespace],
        forall|i: int|
            0 <= i < state.rows.len() && (#[trigger] state.rows[i]).namespace == namespace
                && visible(state.rows[i], now) ==> state.rows[i].id < record.key.id,
        record.key.id == 1 || (state.next_ids.dom().contains(namespace)
            && state.next_ids[namespace] == record.key.id) || exists|i: int|
            0 <= i < state.rows.len() && (#[trigger] state.rows[i]).namespace == namespace
                && visible(state.rows[i], now) && state.rows[i].id + 1 == record.key.id,
        after.rows.contains(row) <==> (state.rows.contains(row) && visible(row, now)) || (shows(
            record,
            row,
        ) && row.identity == identity_of(content)),
        after.next_ids == state.next_ids.insert(namespace, record.key.id + 1),
{
    let before = pruned(state, now);
    law_pruning(state, now, namespace, 0);
    let known = StoreView { next_ids: with_namespace(before.next_ids, namespace), ..before };
    let id = fresh_id(known, namespace);
    let made = new_row(namespace, id, content, limits, now);
    lemma_max_id(before.rows, namespace);
    lemma_max_id_attained(before.rows, namespace);
    lemma_unexpired_members(state.rows, now);
    assert(!holds(before.rows, namespace, id));
    lemma_insert_sorted(before.rows, made);
    lemma_insert_members(before.rows, made);
    assert(record == record_of(made));
    assert forall|i: int|
        0 <= i < state.rows.len() && (#[trigger] state.rows[i]).namespace == namespace && visible(
            state.rows[i],
            now,
        ) implies state.rows[i].id < record.key.id by {
        assert(state.rows.contains(state.rows[i]));
        assert(before.rows.contains(state.rows[i]));
        let k = choose|k: int| 0 <= k < before.rows.len() && before.rows[k] == state.rows[i];
        assert(before.rows[k].namespace == namespace);
    }
    if max_id(before.rows, namespace) > 0 && id == max_id(before.rows, namespace) + 1 {
        let k = choose|k: int|
            0 <= k < before.rows.len() && (#[trigger] before.rows[k]).namespace == namespace
                && before.rows[k].id == max_id(before.rows, namespace);
        assert(before.rows.contains(before.rows[k]));
        let i = choose|i: int| 0 <= i < state.rows.len() && state.rows[i] == before.rows[k];
        assert(state.rows[i].namespace == namespace);
    }
    if shows(record, row) && row.identity == identity_of(content) {
        assert(row == made);
    }
    assert(after.next_ids =~= state.next_ids.insert(namespace, record.key.id + 1));
}

/// A memory is replaced exactly where the content can be stored and the key names, in the writer's
/// own namespace, a memory that can be seen, at its version; no other memory that can be seen there
/// has the content's identity; the bytes, with the old content replaced, stay within the limit; and
/// the version is not the largest. This holds of every version below the largest. A refusal names
/// the first of these that fails.
pub proof fn law_replace_succeeds(
    state: StoreView,
    namespace: Seq<char>,
    limits: MemoryLimits,
    content: Seq<char>,
    key: KeyView,
    now: int,
)
    requires
        valid_state(state),
        limits.total_content_bytes < u64::MAX,
        exists|i: int| 0 <= i < content.len() && !is_space(#[trigger] content[i]),
        encode_utf8(content).len() <= limits.content_bytes,
        identity_of(content).len() > 0,
    ensures
        key.namespace != Some(namespace) ==> put_outcome(
            state,
            namespace,
            limits,
            content,
            Some(key),
            now,
        ) == Err::<(StoreView, RecordView), MemoryError>(MemoryError::RemoteReadOnly),
        key.namespace == Some(namespace) && (forall|i: int|
            0 <= i < state.rows.len() && (#[trigger] state.rows[i]).namespace == namespace
                && state.rows[i].id == key.id ==> !visible(state.rows[i], now)) ==> put_outcome(
            state,
            namespace,
            limits,
            content,
            Some(key),
            now,
        ) == Err::<(StoreView, RecordView), MemoryError>(MemoryError::NotFound),
        forall|k: int|
            key.namespace == Some(namespace) && 0 <= k < state.rows.len() && (
            #[trigger] state.rows[k]).namespace == namespace && state.rows[k].id == key.id
                && visible(state.rows[k], now) ==> {
                let outcome = put_outcome(state, namespace, limits, content, Some(key), now);
                let current = state.rows[k];
                let duplicate = exists|i: int|
                    0 <= i < state.rows.len() && (#[trigger] state.rows[i]).namespace == namespace
                        && state.rows[i].identity == identity_of(content) && state.rows[i].id
                        != key.id && visible(state.rows[i], now);
                let bytes = bytes_of(contents_of(visible_in(state.rows, namespace, now)));
                let resulting = bytes - encode_utf8(current.content).len() + encode_utf8(
                    content,
                ).len();
                &&& outcome is Ok <==> current.version == key.version && current.version < i64::MAX
                    && !duplicate && bytes <= i64::MAX && resulting <= limits.total_content_bytes
                &&& current.version != key.version ==> outcome == Err::<
                    (StoreView, RecordView),
                    MemoryError,
                >(MemoryError::Conflict)
                &&& current.version == key.version && duplicate ==> outcome == Err::<
                    (StoreView, RecordView),
                    MemoryError,
                >(MemoryError::Duplicate)
                &&& current.version == key.version && !duplicate && bytes <= i64::MAX && resulting
                    > limits.total_content_bytes ==> outcome == Err::<
                    (StoreView, RecordView),
                    MemoryError,
                >(MemoryError::ContentCapacity { maximum_bytes: limits.total_content_bytes })
                &&& current.version == key.version && !duplicate && (bytes > i64::MAX || resulting
                    <= limits.total_content_bytes && current.version == i64::MAX) ==> outcome
                    == Err::<(StoreView, RecordView), MemoryError>(MemoryError::Backend)
            },
{
    let rows = state.rows;
    let kept = unexpired(rows, now);
    law_pruning(state, now, namespace, key.id);
    lemma_counts(rows, namespace, now);
    lemma_taken(rows, namespace, identity_of(content), Some(key.id), now);
    lemma_unexpired_members(rows, now);
    if lookup(kept, namespace, key.id) is Some {
        let k = lemma_lookup_index(kept, namespace, key.id);
        assert(kept.contains(kept[k]));
        let i = choose|i: int| 0 <= i < rows.len() && rows[i] == kept[k];
        assert(rows[i].namespace == namespace && rows[i].id == key.id && visible(rows[i], now));
    }
    assert forall|k: int|
        0 <= k < rows.len() && (#[trigger] rows[k]).namespace == namespace && rows[k].id == key.id
            && visible(rows[k], now) implies lookup(kept, namespace, key.id) == Some(rows[k]) by {
        assert(rows.contains(rows[k]));
        assert(kept.contains(rows[k]));
        let j = choose|j: int| 0 <= j < kept.len() && kept[j] == rows[k];
        lemma_lookup(kept, j);
    }
}

/// What a replaced memory is: the next version of the content under the same identifier and time of
/// creation, written now, neither scanned nor read, and on probation again. The database changes
/// this row, loses what expired, and changes in nothing else.
pub proof fn law_replace_effect(
    state: StoreView,
    namespace: Seq<char>,
    limits: MemoryLimits,
    content: Seq<char>,
    key: KeyView,
    now: int,
    after: StoreView,
    record: RecordView,
    row: RowView,
)
    requires
        valid_state(state),
        put_outcome(state, namespace, limits, content, Some(key), now) == Ok::<
            (StoreView, RecordView),
            MemoryError,
        >((after, record)),
    ensures
        record.key.namespace == Some(namespace),
        record.key.id == key.id,
        record.key.version == key.version + 1,
        record.content == content,
        record.updated_at_ms == now,
        record.last_scanned_at_ms is None,
        record.scan_count == 0,
        record.last_used_at_ms is None,
        record.use_count == 0,
        record.probation_until_ms == Some(within_i64(now + limits.probation_duration_ms)),
        forall|i: int|
            0 <= i < state.rows.len() && (#[trigger] state.rows[i]).namespace == namespace
                && state.rows[i].id == key.id ==> record.created_at_ms
                == state.rows[i].created_at_ms,
        after.rows.contains(row) <==> (state.rows.contains(row) && visible(row, now) && !(
        row.namespace == namespace && row.id == key.id)) || (shows(record, row) && row.identity
            == identity_of(content)),
        after.next_ids == state.next_ids,
{
    let before = pruned(state, now);
    law_pruning(state, now, namespace, key.id);
    let k = lemma_lookup_index(before.rows, namespace, key.id);
    let made = next_row(before.rows[k], content, limits, now);
    lemma_unexpired_members(state.rows, now);
    lemma_replace_at(before.rows, k, made);
    lemma_lookup(before.rows, k);
    assert(record == record_of(made));
    assert forall|i: int|
        0 <= i < state.rows.len() && (#[trigger] state.rows[i]).namespace == namespace
            && state.rows[i].id == key.id implies record.created_at_ms
        == state.rows[i].created_at_ms by {
        lemma_lookup(state.rows, i);
    }
    if after.rows.contains(row) && row != made {
        let j = choose|j: int| 0 <= j < after.rows.len() && after.rows[j] == row;
        assert(before.rows[j] == row);
        assert(before.rows.contains(row));
        assert(!at(before.rows[j], namespace, key.id));
    }
    if before.rows.contains(row) && !(row.namespace == namespace && row.id == key.id) {
        let j = choose|j: int| 0 <= j < before.rows.len() && before.rows[j] == row;
        assert(after.rows[j] == row);
    }
    assert(after.rows[k] == made);
    if shows(record, row) && row.identity == identity_of(content) {
        assert(row == made);
    }
}

/// A delete succeeds exactly where the key is of the writer's own namespace and the memory, if it
/// exists, has its version; expired or not. It removes that memory and nothing else.
pub proof fn law_delete_decides(
    state: StoreView,
    namespace: Seq<char>,
    key: KeyView,
    row: RowView,
)
    requires
        valid_state(state),
    ensures
        delete_outcome(state, namespace, key) is Ok <==> key.namespace == Some(namespace)
            && forall|i: int|
            0 <= i < state.rows.len() && (#[trigger] state.rows[i]).namespace == namespace
                && state.rows[i].id == key.id ==> state.rows[i].version == key.version,
        key.namespace != Some(namespace) ==> delete_outcome(state, namespace, key) == Err::<
            StoreView,
            MemoryError,
        >(MemoryError::RemoteReadOnly),
        key.namespace == Some(namespace) && delete_outcome(state, namespace, key) is Err
            ==> delete_outcome(state, namespace, key) == Err::<StoreView, MemoryError>(
            MemoryError::Conflict,
        ),
        match delete_outcome(state, namespace, key) {
            Ok(after) => after.next_ids == state.next_ids && (after.rows.contains(row)
                <==> state.rows.contains(row) && !(row.namespace == namespace && row.id == key.id)),
            Err(_) => true,
        },
{
    let rows = state.rows;
    let keep = |r: RowView| !at(r, namespace, key.id);
    lemma_filter_members(rows, keep);
    if holds(rows, namespace, key.id) {
        let k = lemma_lookup_index(rows, namespace, key.id);
        lemma_lookup(rows, k);
        assert(rows[k].namespace == namespace && rows[k].id == key.id);
    }
    assert forall|i: int|
        0 <= i < rows.len() && (#[trigger] rows[i]).namespace == namespace && rows[i].id
            == key.id implies lookup(rows, namespace, key.id) == Some(rows[i]) by {
        lemma_lookup(rows, i);
    }
    if rows.contains(row) {
        let i = choose|i: int| 0 <= i < rows.len() && rows[i] == row;
        assert(keep(rows[i]) ==> rows.filter(keep).contains(rows[i]));
        assert(at(rows[i], namespace, key.id) ==> holds(rows, namespace, key.id));
    }
    if rows.filter(keep).contains(row) {
        let i = choose|i: int| 0 <= i < rows.filter(keep).len() && rows.filter(keep)[i] == row;
        assert(keep(rows.filter(keep)[i]));
    }
}

} // verus!
