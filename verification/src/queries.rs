//! What reads, scans, lists and exports give, and what they leave behind.

use vstd::prelude::*;

use crate::mutations::pruned;
use crate::protocol::{CursorView, KeyView, MemoryLimits, RecordView, MAX_EXPORT_PAGE_RECORDS};
use crate::rows::{
    at, expired, first, holds, key_before, lemma_lookup, lemma_lookup_index, lookup, record_of,
    records_of, replace_row, row_before, sorted, unexpired, RowView, StoreView,
};

verus! {

/// A memory that a read asks for, at one version or at any.
pub struct ReferenceView {
    pub namespace: Seq<char>,
    pub id: int,
    pub version: Option<int>,
}

/// Whether one of `references` is to the memory `id` of `namespace`.
pub open spec fn referenced(
    references: Seq<ReferenceView>,
    namespace: Seq<char>,
    id: int,
) -> bool {
    exists|i: int|
        0 <= i < references.len() && (#[trigger] references[i]).namespace == namespace
            && references[i].id == id
}

/// The memories that `keys` name: those with a namespace, each once, at the first version given.
pub open spec fn key_references(keys: Seq<KeyView>) -> Seq<ReferenceView>
    decreases keys.len(),
{
    if keys.len() == 0 {
        Seq::empty()
    } else {
        let before = key_references(keys.drop_last());
        let key = keys.last();
        match key.namespace {
            Some(namespace) => if referenced(before, namespace, key.id) {
                before
            } else {
                before.push(ReferenceView { namespace, id: key.id, version: Some(key.version) })
            },
            None => before,
        }
    }
}

/// The memories that `keys` name, then the memories `ids` of `namespace` at any version, each
/// memory once.
pub open spec fn references(
    namespace: Seq<char>,
    ids: Seq<i64>,
    keys: Seq<KeyView>,
) -> Seq<ReferenceView>
    decreases ids.len(),
{
    if ids.len() == 0 {
        key_references(keys)
    } else {
        let before = references(namespace, ids.drop_last(), keys);
        let id = ids.last() as int;
        if referenced(before, namespace, id) {
            before
        } else {
            before.push(ReferenceView { namespace, id, version: None })
        }
    }
}

/// Whether no memory is referenced twice.
pub open spec fn references_distinct(references: Seq<ReferenceView>) -> bool {
    forall|i: int, j: int|
        0 <= i < j < references.len() ==> !((#[trigger] references[i]).namespace == (
        #[trigger] references[j]).namespace && references[i].id == references[j].id)
}

/// No memory is referenced twice.
pub proof fn lemma_key_references_distinct(keys: Seq<KeyView>)
    ensures
        references_distinct(key_references(keys)),
    decreases keys.len(),
{
    if keys.len() > 0 {
        lemma_key_references_distinct(keys.drop_last());
    }
}

/// No memory is referenced twice.
pub proof fn lemma_references_distinct(namespace: Seq<char>, ids: Seq<i64>, keys: Seq<KeyView>)
    ensures
        references_distinct(references(namespace, ids, keys)),
    decreases ids.len(),
{
    if ids.len() == 0 {
        lemma_key_references_distinct(keys);
    } else {
        lemma_references_distinct(namespace, ids.drop_last(), keys);
    }
}

/// Whether `reference` is to `row` as it stands.
pub open spec fn wanted(row: RowView, reference: ReferenceView) -> bool {
    &&& at(row, reference.namespace, reference.id)
    &&& reference.version is None || reference.version == Some(row.version)
}

/// Whether one of `references` is to `row` as it stands.
pub open spec fn wanted_by(row: RowView, references: Seq<ReferenceView>) -> bool {
    exists|i: int| 0 <= i < references.len() && wanted(row, #[trigger] references[i])
}

/// `count` and one more, as far as the database can hold it.
pub open spec fn counted(count: int) -> int {
    if count < i64::MAX {
        count + 1
    } else {
        i64::MAX as int
    }
}

/// `row` after a read at `now`: used once more, and no longer on probation.
pub open spec fn used_row(row: RowView, now: int) -> RowView {
    RowView {
        last_used_at_ms: Some(now),
        use_count: counted(row.use_count),
        probation_until_ms: None,
        ..row
    }
}

/// The record that a read of `row` at `now` gives.
pub open spec fn read_record(row: RowView, now: int) -> RecordView {
    record_of(
        RowView {
            last_used_at_ms: Some(now),
            use_count: row.use_count + 1,
            probation_until_ms: None,
            ..row
        },
    )
}

/// `rows` after a read of `references` at `now`.
pub open spec fn used_rows(
    rows: Seq<RowView>,
    references: Seq<ReferenceView>,
    now: int,
) -> Seq<RowView> {
    rows.map_values(
        |row: RowView|
            if wanted_by(row, references) {
                used_row(row, now)
            } else {
                row
            },
    )
}

/// The records that a read of `references` at `now` gives, in the order of the references.
pub open spec fn read_records(
    rows: Seq<RowView>,
    references: Seq<ReferenceView>,
    now: int,
) -> Seq<RecordView>
    decreases references.len(),
{
    if references.len() == 0 {
        Seq::empty()
    } else {
        let before = read_records(rows, references.drop_last(), now);
        let reference = references.last();
        match lookup(rows, reference.namespace, reference.id) {
            Some(row) => if wanted(row, reference) {
                before.push(read_record(row, now))
            } else {
                before
            },
            None => before,
        }
    }
}

/// What a read on behalf of `namespace` gives: the database and the records. A read that names
/// no memory does nothing.
pub open spec fn read_outcome(
    state: StoreView,
    namespace: Seq<char>,
    ids: Seq<i64>,
    keys: Seq<KeyView>,
    now: int,
) -> (StoreView, Seq<RecordView>) {
    let references = references(namespace, ids, keys);
    if references.len() == 0 {
        (state, Seq::empty())
    } else {
        let rows = pruned(state, now).rows;
        (
            StoreView { rows: used_rows(rows, references, now), ..state },
            read_records(rows, references, now),
        )
    }
}

/// The records that a list shows: the first ones of all the visible memories.
pub open spec fn listed(state: StoreView, limits: MemoryLimits, now: int) -> Seq<RecordView> {
    records_of(first(unexpired(state.rows, now), limits.records as int))
}

/// Whether `key` names `row` at its version.
pub open spec fn names(key: KeyView, row: RowView) -> bool {
    key.namespace == Some(row.namespace) && key.id == row.id && key.version == row.version
}

/// `row` after a scan at `now` that showed it.
pub open spec fn scanned_row(row: RowView, now: int) -> RowView {
    RowView { last_scanned_at_ms: Some(now), scan_count: counted(row.scan_count), ..row }
}

/// `rows` after a scan at `now` that showed the memory `key`.
pub open spec fn scanned_rows(rows: Seq<RowView>, key: KeyView, now: int) -> Seq<RowView> {
    rows.map_values(
        |row: RowView|
            if names(key, row) {
                scanned_row(row, now)
            } else {
                row
            },
    )
}

/// `rows` after a scan at `now` that showed the memories `keys`.
pub open spec fn scan_recorded(rows: Seq<RowView>, keys: Seq<KeyView>, now: int) -> Seq<RowView>
    decreases keys.len(),
{
    if keys.len() == 0 {
        rows
    } else {
        scanned_rows(scan_recorded(rows, keys.drop_last(), now), keys.last(), now)
    }
}

/// Whether an export selects `row`: it is visible at `now`, its namespace is one of those asked
/// for, and it comes after the cursor.
pub open spec fn exported(
    row: RowView,
    namespaces: Option<Seq<Seq<char>>>,
    cursor: Option<CursorView>,
    now: int,
) -> bool {
    &&& !expired(row, now)
    &&& match namespaces {
        Some(selected) => selected.contains(row.namespace),
        None => true,
    }
    &&& match cursor {
        Some(cursor) => key_before(cursor.namespace, cursor.id, row.namespace, row.id),
        None => true,
    }
}

/// The rows that an export selects.
pub open spec fn export_rows(
    rows: Seq<RowView>,
    namespaces: Option<Seq<Seq<char>>>,
    cursor: Option<CursorView>,
    now: int,
) -> Seq<RowView> {
    rows.filter(|row: RowView| exported(row, namespaces, cursor, now))
}

/// The number of records of a page for which `limit` was asked.
pub open spec fn page_size(limit: int) -> int {
    if limit < 1 {
        1
    } else if limit > MAX_EXPORT_PAGE_RECORDS {
        MAX_EXPORT_PAGE_RECORDS as int
    } else {
        limit
    }
}

/// The cursor after `row`.
pub open spec fn cursor_of(row: RowView) -> CursorView {
    CursorView { namespace: row.namespace, id: row.id }
}

/// One page of an export: the first rows selected, and a cursor if there are more.
pub open spec fn export_page(
    rows: Seq<RowView>,
    namespaces: Option<Seq<Seq<char>>>,
    cursor: Option<CursorView>,
    limit: int,
    now: int,
) -> (Seq<RecordView>, Option<CursorView>) {
    let selected = export_rows(rows, namespaces, cursor, now);
    let page = first(selected, page_size(limit));
    (
        records_of(page),
        if selected.len() > page_size(limit) {
            Some(cursor_of(page.last()))
        } else {
            None
        },
    )
}

/// Where no reference is to a memory, a read leaves it as it was.
pub proof fn lemma_used_lookup(
    rows: Seq<RowView>,
    references: Seq<ReferenceView>,
    now: int,
    namespace: Seq<char>,
    id: int,
)
    requires
        sorted(rows),
        !referenced(references, namespace, id),
    ensures
        sorted(used_rows(rows, references, now)),
        lookup(used_rows(rows, references, now), namespace, id) == lookup(rows, namespace, id),
{
    let after = used_rows(rows, references, now);
    assert forall|i: int, j: int| 0 <= i < j < after.len() implies row_before(
        after[i],
        after[j],
    ) by {
        assert(row_before(rows[i], rows[j]));
    }
    if holds(rows, namespace, id) {
        let i = lemma_lookup_index(rows, namespace, id);
        assert(at(after[i], namespace, id));
        assert(!wanted_by(rows[i], references)) by {
            if wanted_by(rows[i], references) {
                let j = choose|j: int|
                    0 <= j < references.len() && wanted(rows[i], #[trigger] references[j]);
                assert(references[j].namespace == namespace && references[j].id == id);
            }
        }
        lemma_lookup(after, i);
    }
    if holds(after, namespace, id) {
        let i = lemma_lookup_index(after, namespace, id);
        assert(at(rows[i], namespace, id));
    }
}

/// One more reference, to a memory that the earlier ones leave alone, marks that memory.
pub proof fn lemma_used_step(
    rows: Seq<RowView>,
    references: Seq<ReferenceView>,
    reference: ReferenceView,
    now: int,
)
    requires
        sorted(rows),
        !referenced(references, reference.namespace, reference.id),
    ensures
        used_rows(rows, references.push(reference), now) == match lookup(
            rows,
            reference.namespace,
            reference.id,
        ) {
            Some(row) => if wanted(row, reference) {
                replace_row(used_rows(rows, references, now), used_row(row, now))
            } else {
                used_rows(rows, references, now)
            },
            None => used_rows(rows, references, now),
        },
{
    let more = references.push(reference);
    let before = used_rows(rows, references, now);
    let after = used_rows(rows, more, now);
    assert forall|row: RowView| #[trigger] wanted_by(row, more) <==> (wanted_by(row, references)
        || wanted(row, reference)) by {
        if wanted_by(row, references) {
            let i = choose|i: int|
                0 <= i < references.len() && wanted(row, #[trigger] references[i]);
            assert(wanted(row, more[i]));
        }
        if wanted(row, reference) {
            assert(wanted(row, more[references.len() as int]));
        }
        if wanted_by(row, more) {
            let i = choose|i: int| 0 <= i < more.len() && wanted(row, #[trigger] more[i]);
            if i < references.len() {
                assert(wanted(row, references[i]));
            }
        }
    }
    match lookup(rows, reference.namespace, reference.id) {
        Some(found) => {
            let k = lemma_lookup_index(rows, reference.namespace, reference.id);
            lemma_lookup(rows, k);
            lemma_used_lookup(rows, references, now, reference.namespace, reference.id);
            if wanted(found, reference) {
                let target = used_row(found, now);
                let replaced = replace_row(before, target);
                assert forall|i: int| 0 <= i < rows.len() implies after[i] == replaced[i] by {
                    if i != k {
                        assert(!at(rows[i], reference.namespace, reference.id));
                    }
                }
                assert(after =~= replaced);
            } else {
                assert forall|i: int| 0 <= i < rows.len() implies after[i] == before[i] by {
                    if i != k {
                        assert(!at(rows[i], reference.namespace, reference.id));
                    }
                }
                assert(after =~= before);
            }
        },
        None => {
            assert forall|i: int| 0 <= i < rows.len() implies after[i] == before[i] by {
                assert(!at(rows[i], reference.namespace, reference.id));
            }
            assert(after =~= before);
        },
    }
}

/// Marking a memory that a scan showed replaces its row.
pub proof fn lemma_scanned_step(rows: Seq<RowView>, key: KeyView, now: int)
    requires
        sorted(rows),
    ensures
        scanned_rows(rows, key, now) == match key.namespace {
            Some(namespace) => match lookup(rows, namespace, key.id) {
                Some(row) => if row.version == key.version {
                    replace_row(rows, scanned_row(row, now))
                } else {
                    rows
                },
                None => rows,
            },
            None => rows,
        },
{
    let after = scanned_rows(rows, key, now);
    match key.namespace {
        Some(namespace) => match lookup(rows, namespace, key.id) {
            Some(found) => {
                let k = lemma_lookup_index(rows, namespace, key.id);
                lemma_lookup(rows, k);
                if found.version == key.version {
                    assert(after =~= replace_row(rows, scanned_row(found, now)));
                } else {
                    assert(after =~= rows);
                }
            },
            None => {
                assert forall|i: int| 0 <= i < rows.len() implies after[i] == rows[i] by {
                    assert(!at(rows[i], namespace, key.id));
                }
                assert(after =~= rows);
            },
        },
        None => {
            assert(after =~= rows);
        },
    }
}

} // verus!
