//! What a storage engine is asked to do: the schema it may have, the rows that one transaction
//! changes, and what its failures mean.

use vstd::prelude::*;

use crate::protocol::{same_moment, MemoryError};
use crate::rows::{
    lemma_filter_empty, lemma_filter_members, lemma_filter_step, lemma_lookup, lemma_lookup_index,
    lookup, row_views, sorted, RowView, StoredMemory,
};
use crate::table::{known, lemma_next_id, namespaces_distinct, next_ids_of, Database, NamespaceRow};
use crate::text::same_text;

verus! {

/// Version of the schema that is read and written.
pub const SCHEMA_VERSION: i64 = 1;

/// What happened in a storage engine that refused a statement.
#[derive(Clone, Copy, Debug, PartialEq, Eq, Structural)]
pub enum StorageFailure {
    /// Another connection holds the database.
    Busy,
    /// Another statement holds a table.
    Locked,
    DiskFull,
    Other,
}

/// What a failed read means: one that is worth trying again, or a broken storage.
pub open spec fn read_failure(failure: StorageFailure) -> MemoryError {
    match failure {
        StorageFailure::Busy | StorageFailure::Locked => MemoryError::Unavailable,
        StorageFailure::DiskFull | StorageFailure::Other => MemoryError::Backend,
    }
}

/// What a failed write means: a full device, or the same as for a read.
pub open spec fn write_failure(failure: StorageFailure) -> MemoryError {
    match failure {
        StorageFailure::DiskFull => MemoryError::StorageCapacity,
        _ => read_failure(failure),
    }
}

/// What a failed read means.
pub fn sqlite_error(failure: StorageFailure) -> (error: MemoryError)
    ensures
        error == read_failure(failure),
{
    match failure {
        StorageFailure::Busy | StorageFailure::Locked => MemoryError::Unavailable,
        StorageFailure::DiskFull | StorageFailure::Other => MemoryError::Backend,
    }
}

/// What a failed write means.
pub fn sqlite_write_error(failure: StorageFailure) -> (error: MemoryError)
    ensures
        error == write_failure(failure),
{
    match failure {
        StorageFailure::DiskFull => MemoryError::StorageCapacity,
        _ => sqlite_error(failure),
    }
}

/// What a transaction is for.
#[derive(Clone, Copy, Debug, PartialEq, Eq, Structural)]
pub enum Purpose {
    /// A scan, a read, a list, a delete or an export.
    Access,
    Put,
    Sync,
}

/// A step of a transaction that writes.
#[derive(Clone, Copy, Debug, PartialEq, Eq, Structural)]
pub enum Step {
    /// Removing a memory that expired.
    Prune,
    /// Any other change of a row.
    Change,
    Commit,
}

/// Whether a full device is reported as such where the step fails: where a put or a sync stores
/// rows, and where a sync commits. Elsewhere it counts as a broken storage.
pub open spec fn reports_full_device(purpose: Purpose, step: Step) -> bool {
    match step {
        Step::Prune => false,
        Step::Change => purpose == Purpose::Put || purpose == Purpose::Sync,
        Step::Commit => purpose == Purpose::Sync,
    }
}

/// What a failed step of a transaction means.
pub fn step_error(purpose: Purpose, step: Step, failure: StorageFailure) -> (error: MemoryError)
    ensures
        error == if reports_full_device(purpose, step) {
            write_failure(failure)
        } else {
            read_failure(failure)
        },
{
    let full_device = match step {
        Step::Prune => false,
        Step::Change => purpose == Purpose::Put || purpose == Purpose::Sync,
        Step::Commit => purpose == Purpose::Sync,
    };
    if full_device {
        sqlite_write_error(failure)
    } else {
        sqlite_error(failure)
    }
}

/// Whether a database that reports the schema version `found` is new and has to be marked with
/// the current version; a database of any other version is refused.
pub fn schema_is_new(found: i64) -> (new: Result<bool, MemoryError>)
    ensures
        match new {
            Ok(new) => (found == 0 || found == SCHEMA_VERSION) && new == (found == 0),
            Err(error) => found != 0 && found != SCHEMA_VERSION && error
                == (MemoryError::UnsupportedSchemaVersion { found, supported: SCHEMA_VERSION }),
        },
{
    if found != 0 && found != SCHEMA_VERSION {
        return Err(MemoryError::UnsupportedSchemaVersion { found, supported: SCHEMA_VERSION });
    }
    Ok(found == 0)
}

/// The rows that turn one database into another: first the deletions, then the insertions. A
/// memory that changed is in both.
#[derive(Debug)]
pub struct Changes {
    /// Namespaces that are new, or whose smallest unused identifier changed.
    pub namespaces: Vec<NamespaceRow>,
    /// Memories that are gone or changed, as they were.
    pub deleted: Vec<StoredMemory>,
    /// Memories that are new or changed, as they are.
    pub inserted: Vec<StoredMemory>,
}

/// The rows of `rows` that `others` do not hold as they are.
pub open spec fn rows_missing(rows: Seq<RowView>, others: Seq<RowView>) -> Seq<RowView> {
    rows.filter(|row: RowView| lookup(others, row.namespace, row.id) != Some(row))
}

/// Whether two rows have the same value.
fn same_row(left: &StoredMemory, right: &StoredMemory) -> (same: bool)
    ensures
        same == (left@ == right@),
{
    left.id == right.id && left.version == right.version && left.created_at_ms
        == right.created_at_ms && left.updated_at_ms == right.updated_at_ms && left.scan_count
        == right.scan_count && left.use_count == right.use_count && same_moment(
        left.last_scanned_at_ms,
        right.last_scanned_at_ms,
    ) && same_moment(left.last_used_at_ms, right.last_used_at_ms) && same_moment(
        left.probation_until_ms,
        right.probation_until_ms,
    ) && same_text(left.namespace.as_str(), right.namespace.as_str()) && same_text(
        left.content.as_str(),
        right.content.as_str(),
    ) && same_text(left.identity.as_str(), right.identity.as_str())
}

/// The memories of `database` that `other` does not hold as they are.
fn missing(database: &Database, other: &Database) -> (rows: Vec<StoredMemory>)
    requires
        other.wf(),
    ensures
        row_views(rows@) == rows_missing(database@.rows, other@.rows),
{
    let ghost all = database@.rows;
    let ghost keep = |row: RowView| lookup(other@.rows, row.namespace, row.id) != Some(row);
    let memories = database.memory_rows();
    let mut rows: Vec<StoredMemory> = Vec::new();
    let mut i: usize = 0;
    proof {
        lemma_filter_empty(all.take(0), keep);
        assert(row_views(rows@) =~= all.take(0).filter(keep));
    }
    while i < memories.len()
        invariant
            other.wf(),
            row_views(memories@) == all,
            all.len() == memories@.len(),
            keep == (|row: RowView| lookup(other@.rows, row.namespace, row.id) != Some(row)),
            i <= memories@.len(),
            row_views(rows@) == all.take(i as int).filter(keep),
        decreases memories@.len() - i,
    {
        let row = &memories[i];
        let ghost before = rows@;
        proof {
            assert(row@ == all[i as int]);
            lemma_filter_step(all, keep, i as int);
        }
        let kept = match other.load_one(row.namespace.as_str(), row.id) {
            Some(found) => same_row(found, row),
            None => false,
        };
        if !kept {
            rows.push(row.duplicate());
            assert(row_views(rows@) =~= row_views(before).push(row@));
        }
        i += 1;
    }
    assert(all.take(i as int) =~= all);
    rows
}

/// The rows that turn the database `before` into the database `after`.
pub fn changes(before: &Database, after: &Database) -> (changes: Changes)
    requires
        before.wf(),
        after.wf(),
    ensures
        row_views(changes.deleted@) == rows_missing(before@.rows, after@.rows),
        row_views(changes.inserted@) == rows_missing(after@.rows, before@.rows),
        forall|namespace: Seq<char>| #[trigger]
            next_ids_of(changes.namespaces@).dom().contains(namespace) <==> (
            after@.next_ids.dom().contains(namespace) && !(before@.next_ids.dom().contains(
                namespace,
            ) && before@.next_ids[namespace] == after@.next_ids[namespace])),
        forall|i: int|
            0 <= i < changes.namespaces@.len() ==> (#[trigger] changes.namespaces@[i]).next_id
                == after@.next_ids[changes.namespaces@[i].namespace@],
{
    let deleted = missing(before, after);
    let inserted = missing(after, before);
    let namespaces = changed_namespaces(before.namespace_rows(), after.namespace_rows());
    Changes { namespaces, deleted, inserted }
}

/// The rows of `after` that `before` does not hold.
fn changed_namespaces(before: &Vec<NamespaceRow>, after: &Vec<NamespaceRow>) -> (rows: Vec<
    NamespaceRow,
>)
    requires
        namespaces_distinct(before@),
        namespaces_distinct(after@),
    ensures
        forall|namespace: Seq<char>| #[trigger]
            next_ids_of(rows@).dom().contains(namespace) <==> (next_ids_of(after@).dom().contains(
                namespace,
            ) && !(next_ids_of(before@).dom().contains(namespace) && next_ids_of(
                before@,
            )[namespace] == next_ids_of(after@)[namespace])),
        forall|i: int|
            0 <= i < rows@.len() ==> (#[trigger] rows@[i]).next_id == next_ids_of(
                after@,
            )[rows@[i].namespace@],
{
    let mut rows: Vec<NamespaceRow> = Vec::new();
    let mut i: usize = 0;
    while i < after.len()
        invariant
            namespaces_distinct(before@),
            namespaces_distinct(after@),
            i <= after@.len(),
            forall|j: int|
                0 <= j < i ==> (known(rows@, (#[trigger] after@[j]).namespace@) <==> !(
                next_ids_of(before@).dom().contains(after@[j].namespace@) && next_ids_of(
                    before@,
                )[after@[j].namespace@] == next_ids_of(after@)[after@[j].namespace@])),
            forall|k: int|
                0 <= k < rows@.len() ==> exists|j: int|
                    0 <= j < i && (#[trigger] after@[j]).namespace@ == (
                    #[trigger] rows@[k]).namespace@ && after@[j].next_id == rows@[k].next_id,
        decreases after@.len() - i,
    {
        let row = &after[i];
        let ghost earlier = rows@;
        proof {
            lemma_next_id(after@, i as int);
        }
        let mut j: usize = 0;
        let mut found = false;
        while j < before.len()
            invariant
                namespaces_distinct(before@),
                j <= before@.len(),
                found ==> next_ids_of(before@).dom().contains(row.namespace@) && next_ids_of(
                    before@,
                )[row.namespace@] == row.next_id,
                !found ==> forall|k: int|
                    0 <= k < j ==> (#[trigger] before@[k]).namespace@ != row.namespace@
                        || before@[k].next_id != row.next_id,
            decreases before@.len() - j,
        {
            if before[j].next_id == row.next_id && same_text(
                before[j].namespace.as_str(),
                row.namespace.as_str(),
            ) {
                found = true;
                proof {
                    lemma_next_id(before@, j as int);
                }
            }
            j += 1;
        }
        proof {
            if !found && next_ids_of(before@).dom().contains(row.namespace@) {
                let k = choose|k: int|
                    0 <= k < before@.len() && (#[trigger] before@[k]).namespace@ == row.namespace@;
                lemma_next_id(before@, k);
            }
            // No earlier row names this namespace.
            assert(!known(earlier, row.namespace@)) by {
                if known(earlier, row.namespace@) {
                    let k = choose|k: int|
                        0 <= k < earlier.len() && (#[trigger] earlier[k]).namespace@
                            == row.namespace@;
                    let l = choose|l: int|
                        0 <= l < i && (#[trigger] after@[l]).namespace@ == earlier[k].namespace@
                            && after@[l].next_id == earlier[k].next_id;
                    assert(after@[l].namespace@ != after@[i as int].namespace@);
                }
            }
        }
        if !found {
            rows.push(NamespaceRow { namespace: row.namespace.clone(), next_id: row.next_id });
            proof {
                assert(rows@[earlier.len() as int].namespace@ == row.namespace@);
                assert forall|l: int| 0 <= l < i implies known(
                    rows@,
                    (#[trigger] after@[l]).namespace@,
                ) == known(earlier, after@[l].namespace@) by {
                    assert(after@[l].namespace@ != after@[i as int].namespace@);
                    if known(earlier, after@[l].namespace@) {
                        let k = choose|k: int|
                            0 <= k < earlier.len() && (#[trigger] earlier[k]).namespace@
                                == after@[l].namespace@;
                        assert(rows@[k].namespace@ == after@[l].namespace@);
                    }
                    if known(rows@, after@[l].namespace@) {
                        let k = choose|k: int|
                            0 <= k < rows@.len() && (#[trigger] rows@[k]).namespace@
                                == after@[l].namespace@;
                        assert(earlier[k].namespace@ == after@[l].namespace@);
                    }
                }
                assert forall|k: int| 0 <= k < rows@.len() implies exists|l: int|
                    0 <= l < i + 1 && (#[trigger] after@[l]).namespace@ == (
                    #[trigger] rows@[k]).namespace@ && after@[l].next_id == rows@[k].next_id by {
                    if k < earlier.len() {
                        assert(rows@[k] == earlier[k]);
                        let l = choose|l: int|
                            0 <= l < i && (#[trigger] after@[l]).namespace@
                                == earlier[k].namespace@ && after@[l].next_id
                                == earlier[k].next_id;
                        assert(after@[l].namespace@ == rows@[k].namespace@);
                    } else {
                        assert(after@[i as int].namespace@ == rows@[k].namespace@);
                    }
                }
            }
        }
        i += 1;
    }
    proof {
        assert forall|namespace: Seq<char>| #[trigger]
            next_ids_of(rows@).dom().contains(namespace) <==> (next_ids_of(after@).dom().contains(
                namespace,
            ) && !(next_ids_of(before@).dom().contains(namespace) && next_ids_of(
                before@,
            )[namespace] == next_ids_of(after@)[namespace])) by {
            if next_ids_of(after@).dom().contains(namespace) {
                let j = choose|j: int|
                    0 <= j < after@.len() && (#[trigger] after@[j]).namespace@ == namespace;
                assert(known(rows@, after@[j].namespace@) <==> !(next_ids_of(
                    before@,
                ).dom().contains(namespace) && next_ids_of(before@)[namespace] == next_ids_of(
                    after@,
                )[namespace]));
            }
            if next_ids_of(rows@).dom().contains(namespace) {
                let k = choose|k: int|
                    0 <= k < rows@.len() && (#[trigger] rows@[k]).namespace@ == namespace;
                let j = choose|j: int|
                    0 <= j < after@.len() && (#[trigger] after@[j]).namespace@
                        == rows@[k].namespace@ && after@[j].next_id == rows@[k].next_id;
                assert(after@[j].namespace@ == namespace);
            }
        }
        assert forall|k: int| 0 <= k < rows@.len() implies (#[trigger] rows@[k]).next_id
            == next_ids_of(after@)[rows@[k].namespace@] by {
            let j = choose|j: int|
                0 <= j < after@.len() && (#[trigger] after@[j]).namespace@ == rows@[k].namespace@
                    && after@[j].next_id == rows@[k].next_id;
            lemma_next_id(after@, j);
        }
    }
    rows
}

/// Deleting and inserting what differs turns one table into the other: a row is in the second
/// exactly where it is in the first and was not deleted, or was inserted.
pub proof fn law_changes_apply(before: Seq<RowView>, after: Seq<RowView>, row: RowView)
    requires
        sorted(before),
        sorted(after),
    ensures
        after.contains(row) <==> (before.contains(row) && !rows_missing(before, after).contains(
            row,
        )) || rows_missing(after, before).contains(row),
{
    let gone = |r: RowView| lookup(after, r.namespace, r.id) != Some(r);
    let new = |r: RowView| lookup(before, r.namespace, r.id) != Some(r);
    lemma_filter_members(before, gone);
    lemma_filter_members(after, new);
    if after.contains(row) {
        let i = choose|i: int| 0 <= i < after.len() && after[i] == row;
        lemma_lookup(after, i);
        if new(row) {
            assert(after.filter(new).contains(after[i]));
        } else {
            let j = lemma_lookup_index(before, row.namespace, row.id);
            if before.filter(gone).contains(row) {
                let k = choose|k: int|
                    0 <= k < before.filter(gone).len() && before.filter(gone)[k] == row;
                assert(gone(before.filter(gone)[k]));
            }
        }
    }
    if before.contains(row) && !rows_missing(before, after).contains(row) {
        let i = choose|i: int| 0 <= i < before.len() && before[i] == row;
        if gone(before[i]) {
            assert(before.filter(gone).contains(before[i]));
        }
        let j = lemma_lookup_index(after, row.namespace, row.id);
    }
    if rows_missing(after, before).contains(row) {
        let k = choose|k: int| 0 <= k < after.filter(new).len() && after.filter(new)[k] == row;
        assert(after.contains(after.filter(new)[k]));
    }
}

/// A row that two tables share is neither deleted nor inserted.
pub proof fn law_changes_are_needed(before: Seq<RowView>, after: Seq<RowView>, row: RowView)
    requires
        sorted(before),
        sorted(after),
        before.contains(row),
        after.contains(row),
    ensures
        !rows_missing(before, after).contains(row),
        !rows_missing(after, before).contains(row),
{
    let gone = |r: RowView| lookup(after, r.namespace, r.id) != Some(r);
    let new = |r: RowView| lookup(before, r.namespace, r.id) != Some(r);
    lemma_filter_members(before, gone);
    lemma_filter_members(after, new);
    let i = choose|i: int| 0 <= i < before.len() && before[i] == row;
    lemma_lookup(before, i);
    let j = choose|j: int| 0 <= j < after.len() && after[j] == row;
    lemma_lookup(after, j);
    if before.filter(gone).contains(row) {
        let k = choose|k: int| 0 <= k < before.filter(gone).len() && before.filter(gone)[k] == row;
        assert(gone(before.filter(gone)[k]));
    }
    if after.filter(new).contains(row) {
        let k = choose|k: int| 0 <= k < after.filter(new).len() && after.filter(new)[k] == row;
        assert(new(after.filter(new)[k]));
    }
}

/// A busy or locked storage is worth trying again, whatever was being done. A full device is
/// reported as such where a put or a sync stores rows and where a sync commits; everywhere else,
/// and for any other failure, the storage counts as broken.
pub proof fn law_storage_failures(purpose: Purpose, step: Step, failure: StorageFailure)
    ensures
        ({
            let error = if reports_full_device(purpose, step) {
                write_failure(failure)
            } else {
                read_failure(failure)
            };
            let storing = (step == Step::Change && purpose != Purpose::Access) || (step
                == Step::Commit && purpose == Purpose::Sync);
            &&& error == MemoryError::Unavailable <==> failure == StorageFailure::Busy || failure
                == StorageFailure::Locked
            &&& error == MemoryError::StorageCapacity <==> failure == StorageFailure::DiskFull
                && storing
            &&& error == MemoryError::Backend <==> failure == StorageFailure::Other || (failure
                == StorageFailure::DiskFull && !storing)
        }),
        write_failure(failure) == MemoryError::Unavailable <==> failure == StorageFailure::Busy
            || failure == StorageFailure::Locked,
        write_failure(failure) == MemoryError::StorageCapacity <==> failure
            == StorageFailure::DiskFull,
        write_failure(failure) == MemoryError::Backend <==> failure == StorageFailure::Other,
{
}

} // verus!
