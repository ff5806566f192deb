//! Laws of whole histories: what holds after any sequence of operations.

use vstd::prelude::*;

use crate::capacity_laws::{
    law_others_keep_limits, law_put_keeps_limits, law_sync_keeps_limits, within_limits,
};
use crate::laws::{
    ids_reserved, law_delete, law_ids_are_not_reused, law_ids_stay_reserved, law_pruning,
    law_put_reserves_ids, law_put_stores, law_read_graduates,
};
use crate::mutations::{delete_outcome, pruned, put_outcome};
use crate::protocol::{KeyView, MemoryError, MemoryLimits, RecordView};
use crate::queries::{read_outcome, references, scan_recorded};
use crate::rows::{identities_differ, row_before, valid_row, valid_state, RowView, StoreView};
use crate::snapshot::sync_outcome;
use crate::sync_laws::{law_sync_reconciles, law_sync_reserves_ids, representable};

verus! {

/// An operation on a database.
pub enum Operation {
    Put { namespace: Seq<char>, content: Seq<char>, replacement: Option<KeyView>, now: int },
    Delete { namespace: Seq<char>, key: KeyView },
    Read { namespace: Seq<char>, ids: Seq<i64>, keys: Seq<KeyView>, now: int },
    List { now: int },
    Scan { shown: Seq<KeyView>, now: int },
    Sync { namespace: Seq<char>, memories: Seq<RecordView>, now: int },
}

/// Whether the numbers of an operation fit where they are held.
pub open spec fn well_typed(operation: Operation) -> bool {
    match operation {
        Operation::Sync { memories, .. } => representable(memories),
        _ => true,
    }
}

/// The database after an operation; one that fails leaves it unchanged.
pub open spec fn after(state: StoreView, limits: MemoryLimits, operation: Operation) -> StoreView {
    match operation {
        Operation::Put { namespace, content, replacement, now } => match put_outcome(
            state,
            namespace,
            limits,
            content,
            replacement,
            now,
        ) {
            Ok((stored, _)) => stored,
            Err(_) => state,
        },
        Operation::Delete { namespace, key } => match delete_outcome(state, namespace, key) {
            Ok(left) => left,
            Err(_) => state,
        },
        Operation::Read { namespace, ids, keys, now } => read_outcome(
            state,
            namespace,
            ids,
            keys,
            now,
        ).0,
        Operation::List { now } => pruned(state, now),
        Operation::Scan { shown, now } => StoreView {
            rows: scan_recorded(pruned(state, now).rows, shown, now),
            ..state
        },
        Operation::Sync { namespace, memories, now } => match sync_outcome(
            state,
            namespace,
            limits,
            memories,
            now,
        ) {
            Ok(reconciled) => reconciled,
            Err(_) => state,
        },
    }
}

/// The database after a sequence of operations.
pub open spec fn after_all(
    state: StoreView,
    limits: MemoryLimits,
    operations: Seq<Operation>,
) -> StoreView
    decreases operations.len(),
{
    if operations.len() == 0 {
        state
    } else {
        after(after_all(state, limits, operations.drop_last()), limits, operations.last())
    }
}

/// Recording a scan keeps the invariant.
proof fn lemma_scan_valid(state: StoreView, shown: Seq<KeyView>, now: int)
    requires
        valid_state(state),
    ensures
        valid_state(StoreView { rows: scan_recorded(state.rows, shown, now), ..state }),
    decreases shown.len(),
{
    if shown.len() > 0 {
        let earlier = shown.drop_last();
        lemma_scan_valid(state, earlier, now);
        let rows = scan_recorded(state.rows, earlier, now);
        let marked = scan_recorded(state.rows, shown, now);
        assert forall|i: int, j: int| 0 <= i < j < marked.len() implies row_before(
            marked[i],
            marked[j],
        ) && identities_differ(marked[i], marked[j]) by {
            assert(row_before(rows[i], rows[j]));
            assert(identities_differ(rows[i], rows[j]));
        }
        assert forall|i: int| 0 <= i < marked.len() implies valid_row(#[trigger] marked[i])
            && state.next_ids.dom().contains(marked[i].namespace) by {
            assert(valid_row(rows[i]));
        }
    }
}

/// Every operation keeps the invariant.
pub proof fn law_operations_keep_invariant(
    state: StoreView,
    limits: MemoryLimits,
    operation: Operation,
)
    requires
        valid_state(state),
        well_typed(operation),
    ensures
        valid_state(after(state, limits, operation)),
{
    match operation {
        Operation::Put { namespace, content, replacement, now } => {
            let outcome = put_outcome(state, namespace, limits, content, replacement, now);
            if outcome is Ok {
                let (stored, record) = outcome->Ok_0;
                law_put_stores(
                    state,
                    namespace,
                    limits,
                    content,
                    replacement,
                    now,
                    stored,
                    record,
                );
            }
        },
        Operation::Delete { namespace, key } => {
            let outcome = delete_outcome(state, namespace, key);
            if outcome is Ok {
                law_delete(state, namespace, key, outcome->Ok_0, namespace, key.id);
            }
        },
        Operation::Read { namespace, ids, keys, now } => {
            if references(namespace, ids, keys).len() > 0 {
                law_read_graduates(state, namespace, ids, keys, now, namespace, 0, now);
            }
        },
        Operation::List { now } => {
            law_pruning(state, now, Seq::empty(), 0);
        },
        Operation::Scan { shown, now } => {
            law_pruning(state, now, Seq::empty(), 0);
            lemma_scan_valid(pruned(state, now), shown, now);
        },
        Operation::Sync { namespace, memories, now } => {
            let outcome = sync_outcome(state, namespace, limits, memories, now);
            if outcome is Ok {
                law_sync_reconciles(state, namespace, limits, memories, now, outcome->Ok_0);
            }
        },
    }
}

/// Every operation keeps every namespace within the limits.
pub proof fn law_operations_keep_limits(
    state: StoreView,
    limits: MemoryLimits,
    operation: Operation,
)
    requires
        valid_state(state),
        within_limits(state.rows, limits),
        limits.total_content_bytes < u64::MAX,
        well_typed(operation),
    ensures
        within_limits(after(state, limits, operation).rows, limits),
{
    let none = KeyView { id: 0, version: 0, namespace: None };
    match operation {
        Operation::Put { namespace, content, replacement, now } => {
            let outcome = put_outcome(state, namespace, limits, content, replacement, now);
            if outcome is Ok {
                let (stored, record) = outcome->Ok_0;
                law_put_keeps_limits(
                    state,
                    namespace,
                    limits,
                    content,
                    replacement,
                    now,
                    stored,
                    record,
                );
            }
        },
        Operation::Delete { namespace, key } => {
            law_others_keep_limits(state, namespace, limits, Seq::empty(), Seq::empty(), key, 0);
        },
        Operation::Read { namespace, ids, keys, now } => {
            law_others_keep_limits(state, namespace, limits, ids, keys, none, now);
        },
        Operation::List { now } => {
            law_others_keep_limits(
                state,
                Seq::empty(),
                limits,
                Seq::empty(),
                Seq::empty(),
                none,
                now,
            );
        },
        Operation::Scan { shown, now } => {
            let kept = pruned(state, now);
            law_others_keep_limits(
                state,
                Seq::empty(),
                limits,
                Seq::empty(),
                Seq::empty(),
                none,
                now,
            );
            law_others_keep_limits(kept, Seq::empty(), limits, Seq::empty(), shown, none, now);
        },
        Operation::Sync { namespace, memories, now } => {
            let outcome = sync_outcome(state, namespace, limits, memories, now);
            if outcome is Ok {
                law_sync_keeps_limits(state, namespace, limits, memories, now, outcome->Ok_0);
            }
        },
    }
}

/// Every operation keeps the identifiers in use reserved, and lowers no smallest unused one.
pub proof fn law_operations_reserve_ids(
    state: StoreView,
    limits: MemoryLimits,
    operation: Operation,
)
    requires
        valid_state(state),
        ids_reserved(state),
        well_typed(operation),
    ensures
        ids_reserved(after(state, limits, operation)),
        forall|namespace: Seq<char>| #[trigger]
            state.next_ids.dom().contains(namespace) ==> after(
                state,
                limits,
                operation,
            ).next_ids.dom().contains(namespace) && state.next_ids[namespace] <= after(
                state,
                limits,
                operation,
            ).next_ids[namespace],
{
    let none = KeyView { id: 0, version: 0, namespace: None };
    match operation {
        Operation::Put { namespace, content, replacement, now } => {
            let outcome = put_outcome(state, namespace, limits, content, replacement, now);
            if outcome is Ok {
                let (stored, record) = outcome->Ok_0;
                law_put_reserves_ids(
                    state,
                    namespace,
                    limits,
                    content,
                    replacement,
                    now,
                    stored,
                    record,
                );
            }
        },
        Operation::Delete { namespace, key } => {
            law_ids_stay_reserved(state, namespace, Seq::empty(), Seq::empty(), key, 0);
        },
        Operation::Read { namespace, ids, keys, now } => {
            law_ids_stay_reserved(state, namespace, ids, keys, none, now);
        },
        Operation::List { now } => {
            law_ids_stay_reserved(state, Seq::empty(), Seq::empty(), Seq::empty(), none, now);
        },
        Operation::Scan { shown, now } => {
            let kept = pruned(state, now);
            law_pruning(state, now, Seq::empty(), 0);
            law_ids_stay_reserved(state, Seq::empty(), Seq::empty(), Seq::empty(), none, now);
            law_ids_stay_reserved(kept, Seq::empty(), Seq::empty(), shown, none, now);
        },
        Operation::Sync { namespace, memories, now } => {
            let outcome = sync_outcome(state, namespace, limits, memories, now);
            if outcome is Ok {
                law_sync_reserves_ids(state, namespace, limits, memories, now, outcome->Ok_0);
            }
        },
    }
}

/// Whatever is done to a database, its invariant holds, the identifiers in use stay reserved, and
/// no smallest unused identifier is lowered.
pub proof fn law_histories(state: StoreView, limits: MemoryLimits, operations: Seq<Operation>)
    requires
        valid_state(state),
        ids_reserved(state),
        forall|i: int| 0 <= i < operations.len() ==> well_typed(#[trigger] operations[i]),
    ensures
        valid_state(after_all(state, limits, operations)),
        ids_reserved(after_all(state, limits, operations)),
        forall|namespace: Seq<char>| #[trigger]
            state.next_ids.dom().contains(namespace) ==> after_all(
                state,
                limits,
                operations,
            ).next_ids.dom().contains(namespace) && state.next_ids[namespace] <= after_all(
                state,
                limits,
                operations,
            ).next_ids[namespace],
    decreases operations.len(),
{
    if operations.len() > 0 {
        let earlier = operations.drop_last();
        assert forall|i: int| 0 <= i < earlier.len() implies well_typed(#[trigger] earlier[i]) by {
            assert(earlier[i] == operations[i]);
        }
        law_histories(state, limits, earlier);
        let before = after_all(state, limits, earlier);
        let operation = operations.last();
        assert(well_typed(operations[operations.len() - 1]));
        law_operations_keep_invariant(before, limits, operation);
        law_operations_reserve_ids(before, limits, operation);
        assert forall|namespace: Seq<char>| #[trigger]
            state.next_ids.dom().contains(namespace) implies after_all(
            state,
            limits,
            operations,
        ).next_ids.dom().contains(namespace) && state.next_ids[namespace] <= after_all(
            state,
            limits,
            operations,
        ).next_ids[namespace] by {
            assert(before.next_ids.dom().contains(namespace));
        }
    }
}

/// Whatever is done to a database whose namespaces are within the limits, they stay within them.
pub proof fn law_histories_keep_limits(
    state: StoreView,
    limits: MemoryLimits,
    operations: Seq<Operation>,
)
    requires
        valid_state(state),
        within_limits(state.rows, limits),
        limits.total_content_bytes < u64::MAX,
        forall|i: int| 0 <= i < operations.len() ==> well_typed(#[trigger] operations[i]),
    ensures
        valid_state(after_all(state, limits, operations)),
        within_limits(after_all(state, limits, operations).rows, limits),
    decreases operations.len(),
{
    if operations.len() > 0 {
        let earlier = operations.drop_last();
        assert forall|i: int| 0 <= i < earlier.len() implies well_typed(#[trigger] earlier[i]) by {
            assert(earlier[i] == operations[i]);
        }
        law_histories_keep_limits(state, limits, earlier);
        let before = after_all(state, limits, earlier);
        assert(well_typed(operations[operations.len() - 1]));
        law_operations_keep_invariant(before, limits, operations.last());
        law_operations_keep_limits(before, limits, operations.last());
    }
}

/// An identifier that was once in use is not given to a new memory of its namespace, whatever is
/// done in between: not after a delete, an expiry or a snapshot either.
pub proof fn law_ids_are_never_reused(
    state: StoreView,
    limits: MemoryLimits,
    used: RowView,
    operations: Seq<Operation>,
    content: Seq<char>,
    now: int,
    stored: StoreView,
    record: RecordView,
)
    requires
        valid_state(state),
        ids_reserved(state),
        forall|i: int| 0 <= i < operations.len() ==> well_typed(#[trigger] operations[i]),
        state.rows.contains(used),
        put_outcome(
            after_all(state, limits, operations),
            used.namespace,
            limits,
            content,
            None,
            now,
        ) == Ok::<(StoreView, RecordView), MemoryError>((stored, record)),
    ensures
        record.key.id > used.id,
{
    law_histories(state, limits, operations);
    let i = choose|i: int| 0 <= i < state.rows.len() && state.rows[i] == used;
    assert(valid_row(state.rows[i]));
    assert(state.next_ids.dom().contains(used.namespace));
    law_ids_are_not_reused(
        state,
        used,
        after_all(state, limits, operations),
        limits,
        content,
        now,
        stored,
        record,
    );
}

/// An empty database satisfies what histories preserve.
pub proof fn law_empty_database(limits: MemoryLimits)
    ensures
        valid_state(StoreView { rows: Seq::empty(), next_ids: Map::empty() }),
        within_limits(Seq::empty(), limits),
        ids_reserved(StoreView { rows: Seq::empty(), next_ids: Map::empty() }),
{
}

} // verus!
