//! What puts and deletes give, and what they leave behind.

use vstd::prelude::*;

use crate::protocol::{KeyView, MemoryError, MemoryKey, MemoryLimits, RecordView};
use crate::rows::{
    content_total, delete_row, identity_taken, insert_row, lookup, record_count, record_of,
    replace_row, unexpired, RowView, StoreView,
};
use crate::table::{fresh_id, with_namespace};
use crate::text::{identity_of, is_blank, utf8_len};

verus! {

/// What is wrong with `content`, if anything: it is blank, or it is too large.
pub open spec fn content_fault(content: Seq<char>, limits: MemoryLimits) -> Option<MemoryError> {
    if is_blank(content) {
        Some(MemoryError::EmptyContent)
    } else if utf8_len(content) > limits.content_bytes {
        Some(MemoryError::ContentTooLarge { maximum_bytes: limits.content_bytes })
    } else {
        None
    }
}

/// Why `content` cannot be stored whatever the database holds, if it cannot: it is blank or too
/// large, or its identity is empty.
pub open spec fn storing_fault(content: Seq<char>, limits: MemoryLimits) -> Option<MemoryError> {
    if content_fault(content, limits) is Some {
        content_fault(content, limits)
    } else if identity_of(content).len() == 0 {
        Some(MemoryError::EmptyContent)
    } else {
        None
    }
}

/// `state` without the unread memories whose probation is over at `now`.
pub open spec fn pruned(state: StoreView, now: int) -> StoreView {
    StoreView { rows: unexpired(state.rows, now), ..state }
}

/// `n` held within the range of a signed 64-bit number.
pub open spec fn clamped(n: int) -> int {
    if n < i64::MIN {
        i64::MIN as int
    } else if n > i64::MAX {
        i64::MAX as int
    } else {
        n
    }
}

/// `n` held within the range of an unsigned 64-bit number.
pub open spec fn capped(n: int) -> int {
    if n > u64::MAX {
        u64::MAX as int
    } else {
        n
    }
}

/// The first version of a memory: unread, unscanned, and on probation.
pub open spec fn new_row(
    namespace: Seq<char>,
    id: int,
    content: Seq<char>,
    limits: MemoryLimits,
    now: int,
) -> RowView {
    RowView {
        namespace,
        id,
        version: 1,
        content,
        identity: identity_of(content),
        created_at_ms: now,
        updated_at_ms: now,
        last_scanned_at_ms: None,
        scan_count: 0,
        last_used_at_ms: None,
        use_count: 0,
        probation_until_ms: Some(clamped(now + limits.probation_duration_ms)),
    }
}

/// The next version of `row`: its content replaced, unread, unscanned, and on probation again.
pub open spec fn next_row(
    row: RowView,
    content: Seq<char>,
    limits: MemoryLimits,
    now: int,
) -> RowView {
    RowView {
        version: row.version + 1,
        created_at_ms: row.created_at_ms,
        ..new_row(row.namespace, row.id, content, limits, now)
    }
}

/// What adding `content` to `namespace` gives: the database and the new memory, or a failure.
pub open spec fn insert_outcome(
    state: StoreView,
    namespace: Seq<char>,
    limits: MemoryLimits,
    content: Seq<char>,
    now: int,
) -> Result<(StoreView, RowView), MemoryError> {
    let bytes = content_total(state.rows, namespace);
    let next_ids = with_namespace(state.next_ids, namespace);
    let id = fresh_id(StoreView { next_ids, ..state }, namespace);
    let row = new_row(namespace, id, content, limits, now);
    if identity_taken(state.rows, namespace, identity_of(content), None) {
        Err(MemoryError::Duplicate)
    } else if bytes > i64::MAX {
        Err(MemoryError::Backend)
    } else if record_count(state.rows, namespace) >= limits.records {
        Err(MemoryError::RecordCapacity { maximum: limits.records })
    } else if capped(bytes + utf8_len(content)) > limits.total_content_bytes {
        Err(MemoryError::ContentCapacity { maximum_bytes: limits.total_content_bytes })
    } else if id >= i64::MAX {
        Err(MemoryError::StorageCapacity)
    } else {
        Ok(
            (
                StoreView {
                    rows: insert_row(state.rows, row),
                    next_ids: next_ids.insert(namespace, id + 1),
                },
                row,
            ),
        )
    }
}

/// What replacing the memory `key` by `content` on behalf of `namespace` gives: the database and
/// the next version of the memory, or a failure.
pub open spec fn replace_outcome(
    state: StoreView,
    namespace: Seq<char>,
    limits: MemoryLimits,
    content: Seq<char>,
    key: KeyView,
    now: int,
) -> Result<(StoreView, RowView), MemoryError> {
    let bytes = content_total(state.rows, namespace);
    if key.namespace != Some(namespace) {
        Err(MemoryError::RemoteReadOnly)
    } else {
        match lookup(state.rows, namespace, key.id) {
            None => Err(MemoryError::NotFound),
            Some(current) => if current.version != key.version {
                Err(MemoryError::Conflict)
            } else if identity_taken(state.rows, namespace, identity_of(content), Some(key.id)) {
                Err(MemoryError::Duplicate)
            } else if bytes > i64::MAX {
                Err(MemoryError::Backend)
            } else if capped(bytes - utf8_len(current.content) + utf8_len(content))
                > limits.total_content_bytes {
                Err(MemoryError::ContentCapacity { maximum_bytes: limits.total_content_bytes })
            } else if current.version == i64::MAX {
                Err(MemoryError::Backend)
            } else {
                let row = next_row(current, content, limits, now);
                Ok((StoreView { rows: replace_row(state.rows, row), ..state }, row))
            },
        }
    }
}

/// The value of an optional key.
pub open spec fn optional_key(key: Option<MemoryKey>) -> Option<KeyView> {
    match key {
        Some(key) => Some(key@),
        None => None,
    }
}

/// What storing `content` on behalf of `namespace` gives, as a new memory or as the next version
/// of `replacement`: the database and the record, or a failure.
pub open spec fn put_outcome(
    state: StoreView,
    namespace: Seq<char>,
    limits: MemoryLimits,
    content: Seq<char>,
    replacement: Option<KeyView>,
    now: int,
) -> Result<(StoreView, RecordView), MemoryError> {
    if storing_fault(content, limits) is Some {
        Err(storing_fault(content, limits)->0)
    } else {
        let outcome = match replacement {
            Some(key) => replace_outcome(pruned(state, now), namespace, limits, content, key, now),
            None => insert_outcome(pruned(state, now), namespace, limits, content, now),
        };
        match outcome {
            Ok((after, row)) => Ok((after, record_of(row))),
            Err(error) => Err(error),
        }
    }
}

/// What deleting the memory `key` on behalf of `namespace` gives: the database, or a failure. A
/// memory that is absent counts as deleted.
pub open spec fn delete_outcome(state: StoreView, namespace: Seq<char>, key: KeyView) -> Result<
    StoreView,
    MemoryError,
> {
    if key.namespace != Some(namespace) {
        Err(MemoryError::RemoteReadOnly)
    } else {
        match lookup(state.rows, namespace, key.id) {
            None => Ok(state),
            Some(current) => if current.version != key.version {
                Err(MemoryError::Conflict)
            } else {
                Ok(StoreView { rows: delete_row(state.rows, namespace, key.id), ..state })
            },
        }
    }
}

} // verus!
