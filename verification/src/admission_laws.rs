//! Laws of admission: which requests are let through, and how the others are answered.

use vstd::prelude::*;
use vstd::utf8::encode_utf8;

use crate::auth::{
    authorization_token, entry_for, token_hash, AuthSource, DeviceView, EntryView, PrincipalView,
};
use crate::auth_laws::{law_authorization_grammar, law_bearer_grammar};
use crate::protocol::{
    production_limits, valid_namespace, CursorView, KeyView, MemoryError, RecordView,
    RemoteErrorCode, RemoteRole,
};
use crate::router::{
    acceptable, admission, authentication, delete_fault, export_fault, failure_of, put_fault,
    read_fault, scan_fault, sync_fault, well_formed_key, write_authorization, ApiError, HeadersView,
};
use crate::snapshot_laws::{lemma_snapshot_bytes, texts_of};
use crate::terms::bytes_of;
use crate::text::is_space;

verus! {

/// A request is let through exactly where its sender is known, its body could be read, and nothing
/// is wrong with it; it then comes out as it went in. Otherwise the first of the three that fails
/// is answered: an unreadable body with 413 where its reader said so, and with 400 otherwise.
pub proof fn law_admission<T>(
    sender: Result<PrincipalView, ApiError>,
    payload: Result<T, u16>,
    fault: spec_fn(PrincipalView, T) -> Option<ApiError>,
)
    ensures
        sender is Err ==> admission(sender, payload, fault) == Err::<(PrincipalView, T), ApiError>(
            sender->Err_0,
        ),
        sender is Ok && payload is Err ==> admission(sender, payload, fault) == Err::<
            (PrincipalView, T),
            ApiError,
        >(
            ApiError {
                status: if payload->Err_0 == 413 {
                    413
                } else {
                    400
                },
                code: RemoteErrorCode::BadRequest,
            },
        ),
        sender is Ok && payload is Ok && fault(sender->Ok_0, payload->Ok_0) is Some ==> admission(
            sender,
            payload,
            fault,
        ) == Err::<(PrincipalView, T), ApiError>(fault(sender->Ok_0, payload->Ok_0)->0),
        sender is Ok && payload is Ok && fault(sender->Ok_0, payload->Ok_0) is None ==> admission(
            sender,
            payload,
            fault,
        ) == Ok::<(PrincipalView, T), ApiError>((sender->Ok_0, payload->Ok_0)),
{
}

/// Nothing is wrong with a scan exactly where its query has at most 512 bytes and its limit is 1,
/// 2, 3, 4 or 5. A query that is too large is answered 413, whatever the limit.
pub proof fn law_scan_admitted(query: Seq<char>, limit: int)
    requires
        limit >= 0,
    ensures
        scan_fault(query, limit) is None <==> encode_utf8(query).len() <= 512 && 1 <= limit
            && limit <= 5,
        encode_utf8(query).len() > 512 ==> scan_fault(query, limit) == Some(
            ApiError { status: 413, code: RemoteErrorCode::QueryTooLarge },
        ),
        encode_utf8(query).len() <= 512 && !(1 <= limit && limit <= 5) ==> scan_fault(query, limit)
            == Some(ApiError { status: 400, code: RemoteErrorCode::BadRequest }),
{
}

/// Whether a key can name a memory: its numbers are at least 1, and its namespace, if it has one,
/// is well formed.
pub open spec fn can_name(key: KeyView) -> bool {
    key.id >= 1 && key.version >= 1 && (key.namespace is None || valid_namespace(key.namespace->0))
}

/// Nothing is wrong with a read exactly where it asks for at most 512 memories in all, each
/// identifier is at least 1, and each key can name a memory. Otherwise it is answered 400.
pub proof fn law_read_admitted(ids: Seq<i64>, keys: Seq<KeyView>)
    ensures
        read_fault(ids, keys) is None <==> ids.len() + keys.len() <= 512 && (forall|i: int|
            0 <= i < ids.len() ==> #[trigger] ids[i] >= 1) && (forall|i: int|
            0 <= i < keys.len() ==> can_name(#[trigger] keys[i])),
        read_fault(ids, keys) is Some ==> read_fault(ids, keys) == Some(
            ApiError { status: 400, code: RemoteErrorCode::BadRequest },
        ),
{
    if read_fault(ids, keys) is None {
        assert forall|i: int| 0 <= i < keys.len() implies can_name(#[trigger] keys[i]) by {
            assert(well_formed_key(keys[i]));
        }
    }
    if forall|i: int| 0 <= i < keys.len() ==> can_name(#[trigger] keys[i]) {
        assert forall|i: int| 0 <= i < keys.len() implies well_formed_key(#[trigger] keys[i]) by {
            assert(can_name(keys[i]));
        }
    }
}

/// Nothing is wrong with a put exactly where its content is not blank and has at most 1024 bytes,
/// and what it replaces, if anything, can be named and is of the sender's own namespace. A blank
/// content is answered 400, one that is too large 413, another's memory 403, in this order.
pub proof fn law_put_admitted(
    namespace: Seq<char>,
    content: Seq<char>,
    replacement: Option<KeyView>,
)
    ensures
        ({
            let blank = forall|i: int|
                0 <= i < content.len() ==> is_space(#[trigger] content[i]);
            let large = encode_utf8(content).len() > 1024;
            let own = replacement is None || (can_name(replacement->0)
                && replacement->0.namespace == Some(namespace));
            let fault = put_fault(namespace, content, replacement);
            &&& fault is None <==> !blank && !large && own
            &&& blank ==> fault == Some(
                ApiError { status: 400, code: RemoteErrorCode::BadRequest },
            )
            &&& !blank && large ==> fault == Some(
                ApiError { status: 413, code: RemoteErrorCode::ContentTooLarge },
            )
            &&& !blank && !large && !own ==> fault == Some(
                ApiError { status: 403, code: RemoteErrorCode::Forbidden },
            )
        }),
{
}

/// Nothing is wrong with a delete exactly where its key can name a memory and is of the sender's
/// own namespace. Otherwise it is answered 403.
pub proof fn law_delete_admitted(namespace: Seq<char>, key: KeyView)
    ensures
        delete_fault(namespace, key) is None <==> can_name(key) && key.namespace == Some(namespace),
        delete_fault(namespace, key) is Some ==> delete_fault(namespace, key) == Some(
            ApiError { status: 403, code: RemoteErrorCode::Forbidden },
        ),
{
}

/// Nothing is wrong with a sync exactly where it has at most 512 records and 262144 bytes of
/// content, no identifier twice, and each record has a local key that can name a memory, a content
/// that is not blank and has at most 1024 bytes, and times in order. When a record was scanned or
/// read, how often, and whether it is on probation, does not matter. Otherwise it is answered 400.
pub proof fn law_sync_admitted(memories: Seq<RecordView>)
    ensures
        sync_fault(memories) is None <==> {
            &&& memories.len() <= 512
            &&& forall|i: int|
                0 <= i < memories.len() ==> {
                    let memory = #[trigger] memories[i];
                    &&& memory.key.namespace is None
                    &&& memory.key.id >= 1
                    &&& memory.key.version >= 1
                    &&& exists|k: int|
                        0 <= k < memory.content.len() && !is_space(#[trigger] memory.content[k])
                    &&& encode_utf8(memory.content).len() <= 1024
                    &&& 0 <= memory.created_at_ms
                    &&& memory.created_at_ms <= memory.updated_at_ms
                }
            &&& forall|i: int, j: int|
                0 <= i < j < memories.len() ==> (#[trigger] memories[i]).key.id != (
                #[trigger] memories[j]).key.id
            &&& bytes_of(texts_of(memories)) <= 262144
        },
        sync_fault(memories) is Some ==> sync_fault(memories) == Some(
            ApiError { status: 400, code: RemoteErrorCode::BadRequest },
        ),
{
    lemma_snapshot_bytes(memories);
    assert forall|i: int| 0 <= i < memories.len() implies (acceptable(#[trigger] memories[i])
        <==> {
        let memory = memories[i];
        &&& memory.key.namespace is None
        &&& memory.key.id >= 1
        &&& memory.key.version >= 1
        &&& exists|k: int| 0 <= k < memory.content.len() && !is_space(#[trigger] memory.content[k])
        &&& encode_utf8(memory.content).len() <= 1024
        &&& 0 <= memory.created_at_ms
        &&& memory.created_at_ms <= memory.updated_at_ms
    }) by {}
}

/// Nothing is wrong with an export exactly where its page size is 1 to 128, it selects every
/// namespace or 1 to 512 well-formed ones, and its cursor, if it has one, is of a well-formed
/// namespace and an identifier of at least 1. Otherwise it is answered 400.
pub proof fn law_export_admitted(
    namespaces: Option<Seq<Seq<char>>>,
    cursor: Option<CursorView>,
    limit: int,
)
    ensures
        export_fault(namespaces, cursor, limit) is None <==> {
            &&& 1 <= limit
            &&& limit <= 128
            &&& namespaces is Some ==> 1 <= namespaces->0.len() <= 512 && forall|i: int|
                0 <= i < namespaces->0.len() ==> valid_namespace(#[trigger] namespaces->0[i])
            &&& cursor is Some ==> valid_namespace(cursor->0.namespace) && cursor->0.id >= 1
        },
        export_fault(namespaces, cursor, limit) is Some ==> export_fault(namespaces, cursor, limit)
            == Some(ApiError { status: 400, code: RemoteErrorCode::BadRequest }),
{
}

/// A request that mutates has the sender that any request with its headers has, exactly where that
/// sender is a writer; a reader is answered 403.
pub proof fn law_writers_may_mutate(
    devices: Seq<DeviceView>,
    tokens: Seq<EntryView>,
    headers: HeadersView,
)
    ensures
        ({
            let sender = authentication(devices, tokens, headers);
            let writer = write_authorization(devices, tokens, headers);
            &&& sender is Err ==> writer == sender
            &&& sender is Ok && sender->Ok_0.role == RemoteRole::Writer ==> writer == sender
            &&& sender is Ok && sender->Ok_0.role == RemoteRole::Reader ==> writer == Err::<
                PrincipalView,
                ApiError,
            >(ApiError { status: 403, code: RemoteErrorCode::Forbidden })
        }),
{
}

/// A loopback peer that presents a token of the table, after the scheme `Bearer` in any case, and
/// asserts the token's namespace, is authenticated with the token's namespace and role; another
/// peer with the same headers is answered 401.
pub proof fn law_known_token_authenticates(
    devices: Seq<DeviceView>,
    tokens: Seq<EntryView>,
    value: Seq<char>,
    token: Seq<char>,
    namespace: Seq<char>,
    role: RemoteRole,
)
    requires
        authorization_token(value) == Some(token),
        entry_for(tokens, token_hash(token)) == Some((namespace, role)),
    ensures
        authentication(
            devices,
            tokens,
            HeadersView {
                authorization: Some(value),
                namespace: Some(namespace),
                loopback: true,
            },
        ) == Ok::<PrincipalView, ApiError>(
            PrincipalView { namespace, role, source: AuthSource::Bearer },
        ),
        authentication(
            devices,
            tokens,
            HeadersView {
                authorization: Some(value),
                namespace: Some(namespace),
                loopback: false,
            },
        ) == Err::<PrincipalView, ApiError>(
            ApiError { status: 401, code: RemoteErrorCode::Unauthorized },
        ),
{
    law_authorization_grammar(value);
    law_bearer_grammar(value);
}

/// How a failed store operation is answered.
pub proof fn law_failures_are_answered(error: MemoryError)
    ensures
        failure_of(error).status == match error {
            MemoryError::EmptyContent => 400u16,
            MemoryError::ContentTooLarge { .. } => 413u16,
            MemoryError::QueryTooLarge { .. } => 413u16,
            MemoryError::RecordCapacity { .. } => 507u16,
            MemoryError::ContentCapacity { .. } => 507u16,
            MemoryError::StorageCapacity => 507u16,
            MemoryError::SecretRejected => 400u16,
            MemoryError::Duplicate => 409u16,
            MemoryError::NotFound => 404u16,
            MemoryError::Conflict => 409u16,
            MemoryError::RemoteReadOnly => 403u16,
            MemoryError::InvalidPagination => 500u16,
            MemoryError::UnsupportedSchemaVersion { .. } => 500u16,
            MemoryError::Backend => 500u16,
            MemoryError::Unavailable => 503u16,
        },
        failure_of(error).code == match error {
            MemoryError::EmptyContent => RemoteErrorCode::BadRequest,
            MemoryError::ContentTooLarge { .. } => RemoteErrorCode::ContentTooLarge,
            MemoryError::QueryTooLarge { .. } => RemoteErrorCode::QueryTooLarge,
            MemoryError::RecordCapacity { .. } => RemoteErrorCode::RecordCapacity,
            MemoryError::ContentCapacity { .. } => RemoteErrorCode::ContentCapacity,
            MemoryError::StorageCapacity => RemoteErrorCode::ContentCapacity,
            MemoryError::SecretRejected => RemoteErrorCode::BadRequest,
            MemoryError::Duplicate => RemoteErrorCode::Duplicate,
            MemoryError::NotFound => RemoteErrorCode::NotFound,
            MemoryError::Conflict => RemoteErrorCode::Conflict,
            MemoryError::RemoteReadOnly => RemoteErrorCode::Forbidden,
            MemoryError::InvalidPagination => RemoteErrorCode::Internal,
            MemoryError::UnsupportedSchemaVersion { .. } => RemoteErrorCode::Internal,
            MemoryError::Backend => RemoteErrorCode::Internal,
            MemoryError::Unavailable => RemoteErrorCode::Unavailable,
        },
{
}

/// What a server allows: 1 KiB per content, 512 memories and 256 KiB per namespace, five results
/// and 512 bytes of query per scan, and seven days in which an unread memory is kept.
pub proof fn law_server_limits()
    ensures
        production_limits().content_bytes == 1024,
        production_limits().records == 512,
        production_limits().total_content_bytes == 256 * 1024,
        production_limits().scan_results == 5,
        production_limits().query_bytes == 512,
        production_limits().probation_duration_ms == 7 * 24 * 60 * 60 * 1000,
{
}

} // verus!
