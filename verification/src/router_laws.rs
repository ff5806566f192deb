//! Laws of authentication and admission.

use vstd::prelude::*;

use crate::auth::{
    authorization_key, authorization_token, device_for, devices_distinct, entry_for,
    law_authorization_parses, law_policy_resolves_exactly_bound_devices, public_key,
    same_ignoring_case, token_hash, AuthSource, DeviceView, EntryView, PrincipalView, AUTH_SCHEME,
};
use crate::mutations::{content_fault, delete_outcome, put_outcome};
use crate::protocol::{
    production_limits, KeyView, MemoryError, RecordView, RemoteErrorCode, RemoteRole,
};
use crate::router::{
    acceptable, acceptable_snapshot, answer, authentication, delete_fault, identified, put_fault,
    write_authorization, ApiError, HeadersView,
};
use crate::rows::StoreView;
use crate::snapshot::{first_fault, snapshot_bytes, snapshot_fault};
use crate::text::ascii_lower;

verus! {

/// An authenticated principal has the namespace that the request asserts: a request cannot act in
/// a namespace other than the one its sender is bound to. A bearer token authenticates loopback
/// peers only.
pub proof fn law_principal_is_bound(
    devices: Seq<DeviceView>,
    tokens: Seq<EntryView>,
    headers: HeadersView,
    principal: PrincipalView,
)
    requires
        authentication(devices, tokens, headers) == Ok::<PrincipalView, ApiError>(principal),
    ensures
        headers.namespace == Some(principal.namespace),
        principal.source == AuthSource::Bearer ==> headers.loopback,
        principal.source == AuthSource::Kepos ==> exists|i: int|
            0 <= i < devices.len() && (#[trigger] devices[i]).namespace == principal.namespace
                && devices[i].role == principal.role && authorization_key(
                headers.authorization->0,
            ) == Some(devices[i].key),
        principal.source == AuthSource::Bearer ==> exists|i: int|
            0 <= i < tokens.len() && (#[trigger] tokens[i]).namespace == principal.namespace
                && tokens[i].role == principal.role && (authorization_token(
                headers.authorization->0,
            ) matches Some(token) && token_hash(token) == tokens[i].hash),
{
    if principal.source == AuthSource::Kepos {
        let key = authorization_key(headers.authorization->0)->0;
        let i = lemma_device_index(devices, key);
        assert(devices[i].namespace == principal.namespace);
    } else {
        let token = authorization_token(headers.authorization->0)->0;
        let i = lemma_entry_index(tokens, token_hash(token));
        assert(tokens[i].namespace == principal.namespace);
    }
}

/// A hash that resolves is that of an entry.
proof fn lemma_entry_index(tokens: Seq<EntryView>, hash: Seq<u8>) -> (i: int)
    requires
        entry_for(tokens, hash) is Some,
    ensures
        0 <= i < tokens.len(),
        tokens[i].hash == hash,
        entry_for(tokens, hash) == Some((tokens[i].namespace, tokens[i].role)),
    decreases tokens.len(),
{
    if tokens[0].hash == hash {
        0
    } else {
        let i = lemma_entry_index(tokens.drop_first(), hash);
        assert(tokens.drop_first()[i] == tokens[i + 1]);
        i + 1
    }
}

/// A key that resolves is that of a device.
proof fn lemma_device_index(devices: Seq<DeviceView>, key: Seq<char>) -> (i: int)
    requires
        device_for(devices, key) is Some,
    ensures
        0 <= i < devices.len(),
        devices[i].key == key,
        device_for(devices, key) == Some((devices[i].namespace, devices[i].role)),
    decreases devices.len(),
{
    if devices[0].key == key {
        0
    } else {
        let i = lemma_device_index(devices.drop_first(), key);
        assert(devices.drop_first()[i] == devices[i + 1]);
        i + 1
    }
}

/// A device that is bound authenticates with its key in any case, the scheme in any case, and the
/// namespace that it is bound to.
pub proof fn law_bound_device_authenticates(
    devices: Seq<DeviceView>,
    tokens: Seq<EntryView>,
    i: int,
    scheme: Seq<char>,
    key: Seq<char>,
    loopback: bool,
)
    requires
        devices_distinct(devices),
        0 <= i < devices.len(),
        same_ignoring_case(scheme, AUTH_SCHEME@),
        public_key(key),
        ascii_lower(key) == devices[i].key,
    ensures
        authentication(
            devices,
            tokens,
            HeadersView {
                authorization: Some(scheme.push(' ') + key),
                namespace: Some(devices[i].namespace),
                loopback,
            },
        ) == Ok::<PrincipalView, ApiError>(
            PrincipalView {
                namespace: devices[i].namespace,
                role: devices[i].role,
                source: AuthSource::Kepos,
            },
        ),
{
    law_authorization_parses(scheme, key);
    law_policy_resolves_exactly_bound_devices(devices, devices[i].key);
}

/// A request without an authorization, or one that identifies nobody, is answered 401; one that
/// identifies somebody but asserts another namespace or none is answered 403.
pub proof fn law_refused_requests(
    devices: Seq<DeviceView>,
    tokens: Seq<EntryView>,
    headers: HeadersView,
)
    ensures
        headers.authorization is None || identified(
            devices,
            tokens,
            headers.loopback,
            headers.authorization->0,
        ) is None ==> authentication(devices, tokens, headers) == Err::<PrincipalView, ApiError>(
            answer(401, RemoteErrorCode::Unauthorized),
        ),
        headers.authorization is Some && (identified(
            devices,
            tokens,
            headers.loopback,
            headers.authorization->0,
        ) matches Some(principal) && headers.namespace != Some(principal.namespace))
            ==> authentication(devices, tokens, headers) == Err::<PrincipalView, ApiError>(
            answer(403, RemoteErrorCode::NamespaceMismatch),
        ),
{
}

/// Where no device is bound and no token is known, every request is answered 401.
pub proof fn law_nobody_bound(headers: HeadersView)
    ensures
        authentication(Seq::empty(), Seq::empty(), headers) == Err::<PrincipalView, ApiError>(
            answer(401, RemoteErrorCode::Unauthorized),
        ),
{
}

/// A reader is answered 403 to every request that mutates.
pub proof fn law_readers_cannot_mutate(
    devices: Seq<DeviceView>,
    tokens: Seq<EntryView>,
    headers: HeadersView,
    principal: PrincipalView,
)
    requires
        authentication(devices, tokens, headers) == Ok::<PrincipalView, ApiError>(principal),
        principal.role == RemoteRole::Reader,
    ensures
        write_authorization(devices, tokens, headers) == Err::<PrincipalView, ApiError>(
            answer(403, RemoteErrorCode::Forbidden),
        ),
{
}

/// A put or delete that is admitted is never refused by the store for its size or its namespace.
pub proof fn law_admitted_mutations_fit(
    state: StoreView,
    namespace: Seq<char>,
    content: Seq<char>,
    replacement: Option<KeyView>,
    key: KeyView,
    now: int,
)
    ensures
        put_fault(namespace, content, replacement) is None ==> content_fault(
            content,
            production_limits(),
        ) is None && match put_outcome(
            state,
            namespace,
            production_limits(),
            content,
            replacement,
            now,
        ) {
            Ok(_) => true,
            Err(error) => !(error is ContentTooLarge) && !(error is RemoteReadOnly),
        },
        delete_fault(namespace, key) is None ==> match delete_outcome(state, namespace, key) {
            Ok(_) => true,
            Err(error) => error == MemoryError::Conflict,
        },
{
}

/// What the store finds wrong with a snapshot that was admitted: at most a number that it cannot
/// hold, or two equivalent contents.
pub proof fn law_admitted_snapshots_fit(memories: Seq<RecordView>)
    requires
        acceptable_snapshot(memories),
    ensures
        match snapshot_fault(memories, production_limits()) {
            None => true,
            Some(error) => error == MemoryError::Conflict || error == MemoryError::Duplicate,
        },
{
    lemma_admitted_records_fit(memories);
}

proof fn lemma_admitted_records_fit(memories: Seq<RecordView>)
    requires
        forall|i: int| 0 <= i < memories.len() ==> acceptable(#[trigger] memories[i]),
        snapshot_bytes(memories) <= production_limits().total_content_bytes,
    ensures
        match first_fault(memories, production_limits()) {
            None => true,
            Some(error) => error == MemoryError::Conflict || error == MemoryError::Duplicate,
        },
    decreases memories.len(),
{
    if memories.len() > 0 {
        let earlier = memories.drop_last();
        assert forall|i: int| 0 <= i < earlier.len() implies acceptable(#[trigger] earlier[i]) by {
            assert(earlier[i] == memories[i]);
        }
        assert(acceptable(memories[memories.len() - 1]));
        lemma_admitted_records_fit(earlier);
    }
}

} // verus!
