//! Who may do what: authentication of requests, their validation, and the answers to failures.

use vstd::prelude::*;
use vstd::utf8::encode_utf8;

use crate::auth::{
    authorization_key, authorization_token, device_for, entry_for, law_parsed_key_is_normal,
    parse_authorization, parse_bearer, token_hash, AuthSource, CredentialTable, DeviceView,
    EntryView, KeposPolicy, Principal, PrincipalView, AUTH_SCHEME,
};
use crate::mutations::optional_key;
use crate::protocol::{
    is_valid_namespace, key_views, optional_cursor, optional_text, production_limits, record_views,
    valid_namespace, CursorView, DeleteRequest, ExportRequest, KeyView, MemoryError, MemoryKey,
    MemoryLimits, MemoryRecord, PutRequest, ReadRequest, RecordView, RemoteErrorCode, RemoteRole,
    ScanRequest, SessionResponse, SyncRequest, MAX_EXPORT_PAGE_RECORDS, VERSION,
};
use crate::snapshot::snapshot_bytes;
use crate::store::SqliteMemoryStore;
use crate::text::{blank, byte_len, is_blank, is_space, same_text, texts, utf8_len};

verus! {

/// Largest request body: the worst-case JSON escaping of a full namespace.
pub const MAX_JSON_BODY_BYTES: usize = 2097152;

/// Largest number of requests that are served at a time.
pub const MAX_IN_FLIGHT_REQUESTS: usize = 64;

/// Time after which a store operation is given up.
pub const STORE_OPERATION_TIMEOUT_SECONDS: u64 = 30;

pub const BAD_REQUEST: u16 = 400;

pub const UNAUTHORIZED: u16 = 401;

pub const FORBIDDEN: u16 = 403;

pub const NOT_FOUND: u16 = 404;

pub const CONFLICT: u16 = 409;

pub const PAYLOAD_TOO_LARGE: u16 = 413;

pub const INTERNAL_SERVER_ERROR: u16 = 500;

pub const SERVICE_UNAVAILABLE: u16 = 503;

pub const INSUFFICIENT_STORAGE: u16 = 507;

/// A failed request, as the client sees it.
#[derive(Clone, Copy, Debug, PartialEq, Eq, Structural)]
pub struct ApiError {
    pub status: u16,
    pub code: RemoteErrorCode,
}

/// The answer with `status` and `code`.
pub open spec fn answer(status: u16, code: RemoteErrorCode) -> ApiError {
    ApiError { status, code }
}

/// The answer to a store operation that failed with `error`.
pub open spec fn failure_of(error: MemoryError) -> ApiError {
    match error {
        MemoryError::EmptyContent | MemoryError::SecretRejected => answer(
            400,
            RemoteErrorCode::BadRequest,
        ),
        MemoryError::ContentTooLarge { .. } => answer(413, RemoteErrorCode::ContentTooLarge),
        MemoryError::QueryTooLarge { .. } => answer(413, RemoteErrorCode::QueryTooLarge),
        MemoryError::RecordCapacity { .. } => answer(507, RemoteErrorCode::RecordCapacity),
        MemoryError::ContentCapacity { .. } | MemoryError::StorageCapacity => answer(
            507,
            RemoteErrorCode::ContentCapacity,
        ),
        MemoryError::Duplicate => answer(409, RemoteErrorCode::Duplicate),
        MemoryError::NotFound => answer(404, RemoteErrorCode::NotFound),
        MemoryError::Conflict => answer(409, RemoteErrorCode::Conflict),
        MemoryError::RemoteReadOnly => answer(403, RemoteErrorCode::Forbidden),
        MemoryError::Unavailable => answer(503, RemoteErrorCode::Unavailable),
        MemoryError::UnsupportedSchemaVersion { .. }
        | MemoryError::InvalidPagination
        | MemoryError::Backend => answer(500, RemoteErrorCode::Internal),
    }
}

impl ApiError {
    /// A failure with `status` and `code`.
    pub fn new(status: u16, code: RemoteErrorCode) -> (error: ApiError)
        ensures
            error == answer(status, code),
    {
        ApiError { status, code }
    }

    /// The request is not well formed.
    pub fn bad_request() -> (error: ApiError)
        ensures
            error == answer(400, RemoteErrorCode::BadRequest),
    {
        ApiError::new(BAD_REQUEST, RemoteErrorCode::BadRequest)
    }

    /// The request identifies nobody.
    pub fn unauthorized() -> (error: ApiError)
        ensures
            error == answer(401, RemoteErrorCode::Unauthorized),
    {
        ApiError::new(UNAUTHORIZED, RemoteErrorCode::Unauthorized)
    }

    /// The request asserts a namespace that its sender is not bound to.
    pub fn namespace_mismatch() -> (error: ApiError)
        ensures
            error == answer(403, RemoteErrorCode::NamespaceMismatch),
    {
        ApiError::new(FORBIDDEN, RemoteErrorCode::NamespaceMismatch)
    }

    /// The sender may not do what the request asks.
    pub fn forbidden() -> (error: ApiError)
        ensures
            error == answer(403, RemoteErrorCode::Forbidden),
    {
        ApiError::new(FORBIDDEN, RemoteErrorCode::Forbidden)
    }

    /// The operation may be tried again later.
    pub fn unavailable() -> (error: ApiError)
        ensures
            error == answer(503, RemoteErrorCode::Unavailable),
    {
        ApiError::new(SERVICE_UNAVAILABLE, RemoteErrorCode::Unavailable)
    }

    /// The authentication scheme that the answer asks for: an unauthorized client is told to
    /// use the publisher's scheme.
    pub fn challenge(&self) -> (scheme: Option<&'static str>)
        ensures
            match scheme {
                Some(scheme) => self.status == 401 && scheme@ == AUTH_SCHEME@,
                None => self.status != 401,
            },
    {
        if self.status == UNAUTHORIZED {
            Some(AUTH_SCHEME)
        } else {
            None
        }
    }
}

impl From<MemoryError> for ApiError {
    fn from(error: MemoryError) -> (failure: ApiError) {
        if error.is_retryable() {
            return ApiError::unavailable();
        }
        match error {
            MemoryError::EmptyContent => ApiError::bad_request(),
            MemoryError::ContentTooLarge { .. } => ApiError::new(
                PAYLOAD_TOO_LARGE,
                RemoteErrorCode::ContentTooLarge,
            ),
            MemoryError::QueryTooLarge { .. } => ApiError::new(
                PAYLOAD_TOO_LARGE,
                RemoteErrorCode::QueryTooLarge,
            ),
            MemoryError::RecordCapacity { .. } => ApiError::new(
                INSUFFICIENT_STORAGE,
                RemoteErrorCode::RecordCapacity,
            ),
            MemoryError::ContentCapacity { .. } | MemoryError::StorageCapacity => ApiError::new(
                INSUFFICIENT_STORAGE,
                RemoteErrorCode::ContentCapacity,
            ),
            MemoryError::SecretRejected => ApiError::bad_request(),
            MemoryError::Duplicate => ApiError::new(CONFLICT, RemoteErrorCode::Duplicate),
            MemoryError::NotFound => ApiError::new(NOT_FOUND, RemoteErrorCode::NotFound),
            MemoryError::Conflict => ApiError::new(CONFLICT, RemoteErrorCode::Conflict),
            MemoryError::RemoteReadOnly => ApiError::forbidden(),
            MemoryError::UnsupportedSchemaVersion { .. }
            | MemoryError::InvalidPagination
            | MemoryError::Backend
            | MemoryError::Unavailable => ApiError::new(
                INTERNAL_SERVER_ERROR,
                RemoteErrorCode::Internal,
            ),
        }
    }
}

impl vstd::std_specs::convert::FromSpecImpl<MemoryError> for ApiError {
    open spec fn obeys_from_spec() -> bool {
        true
    }

    open spec fn from_spec(error: MemoryError) -> ApiError {
        failure_of(error)
    }
}

/// The answer to a store operation: its result, or the answer to its failure; one that took too
/// long gives no result.
pub fn store_result<T>(result: Option<Result<T, MemoryError>>) -> (answered: Result<T, ApiError>)
    ensures
        match result {
            None => answered == Err::<T, ApiError>(answer(503, RemoteErrorCode::Unavailable)),
            Some(Ok(value)) => answered == Ok::<T, ApiError>(value),
            Some(Err(error)) => answered == Err::<T, ApiError>(failure_of(error)),
        },
{
    match result {
        None => Err(ApiError::unavailable()),
        Some(Ok(value)) => Ok(value),
        Some(Err(error)) => Err(ApiError::from(error)),
    }
}

/// The path at which an endpoint of the protocol is served.
pub fn route(path: &str) -> (served: String)
    ensures
        served@ == seq!['/'] + path@,
{
    let mut served = String::new();
    served.push('/');
    served.append(path);
    assert(served@ =~= seq!['/'] + path@);
    served
}

/// What a request says of its sender.
#[derive(Clone, Debug)]
pub struct RequestHeaders {
    /// The `Authorization` field.
    pub authorization: Option<String>,
    /// The namespace that the client asserts.
    pub namespace: Option<String>,
    /// Whether the peer is on the same host.
    pub loopback: bool,
}

/// The value of `RequestHeaders`.
pub struct HeadersView {
    pub authorization: Option<Seq<char>>,
    pub namespace: Option<Seq<char>>,
    pub loopback: bool,
}

impl View for RequestHeaders {
    type V = HeadersView;

    open spec fn view(&self) -> HeadersView {
        HeadersView {
            authorization: optional_text(self.authorization),
            namespace: optional_text(self.namespace),
            loopback: self.loopback,
        }
    }
}

/// Whom an `Authorization` value identifies: the device whose key it names, or else, for a
/// loopback peer, the holder of the bearer token.
pub open spec fn identified(
    devices: Seq<DeviceView>,
    tokens: Seq<EntryView>,
    loopback: bool,
    authorization: Seq<char>,
) -> Option<PrincipalView> {
    match authorization_key(authorization) {
        Some(key) => match device_for(devices, key) {
            Some((namespace, role)) => Some(
                PrincipalView { namespace, role, source: AuthSource::Kepos },
            ),
            None => None,
        },
        None => match authorization_token(authorization) {
            Some(token) => match entry_for(tokens, token_hash(token)) {
                Some((namespace, role)) => if loopback {
                    Some(PrincipalView { namespace, role, source: AuthSource::Bearer })
                } else {
                    None
                },
                None => None,
            },
            None => None,
        },
    }
}

/// The principal of a request, or the answer to a request without one: it must identify a
/// principal and assert that principal's namespace.
pub open spec fn authentication(
    devices: Seq<DeviceView>,
    tokens: Seq<EntryView>,
    headers: HeadersView,
) -> Result<PrincipalView, ApiError> {
    match headers.authorization {
        None => Err(answer(401, RemoteErrorCode::Unauthorized)),
        Some(authorization) => match identified(
            devices,
            tokens,
            headers.loopback,
            authorization,
        ) {
            None => Err(answer(401, RemoteErrorCode::Unauthorized)),
            Some(principal) => if headers.namespace == Some(principal.namespace) {
                Ok(principal)
            } else {
                Err(answer(403, RemoteErrorCode::NamespaceMismatch))
            },
        },
    }
}

/// The principal of a request that may mutate, or the answer to one that may not.
pub open spec fn write_authorization(
    devices: Seq<DeviceView>,
    tokens: Seq<EntryView>,
    headers: HeadersView,
) -> Result<PrincipalView, ApiError> {
    match authentication(devices, tokens, headers) {
        Ok(principal) => if principal.role == RemoteRole::Writer {
            Ok(principal)
        } else {
            Err(answer(403, RemoteErrorCode::Forbidden))
        },
        Err(error) => Err(error),
    }
}

/// The answer to a body that could not be read, of which the reader reported `status`.
pub open spec fn payload_fault(status: u16) -> ApiError {
    answer(
        if status == 413 {
            413
        } else {
            400
        },
        RemoteErrorCode::BadRequest,
    )
}

/// What becomes of a request: it is refused if its sender is, if its body could not be read, or if
/// it is at fault, in this order, and admitted on behalf of its sender otherwise.
pub open spec fn admission<T>(
    sender: Result<PrincipalView, ApiError>,
    payload: Result<T, u16>,
    fault: spec_fn(PrincipalView, T) -> Option<ApiError>,
) -> Result<(PrincipalView, T), ApiError> {
    match sender {
        Err(error) => Err(error),
        Ok(principal) => match payload {
            Err(status) => Err(payload_fault(status)),
            Ok(request) => match fault(principal, request) {
                Some(error) => Err(error),
                None => Ok((principal, request)),
            },
        },
    }
}

/// Whether a key can name a memory: its numbers are positive, and its namespace, if it has one,
/// is well formed.
pub open spec fn well_formed_key(key: KeyView) -> bool {
    &&& key.id > 0
    &&& key.version > 0
    &&& match key.namespace {
        Some(namespace) => valid_namespace(namespace),
        None => true,
    }
}

/// What is wrong with a scan, if anything.
pub open spec fn scan_fault(query: Seq<char>, limit: int) -> Option<ApiError> {
    if utf8_len(query) > production_limits().query_bytes {
        Some(answer(413, RemoteErrorCode::QueryTooLarge))
    } else if limit == 0 || limit > production_limits().scan_results {
        Some(answer(400, RemoteErrorCode::BadRequest))
    } else {
        None
    }
}

/// What is wrong with a read, if anything.
pub open spec fn read_fault(ids: Seq<i64>, keys: Seq<KeyView>) -> Option<ApiError> {
    if ids.len() + keys.len() <= production_limits().records && (forall|i: int|
        0 <= i < ids.len() ==> #[trigger] ids[i] > 0) && (forall|i: int|
        0 <= i < keys.len() ==> well_formed_key(#[trigger] keys[i])) {
        None
    } else {
        Some(answer(400, RemoteErrorCode::BadRequest))
    }
}

/// What is wrong with a put on behalf of `namespace`, if anything.
pub open spec fn put_fault(
    namespace: Seq<char>,
    content: Seq<char>,
    replacement: Option<KeyView>,
) -> Option<ApiError> {
    if is_blank(content) {
        Some(answer(400, RemoteErrorCode::BadRequest))
    } else if utf8_len(content) > production_limits().content_bytes {
        Some(answer(413, RemoteErrorCode::ContentTooLarge))
    } else {
        match replacement {
            Some(key) => delete_fault(namespace, key),
            None => None,
        }
    }
}

/// What is wrong with a mutation of the memory `key` on behalf of `namespace`, if anything.
pub open spec fn delete_fault(namespace: Seq<char>, key: KeyView) -> Option<ApiError> {
    if well_formed_key(key) && key.namespace == Some(namespace) {
        None
    } else {
        Some(answer(403, RemoteErrorCode::Forbidden))
    }
}

/// Whether one record of a snapshot can be accepted.
pub open spec fn acceptable(memory: RecordView) -> bool {
    &&& memory.key.namespace is None
    &&& well_formed_key(memory.key)
    &&& !is_blank(memory.content)
    &&& utf8_len(memory.content) <= production_limits().content_bytes
    &&& 0 <= memory.created_at_ms <= memory.updated_at_ms
}

/// Whether a snapshot can be accepted: not too many records, each acceptable, no identifier twice,
/// and not too many bytes.
pub open spec fn acceptable_snapshot(memories: Seq<RecordView>) -> bool {
    &&& memories.len() <= production_limits().records
    &&& forall|i: int| 0 <= i < memories.len() ==> acceptable(#[trigger] memories[i])
    &&& forall|i: int, j: int|
        0 <= i < j < memories.len() ==> (#[trigger] memories[i]).key.id != (
        #[trigger] memories[j]).key.id
    &&& snapshot_bytes(memories) <= production_limits().total_content_bytes
}

/// Whether an export may ask for `namespaces`: at least one, not too many, each well formed.
pub open spec fn acceptable_selection(namespaces: Seq<Seq<char>>) -> bool {
    &&& 0 < namespaces.len() <= production_limits().records
    &&& forall|i: int| 0 <= i < namespaces.len() ==> valid_namespace(#[trigger] namespaces[i])
}

/// What is wrong with an export, if anything.
pub open spec fn export_fault(
    namespaces: Option<Seq<Seq<char>>>,
    cursor: Option<CursorView>,
    limit: int,
) -> Option<ApiError> {
    if 0 < limit <= MAX_EXPORT_PAGE_RECORDS && (namespaces matches Some(selected)
        ==> acceptable_selection(selected)) && (cursor matches Some(after) ==> valid_namespace(
        after.namespace,
    ) && after.id > 0) {
        None
    } else {
        Some(answer(400, RemoteErrorCode::BadRequest))
    }
}

/// Whether a key can name a memory.
pub fn valid_key(key: &MemoryKey) -> (valid: bool)
    ensures
        valid == well_formed_key(key@),
{
    key.id > 0 && key.version > 0 && match &key.namespace {
        Some(namespace) => is_valid_namespace(namespace.as_str()),
        None => true,
    }
}

/// Whether a snapshot can be accepted.
pub fn valid_snapshot(memories: &[MemoryRecord]) -> (valid: bool)
    ensures
        valid == acceptable_snapshot(record_views(memories@)),
{
    let ghost snapshot = record_views(memories@);
    let limits = MemoryLimits::production();
    if memories.len() > limits.records {
        return false;
    }
    let mut bytes: usize = 0;
    let mut i: usize = 0;
    assert(snapshot.take(0) =~= Seq::<RecordView>::empty());
    while i < memories.len()
        invariant
            snapshot == record_views(memories@),
            limits == production_limits(),
            memories@.len() <= limits.records,
            i <= memories@.len(),
            forall|j: int| 0 <= j < i ==> acceptable(#[trigger] snapshot[j]),
            forall|a: int, b: int|
                0 <= a < b < i ==> (#[trigger] snapshot[a]).key.id != (
                #[trigger] snapshot[b]).key.id,
            bytes == snapshot_bytes(snapshot.take(i as int)),
            bytes <= i * 1024,
        decreases memories@.len() - i,
    {
        let memory = &memories[i];
        proof {
            assert(memory@ == snapshot[i as int]);
            assert(snapshot.take(i + 1).drop_last() =~= snapshot.take(i as int));
            assert(snapshot.take(i + 1).last() == memory@);
        }
        if !memory.key.is_local() || !valid_key(&memory.key) || blank(memory.content.as_str())
            || byte_len(memory.content.as_str()) > limits.content_bytes || memory.created_at_ms < 0
            || memory.updated_at_ms < memory.created_at_ms {
            assert(!acceptable(snapshot[i as int]));
            return false;
        }
        let mut j: usize = 0;
        while j < i
            invariant
                snapshot == record_views(memories@),
                i < memories@.len(),
                j <= i,
                memory@ == snapshot[i as int],
                forall|a: int| 0 <= a < j ==> (#[trigger] snapshot[a]).key.id != memory@.key.id,
            decreases i - j,
        {
            assert(memories@[j as int]@ == snapshot[j as int]);
            if memories[j].key.id == memory.key.id {
                assert(snapshot[j as int].key.id == snapshot[i as int].key.id);
                return false;
            }
            j += 1;
        }
        bytes = bytes + byte_len(memory.content.as_str());
        i += 1;
    }
    assert(snapshot.take(i as int) =~= snapshot);
    bytes <= limits.total_content_bytes
}

/// What the endpoints share: the database and who may use it.
#[derive(Clone, Debug)]
pub struct ServerState {
    db_path: String,
    policy: KeposPolicy,
    credentials: CredentialTable,
}

impl ServerState {
    /// Where the database is.
    pub closed spec fn location(&self) -> Seq<char> {
        self.db_path@
    }

    /// The devices that may use it.
    pub closed spec fn devices(&self) -> Seq<DeviceView> {
        self.policy@
    }

    /// The bearer tokens that may be used from the same host.
    pub closed spec fn tokens(&self) -> Seq<EntryView> {
        self.credentials@
    }

    /// A server of the database at `db_path` for the devices of `policy`, without bearer tokens.
    pub fn new(db_path: String, policy: KeposPolicy) -> (state: ServerState)
        ensures
            state.location() == db_path@,
            state.devices() == policy@,
            state.tokens() == Seq::<EntryView>::empty(),
    {
        ServerState { db_path, policy, credentials: CredentialTable::default() }
    }

    /// The same server, with bearer tokens for clients on the same host.
    pub fn with_credentials(self, credentials: CredentialTable) -> (state: ServerState)
        ensures
            state.location() == self.location(),
            state.devices() == self.devices(),
            state.tokens() == credentials@,
    {
        ServerState { db_path: self.db_path, policy: self.policy, credentials }
    }

    /// The store of an authenticated principal: it is bound to the principal's namespace.
    pub fn store_for(&self, principal: &Principal) -> (store: SqliteMemoryStore)
        ensures
            store.location() == self.location(),
            store.owner() == principal@.namespace,
            store.bounds() == production_limits(),
    {
        SqliteMemoryStore::new(self.db_path.clone(), principal.namespace.clone())
    }

    /// Authenticates a request.
    pub fn authenticate(&self, headers: &RequestHeaders) -> (principal: Result<
        Principal,
        ApiError,
    >)
        ensures
            match principal {
                Ok(principal) => authentication(self.devices(), self.tokens(), headers@) == Ok::<
                    PrincipalView,
                    ApiError,
                >(principal@),
                Err(error) => authentication(self.devices(), self.tokens(), headers@) == Err::<
                    PrincipalView,
                    ApiError,
                >(error),
            },
    {
        let authorization = match &headers.authorization {
            Some(authorization) => authorization.as_str(),
            None => {
                return Err(ApiError::unauthorized());
            },
        };
        let (namespace, role, source) = match parse_authorization(authorization) {
            Ok(key) => {
                proof {
                    law_parsed_key_is_normal(authorization@);
                }
                match self.policy.resolve(key.as_str()) {
                    Some((namespace, role)) => (namespace, role, AuthSource::Kepos),
                    None => {
                        return Err(ApiError::unauthorized());
                    },
                }
            },
            Err(_) => {
                let token = match parse_bearer(authorization) {
                    Some(token) => token,
                    None => {
                        return Err(ApiError::unauthorized());
                    },
                };
                if !headers.loopback {
                    return Err(ApiError::unauthorized());
                }
                match self.credentials.resolve(token.as_str()) {
                    Some((namespace, role)) => (namespace, role, AuthSource::Bearer),
                    None => {
                        return Err(ApiError::unauthorized());
                    },
                }
            },
        };
        let asserted = match &headers.namespace {
            Some(asserted) => asserted.as_str(),
            None => {
                return Err(ApiError::namespace_mismatch());
            },
        };
        if !same_text(asserted, namespace) {
            return Err(ApiError::namespace_mismatch());
        }
        Ok(Principal { namespace: namespace.to_string(), role, source })
    }

    /// Authenticates a request that mutates.
    pub fn authorize_write(&self, headers: &RequestHeaders) -> (principal: Result<
        Principal,
        ApiError,
    >)
        ensures
            match principal {
                Ok(principal) => write_authorization(self.devices(), self.tokens(), headers@)
                    == Ok::<PrincipalView, ApiError>(principal@),
                Err(error) => write_authorization(self.devices(), self.tokens(), headers@)
                    == Err::<PrincipalView, ApiError>(error),
            },
    {
        match self.authenticate(headers) {
            Ok(principal) => {
                if principal.role != RemoteRole::Writer {
                    return Err(ApiError::forbidden());
                }
                Ok(principal)
            },
            Err(error) => Err(error),
        }
    }

    /// Answers a session request.
    pub fn session(&self, headers: &RequestHeaders) -> (session: Result<SessionResponse, ApiError>)
        ensures
            match session {
                Ok(session) => session.protocol_version == VERSION && (authentication(
                    self.devices(),
                    self.tokens(),
                    headers@,
                ) matches Ok(principal) && session.namespace@ == principal.namespace
                    && session.role == principal.role),
                Err(error) => authentication(self.devices(), self.tokens(), headers@) == Err::<
                    PrincipalView,
                    ApiError,
                >(error),
            },
    {
        match self.authenticate(headers) {
            Ok(principal) => Ok(
                SessionResponse {
                    protocol_version: VERSION,
                    namespace: principal.namespace,
                    role: principal.role,
                },
            ),
            Err(error) => Err(error),
        }
    }

    /// Admits a scan: an authenticated request whose query and limit are in range.
    pub fn admit_scan(
        &self,
        headers: &RequestHeaders,
        payload: Result<ScanRequest, u16>,
    ) -> (admitted: Result<(Principal, ScanRequest), ApiError>)
        ensures
            admission(
                authentication(self.devices(), self.tokens(), headers@),
                payload,
                (|principal: PrincipalView, request: ScanRequest|
                    scan_fault(request.query@, request.limit as int)),
            ) == match admitted {
                Ok((principal, request)) => Ok::<(PrincipalView, ScanRequest), ApiError>(
                    (principal@, request),
                ),
                Err(error) => Err::<(PrincipalView, ScanRequest), ApiError>(error),
            },
            authentication(self.devices(), self.tokens(), headers@) matches Ok(sender) ==> (
            payload matches Ok(request) ==> (admitted is Ok <==> encode_utf8(
                    request.query@,
                ).len() <= 512 && 1 <= request.limit <= 5)),
    {
        let principal = match self.authenticate(headers) {
            Ok(principal) => principal,
            Err(error) => {
                return Err(error);
            },
        };
        let request = match payload {
            Ok(request) => request,
            Err(status) => {
                return Err(rejected_payload(status));
            },
        };
        let limits = MemoryLimits::production();
        if byte_len(request.query.as_str()) > limits.query_bytes {
            return Err(ApiError::new(PAYLOAD_TOO_LARGE, RemoteErrorCode::QueryTooLarge));
        }
        if request.limit == 0 || request.limit > limits.scan_results {
            return Err(ApiError::bad_request());
        }
        Ok((principal, request))
    }

    /// Admits a read: an authenticated request for not too many memories, each named properly.
    pub fn admit_read(
        &self,
        headers: &RequestHeaders,
        payload: Result<ReadRequest, u16>,
    ) -> (admitted: Result<(Principal, ReadRequest), ApiError>)
        ensures
            admission(
                authentication(self.devices(), self.tokens(), headers@),
                payload,
                (|principal: PrincipalView, request: ReadRequest|
                    read_fault(request.ids@, key_views(request.keys@))),
            ) == match admitted {
                Ok((principal, request)) => Ok::<(PrincipalView, ReadRequest), ApiError>(
                    (principal@, request),
                ),
                Err(error) => Err::<(PrincipalView, ReadRequest), ApiError>(error),
            },
    {
        let principal = match self.authenticate(headers) {
            Ok(principal) => principal,
            Err(error) => {
                return Err(error);
            },
        };
        let request = match payload {
            Ok(request) => request,
            Err(status) => {
                return Err(rejected_payload(status));
            },
        };
        if !readable(&request.ids, &request.keys) {
            return Err(ApiError::bad_request());
        }
        Ok((principal, request))
    }

    /// Admits a put: a writer's request with proper content that replaces, if anything, a memory of
    /// the writer's own namespace.
    pub fn admit_put(
        &self,
        headers: &RequestHeaders,
        payload: Result<PutRequest, u16>,
    ) -> (admitted: Result<(Principal, PutRequest), ApiError>)
        ensures
            admission(
                write_authorization(self.devices(), self.tokens(), headers@),
                payload,
                (|principal: PrincipalView, request: PutRequest|
                    put_fault(
                        principal.namespace,
                        request.content@,
                        optional_key(request.replacement),
                    )),
            ) == match admitted {
                Ok((principal, request)) => Ok::<(PrincipalView, PutRequest), ApiError>(
                    (principal@, request),
                ),
                Err(error) => Err::<(PrincipalView, PutRequest), ApiError>(error),
            },
            write_authorization(self.devices(), self.tokens(), headers@) matches Ok(sender) ==> (
            payload matches Ok(request) ==> (admitted is Ok <==> (exists|i: int|
                    0 <= i < request.content@.len() && !is_space(#[trigger] request.content@[i]))
                    && encode_utf8(request.content@).len() <= 1024 && (
                request.replacement matches Some(key) ==> key.id >= 1 && key.version >= 1
                    && valid_namespace(sender.namespace) && key@.namespace == Some(
                    sender.namespace,
                )))),
    {
        let principal = match self.authorize_write(headers) {
            Ok(principal) => principal,
            Err(error) => {
                return Err(error);
            },
        };
        let request = match payload {
            Ok(request) => request,
            Err(status) => {
                return Err(rejected_payload(status));
            },
        };
        if blank(request.content.as_str()) {
            return Err(ApiError::bad_request());
        }
        if byte_len(request.content.as_str()) > MemoryLimits::production().content_bytes {
            return Err(ApiError::new(PAYLOAD_TOO_LARGE, RemoteErrorCode::ContentTooLarge));
        }
        if let Some(key) = &request.replacement {
            if !valid_key(key) || !key.is_in(principal.namespace.as_str()) {
                return Err(ApiError::forbidden());
            }
        }
        Ok((principal, request))
    }

    /// Admits a delete: a writer's request for a memory of the writer's own namespace.
    pub fn admit_delete(
        &self,
        headers: &RequestHeaders,
        payload: Result<DeleteRequest, u16>,
    ) -> (admitted: Result<(Principal, DeleteRequest), ApiError>)
        ensures
            admission(
                write_authorization(self.devices(), self.tokens(), headers@),
                payload,
                (|principal: PrincipalView, request: DeleteRequest|
                    delete_fault(principal.namespace, request.key@)),
            ) == match admitted {
                Ok((principal, request)) => Ok::<(PrincipalView, DeleteRequest), ApiError>(
                    (principal@, request),
                ),
                Err(error) => Err::<(PrincipalView, DeleteRequest), ApiError>(error),
            },
            write_authorization(self.devices(), self.tokens(), headers@) matches Ok(sender) ==> (
            payload matches Ok(request) ==> (admitted is Ok <==> request.key.id >= 1
                && request.key.version >= 1 && valid_namespace(sender.namespace)
                && request.key@.namespace == Some(sender.namespace))),
    {
        let principal = match self.authorize_write(headers) {
            Ok(principal) => principal,
            Err(error) => {
                return Err(error);
            },
        };
        let request = match payload {
            Ok(request) => request,
            Err(status) => {
                return Err(rejected_payload(status));
            },
        };
        if !valid_key(&request.key) || !request.key.is_in(principal.namespace.as_str()) {
            return Err(ApiError::forbidden());
        }
        Ok((principal, request))
    }

    /// Admits a sync: a writer's request with an acceptable snapshot.
    pub fn admit_sync(
        &self,
        headers: &RequestHeaders,
        payload: Result<SyncRequest, u16>,
    ) -> (admitted: Result<(Principal, SyncRequest), ApiError>)
        ensures
            admission(
                write_authorization(self.devices(), self.tokens(), headers@),
                payload,
                (|principal: PrincipalView, request: SyncRequest|
                    sync_fault(record_views(request.memories@))),
            ) == match admitted {
                Ok((principal, request)) => Ok::<(PrincipalView, SyncRequest), ApiError>(
                    (principal@, request),
                ),
                Err(error) => Err::<(PrincipalView, SyncRequest), ApiError>(error),
            },
    {
        let principal = match self.authorize_write(headers) {
            Ok(principal) => principal,
            Err(error) => {
                return Err(error);
            },
        };
        let request = match payload {
            Ok(request) => request,
            Err(status) => {
                return Err(rejected_payload(status));
            },
        };
        if !valid_snapshot(request.memories.as_slice()) {
            return Err(ApiError::bad_request());
        }
        Ok((principal, request))
    }

    /// Admits an export: an authenticated request with a proper selection, cursor and page size.
    pub fn admit_export(
        &self,
        headers: &RequestHeaders,
        payload: Result<ExportRequest, u16>,
    ) -> (admitted: Result<(Principal, ExportRequest), ApiError>)
        ensures
            admission(
                authentication(self.devices(), self.tokens(), headers@),
                payload,
                (|principal: PrincipalView, request: ExportRequest|
                    export_fault(
                        selected(request.namespaces),
                        optional_cursor(request.cursor),
                        request.limit as int,
                    )),
            ) == match admitted {
                Ok((principal, request)) => Ok::<(PrincipalView, ExportRequest), ApiError>(
                    (principal@, request),
                ),
                Err(error) => Err::<(PrincipalView, ExportRequest), ApiError>(error),
            },
    {
        let principal = match self.authenticate(headers) {
            Ok(principal) => principal,
            Err(error) => {
                return Err(error);
            },
        };
        let request = match payload {
            Ok(request) => request,
            Err(status) => {
                return Err(rejected_payload(status));
            },
        };
        if request.limit == 0 || request.limit > MAX_EXPORT_PAGE_RECORDS {
            return Err(ApiError::bad_request());
        }
        if let Some(namespaces) = &request.namespaces {
            if !selectable(namespaces) {
                return Err(ApiError::bad_request());
            }
        }
        if let Some(cursor) = &request.cursor {
            if !is_valid_namespace(cursor.namespace.as_str()) || cursor.id <= 0 {
                return Err(ApiError::bad_request());
            }
        }
        Ok((principal, request))
    }
}

/// What is wrong with a sync, if anything.
pub open spec fn sync_fault(memories: Seq<RecordView>) -> Option<ApiError> {
    if acceptable_snapshot(memories) {
        None
    } else {
        Some(answer(400, RemoteErrorCode::BadRequest))
    }
}

/// The namespaces that an export request selects.
pub open spec fn selected(namespaces: Option<Vec<String>>) -> Option<Seq<Seq<char>>> {
    match namespaces {
        Some(namespaces) => Some(texts(namespaces@)),
        None => None,
    }
}

/// The answer to a body that could not be read, of which the reader reported `status`.
pub fn rejected_payload(status: u16) -> (error: ApiError)
    ensures
        error == payload_fault(status),
{
    let status: u16 = if status == PAYLOAD_TOO_LARGE {
        PAYLOAD_TOO_LARGE
    } else {
        BAD_REQUEST
    };
    ApiError::new(status, RemoteErrorCode::BadRequest)
}

/// Whether a read asks for not too many memories, each named properly.
fn readable(ids: &Vec<i64>, keys: &Vec<MemoryKey>) -> (r: bool)
    ensures
        r == (read_fault(ids@, key_views(keys@)) is None),
{
    let ghost names = key_views(keys@);
    if ids.len().saturating_add(keys.len()) > MemoryLimits::production().records {
        return false;
    }
    let mut i: usize = 0;
    while i < ids.len()
        invariant
            i <= ids@.len(),
            names == key_views(keys@),
            forall|j: int| 0 <= j < i ==> #[trigger] ids@[j] > 0,
        decreases ids@.len() - i,
    {
        if ids[i] <= 0 {
            return false;
        }
        i += 1;
    }
    let mut k: usize = 0;
    while k < keys.len()
        invariant
            k <= keys@.len(),
            names == key_views(keys@),
            forall|j: int| 0 <= j < k ==> well_formed_key(#[trigger] names[j]),
        decreases keys@.len() - k,
    {
        if !valid_key(&keys[k]) {
            assert(!well_formed_key(names[k as int]));
            return false;
        }
        assert(well_formed_key(names[k as int]));
        k += 1;
    }
    true
}

/// Whether an export may ask for `namespaces`.
fn selectable(namespaces: &Vec<String>) -> (r: bool)
    ensures
        r == acceptable_selection(texts(namespaces@)),
{
    let ghost chosen = texts(namespaces@);
    if namespaces.len() == 0 || namespaces.len() > MemoryLimits::production().records {
        return false;
    }
    let mut i: usize = 0;
    while i < namespaces.len()
        invariant
            i <= namespaces@.len(),
            chosen == texts(namespaces@),
            forall|j: int| 0 <= j < i ==> valid_namespace(#[trigger] chosen[j]),
        decreases namespaces@.len() - i,
    {
        if !is_valid_namespace(namespaces[i].as_str()) {
            assert(!valid_namespace(chosen[i as int]));
            return false;
        }
        assert(valid_namespace(chosen[i as int]));
        i += 1;
    }
    true
}

} // verus!
