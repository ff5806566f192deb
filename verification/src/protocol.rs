//! Values that the remote-memory protocol exchanges, their limits and their failure codes.

use vstd::prelude::*;

use crate::text::{chars_of, is_digit, is_letter, same_text};

verus! {

/// Protocol version that a session reports.
pub const VERSION: u32 = 1;

/// Header in which a client asserts its namespace.
pub const NAMESPACE_HEADER: &'static str = "x-tact-memory-namespace";

pub const SESSION_PATH: &'static str = "v1/session";

pub const SCAN_PATH: &'static str = "v1/memories/scan";

pub const READ_PATH: &'static str = "v1/memories/read";

pub const LIST_PATH: &'static str = "v1/memories/list";

pub const PUT_PATH: &'static str = "v1/memories/put";

pub const DELETE_PATH: &'static str = "v1/memories/delete";

pub const SYNC_PATH: &'static str = "v1/memories/sync";

pub const EXPORT_PATH: &'static str = "v1/memories/export";

/// Largest number of records in one export page.
pub const MAX_EXPORT_PAGE_RECORDS: usize = 128;

/// Largest number of bytes in a namespace.
pub const MAX_NAMESPACE_BYTES: usize = 128;

/// What an authenticated principal may do.
#[derive(Clone, Copy, Debug, PartialEq, Eq, Structural)]
pub enum RemoteRole {
    /// Reads only.
    Reader,
    /// Reads, and mutations of its own namespace.
    Writer,
}

/// Sizes and durations that the store enforces.
#[derive(Clone, Copy, Debug, PartialEq, Eq, Structural)]
pub struct MemoryLimits {
    /// Bytes of one content.
    pub content_bytes: usize,
    /// Records of one namespace.
    pub records: usize,
    /// Bytes of all the contents of one namespace.
    pub total_content_bytes: usize,
    /// Results of one scan.
    pub scan_results: usize,
    /// Bytes of one scan query.
    pub query_bytes: usize,
    /// Milliseconds for which an unread memory is kept.
    pub probation_duration_ms: i64,
}

/// The limits that a server enforces.
pub open spec fn production_limits() -> MemoryLimits {
    MemoryLimits {
        content_bytes: 1024,
        records: 512,
        total_content_bytes: 262144,
        scan_results: 5,
        query_bytes: 512,
        probation_duration_ms: 604800000,
    }
}

impl MemoryLimits {
    /// The limits that a server enforces: 1 KiB per record, 512 records and 256 KiB of content
    /// per namespace, five results per scan, and seven days of unread probation.
    pub fn production() -> (limits: MemoryLimits)
        ensures
            limits == production_limits(),
    {
        MemoryLimits {
            content_bytes: 1024,
            records: 512,
            total_content_bytes: 262144,
            scan_results: 5,
            query_bytes: 512,
            probation_duration_ms: 604800000,
        }
    }
}

/// Identity and version of a memory; a key without a namespace is local to its client.
#[derive(Clone, Debug, PartialEq, Eq)]
pub struct MemoryKey {
    pub id: i64,
    pub version: u64,
    pub namespace: Option<String>,
}

/// The value of a `MemoryKey`.
pub struct KeyView {
    pub id: int,
    pub version: int,
    pub namespace: Option<Seq<char>>,
}

/// The value of an optional text.
pub open spec fn optional_text(text: Option<String>) -> Option<Seq<char>> {
    match text {
        Some(text) => Some(text@),
        None => None,
    }
}

/// The value of an optional time.
pub open spec fn optional_time(time: Option<i64>) -> Option<int> {
    match time {
        Some(time) => Some(time as int),
        None => None,
    }
}

impl View for MemoryKey {
    type V = KeyView;

    open spec fn view(&self) -> KeyView {
        KeyView {
            id: self.id as int,
            version: self.version as int,
            namespace: optional_text(self.namespace),
        }
    }
}

impl MemoryKey {
    /// A key that belongs to a client's own store.
    pub fn local(id: i64, version: u64) -> (key: MemoryKey)
        ensures
            key@ == (KeyView { id: id as int, version: version as int, namespace: None }),
    {
        MemoryKey { id, version, namespace: None }
    }

    /// A key that `namespace` owns on a server.
    pub fn remote(namespace: String, id: i64, version: u64) -> (key: MemoryKey)
        ensures
            key@ == (KeyView {
                id: id as int,
                version: version as int,
                namespace: Some(namespace@),
            }),
    {
        MemoryKey { id, version, namespace: Some(namespace) }
    }

    /// Whether the key belongs to a client's own store.
    pub fn is_local(&self) -> (local: bool)
        ensures
            local == (self@.namespace is None),
    {
        self.namespace.is_none()
    }

    /// Whether the key is owned by `namespace`.
    pub fn is_in(&self, namespace: &str) -> (owned: bool)
        ensures
            owned == (self@.namespace == Some(namespace@)),
    {
        match &self.namespace {
            Some(owner) => same_text(owner.as_str(), namespace),
            None => false,
        }
    }
}

/// Complete state of a memory.
#[derive(Clone, Debug, PartialEq, Eq)]
pub struct MemoryRecord {
    pub key: MemoryKey,
    pub content: String,
    /// Time at which the identity was created.
    pub created_at_ms: i64,
    /// Time at which this version was written.
    pub updated_at_ms: i64,
    pub last_scanned_at_ms: Option<i64>,
    pub scan_count: u64,
    pub last_used_at_ms: Option<i64>,
    pub use_count: u64,
    /// Time at which the memory expires unless it is read before.
    pub probation_until_ms: Option<i64>,
}

/// The value of a `MemoryRecord`.
pub struct RecordView {
    pub key: KeyView,
    pub content: Seq<char>,
    pub created_at_ms: int,
    pub updated_at_ms: int,
    pub last_scanned_at_ms: Option<int>,
    pub scan_count: int,
    pub last_used_at_ms: Option<int>,
    pub use_count: int,
    pub probation_until_ms: Option<int>,
}

impl View for MemoryRecord {
    type V = RecordView;

    open spec fn view(&self) -> RecordView {
        RecordView {
            key: self.key@,
            content: self.content@,
            created_at_ms: self.created_at_ms as int,
            updated_at_ms: self.updated_at_ms as int,
            last_scanned_at_ms: optional_time(self.last_scanned_at_ms),
            scan_count: self.scan_count as int,
            last_used_at_ms: optional_time(self.last_used_at_ms),
            use_count: self.use_count as int,
            probation_until_ms: optional_time(self.probation_until_ms),
        }
    }
}

/// The values of a list of records.
pub open spec fn record_views(records: Seq<MemoryRecord>) -> Seq<RecordView> {
    records.map_values(|record: MemoryRecord| record@)
}

/// The values of a list of keys.
pub open spec fn key_views(keys: Seq<MemoryKey>) -> Seq<KeyView> {
    keys.map_values(|key: MemoryKey| key@)
}

/// The last record of an export page; the next page starts after it.
#[derive(Clone, Debug, PartialEq, Eq)]
pub struct ExportCursor {
    pub namespace: String,
    pub id: i64,
}

/// The value of an `ExportCursor`.
pub struct CursorView {
    pub namespace: Seq<char>,
    pub id: int,
}

impl View for ExportCursor {
    type V = CursorView;

    open spec fn view(&self) -> CursorView {
        CursorView { namespace: self.namespace@, id: self.id as int }
    }
}

/// The value of an optional cursor.
pub open spec fn optional_cursor(cursor: Option<ExportCursor>) -> Option<CursorView> {
    match cursor {
        Some(cursor) => Some(cursor@),
        None => None,
    }
}

/// What reconciling a namespace with a snapshot did to each record.
#[derive(Clone, Copy, Debug, PartialEq, Eq, Structural)]
pub struct SyncReport {
    pub inserted: usize,
    pub replaced: usize,
    pub unchanged: usize,
    pub deleted: usize,
}

/// Why a store operation failed.
#[derive(Clone, Copy, Debug, PartialEq, Eq, Structural)]
pub enum MemoryError {
    /// The content holds nothing but white space.
    EmptyContent,
    ContentTooLarge { maximum_bytes: usize },
    QueryTooLarge { maximum_bytes: usize },
    RecordCapacity { maximum: usize },
    ContentCapacity { maximum_bytes: usize },
    /// The storage device or the identifier space is full.
    StorageCapacity,
    /// The content looks like a credential.
    SecretRejected,
    /// The namespace holds equivalent content.
    Duplicate,
    NotFound,
    /// The version given is not the current one, or a snapshot contradicts itself.
    Conflict,
    /// The memory belongs to another namespace.
    RemoteReadOnly,
    InvalidPagination,
    UnsupportedSchemaVersion { found: i64, supported: i64 },
    /// The storage failed.
    Backend,
    /// The storage is busy; the operation may be tried again.
    Unavailable,
}

impl MemoryError {
    /// Whether the same operation may succeed when it is tried again.
    pub fn is_retryable(&self) -> (retryable: bool)
        ensures
            retryable == (*self is Unavailable),
    {
        matches!(self, MemoryError::Unavailable)
    }
}

/// Failure category that a client sees.
#[derive(Clone, Copy, Debug, PartialEq, Eq, Structural)]
pub enum RemoteErrorCode {
    BadRequest,
    Unauthorized,
    Forbidden,
    NamespaceMismatch,
    UnsupportedProtocol,
    QueryTooLarge,
    ContentTooLarge,
    RecordCapacity,
    ContentCapacity,
    Duplicate,
    NotFound,
    Conflict,
    Unavailable,
    Internal,
}

/// What a client learns of its session.
#[derive(Clone, Debug, PartialEq, Eq)]
pub struct SessionResponse {
    pub protocol_version: u32,
    pub namespace: String,
    pub role: RemoteRole,
}

/// A request to rank the visible memories against a query.
#[derive(Clone, Debug, PartialEq, Eq)]
pub struct ScanRequest {
    pub query: String,
    pub limit: usize,
}

/// A request for memories by identifier in the own namespace, and by key in any.
#[derive(Clone, Debug, PartialEq, Eq)]
pub struct ReadRequest {
    pub ids: Vec<i64>,
    pub keys: Vec<MemoryKey>,
}

/// A request to store a content, as a new memory or as the next version of `replacement`.
#[derive(Clone, Debug, PartialEq, Eq)]
pub struct PutRequest {
    pub content: String,
    pub replacement: Option<MemoryKey>,
}

/// A request to delete a memory.
#[derive(Clone, Debug, PartialEq, Eq)]
pub struct DeleteRequest {
    pub key: MemoryKey,
}

/// A request to replace the memories of the own namespace.
#[derive(Clone, Debug, PartialEq, Eq)]
pub struct SyncRequest {
    pub memories: Vec<MemoryRecord>,
}

/// A request for one page of the visible memories.
#[derive(Clone, Debug, PartialEq, Eq)]
pub struct ExportRequest {
    pub namespaces: Option<Vec<String>>,
    pub cursor: Option<ExportCursor>,
    pub limit: usize,
}

/// Whether two optional times are the same.
pub fn same_moment(left: Option<i64>, right: Option<i64>) -> (same: bool)
    ensures
        same == (optional_time(left) == optional_time(right)),
{
    match left {
        Some(left) => match right {
            Some(right) => left == right,
            None => false,
        },
        None => right.is_none(),
    }
}

/// Whether `c` may stand in a namespace.
pub open spec fn is_namespace_char(c: char) -> bool {
    is_letter(c) || is_digit(c) || c == '-' || c == '_' || c == '.'
}

/// Whether `namespace` is well formed: 1 to 128 ASCII letters, digits, `-`, `_` and `.`.
pub open spec fn valid_namespace(namespace: Seq<char>) -> bool {
    &&& 0 < namespace.len() <= MAX_NAMESPACE_BYTES
    &&& forall|i: int| 0 <= i < namespace.len() ==> is_namespace_char(#[trigger] namespace[i])
}

/// Whether `namespace` is well formed.
pub fn is_valid_namespace(namespace: &str) -> (valid: bool)
    ensures
        valid == valid_namespace(namespace@),
{
    let chars = chars_of(namespace);
    if chars.len() == 0 || chars.len() > MAX_NAMESPACE_BYTES {
        return false;
    }
    let mut i: usize = 0;
    while i < chars.len()
        invariant
            chars@ == namespace@,
            i <= chars@.len(),
            0 < namespace@.len() <= MAX_NAMESPACE_BYTES,
            forall|j: int| 0 <= j < i ==> is_namespace_char(#[trigger] namespace@[j]),
        decreases chars@.len() - i,
    {
        let c = chars[i];
        if !(('a' <= c && c <= 'z') || ('A' <= c && c <= 'Z') || ('0' <= c && c <= '9')
            || c == '-' || c == '_' || c == '.') {
            assert(!is_namespace_char(namespace@[i as int]));
            return false;
        }
        i += 1;
    }
    true
}

} // verus!
