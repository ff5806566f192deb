use std::collections::HashSet;

use kepos_tact_memory::auth::{
    AuthSource, Binding, Credential, CredentialTable, KeposPolicy, Principal,
};
use kepos_tact_memory::protocol::{
    DeleteRequest, ExportCursor, ExportRequest, MemoryError, MemoryKey, MemoryRecord, PutRequest,
    ReadRequest, RemoteErrorCode, RemoteRole, ScanRequest, SyncReport, SyncRequest,
};
use kepos_tact_memory::router::{
    rejected_payload, route, store_result, valid_key, valid_snapshot, ApiError, RequestHeaders,
    ServerState,
};
use kepos_tact_memory::table::Database;

const NOW: i64 = 1_700_000_000_000;

struct App {
    state: ServerState,
    database: Database,
}

impl App {
    fn put(&mut self, headers: &RequestHeaders, request: PutRequest) -> Result<MemoryRecord, ApiError> {
        let (principal, request) = self.state.admit_put(headers, Ok(request))?;
        let store = self.state.store_for(&principal);
        store_result(Some(store.put_local(
            &mut self.database,
            &request.content,
            request.replacement,
            NOW,
        )))
    }

    fn scan(&mut self, headers: &RequestHeaders, query: &str, limit: usize) -> Result<Vec<MemoryRecord>, ApiError> {
        let request = ScanRequest { query: query.to_owned(), limit };
        let (principal, request) = self.state.admit_scan(headers, Ok(request))?;
        let store = self.state.store_for(&principal);
        let scan = store_result(Some(store.scan_local(
            &mut self.database,
            &request.query,
            request.limit,
            NOW,
        )))?;
        Ok(scan.memories)
    }

    fn read(&mut self, headers: &RequestHeaders, ids: Vec<i64>, keys: Vec<MemoryKey>) -> Result<Vec<MemoryRecord>, ApiError> {
        let (principal, request) = self.state.admit_read(headers, Ok(ReadRequest { ids, keys }))?;
        let store = self.state.store_for(&principal);
        Ok(store.read_local(&mut self.database, &request.ids, &request.keys, NOW))
    }

    fn list(&mut self, headers: &RequestHeaders) -> Result<Vec<MemoryRecord>, ApiError> {
        let principal = self.state.authenticate(headers)?;
        let store = self.state.store_for(&principal);
        Ok(store.list_local(&mut self.database, NOW))
    }

    fn delete(&mut self, headers: &RequestHeaders, key: MemoryKey) -> Result<(), ApiError> {
        let (principal, request) = self.state.admit_delete(headers, Ok(DeleteRequest { key }))?;
        let store = self.state.store_for(&principal);
        store_result(Some(store.delete_local(&mut self.database, &request.key)))
    }

    fn sync(&mut self, headers: &RequestHeaders, memories: Vec<MemoryRecord>) -> Result<SyncReport, ApiError> {
        let (principal, request) = self.state.admit_sync(headers, Ok(SyncRequest { memories }))?;
        let store = self.state.store_for(&principal);
        store_result(Some(store.sync_local(
            &mut self.database,
            &request.memories,
            NOW,
        )))
    }

    fn export(
        &mut self,
        headers: &RequestHeaders,
        namespaces: Option<Vec<String>>,
        cursor: Option<ExportCursor>,
        limit: usize,
    ) -> Result<(Vec<MemoryRecord>, Option<ExportCursor>), ApiError> {
        let request = ExportRequest { namespaces, cursor, limit };
        let (principal, request) = self.state.admit_export(headers, Ok(request))?;
        let store = self.state.store_for(&principal);
        Ok(store.export_local_page(
            &self.database,
            request.namespaces.as_deref(),
            request.cursor.as_ref(),
            request.limit,
            NOW,
        ))
    }
}

fn key(byte: u8) -> String {
    format!("{byte:02x}").repeat(32)
}

fn binding(namespace: &str, role: RemoteRole, keys: Vec<String>) -> Binding {
    Binding::new(namespace.to_owned(), role, keys).unwrap()
}

fn writer_binding(namespace: &str, keys: Vec<String>) -> Binding {
    binding(namespace, RemoteRole::Writer, keys)
}

fn app(bindings: Vec<Binding>) -> App {
    let policy = KeposPolicy::new(bindings).unwrap();
    App {
        state: ServerState::new("memory.sqlite3".to_owned(), policy),
        database: Database::new(),
    }
}

fn headers(public_key: &str, namespace: &str) -> RequestHeaders {
    RequestHeaders {
        authorization: Some(format!("Kepos {public_key}")),
        namespace: Some(namespace.to_owned()),
        loopback: true,
    }
}

fn content(text: &str) -> PutRequest {
    PutRequest { content: text.to_owned(), replacement: None }
}

fn error(status: u16, code: RemoteErrorCode) -> ApiError {
    ApiError { status, code }
}

fn snapshot_record(id: i64, text: &str) -> MemoryRecord {
    MemoryRecord {
        key: MemoryKey::local(id, 1),
        content: text.to_owned(),
        created_at_ms: 1,
        updated_at_ms: 1,
        last_scanned_at_ms: None,
        scan_count: 0,
        last_used_at_ms: None,
        use_count: 0,
        probation_until_ms: None,
    }
}

#[test]
fn session_reports_protocol_namespace_and_writer_role() {
    let writer = key(0x01);
    let app = app(vec![writer_binding("neil", vec![writer.clone()])]);
    let session = app.state.session(&headers(&writer, "neil")).unwrap();
    assert_eq!(session.protocol_version, 1);
    assert_eq!(session.namespace, "neil");
    assert_eq!(session.role, RemoteRole::Writer);
}

#[test]
fn put_read_scan_list_export_delete_round_trip() {
    let writer = key(0x02);
    let namespace = "neil".to_owned();
    let mut app = app(vec![writer_binding("neil", vec![writer.clone()])]);
    let auth_headers = headers(&writer, &namespace);

    let put_memory = app
        .put(&auth_headers, content("The team uses cargo nextest in CI."))
        .unwrap();
    assert_eq!(put_memory.key.namespace, Some(namespace.clone()));
    assert_eq!(put_memory.key.version, 1);
    assert_eq!(put_memory.content, "The team uses cargo nextest in CI.");
    let id = put_memory.key.id;

    let candidates = app.scan(&auth_headers, "cargo nextest", 5).unwrap();
    assert_eq!(candidates.len(), 1);

    let memories = app.read(&auth_headers, vec![id], vec![]).unwrap();
    assert_eq!(memories.len(), 1);
    assert_eq!(memories[0].key.id, id);
    assert_eq!(memories[0].use_count, 1);
    assert!(memories[0].probation_until_ms.is_none());

    assert_eq!(app.list(&auth_headers).unwrap().len(), 1);

    let (memories, next_cursor) = app.export(&auth_headers, None, None, 128).unwrap();
    assert_eq!(memories.len(), 1);
    assert!(next_cursor.is_none());

    app.delete(&auth_headers, MemoryKey::remote(namespace, id, 1))
        .unwrap();
    assert!(app.list(&auth_headers).unwrap().is_empty());
}

#[test]
fn replace_increments_version_and_conflicts_on_stale_keys() {
    let writer = key(0x03);
    let mut app = app(vec![writer_binding("neil", vec![writer.clone()])]);
    let auth_headers = headers(&writer, "neil");

    let id = app.put(&auth_headers, content("v1")).unwrap().key.id;
    let replace = |text: &str| PutRequest {
        content: text.to_owned(),
        replacement: Some(MemoryKey::remote("neil".to_owned(), id, 1)),
    };
    let replaced = app.put(&auth_headers, replace("v2 replacement")).unwrap();
    assert_eq!(replaced.key.version, 2);

    assert_eq!(
        app.put(&auth_headers, replace("stale replacement")),
        Err(error(409, RemoteErrorCode::Conflict))
    );
}

#[test]
fn namespace_assertion_mismatch_is_forbidden() {
    let writer = key(0x04);
    let app = app(vec![writer_binding("neil", vec![writer.clone()])]);
    let mut wrong = headers(&writer, "neil");
    wrong.namespace = Some("alice".to_owned());
    let mismatch = error(403, RemoteErrorCode::NamespaceMismatch);
    assert_eq!(app.state.session(&wrong).unwrap_err(), mismatch);
    wrong.namespace = None;
    assert_eq!(app.state.session(&wrong).unwrap_err(), mismatch);
    assert_eq!(mismatch.challenge(), None);
}

#[test]
fn missing_or_unknown_authorization_is_unauthorized() {
    let writer = key(0x05);
    let stranger = key(0x06);
    let app = app(vec![writer_binding("neil", vec![writer])]);
    let unauthorized = error(401, RemoteErrorCode::Unauthorized);

    let missing = RequestHeaders { authorization: None, namespace: None, loopback: true };
    let refused = app.state.session(&missing).unwrap_err();
    assert_eq!(refused, unauthorized);
    assert_eq!(refused.challenge(), Some("Kepos"));

    assert_eq!(
        app.state.session(&headers(&stranger, "stranger")).unwrap_err(),
        unauthorized
    );

    let forged = RequestHeaders {
        authorization: Some("Bearer something".to_owned()),
        namespace: Some("neil".to_owned()),
        loopback: true,
    };
    assert_eq!(app.state.session(&forged).unwrap_err(), unauthorized);
}

#[test]
fn readonly_devices_cannot_mutate() {
    let observer = key(0x07);
    let mut app = app(vec![binding(
        "observer",
        RemoteRole::Reader,
        vec![observer.clone()],
    )]);
    let auth_headers = headers(&observer, "observer");

    let session = app.state.session(&auth_headers).unwrap();
    assert_eq!(session.role, RemoteRole::Reader);

    let forbidden = error(403, RemoteErrorCode::Forbidden);
    assert_eq!(app.put(&auth_headers, content("nope")), Err(forbidden));
    assert_eq!(app.sync(&auth_headers, vec![]), Err(forbidden));
    let own = MemoryKey::remote("observer".to_owned(), 1, 1);
    assert_eq!(app.delete(&auth_headers, own), Err(forbidden));
    // The role is checked before the body is.
    assert_eq!(
        app.state.admit_put(&auth_headers, Err(400)).unwrap_err(),
        forbidden
    );
    assert!(app.list(&auth_headers).unwrap().is_empty());
}

#[test]
fn bounds_and_shape_errors_map_to_stable_codes() {
    let writer = key(0x08);
    let mut app = app(vec![writer_binding("neil", vec![writer.clone()])]);
    let auth_headers = headers(&writer, "neil");

    assert_eq!(
        app.scan(&auth_headers, &"x".repeat(513), 5),
        Err(error(413, RemoteErrorCode::QueryTooLarge))
    );
    assert_eq!(
        app.put(&auth_headers, content(&"x".repeat(1025))),
        Err(error(413, RemoteErrorCode::ContentTooLarge))
    );
    let bad_request = error(400, RemoteErrorCode::BadRequest);
    assert_eq!(app.put(&auth_headers, content("   ")), Err(bad_request));
    assert_eq!(app.scan(&auth_headers, "ok", 0), Err(bad_request));
    assert_eq!(app.scan(&auth_headers, "ok", 6), Err(bad_request));
    assert_eq!(
        app.scan(&auth_headers, &"x".repeat(513), 0),
        Err(error(413, RemoteErrorCode::QueryTooLarge))
    );
}

#[test]
fn scan_spans_all_visible_namespaces() {
    let alice = key(0x09);
    let bob = key(0x0a);
    let mut app = app(vec![
        writer_binding("alice", vec![alice.clone()]),
        writer_binding("bob", vec![bob.clone()]),
    ]);
    for (pk, ns, text) in [
        (&alice, "alice", "alice shared fact"),
        (&bob, "bob", "bob shared fact"),
    ] {
        app.put(&headers(pk, ns), content(text)).unwrap();
    }
    let candidates = app
        .scan(&headers(&alice, "alice"), "shared fact", 5)
        .unwrap();
    let namespaces = candidates
        .iter()
        .map(|candidate| candidate.key.namespace.clone().unwrap())
        .collect::<HashSet<_>>();
    assert!(namespaces.contains("alice"));
    assert!(namespaces.contains("bob"));
}

#[test]
fn protocol_sync_reconciles_a_namespace_snapshot() {
    let writer = key(0x0b);
    let mut app = app(vec![writer_binding("neil", vec![writer.clone()])]);
    let auth_headers = headers(&writer, "neil");

    let report = app
        .sync(&auth_headers, vec![snapshot_record(1, "snapshot one")])
        .unwrap();
    assert_eq!(report.inserted, 1);
    assert_eq!(report.deleted, 0);

    let report = app.sync(&auth_headers, vec![]).unwrap();
    assert_eq!(report.deleted, 1);

    assert!(app.put(&auth_headers, content("fresh")).unwrap().key.id > 1);
}

#[test]
fn bearer_tokens_serve_loopback_peers_only() {
    let app = app(vec![writer_binding("neil", vec![key(1)])]);
    let table = CredentialTable::new(vec![Credential::new(
        "bob".to_owned(),
        RemoteRole::Reader,
        "tok-1".to_owned(),
    )
    .unwrap()])
    .unwrap();
    let state = app.state.with_credentials(table);
    let mut request = RequestHeaders {
        authorization: Some("Bearer tok-1".to_owned()),
        namespace: Some("bob".to_owned()),
        loopback: true,
    };
    assert_eq!(
        state.authenticate(&request),
        Ok(Principal {
            namespace: "bob".to_owned(),
            role: RemoteRole::Reader,
            source: AuthSource::Bearer,
        })
    );
    assert_eq!(
        state.authorize_write(&request).unwrap_err(),
        error(403, RemoteErrorCode::Forbidden)
    );
    request.namespace = Some("neil".to_owned());
    assert_eq!(
        state.authenticate(&request).unwrap_err(),
        error(403, RemoteErrorCode::NamespaceMismatch)
    );
    request.namespace = Some("bob".to_owned());
    request.loopback = false;
    assert_eq!(
        state.authenticate(&request).unwrap_err(),
        error(401, RemoteErrorCode::Unauthorized)
    );
    request.loopback = true;
    request.authorization = Some("Bearer tok-2".to_owned());
    assert_eq!(
        state.authenticate(&request).unwrap_err(),
        error(401, RemoteErrorCode::Unauthorized)
    );
    let kepos = headers(&key(1).to_uppercase(), "neil");
    assert_eq!(
        state.authenticate(&kepos).unwrap().source,
        AuthSource::Kepos
    );
}

#[test]
fn a_server_without_devices_refuses_everybody() {
    let state = ServerState::new("db".to_owned(), KeposPolicy::default());
    assert_eq!(
        state.authenticate(&headers(&key(1), "neil")).unwrap_err(),
        error(401, RemoteErrorCode::Unauthorized)
    );
}

#[test]
fn mutations_name_memories_of_the_own_namespace() {
    let mut app = app(vec![writer_binding("neil", vec![key(1)])]);
    let auth_headers = headers(&key(1), "neil");
    let forbidden = Err(error(403, RemoteErrorCode::Forbidden));
    for bad in [
        MemoryKey::local(1, 1),
        MemoryKey::remote("bob".to_owned(), 1, 1),
        MemoryKey::remote("neil".to_owned(), 0, 1),
        MemoryKey::remote("neil".to_owned(), 1, 0),
    ] {
        assert_eq!(app.delete(&auth_headers, bad.clone()), forbidden);
        let request = PutRequest { content: "x".to_owned(), replacement: Some(bad) };
        assert_eq!(
            app.put(&auth_headers, request),
            Err(error(403, RemoteErrorCode::Forbidden))
        );
    }
    let absent = MemoryKey::remote("neil".to_owned(), 5, 1);
    assert_eq!(app.delete(&auth_headers, absent.clone()), Ok(()));
    let request = PutRequest { content: "x".to_owned(), replacement: Some(absent) };
    assert_eq!(
        app.put(&auth_headers, request),
        Err(error(404, RemoteErrorCode::NotFound))
    );
    app.put(&auth_headers, content("x")).unwrap();
    assert_eq!(
        app.put(&auth_headers, content("X")),
        Err(error(409, RemoteErrorCode::Duplicate))
    );
}

#[test]
fn reads_are_bounded() {
    let mut app = app(vec![writer_binding("neil", vec![key(1)])]);
    let auth_headers = headers(&key(1), "neil");
    let bad_request = Err(error(400, RemoteErrorCode::BadRequest));
    assert_eq!(app.read(&auth_headers, vec![0], vec![]), bad_request);
    assert_eq!(app.read(&auth_headers, vec![1; 513], vec![]), bad_request);
    assert_eq!(app.read(&auth_headers, vec![1; 512], vec![]), Ok(vec![]));
    assert_eq!(
        app.read(&auth_headers, vec![1; 512], vec![MemoryKey::local(1, 1)]),
        bad_request
    );
    let bad_key = MemoryKey::remote("a b".to_owned(), 1, 1);
    assert!(!valid_key(&bad_key));
    assert_eq!(app.read(&auth_headers, vec![], vec![bad_key]), bad_request);
}

#[test]
fn exports_are_bounded() {
    let mut app = app(vec![writer_binding("neil", vec![key(1)])]);
    let auth_headers = headers(&key(1), "neil");
    let bad_request = Err(error(400, RemoteErrorCode::BadRequest));
    let cursor = |namespace: &str, id: i64| {
        Some(ExportCursor { namespace: namespace.to_owned(), id })
    };
    assert_eq!(app.export(&auth_headers, None, None, 0), bad_request);
    assert_eq!(app.export(&auth_headers, None, None, 129), bad_request);
    assert_eq!(app.export(&auth_headers, Some(vec![]), None, 1), bad_request);
    assert_eq!(
        app.export(&auth_headers, Some(vec!["a b".to_owned()]), None, 1),
        bad_request
    );
    assert_eq!(
        app.export(&auth_headers, Some(vec!["a".to_owned(); 513]), None, 1),
        bad_request
    );
    assert_eq!(app.export(&auth_headers, None, cursor("a", 0), 1), bad_request);
    assert_eq!(app.export(&auth_headers, None, cursor("", 1), 1), bad_request);
    assert_eq!(
        app.export(&auth_headers, Some(vec!["a".to_owned()]), cursor("a", 1), 128),
        Ok((vec![], None))
    );
}

#[test]
fn snapshots_are_bounded() {
    assert!(valid_snapshot(&[]));
    assert!(valid_snapshot(&[snapshot_record(1, "a"), snapshot_record(2, "a")]));
    assert!(!valid_snapshot(&[snapshot_record(1, "a"), snapshot_record(1, "b")]));
    assert!(!valid_snapshot(&[snapshot_record(0, "a")]));
    assert!(!valid_snapshot(&[snapshot_record(1, " ")]));
    assert!(!valid_snapshot(&[snapshot_record(1, &"x".repeat(1025))]));
    let many = |n: i64| (1..=n).map(|id| snapshot_record(id, "x")).collect::<Vec<_>>();
    assert!(valid_snapshot(&many(512)));
    assert!(!valid_snapshot(&many(513)));
    let heavy = (1..=257)
        .map(|id| snapshot_record(id, &"x".repeat(1024)))
        .collect::<Vec<_>>();
    assert!(valid_snapshot(&heavy[..256]));
    assert!(!valid_snapshot(&heavy));
    let mut remote = snapshot_record(1, "a");
    remote.key.namespace = Some("neil".to_owned());
    assert!(!valid_snapshot(&[remote]));
    let mut odd = snapshot_record(1, "a");
    odd.created_at_ms = 2;
    assert!(!valid_snapshot(&[odd]));
    // Equivalent contents pass the request check and are refused by the store.
    let mut app = app(vec![writer_binding("neil", vec![key(1)])]);
    assert_eq!(
        app.sync(
            &headers(&key(1), "neil"),
            vec![snapshot_record(1, "a"), snapshot_record(2, "A")]
        ),
        Err(error(409, RemoteErrorCode::Duplicate))
    );
    assert_eq!(
        app.sync(&headers(&key(1), "neil"), vec![snapshot_record(0, "a")]),
        Err(error(400, RemoteErrorCode::BadRequest))
    );
}

#[test]
fn unreadable_bodies_are_answered() {
    let app = app(vec![writer_binding("neil", vec![key(1)])]);
    let auth_headers = headers(&key(1), "neil");
    assert_eq!(
        app.state.admit_scan(&auth_headers, Err(413)).unwrap_err(),
        error(413, RemoteErrorCode::BadRequest)
    );
    assert_eq!(
        app.state.admit_export(&auth_headers, Err(415)).unwrap_err(),
        error(400, RemoteErrorCode::BadRequest)
    );
    assert_eq!(rejected_payload(422), error(400, RemoteErrorCode::BadRequest));
    // Authentication comes first.
    let nobody = RequestHeaders { authorization: None, namespace: None, loopback: false };
    assert_eq!(
        app.state.admit_read(&nobody, Err(413)).unwrap_err(),
        error(401, RemoteErrorCode::Unauthorized)
    );
}

#[test]
fn store_failures_map_to_stable_codes() {
    let cases = [
        (MemoryError::EmptyContent, 400, RemoteErrorCode::BadRequest),
        (MemoryError::ContentTooLarge { maximum_bytes: 1 }, 413, RemoteErrorCode::ContentTooLarge),
        (MemoryError::QueryTooLarge { maximum_bytes: 1 }, 413, RemoteErrorCode::QueryTooLarge),
        (MemoryError::RecordCapacity { maximum: 1 }, 507, RemoteErrorCode::RecordCapacity),
        (MemoryError::ContentCapacity { maximum_bytes: 1 }, 507, RemoteErrorCode::ContentCapacity),
        (MemoryError::StorageCapacity, 507, RemoteErrorCode::ContentCapacity),
        (MemoryError::SecretRejected, 400, RemoteErrorCode::BadRequest),
        (MemoryError::Duplicate, 409, RemoteErrorCode::Duplicate),
        (MemoryError::NotFound, 404, RemoteErrorCode::NotFound),
        (MemoryError::Conflict, 409, RemoteErrorCode::Conflict),
        (MemoryError::RemoteReadOnly, 403, RemoteErrorCode::Forbidden),
        (MemoryError::InvalidPagination, 500, RemoteErrorCode::Internal),
        (MemoryError::UnsupportedSchemaVersion { found: 2, supported: 1 }, 500, RemoteErrorCode::Internal),
        (MemoryError::Backend, 500, RemoteErrorCode::Internal),
        (MemoryError::Unavailable, 503, RemoteErrorCode::Unavailable),
    ];
    for (failure, status, code) in cases {
        assert_eq!(ApiError::from(failure), error(status, code));
        assert_eq!(failure.is_retryable(), failure == MemoryError::Unavailable);
        assert_eq!(store_result::<u8>(Some(Err(failure))), Err(error(status, code)));
    }
    assert_eq!(store_result(Some(Ok(7u8))), Ok(7));
    assert_eq!(
        store_result::<u8>(None),
        Err(error(503, RemoteErrorCode::Unavailable))
    );
}

#[test]
fn endpoints_are_served_under_the_root() {
    assert_eq!(route("v1/session"), "/v1/session");
}
