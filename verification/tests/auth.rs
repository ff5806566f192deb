use kepos_tact_memory::auth::{
    hash_token, is_bearer_token, is_public_key, parse_authorization, parse_bearer, AuthError,
    Binding, Credential, CredentialTable, HashedCredential, KeposPolicy, PolicyError,
};
use kepos_tact_memory::protocol::RemoteRole;

fn key(byte: u8) -> String {
    format!("{byte:02x}").repeat(32)
}

fn binding(namespace: &str, role: RemoteRole, keys: Vec<String>) -> Binding {
    Binding::new(namespace.to_owned(), role, keys).unwrap()
}

#[test]
fn parses_the_kepos_scheme_and_normalizes_case() {
    let key = key(0xab);
    assert_eq!(
        parse_authorization(&format!("Kepos {}", key.to_uppercase())).unwrap(),
        key
    );
    assert_eq!(parse_authorization(&format!("kepos {key}")).unwrap(), key);
}

#[test]
fn rejects_malformed_authorization() {
    assert_eq!(parse_authorization(""), Err(AuthError::Malformed));
    assert_eq!(parse_authorization("Kepos"), Err(AuthError::Malformed));
    assert_eq!(parse_authorization("Bearer abc"), Err(AuthError::Malformed));
    assert_eq!(
        parse_authorization("Kepos not-hex!"),
        Err(AuthError::Malformed)
    );
    assert_eq!(
        parse_authorization(&format!("Kepos {}", "a".repeat(63))),
        Err(AuthError::Malformed)
    );
}

#[test]
fn multiple_devices_share_one_namespace() {
    let device_one = key(0x01);
    let device_two = key(0x02);
    let policy = KeposPolicy::new(vec![binding(
        "neil",
        RemoteRole::Writer,
        vec![device_one.clone(), device_two.clone()],
    )])
    .unwrap();
    assert_eq!(
        policy.resolve(&device_one),
        Some(("neil", RemoteRole::Writer))
    );
    assert_eq!(
        policy.resolve(&device_two),
        Some(("neil", RemoteRole::Writer))
    );
    assert_eq!(policy.resolve(&key(0x03)), None);
    assert_eq!(
        policy.resolve(&device_one.to_uppercase()),
        Some(("neil", RemoteRole::Writer))
    );
}

#[test]
fn resolution_is_case_normalized() {
    let device = key(0xab);
    let policy = KeposPolicy::new(vec![binding(
        "neil",
        RemoteRole::Reader,
        vec![device.to_uppercase()],
    )])
    .unwrap();
    assert_eq!(policy.resolve(&device), Some(("neil", RemoteRole::Reader)));
    assert_eq!(
        policy.resolve(&device.to_uppercase()),
        Some(("neil", RemoteRole::Reader))
    );
}

#[test]
fn keys_resolve_as_their_binding_holds_them() {
    let upper = "AB".repeat(32);
    let lower = "ab".repeat(32);
    let literal = |namespace: &str, role: RemoteRole, key: &str| Binding {
        namespace: namespace.to_owned(),
        role,
        keys: vec![key.to_owned()],
    };
    let policy = KeposPolicy::new(vec![literal("neil", RemoteRole::Writer, &upper)]).unwrap();
    assert_eq!(policy.resolve(&upper), Some(("neil", RemoteRole::Writer)));
    assert_eq!(policy.resolve(&lower), None);

    let policy = KeposPolicy::new(vec![
        literal("neil", RemoteRole::Writer, &upper),
        literal("bob", RemoteRole::Reader, &lower),
    ])
    .unwrap();
    assert_eq!(policy.resolve(&upper), Some(("neil", RemoteRole::Writer)));
    assert_eq!(policy.resolve(&lower), Some(("bob", RemoteRole::Reader)));
    assert_eq!(
        policy.resolve(&"aB".repeat(32)),
        Some(("bob", RemoteRole::Reader))
    );
    assert_eq!(policy.resolve(&key(0x01)), None);
}

#[test]
fn distinct_namespaces_and_roles() {
    let neil_device = key(0x11);
    let bob_device = key(0x22);
    let policy = KeposPolicy::new(vec![
        binding("neil", RemoteRole::Writer, vec![neil_device.clone()]),
        binding("bob", RemoteRole::Reader, vec![bob_device.clone()]),
    ])
    .unwrap();
    assert_eq!(
        policy.resolve(&neil_device),
        Some(("neil", RemoteRole::Writer))
    );
    assert_eq!(
        policy.resolve(&bob_device),
        Some(("bob", RemoteRole::Reader))
    );
}

#[test]
fn a_device_cannot_be_bound_twice() {
    let device = key(0x33);
    let error = KeposPolicy::new(vec![
        binding("neil", RemoteRole::Writer, vec![device.clone()]),
        binding("bob", RemoteRole::Writer, vec![device.clone()]),
    ]);
    assert!(matches!(error, Err(PolicyError::DuplicateKey(_))));
    assert_eq!(error.unwrap_err(), PolicyError::DuplicateKey(device));
}

#[test]
fn the_first_repeated_device_is_named() {
    let error = KeposPolicy::new(vec![
        binding("neil", RemoteRole::Writer, vec![key(1), key(2), key(3)]),
        binding("bob", RemoteRole::Writer, vec![key(4), key(3), key(2)]),
    ]);
    assert_eq!(error.unwrap_err(), PolicyError::DuplicateKey(key(3)));
}

#[test]
fn binding_validates_namespace_and_keys() {
    assert!(matches!(
        Binding::new(
            "has spaces!".to_owned(),
            RemoteRole::Writer,
            vec![key(0x01)]
        ),
        Err(PolicyError::InvalidNamespace(_))
    ));
    assert!(matches!(
        Binding::new(
            "neil".to_owned(),
            RemoteRole::Writer,
            vec!["not-a-key".to_owned()]
        ),
        Err(PolicyError::InvalidPublicKey(_))
    ));
    assert!(matches!(
        KeposPolicy::new(Vec::<Binding>::new()),
        Err(PolicyError::NoBindings)
    ));
}

#[test]
fn a_binding_names_its_first_bad_key() {
    let error = Binding::new(
        "neil".to_owned(),
        RemoteRole::Writer,
        vec![key(1), "x".to_owned(), "y".to_owned()],
    );
    assert_eq!(error.unwrap_err(), PolicyError::InvalidPublicKey("x".to_owned()));
    let error = Binding::new("no/slash".to_owned(), RemoteRole::Writer, vec!["x".to_owned()]);
    assert_eq!(
        error.unwrap_err(),
        PolicyError::InvalidNamespace("no/slash".to_owned())
    );
}

#[test]
fn a_binding_without_keys_binds_no_device() {
    let empty = binding("neil", RemoteRole::Writer, vec![]);
    assert!(empty.keys.is_empty());
    assert_eq!(
        KeposPolicy::new(vec![empty]).unwrap_err(),
        PolicyError::NoBindings
    );
    assert_eq!(KeposPolicy::default().resolve(&key(1)), None);
}

#[test]
fn public_keys_are_64_hex_digits() {
    assert!(is_public_key(&"0aF9".repeat(16)));
    assert!(!is_public_key(&"a".repeat(63)));
    assert!(!is_public_key(&"a".repeat(65)));
    assert!(!is_public_key(&"g".repeat(64)));
    assert!(!is_public_key(&"é".repeat(32)));
    assert!(!is_public_key(""));
}

#[test]
fn bearer_token_grammar_caps_length() {
    assert!(is_bearer_token(&"a".repeat(4096)));
    assert!(!is_bearer_token(&"a".repeat(4097)));
    assert!(!is_bearer_token(""));
    assert!(!is_bearer_token("has space"));
    assert!(!is_bearer_token("has\ttab"));
}

#[test]
fn bearer_tokens_are_parsed_after_their_scheme() {
    assert_eq!(parse_bearer("Bearer tok-1.~+/="), Some("tok-1.~+/=".to_owned()));
    assert_eq!(parse_bearer("bEARER x"), Some("x".to_owned()));
    assert_eq!(parse_bearer("Bearer  x"), None);
    assert_eq!(parse_bearer("Kepos x"), None);
    assert_eq!(parse_bearer("Bearer"), None);
    assert_eq!(parse_bearer("Bearer a!"), None);
}

#[test]
fn credential_table_resolves_tokens_and_rejects_duplicates() {
    let table = CredentialTable::new(vec![
        Credential::new(
            "neil".to_owned(),
            RemoteRole::Writer,
            "token-a".to_owned(),
        )
        .unwrap(),
        Credential::new("bob".to_owned(), RemoteRole::Reader, "token-b".to_owned()).unwrap(),
    ])
    .unwrap();
    assert_eq!(table.resolve("token-a"), Some(("neil", RemoteRole::Writer)));
    assert_eq!(table.resolve("token-b"), Some(("bob", RemoteRole::Reader)));
    assert_eq!(table.resolve("token-c"), None);
    assert!(matches!(
        CredentialTable::new(vec![
            Credential::new("neil".to_owned(), RemoteRole::Writer, "same".to_owned()).unwrap(),
            Credential::new("bob".to_owned(), RemoteRole::Reader, "same".to_owned()).unwrap(),
        ]),
        Err(PolicyError::DuplicateToken)
    ));
}

#[test]
fn credential_validates_namespace_and_token() {
    assert!(matches!(
        Credential::new("bad ns".to_owned(), RemoteRole::Writer, "tok".to_owned()),
        Err(PolicyError::InvalidNamespace(_))
    ));
    assert!(matches!(
        Credential::new("neil".to_owned(), RemoteRole::Writer, String::new()),
        Err(PolicyError::InvalidToken)
    ));
    assert!(matches!(
        Credential::new(
            "neil".to_owned(),
            RemoteRole::Writer,
            "bad token!".to_owned()
        ),
        Err(PolicyError::InvalidToken)
    ));
}

#[test]
fn token_hashes_are_sha_256() {
    let hex = |hash: [u8; 32]| hash.iter().map(|byte| format!("{byte:02x}")).collect::<String>();
    assert_eq!(
        hex(hash_token("abc")),
        "ba7816bf8f01cfea414140de5dae2223b00361a396177a9cb410ff61f20015ad"
    );
    assert_eq!(
        hex(hash_token("")),
        "e3b0c44298fc1c149afbf4c8996fb92427ae41e4649b934ca495991b7852b855"
    );
}

#[test]
fn tables_of_hashes_resolve_hashes() {
    let entry = |byte: u8, namespace: &str, role: RemoteRole| HashedCredential {
        hash: [byte; 32],
        namespace: namespace.to_owned(),
        role,
    };
    let table = CredentialTable::from_hashed(vec![
        entry(1, "neil", RemoteRole::Writer),
        entry(2, "bob", RemoteRole::Reader),
    ])
    .unwrap();
    assert_eq!(
        table.resolve_hash(&[2; 32]),
        Some(("bob", RemoteRole::Reader))
    );
    assert_eq!(
        table.resolve_hash(&[1; 32]),
        Some(("neil", RemoteRole::Writer))
    );
    assert_eq!(table.resolve_hash(&[3; 32]), None);
    let mut nearly = [2u8; 32];
    nearly[31] = 3;
    assert_eq!(table.resolve_hash(&nearly), None);
    assert_eq!(
        CredentialTable::from_hashed(vec![
            entry(7, "neil", RemoteRole::Writer),
            entry(8, "neil", RemoteRole::Writer),
            entry(7, "bob", RemoteRole::Reader),
        ])
        .unwrap_err(),
        PolicyError::DuplicateToken
    );
    assert_eq!(CredentialTable::default().resolve("x"), None);
}
