use kepos_tact_memory::auth::PolicyError;
use kepos_tact_memory::config::{
    check_token_file_mode, default_role, parse_cli_binding, read_token_file, Args, ConfigError,
    Environment, FileAuth, FileBinding, FileConfig, FileCredential, FileServer, ListenAddr,
    Settings, TokenFile, TokenFileProblem, DEFAULT_DB,
};
use kepos_tact_memory::protocol::{is_valid_namespace, RemoteRole};

fn key(byte: u8) -> String {
    format!("{byte:02x}").repeat(32)
}

fn v4(octets: [u8; 4], port: u16) -> ListenAddr {
    ListenAddr::V4 { octets, port }
}

fn flags() -> Args {
    Args {
        bind: ListenAddr::default_bind(),
        db: DEFAULT_DB.to_owned(),
        binding: vec![],
        config: None,
    }
}

fn environment() -> Environment {
    Environment { file_bind: None, default_db: true, token_files: vec![] }
}

fn file_binding(namespace: &str, role: RemoteRole, keys: Vec<String>) -> FileBinding {
    FileBinding { namespace: namespace.to_owned(), role, keys }
}

fn credential(token: Option<&str>, token_file: Option<&str>) -> FileCredential {
    FileCredential {
        namespace: "neil".to_owned(),
        role: default_role(),
        token: token.map(str::to_owned),
        token_file: token_file.map(str::to_owned),
    }
}

fn file(server: Option<FileServer>, bindings: Vec<FileBinding>, credentials: Vec<FileCredential>) -> Option<FileConfig> {
    Some(FileConfig { server, auth: Some(FileAuth { bindings, credentials }) })
}

fn server(bind: Option<&str>, db: Option<&str>) -> Option<FileServer> {
    Some(FileServer { bind: bind.map(str::to_owned), db: db.map(str::to_owned) })
}

fn token_file(mode: u32, contents: &str) -> TokenFile {
    TokenFile { metadata: Some((true, mode)), contents: Some(contents.to_owned()) }
}

#[test]
fn flags_default_when_config_file_absent() {
    let settings = Settings::resolve(&flags(), &None, &environment()).unwrap();
    assert_eq!(settings.bind, v4([127, 0, 0, 1], 8787));
    assert_eq!(settings.db, "memory/kepos-tact-memory.sqlite3");
    assert!(!settings.has_devices());
}

#[test]
fn cli_binding_binds_devices_to_a_namespace() {
    let k1 = key(0x01);
    let k2 = key(0x02);
    let mut args = flags();
    args.binding = vec![format!("neil:{k1},{k2}"), format!("bob:{}", key(0x03))];
    let settings = Settings::resolve(&args, &None, &environment()).unwrap();
    assert!(settings.has_devices());
    let policy = settings.policy().unwrap();
    assert_eq!(policy.resolve(&k1), Some(("neil", RemoteRole::Writer)));
    assert_eq!(policy.resolve(&k2), Some(("neil", RemoteRole::Writer)));
    assert_eq!(
        policy.resolve(&key(0x03)),
        Some(("bob", RemoteRole::Writer))
    );
}

#[test]
fn file_bindings_supply_namespaces_and_roles() {
    let k1 = key(0x0a);
    let k2 = key(0x0b);
    let config = file(
        server(Some("127.0.0.1:9999"), Some("custom.sqlite3")),
        vec![
            file_binding("neil", default_role(), vec![k1.clone()]),
            file_binding("bob", RemoteRole::Reader, vec![k2.clone()]),
        ],
        vec![],
    );
    let mut environment = environment();
    environment.file_bind = Some(v4([127, 0, 0, 1], 9999));
    let settings = Settings::resolve(&flags(), &config, &environment).unwrap();
    assert_eq!(settings.bind, v4([127, 0, 0, 1], 9999));
    assert_eq!(settings.db, "custom.sqlite3");
    let policy = settings.policy().unwrap();
    assert_eq!(policy.resolve(&k1), Some(("neil", RemoteRole::Writer)));
    assert_eq!(policy.resolve(&k2), Some(("bob", RemoteRole::Reader)));
}

#[test]
fn duplicate_device_across_bindings_is_rejected() {
    let k = key(0x0c);
    let mut args = flags();
    args.binding = vec![format!("neil:{k}"), format!("bob:{k}")];
    let settings = Settings::resolve(&args, &None, &environment()).unwrap();
    assert!(matches!(
        settings.policy(),
        Err(PolicyError::DuplicateKey(_))
    ));
}

#[test]
fn explicit_flags_override_the_config_file() {
    let config = file(server(Some("127.0.0.1:9999"), Some("custom.sqlite3")), vec![], vec![]);
    let mut args = flags();
    args.bind = v4([127, 0, 0, 1], 1234);
    args.db = "mine.sqlite3".to_owned();
    let environment = Environment {
        file_bind: Some(v4([127, 0, 0, 1], 9999)),
        default_db: false,
        token_files: vec![],
    };
    let settings = Settings::resolve(&args, &config, &environment).unwrap();
    assert_eq!(settings.bind, v4([127, 0, 0, 1], 1234));
    assert_eq!(settings.db, "mine.sqlite3");
}

#[test]
fn the_file_moves_a_database_that_the_flags_leave_alone() {
    let config = file(server(None, Some("custom.sqlite3")), vec![], vec![]);
    let db = |text: &str, default_db: bool| {
        let mut args = flags();
        args.db = text.to_owned();
        let mut environment = environment();
        environment.default_db = default_db;
        Settings::resolve(&args, &config, &environment).unwrap().db
    };
    assert_eq!(db(DEFAULT_DB, true), "custom.sqlite3");
    assert_eq!(db(DEFAULT_DB, false), "custom.sqlite3");
    assert_eq!(db("memory//kepos-tact-memory.sqlite3", true), "custom.sqlite3");
    assert_eq!(db("mine.sqlite3", false), "mine.sqlite3");
}

#[test]
fn a_bind_that_is_no_address_is_rejected_unless_overridden() {
    let config = file(server(Some("nowhere"), None), vec![], vec![]);
    assert_eq!(
        Settings::resolve(&flags(), &config, &environment()).unwrap_err(),
        ConfigError::Bind("nowhere".to_owned())
    );
    let mut args = flags();
    args.bind = v4([127, 0, 0, 1], 1);
    assert!(Settings::resolve(&args, &config, &environment()).is_ok());
}

#[test]
fn bindings_must_be_protocol_namespaces() {
    let k = key(0x0d);
    let error = parse_cli_binding(&format!("bad namespace:{k}"));
    assert!(matches!(
        error,
        Err(ConfigError::Policy(PolicyError::InvalidNamespace(_)))
    ));
    assert!(is_valid_namespace("neil"));
}

#[test]
fn cli_bindings_have_a_namespace_and_keys() {
    for raw in ["neil", "", ":", ":abc", "neil:"] {
        assert_eq!(
            parse_cli_binding(raw).unwrap_err(),
            ConfigError::Binding(raw.to_owned())
        );
    }
    let k = key(0xab);
    let made = parse_cli_binding(&format!("neil: {} ,, {k},", k.to_uppercase())).unwrap();
    assert_eq!(made.namespace, "neil");
    assert_eq!(made.role, RemoteRole::Writer);
    assert_eq!(made.keys, vec![k.clone(), k]);
    assert!(parse_cli_binding("neil: , ").unwrap().keys.is_empty());
    assert_eq!(
        parse_cli_binding("neil:a:b").unwrap_err(),
        ConfigError::Policy(PolicyError::InvalidPublicKey("a:b".to_owned()))
    );
}

#[test]
fn file_credentials_parse_inline_tokens_and_token_files() {
    let mut from_file = credential(None, Some("loopback.token"));
    from_file.role = RemoteRole::Reader;
    let config = file(
        server(Some("127.0.0.1:9999"), None),
        vec![file_binding("neil", default_role(), vec![key(0x0e)])],
        vec![credential(Some("inline-token"), None), from_file],
    );
    let environment = Environment {
        file_bind: Some(v4([127, 0, 0, 1], 9999)),
        default_db: true,
        token_files: vec![
            TokenFile { metadata: None, contents: None },
            token_file(0o600, "file-token-1\n"),
        ],
    };
    let settings = Settings::resolve(&flags(), &config, &environment).unwrap();
    let table = settings.credential_table().unwrap();
    assert_eq!(
        table.resolve("inline-token"),
        Some(("neil", RemoteRole::Writer))
    );
    assert_eq!(
        table.resolve("file-token-1"),
        Some(("neil", RemoteRole::Reader))
    );
}

#[test]
fn repeated_tokens_are_rejected() {
    let config = file(
        None,
        vec![],
        vec![credential(Some("same"), None), credential(Some("same"), None)],
    );
    let settings = Settings::resolve(&flags(), &config, &environment()).unwrap();
    assert_eq!(
        settings.credential_table().unwrap_err(),
        PolicyError::DuplicateToken
    );
}

#[test]
fn credential_requires_exactly_one_token_source() {
    let bindings = || vec![file_binding("neil", default_role(), vec![key(0x0f)])];
    let config = file(None, bindings(), vec![credential(None, None)]);
    assert!(matches!(
        Settings::resolve(&flags(), &config, &environment()),
        Err(ConfigError::CredentialField(_))
    ));
    let config = file(None, bindings(), vec![credential(Some("a"), Some("b"))]);
    assert_eq!(
        Settings::resolve(&flags(), &config, &environment()).unwrap_err(),
        ConfigError::CredentialField("neil".to_owned())
    );
}

#[test]
fn non_loopback_bind_is_rejected_from_file_and_flags() {
    let config = file(
        server(Some("0.0.0.0:9999"), None),
        vec![file_binding("neil", default_role(), vec![key(0x11)])],
        vec![],
    );
    let mut from_file = environment();
    from_file.file_bind = Some(v4([0, 0, 0, 0], 9999));
    assert!(matches!(
        Settings::resolve(&flags(), &config, &from_file),
        Err(ConfigError::NonLoopbackBind(_))
    ));

    let mut args = flags();
    args.bind = v4([0, 0, 0, 0], 9999);
    assert!(matches!(
        Settings::resolve(&args, &None, &environment()),
        Err(ConfigError::NonLoopbackBind(_))
    ));
}

#[test]
fn ipv6_loopback_bind_is_accepted() {
    let v6 = |last: u16| ListenAddr::V6 {
        segments: [0, 0, 0, 0, 0, 0, 0, last],
        port: 8787,
        flowinfo: 0,
        scope_id: 0,
    };
    let mut args = flags();
    args.bind = v6(1);
    let settings = Settings::resolve(&args, &None, &environment()).unwrap();
    assert_eq!(settings.bind, v6(1));
    args.bind = v6(2);
    assert_eq!(
        Settings::resolve(&args, &None, &environment()).unwrap_err(),
        ConfigError::NonLoopbackBind(v6(2))
    );
    assert!(v4([127, 9, 9, 9], 1).is_loopback());
    assert!(!v4([128, 0, 0, 1], 1).is_loopback());
}

#[test]
fn token_file_mode_0600_is_enforced() {
    let config = file(
        None,
        vec![file_binding("neil", default_role(), vec![key(0x12)])],
        vec![credential(None, Some("loopback.token"))],
    );
    let mut environment = environment();
    environment.token_files = vec![token_file(0o644, "secret-token\n")];
    assert!(matches!(
        Settings::resolve(&flags(), &config, &environment),
        Err(ConfigError::TokenFilePermissions(_, 0o644))
    ));

    environment.token_files = vec![token_file(0o600, "secret-token\n")];
    let settings = Settings::resolve(&flags(), &config, &environment).unwrap();
    assert_eq!(settings.credentials.len(), 1);
    assert_eq!(
        settings.credential_table().unwrap().resolve("secret-token"),
        Some(("neil", RemoteRole::Writer))
    );
}

#[test]
fn any_owner_only_token_file_mode_is_accepted() {
    let config = file(
        None,
        vec![file_binding("neil", default_role(), vec![key(0x13)])],
        vec![credential(None, Some("loopback.token"))],
    );
    let mut environment = environment();
    for mode in [0o400, 0o600, 0o700, 0o100600] {
        environment.token_files = vec![token_file(mode, "secret-token\n")];
        Settings::resolve(&flags(), &config, &environment).unwrap();
    }
    environment.token_files = vec![token_file(0o100440, "secret-token\n")];
    assert!(matches!(
        Settings::resolve(&flags(), &config, &environment),
        Err(ConfigError::TokenFilePermissions(_, 0o440))
    ));
}

#[test]
fn oversized_token_file_is_rejected() {
    let config = file(
        None,
        vec![file_binding("neil", default_role(), vec![key(0x10)])],
        vec![credential(None, Some("loopback.token"))],
    );
    let mut environment = environment();
    environment.token_files = vec![token_file(0o600, &"x".repeat(65 * 1024))];
    assert!(matches!(
        Settings::resolve(&flags(), &config, &environment),
        Err(ConfigError::TokenFile(_, _))
    ));
}

#[test]
fn token_files_are_checked_and_read() {
    let problem = |file: TokenFile| read_token_file("t", &file).unwrap_err();
    let failed = |problem| ConfigError::TokenFile("t".to_owned(), problem);
    assert_eq!(
        problem(TokenFile { metadata: None, contents: Some("x".to_owned()) }),
        failed(TokenFileProblem::Unreadable)
    );
    assert_eq!(
        problem(TokenFile { metadata: Some((false, 0o600)), contents: Some("x".to_owned()) }),
        failed(TokenFileProblem::NotRegular)
    );
    assert_eq!(
        problem(TokenFile { metadata: Some((true, 0o600)), contents: None }),
        failed(TokenFileProblem::Unreadable)
    );
    assert_eq!(problem(token_file(0o600, "")), failed(TokenFileProblem::Empty));
    assert_eq!(problem(token_file(0o600, " \n\t\n")), failed(TokenFileProblem::Empty));
    assert_eq!(
        problem(token_file(0o600, &"x".repeat(65537))),
        failed(TokenFileProblem::TooLarge)
    );
    assert_eq!(
        read_token_file("t", &token_file(0o600, "\r\n  first \r\nsecond\n")).unwrap(),
        "first"
    );
    assert_eq!(
        read_token_file("t", &token_file(0o600, &"x".repeat(65536))).unwrap(),
        "x".repeat(65536)
    );
    assert_eq!(
        check_token_file_mode("t", Some((true, 0o601))).unwrap_err(),
        ConfigError::TokenFilePermissions("t".to_owned(), 0o601)
    );
}

#[test]
fn a_missing_token_file_is_unreadable() {
    let config = file(None, vec![], vec![credential(None, Some("gone"))]);
    assert_eq!(
        Settings::resolve(&flags(), &config, &environment()).unwrap_err(),
        ConfigError::TokenFile("gone".to_owned(), TokenFileProblem::Unreadable)
    );
}

#[test]
fn the_first_fault_is_reported() {
    let config = file(
        server(Some("nowhere"), None),
        vec![file_binding("bad ns", default_role(), vec![])],
        vec![credential(None, None)],
    );
    let mut args = flags();
    args.binding = vec!["broken".to_owned()];
    let mut environment = environment();
    assert_eq!(
        Settings::resolve(&args, &config, &environment).unwrap_err(),
        ConfigError::Bind("nowhere".to_owned())
    );
    environment.file_bind = Some(v4([10, 0, 0, 1], 1));
    assert_eq!(
        Settings::resolve(&args, &config, &environment).unwrap_err(),
        ConfigError::NonLoopbackBind(v4([10, 0, 0, 1], 1))
    );
    environment.file_bind = Some(v4([127, 0, 0, 1], 1));
    assert_eq!(
        Settings::resolve(&args, &config, &environment).unwrap_err(),
        ConfigError::Policy(PolicyError::InvalidNamespace("bad ns".to_owned()))
    );
    let config = file(None, vec![], vec![credential(None, None)]);
    assert_eq!(
        Settings::resolve(&args, &config, &environment).unwrap_err(),
        ConfigError::Binding("broken".to_owned())
    );
}
