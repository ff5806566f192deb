//! Runtime settings: the listen address, the database path, and who may use the server.

use vstd::prelude::*;

use crate::auth::{
    binding_outcome, binding_views, credential_outcome, credential_views, devices_distinct,
    devices_in, devices_of, entries_distinct, hashed_entries, policy_outcome, Binding, BindingView,
    Credential, CredentialTable, CredentialView, DeviceView, KeposPolicy, PolicyError,
    PolicyErrorView,
};
use crate::protocol::{optional_text, RemoteRole};
use crate::rows::{lemma_filter_empty, lemma_filter_step};
use crate::text::{
    byte_len, fields, lemma_utf8_empty, same_text, split, split_first, split_once, texts, trim,
    trimmed, utf8_len,
};

verus! {

/// Port of the default listen address.
pub const DEFAULT_PORT: u16 = 8787;

/// Path of the default database.
pub const DEFAULT_DB: &'static str = "memory/kepos-tact-memory.sqlite3";

/// Largest number of bytes in a bearer token file.
pub const MAX_TOKEN_FILE_BYTES: usize = 65536;

/// An address to listen on.
#[derive(Clone, Copy, Debug, PartialEq, Eq)]
pub enum ListenAddr {
    V4 { octets: [u8; 4], port: u16 },
    V6 { segments: [u16; 8], port: u16, flowinfo: u32, scope_id: u32 },
}

/// The address 127.0.0.1:8787.
pub open spec fn is_default_bind(address: ListenAddr) -> bool {
    match address {
        ListenAddr::V4 { octets, port } => octets@ == seq![127u8, 0u8, 0u8, 1u8] && port == 8787,
        ListenAddr::V6 { .. } => false,
    }
}

/// Whether only the same host can reach the address: 127.0.0.0/8 or ::1.
pub open spec fn loopback(address: ListenAddr) -> bool {
    match address {
        ListenAddr::V4 { octets, .. } => octets@[0] == 127,
        ListenAddr::V6 { segments, .. } => segments@ == seq![
            0u16,
            0u16,
            0u16,
            0u16,
            0u16,
            0u16,
            0u16,
            1u16,
        ],
    }
}

impl ListenAddr {
    /// The default address.
    pub fn default_bind() -> (address: ListenAddr)
        ensures
            is_default_bind(address),
    {
        let address = ListenAddr::V4 { octets: [127, 0, 0, 1], port: DEFAULT_PORT };
        assert([127u8, 0u8, 0u8, 1u8]@ =~= seq![127u8, 0u8, 0u8, 1u8]);
        address
    }

    /// Whether this is the default address.
    pub fn is_default(&self) -> (r: bool)
        ensures
            r == is_default_bind(*self),
    {
        match self {
            ListenAddr::V4 { octets, port } => {
                let same = octets[0] == 127 && octets[1] == 0 && octets[2] == 0 && octets[3] == 1;
                assert(same == (octets@ =~= seq![127u8, 0u8, 0u8, 1u8]));
                same && *port == DEFAULT_PORT
            },
            ListenAddr::V6 { .. } => false,
        }
    }

    /// Whether only the same host can reach this address.
    pub fn is_loopback(&self) -> (r: bool)
        ensures
            r == loopback(*self),
    {
        match self {
            ListenAddr::V4 { octets, .. } => octets[0] == 127,
            ListenAddr::V6 { segments, .. } => {
                let same = segments[0] == 0 && segments[1] == 0 && segments[2] == 0 && segments[3]
                    == 0 && segments[4] == 0 && segments[5] == 0 && segments[6] == 0 && segments[7]
                    == 1;
                assert(same == (segments@ =~= seq![
                    0u16,
                    0u16,
                    0u16,
                    0u16,
                    0u16,
                    0u16,
                    0u16,
                    1u16,
                ]));
                same
            },
        }
    }
}

/// Command-line flags.
#[derive(Clone, Debug)]
pub struct Args {
    /// Listen address.
    pub bind: ListenAddr,
    /// Path of the database.
    pub db: String,
    /// Bindings of the form `NAMESPACE:KEY[,KEY...]`.
    pub binding: Vec<String>,
    /// Path of a configuration file.
    pub config: Option<String>,
}

/// A configuration file.
#[derive(Clone, Debug, Default)]
pub struct FileConfig {
    pub server: Option<FileServer>,
    pub auth: Option<FileAuth>,
}

/// The `[server]` table of a configuration file.
#[derive(Clone, Debug, Default)]
pub struct FileServer {
    pub bind: Option<String>,
    pub db: Option<String>,
}

/// The `[auth]` table of a configuration file.
#[derive(Clone, Debug, Default)]
pub struct FileAuth {
    pub bindings: Vec<FileBinding>,
    pub credentials: Vec<FileCredential>,
}

/// Devices that a configuration file binds to a namespace.
#[derive(Clone, Debug)]
pub struct FileBinding {
    pub namespace: String,
    pub role: RemoteRole,
    pub keys: Vec<String>,
}

/// A bearer token that a configuration file binds to a namespace. It gives the token itself or
/// the path of a file whose first line that is not blank is the token, and not both.
#[derive(Clone, Debug)]
pub struct FileCredential {
    pub namespace: String,
    pub role: RemoteRole,
    pub token: Option<String>,
    pub token_file: Option<String>,
}

/// The role of a binding or credential that names none.
pub fn default_role() -> (role: RemoteRole)
    ensures
        role == RemoteRole::Writer,
{
    RemoteRole::Writer
}

/// What a file system tells of a bearer token file.
#[derive(Clone, Debug)]
pub struct TokenFile {
    /// Whether it is a regular file, and its permission bits; `None` if that could not be read.
    pub metadata: Option<(bool, u32)>,
    /// Its contents; `None` if they could not be read.
    pub contents: Option<String>,
}

/// What the system tells of the texts in flags and file.
#[derive(Clone, Debug)]
pub struct Environment {
    /// The address that the file's `bind` denotes; `None` if it denotes none.
    pub file_bind: Option<ListenAddr>,
    /// Whether the flags' database path, however it is spelled, is the default path.
    pub default_db: bool,
    /// The token file of each credential of the file; one that is missing counts as unreadable.
    pub token_files: Vec<TokenFile>,
}

/// What is wrong with a bearer token file.
#[derive(Clone, Copy, Debug, PartialEq, Eq, Structural)]
pub enum TokenFileProblem {
    Unreadable,
    NotRegular,
    TooLarge,
    Empty,
}

/// Failure while resolving settings.
#[derive(Clone, Debug, PartialEq, Eq)]
pub enum ConfigError {
    /// The file's `bind` denotes no address.
    Bind(String),
    /// The address can be reached from another host, which could forge the identity header.
    NonLoopbackBind(ListenAddr),
    /// A binding of the flags is not of the form `NAMESPACE:KEY[,KEY...]`.
    Binding(String),
    /// The credential of a namespace does not give exactly one of token and token file.
    CredentialField(String),
    /// A token file cannot be used.
    TokenFile(String, TokenFileProblem),
    /// A token file is accessible to others than its owner; its permission bits.
    TokenFilePermissions(String, u32),
    /// A binding or credential is not valid.
    Policy(PolicyError),
}

/// The value of a `ConfigError`.
pub enum ConfigErrorView {
    Bind(Seq<char>),
    NonLoopbackBind(ListenAddr),
    Binding(Seq<char>),
    CredentialField(Seq<char>),
    TokenFile(Seq<char>, TokenFileProblem),
    TokenFilePermissions(Seq<char>, u32),
    Policy(PolicyErrorView),
}

impl View for ConfigError {
    type V = ConfigErrorView;

    open spec fn view(&self) -> ConfigErrorView {
        match *self {
            ConfigError::Bind(text) => ConfigErrorView::Bind(text@),
            ConfigError::NonLoopbackBind(address) => ConfigErrorView::NonLoopbackBind(address),
            ConfigError::Binding(text) => ConfigErrorView::Binding(text@),
            ConfigError::CredentialField(text) => ConfigErrorView::CredentialField(text@),
            ConfigError::TokenFile(path, problem) => ConfigErrorView::TokenFile(path@, problem),
            ConfigError::TokenFilePermissions(path, mode) => ConfigErrorView::TokenFilePermissions(
                path@,
                mode,
            ),
            ConfigError::Policy(error) => ConfigErrorView::Policy(error@),
        }
    }
}

/// What is not empty of `parts` once trimmed, in order.
pub open spec fn trimmed_parts(parts: Seq<Seq<char>>) -> Seq<Seq<char>> {
    parts.map_values(|part: Seq<char>| trimmed(part)).filter(|part: Seq<char>| part.len() > 0)
}

/// The binding that a flag `NAMESPACE:KEY[,KEY...]` stands for, with writer role, or what is wrong
/// with it.
pub open spec fn cli_binding_outcome(raw: Seq<char>) -> Result<BindingView, ConfigErrorView> {
    match split_first(raw, ':') {
        Some((namespace, keys)) => if namespace.len() == 0 || keys.len() == 0 {
            Err(ConfigErrorView::Binding(raw))
        } else {
            with_policy(
                binding_outcome(namespace, RemoteRole::Writer, trimmed_parts(fields(keys, ','))),
            )
        },
        None => Err(ConfigErrorView::Binding(raw)),
    }
}

/// A result of which the failure is one of the policy.
pub open spec fn with_policy<T>(outcome: Result<T, PolicyErrorView>) -> Result<T, ConfigErrorView> {
    match outcome {
        Ok(value) => Ok(value),
        Err(error) => Err(ConfigErrorView::Policy(error)),
    }
}

/// Parses a flag `NAMESPACE:KEY[,KEY...]` into a binding with writer role.
pub fn parse_cli_binding(raw: &str) -> (binding: Result<Binding, ConfigError>)
    ensures
        match binding {
            Ok(binding) => cli_binding_outcome(raw@) == Ok::<BindingView, ConfigErrorView>(
                binding@,
            ),
            Err(error) => cli_binding_outcome(raw@) == Err::<BindingView, ConfigErrorView>(error@),
        },
{
    let (namespace, list) = match split_once(raw, ':') {
        Some(halves) => halves,
        None => {
            return Err(ConfigError::Binding(raw.to_string()));
        },
    };
    proof {
        lemma_utf8_empty(namespace@);
        lemma_utf8_empty(list@);
    }
    if byte_len(namespace.as_str()) == 0 || byte_len(list.as_str()) == 0 {
        return Err(ConfigError::Binding(raw.to_string()));
    }
    let pieces = split(list.as_str(), ',');
    let ghost cut = fields(list@, ',').map_values(|part: Seq<char>| trimmed(part));
    let ghost keep = |part: Seq<char>| part.len() > 0;
    let mut keys: Vec<String> = Vec::new();
    let mut i: usize = 0;
    proof {
        lemma_filter_empty(cut.take(0), keep);
        assert(texts(keys@) =~= cut.take(0).filter(keep));
        assert(texts(pieces@).len() == pieces@.len());
    }
    while i < pieces.len()
        invariant
            texts(pieces@) == fields(list@, ','),
            cut == fields(list@, ',').map_values(|part: Seq<char>| trimmed(part)),
            keep == (|part: Seq<char>| part.len() > 0),
            cut.len() == pieces@.len(),
            i <= pieces@.len(),
            texts(keys@) == cut.take(i as int).filter(keep),
        decreases pieces@.len() - i,
    {
        let key = trim(pieces[i].as_str());
        let ghost before = keys@;
        proof {
            assert(texts(pieces@)[i as int] == pieces@[i as int]@);
            assert(cut[i as int] == key@);
            lemma_filter_step(cut, keep, i as int);
            lemma_utf8_empty(key@);
        }
        if byte_len(key.as_str()) > 0 {
            keys.push(key);
            assert(texts(keys@) =~= texts(before).push(cut[i as int]));
        }
        i += 1;
    }
    assert(cut.take(i as int) =~= cut);
    match Binding::new(namespace, RemoteRole::Writer, keys) {
        Ok(binding) => Ok(binding),
        Err(error) => Err(ConfigError::Policy(error)),
    }
}

/// Whether permission bits give access to others than the owner.
pub open spec fn shared_mode(mode: u32) -> bool {
    mode & 0o077 != 0
}

/// Accepts a token file that is a regular file and accessible to its owner only.
pub fn check_token_file_mode(path: &str, metadata: Option<(bool, u32)>) -> (checked: Result<
    (),
    ConfigError,
>)
    ensures
        match checked {
            Ok(()) => mode_fault(path@, metadata) is None,
            Err(error) => mode_fault(path@, metadata) == Some(error@),
        },
{
    match metadata {
        None => Err(ConfigError::TokenFile(path.to_string(), TokenFileProblem::Unreadable)),
        Some((regular, bits)) => {
            if !regular {
                return Err(ConfigError::TokenFile(path.to_string(), TokenFileProblem::NotRegular));
            }
            let mode: u32 = bits & 0o777;
            if mode & 0o077 != 0 {
                return Err(ConfigError::TokenFilePermissions(path.to_string(), mode));
            }
            Ok(())
        },
    }
}

/// What is wrong with the kind or the permission bits of a token file, if anything.
pub open spec fn mode_fault(path: Seq<char>, metadata: Option<(bool, u32)>) -> Option<
    ConfigErrorView,
> {
    match metadata {
        None => Some(ConfigErrorView::TokenFile(path, TokenFileProblem::Unreadable)),
        Some((regular, bits)) => if !regular {
            Some(ConfigErrorView::TokenFile(path, TokenFileProblem::NotRegular))
        } else if shared_mode(bits & 0o777) {
            Some(ConfigErrorView::TokenFilePermissions(path, bits & 0o777))
        } else {
            None
        },
    }
}

/// The first of `lines` that is not blank, trimmed.
pub open spec fn first_line(lines: Seq<Seq<char>>) -> Option<Seq<char>>
    decreases lines.len(),
{
    if lines.len() == 0 {
        None
    } else if trimmed(lines[0]).len() > 0 {
        Some(trimmed(lines[0]))
    } else {
        first_line(lines.drop_first())
    }
}

/// The token that a token file gives, or what is wrong with the file.
pub open spec fn token_file_outcome(path: Seq<char>, file: TokenFile) -> Result<
    Seq<char>,
    ConfigErrorView,
> {
    if mode_fault(path, file.metadata) is Some {
        Err(mode_fault(path, file.metadata)->0)
    } else {
        match file.contents {
            None => Err(ConfigErrorView::TokenFile(path, TokenFileProblem::Unreadable)),
            Some(raw) => if utf8_len(raw@) > MAX_TOKEN_FILE_BYTES {
                Err(ConfigErrorView::TokenFile(path, TokenFileProblem::TooLarge))
            } else {
                match first_line(fields(raw@, '\n')) {
                    Some(token) => Ok(token),
                    None => Err(ConfigErrorView::TokenFile(path, TokenFileProblem::Empty)),
                }
            },
        }
    }
}

/// The token that a token file gives: its first line that is not blank.
pub fn read_token_file(path: &str, file: &TokenFile) -> (token: Result<String, ConfigError>)
    ensures
        match token {
            Ok(token) => token_file_outcome(path@, *file) == Ok::<Seq<char>, ConfigErrorView>(
                token@,
            ),
            Err(error) => token_file_outcome(path@, *file) == Err::<Seq<char>, ConfigErrorView>(
                error@,
            ),
        },
{
    if let Err(error) = check_token_file_mode(path, file.metadata) {
        return Err(error);
    }
    let raw = match &file.contents {
        Some(raw) => raw.as_str(),
        None => {
            return Err(ConfigError::TokenFile(path.to_string(), TokenFileProblem::Unreadable));
        },
    };
    if byte_len(raw) > MAX_TOKEN_FILE_BYTES {
        return Err(ConfigError::TokenFile(path.to_string(), TokenFileProblem::TooLarge));
    }
    let lines = split(raw, '\n');
    let ghost all = fields(raw@, '\n');
    let mut i: usize = 0;
    proof {
        assert(texts(lines@).len() == lines@.len());
        assert(all.skip(0) =~= all);
    }
    while i < lines.len()
        invariant
            mode_fault(path@, file.metadata) is None,
            file.contents matches Some(contents) && contents@ == raw@,
            utf8_len(raw@) <= MAX_TOKEN_FILE_BYTES,
            all == fields(raw@, '\n'),
            texts(lines@) == all,
            all.len() == lines@.len(),
            i <= lines@.len(),
            first_line(all) == first_line(all.skip(i as int)),
        decreases lines@.len() - i,
    {
        let line = trim(lines[i].as_str());
        proof {
            assert(texts(lines@)[i as int] == lines@[i as int]@);
            assert(all.skip(i as int)[0] == all[i as int]);
            assert(all.skip(i as int).drop_first() =~= all.skip(i + 1));
            lemma_utf8_empty(line@);
        }
        if byte_len(line.as_str()) > 0 {
            return Ok(line);
        }
        i += 1;
    }
    Err(ConfigError::TokenFile(path.to_string(), TokenFileProblem::Empty))
}

/// The credential that a configuration file gives, or what is wrong with it.
pub open spec fn file_credential_outcome(credential: FileCredential, file: TokenFile) -> Result<
    CredentialView,
    ConfigErrorView,
> {
    let token = match (credential.token, credential.token_file) {
        (Some(token), None) => Ok(token@),
        (None, Some(path)) => token_file_outcome(path@, file),
        _ => Err(ConfigErrorView::CredentialField(credential.namespace@)),
    };
    match token {
        Ok(token) => with_policy(credential_outcome(credential.namespace@, credential.role, token)),
        Err(error) => Err(error),
    }
}

/// The credential that a configuration file gives.
fn file_credential(credential: &FileCredential, file: &TokenFile) -> (made: Result<
    Credential,
    ConfigError,
>)
    ensures
        match made {
            Ok(made) => file_credential_outcome(*credential, *file) == Ok::<
                CredentialView,
                ConfigErrorView,
            >(made@),
            Err(error) => file_credential_outcome(*credential, *file) == Err::<
                CredentialView,
                ConfigErrorView,
            >(error@),
        },
{
    let token = match (&credential.token, &credential.token_file) {
        (Some(token), None) => token.clone(),
        (None, Some(path)) => match read_token_file(path.as_str(), file) {
            Ok(token) => token,
            Err(error) => {
                return Err(error);
            },
        },
        _ => {
            return Err(ConfigError::CredentialField(credential.namespace.clone()));
        },
    };
    match Credential::new(credential.namespace.clone(), credential.role, token) {
        Ok(made) => Ok(made),
        Err(error) => Err(ConfigError::Policy(error)),
    }
}

/// All of `results` where each is a success, and the first failure otherwise.
pub open spec fn collected<T, E>(results: Seq<Result<T, E>>) -> Result<Seq<T>, E>
    decreases results.len(),
{
    if results.len() == 0 {
        Ok(Seq::empty())
    } else {
        match collected(results.drop_last()) {
            Ok(before) => match results.last() {
                Ok(value) => Ok(before.push(value)),
                Err(error) => Err(error),
            },
            Err(error) => Err(error),
        }
    }
}

/// A failure among the first results is the failure of all.
proof fn lemma_collected_fails<T, E>(results: Seq<Result<T, E>>, n: int)
    requires
        0 <= n <= results.len(),
        collected(results.take(n)) is Err,
    ensures
        collected(results) == collected(results.take(n)),
    decreases results.len(),
{
    if n == results.len() {
        assert(results.take(n) =~= results);
    } else {
        assert(results.drop_last().take(n) =~= results.take(n));
        lemma_collected_fails(results.drop_last(), n);
    }
}

/// The binding that a configuration file gives, or what is wrong with it.
pub open spec fn file_binding_outcome(binding: FileBinding) -> Result<
    BindingView,
    ConfigErrorView,
> {
    with_policy(binding_outcome(binding.namespace@, binding.role, texts(binding.keys@)))
}

/// The bindings of a configuration file.
pub open spec fn file_bindings(file: Option<FileConfig>) -> Seq<FileBinding> {
    match file {
        Some(config) => match config.auth {
            Some(auth) => auth.bindings@,
            None => Seq::empty(),
        },
        None => Seq::empty(),
    }
}

/// The credentials of a configuration file.
pub open spec fn file_credentials(file: Option<FileConfig>) -> Seq<FileCredential> {
    match file {
        Some(config) => match config.auth {
            Some(auth) => auth.credentials@,
            None => Seq::empty(),
        },
        None => Seq::empty(),
    }
}

/// The `bind` of a configuration file.
pub open spec fn file_bind(file: Option<FileConfig>) -> Option<Seq<char>> {
    match file {
        Some(config) => match config.server {
            Some(server) => optional_text(server.bind),
            None => None,
        },
        None => None,
    }
}

/// The `db` of a configuration file.
pub open spec fn file_db(file: Option<FileConfig>) -> Option<Seq<char>> {
    match file {
        Some(config) => match config.server {
            Some(server) => optional_text(server.db),
            None => None,
        },
        None => None,
    }
}

/// The listen address: the file's, if it gives one and the flags leave the default, and otherwise
/// that of the flags.
pub open spec fn bind_outcome(
    args: Args,
    file: Option<FileConfig>,
    environment: Environment,
) -> Result<ListenAddr, ConfigErrorView> {
    match file_bind(file) {
        Some(text) => if is_default_bind(args.bind) {
            match environment.file_bind {
                Some(address) => Ok(address),
                None => Err(ConfigErrorView::Bind(text)),
            }
        } else {
            Ok(args.bind)
        },
        None => Ok(args.bind),
    }
}

/// Whether the flags leave the database at its default path: they spell it so, or the system takes
/// what they spell for the same path.
pub open spec fn leaves_default_db(args: Args, environment: Environment) -> bool {
    environment.default_db || args.db@ == DEFAULT_DB@
}

/// The database path: the file's, if it gives one and the flags leave the default, and otherwise
/// that of the flags.
pub open spec fn db_outcome(
    args: Args,
    file: Option<FileConfig>,
    environment: Environment,
) -> Seq<char> {
    match file_db(file) {
        Some(path) => if leaves_default_db(args, environment) {
            path
        } else {
            args.db@
        },
        None => args.db@,
    }
}

/// What each binding gives: first those of the file, then those of the flags.
pub open spec fn binding_results(args: Args, file: Option<FileConfig>) -> Seq<
    Result<BindingView, ConfigErrorView>,
> {
    file_bindings(file).map_values(|binding: FileBinding| file_binding_outcome(binding)) + texts(
        args.binding@,
    ).map_values(|raw: Seq<char>| cli_binding_outcome(raw))
}

/// The token file of the credential at `i`.
pub open spec fn token_file_at(environment: Environment, i: int) -> TokenFile {
    if i < environment.token_files@.len() {
        environment.token_files@[i]
    } else {
        TokenFile { metadata: None, contents: None }
    }
}

/// What each credential of the file gives.
pub open spec fn credential_results(file: Option<FileConfig>, environment: Environment) -> Seq<
    Result<CredentialView, ConfigErrorView>,
> {
    Seq::new(
        file_credentials(file).len(),
        |i: int|
            file_credential_outcome(file_credentials(file)[i], token_file_at(environment, i)),
    )
}

/// The value of `Settings`.
pub struct SettingsView {
    pub bind: ListenAddr,
    pub db: Seq<char>,
    pub bindings: Seq<BindingView>,
    pub credentials: Seq<CredentialView>,
}

/// The settings that flags, file and system give, or what is wrong first: the address, that it can
/// be reached from another host, a binding, a credential.
pub open spec fn settings_outcome(
    args: Args,
    file: Option<FileConfig>,
    environment: Environment,
) -> Result<SettingsView, ConfigErrorView> {
    match bind_outcome(args, file, environment) {
        Err(error) => Err(error),
        Ok(bind) => if !loopback(bind) {
            Err(ConfigErrorView::NonLoopbackBind(bind))
        } else {
            match collected(binding_results(args, file)) {
                Err(error) => Err(error),
                Ok(bindings) => match collected(credential_results(file, environment)) {
                    Err(error) => Err(error),
                    Ok(credentials) => Ok(
                        SettingsView {
                            bind,
                            db: db_outcome(args, file, environment),
                            bindings,
                            credentials,
                        },
                    ),
                },
            }
        },
    }
}

/// Effective runtime settings.
#[derive(Clone, Debug)]
pub struct Settings {
    pub bind: ListenAddr,
    pub db: String,
    pub bindings: Vec<Binding>,
    pub credentials: Vec<Credential>,
}

impl View for Settings {
    type V = SettingsView;

    open spec fn view(&self) -> SettingsView {
        SettingsView {
            bind: self.bind,
            db: self.db@,
            bindings: binding_views(self.bindings@),
            credentials: credential_views(self.credentials@),
        }
    }
}

/// A list of texts of the same value.
fn copy_texts(list: &Vec<String>) -> (copy: Vec<String>)
    ensures
        texts(copy@) == texts(list@),
{
    let ghost all = texts(list@);
    let mut copy: Vec<String> = Vec::new();
    let mut i: usize = 0;
    while i < list.len()
        invariant
            all == texts(list@),
            i <= list@.len(),
            texts(copy@) == all.take(i as int),
        decreases list@.len() - i,
    {
        let ghost before = copy@;
        copy.push(list[i].clone());
        i += 1;
        proof {
            assert(texts(copy@) =~= texts(before).push(all[i - 1]));
            assert(all.take(i as int) =~= all.take(i - 1).push(all[i - 1]));
        }
    }
    assert(all.take(i as int) =~= all);
    copy
}

/// The bindings of file and flags.
fn resolve_bindings(args: &Args, file: &Option<FileConfig>) -> (bindings: Result<
    Vec<Binding>,
    ConfigError,
>)
    ensures
        match bindings {
            Ok(bindings) => collected(binding_results(*args, *file)) == Ok::<
                Seq<BindingView>,
                ConfigErrorView,
            >(binding_views(bindings@)),
            Err(error) => collected(binding_results(*args, *file)) == Err::<
                Seq<BindingView>,
                ConfigErrorView,
            >(error@),
        },
{
    let ghost results = binding_results(*args, *file);
    let ghost from_file = file_bindings(*file);
    let mut bindings: Vec<Binding> = Vec::new();
    proof {
        assert(results.take(0) =~= Seq::empty());
        assert(binding_views(bindings@) =~= Seq::<BindingView>::empty());
    }
    if let Some(config) = file {
        if let Some(auth) = &config.auth {
            let mut i: usize = 0;
            while i < auth.bindings.len()
                invariant
                    results == binding_results(*args, *file),
                    from_file == file_bindings(*file),
                    from_file == auth.bindings@,
                    i <= auth.bindings@.len(),
                    collected(results.take(i as int)) == Ok::<Seq<BindingView>, ConfigErrorView>(
                        binding_views(bindings@),
                    ),
                decreases auth.bindings@.len() - i,
            {
                let binding = &auth.bindings[i];
                proof {
                    assert(results[i as int] == file_binding_outcome(*binding));
                    assert(results.take(i + 1).drop_last() =~= results.take(i as int));
                    assert(results.take(i + 1).last() == results[i as int]);
                }
                match Binding::new(
                    binding.namespace.clone(),
                    binding.role,
                    copy_texts(&binding.keys),
                ) {
                    Ok(made) => {
                        let ghost before = bindings@;
                        bindings.push(made);
                        assert(binding_views(bindings@) =~= binding_views(before).push(made@));
                    },
                    Err(error) => {
                        proof {
                            lemma_collected_fails(results, i + 1);
                        }
                        return Err(ConfigError::Policy(error));
                    },
                }
                i += 1;
            }
        }
    }
    let ghost first = from_file.len() as int;
    let mut k: usize = 0;
    while k < args.binding.len()
        invariant
            results == binding_results(*args, *file),
            from_file == file_bindings(*file),
            first == from_file.len(),
            k <= args.binding@.len(),
            collected(results.take(first + k)) == Ok::<Seq<BindingView>, ConfigErrorView>(
                binding_views(bindings@),
            ),
        decreases args.binding@.len() - k,
    {
        let ghost at = first + k;
        proof {
            assert(texts(args.binding@)[k as int] == args.binding@[k as int]@);
            assert(results[at] == cli_binding_outcome(args.binding@[k as int]@));
            assert(results.take(at + 1).drop_last() =~= results.take(at));
            assert(results.take(at + 1).last() == results[at]);
        }
        match parse_cli_binding(args.binding[k].as_str()) {
            Ok(made) => {
                let ghost before = bindings@;
                bindings.push(made);
                assert(binding_views(bindings@) =~= binding_views(before).push(made@));
            },
            Err(error) => {
                proof {
                    lemma_collected_fails(results, at + 1);
                }
                return Err(error);
            },
        }
        k += 1;
    }
    assert(results.take(first + k) =~= results);
    Ok(bindings)
}

/// The credentials of the file.
fn resolve_credentials(file: &Option<FileConfig>, environment: &Environment) -> (credentials:
    Result<Vec<Credential>, ConfigError>)
    ensures
        match credentials {
            Ok(credentials) => collected(credential_results(*file, *environment)) == Ok::<
                Seq<CredentialView>,
                ConfigErrorView,
            >(credential_views(credentials@)),
            Err(error) => collected(credential_results(*file, *environment)) == Err::<
                Seq<CredentialView>,
                ConfigErrorView,
            >(error@),
        },
{
    let ghost results = credential_results(*file, *environment);
    let mut credentials: Vec<Credential> = Vec::new();
    proof {
        assert(results.take(0) =~= Seq::empty());
        assert(credential_views(credentials@) =~= Seq::<CredentialView>::empty());
    }
    if let Some(config) = file {
        if let Some(auth) = &config.auth {
            let missing = TokenFile { metadata: None, contents: None };
            let mut i: usize = 0;
            while i < auth.credentials.len()
                invariant
                    results == credential_results(*file, *environment),
                    file_credentials(*file) == auth.credentials@,
                    missing == (TokenFile { metadata: None, contents: None }),
                    i <= auth.credentials@.len(),
                    collected(results.take(i as int)) == Ok::<
                        Seq<CredentialView>,
                        ConfigErrorView,
                    >(credential_views(credentials@)),
                decreases auth.credentials@.len() - i,
            {
                let credential = &auth.credentials[i];
                let token_file = if i < environment.token_files.len() {
                    &environment.token_files[i]
                } else {
                    &missing
                };
                proof {
                    assert(results[i as int] == file_credential_outcome(*credential, *token_file));
                    assert(results.take(i + 1).drop_last() =~= results.take(i as int));
                    assert(results.take(i + 1).last() == results[i as int]);
                }
                match file_credential(credential, token_file) {
                    Ok(made) => {
                        let ghost before = credentials@;
                        credentials.push(made);
                        assert(credential_views(credentials@) =~= credential_views(before).push(
                            made@,
                        ));
                    },
                    Err(error) => {
                        proof {
                            lemma_collected_fails(results, i + 1);
                        }
                        return Err(error);
                    },
                }
                i += 1;
            }
            assert(results.take(i as int) =~= results);
        }
    }
    proof {
        if results.len() == 0 {
            assert(results.take(0) =~= results);
        }
    }
    Ok(credentials)
}

impl Settings {
    /// Merges flags and file into settings.
    pub fn resolve(args: &Args, file: &Option<FileConfig>, environment: &Environment) -> (settings:
        Result<Settings, ConfigError>)
        ensures
            match settings {
                Ok(settings) => settings_outcome(*args, *file, *environment) == Ok::<
                    SettingsView,
                    ConfigErrorView,
                >(settings@),
                Err(error) => settings_outcome(*args, *file, *environment) == Err::<
                    SettingsView,
                    ConfigErrorView,
                >(error@),
            },
    {
        let mut bind = args.bind;
        let mut db = args.db.clone();
        if let Some(config) = file {
            if let Some(server) = &config.server {
                if let Some(text) = &server.bind {
                    if args.bind.is_default() {
                        match environment.file_bind {
                            Some(address) => {
                                bind = address;
                            },
                            None => {
                                return Err(ConfigError::Bind(text.clone()));
                            },
                        }
                    }
                }
                if let Some(path) = &server.db {
                    if environment.default_db || same_text(args.db.as_str(), DEFAULT_DB) {
                        db = path.clone();
                    }
                }
            }
        }
        if !bind.is_loopback() {
            return Err(ConfigError::NonLoopbackBind(bind));
        }
        let bindings = match resolve_bindings(args, file) {
            Ok(bindings) => bindings,
            Err(error) => {
                return Err(error);
            },
        };
        let credentials = match resolve_credentials(file, environment) {
            Ok(credentials) => credentials,
            Err(error) => {
                return Err(error);
            },
        };
        Ok(Settings { bind, db, bindings, credentials })
    }

    /// The policy of the bindings.
    pub fn policy(&self) -> (policy: Result<KeposPolicy, PolicyError>)
        ensures
            match policy {
                Ok(policy) => policy_outcome(self@.bindings) == Ok::<
                    Seq<DeviceView>,
                    PolicyErrorView,
                >(policy@) && devices_distinct(policy@),
                Err(error) => policy_outcome(self@.bindings) == Err::<
                    Seq<DeviceView>,
                    PolicyErrorView,
                >(error@),
            },
    {
        let ghost all = binding_views(self.bindings@);
        let mut bindings: Vec<Binding> = Vec::new();
        let mut i: usize = 0;
        assert(binding_views(bindings@) =~= all.take(0));
        while i < self.bindings.len()
            invariant
                all == binding_views(self.bindings@),
                i <= self.bindings@.len(),
                binding_views(bindings@) == all.take(i as int),
            decreases self.bindings@.len() - i,
        {
            let ghost before = bindings@;
            bindings.push(self.bindings[i].duplicate());
            i += 1;
            proof {
                assert(binding_views(bindings@) =~= binding_views(before).push(all[i - 1]));
                assert(all.take(i as int) =~= all.take(i - 1).push(all[i - 1]));
            }
        }
        assert(all.take(i as int) =~= all);
        KeposPolicy::new(bindings)
    }

    /// Whether any device is bound.
    pub fn has_devices(&self) -> (r: bool)
        ensures
            r == (devices_of(self@.bindings).len() > 0),
    {
        let ghost all = binding_views(self.bindings@);
        let mut i: usize = 0;
        assert(devices_of(all.take(0)).len() == 0);
        while i < self.bindings.len()
            invariant
                all == binding_views(self.bindings@),
                i <= self.bindings@.len(),
                devices_of(all.take(i as int)).len() == 0,
            decreases self.bindings@.len() - i,
        {
            proof {
                assert(all[i as int] == self.bindings@[i as int]@);
                assert(all.take(i + 1).drop_last() =~= all.take(i as int));
                assert(all.take(i + 1).last() == all[i as int]);
                assert(devices_in(all[i as int]).len() == self.bindings@[i as int].keys@.len());
            }
            if self.bindings[i].keys.len() > 0 {
                proof {
                    lemma_devices_grow(all, i + 1);
                }
                return true;
            }
            i += 1;
        }
        assert(all.take(i as int) =~= all);
        false
    }

    /// The table of the bearer tokens.
    pub fn credential_table(&self) -> (table: Result<CredentialTable, PolicyError>)
        ensures
            match table {
                Ok(table) => table@ == hashed_entries(self@.credentials) && entries_distinct(
                    table@,
                ),
                Err(PolicyError::DuplicateToken) => !entries_distinct(
                    hashed_entries(self@.credentials),
                ),
                Err(_) => false,
            },
    {
        let ghost all = credential_views(self.credentials@);
        let mut credentials: Vec<Credential> = Vec::new();
        let mut i: usize = 0;
        assert(credential_views(credentials@) =~= all.take(0));
        while i < self.credentials.len()
            invariant
                all == credential_views(self.credentials@),
                i <= self.credentials@.len(),
                credential_views(credentials@) == all.take(i as int),
            decreases self.credentials@.len() - i,
        {
            let ghost before = credentials@;
            credentials.push(self.credentials[i].duplicate());
            i += 1;
            proof {
                assert(credential_views(credentials@) =~= credential_views(before).push(
                    all[i - 1],
                ));
                assert(all.take(i as int) =~= all.take(i - 1).push(all[i - 1]));
            }
        }
        assert(all.take(i as int) =~= all);
        CredentialTable::new(credentials)
    }
}

/// More bindings have no fewer devices.
proof fn lemma_devices_grow(bindings: Seq<BindingView>, n: int)
    requires
        0 <= n <= bindings.len(),
    ensures
        devices_of(bindings.take(n)).len() <= devices_of(bindings).len(),
    decreases bindings.len(),
{
    if n == bindings.len() {
        assert(bindings.take(n) =~= bindings);
    } else {
        assert(bindings.drop_last().take(n) =~= bindings.take(n));
        lemma_devices_grow(bindings.drop_last(), n);
    }
}

/// Settings never listen where another host could reach the server.
pub proof fn law_settings_listen_on_loopback(
    args: Args,
    file: Option<FileConfig>,
    environment: Environment,
)
    ensures
        match settings_outcome(args, file, environment) {
            Ok(settings) => loopback(settings.bind),
            Err(_) => true,
        },
        !is_default_bind(args.bind) && !loopback(args.bind) ==> settings_outcome(
            args,
            file,
            environment,
        ) == Err::<SettingsView, ConfigErrorView>(ConfigErrorView::NonLoopbackBind(args.bind)),
{
}

/// A flag that differs from the default beats the file.
pub proof fn law_flags_override_the_file(
    args: Args,
    file: Option<FileConfig>,
    environment: Environment,
)
    requires
        settings_outcome(args, file, environment) is Ok,
    ensures
        !is_default_bind(args.bind) ==> settings_outcome(args, file, environment)->Ok_0.bind
            == args.bind,
        !leaves_default_db(args, environment) ==> settings_outcome(
            args,
            file,
            environment,
        )->Ok_0.db == args.db@,
{
}

} // verus!
