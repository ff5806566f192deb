//! Device-identity authentication.
//!
//! A publisher in front of the server removes every caller-supplied `Authorization` field and
//! injects `Authorization: Kepos <subscriber-public-key>`. The operator binds devices to
//! namespaces; several devices of one person share a namespace. A second channel serves clients
//! on the same host: `Authorization: Bearer <token>`, accepted from loopback peers only.

use sha2::{Digest, Sha256};
use vstd::prelude::*;
use vstd::utf8::encode_utf8;

use crate::protocol::{is_valid_namespace, valid_namespace, RemoteRole};
use crate::text::{
    ascii_lower, chars_of, is_digit, is_hex, is_letter, lower_char, same_text, split_first,
    split_once, texts, to_ascii_lowercase,
};

verus! {

/// Authorization scheme that the publisher injects.
pub const AUTH_SCHEME: &'static str = "Kepos";

/// Number of hexadecimal digits in a subscriber public key.
pub const PUBLIC_KEY_HEX_LEN: usize = 64;

/// Authorization scheme of clients on the same host.
pub const BEARER_SCHEME: &'static str = "Bearer";

/// Largest number of bytes in a bearer token.
pub const MAX_BEARER_TOKEN_BYTES: usize = 4096;

/// Failure while parsing the authorization header.
#[derive(Clone, Copy, Debug, PartialEq, Eq, Structural)]
pub enum AuthError {
    /// The header is not of the form `Kepos <64-hex>`.
    Malformed,
}

/// How a principal was authenticated.
#[derive(Clone, Copy, Debug, PartialEq, Eq, Structural)]
pub enum AuthSource {
    /// By the public key that the publisher injected.
    Kepos,
    /// By a bearer token, from a loopback peer.
    Bearer,
}

/// Failure while assembling a policy.
#[derive(Clone, Debug, PartialEq, Eq)]
pub enum PolicyError {
    /// A namespace is not well formed.
    InvalidNamespace(String),
    /// A key is not a public key.
    InvalidPublicKey(String),
    /// The same device appears in more than one binding.
    DuplicateKey(String),
    /// A bearer token is empty, too long, or holds a character that it may not hold.
    InvalidToken,
    /// The same bearer token appears in more than one credential.
    DuplicateToken,
    /// No device is bound.
    NoBindings,
}

/// The value of a `PolicyError`.
pub enum PolicyErrorView {
    InvalidNamespace(Seq<char>),
    InvalidPublicKey(Seq<char>),
    DuplicateKey(Seq<char>),
    InvalidToken,
    DuplicateToken,
    NoBindings,
}

impl View for PolicyError {
    type V = PolicyErrorView;

    open spec fn view(&self) -> PolicyErrorView {
        match *self {
            PolicyError::InvalidNamespace(text) => PolicyErrorView::InvalidNamespace(text@),
            PolicyError::InvalidPublicKey(text) => PolicyErrorView::InvalidPublicKey(text@),
            PolicyError::DuplicateKey(text) => PolicyErrorView::DuplicateKey(text@),
            PolicyError::InvalidToken => PolicyErrorView::InvalidToken,
            PolicyError::DuplicateToken => PolicyErrorView::DuplicateToken,
            PolicyError::NoBindings => PolicyErrorView::NoBindings,
        }
    }
}

/// One namespace bound to one or more devices.
#[derive(Clone, Debug, PartialEq, Eq)]
pub struct Binding {
    /// Namespace that the devices share.
    pub namespace: String,
    /// Role of every device of the binding.
    pub role: RemoteRole,
    /// Public keys of the devices.
    pub keys: Vec<String>,
}

/// The value of a `Binding`.
pub struct BindingView {
    pub namespace: Seq<char>,
    pub role: RemoteRole,
    pub keys: Seq<Seq<char>>,
}

impl View for Binding {
    type V = BindingView;

    open spec fn view(&self) -> BindingView {
        BindingView { namespace: self.namespace@, role: self.role, keys: texts(self.keys@) }
    }
}

/// The values of a list of bindings.
pub open spec fn binding_views(bindings: Seq<Binding>) -> Seq<BindingView> {
    bindings.map_values(|binding: Binding| binding@)
}

/// An authenticated principal.
#[derive(Clone, Debug, PartialEq, Eq)]
pub struct Principal {
    pub namespace: String,
    pub role: RemoteRole,
    pub source: AuthSource,
}

/// The value of a `Principal`.
pub struct PrincipalView {
    pub namespace: Seq<char>,
    pub role: RemoteRole,
    pub source: AuthSource,
}

impl View for Principal {
    type V = PrincipalView;

    open spec fn view(&self) -> PrincipalView {
        PrincipalView { namespace: self.namespace@, role: self.role, source: self.source }
    }
}

/// Whether `value` is a public key: 64 ASCII hexadecimal digits.
pub open spec fn public_key(value: Seq<char>) -> bool {
    &&& value.len() == PUBLIC_KEY_HEX_LEN
    &&& forall|i: int| 0 <= i < value.len() ==> is_hex(#[trigger] value[i])
}

/// Whether `c` may stand in a bearer token.
pub open spec fn is_token_char(c: char) -> bool {
    is_letter(c) || is_digit(c) || c == '-' || c == '.' || c == '_' || c == '~' || c == '+' || c
        == '/' || c == '='
}

/// Whether `value` is a bearer token: 1 to 4096 letters, digits and `-._~+/=`.
pub open spec fn bearer_token(value: Seq<char>) -> bool {
    &&& 0 < value.len() <= MAX_BEARER_TOKEN_BYTES
    &&& forall|i: int| 0 <= i < value.len() ==> is_token_char(#[trigger] value[i])
}

/// Returns whether `value` is a public key.
pub fn is_public_key(value: &str) -> (valid: bool)
    ensures
        valid == public_key(value@),
{
    let chars = chars_of(value);
    if chars.len() != PUBLIC_KEY_HEX_LEN {
        return false;
    }
    let mut i: usize = 0;
    while i < chars.len()
        invariant
            chars@ == value@,
            i <= chars@.len(),
            chars@.len() == PUBLIC_KEY_HEX_LEN,
            forall|j: int| 0 <= j < i ==> is_hex(#[trigger] value@[j]),
        decreases chars@.len() - i,
    {
        let c = chars[i];
        if !(('0' <= c && c <= '9') || ('a' <= c && c <= 'f') || ('A' <= c && c <= 'F')) {
            assert(!is_hex(value@[i as int]));
            return false;
        }
        i += 1;
    }
    true
}

/// Returns whether `value` is a bearer token.
pub fn is_bearer_token(value: &str) -> (valid: bool)
    ensures
        valid == bearer_token(value@),
{
    let chars = chars_of(value);
    if chars.len() == 0 || chars.len() > MAX_BEARER_TOKEN_BYTES {
        return false;
    }
    let mut i: usize = 0;
    while i < chars.len()
        invariant
            chars@ == value@,
            i <= chars@.len(),
            0 < chars@.len() <= MAX_BEARER_TOKEN_BYTES,
            forall|j: int| 0 <= j < i ==> is_token_char(#[trigger] value@[j]),
        decreases chars@.len() - i,
    {
        let c = chars[i];
        if !(('0' <= c && c <= '9') || ('a' <= c && c <= 'z') || ('A' <= c && c <= 'Z') || c == '-'
            || c == '.' || c == '_' || c == '~' || c == '+' || c == '/' || c == '=') {
            assert(!is_token_char(value@[i as int]));
            return false;
        }
        i += 1;
    }
    true
}

/// The SHA-256 digest of `data`.
pub uninterp spec fn sha256_digest(data: Seq<u8>) -> Seq<u8>;

/// `sha2::Sha256::digest`: the SHA-256 digest of `data`. The contract says that the digest is a
/// function of the bytes alone; it does not say which.
#[verifier::external_body]
fn sha256(data: &[u8]) -> (digest: [u8; 32])
    ensures
        digest@ == sha256_digest(data@),
{
    Sha256::digest(data).into()
}

/// The digest under which a bearer token is kept.
pub open spec fn token_hash(token: Seq<char>) -> Seq<u8> {
    sha256_digest(encode_utf8(token))
}

/// Hashes a bearer token, so that no table keeps the token itself.
pub fn hash_token(token: &str) -> (hash: [u8; 32])
    ensures
        hash@ == token_hash(token@),
{
    sha256(token.as_bytes())
}

/// Whether two texts are the same up to ASCII case.
pub open spec fn same_ignoring_case(left: Seq<char>, right: Seq<char>) -> bool {
    ascii_lower(left) == ascii_lower(right)
}

/// Whether two texts are the same up to ASCII case.
fn eq_ignore_ascii_case(left: &str, right: &str) -> (same: bool)
    ensures
        same == same_ignoring_case(left@, right@),
{
    same_text(to_ascii_lowercase(left).as_str(), to_ascii_lowercase(right).as_str())
}

/// The public key that an `Authorization` value names, in lower case: what follows the first
/// space, where what precedes it is the scheme `Kepos` in any case.
pub open spec fn authorization_key(value: Seq<char>) -> Option<Seq<char>> {
    match split_first(value, ' ') {
        Some((scheme, token)) => if same_ignoring_case(scheme, AUTH_SCHEME@) && public_key(token) {
            Some(ascii_lower(token))
        } else {
            None
        },
        None => None,
    }
}

/// Parses an `Authorization` value into a public key in lower case.
pub fn parse_authorization(value: &str) -> (key: Result<String, AuthError>)
    ensures
        match key {
            Ok(key) => authorization_key(value@) == Some(key@),
            Err(AuthError::Malformed) => authorization_key(value@) is None,
        },
{
    let (scheme, token) = match split_once(value, ' ') {
        Some(halves) => halves,
        None => {
            return Err(AuthError::Malformed);
        },
    };
    if !eq_ignore_ascii_case(scheme.as_str(), AUTH_SCHEME) || !is_public_key(token.as_str()) {
        return Err(AuthError::Malformed);
    }
    Ok(to_ascii_lowercase(token.as_str()))
}

/// The bearer token that an `Authorization` value holds: what follows the first space, where what
/// precedes it is the scheme `Bearer` in any case.
pub open spec fn authorization_token(value: Seq<char>) -> Option<Seq<char>> {
    match split_first(value, ' ') {
        Some((scheme, token)) => if same_ignoring_case(scheme, BEARER_SCHEME@) && bearer_token(
            token,
        ) {
            Some(token)
        } else {
            None
        },
        None => None,
    }
}

/// Parses an `Authorization` value into a bearer token.
pub fn parse_bearer(value: &str) -> (token: Option<String>)
    ensures
        match token {
            Some(token) => authorization_token(value@) == Some(token@),
            None => authorization_token(value@) is None,
        },
{
    let (scheme, token) = match split_once(value, ' ') {
        Some(halves) => halves,
        None => {
            return None;
        },
    };
    if !eq_ignore_ascii_case(scheme.as_str(), BEARER_SCHEME) || !is_bearer_token(token.as_str()) {
        return None;
    }
    Some(token)
}

/// The first of `keys` that is not a public key.
pub open spec fn first_bad_key(keys: Seq<Seq<char>>) -> Option<Seq<char>>
    decreases keys.len(),
{
    if keys.len() == 0 {
        None
    } else if !public_key(keys[0]) {
        Some(keys[0])
    } else {
        first_bad_key(keys.drop_first())
    }
}

/// The lower-case forms of `keys`.
pub open spec fn lower_keys(keys: Seq<Seq<char>>) -> Seq<Seq<char>> {
    keys.map_values(|key: Seq<char>| ascii_lower(key))
}

/// The binding of devices to a namespace, with their keys in lower case, or what is wrong with it:
/// the namespace is not well formed, or a key is not a public key.
pub open spec fn binding_outcome(
    namespace: Seq<char>,
    role: RemoteRole,
    keys: Seq<Seq<char>>,
) -> Result<BindingView, PolicyErrorView> {
    if !valid_namespace(namespace) {
        Err(PolicyErrorView::InvalidNamespace(namespace))
    } else {
        match first_bad_key(keys) {
            Some(key) => Err(PolicyErrorView::InvalidPublicKey(key)),
            None => Ok(BindingView { namespace, role, keys: lower_keys(keys) }),
        }
    }
}

impl Binding {
    /// Binds devices to a namespace, if the namespace is well formed and the keys are public
    /// keys. The keys are kept in lower case.
    pub fn new(namespace: String, role: RemoteRole, keys: Vec<String>) -> (binding: Result<
        Binding,
        PolicyError,
    >)
        ensures
            match binding {
                Ok(binding) => binding_outcome(namespace@, role, texts(keys@)) == Ok::<
                    BindingView,
                    PolicyErrorView,
                >(binding@),
                Err(error) => binding_outcome(namespace@, role, texts(keys@)) == Err::<
                    BindingView,
                    PolicyErrorView,
                >(error@),
            },
    {
        if !is_valid_namespace(namespace.as_str()) {
            return Err(PolicyError::InvalidNamespace(namespace));
        }
        let ghost all = texts(keys@);
        let mut lower: Vec<String> = Vec::new();
        let mut i: usize = 0;
        assert(all.skip(0) =~= all);
        assert(texts(lower@) =~= lower_keys(all.take(0)));
        while i < keys.len()
            invariant
                valid_namespace(namespace@),
                all == texts(keys@),
                i <= keys@.len(),
                first_bad_key(all) == first_bad_key(all.skip(i as int)),
                texts(lower@) == lower_keys(all.take(i as int)),
            decreases keys@.len() - i,
        {
            proof {
                assert(all.skip(i as int)[0] == all[i as int]);
                assert(all[i as int] == keys@[i as int]@);
                assert(all.skip(i as int).drop_first() =~= all.skip(i + 1));
            }
            if !is_public_key(keys[i].as_str()) {
                return Err(PolicyError::InvalidPublicKey(keys[i].clone()));
            }
            let ghost before = lower@;
            lower.push(to_ascii_lowercase(keys[i].as_str()));
            i += 1;
            proof {
                assert(texts(lower@) =~= texts(before).push(ascii_lower(all[i - 1])));
                assert(lower_keys(all.take(i as int)) =~= lower_keys(all.take(i - 1)).push(
                    ascii_lower(all[i - 1]),
                ));
            }
        }
        assert(all.take(i as int) =~= all);
        Ok(Binding { namespace, role, keys: lower })
    }

    /// A binding of the same value.
    pub fn duplicate(&self) -> (binding: Binding)
        ensures
            binding@ == self@,
    {
        let mut keys: Vec<String> = Vec::new();
        let mut i: usize = 0;
        while i < self.keys.len()
            invariant
                i <= self.keys@.len(),
                texts(keys@) == texts(self.keys@).take(i as int),
            decreases self.keys@.len() - i,
        {
            let ghost before = keys@;
            keys.push(self.keys[i].clone());
            i += 1;
            proof {
                let all = texts(self.keys@);
                assert(texts(keys@) =~= texts(before).push(all[i - 1]));
                assert(all.take(i as int) =~= all.take(i - 1).push(all[i - 1]));
            }
        }
        assert(texts(self.keys@).take(i as int) =~= texts(self.keys@));
        Binding { namespace: self.namespace.clone(), role: self.role, keys }
    }
}

/// The value of a device of a policy.
pub struct DeviceView {
    pub key: Seq<char>,
    pub namespace: Seq<char>,
    pub role: RemoteRole,
}

/// The devices of a binding, in order.
pub open spec fn devices_in(binding: BindingView) -> Seq<DeviceView> {
    binding.keys.map_values(
        |key: Seq<char>|
            DeviceView { key, namespace: binding.namespace, role: binding.role },
    )
}

/// The devices of `bindings`, in order.
pub open spec fn devices_of(bindings: Seq<BindingView>) -> Seq<DeviceView>
    decreases bindings.len(),
{
    if bindings.len() == 0 {
        Seq::empty()
    } else {
        devices_of(bindings.drop_last()) + devices_in(bindings.last())
    }
}

/// Whether no device is bound twice.
pub open spec fn devices_distinct(devices: Seq<DeviceView>) -> bool {
    forall|i: int, j: int|
        0 <= i < j < devices.len() ==> (#[trigger] devices[i]).key != (#[trigger] devices[j]).key
}

/// Whether one of `devices` has `key`.
pub open spec fn is_bound(devices: Seq<DeviceView>, key: Seq<char>) -> bool {
    exists|i: int| 0 <= i < devices.len() && (#[trigger] devices[i]).key == key
}

/// The key of the first device that was bound before.
pub open spec fn first_duplicate(devices: Seq<DeviceView>) -> Option<Seq<char>>
    decreases devices.len(),
{
    if devices.len() == 0 {
        None
    } else if first_duplicate(devices.drop_last()) is Some {
        first_duplicate(devices.drop_last())
    } else if is_bound(devices.drop_last(), devices.last().key) {
        Some(devices.last().key)
    } else {
        None
    }
}

/// The devices that `bindings` give, or what is wrong with them: a device is bound twice, or none
/// is bound.
pub open spec fn policy_outcome(bindings: Seq<BindingView>) -> Result<
    Seq<DeviceView>,
    PolicyErrorView,
> {
    match first_duplicate(devices_of(bindings)) {
        Some(key) => Err(PolicyErrorView::DuplicateKey(key)),
        None => if devices_of(bindings).len() == 0 {
            Err(PolicyErrorView::NoBindings)
        } else {
            Ok(devices_of(bindings))
        },
    }
}

/// The namespace and the role of the device that has `key`.
pub open spec fn device_for(devices: Seq<DeviceView>, key: Seq<char>) -> Option<
    (Seq<char>, RemoteRole),
>
    decreases devices.len(),
{
    if devices.len() == 0 {
        None
    } else if devices[0].key == key {
        Some((devices[0].namespace, devices[0].role))
    } else {
        device_for(devices.drop_first(), key)
    }
}

/// The namespace and the role that `key` resolves to: those of the device bound under the key as it
/// is given, or else of the device bound under its lower-case form.
pub open spec fn resolved(devices: Seq<DeviceView>, key: Seq<char>) -> Option<
    (Seq<char>, RemoteRole),
> {
    if device_for(devices, key) is Some {
        device_for(devices, key)
    } else {
        device_for(devices, ascii_lower(key))
    }
}

/// One device of a policy.
#[derive(Clone, Debug)]
struct Device {
    key: String,
    namespace: String,
    role: RemoteRole,
}

/// Devices, each with its namespace and role.
#[derive(Clone, Debug)]
pub struct KeposPolicy {
    devices: Vec<Device>,
}

impl View for KeposPolicy {
    type V = Seq<DeviceView>;

    closed spec fn view(&self) -> Seq<DeviceView> {
        device_views(self.devices@)
    }
}

spec fn device_views(devices: Seq<Device>) -> Seq<DeviceView> {
    devices.map_values(
        |device: Device|
            DeviceView { key: device.key@, namespace: device.namespace@, role: device.role },
    )
}

/// Whether one of `devices` has `key`.
fn has_device(devices: &Vec<Device>, key: &str) -> (found: bool)
    ensures
        found == is_bound(device_views(devices@), key@),
{
    let ghost all = device_views(devices@);
    let mut i: usize = 0;
    while i < devices.len()
        invariant
            all == device_views(devices@),
            i <= devices@.len(),
            forall|j: int| 0 <= j < i ==> (#[trigger] all[j]).key != key@,
        decreases devices@.len() - i,
    {
        assert(all[i as int].key == devices@[i as int].key@);
        if same_text(devices[i].key.as_str(), key) {
            return true;
        }
        i += 1;
    }
    false
}

impl Default for KeposPolicy {
    /// A policy without devices: it resolves no key.
    fn default() -> (policy: KeposPolicy)
        ensures
            policy@ == Seq::<DeviceView>::empty(),
    {
        let policy = KeposPolicy { devices: Vec::new() };
        assert(policy@ =~= Seq::<DeviceView>::empty());
        policy
    }
}

/// Where no device was bound before, the devices are distinct.
pub proof fn lemma_no_duplicate(devices: Seq<DeviceView>)
    requires
        first_duplicate(devices) is None,
    ensures
        devices_distinct(devices),
    decreases devices.len(),
{
    if devices.len() > 0 {
        let earlier = devices.drop_last();
        lemma_no_duplicate(earlier);
        assert forall|i: int, j: int| 0 <= i < j < devices.len() implies (
        #[trigger] devices[i]).key != (#[trigger] devices[j]).key by {
            assert(earlier[i] == devices[i]);
            if j < earlier.len() {
                assert(earlier[j] == devices[j]);
            }
        }
    }
}

/// The first duplicate among the first devices is the first of all.
proof fn lemma_duplicate_stays(devices: Seq<DeviceView>, n: int)
    requires
        0 <= n <= devices.len(),
        first_duplicate(devices.take(n)) is Some,
    ensures
        first_duplicate(devices) == first_duplicate(devices.take(n)),
    decreases devices.len(),
{
    if n == devices.len() {
        assert(devices.take(n) =~= devices);
    } else {
        assert(devices.drop_last().take(n) =~= devices.take(n));
        lemma_duplicate_stays(devices.drop_last(), n);
    }
}

/// The devices of the first bindings are the first devices of all the bindings.
proof fn lemma_devices_prefix(bindings: Seq<BindingView>, n: int) -> (more: Seq<DeviceView>)
    requires
        0 <= n <= bindings.len(),
    ensures
        devices_of(bindings) == devices_of(bindings.take(n)) + more,
    decreases bindings.len(),
{
    if n == bindings.len() {
        assert(bindings.take(n) =~= bindings);
        assert(devices_of(bindings) =~= devices_of(bindings) + Seq::<DeviceView>::empty());
        Seq::empty()
    } else {
        let more = lemma_devices_prefix(bindings.drop_last(), n);
        assert(bindings.drop_last().take(n) =~= bindings.take(n));
        let result = more + devices_in(bindings.last());
        assert(devices_of(bindings) =~= devices_of(bindings.take(n)) + result);
        result
    }
}

impl KeposPolicy {
    /// Builds a policy from bindings. A device may be bound once, and at least one must be.
    pub fn new(bindings: Vec<Binding>) -> (policy: Result<KeposPolicy, PolicyError>)
        ensures
            match policy {
                Ok(policy) => policy_outcome(binding_views(bindings@)) == Ok::<
                    Seq<DeviceView>,
                    PolicyErrorView,
                >(policy@) && devices_distinct(policy@),
                Err(error) => policy_outcome(binding_views(bindings@)) == Err::<
                    Seq<DeviceView>,
                    PolicyErrorView,
                >(error@),
            },
    {
        let ghost list = binding_views(bindings@);
        let ghost all = devices_of(list);
        let mut devices: Vec<Device> = Vec::new();
        let mut i: usize = 0;
        assert(device_views(devices@) =~= devices_of(list.take(0)));
        while i < bindings.len()
            invariant
                list == binding_views(bindings@),
                all == devices_of(list),
                i <= bindings@.len(),
                device_views(devices@) == devices_of(list.take(i as int)),
                first_duplicate(device_views(devices@)) is None,
            decreases bindings@.len() - i,
        {
            let binding = &bindings[i];
            let ghost bound = devices_of(list.take(i as int));
            let ghost added = devices_in(binding@);
            let ghost more = lemma_devices_prefix(list, i + 1);
            proof {
                assert(binding@ == list[i as int]);
                assert(list.take(i + 1).drop_last() =~= list.take(i as int));
                assert(devices_of(list.take(i + 1)) == bound + added);
                assert(all =~= bound + added + more);
                assert(all.take(bound.len() as int) =~= bound);
            }
            let mut k: usize = 0;
            while k < binding.keys.len()
                invariant
                    list == binding_views(bindings@),
                    all == devices_of(list),
                    added == devices_in(binding@),
                    added.len() == binding.keys@.len(),
                    all == bound + added + more,
                    k <= binding.keys@.len(),
                    device_views(devices@) == all.take(bound.len() + k),
                    first_duplicate(device_views(devices@)) is None,
                decreases binding.keys@.len() - k,
            {
                let key = &binding.keys[k];
                let ghost at = bound.len() + k;
                proof {
                    assert(all[at] == added[k as int]);
                    assert(added[k as int].key == key@);
                    assert(all.take(at + 1).drop_last() =~= all.take(at));
                    assert(all.take(at + 1).last() == all[at]);
                }
                if has_device(&devices, key.as_str()) {
                    proof {
                        lemma_duplicate_stays(all, at + 1);
                    }
                    return Err(PolicyError::DuplicateKey(key.clone()));
                }
                let ghost before = devices@;
                devices.push(
                    Device {
                        key: key.clone(),
                        namespace: binding.namespace.clone(),
                        role: binding.role,
                    },
                );
                k += 1;
                proof {
                    assert(device_views(devices@) =~= device_views(before).push(all[at]));
                    assert(all.take(at + 1) =~= all.take(at).push(all[at]));
                }
            }
            proof {
                assert(all.take(bound.len() + k) =~= bound + added);
            }
            i += 1;
        }
        proof {
            assert(list.take(i as int) =~= list);
            assert(device_views(devices@).len() == devices@.len());
            lemma_no_duplicate(device_views(devices@));
        }
        if devices.len() == 0 {
            return Err(PolicyError::NoBindings);
        }
        Ok(KeposPolicy { devices })
    }

    /// The namespace and the role of a device: the one bound under the key as it is given, or else
    /// the one bound under its lower-case form.
    pub fn resolve(&self, public_key: &str) -> (found: Option<(&str, RemoteRole)>)
        ensures
            match found {
                Some((namespace, role)) => resolved(self@, public_key@) == Some(
                    (namespace@, role),
                ),
                None => resolved(self@, public_key@) is None,
            },
    {
        match self.find(public_key) {
            Some(found) => Some(found),
            None => self.find(to_ascii_lowercase(public_key).as_str()),
        }
    }

    /// The namespace and the role of the device bound under exactly `key`.
    fn find(&self, key: &str) -> (found: Option<(&str, RemoteRole)>)
        ensures
            match found {
                Some((namespace, role)) => device_for(self@, key@) == Some((namespace@, role)),
                None => device_for(self@, key@) is None,
            },
    {
        let ghost all = self@;
        let mut i: usize = 0;
        assert(all.skip(0) =~= all);
        while i < self.devices.len()
            invariant
                all == self@,
                all.len() == self.devices@.len(),
                i <= self.devices@.len(),
                device_for(all, key@) == device_for(all.skip(i as int), key@),
            decreases self.devices@.len() - i,
        {
            let device = &self.devices[i];
            proof {
                assert(all.skip(i as int)[0] == all[i as int]);
                assert(all.skip(i as int).drop_first() =~= all.skip(i + 1));
            }
            if same_text(device.key.as_str(), key) {
                return Some((device.namespace.as_str(), device.role));
            }
            i += 1;
        }
        None
    }
}

/// A bearer token bound to one namespace.
#[derive(Clone, Debug, PartialEq, Eq)]
pub struct Credential {
    pub namespace: String,
    pub role: RemoteRole,
    /// The token itself; a table keeps its hash only.
    pub token: String,
}

/// The value of a `Credential`.
pub struct CredentialView {
    pub namespace: Seq<char>,
    pub role: RemoteRole,
    pub token: Seq<char>,
}

impl View for Credential {
    type V = CredentialView;

    open spec fn view(&self) -> CredentialView {
        CredentialView { namespace: self.namespace@, role: self.role, token: self.token@ }
    }
}

/// The values of a list of credentials.
pub open spec fn credential_views(credentials: Seq<Credential>) -> Seq<CredentialView> {
    credentials.map_values(|credential: Credential| credential@)
}

/// The binding of a token to a namespace, or what is wrong with it: the namespace is not well
/// formed, or the token is not a bearer token.
pub open spec fn credential_outcome(
    namespace: Seq<char>,
    role: RemoteRole,
    token: Seq<char>,
) -> Result<CredentialView, PolicyErrorView> {
    if !valid_namespace(namespace) {
        Err(PolicyErrorView::InvalidNamespace(namespace))
    } else if !bearer_token(token) {
        Err(PolicyErrorView::InvalidToken)
    } else {
        Ok(CredentialView { namespace, role, token })
    }
}

impl Credential {
    /// Binds a token to a namespace, if the namespace is well formed and the token is a bearer
    /// token.
    pub fn new(namespace: String, role: RemoteRole, token: String) -> (credential: Result<
        Credential,
        PolicyError,
    >)
        ensures
            match credential {
                Ok(credential) => credential_outcome(namespace@, role, token@) == Ok::<
                    CredentialView,
                    PolicyErrorView,
                >(credential@),
                Err(error) => credential_outcome(namespace@, role, token@) == Err::<
                    CredentialView,
                    PolicyErrorView,
                >(error@),
            },
    {
        if !is_valid_namespace(namespace.as_str()) {
            return Err(PolicyError::InvalidNamespace(namespace));
        }
        if !is_bearer_token(token.as_str()) {
            return Err(PolicyError::InvalidToken);
        }
        Ok(Credential { namespace, role, token })
    }

    /// A credential of the same value.
    pub fn duplicate(&self) -> (credential: Credential)
        ensures
            credential@ == self@,
    {
        Credential {
            namespace: self.namespace.clone(),
            role: self.role,
            token: self.token.clone(),
        }
    }
}

/// The hash of a bearer token, bound to one namespace.
#[derive(Clone, Debug, PartialEq, Eq)]
pub struct HashedCredential {
    pub hash: [u8; 32],
    pub namespace: String,
    pub role: RemoteRole,
}

/// The value of a `HashedCredential`.
pub struct EntryView {
    pub hash: Seq<u8>,
    pub namespace: Seq<char>,
    pub role: RemoteRole,
}

impl View for HashedCredential {
    type V = EntryView;

    open spec fn view(&self) -> EntryView {
        EntryView { hash: self.hash@, namespace: self.namespace@, role: self.role }
    }
}

/// The values of a list of hashed credentials.
pub open spec fn entry_views(entries: Seq<HashedCredential>) -> Seq<EntryView> {
    entries.map_values(|entry: HashedCredential| entry@)
}

/// What a table keeps of `credentials`.
pub open spec fn hashed_entries(credentials: Seq<CredentialView>) -> Seq<EntryView> {
    credentials.map_values(
        |credential: CredentialView|
            EntryView {
                hash: token_hash(credential.token),
                namespace: credential.namespace,
                role: credential.role,
            },
    )
}

/// Whether no hash occurs twice.
pub open spec fn entries_distinct(entries: Seq<EntryView>) -> bool {
    forall|i: int, j: int|
        0 <= i < j < entries.len() ==> (#[trigger] entries[i]).hash != (#[trigger] entries[j]).hash
}

/// The namespace and the role of the entry that has `hash`.
pub open spec fn entry_for(entries: Seq<EntryView>, hash: Seq<u8>) -> Option<
    (Seq<char>, RemoteRole),
>
    decreases entries.len(),
{
    if entries.len() == 0 {
        None
    } else if entries[0].hash == hash {
        Some((entries[0].namespace, entries[0].role))
    } else {
        entry_for(entries.drop_first(), hash)
    }
}

/// Whether two hashes are the same.
fn same_hash(left: &[u8; 32], right: &[u8; 32]) -> (same: bool)
    ensures
        same == (left@ == right@),
{
    let mut i: usize = 0;
    while i < 32
        invariant
            i <= 32,
            forall|j: int| 0 <= j < i ==> left@[j] == right@[j],
        decreases 32 - i,
    {
        if left[i] != right[i] {
            return false;
        }
        i += 1;
    }
    assert(left@ =~= right@);
    true
}

/// Token hashes, each with its namespace and role.
#[derive(Clone, Debug)]
pub struct CredentialTable {
    entries: Vec<HashedCredential>,
}

impl View for CredentialTable {
    type V = Seq<EntryView>;

    closed spec fn view(&self) -> Seq<EntryView> {
        entry_views(self.entries@)
    }
}

impl Default for CredentialTable {
    /// A table without tokens: it resolves none.
    fn default() -> (table: CredentialTable)
        ensures
            table@ == Seq::<EntryView>::empty(),
    {
        let table = CredentialTable { entries: Vec::new() };
        assert(table@ =~= Seq::<EntryView>::empty());
        table
    }
}

impl CredentialTable {
    /// Builds a table from credentials, and refuses a token that occurs twice.
    pub fn new(credentials: Vec<Credential>) -> (table: Result<CredentialTable, PolicyError>)
        ensures
            match table {
                Ok(table) => table@ == hashed_entries(credential_views(credentials@))
                    && entries_distinct(table@),
                Err(PolicyError::DuplicateToken) => !entries_distinct(
                    hashed_entries(credential_views(credentials@)),
                ),
                Err(_) => false,
            },
    {
        let ghost all = hashed_entries(credential_views(credentials@));
        let mut entries: Vec<HashedCredential> = Vec::new();
        let mut i: usize = 0;
        assert(entry_views(entries@) =~= all.take(0));
        while i < credentials.len()
            invariant
                all == hashed_entries(credential_views(credentials@)),
                i <= credentials@.len(),
                entry_views(entries@) == all.take(i as int),
            decreases credentials@.len() - i,
        {
            let credential = &credentials[i];
            let entry = HashedCredential {
                hash: hash_token(credential.token.as_str()),
                namespace: credential.namespace.clone(),
                role: credential.role,
            };
            let ghost before = entries@;
            entries.push(entry);
            i += 1;
            proof {
                assert(entry_views(entries@) =~= entry_views(before).push(entry@));
                assert(all.take(i as int) =~= all.take(i - 1).push(all[i - 1]));
            }
        }
        assert(all.take(i as int) =~= all);
        CredentialTable::from_hashed(entries)
    }

    /// Builds a table from hashes, and refuses a hash that occurs twice.
    pub fn from_hashed(entries: Vec<HashedCredential>) -> (table: Result<
        CredentialTable,
        PolicyError,
    >)
        ensures
            match table {
                Ok(table) => table@ == entry_views(entries@) && entries_distinct(table@),
                Err(PolicyError::DuplicateToken) => !entries_distinct(entry_views(entries@)),
                Err(_) => false,
            },
    {
        let ghost all = entry_views(entries@);
        let mut i: usize = 0;
        while i < entries.len()
            invariant
                all == entry_views(entries@),
                i <= entries@.len(),
                forall|a: int, b: int|
                    0 <= a < b < i ==> (#[trigger] all[a]).hash != (#[trigger] all[b]).hash,
            decreases entries@.len() - i,
        {
            let mut j: usize = 0;
            while j < i
                invariant
                    all == entry_views(entries@),
                    j <= i < entries@.len(),
                    forall|a: int| 0 <= a < j ==> (#[trigger] all[a]).hash != all[i as int].hash,
                decreases i - j,
            {
                assert(all[j as int] == entries@[j as int]@);
                assert(all[i as int] == entries@[i as int]@);
                if same_hash(&entries[j].hash, &entries[i].hash) {
                    return Err(PolicyError::DuplicateToken);
                }
                j += 1;
            }
            i += 1;
        }
        Ok(CredentialTable { entries })
    }

    /// The namespace and the role of a token.
    pub fn resolve(&self, token: &str) -> (found: Option<(&str, RemoteRole)>)
        ensures
            match found {
                Some((namespace, role)) => entry_for(self@, token_hash(token@)) == Some(
                    (namespace@, role),
                ),
                None => entry_for(self@, token_hash(token@)) is None,
            },
    {
        self.resolve_hash(&hash_token(token))
    }

    /// The namespace and the role of the token that has `hash`.
    pub fn resolve_hash(&self, hash: &[u8; 32]) -> (found: Option<(&str, RemoteRole)>)
        ensures
            match found {
                Some((namespace, role)) => entry_for(self@, hash@) == Some((namespace@, role)),
                None => entry_for(self@, hash@) is None,
            },
    {
        let ghost all = self@;
        let mut i: usize = 0;
        assert(all.skip(0) =~= all);
        while i < self.entries.len()
            invariant
                all == self@,
                all.len() == self.entries@.len(),
                i <= self.entries@.len(),
                entry_for(all, hash@) == entry_for(all.skip(i as int), hash@),
            decreases self.entries@.len() - i,
        {
            let entry = &self.entries[i];
            proof {
                assert(all.skip(i as int)[0] == all[i as int]);
                assert(all[i as int] == entry@);
                assert(all.skip(i as int).drop_first() =~= all.skip(i + 1));
            }
            if same_hash(&entry.hash, hash) {
                return Some((entry.namespace.as_str(), entry.role));
            }
            i += 1;
        }
        None
    }
}

/// The device that a binding binds under one of its keys is among the devices of all the bindings.
proof fn lemma_device_of_binding(bindings: Seq<BindingView>, b: int, k: int) -> (i: int)
    requires
        0 <= b < bindings.len(),
        0 <= k < bindings[b].keys.len(),
    ensures
        0 <= i < devices_of(bindings).len(),
        devices_of(bindings)[i] == (DeviceView {
            key: bindings[b].keys[k],
            namespace: bindings[b].namespace,
            role: bindings[b].role,
        }),
    decreases bindings.len(),
{
    let earlier = devices_of(bindings.drop_last());
    let last = devices_in(bindings.last());
    if b == bindings.len() - 1 {
        assert((earlier + last)[earlier.len() + k] == last[k]);
        earlier.len() + k
    } else {
        let i = lemma_device_of_binding(bindings.drop_last(), b, k);
        assert((earlier + last)[i] == earlier[i]);
        i
    }
}

/// Each device is that of a key of a binding.
proof fn lemma_binding_of_device(bindings: Seq<BindingView>, i: int) -> (place: (int, int))
    requires
        0 <= i < devices_of(bindings).len(),
    ensures
        0 <= place.0 < bindings.len(),
        0 <= place.1 < bindings[place.0].keys.len(),
        devices_of(bindings)[i].key == bindings[place.0].keys[place.1],
    decreases bindings.len(),
{
    let earlier = devices_of(bindings.drop_last());
    let last = devices_in(bindings.last());
    if i < earlier.len() {
        assert((earlier + last)[i] == earlier[i]);
        lemma_binding_of_device(bindings.drop_last(), i)
    } else {
        assert((earlier + last)[i] == last[i - earlier.len()]);
        (bindings.len() - 1, i - earlier.len())
    }
}

/// Whether one of `bindings` holds `key`.
pub open spec fn holds_key(bindings: Seq<BindingView>, key: Seq<char>) -> bool {
    exists|b: int, k: int|
        0 <= b < bindings.len() && 0 <= k < bindings[b].keys.len() && #[trigger]
            bindings[b].keys[k] == key
}

/// Every key of every binding of an accepted list resolves to the namespace and the role of that
/// binding, in the case in which the binding holds it. So does a key that
/// no binding holds as it is given, if its lower-case form is that key. One that no binding holds,
/// neither as given nor in lower case, does not resolve.
pub proof fn law_accepted_bindings_resolve(
    bindings: Seq<BindingView>,
    devices: Seq<DeviceView>,
    b: int,
    k: int,
    key: Seq<char>,
)
    requires
        policy_outcome(bindings) == Ok::<Seq<DeviceView>, PolicyErrorView>(devices),
        0 <= b < bindings.len(),
        0 <= k < bindings[b].keys.len(),
    ensures
        resolved(devices, bindings[b].keys[k]) == Some((bindings[b].namespace, bindings[b].role)),
        !holds_key(bindings, key) && ascii_lower(key) == bindings[b].keys[k] ==> resolved(
            devices,
            key,
        ) == Some((bindings[b].namespace, bindings[b].role)),
        !holds_key(bindings, key) && !holds_key(bindings, ascii_lower(key)) ==> resolved(
            devices,
            key,
        ) is None,
{
    lemma_no_duplicate(devices);
    let bound = bindings[b].keys[k];
    let i = lemma_device_of_binding(bindings, b, k);
    assert(devices[i].key == bound);
    law_policy_resolves_exactly_bound_devices(devices, bound);
    lemma_unbound_key(bindings, key);
    lemma_unbound_key(bindings, ascii_lower(key));
}

/// A key that no binding holds is that of no device.
proof fn lemma_unbound_key(bindings: Seq<BindingView>, key: Seq<char>)
    ensures
        !holds_key(bindings, key) && first_duplicate(devices_of(bindings)) is None ==> device_for(
            devices_of(bindings),
            key,
        ) is None,
{
    let devices = devices_of(bindings);
    if !holds_key(bindings, key) && first_duplicate(devices) is None {
        lemma_no_duplicate(devices);
        law_policy_resolves_exactly_bound_devices(devices, key);
        assert forall|i: int| 0 <= i < devices.len() implies (#[trigger] devices[i]).key != key by {
            let place = lemma_binding_of_device(bindings, i);
            assert(bindings[place.0].keys[place.1] == devices[i].key);
        }
    }
}

/// Every device that is bound is found under its key, and no other key finds one.
pub proof fn law_policy_resolves_exactly_bound_devices(devices: Seq<DeviceView>, key: Seq<char>)
    requires
        devices_distinct(devices),
    ensures
        forall|i: int|
            0 <= i < devices.len() && (#[trigger] devices[i]).key == key ==> device_for(
                devices,
                key,
            ) == Some((devices[i].namespace, devices[i].role)),
        (forall|i: int| 0 <= i < devices.len() ==> (#[trigger] devices[i]).key != key)
            ==> device_for(devices, key) is None,
    decreases devices.len(),
{
    if devices.len() > 0 {
        let rest = devices.drop_first();
        assert(devices_distinct(rest)) by {
            assert forall|i: int, j: int| 0 <= i < j < rest.len() implies (#[trigger] rest[i]).key
                != (#[trigger] rest[j]).key by {
                assert(devices[i + 1].key != devices[j + 1].key);
            }
        }
        law_policy_resolves_exactly_bound_devices(rest, key);
        assert forall|i: int|
            0 <= i < devices.len() && (#[trigger] devices[i]).key == key implies device_for(
            devices,
            key,
        ) == Some((devices[i].namespace, devices[i].role)) by {
            if i > 0 {
                assert(rest[i - 1] == devices[i]);
                assert(devices[0].key != devices[i].key);
            }
        }
        if forall|i: int| 0 <= i < devices.len() ==> (#[trigger] devices[i]).key != key {
            assert forall|i: int| 0 <= i < rest.len() implies (#[trigger] rest[i]).key != key by {
                assert(devices[i + 1].key != key);
            }
            assert(devices[0].key != key);
        }
    }
}

/// Every token of a table resolves to its namespace and role, and no token with another hash
/// resolves.
pub proof fn law_table_resolves_exactly_its_tokens(entries: Seq<EntryView>, hash: Seq<u8>)
    requires
        entries_distinct(entries),
    ensures
        forall|i: int|
            0 <= i < entries.len() && (#[trigger] entries[i]).hash == hash ==> entry_for(
                entries,
                hash,
            ) == Some((entries[i].namespace, entries[i].role)),
        (forall|i: int| 0 <= i < entries.len() ==> (#[trigger] entries[i]).hash != hash)
            ==> entry_for(entries, hash) is None,
    decreases entries.len(),
{
    if entries.len() > 0 {
        let rest = entries.drop_first();
        assert(entries_distinct(rest)) by {
            assert forall|i: int, j: int| 0 <= i < j < rest.len() implies (#[trigger] rest[i]).hash
                != (#[trigger] rest[j]).hash by {
                assert(entries[i + 1].hash != entries[j + 1].hash);
            }
        }
        law_table_resolves_exactly_its_tokens(rest, hash);
        assert forall|i: int|
            0 <= i < entries.len() && (#[trigger] entries[i]).hash == hash implies entry_for(
            entries,
            hash,
        ) == Some((entries[i].namespace, entries[i].role)) by {
            if i > 0 {
                assert(rest[i - 1] == entries[i]);
                assert(entries[0].hash != entries[i].hash);
            }
        }
        if forall|i: int| 0 <= i < entries.len() ==> (#[trigger] entries[i]).hash != hash {
            assert forall|i: int| 0 <= i < rest.len() implies (#[trigger] rest[i]).hash != hash by {
                assert(entries[i + 1].hash != hash);
            }
            assert(entries[0].hash != hash);
        }
    }
}

/// The lower-case form of a public key is a public key, and is its own lower-case form.
pub proof fn lemma_lower_key(key: Seq<char>)
    requires
        public_key(key),
    ensures
        public_key(ascii_lower(key)),
        ascii_lower(ascii_lower(key)) == ascii_lower(key),
{
    let lower = ascii_lower(key);
    assert forall|i: int| 0 <= i < lower.len() implies is_hex(#[trigger] lower[i]) by {
        assert(is_hex(key[i]));
        assert(lower[i] == lower_char(key[i]));
    }
    assert(ascii_lower(lower) =~= lower);
}

/// A parsed key is a public key in lower case, so parsing normalizes.
pub proof fn law_parsed_key_is_normal(value: Seq<char>)
    requires
        authorization_key(value) is Some,
    ensures
        public_key(authorization_key(value)->0),
        ascii_lower(authorization_key(value)->0) == authorization_key(value)->0,
{
    let (scheme, token) = split_first(value, ' ')->0;
    lemma_lower_key(token);
}

/// The scheme `Kepos` in any case, one space and a public key in any case parse to the key in
/// lower case.
pub proof fn law_authorization_parses(scheme: Seq<char>, key: Seq<char>)
    requires
        same_ignoring_case(scheme, AUTH_SCHEME@),
        public_key(key),
    ensures
        authorization_key(scheme.push(' ') + key) == Some(ascii_lower(key)),
{
    reveal_strlit("Kepos");
    let value = scheme.push(' ') + key;
    let n = scheme.len() as int;
    assert(ascii_lower(scheme).len() == ascii_lower(AUTH_SCHEME@).len());
    assert forall|i: int| 0 <= i < n implies value[i] != ' ' by {
        assert(ascii_lower(scheme)[i] == lower_char(scheme[i]));
        assert(ascii_lower(AUTH_SCHEME@)[i] == lower_char(AUTH_SCHEME@[i]));
    }
    assert(value[n] == ' ');
    value.index_of_first_ensures(' ');
    assert(value.take(n) =~= scheme);
    assert(value.skip(n + 1) =~= key);
}

} // verus!
