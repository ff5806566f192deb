//! Laws of the grammars of keys, tokens, namespaces and headers, and of when bindings and
//! credentials are accepted.

use vstd::prelude::*;

use crate::auth::{
    authorization_key, authorization_token, bearer_token, binding_outcome, credential_outcome,
    devices_distinct, devices_in, devices_of, entries_distinct, entry_for, first_bad_key,
    first_duplicate, hashed_entries, is_token_char, law_table_resolves_exactly_its_tokens,
    lemma_no_duplicate, policy_outcome, public_key, token_hash, BindingView, CredentialView,
    DeviceView, EntryView, PolicyErrorView, AUTH_SCHEME, BEARER_SCHEME,
};
use crate::protocol::{is_namespace_char, valid_namespace, RemoteRole};
use crate::text::{ascii_lower, is_hex, lower_char, split_first};

verus! {

/// Lower case changes the letters A to Z into a to z, and leaves every other character.
pub proof fn law_lower_case(text: Seq<char>)
    ensures
        ascii_lower(text).len() == text.len(),
        forall|i: int|
            0 <= i < text.len() ==> (#[trigger] ascii_lower(text)[i]) as int == if 65
                <= text[i] as int <= 90 {
                text[i] as int + 32
            } else {
                text[i] as int
            },
{
    assert forall|i: int| 0 <= i < text.len() implies (#[trigger] ascii_lower(text)[i]) as int
        == if 65 <= text[i] as int <= 90 {
        text[i] as int + 32
    } else {
        text[i] as int
    } by {
        assert(ascii_lower(text)[i] == lower_char(text[i]));
    }
}

/// A namespace is 1 to 128 of the characters A to Z, a to z, 0 to 9, `-`, `.` and `_`.
pub proof fn law_namespace_grammar(namespace: Seq<char>)
    ensures
        valid_namespace(namespace) <==> 1 <= namespace.len() <= 128 && forall|i: int|
            0 <= i < namespace.len() ==> 65 <= #[trigger] namespace[i] as int <= 90 || 97
                <= namespace[i] as int <= 122 || 48 <= namespace[i] as int <= 57
                || namespace[i] as int == 45 || namespace[i] as int == 46 || namespace[i] as int
                == 95,
{
    assert forall|i: int| 0 <= i < namespace.len() implies (is_namespace_char(
        #[trigger] namespace[i],
    ) <==> 65 <= namespace[i] as int <= 90 || 97 <= namespace[i] as int <= 122 || 48
        <= namespace[i] as int <= 57 || namespace[i] as int == 45 || namespace[i] as int == 46
        || namespace[i] as int == 95) by {}
}

/// A public key is 64 of the characters 0 to 9, A to F and a to f.
pub proof fn law_public_key_grammar(key: Seq<char>)
    ensures
        public_key(key) <==> key.len() == 64 && forall|i: int|
            0 <= i < key.len() ==> 48 <= #[trigger] key[i] as int <= 57 || 65 <= key[i] as int <= 70
                || 97 <= key[i] as int <= 102,
{
    assert forall|i: int| 0 <= i < key.len() implies (is_hex(#[trigger] key[i]) <==> 48
        <= key[i] as int <= 57 || 65 <= key[i] as int <= 70 || 97 <= key[i] as int <= 102) by {}
}

/// A bearer token is 1 to 4096 letters, digits and the characters `+`, `-`, `.`, `/`, `=`, `_` and
/// `~`.
pub proof fn law_bearer_token_grammar(token: Seq<char>)
    ensures
        bearer_token(token) <==> 1 <= token.len() <= 4096 && forall|i: int|
            0 <= i < token.len() ==> 65 <= #[trigger] token[i] as int <= 90 || 97
                <= token[i] as int <= 122 || 48 <= token[i] as int <= 57 || token[i] as int == 43
                || token[i] as int == 45 || token[i] as int == 46 || token[i] as int == 47
                || token[i] as int == 61 || token[i] as int == 95 || token[i] as int == 126,
{
    assert forall|i: int| 0 <= i < token.len() implies (is_token_char(#[trigger] token[i]) <==> 65
        <= token[i] as int <= 90 || 97 <= token[i] as int <= 122 || 48 <= token[i] as int <= 57
        || token[i] as int == 43 || token[i] as int == 45 || token[i] as int == 46
        || token[i] as int == 47 || token[i] as int == 61 || token[i] as int == 95
        || token[i] as int == 126) by {}
}

/// What a first separator splits: nothing before it is the separator.
proof fn lemma_split(value: Seq<char>, separator: char, n: int)
    requires
        0 <= n < value.len(),
        value[n] == separator,
        forall|i: int| 0 <= i < n ==> value[i] != separator,
    ensures
        split_first(value, separator) == Some((value.take(n), value.skip(n + 1))),
{
    value.index_of_first_ensures(separator);
}

/// An `Authorization` value names a public key exactly where it is the five letters `Kepos`, each
/// in either case, one space, and the key; the key comes out in lower case.
pub proof fn law_authorization_grammar(value: Seq<char>)
    ensures
        authorization_key(value) is Some <==> {
            &&& value.len() == 70
            &&& value[0] == 'K' || value[0] == 'k'
            &&& value[1] == 'E' || value[1] == 'e'
            &&& value[2] == 'P' || value[2] == 'p'
            &&& value[3] == 'O' || value[3] == 'o'
            &&& value[4] == 'S' || value[4] == 's'
            &&& value[5] == ' '
            &&& public_key(value.skip(6))
        },
        authorization_key(value) is Some ==> authorization_key(value)->0 == ascii_lower(
            value.skip(6),
        ),
{
    reveal_strlit("Kepos");
    let scheme = AUTH_SCHEME@;
    value.index_of_first_ensures(' ');
    let lower = ascii_lower(scheme);
    assert(lower.len() == 5);
    assert(lower[0] == 'k' && lower[1] == 'e' && lower[2] == 'p' && lower[3] == 'o' && lower[4]
        == 's');
    if authorization_key(value) is Some {
        let (head, tail) = split_first(value, ' ')->0;
        let low = ascii_lower(head);
        assert(low == lower);
        assert(head.len() == low.len());
        assert(head.len() == 5);
        assert(low[0] == lower_char(head[0]) && low[1] == lower_char(head[1]) && low[2]
            == lower_char(head[2]) && low[3] == lower_char(head[3]) && low[4] == lower_char(
            head[4],
        ));
        assert(value.take(5) == head);
        assert(head[0] == value[0] && head[1] == value[1] && head[2] == value[2] && head[3]
            == value[3] && head[4] == value[4]);
        assert(tail == value.skip(6));
    }
    if value.len() == 70 && (value[0] == 'K' || value[0] == 'k') && (value[1] == 'E' || value[1]
        == 'e') && (value[2] == 'P' || value[2] == 'p') && (value[3] == 'O' || value[3] == 'o') && (
    value[4] == 'S' || value[4] == 's') && value[5] == ' ' && public_key(value.skip(6)) {
        lemma_split(value, ' ', 5);
        let head = value.take(5);
        assert(ascii_lower(head) =~= lower) by {
            assert(ascii_lower(head)[0] == lower_char(value[0]));
            assert(ascii_lower(head)[1] == lower_char(value[1]));
            assert(ascii_lower(head)[2] == lower_char(value[2]));
            assert(ascii_lower(head)[3] == lower_char(value[3]));
            assert(ascii_lower(head)[4] == lower_char(value[4]));
        }
    }
}

/// An `Authorization` value holds a bearer token exactly where it is the six letters `Bearer`, each
/// in either case, one space, and the token; the token comes out as it is.
pub proof fn law_bearer_grammar(value: Seq<char>)
    ensures
        authorization_token(value) is Some <==> {
            &&& value.len() > 7
            &&& value[0] == 'B' || value[0] == 'b'
            &&& value[1] == 'E' || value[1] == 'e'
            &&& value[2] == 'A' || value[2] == 'a'
            &&& value[3] == 'R' || value[3] == 'r'
            &&& value[4] == 'E' || value[4] == 'e'
            &&& value[5] == 'R' || value[5] == 'r'
            &&& value[6] == ' '
            &&& bearer_token(value.skip(7))
        },
        authorization_token(value) is Some ==> authorization_token(value)->0 == value.skip(7),
{
    reveal_strlit("Bearer");
    let scheme = BEARER_SCHEME@;
    value.index_of_first_ensures(' ');
    let lower = ascii_lower(scheme);
    assert(lower.len() == 6);
    assert(lower[0] == 'b' && lower[1] == 'e' && lower[2] == 'a' && lower[3] == 'r' && lower[4]
        == 'e' && lower[5] == 'r');
    if authorization_token(value) is Some {
        let (head, tail) = split_first(value, ' ')->0;
        let low = ascii_lower(head);
        assert(low == lower);
        assert(head.len() == low.len());
        assert(low[0] == lower_char(head[0]) && low[1] == lower_char(head[1]) && low[2]
            == lower_char(head[2]) && low[3] == lower_char(head[3]) && low[4] == lower_char(head[4])
            && low[5] == lower_char(head[5]));
        assert(value.take(6) == head);
        assert(head[0] == value[0] && head[1] == value[1] && head[2] == value[2] && head[3]
            == value[3] && head[4] == value[4] && head[5] == value[5]);
        assert(tail == value.skip(7));
    }
    if value.len() > 7 && (value[0] == 'B' || value[0] == 'b') && (value[1] == 'E' || value[1]
        == 'e') && (value[2] == 'A' || value[2] == 'a') && (value[3] == 'R' || value[3] == 'r') && (
    value[4] == 'E' || value[4] == 'e') && (value[5] == 'R' || value[5] == 'r') && value[6] == ' '
        && bearer_token(value.skip(7)) {
        lemma_split(value, ' ', 6);
        let head = value.take(6);
        assert(ascii_lower(head) =~= lower) by {
            assert(ascii_lower(head)[0] == lower_char(value[0]));
            assert(ascii_lower(head)[1] == lower_char(value[1]));
            assert(ascii_lower(head)[2] == lower_char(value[2]));
            assert(ascii_lower(head)[3] == lower_char(value[3]));
            assert(ascii_lower(head)[4] == lower_char(value[4]));
            assert(ascii_lower(head)[5] == lower_char(value[5]));
        }
    }
}

/// A binding is accepted exactly where its namespace is well formed and each of its keys is a
/// public key. It then has the namespace and the role given, and each key in lower case, in order.
/// A refusal names the namespace, or else the first key that is not a public key.
pub proof fn law_binding_accepted(namespace: Seq<char>, role: RemoteRole, keys: Seq<Seq<char>>)
    ensures
        ({
            let outcome = binding_outcome(namespace, role, keys);
            &&& outcome is Ok <==> valid_namespace(namespace) && forall|i: int|
                0 <= i < keys.len() ==> public_key(#[trigger] keys[i])
            &&& outcome is Ok ==> outcome->Ok_0.namespace == namespace && outcome->Ok_0.role == role
                && outcome->Ok_0.keys.len() == keys.len() && forall|i: int|
                0 <= i < keys.len() ==> #[trigger] outcome->Ok_0.keys[i] == ascii_lower(keys[i])
            &&& !valid_namespace(namespace) ==> outcome == Err::<BindingView, PolicyErrorView>(
                PolicyErrorView::InvalidNamespace(namespace),
            )
            &&& forall|i: int|
                valid_namespace(namespace) && 0 <= i < keys.len() && !public_key(
                    #[trigger] keys[i],
                ) && (forall|j: int| 0 <= j < i ==> public_key(#[trigger] keys[j])) ==> outcome
                    == Err::<BindingView, PolicyErrorView>(
                    PolicyErrorView::InvalidPublicKey(keys[i]),
                )
        }),
{
    lemma_first_bad(keys);
}

proof fn lemma_first_bad(keys: Seq<Seq<char>>)
    ensures
        first_bad_key(keys) is None <==> forall|i: int|
            0 <= i < keys.len() ==> public_key(#[trigger] keys[i]),
        forall|i: int|
            0 <= i < keys.len() && !public_key(#[trigger] keys[i]) && (forall|j: int|
                0 <= j < i ==> public_key(#[trigger] keys[j])) ==> first_bad_key(keys) == Some(
                keys[i],
            ),
    decreases keys.len(),
{
    if keys.len() > 0 && public_key(keys[0]) {
        let rest = keys.drop_first();
        lemma_first_bad(rest);
        assert forall|i: int| 0 <= i < rest.len() implies #[trigger] rest[i] == keys[i + 1] by {}
        if first_bad_key(rest) is None {
            assert forall|i: int| 0 <= i < keys.len() implies public_key(#[trigger] keys[i]) by {
                if i > 0 {
                    assert(public_key(rest[i - 1]));
                }
            }
        }
        if forall|i: int| 0 <= i < keys.len() ==> public_key(#[trigger] keys[i]) {
            assert forall|i: int| 0 <= i < rest.len() implies public_key(#[trigger] rest[i]) by {
                assert(public_key(keys[i + 1]));
            }
        }
        assert forall|i: int|
            0 <= i < keys.len() && !public_key(#[trigger] keys[i]) && (forall|j: int|
                0 <= j < i ==> public_key(#[trigger] keys[j])) implies first_bad_key(keys) == Some(
            keys[i],
        ) by {
            assert(i > 0);
            assert(!public_key(rest[i - 1]));
            assert forall|j: int| 0 <= j < i - 1 implies public_key(#[trigger] rest[j]) by {
                assert(public_key(keys[j + 1]));
            }
        }
    }
}

/// Where the devices of a binding start among those of all.
spec fn offset(bindings: Seq<BindingView>, b: int) -> int {
    devices_of(bindings.take(b)).len() as int
}

/// The device of each key of each binding, at its place.
proof fn lemma_offset(bindings: Seq<BindingView>, b: int)
    requires
        0 <= b < bindings.len(),
    ensures
        0 <= offset(bindings, b),
        offset(bindings, b) + bindings[b].keys.len() == offset(bindings, b + 1),
        offset(bindings, b + 1) <= devices_of(bindings).len(),
        forall|k: int|
            0 <= k < bindings[b].keys.len() ==> #[trigger] devices_of(bindings)[offset(bindings, b)
                + k] == (DeviceView {
                key: bindings[b].keys[k],
                namespace: bindings[b].namespace,
                role: bindings[b].role,
            }),
    decreases bindings.len(),
{
    let earlier = bindings.drop_last();
    let last = devices_in(bindings.last());
    if b == bindings.len() - 1 {
        assert(bindings.take(b) =~= earlier);
        assert(bindings.take(b + 1) =~= bindings);
        assert(last.len() == bindings[b].keys.len());
    } else {
        lemma_offset(earlier, b);
        assert(earlier.take(b) =~= bindings.take(b));
        assert(earlier.take(b + 1) =~= bindings.take(b + 1));
        assert forall|k: int| 0 <= k < bindings[b].keys.len() implies #[trigger] devices_of(
            bindings,
        )[offset(bindings, b) + k] == (DeviceView {
            key: bindings[b].keys[k],
            namespace: bindings[b].namespace,
            role: bindings[b].role,
        }) by {
            assert(devices_of(bindings)[offset(bindings, b) + k] == devices_of(earlier)[offset(
                earlier,
                b,
            ) + k]);
        }
    }
}

/// Later bindings start later.
proof fn lemma_offset_grows(bindings: Seq<BindingView>, b: int, c: int)
    requires
        0 <= b <= c <= bindings.len(),
    ensures
        offset(bindings, b) <= offset(bindings, c),
    decreases c - b,
{
    if b < c {
        lemma_offset(bindings, b);
        lemma_offset_grows(bindings, b + 1, c);
    }
}

/// Every device is that of one key of one binding.
proof fn lemma_place_of(bindings: Seq<BindingView>, i: int) -> (place: (int, int))
    requires
        0 <= i < devices_of(bindings).len(),
    ensures
        0 <= place.0 < bindings.len(),
        0 <= place.1 < bindings[place.0].keys.len(),
        i == offset(bindings, place.0) + place.1,
    decreases bindings.len(),
{
    let earlier = bindings.drop_last();
    let n = bindings.len() - 1;
    assert(bindings.take(n) =~= earlier);
    if i < devices_of(earlier).len() {
        let place = lemma_place_of(earlier, i);
        assert(earlier.take(place.0) =~= bindings.take(place.0));
        place
    } else {
        (n, i - devices_of(earlier).len())
    }
}

/// Devices that are pairwise distinct hold no duplicate.
proof fn lemma_distinct_no_duplicate(devices: Seq<DeviceView>)
    requires
        devices_distinct(devices),
    ensures
        first_duplicate(devices) is None,
    decreases devices.len(),
{
    if devices.len() > 0 {
        let earlier = devices.drop_last();
        assert forall|i: int, j: int| 0 <= i < j < earlier.len() implies (
        #[trigger] earlier[i]).key != (#[trigger] earlier[j]).key by {
            assert(devices[i].key != devices[j].key);
        }
        lemma_distinct_no_duplicate(earlier);
        assert forall|i: int| 0 <= i < earlier.len() implies (#[trigger] earlier[i]).key
            != devices.last().key by {
            assert(devices[i].key != devices[devices.len() - 1].key);
        }
    }
}

/// A list of bindings is accepted exactly where some binding holds a key and no key is held twice,
/// by one binding or by two. Without any key the refusal says so.
pub proof fn law_bindings_accepted(bindings: Seq<BindingView>)
    ensures
        policy_outcome(bindings) is Ok <==> (exists|b: int|
            0 <= b < bindings.len() && (#[trigger] bindings[b]).keys.len() > 0) && forall|
            b: int,
            k: int,
            c: int,
            l: int,
        |
            0 <= b < bindings.len() && 0 <= k < bindings[b].keys.len() && 0 <= c < bindings.len()
                && 0 <= l < bindings[c].keys.len() && #[trigger] bindings[b].keys[k]
                == #[trigger] bindings[c].keys[l] ==> b == c && k == l,
        (forall|b: int| 0 <= b < bindings.len() ==> (#[trigger] bindings[b]).keys.len() == 0)
            ==> policy_outcome(bindings) == Err::<Seq<DeviceView>, PolicyErrorView>(
            PolicyErrorView::NoBindings,
        ),
{
    let devices = devices_of(bindings);
    if devices.len() > 0 {
        let place = lemma_place_of(bindings, 0);
        assert(bindings[place.0].keys.len() > 0);
    }
    if exists|b: int| 0 <= b < bindings.len() && (#[trigger] bindings[b]).keys.len() > 0 {
        let b = choose|b: int| 0 <= b < bindings.len() && (#[trigger] bindings[b]).keys.len() > 0;
        lemma_offset(bindings, b);
    } else if devices.len() == 0 {
        assert(first_duplicate(devices) is None);
    }
    if policy_outcome(bindings) is Ok {
        lemma_no_duplicate(devices);
        assert forall|b: int, k: int, c: int, l: int|
            0 <= b < bindings.len() && 0 <= k < bindings[b].keys.len() && 0 <= c < bindings.len()
                && 0 <= l < bindings[c].keys.len() && #[trigger] bindings[b].keys[k]
                == #[trigger] bindings[c].keys[l] implies b == c && k == l by {
            lemma_offset(bindings, b);
            lemma_offset(bindings, c);
            let i = offset(bindings, b) + k;
            let j = offset(bindings, c) + l;
            assert(devices[i].key == devices[j].key);
            if b < c {
                lemma_offset_grows(bindings, b + 1, c);
                assert(i < j);
            } else if c < b {
                lemma_offset_grows(bindings, c + 1, b);
                assert(j < i);
            }
        }
    }
    if (exists|b: int| 0 <= b < bindings.len() && (#[trigger] bindings[b]).keys.len() > 0)
        && forall|b: int, k: int, c: int, l: int|
        0 <= b < bindings.len() && 0 <= k < bindings[b].keys.len() && 0 <= c < bindings.len() && 0
            <= l < bindings[c].keys.len() && #[trigger] bindings[b].keys[k]
            == #[trigger] bindings[c].keys[l] ==> b == c && k == l {
        assert forall|i: int, j: int| 0 <= i < j < devices.len() implies (
        #[trigger] devices[i]).key != (#[trigger] devices[j]).key by {
            let p = lemma_place_of(bindings, i);
            let q = lemma_place_of(bindings, j);
            lemma_offset(bindings, p.0);
            lemma_offset(bindings, q.0);
            assert(devices[offset(bindings, p.0) + p.1].key == bindings[p.0].keys[p.1]);
            assert(devices[offset(bindings, q.0) + q.1].key == bindings[q.0].keys[q.1]);
        }
        lemma_distinct_no_duplicate(devices);
    }
}

/// A list that is refused for a key names the key of the first place, in the order of the bindings
/// and of their keys, at which a key occurs again: an earlier place holds it, and among the earlier
/// places none holds what another does.
pub proof fn law_first_repeated_key_is_named(bindings: Seq<BindingView>, key: Seq<char>)
    requires
        policy_outcome(bindings) == Err::<Seq<DeviceView>, PolicyErrorView>(
            PolicyErrorView::DuplicateKey(key),
        ),
    ensures
        exists|c: int, l: int| #[trigger] first_repeated_at(bindings, key, c, l),
{
    let devices = devices_of(bindings);
    let j = lemma_first_duplicate_index(devices);
    let q = lemma_place_of(bindings, j);
    lemma_offset(bindings, q.0);
    assert(devices[offset(bindings, q.0) + q.1].key == bindings[q.0].keys[q.1]);
    let i = choose|i: int| 0 <= i < j && (#[trigger] devices[i]).key == devices[j].key;
    let p = lemma_place_of(bindings, i);
    lemma_offset(bindings, p.0);
    assert(devices[offset(bindings, p.0) + p.1].key == bindings[p.0].keys[p.1]);
    lemma_place_order(bindings, p.0, p.1, q.0, q.1);
    assert(earlier_place(p.0, p.1, q.0, q.1));
    assert(bindings[p.0].keys[p.1] == key);
    assert forall|a: int, k: int, b: int, m: int|
        0 <= a < bindings.len() && 0 <= k < bindings[a].keys.len() && 0 <= b < bindings.len() && 0
            <= m < bindings[b].keys.len() && earlier_place(a, k, q.0, q.1) && earlier_place(
            b,
            m,
            q.0,
            q.1,
        ) && #[trigger] bindings[a].keys[k] == #[trigger] bindings[b].keys[m] implies a == b && k
        == m by {
        lemma_offset(bindings, a);
        lemma_offset(bindings, b);
        lemma_place_order(bindings, a, k, q.0, q.1);
        lemma_place_order(bindings, b, m, q.0, q.1);
        lemma_place_order(bindings, a, k, b, m);
        lemma_place_order(bindings, b, m, a, k);
        let x = offset(bindings, a) + k;
        let y = offset(bindings, b) + m;
        assert(devices[x].key == devices[y].key);
        let some = devices.take(j);
        assert(some[x] == devices[x] && some[y] == devices[y]);
    }
    assert(first_repeated_at(bindings, key, q.0, q.1));
}

/// Whether one place among the keys of bindings comes before another.
pub open spec fn earlier_place(a: int, k: int, b: int, l: int) -> bool {
    a < b || (a == b && k < l)
}

/// Whether the key at (`c`, `l`) is `key`, an earlier place holds it too, and no key occurs twice
/// at the earlier places.
pub open spec fn first_repeated_at(
    bindings: Seq<BindingView>,
    key: Seq<char>,
    c: int,
    l: int,
) -> bool {
    &&& 0 <= c < bindings.len()
    &&& 0 <= l < bindings[c].keys.len()
    &&& bindings[c].keys[l] == key
    &&& exists|b: int, k: int|
        0 <= b < bindings.len() && 0 <= k < bindings[b].keys.len() && earlier_place(b, k, c, l)
            && #[trigger] bindings[b].keys[k] == key
    &&& forall|a: int, k: int, b: int, m: int|
        0 <= a < bindings.len() && 0 <= k < bindings[a].keys.len() && 0 <= b < bindings.len() && 0
            <= m < bindings[b].keys.len() && earlier_place(a, k, c, l) && earlier_place(b, m, c, l)
            && #[trigger] bindings[a].keys[k] == #[trigger] bindings[b].keys[m] ==> a == b && k
            == m
}

/// An earlier place has the earlier device, and the earlier device an earlier place.
proof fn lemma_place_order(bindings: Seq<BindingView>, a: int, k: int, b: int, m: int)
    requires
        0 <= a < bindings.len(),
        0 <= k < bindings[a].keys.len(),
        0 <= b < bindings.len(),
        0 <= m < bindings[b].keys.len(),
    ensures
        offset(bindings, a) + k < offset(bindings, b) + m <==> earlier_place(a, k, b, m),
{
    lemma_offset(bindings, a);
    lemma_offset(bindings, b);
    if a < b {
        lemma_offset_grows(bindings, a + 1, b);
    } else if b < a {
        lemma_offset_grows(bindings, b + 1, a);
    }
}

/// Where the first duplicate stands.
proof fn lemma_first_duplicate_index(devices: Seq<DeviceView>) -> (j: int)
    requires
        first_duplicate(devices) is Some,
    ensures
        0 <= j < devices.len(),
        devices[j].key == first_duplicate(devices)->0,
        devices_distinct(devices.take(j)),
        exists|i: int| 0 <= i < j && (#[trigger] devices[i]).key == devices[j].key,
    decreases devices.len(),
{
    let earlier = devices.drop_last();
    let last = devices.len() - 1;
    if first_duplicate(earlier) is Some {
        let j = lemma_first_duplicate_index(earlier);
        assert(earlier.take(j) =~= devices.take(j));
        let i = choose|i: int| 0 <= i < j && (#[trigger] earlier[i]).key == earlier[j].key;
        assert(devices[i].key == devices[j].key);
        j
    } else {
        lemma_no_duplicate(earlier);
        assert(devices.take(last) =~= earlier);
        let i = choose|i: int|
            0 <= i < earlier.len() && (#[trigger] earlier[i]).key == devices.last().key;
        assert(devices[i].key == devices[last].key);
        last
    }
}

/// A credential is accepted exactly where its namespace is well formed and its token is a bearer
/// token; it then has what was given. A refusal names the namespace, or else the token.
pub proof fn law_credential_accepted(namespace: Seq<char>, role: RemoteRole, token: Seq<char>)
    ensures
        ({
            let outcome = credential_outcome(namespace, role, token);
            &&& outcome is Ok <==> valid_namespace(namespace) && bearer_token(token)
            &&& outcome is Ok ==> outcome->Ok_0.namespace == namespace && outcome->Ok_0.role == role
                && outcome->Ok_0.token == token
            &&& !valid_namespace(namespace) ==> outcome == Err::<CredentialView, PolicyErrorView>(
                PolicyErrorView::InvalidNamespace(namespace),
            )
            &&& valid_namespace(namespace) && !bearer_token(token) ==> outcome == Err::<
                CredentialView,
                PolicyErrorView,
            >(PolicyErrorView::InvalidToken)
        }),
{
}

/// Credentials whose tokens have different hashes make a table, in which each token resolves to the
/// namespace and the role of its credential, and a token with another hash to nothing.
pub proof fn law_credentials_resolve(credentials: Seq<CredentialView>, token: Seq<char>)
    ensures
        entries_distinct(hashed_entries(credentials)) <==> forall|i: int, j: int|
            0 <= i < j < credentials.len() ==> token_hash((#[trigger] credentials[i]).token)
                != token_hash((#[trigger] credentials[j]).token),
        entries_distinct(hashed_entries(credentials)) ==> forall|i: int|
            0 <= i < credentials.len() && token_hash((#[trigger] credentials[i]).token)
                == token_hash(token) ==> entry_for(hashed_entries(credentials), token_hash(token))
                == Some((credentials[i].namespace, credentials[i].role)),
        entries_distinct(hashed_entries(credentials)) && (forall|i: int|
            0 <= i < credentials.len() ==> token_hash((#[trigger] credentials[i]).token)
                != token_hash(token)) ==> entry_for(hashed_entries(credentials), token_hash(token))
            is None,
{
    let entries = hashed_entries(credentials);
    assert forall|i: int| 0 <= i < credentials.len() implies (#[trigger] entries[i]) == (EntryView {
        hash: token_hash(credentials[i].token),
        namespace: credentials[i].namespace,
        role: credentials[i].role,
    }) by {}
    if entries_distinct(entries) {
        law_table_resolves_exactly_its_tokens(entries, token_hash(token));
        assert forall|i: int, j: int| 0 <= i < j < credentials.len() implies token_hash(
            (#[trigger] credentials[i]).token,
        ) != token_hash((#[trigger] credentials[j]).token) by {
            assert(entries[i].hash != entries[j].hash);
        }
        assert forall|i: int|
            0 <= i < credentials.len() && token_hash((#[trigger] credentials[i]).token)
                == token_hash(token) implies entry_for(entries, token_hash(token)) == Some(
            (credentials[i].namespace, credentials[i].role),
        ) by {
            assert(entries[i].hash == token_hash(token));
        }
    } else {
        let (i, j) = choose|i: int, j: int|
            0 <= i < j < entries.len() && !((#[trigger] entries[i]).hash != (
            #[trigger] entries[j]).hash);
        assert(token_hash(credentials[i].token) == token_hash(credentials[j].token));
    }
}

} // verus!
