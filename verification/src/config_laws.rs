//! Laws of settings: which flags, files and token files are accepted, and what comes of them.

use vstd::prelude::*;

use crate::auth::{binding_outcome, credential_outcome, public_key, BindingView, CredentialView};
use crate::auth_laws::law_binding_accepted;
use crate::config::{
    binding_results, cli_binding_outcome, collected, credential_results, file_binding_outcome,
    file_bindings, file_credential_outcome, file_credentials, first_line, is_default_bind, loopback,
    mode_fault, settings_outcome, token_file_at, token_file_outcome, trimmed_parts, Args,
    ConfigErrorView, Environment, FileBinding, FileConfig, FileCredential, ListenAddr, SettingsView,
    TokenFile, TokenFileProblem, DEFAULT_DB,
};
use crate::protocol::{is_namespace_char, valid_namespace, RemoteRole};
use crate::rows::{lemma_filter_all, lemma_filter_empty, lemma_filter_push};
use crate::text::{
    ascii_lower, fields, is_hex, is_space, lemma_trimmed_blank, texts, trimmed, utf8_len,
};
use crate::text_laws::{
    law_rejoined_fields, law_split_at_first, law_split_halves, law_trimmed_keeps, rejoined,
};

verus! {

/// Only the addresses 127.x.y.z and ::1 are of the same host, at any port.
pub proof fn law_loopback(address: ListenAddr)
    ensures
        match address {
            ListenAddr::V4 { octets, .. } => loopback(address) <==> octets@[0] == 127,
            ListenAddr::V6 { segments, .. } => loopback(address) <==> segments@[7] == 1 && forall|
                i: int,
            |
                0 <= i < 7 ==> #[trigger] segments@[i] == 0,
        },
        match address {
            ListenAddr::V4 { octets, port } => is_default_bind(address) <==> port == 8787
                && octets@[0] == 127 && octets@[1] == 0 && octets@[2] == 0 && octets@[3] == 1,
            ListenAddr::V6 { .. } => !is_default_bind(address),
        },
{
    match address {
        ListenAddr::V4 { octets, port } => {
            let local = seq![127u8, 0u8, 0u8, 1u8];
            if octets@[0] == 127 && octets@[1] == 0 && octets@[2] == 0 && octets@[3] == 1 {
                assert(octets@ =~= local);
            }
            assert(local[0] == 127 && local[1] == 0 && local[2] == 0 && local[3] == 1);
        },
        ListenAddr::V6 { segments, .. } => {
            let one = seq![0u16, 0u16, 0u16, 0u16, 0u16, 0u16, 0u16, 1u16];
            if segments@[7] == 1 && forall|i: int| 0 <= i < 7 ==> #[trigger] segments@[i] == 0 {
                assert(segments@ =~= one);
            }
            if segments@ == one {
                assert forall|i: int| 0 <= i < 7 implies #[trigger] segments@[i] == 0 by {
                    assert(one[i] == 0);
                }
            }
        },
    }
}

/// A token file passes exactly where it is a regular file and none of the six permission bits of
/// group and others is set. A refusal for the bits reports the nine permission bits.
pub proof fn law_token_file_mode(path: Seq<char>, regular: bool, bits: u32)
    ensures
        mode_fault(path, Some((regular, bits))) is None <==> regular && bits & 0x3f == 0,
        !regular ==> mode_fault(path, Some((regular, bits))) == Some(
            ConfigErrorView::TokenFile(path, TokenFileProblem::NotRegular),
        ),
        regular && bits & 0x3f != 0 ==> mode_fault(path, Some((regular, bits))) == Some(
            ConfigErrorView::TokenFilePermissions(path, bits & 0x1ff),
        ),
        mode_fault(path, None) == Some(
            ConfigErrorView::TokenFile(path, TokenFileProblem::Unreadable),
        ),
{
    assert((bits & 0o777) & 0o077 == bits & 0x3f) by (bit_vector);
    assert(bits & 0o777 == bits & 0x1ff) by (bit_vector);
}

/// The token of a file that passes, can be read, and has at most 65536 bytes is its first line that
/// is not blank, trimmed; a larger file, one without such a line, and one that cannot be read are
/// refused, each with its reason.
pub proof fn law_token_of_file(path: Seq<char>, file: TokenFile, raw: Seq<char>, n: int)
    requires
        mode_fault(path, file.metadata) is None,
    ensures
        file.contents is None ==> token_file_outcome(path, file) == Err::<
            Seq<char>,
            ConfigErrorView,
        >(ConfigErrorView::TokenFile(path, TokenFileProblem::Unreadable)),
        file.contents is Some && file.contents->0@ == raw && utf8_len(raw) > 65536
            ==> token_file_outcome(path, file) == Err::<Seq<char>, ConfigErrorView>(
            ConfigErrorView::TokenFile(path, TokenFileProblem::TooLarge),
        ),
        file.contents is Some && file.contents->0@ == raw && utf8_len(raw) <= 65536 && 0 <= n
            < fields(raw, '\n').len() && (forall|i: int|
            0 <= i < n ==> trimmed(#[trigger] fields(raw, '\n')[i]).len() == 0) && trimmed(
            fields(raw, '\n')[n],
        ).len() > 0 ==> token_file_outcome(path, file) == Ok::<Seq<char>, ConfigErrorView>(
            trimmed(fields(raw, '\n')[n]),
        ),
        file.contents is Some && file.contents->0@ == raw && utf8_len(raw) <= 65536 && (forall|
            i: int,
        |
            0 <= i < fields(raw, '\n').len() ==> trimmed(#[trigger] fields(raw, '\n')[i]).len()
                == 0) ==> token_file_outcome(path, file) == Err::<Seq<char>, ConfigErrorView>(
            ConfigErrorView::TokenFile(path, TokenFileProblem::Empty),
        ),
{
    let lines = fields(raw, '\n');
    if 0 <= n < lines.len() && (forall|i: int|
        0 <= i < n ==> trimmed(#[trigger] lines[i]).len() == 0) && trimmed(lines[n]).len() > 0 {
        lemma_first_line(lines, n);
    }
    if forall|i: int| 0 <= i < lines.len() ==> trimmed(#[trigger] lines[i]).len() == 0 {
        lemma_no_line(lines);
    }
}

proof fn lemma_first_line(lines: Seq<Seq<char>>, n: int)
    requires
        0 <= n < lines.len(),
        forall|i: int| 0 <= i < n ==> trimmed(#[trigger] lines[i]).len() == 0,
        trimmed(lines[n]).len() > 0,
    ensures
        first_line(lines) == Some(trimmed(lines[n])),
    decreases lines.len(),
{
    if n > 0 {
        let rest = lines.drop_first();
        assert(trimmed(lines[0]).len() == 0);
        assert forall|i: int| 0 <= i < n - 1 implies trimmed(#[trigger] rest[i]).len() == 0 by {
            assert(rest[i] == lines[i + 1]);
        }
        assert(rest[n - 1] == lines[n]);
        lemma_first_line(rest, n - 1);
    }
}

proof fn lemma_no_line(lines: Seq<Seq<char>>)
    requires
        forall|i: int| 0 <= i < lines.len() ==> trimmed(#[trigger] lines[i]).len() == 0,
    ensures
        first_line(lines) is None,
    decreases lines.len(),
{
    if lines.len() > 0 {
        let rest = lines.drop_first();
        assert(trimmed(lines[0]).len() == 0);
        assert forall|i: int| 0 <= i < rest.len() implies trimmed(#[trigger] rest[i]).len()
            == 0 by {
            assert(rest[i] == lines[i + 1]);
        }
        lemma_no_line(rest);
    }
}

/// A flag of a namespace, a colon, and any number of public keys with commas between them binds the
/// keys, in lower case and in order, to the namespace with writer role.
pub proof fn law_flag_binds(namespace: Seq<char>, keys: Seq<Seq<char>>)
    requires
        valid_namespace(namespace),
        keys.len() >= 1,
        forall|i: int| 0 <= i < keys.len() ==> public_key(#[trigger] keys[i]),
    ensures
        cli_binding_outcome(namespace.push(':') + rejoined(keys, ',')) is Ok,
        ({
            let binding = cli_binding_outcome(namespace.push(':') + rejoined(keys, ','))->Ok_0;
            &&& binding.namespace == namespace
            &&& binding.role == RemoteRole::Writer
            &&& binding.keys.len() == keys.len()
            &&& forall|i: int|
                0 <= i < keys.len() ==> #[trigger] binding.keys[i] == ascii_lower(keys[i])
        }),
{
    let list = rejoined(keys, ',');
    assert(!namespace.contains(':')) by {
        if namespace.contains(':') {
            let k = choose|k: int| 0 <= k < namespace.len() && namespace[k] == ':';
            assert(is_namespace_char(namespace[k]));
        }
    }
    law_split_halves(namespace, ':', list);
    assert forall|i: int| 0 <= i < keys.len() implies !(#[trigger] keys[i]).contains(',') by {
        if keys[i].contains(',') {
            let k = choose|k: int| 0 <= k < keys[i].len() && keys[i][k] == ',';
            assert(public_key(keys[i]));
            assert(is_hex(keys[i][k]));
        }
    }
    law_rejoined_fields(keys, ',');
    assert(list.len() > 0) by {
        assert(public_key(keys[keys.len() - 1]));
        assert(keys.last().len() == 64);
    }
    let cut = keys.map_values(|part: Seq<char>| trimmed(part));
    assert forall|i: int| 0 <= i < keys.len() implies #[trigger] cut[i] == keys[i] by {
        assert(public_key(keys[i]));
        assert(is_hex(keys[i][0]));
        assert(is_hex(keys[i][63]));
        law_trimmed_keeps(keys[i]);
    }
    assert(cut =~= keys);
    assert forall|i: int| 0 <= i < keys.len() implies (#[trigger] keys[i]).len() > 0 by {
        assert(public_key(keys[i]));
    }
    lemma_filter_all(keys, |part: Seq<char>| part.len() > 0);
    assert(trimmed_parts(fields(list, ',')) == keys);
    law_binding_accepted(namespace, RemoteRole::Writer, keys);
}

/// What counts of the parts of a flag: each part that is not blank, trimmed, in order.
pub proof fn law_parts_of_flag(parts: Seq<Seq<char>>, part: Seq<char>)
    ensures
        trimmed_parts(Seq::empty()) == Seq::<Seq<char>>::empty(),
        (forall|i: int| 0 <= i < part.len() ==> is_space(#[trigger] part[i])) ==> trimmed_parts(
            parts.push(part),
        ) == trimmed_parts(parts),
        !(forall|i: int| 0 <= i < part.len() ==> is_space(#[trigger] part[i])) ==> trimmed_parts(
            parts.push(part),
        ) == trimmed_parts(parts).push(trimmed(part)),
{
    let cut = |p: Seq<char>| trimmed(p);
    let keep = |p: Seq<char>| p.len() > 0;
    lemma_trimmed_blank(part);
    assert(parts.push(part).map_values(cut) =~= parts.map_values(cut).push(trimmed(part)));
    lemma_filter_push(parts.map_values(cut), trimmed(part), keep);
    let none = Seq::<Seq<char>>::empty();
    assert(none.map_values(cut) =~= none);
    lemma_filter_empty(none, keep);
}

/// A flag of a namespace, a colon, and parts with commas between them binds what counts of the
/// parts to the namespace, with writer role, or is refused for what is wrong with that binding.
pub proof fn law_flag_of_parts(namespace: Seq<char>, parts: Seq<Seq<char>>)
    requires
        namespace.len() > 0,
        !namespace.contains(':'),
        parts.len() >= 1,
        rejoined(parts, ',').len() > 0,
        forall|i: int| 0 <= i < parts.len() ==> !(#[trigger] parts[i]).contains(','),
    ensures
        ({
            let outcome = cli_binding_outcome(namespace.push(':') + rejoined(parts, ','));
            match binding_outcome(namespace, RemoteRole::Writer, trimmed_parts(parts)) {
                Ok(binding) => outcome == Ok::<BindingView, ConfigErrorView>(binding),
                Err(error) => outcome == Err::<BindingView, ConfigErrorView>(
                    ConfigErrorView::Policy(error),
                ),
            }
        }),
{
    law_split_halves(namespace, ':', rejoined(parts, ','));
    law_rejoined_fields(parts, ',');
}

/// Each credential has the token file of its place; one for which the system told nothing counts as
/// unreadable.
pub proof fn law_token_file_of_credential(environment: Environment, i: int, path: Seq<char>)
    requires
        0 <= i,
    ensures
        i < environment.token_files@.len() ==> token_file_at(environment, i)
            == environment.token_files@[i],
        i >= environment.token_files@.len() ==> token_file_outcome(
            path,
            token_file_at(environment, i),
        ) == Err::<Seq<char>, ConfigErrorView>(
            ConfigErrorView::TokenFile(path, TokenFileProblem::Unreadable),
        ),
{
}

/// A flag without a colon, without a namespace, or without anything after the colon is refused as
/// it is.
pub proof fn law_flag_refused(raw: Seq<char>)
    requires
        !raw.contains(':') || raw[0] == ':' || (raw.last() == ':' && forall|i: int|
            0 <= i < raw.len() - 1 ==> #[trigger] raw[i] != ':'),
    ensures
        cli_binding_outcome(raw) == Err::<BindingView, ConfigErrorView>(
            ConfigErrorView::Binding(raw),
        ),
{
    law_split_at_first(raw, ':');
    raw.index_of_first_ensures(':');
}

/// All the results come out exactly where each is a success, in order; otherwise the first failure.
pub proof fn law_collected<T, E>(results: Seq<Result<T, E>>)
    ensures
        collected(results) is Ok <==> forall|i: int|
            0 <= i < results.len() ==> #[trigger] results[i] is Ok,
        collected(results) is Ok ==> collected(results)->Ok_0.len() == results.len() && forall|
            i: int,
        |
            0 <= i < results.len() ==> #[trigger] results[i] == Ok::<T, E>(
                collected(results)->Ok_0[i],
            ),
        forall|i: int|
            0 <= i < results.len() && #[trigger] results[i] is Err && (forall|j: int|
                0 <= j < i ==> #[trigger] results[j] is Ok) ==> collected(results) == Err::<
                Seq<T>,
                E,
            >(results[i]->Err_0),
    decreases results.len(),
{
    if results.len() > 0 {
        let earlier = results.drop_last();
        law_collected(earlier);
        assert forall|i: int| 0 <= i < earlier.len() implies #[trigger] earlier[i]
            == results[i] by {}
        if collected(results) is Ok {
            let all = collected(results)->Ok_0;
            assert forall|i: int| 0 <= i < results.len() implies #[trigger] results[i] == Ok::<
                T,
                E,
            >(all[i]) by {
                if i < earlier.len() {
                    assert(earlier[i] == results[i]);
                }
            }
        }
        if forall|i: int| 0 <= i < results.len() ==> #[trigger] results[i] is Ok {
            assert forall|i: int| 0 <= i < earlier.len() implies #[trigger] earlier[i] is Ok by {
                assert(results[i] is Ok);
            }
            assert(results[results.len() - 1] is Ok);
        }
        assert forall|i: int|
            0 <= i < results.len() && #[trigger] results[i] is Err && (forall|j: int|
                0 <= j < i ==> #[trigger] results[j] is Ok) implies collected(results) == Err::<
            Seq<T>,
            E,
        >(results[i]->Err_0) by {
            if i < earlier.len() {
                assert(earlier[i] == results[i]);
                assert forall|j: int| 0 <= j < i implies #[trigger] earlier[j] is Ok by {
                    assert(results[j] is Ok);
                }
            } else {
                assert forall|j: int| 0 <= j < earlier.len() implies #[trigger] earlier[j]
                    is Ok by {
                    assert(results[j] is Ok);
                }
            }
        }
    } else {
        assert(collected(results)->Ok_0 =~= Seq::empty());
    }
}

/// The bindings of the file come first, then those of the flags, and all are accepted exactly where
/// each is.
pub proof fn law_bindings_collected(
    args: Args,
    file: Option<FileConfig>,
    bindings: Seq<FileBinding>,
)
    requires
        file is Some && file->0.auth is Some ==> bindings == file->0.auth->0.bindings@,
        !(file is Some && file->0.auth is Some) ==> bindings == Seq::<FileBinding>::empty(),
    ensures
        collected(binding_results(args, file)) is Ok <==> (forall|i: int|
            0 <= i < bindings.len() ==> binding_outcome(
                (#[trigger] bindings[i]).namespace@,
                bindings[i].role,
                texts(bindings[i].keys@),
            ) is Ok) && (forall|i: int|
            0 <= i < args.binding@.len() ==> cli_binding_outcome((#[trigger] args.binding@[i])@)
                is Ok),
        collected(binding_results(args, file)) is Ok ==> ({
            let made = collected(binding_results(args, file))->Ok_0;
            &&& made.len() == bindings.len() + args.binding@.len()
            &&& forall|i: int|
                0 <= i < bindings.len() ==> binding_outcome(
                    (#[trigger] bindings[i]).namespace@,
                    bindings[i].role,
                    texts(bindings[i].keys@),
                )->Ok_0 == made[i]
            &&& forall|i: int|
                0 <= i < args.binding@.len() ==> cli_binding_outcome(
                    (#[trigger] args.binding@[i])@,
                )->Ok_0 == made[bindings.len() + i]
        }),
{
    let first = binding_results(args, file);
    law_collected(first);
    let n = bindings.len() as int;
    assert(file_bindings(file) =~= bindings);
    assert(first.len() == n + args.binding@.len());
    assert forall|i: int| 0 <= i < n implies first[i] == file_binding_outcome(
        #[trigger] bindings[i],
    ) by {}
    assert forall|i: int| 0 <= i < args.binding@.len() implies first[n + i] == cli_binding_outcome(
        (#[trigger] args.binding@[i])@,
    ) by {
        assert(texts(args.binding@)[i] == args.binding@[i]@);
    }
    if collected(first) is Ok {
        assert forall|i: int| 0 <= i < n implies binding_outcome(
            (#[trigger] bindings[i]).namespace@,
            bindings[i].role,
            texts(bindings[i].keys@),
        ) is Ok && binding_outcome(
            bindings[i].namespace@,
            bindings[i].role,
            texts(bindings[i].keys@),
        )->Ok_0 == collected(first)->Ok_0[i] by {
            assert(first[i] is Ok);
        }
        assert forall|i: int| 0 <= i < args.binding@.len() implies cli_binding_outcome(
            (#[trigger] args.binding@[i])@,
        ) is Ok && cli_binding_outcome(args.binding@[i]@)->Ok_0 == collected(first)->Ok_0[n
            + i] by {
            assert(first[n + i] is Ok);
        }
    }
    if (forall|i: int|
        0 <= i < bindings.len() ==> binding_outcome(
            (#[trigger] bindings[i]).namespace@,
            bindings[i].role,
            texts(bindings[i].keys@),
        ) is Ok) && (forall|i: int|
        0 <= i < args.binding@.len() ==> cli_binding_outcome((#[trigger] args.binding@[i])@)
            is Ok) {
        assert forall|i: int| 0 <= i < first.len() implies #[trigger] first[i] is Ok by {
            if i < n {
                assert(first[i] == file_binding_outcome(bindings[i]));
            } else {
                assert(first[n + (i - n)] == cli_binding_outcome(args.binding@[i - n]@));
            }
        }
    }
}

/// The credentials of the file are all accepted exactly where each is.
pub proof fn law_credentials_collected(
    file: Option<FileConfig>,
    environment: Environment,
    credentials: Seq<FileCredential>,
)
    requires
        file is Some && file->0.auth is Some ==> credentials == file->0.auth->0.credentials@,
        !(file is Some && file->0.auth is Some) ==> credentials == Seq::<FileCredential>::empty(),
    ensures
        collected(credential_results(file, environment)) is Ok <==> forall|i: int|
            0 <= i < credentials.len() ==> file_credential_outcome(
                #[trigger] credentials[i],
                token_file_at(environment, i),
            ) is Ok,
        collected(credential_results(file, environment)) is Ok ==> ({
            let made = collected(credential_results(file, environment))->Ok_0;
            &&& made.len() == credentials.len()
            &&& forall|i: int|
                0 <= i < credentials.len() ==> file_credential_outcome(
                    #[trigger] credentials[i],
                    token_file_at(environment, i),
                )->Ok_0 == made[i]
        }),
{
    let second = credential_results(file, environment);
    law_collected(second);
    assert(file_credentials(file) =~= credentials);
    assert forall|i: int| 0 <= i < credentials.len() implies second[i] == file_credential_outcome(
        #[trigger] credentials[i],
        token_file_at(environment, i),
    ) by {}
    if collected(second) is Ok {
        assert forall|i: int| 0 <= i < credentials.len() implies file_credential_outcome(
            #[trigger] credentials[i],
            token_file_at(environment, i),
        ) is Ok && file_credential_outcome(credentials[i], token_file_at(environment, i))->Ok_0
            == collected(second)->Ok_0[i] by {
            assert(second[i] is Ok);
        }
    }
    if forall|i: int|
        0 <= i < credentials.len() ==> file_credential_outcome(
            #[trigger] credentials[i],
            token_file_at(environment, i),
        ) is Ok {
        assert forall|i: int| 0 <= i < second.len() implies #[trigger] second[i] is Ok by {
            assert(second[i] == file_credential_outcome(
                credentials[i],
                token_file_at(environment, i),
            ));
        }
    }
}

/// The address of settings is the file's, if it gives one and the flags leave the default, and that
/// of the flags otherwise; and settings come out exactly where it denotes an address of the same
/// host and every binding and every credential is accepted.
pub proof fn law_settings_accepted(
    args: Args,
    file: Option<FileConfig>,
    environment: Environment,
)
    ensures
        ({
            let outcome = settings_outcome(args, file, environment);
            let from_file = file is Some && file->0.server is Some
                && file->0.server->0.bind is Some && is_default_bind(args.bind);
            let bind = if from_file {
                environment.file_bind
            } else {
                Some(args.bind)
            };
            let bindings = collected(binding_results(args, file));
            let credentials = collected(credential_results(file, environment));
            &&& outcome is Ok <==> bind is Some && loopback(bind->0) && bindings is Ok
                && credentials is Ok
            &&& outcome is Ok ==> outcome->Ok_0.bind == bind->0 && outcome->Ok_0.bindings
                == bindings->Ok_0 && outcome->Ok_0.credentials == credentials->Ok_0
            &&& bind is None ==> outcome == Err::<SettingsView, ConfigErrorView>(
                ConfigErrorView::Bind(file->0.server->0.bind->0@),
            )
            &&& bind is Some && !loopback(bind->0) ==> outcome == Err::<
                SettingsView,
                ConfigErrorView,
            >(ConfigErrorView::NonLoopbackBind(bind->0))
        }),
{
}

/// Which database settings name: the file's, if it names one and the flags spell the default path
/// or another text for it, and that of the flags otherwise.
pub proof fn law_settings_database(
    args: Args,
    file: Option<FileConfig>,
    environment: Environment,
)
    requires
        settings_outcome(args, file, environment) is Ok,
    ensures
        ({
            let db = settings_outcome(args, file, environment)->Ok_0.db;
            let named = file is Some && file->0.server is Some && file->0.server->0.db is Some;
            &&& named && (environment.default_db || args.db@ == DEFAULT_DB@) ==> db
                == file->0.server->0.db->0@
            &&& !(named && (environment.default_db || args.db@ == DEFAULT_DB@)) ==> db == args.db@
        }),
{
}

/// The credential of a file is accepted exactly where it gives a token or a token file, not both,
/// and the token it gives, or the first of the file, is accepted with its namespace.
pub proof fn law_file_credential(credential: FileCredential, file: TokenFile)
    ensures
        ({
            let outcome = file_credential_outcome(credential, file);
            &&& (credential.token is Some <==> credential.token_file is Some) ==> outcome == Err::<
                CredentialView,
                ConfigErrorView,
            >(ConfigErrorView::CredentialField(credential.namespace@))
            &&& credential.token is Some && credential.token_file is None ==> (outcome is Ok
                <==> credential_outcome(
                credential.namespace@,
                credential.role,
                credential.token->0@,
            ) is Ok) && (outcome is Ok ==> outcome->Ok_0 == credential_outcome(
                credential.namespace@,
                credential.role,
                credential.token->0@,
            )->Ok_0)
            &&& credential.token is None && credential.token_file is Some ==> {
                let token = token_file_outcome(credential.token_file->0@, file);
                &&& outcome is Ok <==> token is Ok && credential_outcome(
                    credential.namespace@,
                    credential.role,
                    token->Ok_0,
                ) is Ok
                &&& outcome is Ok ==> outcome->Ok_0 == credential_outcome(
                    credential.namespace@,
                    credential.role,
                    token->Ok_0,
                )->Ok_0
            }
        }),
{
}

} // verus!
