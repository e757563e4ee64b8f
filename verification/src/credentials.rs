//! Saved sessions for native clients: one entry per server in the credentials file, holding
//! either the token itself or the note that the token is in the system keychain.
//!
//! Reading and writing the file is the caller's; this module decides what an entry means, what
//! a save writes, which key a server is filed under and what an invite carries.
use vstd::prelude::*;
use crate::error::Error;
use crate::tables::{emit_toml, lemma_table_pos_get, lemma_table_pos_is_last, lemma_tv_table_index, parse_toml, t_insert, t_insert_exec, t_remove, t_remove_exec, table_get, table_index, table_pos, toml_document, toml_emit, toml_get, tv, tv_table, Toml, TomlV};
use crate::text::{
    chars_of, ends_with, ends_with_exec, rfind, rfind_exec, slice, string_of, strip_suffix, trim,
    trim_end_pat, trim_end_pat_exec, trim_exec,
};

verus! {

/// The keychain service entries are filed under; the account is the server's [`key`].
pub const KEYCHAIN_SERVICE: &'static str = "lemmate";

/// Somewhere to keep a secret by name: the system keychain, or a stand-in in tests.
pub trait Secrets {
    fn set(&self, account: &str, secret: &str) -> Result<(), String>;

    fn get(&self, account: &str) -> Result<Option<String>, String>;

    fn delete(&self, account: &str) -> Result<(), String>;
}

/// `str::trim_end_matches('/')`, then `/ws` dropped once.
pub open spec fn key_spec(server: Seq<char>) -> Seq<char> {
    let s = trim_end_pat(server, "/"@);
    match strip_suffix(s, "/ws"@) {
        Some(t) => t,
        None => s,
    }
}

/// Normalised key: scheme + host, no trailing slash or `/ws`.
pub fn key(server: &str) -> (r: String)
    ensures
        r@ == key_spec(server@),
{
    let slash = chars_of("/");
    let ws = chars_of("/ws");
    let s = trim_end_pat_exec(&chars_of(server), &slash);
    if ends_with_exec(&s, &ws) {
        string_of(&slice(&s, 0, s.len() - ws.len()))
    } else {
        string_of(&s)
    }
}

/// The invite link's marker before the token.
pub open spec fn invite_marker() -> Seq<char> {
    "/#/invite/"@
}

/// Trimmed, the part after the last invite marker if there is one, trimmed again.
pub open spec fn invite_token_spec(invite: Seq<char>) -> Seq<char> {
    let s = trim(invite);
    trim(
        match rfind(s, invite_marker()) {
            Some(i) => s.skip(i + invite_marker().len()),
            None => s,
        },
    )
}

/// The token out of an invite the admin sent, which may be the whole URL
/// (`https://notes.example.org/#/invite/<token>`) or just the token.
pub fn invite_token(invite: &str) -> (r: String)
    ensures
        r@ == invite_token_spec(invite@),
{
    let s = trim_exec(&chars_of(invite));
    let m = chars_of("/#/invite/");
    proof {
        crate::text::lemma_rfind_before(s@, m@, s@.len() + 1int);
    }
    let t = match rfind_exec(&s, &m) {
        Some(i) => {
            let n = s.len();
            assert(crate::text::is_at(s@, m@, i as int));
            slice(&s, i + m.len(), n)
        },
        None => s,
    };
    string_of(&trim_exec(&t))
}

/// The table a credentials file holds: empty when there is no file or it is not TOML.
pub open spec fn cred_root(file: Option<Seq<char>>) -> Seq<(Seq<char>, TomlV)> {
    match file {
        Some(t) => match toml_document(t) {
            Some(es) => es,
            None => seq![],
        },
        None => seq![],
    }
}

/// The entry filed under `key` in the `servers` table.
pub open spec fn cred_entry(root: Seq<(Seq<char>, TomlV)>, key: Seq<char>) -> Option<TomlV> {
    toml_get(table_get(root, "servers"@), key)
}

/// The entry says `keychain = true`.
pub open spec fn in_keychain(e: Option<TomlV>) -> bool {
    toml_get(e, "keychain"@) == Some(TomlV::Bool(true))
}

/// Where the token for `key` is: `Some(Some(t))` in the file, `Some(None)` in the keychain,
/// `None` nowhere. A token in the file wins over `keychain = true`.
pub open spec fn saved_token(file: Option<Seq<char>>, key: Seq<char>) -> Option<Option<Seq<char>>> {
    let e = cred_entry(cred_root(file), key);
    match e {
        Some(_) => match toml_get(e, "token"@) {
            Some(TomlV::Str(t)) => Some(Some(t)),
            _ => if in_keychain(e) {
                Some(None)
            } else {
                None
            },
        },
        None => None,
    }
}

/// The entry a save files: `keychain = true` when the keychain took the token, else the token.
pub open spec fn saved_entry(in_kc: bool, token: Seq<char>) -> Seq<(Seq<char>, TomlV)> {
    if in_kc {
        seq![("keychain"@, TomlV::Bool(true))]
    } else {
        seq![("token"@, TomlV::Str(token))]
    }
}

/// The table after a save of `entry` under `key`; `None` when `servers` is there but no table.
pub open spec fn saved_root(root: Seq<(Seq<char>, TomlV)>, key: Seq<char>, entry: Seq<(Seq<char>, TomlV)>) -> Option<
    Seq<(Seq<char>, TomlV)>,
> {
    match table_get(root, "servers"@) {
        None => Some(t_insert(root, "servers"@, TomlV::Table(seq![(key, TomlV::Table(entry))]))),
        Some(TomlV::Table(ss)) => Some(t_insert(root, "servers"@, TomlV::Table(t_insert(ss, key, TomlV::Table(entry))))),
        Some(_) => None,
    }
}

/// The file a save writes, or the message it fails with.
pub open spec fn saved_file(file: Option<Seq<char>>, key: Seq<char>, entry: Seq<(Seq<char>, TomlV)>) -> Result<Seq<char>, Seq<char>> {
    match saved_root(cred_root(file), key, entry) {
        Some(r) => toml_emit(r),
        None => Err("credentials file is malformed"@),
    }
}

/// The file after forgetting `key`, or the message writing it fails with.
pub open spec fn forgotten_file(file: Option<Seq<char>>, key: Seq<char>) -> Result<Seq<char>, Seq<char>> {
    let root = cred_root(file);
    match table_get(root, "servers"@) {
        Some(TomlV::Table(ss)) => toml_emit(t_insert(root, "servers"@, TomlV::Table(t_remove(ss, key)))),
        _ => toml_emit(root),
    }
}

/// The credentials file's table: empty when there is none or it is not TOML.
fn read_root(file: Option<&str>) -> (r: Vec<(String, Toml)>)
    ensures
        tv_table(r@) == cred_root(
            match file {
                Some(t) => Some(t@),
                None => None,
            },
        ),
{
    let r: Vec<(String, Toml)> = match file {
        Some(t) => match parse_toml(t) {
            Some(es) => es,
            None => Vec::new(),
        },
        None => Vec::new(),
    };
    proof {
        if r@.len() == 0 {
            assert(tv_table(r@) =~= Seq::<(Seq<char>, TomlV)>::empty());
        }
    }
    r
}

pub open spec fn file_view(file: Option<&str>) -> Option<Seq<char>> {
    match file {
        Some(t) => Some(t@),
        None => None,
    }
}

/// `Value::get` on an entry's value: its entry named `k`, when it is a table.
fn toml_get_exec<'a>(v: &'a Toml, k: &str) -> (r: Option<&'a Toml>)
    ensures
        match r {
            Some(x) => toml_get(Some(tv(*v)), k@) == Some(tv(*x)),
            None => toml_get(Some(tv(*v)), k@) is None,
        },
{
    match v {
        Toml::Table(es) => match table_index(es, k) {
            Some(i) => Some(&es[i].1),
            None => None,
        },
        _ => None,
    }
}

/// The entry filed under `key`.
fn entry_exec<'a>(root: &'a Vec<(String, Toml)>, key: &str) -> (r: Option<&'a Toml>)
    ensures
        match r {
            Some(x) => cred_entry(tv_table(root@), key@) == Some(tv(*x)),
            None => cred_entry(tv_table(root@), key@) is None,
        },
{
    match table_index(root, "servers") {
        Some(i) => toml_get_exec(&root[i].1, key),
        None => None,
    }
}

/// The saved token for `server`, given the credentials file's text: the file's token, else
/// the keychain's answer when the entry points there and a keychain is at hand. A keychain that
/// fails to answer counts as no token.
pub fn load_with<S: Secrets>(secrets: Option<&S>, file: Option<&str>, server: &str) -> (r: Option<String>)
    ensures
        match saved_token(file_view(file), key_spec(server@)) {
            Some(Some(t)) => r is Some && r->0@ == t,
            Some(None) => secrets is None ==> r is None,
            None => r is None,
        },
{
    let key = key(server);
    let root = read_root(file);
    proof {
        reveal_strlit("servers");
        reveal_strlit("token");
        reveal_strlit("keychain");
    }
    let entry = match entry_exec(&root, key.as_str()) {
        Some(e) => e,
        None => return None,
    };
    match toml_get_exec(entry, "token") {
        Some(Toml::Str(t)) => return Some(t.as_str().to_owned()),
        _ => {},
    }
    let kc = match toml_get_exec(entry, "keychain") {
        Some(Toml::Bool(b)) => *b,
        _ => false,
    };
    if kc {
        match secrets {
            Some(s) => match s.get(key.as_str()) {
                Ok(t) => t,
                Err(_) => None,
            },
            None => None,
        }
    } else {
        None
    }
}

/// Where the token for `server` is, for messages: the keychain, or the file at `path`.
pub fn location(file: Option<&str>, server: &str, path: &str) -> (r: String)
    ensures
        r@ == (if in_keychain(cred_entry(cred_root(file_view(file)), key_spec(server@))) {
            "the system keychain"@
        } else {
            path@
        }),
{
    let key = key(server);
    let root = read_root(file);
    proof {
        reveal_strlit("servers");
        reveal_strlit("keychain");
    }
    let kc = match entry_exec(&root, key.as_str()) {
        Some(e) => match toml_get_exec(e, "keychain") {
            Some(Toml::Bool(b)) => *b,
            _ => false,
        },
        None => false,
    };
    if kc {
        "the system keychain".to_owned()
    } else {
        path.to_owned()
    }
}

/// The table after a save of `entry` under `key` (see `saved_root`).
fn saved_root_exec(root: Vec<(String, Toml)>, key: &str, entry: Vec<(String, Toml)>) -> (r: Option<Vec<(String, Toml)>>)
    ensures
        match saved_root(tv_table(root@), key@, tv_table(entry@)) {
            Some(x) => r matches Some(v) && tv_table(v@) == x,
            None => r is None,
        },
{
    let mut root = root;
    let ghost r0 = tv_table(root@);
    let ghost e0 = root@;
    proof {
        reveal_strlit("servers");
        lemma_table_pos_get(r0, "servers"@);
        lemma_tv_table_index(root@);
    }
    match table_index(&root, "servers") {
        Some(i) => {
            proof {
                lemma_table_pos_is_last(r0, "servers"@, i as int);
            }
            let (_k, v) = root.remove(i);
            match v {
                Toml::Table(ss) => {
                    let mut servers = ss;
                    t_insert_exec(&mut servers, key, Toml::Table(entry));
                    let ghost sv = servers@;
                    root.insert(i, ("servers".to_owned(), Toml::Table(servers)));
                    proof {
                        lemma_tv_table_index(root@);
                        lemma_tv_table_index(e0);
                        assert(tv_table(root@) =~= r0.update(i as int, ("servers"@, TomlV::Table(tv_table(sv)))));
                        assert(table_get(r0, "servers"@) == Some(TomlV::Table(tv_table(ss@))));
                        assert(table_pos(r0, "servers"@) == Some(i as int));
                        assert(tv_table(sv) == t_insert(tv_table(ss@), key@, TomlV::Table(tv_table(entry@))));
                        assert(saved_root(r0, key@, tv_table(entry@)) == Some(tv_table(root@)));
                    }
                    Some(root)
                },
                _ => {
                    proof {
                        assert(saved_root(r0, key@, tv_table(entry@)) is None);
                    }
                    None
                },
            }
        },
        None => {
            let mut servers: Vec<(String, Toml)> = Vec::new();
            proof {
                assert(tv_table(servers@) =~= Seq::<(Seq<char>, TomlV)>::empty());
            }
            t_insert_exec(&mut servers, key, Toml::Table(entry));
            proof {
                assert(t_insert(Seq::<(Seq<char>, TomlV)>::empty(), key@, TomlV::Table(tv_table(entry@))) =~= seq![
                    (key@, TomlV::Table(tv_table(entry@))),
                ]);
            }
            let ghost before = root@;
            let ghost sv = servers@;
            root.push(("servers".to_owned(), Toml::Table(servers)));
            proof {
                assert(root@.drop_last() =~= before);
                assert(root@.last().0@ == "servers"@);
                assert(root@.last().1 matches Toml::Table(x) && x@ == sv);
                assert(tv(root@.last().1) == TomlV::Table(tv_table(sv)));
                assert(tv_table(root@) == tv_table(before).push((root@.last().0@, tv(root@.last().1))));
                assert(tv_table(root@) == r0.push(("servers"@, TomlV::Table(tv_table(sv)))));
                assert(table_pos(r0, "servers"@) is None);
                assert(tv_table(sv) == seq![(key@, TomlV::Table(tv_table(entry@)))]);
                assert(saved_root(r0, key@, tv_table(entry@)) == Some(tv_table(root@)));
            }
            Some(root)
        },
    }
}

/// Saves a token for `server`: into `secrets` if it takes it, else into the file. Returns the
/// credentials file to write, made from its current text (`None` when there is none).
pub fn save_with<S: Secrets>(secrets: Option<&S>, file: Option<&str>, server: &str, token: &str) -> (r: Result<
    String,
    Error,
>)
    ensures
        ({
            let k = key_spec(server@);
            let in_file = saved_file(file_view(file), k, saved_entry(false, token@));
            let in_kc = saved_file(file_view(file), k, saved_entry(true, token@));
            match r {
                Ok(t) => in_file == Ok::<Seq<char>, Seq<char>>(t@) || (secrets is Some && in_kc == Ok::<Seq<char>, Seq<char>>(
                    t@,
                )),
                Err(Error::Sync(m)) => in_file == Err::<Seq<char>, Seq<char>>(m@) || (secrets is Some && in_kc == Err::<
                    Seq<char>,
                    Seq<char>,
                >(m@)),
                Err(_) => false,
            }
        }),
        secrets is None ==> match saved_file(file_view(file), key_spec(server@), saved_entry(false, token@)) {
            Ok(t) => r matches Ok(x) && x@ == t,
            Err(m) => r matches Err(Error::Sync(x)) && x@ == m,
        },
{
    let key = key(server);
    let root = read_root(file);
    proof {
        reveal_strlit("token");
        reveal_strlit("keychain");
        reveal_strlit("credentials file is malformed");
    }
    proof {
        reveal_strlit("servers");
    }
    let malformed = match table_index(&root, "servers") {
        Some(i) => match &root[i].1 {
            Toml::Table(_) => false,
            _ => true,
        },
        None => false,
    };
    if malformed {
        return Err(Error::Sync("credentials file is malformed".to_owned()));
    }
    let took = match secrets {
        Some(s) => match s.set(key.as_str(), token) {
            Ok(()) => true,
            Err(_) => false,
        },
        None => false,
    };
    let entry: Vec<(String, Toml)> = if took {
        vec![("keychain".to_owned(), Toml::Bool(true))]
    } else {
        vec![("token".to_owned(), Toml::Str(token.to_owned()))]
    };
    proof {
        lemma_tv_table_index(entry@);
        assert(tv_table(entry@) =~= saved_entry(took, token@));
    }
    match saved_root_exec(root, key.as_str(), entry) {
        Some(r) => match emit_toml(&r) {
            Ok(t) => Ok(t),
            Err(m) => Err(Error::Sync(m)),
        },
        None => Err(Error::Sync("credentials file is malformed".to_owned())),
    }
}

/// Forgets `server`: its token leaves the keychain too when the entry put it there (a
/// keychain that fails to delete is not fatal), and its entry leaves the file. Returns the
/// credentials file to write.
pub fn forget_with<S: Secrets>(secrets: Option<&S>, file: Option<&str>, server: &str) -> (r: Result<String, Error>)
    ensures
        match forgotten_file(file_view(file), key_spec(server@)) {
            Ok(t) => r matches Ok(x) && x@ == t,
            Err(m) => r matches Err(Error::Sync(x)) && x@ == m,
        },
{
    let key = key(server);
    let mut root = read_root(file);
    let ghost r0 = tv_table(root@);
    let ghost e0 = root@;
    proof {
        reveal_strlit("servers");
        reveal_strlit("keychain");
        lemma_table_pos_get(r0, "servers"@);
        lemma_tv_table_index(root@);
    }
    let kc = match entry_exec(&root, key.as_str()) {
        Some(e) => match toml_get_exec(e, "keychain") {
            Some(Toml::Bool(b)) => *b,
            _ => false,
        },
        None => false,
    };
    if kc {
        match secrets {
            Some(s) => {
                let _ = s.delete(key.as_str());
            },
            None => {},
        }
    }
    match table_index(&root, "servers") {
        Some(i) => {
            proof {
                lemma_table_pos_is_last(r0, "servers"@, i as int);
            }
            let (k0, v) = root.remove(i);
            match v {
                Toml::Table(ss) => {
                    let kept = t_remove_exec(ss, key.as_str());
                    let ghost kv = kept@;
                    root.insert(i, ("servers".to_owned(), Toml::Table(kept)));
                    proof {
                        lemma_tv_table_index(root@);
                        lemma_tv_table_index(e0);
                        assert(tv_table(root@) =~= r0.update(i as int, ("servers"@, TomlV::Table(tv_table(kv)))));
                    }
                },
                other => {
                    root.insert(i, (k0, other));
                    proof {
                        lemma_tv_table_index(root@);
                        assert(root@ =~= e0);
                    }
                },
            }
        },
        None => {},
    }
    match emit_toml(&root) {
        Ok(t) => Ok(t),
        Err(m) => Err(Error::Sync(m)),
    }
}

#[verifier::external_type_specification]
#[verifier::external_body]
pub struct ExKeyringEntry(keyring::Entry);

/// Why the keychain did not do what was asked: it has no such entry, or it failed (with the
/// failure's message).
pub enum KeychainFailure {
    NoEntry,
    Other(String),
}

/// `keyring::Entry::new(service, account)`, a `keyring::Error` given as a [`KeychainFailure`]
/// (`NoEntry` as it is, anything else by its message). What it gives depends on the machine's
/// keychain; nothing is claimed of it.
#[verifier::external_body]
fn keychain_entry(service: &str, account: &str) -> Result<keyring::Entry, KeychainFailure> {
    keyring::Entry::new(service, account).map_err(|e| match e {
        keyring::Error::NoEntry => KeychainFailure::NoEntry,
        other => KeychainFailure::Other(other.to_string()),
    })
}

/// `keyring::Entry::set_password`, its error given as for `keychain_entry`; nothing is claimed
/// of the outcome.
#[verifier::external_body]
fn entry_set_password(e: &keyring::Entry, secret: &str) -> Result<(), KeychainFailure> {
    e.set_password(secret).map_err(|e| match e {
        keyring::Error::NoEntry => KeychainFailure::NoEntry,
        other => KeychainFailure::Other(other.to_string()),
    })
}

/// `keyring::Entry::get_password`, its error given as for `keychain_entry`; nothing is claimed
/// of the outcome.
#[verifier::external_body]
fn entry_get_password(e: &keyring::Entry) -> Result<String, KeychainFailure> {
    e.get_password().map_err(|e| match e {
        keyring::Error::NoEntry => KeychainFailure::NoEntry,
        other => KeychainFailure::Other(other.to_string()),
    })
}

/// `keyring::Entry::delete_credential`, its error given as for `keychain_entry`; nothing is
/// claimed of the outcome.
#[verifier::external_body]
fn entry_delete(e: &keyring::Entry) -> Result<(), KeychainFailure> {
    e.delete_credential().map_err(|e| match e {
        keyring::Error::NoEntry => KeychainFailure::NoEntry,
        other => KeychainFailure::Other(other.to_string()),
    })
}

/// The operating system's keychain, via the `keyring` crate.
pub struct Keychain {
    pub service: &'static str,
}

impl Keychain {
    fn entry(&self, account: &str) -> Result<keyring::Entry, KeychainFailure> {
        keychain_entry(self.service, account)
    }
}

impl Secrets for Keychain {
    /// Stores the secret; a failure, a missing entry included, is an error.
    fn set(&self, account: &str, secret: &str) -> Result<(), String> {
        let done = match self.entry(account) {
            Ok(e) => match entry_set_password(&e, secret) {
                Ok(()) => Ok(()),
                Err(x) => Err(x),
            },
            Err(f) => Err(f),
        };
        set_answer(done)
    }

    /// The secret, `None` when the keychain has no entry for the account.
    fn get(&self, account: &str) -> Result<Option<String>, String> {
        let got = match self.entry(account) {
            Ok(e) => match entry_get_password(&e) {
                Ok(s) => Ok(s),
                Err(x) => Err(x),
            },
            Err(f) => Err(f),
        };
        get_answer(got)
    }

    /// Deletes the secret; an entry that is not there is no error.
    fn delete(&self, account: &str) -> Result<(), String> {
        let done = match self.entry(account) {
            Ok(e) => match entry_delete(&e) {
                Ok(()) => Ok(()),
                Err(x) => Err(x),
            },
            Err(f) => Err(f),
        };
        delete_answer(done)
    }
}

/// What storing a secret answers for what the keychain did: a failure, a missing entry
/// included, is an error with its message.
pub fn set_answer(done: Result<(), KeychainFailure>) -> (r: Result<(), String>)
    ensures
        match done {
            Ok(()) => r is Ok,
            Err(KeychainFailure::NoEntry) => r matches Err(m) && m@ == "No matching entry found in secure storage"@,
            Err(KeychainFailure::Other(f)) => r matches Err(m) && m@ == f@,
        },
{
    match done {
        Ok(()) => Ok(()),
        Err(KeychainFailure::NoEntry) => Err("No matching entry found in secure storage".to_owned()),
        Err(KeychainFailure::Other(m)) => Err(m),
    }
}

/// What reading a secret answers for what the keychain gave: the secret, `None` for a missing
/// entry, a failure's message.
pub fn get_answer(got: Result<String, KeychainFailure>) -> (r: Result<Option<String>, String>)
    ensures
        match got {
            Ok(s) => r matches Ok(Some(x)) && x@ == s@,
            Err(KeychainFailure::NoEntry) => r matches Ok(None),
            Err(KeychainFailure::Other(f)) => r matches Err(m) && m@ == f@,
        },
{
    match got {
        Ok(s) => Ok(Some(s)),
        Err(KeychainFailure::NoEntry) => Ok(None),
        Err(KeychainFailure::Other(m)) => Err(m),
    }
}

/// What deleting a secret answers for what the keychain did: a missing entry is no error.
pub fn delete_answer(done: Result<(), KeychainFailure>) -> (r: Result<(), String>)
    ensures
        match done {
            Err(KeychainFailure::Other(f)) => r matches Err(m) && m@ == f@,
            _ => r is Ok,
        },
{
    match done {
        Ok(()) | Err(KeychainFailure::NoEntry) => Ok(()),
        Err(KeychainFailure::Other(m)) => Err(m),
    }
}

/// `getrandom::fill` on `n` bytes: random bytes, as many as asked, or the error's message. Of
/// the bytes nothing else is claimed.
#[verifier::external_body]
fn random_bytes(n: usize) -> (r: Result<Vec<u8>, String>)
    ensures
        r matches Ok(v) ==> v@.len() == n,
{
    let mut buf = vec![0u8; n];
    getrandom::fill(&mut buf).map(|_| buf).map_err(|e| e.to_string())
}

/// The SHA-256 digest of some bytes.
pub uninterp spec fn sha256_digest(data: Seq<u8>) -> Seq<u8>;

/// `sha2::Sha256::digest`: a function of the bytes, 32 bytes long.
#[verifier::external_body]
fn sha256(data: &[u8]) -> (r: Vec<u8>)
    ensures
        r@ == sha256_digest(data@),
        r@.len() == 32,
{
    <sha2::Sha256 as sha2::Digest>::digest(data).to_vec()
}

/// The URL-safe base64 of some bytes, without padding.
pub uninterp spec fn base64_url(data: Seq<u8>) -> Seq<char>;

/// `base64::engine::general_purpose::URL_SAFE_NO_PAD.encode`: a function of the bytes.
#[verifier::external_body]
fn base64_url_encode(data: &[u8]) -> (r: String)
    ensures
        r@ == base64_url(data@),
{
    base64::Engine::encode(&base64::engine::general_purpose::URL_SAFE_NO_PAD, data)
}

/// What `url` makes of a base URL with query pairs appended (form-encoded), or the parse
/// error's message.
pub uninterp spec fn url_with_query(base: Seq<char>, pairs: Seq<(Seq<char>, Seq<char>)>) -> Result<Seq<char>, Seq<char>>;

pub open spec fn pairs_view(pairs: Seq<(String, String)>) -> Seq<(Seq<char>, Seq<char>)> {
    pairs.map_values(|p: (String, String)| (p.0@, p.1@))
}

/// `url::Url::parse(base)`, then `query_pairs_mut().extend_pairs(pairs)`, as a string.
#[verifier::external_body]
fn url_with_pairs(base: &str, pairs: &Vec<(String, String)>) -> (r: Result<String, String>)
    ensures
        match url_with_query(base@, pairs_view(pairs@)) {
            Ok(u) => r matches Ok(s) && s@ == u,
            Err(e) => r matches Err(m) && m@ == e,
        },
{
    let mut url = url::Url::parse(base).map_err(|e| e.to_string())?;
    url.query_pairs_mut().extend_pairs(pairs.iter());
    Ok(url.into())
}

/// The name/value pairs `url::form_urlencoded::parse` reads from a query, decoded, in order.
pub uninterp spec fn form_pairs(query: Seq<u8>) -> Seq<(Seq<char>, Seq<char>)>;

/// `url::form_urlencoded::parse(query).into_owned()`, collected.
#[verifier::external_body]
fn parse_form(query: &[u8]) -> (r: Vec<(String, String)>)
    ensures
        pairs_view(r@) == form_pairs(query@),
{
    url::form_urlencoded::parse(query).into_owned().collect()
}

/// Lower-case hex, two digits a byte.
pub open spec fn hex_spec(b: Seq<u8>) -> Seq<char>
    decreases b.len(),
{
    if b.len() == 0 {
        seq![]
    } else {
        hex_spec(b.drop_last()) + seq![hex_digit(b.last() / 16), hex_digit(b.last() % 16)]
    }
}

pub open spec fn hex_digit(d: u8) -> char {
    if d < 10 {
        ((48 + d) as u8) as char
    } else {
        ((87 + d) as u8) as char
    }
}

fn hex_digit_exec(d: u8) -> (r: char)
    requires
        d < 16,
    ensures
        r == hex_digit(d),
{
    if d < 10 {
        (48u8 + d) as char
    } else {
        (87u8 + d) as char
    }
}

/// The bytes in lower-case hex.
pub fn hex(b: &[u8]) -> (r: String)
    ensures
        r@ == hex_spec(b@),
{
    let mut out: Vec<char> = Vec::new();
    let mut i: usize = 0;
    proof {
        assert(b@.take(0) =~= Seq::<u8>::empty());
    }
    while i < b.len()
        invariant
            i <= b@.len(),
            out@ == hex_spec(b@.take(i as int)),
        decreases b@.len() - i,
    {
        proof {
            assert(b@.take(i + 1).drop_last() =~= b@.take(i as int));
            assert(b@.take(i + 1).last() == b@[i as int]);
        }
        out.push(hex_digit_exec(b[i] / 16));
        out.push(hex_digit_exec(b[i] % 16));
        i += 1;
    }
    proof {
        assert(b@.take(b@.len() as int) =~= b@);
    }
    string_of(&out)
}

/// The query of the sign-in page: who asks, where to answer, the state, the challenge, the device.
pub open spec fn authorize_pairs(redirect_uri: Seq<char>, state: Seq<char>, challenge: Seq<char>, device: Seq<char>) -> Seq<
    (Seq<char>, Seq<char>),
> {
    seq![
        ("authorize"@, "app"@),
        ("redirect_uri"@, redirect_uri),
        ("state"@, state),
        ("code_challenge"@, challenge),
        ("device"@, device),
    ]
}

/// A text is the hex of some `n` bytes.
pub open spec fn is_hex_of(t: Seq<char>, n: nat) -> bool {
    exists|b: Seq<u8>| b.len() == n && t == #[trigger] hex_spec(b)
}

/// A sign-in through the browser in progress: open [`Self::url`] in a browser or a webview,
/// catch the redirect to `redirect_uri`, and hand its query to [`BrowserSignIn::finish_code`].
/// The verifier never leaves this process; the browser only ever sees its hash.
#[derive(Debug, Clone)]
pub struct BrowserSignIn {
    pub server: String,
    pub redirect_uri: String,
    pub url: String,
    state: String,
    code_verifier: String,
}

/// `u` up to its query or fragment, without trailing slashes.
pub open spec fn callback_base(u: Seq<char>) -> Seq<char> {
    let cut = match crate::text::find_any_from(u, seq!['?', '#'], 0) {
        Some(i) => u.take(i),
        None => u,
    };
    trim_end_pat(cut, "/"@)
}

/// The value of the last pair named `k`.
pub open spec fn last_value(pairs: Seq<(Seq<char>, Seq<char>)>, k: Seq<char>) -> Option<Seq<char>>
    decreases pairs.len(),
{
    if pairs.len() == 0 {
        None
    } else if pairs.last().0 == k {
        Some(pairs.last().1)
    } else {
        last_value(pairs.drop_last(), k)
    }
}

/// What the redirect's query says: the code, or why there is none (`None` for an error the
/// server named, the message otherwise).
pub open spec fn finish_spec(query: Seq<char>, state: Seq<char>) -> Result<Seq<char>, Seq<char>> {
    let q = crate::text::trim_start_pat(query, "?"@);
    let pairs = form_pairs(vstd::utf8::encode_utf8(q));
    match last_value(pairs, "error"@) {
        Some(e) => Err(if e == "access_denied"@ { "sign-in was cancelled"@ } else { e }),
        None => if last_value(pairs, "state"@) != Some(state) {
            Err("the answer does not belong to this sign-in"@)
        } else {
            match last_value(pairs, "code"@) {
                Some(c) => Ok(c),
                None => Err("the answer carries no code"@),
            }
        },
    }
}

impl BrowserSignIn {
    pub closed spec fn server_view(&self) -> Seq<char> {
        self.server@
    }

    pub closed spec fn redirect_view(&self) -> Seq<char> {
        self.redirect_uri@
    }

    pub closed spec fn url_view(&self) -> Seq<char> {
        self.url@
    }

    pub closed spec fn state_view(&self) -> Seq<char> {
        self.state@
    }

    pub closed spec fn verifier_view(&self) -> Seq<char> {
        self.code_verifier@
    }

    /// The challenge the sign-in page gets: the hash of the verifier, in URL-safe base64.
    pub open spec fn challenge_spec(&self) -> Seq<char> {
        base64_url(sha256_digest(vstd::utf8::encode_utf8(self.verifier_view())))
    }

    /// Start one: fresh random state and verifier (as hex), and the sign-in page's URL on the
    /// server (by its [`key`]) with the query that names this program. `redirect_uri` is where
    /// the answer will be caught; `device` is how the token will be named.
    pub fn start(server: &str, redirect_uri: &str, device: &str) -> (r: Result<BrowserSignIn, Error>)
        ensures
            match r {
                Ok(s) => {
                    &&& s.server_view() == key_spec(server@)
                    &&& s.redirect_view() == redirect_uri@
                    &&& is_hex_of(s.state_view(), 16)
                    &&& is_hex_of(s.verifier_view(), 32)
                    &&& url_with_query(
                        key_spec(server@) + "/"@,
                        authorize_pairs(redirect_uri@, s.state_view(), s.challenge_spec(), device@),
                    ) == Ok::<Seq<char>, Seq<char>>(s.url_view())
                },
                Err(Error::Sync(m)) => crate::text::starts_with(m@, "no randomness: "@) || (exists|e: Seq<char>|
                    m@ == key_spec(server@) + " is not a URL: "@ + e),
                Err(_) => false,
            },
    {
        let server = key(server);
        let state = match random_bytes(16) {
            Ok(b) => {
                let h = hex(&b);
                proof {
                    assert(hex_spec(b@) == h@);
                }
                h
            },
            Err(e) => {
                let m = crate::text::join_strs("no randomness: ", e.as_str());
                proof {
                    lemma_starts_with_join("no randomness: "@, e@);
                }
                return Err(Error::Sync(m));
            },
        };
        let verifier = match random_bytes(32) {
            Ok(b) => {
                let h = hex(&b);
                proof {
                    assert(hex_spec(b@) == h@);
                }
                h
            },
            Err(e) => {
                let m = crate::text::join_strs("no randomness: ", e.as_str());
                proof {
                    lemma_starts_with_join("no randomness: "@, e@);
                }
                return Err(Error::Sync(m));
            },
        };
        let challenge = base64_url_encode(&sha256(verifier.as_str().as_bytes()));
        let base = crate::text::join_strs(server.as_str(), "/");
        let pairs = vec![
            ("authorize".to_owned(), "app".to_owned()),
            ("redirect_uri".to_owned(), redirect_uri.to_owned()),
            ("state".to_owned(), state.as_str().to_owned()),
            ("code_challenge".to_owned(), challenge),
            ("device".to_owned(), device.to_owned()),
        ];
        proof {
            assert(pairs_view(pairs@) =~= authorize_pairs(redirect_uri@, state@, base64_url(sha256_digest(vstd::utf8::encode_utf8(verifier@))), device@));
        }
        match url_with_pairs(base.as_str(), &pairs) {
            Ok(url) => Ok(BrowserSignIn { server, redirect_uri: redirect_uri.to_owned(), url, state, code_verifier: verifier }),
            Err(e) => {
                let m = crate::text::join_strs(crate::text::join_strs(server.as_str(), " is not a URL: ").as_str(), e.as_str());
                Err(Error::Sync(m))
            },
        }
    }

    /// Whether `url` is the redirect this sign-in is waiting for: the same address, whatever
    /// the query, the fragment or trailing slashes.
    pub fn is_callback(&self, url: &str) -> (r: bool)
        ensures
            r == (callback_base(url@) == callback_base(self.redirect_view())),
    {
        crate::text::eq(&callback_base_exec(url), &callback_base_exec(self.redirect_uri.as_str()))
    }

    /// The code in the query of the redirect (`code=…&state=…`), or why there is none: the
    /// error the server named (`access_denied` as a cancelled sign-in), an answer to another
    /// sign-in, or no code.
    pub fn finish_code(&self, query: &str) -> (r: Result<String, Error>)
        ensures
            match finish_spec(query@, self.state_view()) {
                Ok(c) => r matches Ok(x) && x@ == c,
                Err(m) => r matches Err(Error::Sync(x)) && x@ == m,
            },
    {
        let q = crate::text::trim_start_pat_exec(&chars_of(query), &chars_of("?"));
        let qs = string_of(&q);
        let pairs = parse_form(qs.as_str().as_bytes());
        match last_value_exec(&pairs, "error") {
            Some(e) => {
                proof {
                    reveal_strlit("access_denied");
                }
                if crate::text::eq(&chars_of(e.as_str()), &chars_of("access_denied")) {
                    Err(Error::Sync("sign-in was cancelled".to_owned()))
                } else {
                    Err(Error::Sync(e))
                }
            },
            None => {
                let st = last_value_exec(&pairs, "state");
                let same = match &st {
                    Some(v) => crate::text::eq(&chars_of(v.as_str()), &chars_of(self.state.as_str())),
                    None => false,
                };
                if !same {
                    Err(Error::Sync("the answer does not belong to this sign-in".to_owned()))
                } else {
                    match last_value_exec(&pairs, "code") {
                        Some(c) => Ok(c),
                        None => Err(Error::Sync("the answer carries no code".to_owned())),
                    }
                }
            },
        }
    }

    /// The verifier, for the token request that trades the code.
    pub fn code_verifier(&self) -> (r: &str)
        ensures
            r@ == self.verifier_view(),
    {
        self.code_verifier.as_str()
    }
}

proof fn lemma_starts_with_join(a: Seq<char>, b: Seq<char>)
    ensures
        crate::text::starts_with(a + b, a),
{
    assert((a + b).subrange(0, a.len() as int) =~= a);
}

proof fn lemma_find_any_from_bound(s: Seq<char>, set: Seq<char>, i: int)
    ensures
        crate::text::find_any_from(s, set, i) matches Some(k) ==> i <= k < s.len(),
    decreases s.len() - i,
{
    if 0 <= i < s.len() && !set.contains(s[i]) {
        lemma_find_any_from_bound(s, set, i + 1);
    }
}

fn callback_base_exec(u: &str) -> (r: Vec<char>)
    ensures
        r@ == callback_base(u@),
{
    let c = chars_of(u);
    let set = vec!['?', '#'];
    proof {
        assert(set@ =~= seq!['?', '#']);
    }
    proof {
        lemma_find_any_from_bound(c@, set@, 0);
    }
    let cut = match crate::text::find_any_from_exec(&c, &set, 0) {
        Some(i) => slice(&c, 0, i),
        None => c,
    };
    trim_end_pat_exec(&cut, &chars_of("/"))
}

fn last_value_exec(pairs: &Vec<(String, String)>, k: &str) -> (r: Option<String>)
    ensures
        crate::remote::opt_view(r) == last_value(pairs_view(pairs@), k@),
{
    let mut i: usize = pairs.len();
    let ghost pv = pairs_view(pairs@);
    proof {
        assert(pv.take(pairs@.len() as int) =~= pv);
    }
    while i > 0
        invariant
            i <= pairs@.len(),
            pv == pairs_view(pairs@),
            last_value(pv, k@) == last_value(pv.take(i as int), k@),
        decreases i,
    {
        proof {
            assert(pv.take(i as int).drop_last() =~= pv.take(i - 1));
            assert(pv.take(i as int).last() == (pairs@[i - 1].0@, pairs@[i - 1].1@));
        }
        if crate::text::eq(&chars_of(pairs[i - 1].0.as_str()), &chars_of(k)) {
            return Some(pairs[i - 1].1.as_str().to_owned());
        }
        i -= 1;
    }
    None
}

} // verus!
