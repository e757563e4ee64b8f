//! The notes server's REST API as the command line and the tool server see it: its wire types,
//! how a note path is normalised the way the server does, how a path or id picks a note, which
//! vault a command works in, and what a failed request says.
use vstd::prelude::*;
use crate::attachments::{after_last_exec, debug_quoted, str_debug};
use crate::credentials::{key, key_spec};
use crate::ids::{ulid_decoded, NoteId, VaultId};
use crate::numfmt::{fmt_int, fmt_u64};
use crate::text::{
    after_last, chars_of, contains_char, ends_with, ends_with_exec, eq, join,
    join_exec, join_strs, lower_seq, lower_vec, starts_with, starts_with_exec, string_of, trim,
    trim_exec, trim_start_pat, trim_start_pat_exec,
};

verus! {

// ---- Wire types ------------------------------------------------------------------------------

#[derive(Debug, Clone, PartialEq, Eq)]
pub struct VaultSummary {
    pub id: String,
    pub notes: u32,
}

#[derive(Debug, Clone, PartialEq, Eq)]
pub struct NoteSummary {
    pub id: String,
    pub path: String,
    pub title: Option<String>,
}

#[derive(Debug, Clone, PartialEq, Eq)]
pub struct Note {
    pub id: String,
    pub path: String,
    pub title: Option<String>,
    pub content: String,
}

#[derive(Debug, Clone, PartialEq, Eq)]
pub struct SearchHit {
    pub note_id: String,
    pub title: Option<String>,
    pub snippet: String,
}

#[derive(Debug, Clone, PartialEq, Eq)]
pub struct TagCount {
    pub tag: String,
    pub count: u32,
}

/// An optional text by its characters.
pub open spec fn opt_view(o: Option<String>) -> Option<Seq<char>> {
    match o {
        Some(s) => Some(s@),
        None => None,
    }
}

fn copy_opt(o: &Option<String>) -> (r: Option<String>)
    ensures
        opt_view(r) == opt_view(*o),
{
    match o {
        Some(s) => Some(s.as_str().to_owned()),
        None => None,
    }
}

/// A summary and the note or summary it stands for carry the same id, path and title.
pub open spec fn same_summary(s: NoteSummary, id: Seq<char>, path: Seq<char>, title: Option<String>) -> bool {
    s.id@ == id && s.path@ == path && opt_view(s.title) == opt_view(title)
}

fn copy_summary(n: &NoteSummary) -> (r: NoteSummary)
    ensures
        same_summary(r, n.id@, n.path@, n.title),
{
    NoteSummary { id: n.id.as_str().to_owned(), path: n.path.as_str().to_owned(), title: copy_opt(&n.title) }
}

impl Note {
    /// The note's listing entry.
    pub fn summary(&self) -> (r: NoteSummary)
        ensures
            same_summary(r, self.id@, self.path@, self.title),
    {
        NoteSummary {
            id: self.id.as_str().to_owned(),
            path: self.path.as_str().to_owned(),
            title: copy_opt(&self.title),
        }
    }
}

// ---- Errors ----------------------------------------------------------------------------------

/// A non-2xx answer, keeping the status so callers can branch on it (404 → create instead).
#[derive(Debug, Clone, PartialEq, Eq)]
pub struct HttpError {
    pub status: u16,
    /// `METHOD /path` of the request that failed, for the message.
    pub request: String,
}

/// What a status means to the person who sent the request.
pub open spec fn explain_spec(status: u16) -> Seq<char> {
    if status == 400 {
        "the server rejected the request"@
    } else if status == 401 {
        "not signed in: run `notes login`"@
    } else if status == 403 {
        "no access: you need editor rights on this vault"@
    } else if status == 404 {
        "not found or no access"@
    } else if status == 409 {
        "conflict: a note already exists at that path"@
    } else if status == 413 {
        "too large"@
    } else if status == 501 {
        "the server does not support this operation"@
    } else if status >= 500 {
        "the server failed"@
    } else {
        "the request failed"@
    }
}

/// `<explanation> (HTTP <status> from <request>)`.
pub open spec fn http_message(e: HttpError) -> Seq<char> {
    explain_spec(e.status) + " (HTTP "@ + fmt_int(e.status as int, 0) + " from "@ + e.request@ + ")"@
}

impl HttpError {
    /// What the status means.
    pub fn explain(&self) -> (r: &'static str)
        ensures
            r@ == explain_spec(self.status),
    {
        match self.status {
            400 => "the server rejected the request",
            401 => "not signed in: run `notes login`",
            403 => "no access: you need editor rights on this vault",
            404 => "not found or no access",
            409 => "conflict: a note already exists at that path",
            413 => "too large",
            501 => "the server does not support this operation",
            s => if s >= 500 {
                "the server failed"
            } else {
                "the request failed"
            },
        }
    }

    /// The error's message.
    pub fn message(&self) -> (r: String)
        ensures
            r@ == http_message(*self),
    {
        let a = join_strs(self.explain(), " (HTTP ");
        let n = string_of(&fmt_u64(self.status as u64));
        let b = join_strs(a.as_str(), n.as_str());
        let c = join_strs(b.as_str(), " from ");
        let d = join_strs(c.as_str(), self.request.as_str());
        join_strs(d.as_str(), ")")
    }
}

/// Why a request to the server failed: an answer with a status, or anything else (no
/// connection, an unreadable answer, a refused argument).
#[derive(Debug, Clone, PartialEq, Eq)]
pub enum RemoteError {
    Http(HttpError),
    Other(String),
}

/// The status behind an error, when there is one.
pub open spec fn status_spec(e: RemoteError) -> Option<u16> {
    match e {
        RemoteError::Http(h) => Some(h.status),
        RemoteError::Other(_) => None,
    }
}

impl RemoteError {
    /// The error's message.
    pub fn message(&self) -> (r: String)
        ensures
            match self {
                RemoteError::Http(h) => r@ == http_message(*h),
                RemoteError::Other(m) => r@ == m@,
            },
    {
        match self {
            RemoteError::Http(h) => h.message(),
            RemoteError::Other(m) => m.as_str().to_owned(),
        }
    }
}

/// The HTTP status behind an error, when there is one.
pub fn status_of(err: &RemoteError) -> (r: Option<u16>)
    ensures
        r == status_spec(*err),
{
    match err {
        RemoteError::Http(h) => Some(h.status),
        RemoteError::Other(_) => None,
    }
}

/// True when the error means "the server has no such thing".
pub fn is_not_found(err: &RemoteError) -> (r: bool)
    ensures
        r == (status_spec(*err) == Some(404u16)),
{
    match status_of(err) {
        Some(s) => s == 404,
        None => false,
    }
}

// ---- Paths -----------------------------------------------------------------------------------

/// Trimmed, without leading `./` and `/`, with `.md` added unless it ends in `.md` or `.qmd`.
pub open spec fn normalize_path_spec(path: Seq<char>) -> Seq<char> {
    let p = trim_start_pat(trim_start_pat(trim(path), "./"@), "/"@);
    if ends_with(p, ".md"@) || ends_with(p, ".qmd"@) {
        p
    } else {
        p + ".md"@
    }
}

/// Vault-relative path as the server stores it: no leading slash, `.md` unless already
/// `.md`/`.qmd` (mirrors the server's own normalisation).
pub fn normalize_path(path: &str) -> (r: String)
    ensures
        r@ == normalize_path_spec(path@),
{
    let t = trim_exec(&chars_of(path));
    let a = trim_start_pat_exec(&t, &chars_of("./"));
    let p = trim_start_pat_exec(&a, &chars_of("/"));
    if ends_with_exec(&p, &chars_of(".md")) || ends_with_exec(&p, &chars_of(".qmd")) {
        string_of(&p)
    } else {
        join_strs(string_of(&p).as_str(), ".md")
    }
}

// ---- Picking a note --------------------------------------------------------------------------

/// How a note is looked up: by its id, or by a normalised path.
#[derive(Debug, Clone, PartialEq, Eq)]
pub enum Lookup {
    Id(String),
    Path(String),
}

/// A trimmed key that is a note id looks the note up by id; any other non-empty key is a path.
pub fn lookup_key(path_or_id: &str) -> (r: Result<Lookup, RemoteError>)
    ensures
        trim(path_or_id@).len() == 0 <==> r is Err,
        trim(path_or_id@).len() == 0 ==> (r matches Err(RemoteError::Other(m)) && m@ == "empty note path or id"@),
        r matches Ok(Lookup::Id(k)) ==> k@ == trim(path_or_id@) && ulid_decoded(k@) is Some,
        r matches Ok(Lookup::Path(p)) ==> p@ == normalize_path_spec(trim(path_or_id@)) && ulid_decoded(
            trim(path_or_id@),
        ) is None,
        r is Ok ==> (r matches Ok(Lookup::Id(_)) <==> ulid_decoded(trim(path_or_id@)) is Some),
{
    let key = string_of(&trim_exec(&chars_of(path_or_id)));
    if key.as_str().unicode_len() == 0 {
        return Err(RemoteError::Other("empty note path or id".to_owned()));
    }
    match NoteId::parse(key.as_str()) {
        Ok(_) => Ok(Lookup::Id(key)),
        Err(_) => Ok(Lookup::Path(normalize_path(key.as_str()))),
    }
}

/// Strict lexicographic order of texts by character (which is the order of their UTF-8 bytes,
/// the order of `str`'s `Ord`).
pub open spec fn text_lt(a: Seq<char>, b: Seq<char>) -> bool
    decreases a.len(),
{
    if a.len() == 0 {
        b.len() > 0
    } else if b.len() == 0 {
        false
    } else if a[0] != b[0] {
        a[0] < b[0]
    } else {
        text_lt(a.drop_first(), b.drop_first())
    }
}

pub proof fn lemma_text_lt_trans(a: Seq<char>, b: Seq<char>, c: Seq<char>)
    requires
        text_lt(a, b),
        text_lt(b, c),
    ensures
        text_lt(a, c),
    decreases a.len(),
{
    if a.len() > 0 && b.len() > 0 && c.len() > 0 && a[0] == b[0] && b[0] == c[0] {
        lemma_text_lt_trans(a.drop_first(), b.drop_first(), c.drop_first());
    }
}

pub proof fn lemma_text_lt_asym(a: Seq<char>, b: Seq<char>)
    requires
        text_lt(a, b),
    ensures
        !text_lt(b, a),
    decreases a.len(),
{
    if a.len() > 0 && b.len() > 0 && a[0] == b[0] {
        lemma_text_lt_asym(a.drop_first(), b.drop_first());
    }
}

pub proof fn lemma_text_lt_total(a: Seq<char>, b: Seq<char>)
    ensures
        text_lt(a, b) || text_lt(b, a) || a == b,
    decreases a.len(),
{
    if a.len() > 0 && b.len() > 0 && a[0] == b[0] {
        lemma_text_lt_total(a.drop_first(), b.drop_first());
        if a.drop_first() == b.drop_first() {
            assert(a =~= seq![a[0]] + a.drop_first());
            assert(b =~= seq![b[0]] + b.drop_first());
        }
    } else if a.len() == 0 && b.len() == 0 {
        assert(a =~= b);
    }
}

/// `str::cmp(a, b) == Less`.
pub fn text_less(a: &[char], b: &[char]) -> (r: bool)
    ensures
        r == text_lt(a@, b@),
{
    let n = a.len();
    let m = b.len();
    let mut i: usize = 0;
    proof {
        assert(a@.skip(0) =~= a@);
        assert(b@.skip(0) =~= b@);
    }
    while i < n && i < m
        invariant
            i <= n == a@.len(),
            i <= m == b@.len(),
            text_lt(a@, b@) == text_lt(a@.skip(i as int), b@.skip(i as int)),
        decreases n - i,
    {
        if a[i] != b[i] {
            proof {
                assert(a@.skip(i as int)[0] == a@[i as int]);
                assert(b@.skip(i as int)[0] == b@[i as int]);
            }
            return a[i] < b[i];
        }
        proof {
            assert(a@.skip(i as int).drop_first() =~= a@.skip(i + 1));
            assert(b@.skip(i as int).drop_first() =~= b@.skip(i + 1));
        }
        i += 1;
    }
    n - i < m - i
}

/// The three ways a note matches what was asked, tried in this order: the exact path, the
/// path in any ASCII case, and — for a bare file name — the last segment of the path.
pub open spec fn tier_match(tier: int, path: Seq<char>, wanted: Seq<char>) -> bool {
    if tier == 0 {
        path == wanted
    } else if tier == 1 {
        lower_seq(path) == lower_seq(wanted)
    } else {
        !wanted.contains('/') && after_last(path, '/') == wanted
    }
}

/// Note `i` comes no later than note `j` once the notes are sorted (stably) by path.
pub open spec fn sorted_before(ns: Seq<NoteSummary>, i: int, j: int) -> bool {
    text_lt(ns[i].path@, ns[j].path@) || (ns[i].path@ == ns[j].path@ && i <= j)
}

/// Some note matches in this tier.
pub open spec fn tier_hit(ns: Seq<NoteSummary>, tier: int, wanted: Seq<char>) -> bool {
    exists|j: int| 0 <= j < ns.len() && tier_match(tier, #[trigger] ns[j].path@, wanted)
}

/// Note `i` is the first match of this tier in path order.
pub open spec fn first_of_tier(ns: Seq<NoteSummary>, tier: int, wanted: Seq<char>, i: int) -> bool {
    &&& 0 <= i < ns.len()
    &&& tier_match(tier, ns[i].path@, wanted)
    &&& forall|j: int| 0 <= j < ns.len() && tier_match(tier, #[trigger] ns[j].path@, wanted) ==> sorted_before(ns, i, j)
}

/// Note `i` is the one a lookup picks: the first match of the first tier that has one.
pub open spec fn picked(ns: Seq<NoteSummary>, wanted: Seq<char>, i: int) -> bool {
    ||| first_of_tier(ns, 0, wanted, i)
    ||| (!tier_hit(ns, 0, wanted) && first_of_tier(ns, 1, wanted, i))
    ||| (!tier_hit(ns, 0, wanted) && !tier_hit(ns, 1, wanted) && first_of_tier(ns, 2, wanted, i))
}

fn tier_match_exec(tier: u8, path: &String, wanted: &[char]) -> (r: bool)
    requires
        tier < 3,
    ensures
        r == tier_match(tier as int, path@, wanted@),
{
    let p = chars_of(path.as_str());
    if tier == 0 {
        eq(&p, wanted)
    } else if tier == 1 {
        eq(&lower_vec(&p), &lower_vec(wanted))
    } else {
        !contains_char(wanted, '/') && eq(&after_last_exec(&p, '/'), wanted)
    }
}

fn first_in_tier(notes: &[NoteSummary], tier: u8, wanted: &[char]) -> (r: Option<usize>)
    requires
        tier < 3,
    ensures
        match r {
            Some(i) => first_of_tier(notes@, tier as int, wanted@, i as int),
            None => !tier_hit(notes@, tier as int, wanted@),
        },
{
    let ghost ns = notes@;
    let n = notes.len();
    let mut best: Option<usize> = None;
    let mut i: usize = 0;
    while i < n
        invariant
            i <= n == ns.len(),
            ns == notes@,
            tier < 3,
            match best {
                Some(b) => b < i && tier_match(tier as int, ns[b as int].path@, wanted@) && forall|j: int|
                    0 <= j < i && tier_match(tier as int, #[trigger] ns[j].path@, wanted@) ==> sorted_before(
                        ns,
                        b as int,
                        j,
                    ),
                None => forall|j: int| 0 <= j < i ==> !tier_match(tier as int, #[trigger] ns[j].path@, wanted@),
            },
        decreases n - i,
    {
        if tier_match_exec(tier, &notes[i].path, wanted) {
            match best {
                None => {
                    best = Some(i);
                },
                Some(b) => {
                    let pi = chars_of(notes[i].path.as_str());
                    let pb = chars_of(notes[b].path.as_str());
                    if text_less(&pi, &pb) {
                        proof {
                            assert forall|j: int|
                                0 <= j <= i && tier_match(tier as int, #[trigger] ns[j].path@, wanted@) implies sorted_before(
                                ns,
                                i as int,
                                j,
                            ) by {
                                if j < i {
                                    if text_lt(ns[b as int].path@, ns[j].path@) {
                                        lemma_text_lt_trans(ns[i as int].path@, ns[b as int].path@, ns[j].path@);
                                    }
                                }
                            }
                        }
                        best = Some(i);
                    } else {
                        proof {
                            lemma_text_lt_total(ns[i as int].path@, ns[b as int].path@);
                        }
                    }
                },
            }
        }
        i += 1;
    }
    proof {
        if best is None {
            assert forall|j: int| 0 <= j < ns.len() implies !tier_match(tier as int, #[trigger] ns[j].path@, wanted@) by {}
        }
    }
    best
}

/// The note a path picks out of a vault's listing: the exact path, else the path in any ASCII
/// case, else (for a bare file name) the file of that name anywhere in the tree; among several,
/// the first in path order.
pub fn pick_note(notes: &[NoteSummary], wanted: &str) -> (r: Option<NoteSummary>)
    ensures
        match r {
            Some(n) => exists|i: int|
                #![trigger notes@[i]]
                picked(notes@, wanted@, i) && same_summary(n, notes@[i].id@, notes@[i].path@, notes@[i].title),
            None => !tier_hit(notes@, 0, wanted@) && !tier_hit(notes@, 1, wanted@) && !tier_hit(notes@, 2, wanted@),
        },
{
    let w = chars_of(wanted);
    let found = match first_in_tier(notes, 0, &w) {
        Some(i) => Some(i),
        None => match first_in_tier(notes, 1, &w) {
            Some(i) => Some(i),
            None => first_in_tier(notes, 2, &w),
        },
    };
    match found {
        Some(i) => {
            let r = copy_summary(&notes[i]);
            proof {
                assert(picked(notes@, wanted@, i as int));
            }
            Some(r)
        },
        None => None,
    }
}

// ---- Which vault -----------------------------------------------------------------------------

/// `--vault "<v>" is not a vault id`.
pub open spec fn bad_vault_message(v: Seq<char>) -> Seq<char> {
    "--vault "@ + str_debug(v) + " is not a vault id"@
}

/// The vault named on the command line, if one is: `Some(Ok(id))` for a vault id,
/// `Some(Err(..))` for anything else non-blank, `None` when none is given (the account's vaults
/// decide, see [`only_vault`]).
pub fn given_vault(arg: Option<&str>) -> (r: Option<Result<String, RemoteError>>)
    ensures
        match arg {
            None => r is None,
            Some(a) => if trim(a@).len() == 0 {
                r is None
            } else if ulid_decoded(trim(a@)) is Some {
                r matches Some(Ok(v)) && v@ == trim(a@)
            } else {
                r matches Some(Err(RemoteError::Other(m))) && m@ == bad_vault_message(trim(a@))
            },
        },
{
    match arg {
        None => None,
        Some(a) => {
            let v = string_of(&trim_exec(&chars_of(a)));
            if v.as_str().unicode_len() == 0 {
                return None;
            }
            match VaultId::parse(v.as_str()) {
                Ok(_) => Some(Ok(v)),
                Err(_) => {
                    let q = debug_quoted(v.as_str());
                    let m = join_strs(join_strs("--vault ", q.as_str()).as_str(), " is not a vault id");
                    Some(Err(RemoteError::Other(m)))
                },
            }
        },
    }
}

/// `  <id> (<n> notes)`.
pub open spec fn vault_line(v: VaultSummary) -> Seq<char> {
    "  "@ + v.id@ + " ("@ + fmt_int(v.notes as int, 0) + " notes)"@
}

/// The message when several vaults could be meant.
pub open spec fn several_vaults_message(vs: Seq<VaultSummary>) -> Seq<char> {
    "several vaults are available; pass --vault (or set NOTES_VAULT):\n"@ + join(
        vs.map_values(|v: VaultSummary| vault_line(v)),
        "\n"@,
    )
}

/// The message when the account has none.
pub open spec fn no_vaults_message() -> Seq<char> {
    "this account has no vaults yet — create one with `notes sync`"@
}

/// The vault to work in when none is named: the account's only vault; none, or several, is
/// an error that says what to do.
pub fn only_vault(vaults: &[VaultSummary]) -> (r: Result<String, RemoteError>)
    ensures
        vaults@.len() == 1 ==> (r matches Ok(v) && v@ == vaults@[0].id@),
        vaults@.len() == 0 ==> (r matches Err(RemoteError::Other(m)) && m@ == no_vaults_message()),
        vaults@.len() > 1 ==> (r matches Err(RemoteError::Other(m)) && m@ == several_vaults_message(vaults@)),
{
    let n = vaults.len();
    if n == 1 {
        return Ok(vaults[0].id.as_str().to_owned());
    }
    if n == 0 {
        return Err(RemoteError::Other("this account has no vaults yet — create one with `notes sync`".to_owned()));
    }
    let mut lines: Vec<Vec<char>> = Vec::new();
    let mut i: usize = 0;
    while i < n
        invariant
            i <= n == vaults@.len(),
            lines@.len() == i,
            forall|j: int| 0 <= j < i ==> (#[trigger] lines@[j])@ == vault_line(vaults@[j]),
        decreases n - i,
    {
        let a = join_strs("  ", vaults[i].id.as_str());
        let b = join_strs(a.as_str(), " (");
        let c = join_strs(b.as_str(), string_of(&fmt_u64(vaults[i].notes as u64)).as_str());
        let d = join_strs(c.as_str(), " notes)");
        lines.push(chars_of(d.as_str()));
        i += 1;
    }
    let list = join_exec(&lines, &chars_of("\n"));
    proof {
        assert(lines@.map_values(|v: Vec<char>| v@) =~= vaults@.map_values(|v: VaultSummary| vault_line(v)));
    }
    let head = "several vaults are available; pass --vault (or set NOTES_VAULT):\n";
    Err(RemoteError::Other(join_strs(head, string_of(&list).as_str())))
}

// ---- The client's server address -------------------------------------------------------------

/// `--server must be an http:// or https:// URL (got "<server>")`.
pub open spec fn bad_server_message(server: Seq<char>) -> Seq<char> {
    "--server must be an http:// or https:// URL (got "@ + str_debug(server) + ")"@
}

/// The normalised server base URL a client talks to (its [`key`]), which must be `http://` or
/// `https://`.
pub fn server_base(server: &str) -> (r: Result<String, RemoteError>)
    ensures
        match r {
            Ok(b) => b@ == key_spec(server@) && (starts_with(b@, "http://"@) || starts_with(b@, "https://"@)),
            Err(e) => !(starts_with(key_spec(server@), "http://"@) || starts_with(key_spec(server@), "https://"@))
                && e == RemoteError::Other(e->Other_0) && e->Other_0@ == bad_server_message(server@),
        },
{
    let base = key(server);
    let b = chars_of(base.as_str());
    if starts_with_exec(&b, &chars_of("http://")) || starts_with_exec(&b, &chars_of("https://")) {
        Ok(base)
    } else {
        let q = debug_quoted(server);
        let m = join_strs(join_strs("--server must be an http:// or https:// URL (got ", q.as_str()).as_str(), ")");
        Err(RemoteError::Other(m))
    }
}

// ---- The API the command line and the tool server are written against ------------------------

/// What a notes server provides: the real REST client, or a stand-in in tests.
pub trait NotesApi {
    fn vaults(&self) -> Result<Vec<VaultSummary>, RemoteError>;

    fn notes(&self, vault: &str) -> Result<Vec<NoteSummary>, RemoteError>;

    fn note(&self, vault: &str, id: &str) -> Result<Note, RemoteError>;

    fn create(&self, vault: &str, path: &str, content: &str) -> Result<Note, RemoteError>;

    fn replace(&self, vault: &str, id: &str, content: &str) -> Result<Note, RemoteError>;

    fn rename(&self, vault: &str, id: &str, path: &str) -> Result<(), RemoteError>;

    fn delete(&self, vault: &str, id: &str) -> Result<(), RemoteError>;

    fn daily(&self, vault: &str, date: &str) -> Result<Note, RemoteError>;

    fn search(&self, vault: &str, q: &str, limit: u32) -> Result<Vec<SearchHit>, RemoteError>;

    fn backlinks(&self, vault: &str, id: &str) -> Result<Vec<NoteSummary>, RemoteError>;

    fn tags(&self, vault: &str) -> Result<Vec<TagCount>, RemoteError>;

    fn tagged(&self, vault: &str, tag: &str) -> Result<Vec<NoteSummary>, RemoteError>;
}

/// Look a note up by id or by vault-relative path (with or without the `.md`): by id, the
/// server's answer, a "not found" meaning no such note; by path, [`pick_note`] over the vault's
/// listing. `Ok(None)` means "no such note". A blank key is refused before anything is asked.
pub fn lookup_note<A: NotesApi>(api: &A, vault: &str, path_or_id: &str) -> (r: Result<Option<NoteSummary>, RemoteError>)
    ensures
        trim(path_or_id@).len() == 0 ==> (r matches Err(RemoteError::Other(m)) && m@ == "empty note path or id"@),
{
    let key = match lookup_key(path_or_id) {
        Ok(k) => k,
        Err(e) => {
            return Err(e);
        },
    };
    match key {
        Lookup::Id(k) => match api.note(vault, k.as_str()) {
            Ok(n) => Ok(Some(n.summary())),
            Err(e) => if is_not_found(&e) {
                Ok(None)
            } else {
                Err(e)
            },
        },
        Lookup::Path(wanted) => match api.notes(vault) {
            Ok(notes) => Ok(pick_note(&notes, wanted.as_str())),
            Err(e) => Err(e),
        },
    }
}

/// `no note matching "<path or id>" in vault <vault>`.
pub open spec fn no_match_message(path_or_id: Seq<char>, vault: Seq<char>) -> Seq<char> {
    "no note matching "@ + str_debug(path_or_id) + " in vault "@ + vault
}

/// Like [`lookup_note`], but "no such note" is an error.
pub fn resolve_note<A: NotesApi>(api: &A, vault: &str, path_or_id: &str) -> (r: Result<NoteSummary, RemoteError>)
    ensures
        trim(path_or_id@).len() == 0 ==> (r matches Err(RemoteError::Other(m)) && m@ == "empty note path or id"@),
{
    match lookup_note(api, vault, path_or_id) {
        Ok(Some(n)) => Ok(n),
        Ok(None) => {
            let a = join_strs("no note matching ", debug_quoted(path_or_id).as_str());
            let b = join_strs(a.as_str(), " in vault ");
            Err(RemoteError::Other(join_strs(b.as_str(), vault)))
        },
        Err(e) => Err(e),
    }
}

/// The vault to work in: the one given (which must be a vault id), else the account's only
/// vault — asked of the server only when none is given.
pub fn resolve_vault<A: NotesApi>(api: &A, arg: Option<&str>) -> (r: Result<String, RemoteError>)
    ensures
        match arg {
            Some(a) => trim(a@).len() > 0 ==> if ulid_decoded(trim(a@)) is Some {
                r matches Ok(v) && v@ == trim(a@)
            } else {
                r matches Err(RemoteError::Other(m)) && m@ == bad_vault_message(trim(a@))
            },
            None => true,
        },
{
    match given_vault(arg) {
        Some(r) => r,
        None => match api.vaults() {
            Ok(vs) => only_vault(&vs),
            Err(e) => Err(e),
        },
    }
}

} // verus!
