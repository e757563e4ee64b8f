//! The rules of the journal store that hold apart from the database: vault roles and their
//! names, the search query language, when a document is snapshotted and how far its history
//! is pruned, and the rows the store hands out.
use vstd::prelude::*;
use crate::ids::{NoteId, VaultId};
use crate::text::{
    chars_of, is_ws, join, join_exec, string_of, strip_prefix, strip_set, strip_set_exec,
    to_lowercase, trim_start_pat, trim_start_pat_exec, unicode_lower,
};

verus! {

// ---- Roles -----------------------------------------------------------------------------------

/// Vault-level roles. Ordered: a higher role includes the lower ones.
#[derive(Debug, Clone, Copy, PartialEq, Eq, PartialOrd, Ord, Hash, Structural)]
pub enum Role {
    Viewer,
    Editor,
    Owner,
}

/// A role's name.
pub open spec fn role_name(r: Role) -> Seq<char> {
    match r {
        Role::Viewer => "viewer"@,
        Role::Editor => "editor"@,
        Role::Owner => "owner"@,
    }
}

/// The role a name stands for; names are exact (lowercase).
pub open spec fn role_of(s: Seq<char>) -> Option<Role> {
    if s == "viewer"@ {
        Some(Role::Viewer)
    } else if s == "editor"@ {
        Some(Role::Editor)
    } else if s == "owner"@ {
        Some(Role::Owner)
    } else {
        None
    }
}

/// A role's rank in the order of roles.
pub open spec fn role_rank(r: Role) -> int {
    match r {
        Role::Viewer => 0,
        Role::Editor => 1,
        Role::Owner => 2,
    }
}

impl Role {
    /// The role's name.
    pub fn as_str(self) -> (r: &'static str)
        ensures
            r@ == role_name(self),
    {
        match self {
            Role::Viewer => "viewer",
            Role::Editor => "editor",
            Role::Owner => "owner",
        }
    }

    /// The role a name stands for.
    pub fn parse(s: &str) -> (r: Option<Role>)
        ensures
            r == role_of(s@),
    {
        let c = chars_of(s);
        if crate::text::eq(&c, &chars_of("viewer")) {
            Some(Role::Viewer)
        } else if crate::text::eq(&c, &chars_of("editor")) {
            Some(Role::Editor)
        } else if crate::text::eq(&c, &chars_of("owner")) {
            Some(Role::Owner)
        } else {
            None
        }
    }

    /// Whether this role includes `other`'s rights.
    pub fn includes(self, other: Role) -> (r: bool)
        ensures
            r == (role_rank(self) >= role_rank(other)),
    {
        let a: u8 = match self {
            Role::Viewer => 0,
            Role::Editor => 1,
            Role::Owner => 2,
        };
        let b: u8 = match other {
            Role::Viewer => 0,
            Role::Editor => 1,
            Role::Owner => 2,
        };
        a >= b
    }
}

proof fn lemma_role_names_differ()
    ensures
        "viewer"@ != "editor"@,
        "viewer"@ != "owner"@,
        "editor"@ != "owner"@,
{
    reveal_strlit("viewer");
    reveal_strlit("editor");
    reveal_strlit("owner");
    assert("viewer"@[0] != "editor"@[0]);
    assert("viewer"@[0] != "owner"@[0]);
    assert("editor"@[0] != "owner"@[0]);
}

/// A role's name reads back as the role, and a name that reads as a role is that role's name:
/// names and roles are one-to-one.
pub proof fn lemma_role_round_trip(r: Role, s: Seq<char>)
    ensures
        role_of(role_name(r)) == Some(r),
        role_of(s) == Some(r) ==> s == role_name(r),
{
    lemma_role_names_differ();
}

// ---- Search queries --------------------------------------------------------------------------

/// The words of a text and the word being read: `str::split_whitespace` from the left.
pub open spec fn words_acc(s: Seq<char>) -> (Seq<Seq<char>>, Seq<char>)
    decreases s.len(),
{
    if s.len() == 0 {
        (Seq::empty(), Seq::empty())
    } else {
        let (ws, cur) = words_acc(s.drop_last());
        if is_ws(s.last()) {
            if cur.len() > 0 {
                (ws.push(cur), Seq::empty())
            } else {
                (ws, Seq::empty())
            }
        } else {
            (ws, cur.push(s.last()))
        }
    }
}

/// `str::split_whitespace`: the maximal runs of non-whitespace characters.
pub open spec fn words(s: Seq<char>) -> Seq<Seq<char>> {
    let (ws, cur) = words_acc(s);
    if cur.len() > 0 {
        ws.push(cur)
    } else {
        ws
    }
}

/// A parsed search query: free text for full-text search plus structured filters.
#[derive(Debug, Clone, PartialEq, Eq, Default)]
pub struct SearchQuery {
    pub text: String,
    pub tags: Vec<String>,
    pub paths: Vec<String>,
    pub has: Vec<String>,
}

/// What a query's words are read as, word by word: `(text, tags, paths, has)`.
pub open spec fn query_parts(ws: Seq<Seq<char>>) -> (Seq<Seq<char>>, Seq<Seq<char>>, Seq<Seq<char>>, Seq<Seq<char>>)
    decreases ws.len(),
{
    if ws.len() == 0 {
        (Seq::empty(), Seq::empty(), Seq::empty(), Seq::empty())
    } else {
        let (t, g, p, h) = query_parts(ws.drop_last());
        let w = ws.last();
        match strip_prefix(w, "tag:"@) {
            Some(x) => (t, g.push(unicode_lower(strip_set(trim_start_pat(x, "#"@), seq!['/']))), p, h),
            None => match strip_prefix(w, "path:"@) {
                Some(x) => (t, g, p.push(trim_start_pat(x, "/"@)), h),
                None => match strip_prefix(w, "has:"@) {
                    Some(x) => (t, g, p, h.push(unicode_lower(x))),
                    None => (t.push(w), g, p, h),
                },
            },
        }
    }
}

/// The texts of a list of strings.
pub open spec fn views(v: Seq<String>) -> Seq<Seq<char>> {
    v.map_values(|s: String| s@)
}

pub(crate) fn split_whitespace(s: &[char]) -> (r: Vec<Vec<char>>)
    ensures
        r@.map_values(|v: Vec<char>| v@) == words(s@),
{
    let mut ws: Vec<Vec<char>> = Vec::new();
    let mut cur: Vec<char> = Vec::new();
    let mut i: usize = 0;
    while i < s.len()
        invariant
            i <= s@.len(),
            (ws@.map_values(|v: Vec<char>| v@), cur@) == words_acc(s@.take(i as int)),
        decreases s@.len() - i,
    {
        proof {
            assert(s@.take(i + 1).drop_last() =~= s@.take(i as int));
            assert(s@.take(i + 1).last() == s@[i as int]);
        }
        let ghost w0 = ws@.map_values(|v: Vec<char>| v@);
        if crate::text::is_ws_exec(s[i]) {
            if cur.len() > 0 {
                let done = cur;
                cur = Vec::new();
                ws.push(done);
                proof {
                    assert(ws@.map_values(|v: Vec<char>| v@) =~= w0.push(done@));
                }
            } else {
                cur = Vec::new();
            }
            proof {
                assert(cur@ =~= Seq::<char>::empty());
            }
        } else {
            cur.push(s[i]);
        }
        i += 1;
    }
    proof {
        assert(s@.take(s@.len() as int) =~= s@);
    }
    if cur.len() > 0 {
        let ghost w0 = ws@.map_values(|v: Vec<char>| v@);
        ws.push(cur);
        proof {
            assert(ws@.map_values(|v: Vec<char>| v@) =~= w0.push(cur@));
        }
    }
    ws
}

impl SearchQuery {
    /// A query's words: `tag:` (without `#`, slashes trimmed, lowercased), `path:` (without
    /// leading slashes) and `has:` (lowercased) words are filters; the other words, joined by
    /// spaces, are the text.
    pub fn parse(query: &str) -> (r: SearchQuery)
        ensures
            ({
                let (t, g, p, h) = query_parts(words(query@));
                &&& r.text@ == join(t, " "@)
                &&& views(r.tags@) == g
                &&& views(r.paths@) == p
                &&& views(r.has@) == h
            }),
    {
        let ws = split_whitespace(&chars_of(query));
        let ghost wv = ws@.map_values(|v: Vec<char>| v@);
        let mut text: Vec<Vec<char>> = Vec::new();
        let mut tags: Vec<String> = Vec::new();
        let mut paths: Vec<String> = Vec::new();
        let mut has: Vec<String> = Vec::new();
        let tag = chars_of("tag:");
        let path = chars_of("path:");
        let hs = chars_of("has:");
        let mut i: usize = 0;
        while i < ws.len()
            invariant
                i <= ws@.len(),
                wv == ws@.map_values(|v: Vec<char>| v@),
                tag@ == "tag:"@,
                path@ == "path:"@,
                hs@ == "has:"@,
                (text@.map_values(|v: Vec<char>| v@), views(tags@), views(paths@), views(has@)) == query_parts(
                    wv.take(i as int),
                ),
            decreases ws@.len() - i,
        {
            proof {
                assert(wv.take(i + 1).drop_last() =~= wv.take(i as int));
                assert(wv.take(i + 1).last() == ws@[i as int]@);
            }
            let ghost t0 = text@.map_values(|v: Vec<char>| v@);
            let ghost g0 = views(tags@);
            let ghost p0 = views(paths@);
            let ghost h0 = views(has@);
            let w = &ws[i];
            if crate::text::starts_with_exec(w, &tag) {
                proof {
                    assert(crate::text::is_at(w@, tag@, 0));
                }
                let x = crate::text::slice(w, tag.len(), w.len());
                let y = strip_set_exec(&trim_start_pat_exec(&x, &chars_of("#")), &chars_of("/"));
                let low = to_lowercase(string_of(&y).as_str());
                tags.push(low);
                proof {
                    assert(x@ =~= w@.skip(tag@.len() as int));
                    assert(views(tags@) =~= g0.push(low@));
                    assert(seq!['/'] =~= "/"@) by {
                        reveal_strlit("/");
                    }
                }
            } else if crate::text::starts_with_exec(w, &path) {
                proof {
                    assert(crate::text::is_at(w@, path@, 0));
                }
                let x = crate::text::slice(w, path.len(), w.len());
                let y = string_of(&trim_start_pat_exec(&x, &chars_of("/")));
                paths.push(y);
                proof {
                    assert(x@ =~= w@.skip(path@.len() as int));
                    assert(views(paths@) =~= p0.push(y@));
                }
            } else if crate::text::starts_with_exec(w, &hs) {
                proof {
                    assert(crate::text::is_at(w@, hs@, 0));
                }
                let x = crate::text::slice(w, hs.len(), w.len());
                let low = to_lowercase(string_of(&x).as_str());
                has.push(low);
                proof {
                    assert(x@ =~= w@.skip(hs@.len() as int));
                    assert(views(has@) =~= h0.push(low@));
                }
            } else {
                text.push(crate::text::slice(w, 0, w.len()));
                proof {
                    assert(w@.subrange(0, w@.len() as int) =~= w@);
                    assert(text@.map_values(|v: Vec<char>| v@) =~= t0.push(w@));
                }
            }
            i += 1;
        }
        proof {
            assert(wv.take(ws@.len() as int) =~= wv);
        }
        let joined = join_exec(&text, &chars_of(" "));
        SearchQuery { text: string_of(&joined), tags, paths, has }
    }
}

// ---- Snapshots and pruning -------------------------------------------------------------------

/// Snapshot and pruning policy. Defaults: snapshot every 500 updates or 10 minutes, keep raw
/// updates for 90 days.
#[derive(Debug, Clone, PartialEq, Eq)]
pub struct RetentionPolicy {
    pub snapshot_every_updates: u32,
    /// Milliseconds.
    pub snapshot_interval_ms: u64,
    /// Milliseconds.
    pub retain_updates_ms: u64,
}

impl Default for RetentionPolicy {
    fn default() -> (r: Self)
        ensures
            r.snapshot_every_updates == 500,
            r.snapshot_interval_ms == 600_000,
            r.retain_updates_ms == 7_776_000_000,
    {
        RetentionPolicy {
            snapshot_every_updates: 500,
            snapshot_interval_ms: 10 * 60 * 1000,
            retain_updates_ms: 90 * 24 * 60 * 60 * 1000,
        }
    }
}

/// What one maintenance pass did.
#[derive(Debug, Clone, PartialEq, Eq)]
pub struct Maintenance {
    pub snapshotted: bool,
    pub pruned_updates: usize,
    pub pruned_snapshots: usize,
}

impl Default for Maintenance {
    fn default() -> (r: Self)
        ensures
            !r.snapshotted,
            r.pruned_updates == 0,
            r.pruned_snapshots == 0,
    {
        Maintenance { snapshotted: false, pruned_updates: 0, pruned_snapshots: 0 }
    }
}

/// A document is snapshotted when updates are pending since its last snapshot and there are
/// enough of them, or the oldest is older than the interval.
pub open spec fn snapshot_due_spec(pending: int, oldest_ms: Option<i64>, now_ms: int, policy: RetentionPolicy) -> bool {
    pending > 0 && (pending >= policy.snapshot_every_updates || match oldest_ms {
        Some(t) => now_ms - t >= policy.snapshot_interval_ms,
        None => false,
    })
}

/// Whether a maintenance pass writes a snapshot, from the updates since the last snapshot: how
/// many, and when the oldest was written.
pub fn snapshot_due(pending: i64, oldest_ms: Option<i64>, now_ms: i64, policy: &RetentionPolicy) -> (r: bool)
    ensures
        r == snapshot_due_spec(pending as int, oldest_ms, now_ms as int, *policy),
{
    if pending <= 0 {
        return false;
    }
    if pending >= policy.snapshot_every_updates as i64 {
        return true;
    }
    match oldest_ms {
        Some(t) => (now_ms as i128) - (t as i128) >= policy.snapshot_interval_ms as i128,
        None => false,
    }
}

/// The time before which history may be pruned: the retention period before now.
pub fn prune_cutoff(now_ms: i64, policy: &RetentionPolicy) -> (r: i128)
    ensures
        r == now_ms - policy.retain_updates_ms,
{
    (now_ms as i128) - (policy.retain_updates_ms as i128)
}

/// Milliseconds since the Unix epoch, from the system clock (0 for a clock set before it).
#[verifier::external_body]
pub fn now_ms() -> i64 {
    std::time::SystemTime::now().duration_since(std::time::UNIX_EPOCH).map(|d| d.as_millis() as i64).unwrap_or(0)
}

// ---- Rows ------------------------------------------------------------------------------------

#[derive(Debug, Clone, PartialEq, Eq)]
pub struct NoteShareRow {
    pub user_id: Option<String>,
    pub email: Option<String>,
    pub token_hash: Option<String>,
    pub role: Role,
    pub expires_ms: Option<i64>,
}

#[derive(Debug, Clone, PartialEq, Eq)]
pub struct VersionRow {
    pub seq: i64,
    pub created_ms: i64,
    pub label: Option<String>,
    pub author: Option<String>,
}

#[derive(Debug, Clone, PartialEq, Eq)]
pub struct AttachmentRow {
    pub hash: String,
    pub size: u64,
    pub mime: String,
    pub filename_hint: Option<String>,
}

#[derive(Debug, Clone, PartialEq, Eq)]
pub struct UserRow {
    pub id: String,
    pub email: String,
    pub display_name: String,
    pub password_hash: Option<String>,
    pub is_admin: bool,
}

#[derive(Debug, Clone, PartialEq, Eq)]
pub struct NoteRow {
    pub id: NoteId,
    pub vault_id: VaultId,
    pub path: String,
    pub title: Option<String>,
}

} // verus!
