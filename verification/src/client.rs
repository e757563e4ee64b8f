//! The decisions of the client sync engine: the server's WebSocket and REST addresses, the
//! connection loop (reconnecting with back-off, finishing a one-shot sync once the engine has
//! been idle long enough), what a touched path means, and how two notes claiming one path are
//! told apart so that every replica converges on the same names.
//!
//! The engine itself (the documents, the sidecar store, the sockets) drives these: it performs
//! what they decide and hands back what happened.
use vstd::prelude::*;
use crate::credentials::{key, key_spec};
use crate::error::Error;
use crate::ids::{NoteId, VaultId};
use crate::numfmt::{dec, fmt_int, fmt_u64};
use crate::text::{
    append, chars_of, ends_with, ends_with_exec, is_at, join_strs, lemma_rfind_before, rfind,
    rfind_char, slice, starts_with, starts_with_exec, string_of, strip_prefix,
};

verus! {

/// How a sync run is set up.
#[derive(Debug, Clone)]
pub struct SyncOptions {
    pub vault_dir: String,
    /// `http://host:port` or `https://host:port`; `/ws` is appended.
    pub server_url: String,
    /// Required to join an existing vault into an empty directory; otherwise taken from the
    /// sidecar, or generated for a brand-new vault.
    pub vault_id: Option<VaultId>,
    /// Reconcile, exchange updates until both sides are quiet, then return.
    pub once: bool,
    /// PEM file of a private CA to trust for `wss://` / `https://` instead of the public roots.
    pub ca_cert: Option<String>,
}

/// What a finished sync run reports.
#[derive(Debug, Clone, PartialEq, Eq)]
pub struct SyncReport {
    pub vault_id: VaultId,
    pub notes: usize,
}

// ---- Server addresses ------------------------------------------------------------------------

/// The message for a server URL of no known scheme.
pub open spec fn bad_url_message(server: Seq<char>) -> Seq<char> {
    "server url must start with http(s):// or ws(s)://, got "@ + server
}

/// The WebSocket address before `/ws` is made sure of.
pub open spec fn ws_base(server: Seq<char>) -> Option<Seq<char>> {
    let base = crate::text::trim_end_pat(server, "/"@);
    match strip_prefix(base, "https://"@) {
        Some(rest) => Some("wss://"@ + rest),
        None => match strip_prefix(base, "http://"@) {
            Some(rest) => Some("ws://"@ + rest),
            None => if starts_with(base, "ws://"@) || starts_with(base, "wss://"@) {
                Some(base)
            } else {
                None
            },
        },
    }
}

/// `ws(s)://host[:port]/ws` for whatever URL form was given.
pub open spec fn ws_url_spec(server: Seq<char>) -> Option<Seq<char>> {
    match ws_base(server) {
        Some(ws) => Some(
            if ends_with(ws, "/ws"@) {
                ws
            } else {
                ws + "/ws"@
            },
        ),
        None => None,
    }
}

/// `http(s)://host[:port]` for whatever URL form was given.
pub open spec fn http_url_spec(server: Seq<char>) -> Option<Seq<char>> {
    let base = key_spec(server);
    if starts_with(base, "http://"@) || starts_with(base, "https://"@) {
        Some(base)
    } else {
        match strip_prefix(base, "wss://"@) {
            Some(rest) => Some("https://"@ + rest),
            None => match strip_prefix(base, "ws://"@) {
                Some(rest) => Some("http://"@ + rest),
                None => None,
            },
        }
    }
}

fn lit(s: &str) -> (r: Vec<char>)
    ensures
        r@ == s@,
{
    chars_of(s)
}

/// `p + rest` when `s` starts with `pre`.
fn swap_prefix(s: &[char], pre: &str, p: &str) -> (r: Option<Vec<char>>)
    ensures
        match strip_prefix(s@, pre@) {
            Some(rest) => r is Some && r->0@ == p@ + rest,
            None => r is None,
        },
{
    let pre = lit(pre);
    if starts_with_exec(s, &pre) {
        let n = s.len();
        proof {
            assert(is_at(s@, pre@, 0));
        }
        let rest = slice(s, pre.len(), n);
        Some(crate::text::concat(&lit(p), &rest))
    } else {
        None
    }
}

/// The sync socket's address: `ws(s)://host[:port]/ws`.
pub fn ws_url(server: &str) -> (r: Result<String, Error>)
    ensures
        match ws_url_spec(server@) {
            Some(u) => r matches Ok(s) && s@ == u,
            None => r matches Err(Error::Sync(m)) && m@ == bad_url_message(server@),
        },
{
    let base = crate::text::trim_end_pat_exec(&chars_of(server), &lit("/"));
    let ws = match swap_prefix(&base, "https://", "wss://") {
        Some(w) => w,
        None => match swap_prefix(&base, "http://", "ws://") {
            Some(w) => w,
            None => {
                if starts_with_exec(&base, &lit("ws://")) || starts_with_exec(&base, &lit("wss://")) {
                    base
                } else {
                    return Err(
                        Error::Sync(
                            join_strs("server url must start with http(s):// or ws(s)://, got ", server),
                        ),
                    );
                }
            },
        },
    };
    if ends_with_exec(&ws, &lit("/ws")) {
        Ok(string_of(&ws))
    } else {
        let mut w = ws;
        append(&mut w, &lit("/ws"));
        Ok(string_of(&w))
    }
}

/// `http(s)://host[:port]` base for the REST API, derived from whatever URL form was given.
pub fn http_url(server: &str) -> (r: Result<String, Error>)
    ensures
        match http_url_spec(server@) {
            Some(u) => r matches Ok(s) && s@ == u,
            None => r matches Err(Error::Sync(m)) && m@ == bad_url_message(server@),
        },
{
    let base = chars_of(key(server).as_str());
    if starts_with_exec(&base, &lit("http://")) || starts_with_exec(&base, &lit("https://")) {
        return Ok(string_of(&base));
    }
    match swap_prefix(&base, "wss://", "https://") {
        Some(u) => Ok(string_of(&u)),
        None => match swap_prefix(&base, "ws://", "http://") {
            Some(u) => Ok(string_of(&u)),
            None => Err(
                Error::Sync(join_strs("server url must start with http(s):// or ws(s)://, got ", server)),
            ),
        },
    }
}

// ---- Numbered names --------------------------------------------------------------------------

/// `Projects/a.md` + 2 → `Projects/a (2).md`; a path with no extension (or a dot file) gets the
/// number at its end.
pub open spec fn suffixed_spec(path: Seq<char>, n: nat) -> Seq<char> {
    match rfind(path, seq!['.']) {
        Some(i) => if i > 0 && !ends_with(path.take(i), "/"@) {
            path.take(i) + " ("@ + dec(n) + ")."@ + path.skip(i + 1)
        } else {
            path + " ("@ + dec(n) + ")"@
        },
        None => path + " ("@ + dec(n) + ")"@,
    }
}

/// `Projects/a.md` + 2 → `Projects/a (2).md`
pub fn suffixed(path: &str, n: u32) -> (r: String)
    ensures
        r@ == suffixed_spec(path@, n as nat),
{
    string_of(&suffixed_chars(&chars_of(path), n))
}

fn suffixed_chars(p: &[char], n: u32) -> (r: Vec<char>)
    ensures
        r@ == suffixed_spec(p@, n as nat),
{
    let len = p.len();
    proof {
        lemma_rfind_before(p@, seq!['.'], p@.len() + 1int);
    }
    let num = fmt_u64(n as u64);
    proof {
        crate::numfmt::lemma_dec_len(n as nat);
        assert(num@ =~= dec(n as nat));
    }
    match rfind_char(p, '.') {
        Some(i) => {
            assert(is_at(p@, seq!['.'], i as int));
            let stem = slice(p, 0, i);
            if i > 0 && !ends_with_exec(&stem, &lit("/")) {
                let mut out = stem;
                append(&mut out, &lit(" ("));
                append(&mut out, &num);
                append(&mut out, &lit(")."));
                append(&mut out, &slice(p, i + 1, len));
                proof {
                    assert(p@.take(i as int) =~= p@.subrange(0, i as int));
                    assert(p@.skip(i + 1) =~= p@.subrange(i + 1, len as int));
                }
                return out;
            }
        },
        None => {},
    }
    let mut out = slice(p, 0, len);
    append(&mut out, &lit(" ("));
    append(&mut out, &num);
    append(&mut out, &lit(")"));
    proof {
        assert(p@.subrange(0, len as int) =~= p@);
    }
    out
}

// ---- What a touched path means ---------------------------------------------------------------

/// What to do with a path the watcher reported, decided from the disk as it is now (renames
/// arrive as two events, editors write via temp files, and events coalesce anyway).
#[derive(Debug, Clone, Copy, PartialEq, Eq)]
pub enum PathChange {
    /// A known note's file changed: ingest the edit.
    Edit(NoteId),
    /// A new file: a new note, or the second half of a rename.
    Create,
    /// A known note's file is gone: a removal, unless a create with its content follows.
    Remove,
    /// Nothing to do.
    Nothing,
}

/// The change a path stands for, from whether its file exists and which note holds the path.
pub fn path_change(exists: bool, known: Option<NoteId>) -> (r: PathChange)
    ensures
        r == match (exists, known) {
            (true, Some(id)) => PathChange::Edit(id),
            (true, None) => PathChange::Create,
            (false, Some(_)) => PathChange::Remove,
            (false, None) => PathChange::Nothing,
        },
{
    match (exists, known) {
        (true, Some(id)) => PathChange::Edit(id),
        (true, None) => PathChange::Create,
        (false, Some(_)) => PathChange::Remove,
        (false, None) => PathChange::Nothing,
    }
}

// ---- The connection loop ---------------------------------------------------------------------

/// The first wait before reconnecting, in milliseconds.
pub const RECONNECT_MIN_MS: u64 = 1000;
/// The longest wait before reconnecting, in milliseconds.
pub const RECONNECT_MAX_MS: u64 = 30000;
/// How long a one-shot run must have been idle before it finishes, in milliseconds (the
/// filesystem debounce).
pub const FS_DEBOUNCE_MS: u64 = 300;

/// What happened since the loop last decided.
#[derive(Debug, Clone, PartialEq, Eq)]
pub enum LinkEvent {
    /// The socket is open.
    Connected,
    /// Connecting failed, with the error's text.
    ConnectFailed(String),
    /// The socket closed or failed.
    Closed,
    /// The periodic tick, after the engine's own periodic work, while connected: the time,
    /// and whether the engine is idle (connected, every handshake done, nothing pending).
    Tick { now_ms: u64, idle: bool },
    /// The engine hit a failure that a one-shot run must report.
    Fatal(String),
}

/// What the loop does next.
#[derive(Debug, Clone, PartialEq, Eq)]
pub enum LinkAction {
    /// Keep going.
    Continue,
    /// In sync: stop and report.
    Finish,
    /// Stop with this error.
    Fail(String),
    /// Stay offline (still projecting local edits) this long, then connect again.
    Retry { wait_ms: u64 },
}

/// The connection loop's state.
#[derive(Debug, Clone)]
pub struct LinkState {
    pub once: bool,
    pub ws_url: String,
    pub backoff_ms: u64,
    /// In a one-shot run, since when the engine has been idle.
    pub idle_since: Option<u64>,
}

/// The wait after this one: doubled, up to the maximum.
pub open spec fn next_backoff(b: u64) -> u64 {
    if 2 * b <= RECONNECT_MAX_MS {
        (2 * b) as u64
    } else {
        RECONNECT_MAX_MS
    }
}

/// `cannot connect to <url>: <error>`.
pub open spec fn connect_failed_message(url: Seq<char>, e: Seq<char>) -> Seq<char> {
    "cannot connect to "@ + url + ": "@ + e
}

/// What a one-shot run answers when the connection drops before it is in sync.
pub open spec fn lost_message() -> Seq<char> {
    "connection lost before sync completed"@
}

/// What the loop does on an event, and the state it moves to.
pub open spec fn link_step(old: LinkState, new: LinkState, ev: LinkEvent, r: LinkAction) -> bool {
    match ev {
        LinkEvent::Connected => r == LinkAction::Continue && new.backoff_ms == RECONNECT_MIN_MS
            && new.idle_since is None,
        LinkEvent::Fatal(m) => r == LinkAction::Fail(m) && new.backoff_ms == old.backoff_ms,
        LinkEvent::Tick { now_ms, idle } => new.backoff_ms == old.backoff_ms && if !old.once {
            r == LinkAction::Continue && new.idle_since == old.idle_since
        } else if !idle {
            r == LinkAction::Continue && new.idle_since is None
        } else {
            let since = match old.idle_since {
                Some(s) => s,
                None => now_ms,
            };
            new.idle_since == Some(since) && r == if now_ms >= since && now_ms - since >= FS_DEBOUNCE_MS {
                LinkAction::Finish
            } else {
                LinkAction::Continue
            }
        },
        LinkEvent::Closed => if old.once {
            r matches LinkAction::Fail(m) && m@ == lost_message()
        } else {
            r == LinkAction::Retry { wait_ms: old.backoff_ms } && new.backoff_ms == next_backoff(old.backoff_ms)
        },
        LinkEvent::ConnectFailed(e) => if old.once {
            r matches LinkAction::Fail(m) && m@ == connect_failed_message(old.ws_url@, e@)
        } else {
            r == LinkAction::Retry { wait_ms: old.backoff_ms } && new.backoff_ms == next_backoff(old.backoff_ms)
        },
    }
}

impl LinkState {
    /// The back-off starts at its minimum, and nothing has been idle yet.
    pub fn new(once: bool, ws_url: String) -> (r: LinkState)
        ensures
            r.once == once,
            r.ws_url@ == ws_url@,
            r.backoff_ms == RECONNECT_MIN_MS,
            r.idle_since is None,
    {
        LinkState { once, ws_url, backoff_ms: RECONNECT_MIN_MS, idle_since: None }
    }

    /// The loop's decision on an event, and its new state.
    pub fn on_event(&mut self, ev: LinkEvent) -> (r: LinkAction)
        requires
            old(self).backoff_ms <= RECONNECT_MAX_MS,
        ensures
            final(self).once == old(self).once,
            final(self).ws_url@ == old(self).ws_url@,
            final(self).backoff_ms <= RECONNECT_MAX_MS,
            link_step(*old(self), *final(self), ev, r),
    {
        match ev {
            LinkEvent::Connected => {
                self.backoff_ms = RECONNECT_MIN_MS;
                self.idle_since = None;
                LinkAction::Continue
            },
            LinkEvent::Fatal(m) => LinkAction::Fail(m),
            LinkEvent::Tick { now_ms, idle } => {
                if !self.once {
                    LinkAction::Continue
                } else if !idle {
                    self.idle_since = None;
                    LinkAction::Continue
                } else {
                    let since = match self.idle_since {
                        Some(s) => s,
                        None => now_ms,
                    };
                    self.idle_since = Some(since);
                    if now_ms >= since && now_ms - since >= FS_DEBOUNCE_MS {
                        LinkAction::Finish
                    } else {
                        LinkAction::Continue
                    }
                }
            },
            LinkEvent::Closed => {
                if self.once {
                    LinkAction::Fail("connection lost before sync completed".to_owned())
                } else {
                    self.retry()
                }
            },
            LinkEvent::ConnectFailed(e) => {
                if self.once {
                    let a = join_strs("cannot connect to ", self.ws_url.as_str());
                    let b = join_strs(a.as_str(), ": ");
                    LinkAction::Fail(join_strs(b.as_str(), e.as_str()))
                } else {
                    self.retry()
                }
            },
        }
    }

    fn retry(&mut self) -> (r: LinkAction)
        requires
            old(self).backoff_ms <= RECONNECT_MAX_MS,
        ensures
            r == (LinkAction::Retry { wait_ms: old(self).backoff_ms }),
            final(self).backoff_ms == next_backoff(old(self).backoff_ms),
            final(self).backoff_ms <= RECONNECT_MAX_MS,
            final(self).once == old(self).once,
            final(self).ws_url@ == old(self).ws_url@,
            final(self).idle_since == old(self).idle_since,
    {
        let wait = self.backoff_ms;
        self.backoff_ms = if wait <= RECONNECT_MAX_MS / 2 {
            wait * 2
        } else {
            RECONNECT_MAX_MS
        };
        LinkAction::Retry { wait_ms: wait }
    }
}


// ---- Two notes claiming one path -------------------------------------------------------------

/// A path is held by another note than `id` among the notes this replica holds.
pub open spec fn held_by_other(local: Seq<(NoteId, String)>, id: NoteId, c: Seq<char>) -> bool {
    exists|k: int| 0 <= k < local.len() && (#[trigger] local[k]).1@ == c && local[k].0 != id
}

/// A numbered name cannot be taken: a note already given it, or one held here under it.
pub open spec fn blocked(seen: Map<Seq<char>, NoteId>, local: Seq<(NoteId, String)>, id: NoteId, c: Seq<char>) -> bool {
    seen.dom().contains(c) || held_by_other(local, id, c)
}

/// The first number from `n` on whose name is free (the search stops at `u32::MAX`).
pub open spec fn first_free(
    seen: Map<Seq<char>, NoteId>,
    local: Seq<(NoteId, String)>,
    id: NoteId,
    path: Seq<char>,
    n: nat,
) -> nat
    decreases u32::MAX - n,
{
    if n >= u32::MAX || !blocked(seen, local, id, suffixed_spec(path, n)) {
        n
    } else {
        first_free(seen, local, id, path, n + 1)
    }
}

/// The new name of an entry whose path an earlier entry (another note) already claimed: the
/// path numbered with the first free number from 2 on; `None` when the path is its own.
pub open spec fn renamed_to(seen: Map<Seq<char>, NoteId>, local: Seq<(NoteId, String)>, id: NoteId, path: Seq<char>) -> Option<
    Seq<char>,
> {
    if seen.dom().contains(path) && seen[path] != id {
        Some(suffixed_spec(path, first_free(seen, local, id, path, 2)))
    } else {
        None
    }
}

/// The path an entry ends with.
pub open spec fn final_path(seen: Map<Seq<char>, NoteId>, local: Seq<(NoteId, String)>, id: NoteId, path: Seq<char>) -> Seq<
    char,
> {
    match renamed_to(seen, local, id, path) {
        Some(c) => c,
        None => path,
    }
}

/// The paths claimed by the first `i` entries, and by whom.
pub open spec fn seen_after(entries: Seq<(NoteId, String)>, local: Seq<(NoteId, String)>, i: int) -> Map<
    Seq<char>,
    NoteId,
>
    decreases i,
{
    if i <= 0 {
        Map::empty()
    } else {
        let s = seen_after(entries, local, i - 1);
        let e = entries[i - 1];
        s.insert(final_path(s, local, e.0, e.1@), e.0)
    }
}

/// Entry `i`'s rename, in order: the earlier entries keep or take their paths first.
pub open spec fn rename_of(entries: Seq<(NoteId, String)>, local: Seq<(NoteId, String)>, i: int) -> Option<Seq<char>> {
    renamed_to(seen_after(entries, local, i), local, entries[i].0, entries[i].1@)
}

/// Where entry `i` ends up.
pub open spec fn final_of(entries: Seq<(NoteId, String)>, local: Seq<(NoteId, String)>, i: int) -> Seq<char> {
    final_path(seen_after(entries, local, i), local, entries[i].0, entries[i].1@)
}

/// The claimed paths as a list: each path once, with the note that claimed it.
pub open spec fn seen_map(v: Seq<(String, NoteId)>) -> Map<Seq<char>, NoteId> {
    Map::new(
        |k: Seq<char>| exists|j: int| 0 <= j < v.len() && (#[trigger] v[j]).0@ == k,
        |k: Seq<char>| v[choose|j: int| 0 <= j < v.len() && (#[trigger] v[j]).0@ == k].1,
    )
}

pub open spec fn keys_distinct(v: Seq<(String, NoteId)>) -> bool {
    forall|a: int, b: int| 0 <= a < b < v.len() ==> (#[trigger] v[a]).0@ != (#[trigger] v[b]).0@
}

fn seen_find(seen: &Vec<(String, NoteId)>, c: &[char]) -> (r: Option<usize>)
    ensures
        match r {
            Some(j) => j < seen@.len() && seen@[j as int].0@ == c@,
            None => forall|j: int| 0 <= j < seen@.len() ==> (#[trigger] seen@[j]).0@ != c@,
        },
{
    let mut j: usize = 0;
    while j < seen.len()
        invariant
            j <= seen@.len(),
            forall|k: int| 0 <= k < j ==> (#[trigger] seen@[k]).0@ != c@,
        decreases seen@.len() - j,
    {
        if crate::text::eq(&chars_of(seen[j].0.as_str()), c) {
            return Some(j);
        }
        j += 1;
    }
    None
}

proof fn lemma_seen_map_at(v: Seq<(String, NoteId)>, j: int)
    requires
        keys_distinct(v),
        0 <= j < v.len(),
    ensures
        seen_map(v).dom().contains(v[j].0@),
        seen_map(v)[v[j].0@] == v[j].1,
{
    let k = v[j].0@;
    assert(seen_map(v).dom().contains(k));
    let c = choose|i: int| 0 <= i < v.len() && (#[trigger] v[i]).0@ == k;
    if c != j {
        if c < j {
            assert(v[c].0@ != v[j].0@);
        } else {
            assert(v[j].0@ != v[c].0@);
        }
    }
}

/// `seen[c] = id`, keeping each path once.
fn seen_insert(seen: &mut Vec<(String, NoteId)>, c: Vec<char>, id: NoteId)
    requires
        keys_distinct(old(seen)@),
    ensures
        keys_distinct(final(seen)@),
        seen_map(final(seen)@) == seen_map(old(seen)@).insert(c@, id),
{
    let ghost before = seen@;
    let found = seen_find(seen, &c);
    match found {
        Some(j) => {
            let path = string_of(&c);
            seen.set(j, (path, id));
            proof {
                let after = seen@;
                assert(after =~= before.update(j as int, (path, id)));
                assert forall|a: int, b: int| 0 <= a < b < after.len() implies (#[trigger] after[a]).0@
                    != (#[trigger] after[b]).0@ by {
                    if a != j as int && b != j as int {
                        assert(after[a] == before[a] && after[b] == before[b]);
                    } else if a == j as int {
                        assert(after[b] == before[b]);
                    } else {
                        assert(after[a] == before[a]);
                    }
                }
                assert forall|k: Seq<char>| #[trigger] seen_map(after).dom().contains(k) == seen_map(before).insert(
                    c@,
                    id,
                ).dom().contains(k) by {
                    if seen_map(after).dom().contains(k) {
                        let w = choose|i: int| 0 <= i < after.len() && (#[trigger] after[i]).0@ == k;
                        if w != j as int {
                            assert(before[w].0@ == k);
                        }
                    }
                    if seen_map(before).dom().contains(k) {
                        let w = choose|i: int| 0 <= i < before.len() && (#[trigger] before[i]).0@ == k;
                        if w != j as int {
                            assert(after[w].0@ == k);
                        } else {
                            assert(after[j as int].0@ == k);
                        }
                    }
                    if k == c@ {
                        assert(after[j as int].0@ == k);
                    }
                }
                assert forall|k: Seq<char>| #[trigger] seen_map(after).dom().contains(k) implies seen_map(after)[k]
                    == seen_map(before).insert(c@, id)[k] by {
                    let w = choose|i: int| 0 <= i < after.len() && (#[trigger] after[i]).0@ == k;
                    lemma_seen_map_at(after, w);
                    if w != j as int {
                        lemma_seen_map_at(before, w);
                        assert(after[w] == before[w]);
                    }
                }
                assert(seen_map(after) =~= seen_map(before).insert(c@, id));
            }
        },
        None => {
            let path = string_of(&c);
            seen.push((path, id));
            proof {
                let after = seen@;
                assert(after =~= before.push((path, id)));
                let n = before.len() as int;
                assert forall|a: int, b: int| 0 <= a < b < after.len() implies (#[trigger] after[a]).0@
                    != (#[trigger] after[b]).0@ by {
                    if b < n {
                        assert(after[a] == before[a] && after[b] == before[b]);
                    } else {
                        assert(after[a] == before[a]);
                    }
                }
                assert forall|k: Seq<char>| #[trigger] seen_map(after).dom().contains(k) == seen_map(before).insert(
                    c@,
                    id,
                ).dom().contains(k) by {
                    if seen_map(after).dom().contains(k) {
                        let w = choose|i: int| 0 <= i < after.len() && (#[trigger] after[i]).0@ == k;
                        if w < n {
                            assert(before[w].0@ == k);
                        }
                    }
                    if seen_map(before).dom().contains(k) {
                        let w = choose|i: int| 0 <= i < before.len() && (#[trigger] before[i]).0@ == k;
                        assert(after[w].0@ == k);
                    }
                    if k == c@ {
                        assert(after[n].0@ == k);
                    }
                }
                assert forall|k: Seq<char>| #[trigger] seen_map(after).dom().contains(k) implies seen_map(after)[k]
                    == seen_map(before).insert(c@, id)[k] by {
                    let w = choose|i: int| 0 <= i < after.len() && (#[trigger] after[i]).0@ == k;
                    lemma_seen_map_at(after, w);
                    if w < n {
                        lemma_seen_map_at(before, w);
                        assert(after[w] == before[w]);
                    }
                }
                assert(seen_map(after) =~= seen_map(before).insert(c@, id));
            }
        },
    }
}

fn held_by_other_exec(local: &[(NoteId, String)], id: NoteId, c: &[char]) -> (r: bool)
    ensures
        r == held_by_other(local@, id, c@),
{
    let mut k: usize = 0;
    while k < local.len()
        invariant
            k <= local@.len(),
            forall|j: int| 0 <= j < k ==> !((#[trigger] local@[j]).1@ == c@ && local@[j].0 != id),
        decreases local@.len() - k,
    {
        if local[k].0.0 != id.0 && crate::text::eq(&chars_of(local[k].1.as_str()), c) {
            return true;
        }
        k += 1;
    }
    false
}

fn blocked_exec(seen: &Vec<(String, NoteId)>, local: &[(NoteId, String)], id: NoteId, c: &[char]) -> (r: bool)
    requires
        keys_distinct(seen@),
    ensures
        r == blocked(seen_map(seen@), local@, id, c@),
{
    match seen_find(seen, c) {
        Some(j) => {
            proof {
                lemma_seen_map_at(seen@, j as int);
            }
            true
        },
        None => {
            proof {
                if seen_map(seen@).dom().contains(c@) {
                    let w = choose|i: int| 0 <= i < seen@.len() && (#[trigger] seen@[i]).0@ == c@;
                    assert(seen@[w].0@ != c@);
                }
            }
            held_by_other_exec(local, id, c)
        },
    }
}

fn seen_get(seen: &Vec<(String, NoteId)>, c: &[char]) -> (r: Option<NoteId>)
    requires
        keys_distinct(seen@),
    ensures
        match r {
            Some(x) => seen_map(seen@).dom().contains(c@) && seen_map(seen@)[c@] == x,
            None => !seen_map(seen@).dom().contains(c@),
        },
{
    match seen_find(seen, c) {
        Some(j) => {
            proof {
                lemma_seen_map_at(seen@, j as int);
            }
            Some(seen[j].1)
        },
        None => {
            proof {
                if seen_map(seen@).dom().contains(c@) {
                    let w = choose|i: int| 0 <= i < seen@.len() && (#[trigger] seen@[i]).0@ == c@;
                    assert(seen@[w].0@ != c@);
                }
            }
            None
        },
    }
}

/// Path collisions in the vault doc's entries, resolved the way every replica resolves them:
/// in entry order, the first note to claim a path keeps it, and each later one takes the path
/// numbered with the first free number from 2 on, skipping names already claimed and names
/// other notes hold here. The result gives, for each entry, its new path or `None`.
pub fn collision_renames(entries: &[(NoteId, String)], local: &[(NoteId, String)]) -> (r: Vec<Option<String>>)
    ensures
        r@.len() == entries@.len(),
        forall|i: int|
            0 <= i < entries@.len() ==> crate::remote::opt_view(#[trigger] r@[i]) == rename_of(entries@, local@, i),
{
    let mut seen: Vec<(String, NoteId)> = Vec::new();
    let mut out: Vec<Option<String>> = Vec::new();
    let mut i: usize = 0;
    proof {
        assert(seen_map(seen@) =~= Map::<Seq<char>, NoteId>::empty());
    }
    while i < entries.len()
        invariant
            i <= entries@.len(),
            out@.len() == i,
            keys_distinct(seen@),
            seen_map(seen@) == seen_after(entries@, local@, i as int),
            forall|j: int| 0 <= j < i ==> crate::remote::opt_view(#[trigger] out@[j]) == rename_of(entries@, local@, j),
        decreases entries@.len() - i,
    {
        let id = entries[i].0;
        let path = chars_of(entries[i].1.as_str());
        let ghost s = seen_map(seen@);
        let claimed = seen_get(&seen, &path);
        let taken_by_other = match claimed {
            Some(w) => w.0 != id.0,
            None => false,
        };
        if taken_by_other {
            let mut n: u32 = 2;
            let mut cand = suffixed_chars(&path, n);
            while n < u32::MAX && blocked_exec(&seen, local, id, &cand)
                invariant
                    2 <= n <= u32::MAX,
                    keys_distinct(seen@),
                    seen_map(seen@) == s,
                    cand@ == suffixed_spec(path@, n as nat),
                    first_free(s, local@, id, path@, 2) == first_free(s, local@, id, path@, n as nat),
                decreases u32::MAX - n,
            {
                n += 1;
                cand = suffixed_chars(&path, n);
            }
            out.push(Some(string_of(&cand)));
            seen_insert(&mut seen, cand, id);
        } else {
            out.push(None);
            seen_insert(&mut seen, path, id);
        }
        proof {
            assert(entries@[i as int].1@ == path@);
            assert(seen_after(entries@, local@, i + 1) == s.insert(final_path(s, local@, id, path@), id));
        }
        i += 1;
    }
    out
}


// ---- Why every entry ends with a path of its own ---------------------------------------------

/// Different numbers have different decimal digits.
pub proof fn lemma_dec_injective(a: nat, b: nat)
    requires
        dec(a) == dec(b),
    ensures
        a == b,
    decreases a,
{
    crate::numfmt::lemma_dec_len(a);
    crate::numfmt::lemma_dec_len(b);
    if a < 10 && b < 10 {
        assert(dec(a)[0] == dec(b)[0]);
        assert(dec(a)[0] == crate::numfmt::digit_char(a as int));
        assert(dec(b)[0] == crate::numfmt::digit_char(b as int));
        assert((crate::numfmt::digit_char(a as int) as u32) == 48 + a);
        assert((crate::numfmt::digit_char(b as int) as u32) == 48 + b);
        assert(a == b);
    } else if a >= 10 && b >= 10 {
        crate::numfmt::lemma_dec_len(a / 10);
        crate::numfmt::lemma_dec_len(b / 10);
        assert(dec(a).last() == dec(b).last());
        assert(dec(a).last() == crate::numfmt::digit_char((a % 10) as int));
        assert(dec(b).last() == crate::numfmt::digit_char((b % 10) as int));
        assert((crate::numfmt::digit_char((a % 10) as int) as u32) == 48 + a % 10);
        assert((crate::numfmt::digit_char((b % 10) as int) as u32) == 48 + b % 10);
        assert(dec(a).drop_last() =~= dec(a / 10));
        assert(dec(b).drop_last() =~= dec(b / 10));
        lemma_dec_injective(a / 10, b / 10);
        assert(a % 10 == b % 10);
        assert(a == b);
    } else if a < 10 {
        crate::numfmt::lemma_dec_len(b / 10);
        assert(dec(b).len() == dec(b / 10).len() + 1);
    } else {
        crate::numfmt::lemma_dec_len(a / 10);
        assert(dec(a).len() == dec(a / 10).len() + 1);
    }
}

proof fn lemma_framed_injective(x: Seq<char>, y: Seq<char>, a: nat, b: nat)
    requires
        x + dec(a) + y == x + dec(b) + y,
    ensures
        a == b,
{
    let l = x.len() as int;
    assert((x + dec(a) + y).len() == (x + dec(b) + y).len());
    assert((x + dec(a) + y).subrange(l, l + dec(a).len()) =~= dec(a));
    assert((x + dec(b) + y).subrange(l, l + dec(b).len()) =~= dec(b));
    assert((x + dec(a)).len() == x.len() + dec(a).len());
    assert((x + dec(b)).len() == x.len() + dec(b).len());
    assert((x + dec(a) + y).len() == (x + dec(a)).len() + y.len());
    assert((x + dec(b) + y).len() == (x + dec(b)).len() + y.len());
    assert(dec(a).len() == dec(b).len());
    assert(dec(a) =~= dec(b));
    lemma_dec_injective(a, b);
}

/// Different numbers give different names.
pub proof fn lemma_suffixed_injective(path: Seq<char>, a: nat, b: nat)
    requires
        suffixed_spec(path, a) == suffixed_spec(path, b),
    ensures
        a == b,
{
    match rfind(path, seq!['.']) {
        Some(i) => if i > 0 && !ends_with(path.take(i), "/"@) {
            let x = path.take(i) + " ("@;
            let y = ")."@ + path.skip(i + 1);
            assert(suffixed_spec(path, a) =~= x + dec(a) + y);
            assert(suffixed_spec(path, b) =~= x + dec(b) + y);
            lemma_framed_injective(x, y, a, b);
        } else {
            let x = path + " ("@;
            assert(suffixed_spec(path, a) =~= x + dec(a) + ")"@);
            assert(suffixed_spec(path, b) =~= x + dec(b) + ")"@);
            lemma_framed_injective(x, ")"@, a, b);
        },
        None => {
            let x = path + " ("@;
            assert(suffixed_spec(path, a) =~= x + dec(a) + ")"@);
            assert(suffixed_spec(path, b) =~= x + dec(b) + ")"@);
            lemma_framed_injective(x, ")"@, a, b);
        },
    }
}

/// Fewer claimed and held names than numbers leave a number free.
proof fn lemma_free_number(seen: Map<Seq<char>, NoteId>, local: Seq<(NoteId, String)>, id: NoteId, path: Seq<char>)
    requires
        seen.dom().finite(),
        seen.dom().len() + local.len() < u32::MAX - 2,
    ensures
        exists|m: nat| 2 <= m < u32::MAX && !blocked(seen, local, id, #[trigger] suffixed_spec(path, m)),
{
    if forall|m: nat| 2 <= m < u32::MAX ==> blocked(seen, local, id, #[trigger] suffixed_spec(path, m)) {
        let f = |i: int| suffixed_spec(path, i as nat);
        let range = vstd::set_lib::set_int_range(2, u32::MAX as int);
        vstd::set_lib::lemma_int_range(2, u32::MAX as int);
        assert(vstd::relations::injective_on(f, range)) by {
            assert forall|x1: int, x2: int| range.contains(x1) && range.contains(x2) && #[trigger] f(x1) == #[trigger] f(
                x2,
            ) implies x1 == x2 by {
                lemma_suffixed_injective(path, x1 as nat, x2 as nat);
            }
        }
        let names = range.map(f);
        vstd::set_lib::lemma_map_size(range, names, f);
        let held = local.map_values(|e: (NoteId, String)| e.1@);
        let held_set = held.to_set();
        held.lemma_cardinality_of_set();
        vstd::seq_lib::seq_to_set_is_finite(held);
        let all = seen.dom().union(held_set);
        vstd::set_lib::lemma_len_union(seen.dom(), held_set);
        assert(names.subset_of(all)) by {
            assert forall|x: Seq<char>| names.contains(x) implies all.contains(x) by {
                let i = choose|i: int| range.contains(i) && f(i) == x;
                assert(blocked(seen, local, id, suffixed_spec(path, i as nat)));
                if !seen.dom().contains(x) {
                    let k = choose|k: int| 0 <= k < local.len() && (#[trigger] local[k]).1@ == x && local[k].0 != id;
                    assert(held[k] == x);
                    assert(held.contains(x));
                }
            }
        }
        vstd::set_lib::lemma_len_subset(names, all);
        assert(false);
    }
}

/// The search finds a free number when there is one below the cap.
proof fn lemma_first_free_found(
    seen: Map<Seq<char>, NoteId>,
    local: Seq<(NoteId, String)>,
    id: NoteId,
    path: Seq<char>,
    n: nat,
    m: nat,
)
    requires
        n <= m < u32::MAX,
        !blocked(seen, local, id, suffixed_spec(path, m)),
    ensures
        first_free(seen, local, id, path, n) < u32::MAX,
        !blocked(seen, local, id, suffixed_spec(path, first_free(seen, local, id, path, n))),
    decreases m - n,
{
    if n < m && blocked(seen, local, id, suffixed_spec(path, n)) {
        lemma_first_free_found(seen, local, id, path, n + 1, m);
    }
}

/// The notes of a vault doc are told apart by id.
pub open spec fn ids_distinct(entries: Seq<(NoteId, String)>) -> bool {
    forall|a: int, b: int| 0 <= a < b < entries.len() ==> (#[trigger] entries[a]).0 != (#[trigger] entries[b]).0
}

proof fn lemma_seen_after(entries: Seq<(NoteId, String)>, local: Seq<(NoteId, String)>, i: int)
    requires
        0 <= i <= entries.len(),
        ids_distinct(entries),
        entries.len() + local.len() < u32::MAX - 2,
    ensures
        seen_after(entries, local, i).dom().finite(),
        seen_after(entries, local, i).dom().len() <= i,
        forall|j: int|
            0 <= j < i ==> seen_after(entries, local, i).dom().contains(#[trigger] final_of(entries, local, j))
                && seen_after(entries, local, i)[final_of(entries, local, j)] == entries[j].0,
        forall|k: Seq<char>|
            #[trigger] seen_after(entries, local, i).dom().contains(k) ==> exists|j: int|
                0 <= j < i && #[trigger] final_of(entries, local, j) == k,
        forall|a: int, b: int|
            0 <= a < b < i ==> #[trigger] final_of(entries, local, a) != #[trigger] final_of(entries, local, b),
    decreases i,
{
    if i == 0 {
        assert(seen_after(entries, local, 0) =~= Map::<Seq<char>, NoteId>::empty());
    } else {
        lemma_seen_after(entries, local, i - 1);
        let s = seen_after(entries, local, i - 1);
        let e = entries[i - 1];
        let p = e.1@;
        let f = final_of(entries, local, i - 1);
        assert(f == final_path(s, local, e.0, p));
        assert(!s.dom().contains(f)) by {
            if s.dom().contains(p) && s[p] != e.0 {
                lemma_free_number(s, local, e.0, p);
                let m = choose|m: nat| 2 <= m < u32::MAX && !blocked(s, local, e.0, #[trigger] suffixed_spec(p, m));
                lemma_first_free_found(s, local, e.0, p, 2, m);
            } else if s.dom().contains(p) {
                let j = choose|j: int| 0 <= j < i - 1 && #[trigger] final_of(entries, local, j) == p;
                assert(entries[j].0 == e.0);
                assert(entries[j].0 != entries[i - 1].0);
            }
        }
        let t = seen_after(entries, local, i);
        assert(t == s.insert(f, e.0));
        assert forall|j: int| 0 <= j < i implies t.dom().contains(#[trigger] final_of(entries, local, j)) && t[final_of(
            entries,
            local,
            j,
        )] == entries[j].0 by {
            if j < i - 1 {
                assert(s.dom().contains(final_of(entries, local, j)));
            }
        }
        assert forall|k: Seq<char>| #[trigger] t.dom().contains(k) implies exists|j: int|
            0 <= j < i && #[trigger] final_of(entries, local, j) == k by {
            if k != f {
                assert(s.dom().contains(k));
            }
        }
        assert forall|a: int, b: int| 0 <= a < b < i implies #[trigger] final_of(entries, local, a)
            != #[trigger] final_of(entries, local, b) by {
            if b == i - 1 {
                assert(s.dom().contains(final_of(entries, local, a)));
            }
        }
    }
}

/// After collisions are resolved no two notes of the vault share a path: every replica that
/// applies the same rule to the same entries ends with the same distinct paths.
pub proof fn lemma_collisions_resolved(entries: Seq<(NoteId, String)>, local: Seq<(NoteId, String)>)
    requires
        ids_distinct(entries),
        entries.len() + local.len() < u32::MAX - 2,
    ensures
        forall|a: int, b: int|
            0 <= a < b < entries.len() ==> #[trigger] final_of(entries, local, a) != #[trigger] final_of(
                entries,
                local,
                b,
            ),
        forall|i: int|
            0 <= i < entries.len() ==> (#[trigger] rename_of(entries, local, i) is None <==> !exists|j: int|
                0 <= j < i && final_of(entries, local, j) == entries[i].1@),
{
    lemma_seen_after(entries, local, entries.len() as int);
    assert forall|i: int| 0 <= i < entries.len() implies (#[trigger] rename_of(entries, local, i) is None
        <==> !exists|j: int| 0 <= j < i && final_of(entries, local, j) == entries[i].1@) by {
        lemma_seen_after(entries, local, i);
        let s = seen_after(entries, local, i);
        let p = entries[i].1@;
        if s.dom().contains(p) {
            let j = choose|j: int| 0 <= j < i && #[trigger] final_of(entries, local, j) == p;
            assert(s[p] == entries[j].0);
            assert(entries[j].0 != entries[i].0);
        }
    }
}


// ---- Following the vault doc -----------------------------------------------------------------

/// Where this replica holds a note, if it holds it.
pub open spec fn local_path(local: Seq<(NoteId, String)>, id: NoteId) -> Option<Seq<char>>
    decreases local.len(),
{
    if local.len() == 0 {
        None
    } else if local[0].0 == id {
        Some(local[0].1@)
    } else {
        local_path(local.drop_first(), id)
    }
}

/// The vault doc's entries this replica does not hold yet: adopted.
pub open spec fn adopt_spec(entries: Seq<(NoteId, String)>, local: Seq<(NoteId, String)>) -> Seq<(NoteId, Seq<char>)>
    decreases entries.len(),
{
    if entries.len() == 0 {
        Seq::empty()
    } else {
        let e = entries.last();
        adopt_spec(entries.drop_last(), local) + if local_path(local, e.0) is None {
            seq![(e.0, e.1@)]
        } else {
            Seq::empty()
        }
    }
}

/// The entries this replica holds under another path: moved, `(id, from, to)`.
pub open spec fn moves_spec(entries: Seq<(NoteId, String)>, local: Seq<(NoteId, String)>) -> Seq<(NoteId, Seq<char>, Seq<char>)>
    decreases entries.len(),
{
    if entries.len() == 0 {
        Seq::empty()
    } else {
        let e = entries.last();
        moves_spec(entries.drop_last(), local) + match local_path(local, e.0) {
            Some(old) => if old != e.1@ {
                seq![(e.0, old, e.1@)]
            } else {
                Seq::empty()
            },
            None => Seq::empty(),
        }
    }
}

/// The notes this replica holds that the vault doc no longer has: removed.
pub open spec fn gone_spec(entries: Seq<(NoteId, String)>, local: Seq<(NoteId, String)>) -> Seq<NoteId>
    decreases local.len(),
{
    if local.len() == 0 {
        Seq::empty()
    } else {
        let l = local.last();
        gone_spec(entries, local.drop_last()) + if exists|k: int| 0 <= k < entries.len() && (#[trigger] entries[k]).0 == l.0 {
            Seq::empty()
        } else {
            seq![l.0]
        }
    }
}

/// What following the vault doc asks of this replica.
#[derive(Debug, Clone, PartialEq, Eq)]
pub struct VaultSync {
    /// Notes to adopt, with their paths.
    pub adopt: Vec<(NoteId, String)>,
    /// Notes to move on disk: id, old path, new path.
    pub moves: Vec<(NoteId, String, String)>,
    /// Notes removed elsewhere, to send to the trash here.
    pub gone: Vec<NoteId>,
}

fn local_path_exec(local: &[(NoteId, String)], id: NoteId) -> (r: Option<String>)
    ensures
        crate::remote::opt_view(r) == local_path(local@, id),
{
    let mut k: usize = 0;
    proof {
        assert(local@.skip(0) =~= local@);
    }
    while k < local.len()
        invariant
            k <= local@.len(),
            local_path(local@, id) == local_path(local@.skip(k as int), id),
        decreases local@.len() - k,
    {
        proof {
            assert(local@.skip(k as int).drop_first() =~= local@.skip(k + 1));
            assert(local@.skip(k as int)[0] == local@[k as int]);
        }
        if local[k].0.0 == id.0 {
            return Some(local[k].1.as_str().to_owned());
        }
        k += 1;
    }
    proof {
        assert(local@.skip(k as int).len() == 0);
    }
    None
}

fn has_id(entries: &[(NoteId, String)], id: NoteId) -> (r: bool)
    ensures
        r == exists|k: int| 0 <= k < entries@.len() && (#[trigger] entries@[k]).0 == id,
{
    let mut k: usize = 0;
    while k < entries.len()
        invariant
            k <= entries@.len(),
            forall|j: int| 0 <= j < k ==> (#[trigger] entries@[j]).0 != id,
        decreases entries@.len() - k,
    {
        if entries[k].0.0 == id.0 {
            return true;
        }
        k += 1;
    }
    false
}

/// The entries by id and character view.
pub open spec fn pairs_view(v: Seq<(NoteId, String)>) -> Seq<(NoteId, Seq<char>)> {
    v.map_values(|e: (NoteId, String)| (e.0, e.1@))
}

/// The moves by id and character views.
pub open spec fn moves_view(v: Seq<(NoteId, String, String)>) -> Seq<(NoteId, Seq<char>, Seq<char>)> {
    v.map_values(|e: (NoteId, String, String)| (e.0, e.1@, e.2@))
}

/// What makes this replica's notes match the vault doc's entries (after collisions are
/// resolved): notes it lacks are adopted, notes at another path move, and notes the doc no
/// longer has are removed (entries only leave the doc through an explicit remove).
pub fn plan_vault_sync(entries: &[(NoteId, String)], local: &[(NoteId, String)]) -> (r: VaultSync)
    ensures
        pairs_view(r.adopt@) == adopt_spec(entries@, local@),
        moves_view(r.moves@) == moves_spec(entries@, local@),
        r.gone@ == gone_spec(entries@, local@),
{
    let mut adopt: Vec<(NoteId, String)> = Vec::new();
    let mut moves: Vec<(NoteId, String, String)> = Vec::new();
    let mut i: usize = 0;
    while i < entries.len()
        invariant
            i <= entries@.len(),
            pairs_view(adopt@) == adopt_spec(entries@.take(i as int), local@),
            moves_view(moves@) == moves_spec(entries@.take(i as int), local@),
        decreases entries@.len() - i,
    {
        let id = entries[i].0;
        let path = entries[i].1.as_str();
        let ghost pre = entries@.take(i as int);
        proof {
            assert(entries@.take(i + 1).drop_last() =~= pre);
            assert(entries@.take(i + 1).last() == entries@[i as int]);
        }
        let ghost a0 = adopt@;
        let ghost m0 = moves@;
        match local_path_exec(local, id) {
            None => {
                adopt.push((id, path.to_owned()));
                proof {
                    assert(pairs_view(adopt@) =~= pairs_view(a0) + seq![(id, path@)]);
                    assert(moves_view(moves@) =~= moves_view(m0) + Seq::empty());
                }
            },
            Some(old) => {
                if !crate::text::eq(&chars_of(old.as_str()), &chars_of(path)) {
                    let ghost ov = old@;
                    moves.push((id, old, path.to_owned()));
                    proof {
                        assert(moves_view(moves@) =~= moves_view(m0) + seq![(id, ov, path@)]);
                    }
                } else {
                    proof {
                        assert(moves_view(moves@) =~= moves_view(m0) + Seq::empty());
                    }
                }
                proof {
                    assert(pairs_view(adopt@) =~= pairs_view(a0) + Seq::empty());
                }
            },
        }
        i += 1;
    }
    let mut gone: Vec<NoteId> = Vec::new();
    let mut k: usize = 0;
    while k < local.len()
        invariant
            k <= local@.len(),
            gone@ == gone_spec(entries@, local@.take(k as int)),
        decreases local@.len() - k,
    {
        proof {
            assert(local@.take(k + 1).drop_last() =~= local@.take(k as int));
            assert(local@.take(k + 1).last() == local@[k as int]);
        }
        let ghost g0 = gone@;
        if !has_id(entries, local[k].0) {
            gone.push(local[k].0);
            proof {
                assert(gone@ =~= g0 + seq![local@[k as int].0]);
            }
        } else {
            proof {
                assert(gone@ =~= g0 + Seq::<NoteId>::empty());
            }
        }
        k += 1;
    }
    proof {
        assert(entries@.take(entries@.len() as int) =~= entries@);
        assert(local@.take(local@.len() as int) =~= local@);
    }
    VaultSync { adopt, moves, gone }
}

} // verus!
