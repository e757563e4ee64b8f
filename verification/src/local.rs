//! The local relay's rules: the loopback port a vault's relay listens on, what the UI may ask
//! the engines, and how the relay answers the setup form, a request to connect a server and a
//! request to merge one vault into another before anything is touched.
use vstd::prelude::*;
use crate::ids::{ulid_decoded, NoteId, VaultId};
use crate::merge::{default_folder, default_folder_spec, AttachmentFate, MergePlan, PlannedAttachment};
use crate::text::{chars_of, starts_with, starts_with_exec, trim, trim_exec};

verus! {

/// The first port of IANA's dynamic/private range.
pub const PORT_FIRST: u32 = 49152;
/// How many ports that range holds.
pub const PORT_COUNT: u32 = 16384;

/// FNV-1a over bytes, 64 bits.
pub open spec fn fnv1a(b: Seq<u8>) -> u64
    decreases b.len(),
{
    if b.len() == 0 {
        0xcbf2_9ce4_8422_2325u64
    } else {
        (fnv1a(b.drop_last()) ^ (b.last() as u64)).wrapping_mul(0x0000_0100_0000_01b3u64)
    }
}

/// The port for a directory's bytes: the hash folded into the dynamic range.
pub open spec fn port_for(b: Seq<u8>) -> u16 {
    (PORT_FIRST + fnv1a(b) % (PORT_COUNT as u64)) as u16
}

/// A loopback port for `vault_dir`, the same one every time.
///
/// A webview pointed at `http://127.0.0.1:{port}` makes that its origin, and a browser keeps
/// `localStorage` per origin, so a port that moved would forget the UI's layout on every
/// launch. The directory (canonicalised by the caller where it can be) is hashed with FNV-1a,
/// whose output, unlike std's hasher, is fixed for good, into IANA's dynamic range. Callers
/// still fall back to an ephemeral port when the bind fails.
pub fn stable_port(vault_dir: &str) -> (r: u16)
    ensures
        r == port_for(vstd::utf8::encode_utf8(vault_dir@)),
        PORT_FIRST <= r < PORT_FIRST + PORT_COUNT,
{
    let bytes = vault_dir.as_bytes();
    proof {
        assert(bytes@ == vstd::utf8::encode_utf8(vault_dir@));
    }
    let n = bytes.len();
    let mut hash: u64 = 0xcbf2_9ce4_8422_2325;
    let mut i: usize = 0;
    while i < n
        invariant
            i <= n == bytes@.len(),
            hash == fnv1a(bytes@.take(i as int)),
        decreases n - i,
    {
        proof {
            assert(bytes@.take(i + 1).drop_last() =~= bytes@.take(i as int));
            assert(bytes@.take(i + 1).last() == bytes@[i as int]);
        }
        hash = (hash ^ (bytes[i] as u64)).wrapping_mul(0x0000_0100_0000_01b3);
        i += 1;
    }
    proof {
        assert(bytes@.take(n as int) =~= bytes@);
    }
    let offset = (hash % 16384) as u32;
    (49152 + offset) as u16
}

/// What the UI may ask the engines through the relay.
#[derive(Debug, Clone, PartialEq, Eq)]
pub enum LocalQuery {
    Vaults,
    Notes,
    Note(NoteId),
    Search { q: String, limit: u32 },
    Backlinks(NoteId),
    Tags,
    Tagged(String),
    Versions(NoteId),
    VersionAt(NoteId, i64),
    SaveVersion(NoteId, String),
    Attachment(String),
    /// Writes, performed on the projected files so the usual machinery applies.
    CreateNote { path: String, content: String },
    ReplaceNote { id: NoteId, content: String },
    RenameNote { id: NoteId, path: String },
    DeleteNote(NoteId),
    Daily(String),
    Trash,
    Restore(NoteId),
    Export { id: NoteId, format: crate::pandoc::Format },
    /// Store uploaded bytes under `attachments/<name>` (deduplicated) and return the path.
    StoreAttachment { name: String, bytes: Vec<u8> },
    /// One batch of an uploaded Obsidian vault: (vault-relative path, bytes) per picked file.
    Import { files: Vec<(String, Vec<u8>)> },
    /// What this vault holds, by path: the input to a merge plan.
    Survey,
    /// Read one vault-relative file as bytes.
    ReadFile(String),
    /// Write one vault-relative file.
    WriteFile { path: String, bytes: Vec<u8> },
    /// Delete this vault's files and its sidecar, and stop.
    Retire,
}

// ---- First-run setup -------------------------------------------------------------------------

/// What the desktop shell needs before it can start the engines: a folder, and — only if the
/// notes are to sync — a server.
#[derive(Debug, Clone, PartialEq, Eq, Default)]
pub struct SetupRequest {
    pub root_dir: String,
    /// `None` (or empty) sets the app up standalone.
    pub server_url: Option<String>,
    pub ca_cert: Option<String>,
    /// Sign in (or register) on the server and save the token before starting.
    pub email: Option<String>,
    pub password: Option<String>,
    pub register: bool,
    /// Registration invite: the whole URL or the bare token.
    pub invite: Option<String>,
}

/// What the setup page is told.
#[derive(Debug, Clone, PartialEq, Eq)]
pub struct SetupStatus {
    pub configured: bool,
    pub config_path: String,
    /// Suggested default folder for the form: the root the vaults go under.
    pub suggested_root_dir: String,
}

/// A URL the relay will try: `http://` or `https://`.
pub open spec fn is_http_url(u: Seq<char>) -> bool {
    starts_with(u, "http://"@) || starts_with(u, "https://"@)
}

fn is_http_url_exec(u: &[char]) -> (r: bool)
    ensures
        r == is_http_url(u@),
{
    starts_with_exec(u, &chars_of("http://")) || starts_with_exec(u, &chars_of("https://"))
}

/// A server given in the form: blank means none; a half-typed one is a mistake.
pub open spec fn server_ok(server: Option<String>) -> bool {
    match server {
        Some(u) => trim(u@).len() == 0 || is_http_url(trim(u@)),
        None => true,
    }
}

/// The HTTP status the setup form is answered with: 400 for a blank folder or a server that is
/// no `http(s)` URL, else 202 when the form is taken and 409 when one was taken already.
pub fn setup_answer(req: &SetupRequest, already_taken: bool) -> (r: u16)
    ensures
        r == if trim(req.root_dir@).len() == 0 || !server_ok(req.server_url) {
            400u16
        } else if already_taken {
            409u16
        } else {
            202u16
        },
{
    if trim_exec(&chars_of(req.root_dir.as_str())).len() == 0 {
        return 400;
    }
    match &req.server_url {
        Some(u) => {
            let t = trim_exec(&chars_of(u.as_str()));
            if t.len() != 0 && !is_http_url_exec(&t) {
                return 400;
            }
        },
        None => {},
    }
    if already_taken {
        409
    } else {
        202
    }
}

/// What a configured relay tells the page about itself: `"synced"` with a server, else
/// `"local"`.
pub fn relay_mode(has_upstream: bool) -> (r: &'static str)
    ensures
        r@ == if has_upstream {
            "synced"@
        } else {
            "local"@
        },
{
    if has_upstream {
        "synced"
    } else {
        "local"
    }
}

// ---- Connecting a standalone app to a server -------------------------------------------------

/// What the UI sends to give a running standalone app a server.
#[derive(Debug, Clone, PartialEq, Eq, Default)]
pub struct ConnectRequest {
    pub server_url: String,
    pub ca_cert: Option<String>,
    pub email: Option<String>,
    pub password: Option<String>,
    pub register: bool,
    pub invite: Option<String>,
}

/// The refusal of a connect request before it reaches the shell, if it is refused: 400 for a
/// URL that is no `http(s)` URL, 501 when this app has no configuration file to write a server
/// into.
pub fn connect_refusal(req: &ConnectRequest, can_connect: bool) -> (r: Option<(u16, &'static str)>)
    ensures
        !is_http_url(trim(req.server_url@)) ==> (r matches Some((400u16, m)) && m@
            == "the server URL must start with http:// or https://"@),
        is_http_url(trim(req.server_url@)) && !can_connect ==> (r matches Some((501u16, m)) && m@
            == "this app has no configuration file to write a server into"@),
        is_http_url(trim(req.server_url@)) && can_connect ==> r is None,
{
    let url = trim_exec(&chars_of(req.server_url.as_str()));
    if !is_http_url_exec(&url) {
        return Some((400, "the server URL must start with http:// or https://"));
    }
    if !can_connect {
        return Some((501, "this app has no configuration file to write a server into"));
    }
    None
}

// ---- Merging one vault into another ----------------------------------------------------------

/// Fold `from` into `into`, both held by this relay.
#[derive(Debug, Clone, PartialEq, Eq, Default)]
pub struct MergeRequest {
    pub from: String,
    pub into: String,
    /// Folder inside the destination for the source's tree; `None` uses the source vault's
    /// name, `""` merges at the destination's root.
    pub folder: Option<String>,
    /// Work out the plan and change nothing.
    pub dry_run: bool,
}

/// The two vaults a merge request names, refused with 400 and a reason when either is no vault
/// id or both are the same vault.
pub fn merge_vaults_of(req: &MergeRequest) -> (r: Result<(VaultId, VaultId), (u16, &'static str)>)
    ensures
        ulid_decoded(req.from@) is None ==> (r matches Err((400u16, m)) && m@ == "`from` is not a vault id"@),
        ulid_decoded(req.from@) is Some && ulid_decoded(req.into@) is None ==> (r matches Err((400u16, m)) && m@
            == "`into` is not a vault id"@),
        ulid_decoded(req.from@) is Some && ulid_decoded(req.into@) is Some && ulid_decoded(req.from@)
            == ulid_decoded(req.into@) ==> (r matches Err((400u16, m)) && m@
            == "a vault cannot be merged into itself"@),
        ulid_decoded(req.from@) is Some && ulid_decoded(req.into@) is Some && ulid_decoded(req.from@)
            != ulid_decoded(req.into@) ==> (r matches Ok((f, i)) && Some(f.0) == ulid_decoded(req.from@)
            && Some(i.0) == ulid_decoded(req.into@)),
{
    let from = match VaultId::parse(req.from.as_str()) {
        Ok(v) => v,
        Err(_) => return Err((400, "`from` is not a vault id")),
    };
    let into = match VaultId::parse(req.into.as_str()) {
        Ok(v) => v,
        Err(_) => return Err((400, "`into` is not a vault id")),
    };
    if from.0 == into.0 {
        return Err((400, "a vault cannot be merged into itself"));
    }
    Ok((from, into))
}

/// The folder a merge puts the source's tree in: the one asked for, else one named after the
/// source vault.
pub fn merge_folder(req: &MergeRequest, source_name: Option<&str>, from: VaultId) -> (r: String)
    ensures
        match req.folder {
            Some(f) => r@ == f@,
            None => r@ == default_folder_spec(
                match source_name {
                    Some(n) => Some(n@),
                    None => None,
                },
                from,
            ),
        },
{
    match &req.folder {
        Some(f) => f.as_str().to_owned(),
        None => default_folder(source_name, from),
    }
}

/// The attachments a merge copies: every planned one but those the destination already has.
pub open spec fn copies_spec(atts: Seq<PlannedAttachment>) -> Seq<PlannedAttachment>
    decreases atts.len(),
{
    if atts.len() == 0 {
        Seq::empty()
    } else {
        copies_spec(atts.drop_last()) + if atts.last().fate == AttachmentFate::Same {
            Seq::empty()
        } else {
            seq![atts.last()]
        }
    }
}

/// The indexes, in the plan, of the attachments a merge copies, in plan order.
pub fn attachments_to_copy(plan: &MergePlan) -> (r: Vec<usize>)
    ensures
        r@.len() == copies_spec(plan.attachments@).len(),
        forall|k: int|
            0 <= k < r@.len() ==> #[trigger] r@[k] < plan.attachments@.len() && plan.attachments@[r@[k] as int]
                == copies_spec(plan.attachments@)[k],
        forall|j: int, k: int| 0 <= j < k < r@.len() ==> #[trigger] r@[j] < #[trigger] r@[k],
{
    let atts = &plan.attachments;
    let mut out: Vec<usize> = Vec::new();
    let mut i: usize = 0;
    while i < atts.len()
        invariant
            i <= atts@.len(),
            out@.len() == copies_spec(atts@.take(i as int)).len(),
            forall|k: int|
                0 <= k < out@.len() ==> #[trigger] out@[k] < i && atts@[out@[k] as int] == copies_spec(
                    atts@.take(i as int),
                )[k],
            forall|j: int, k: int| 0 <= j < k < out@.len() ==> #[trigger] out@[j] < #[trigger] out@[k],
        decreases atts@.len() - i,
    {
        let ghost pre = atts@.take(i as int);
        proof {
            assert(atts@.take(i + 1).drop_last() =~= pre);
            assert(atts@.take(i + 1).last() == atts@[i as int]);
        }
        let same = match atts[i].fate {
            AttachmentFate::Same => true,
            _ => false,
        };
        if !same {
            out.push(i);
        }
        proof {
            let c = copies_spec(atts@.take(i + 1));
            assert forall|k: int| 0 <= k < out@.len() implies #[trigger] out@[k] < i + 1 && atts@[out@[k] as int]
                == c[k] by {
                if k < copies_spec(pre).len() {
                    assert(c[k] == copies_spec(pre)[k]);
                }
            }
        }
        i += 1;
    }
    proof {
        assert(atts@.take(atts@.len() as int) =~= atts@);
    }
    out
}

// ---- Applying a merge, step by step ----------------------------------------------------------

/// Where an applied merge stands: the attachment to copy or the note it reads or writes, by
/// position, or retiring the source.
#[derive(Debug, Clone, Copy, PartialEq, Eq, Structural)]
pub enum MergeStage {
    /// Reading the attachment to copy at this position (see `copies_spec`).
    ReadAttachment(usize),
    /// Writing it to the destination.
    WriteAttachment(usize),
    /// Reading the note at this position of the plan.
    ReadNote(usize),
    /// Writing it to the destination.
    WriteNote(usize),
    /// Retiring the source.
    Retire,
}

/// What the vaults answered to the last action.
pub enum MergeEvent {
    /// The source's file: its bytes, or `None` when the source does not have it.
    Read(Option<Vec<u8>>),
    /// The destination wrote the file; `Some(path)` when it already had one there.
    Wrote(Option<String>),
    /// The source retired: what was left in its folder, and whether the folder went.
    Retired { left: Vec<String>, folder_removed: bool },
}

/// What the merge does next.
pub enum MergeAction {
    ReadFile(String),
    WriteFile { path: String, bytes: Vec<u8> },
    Retire,
    /// The merge stops with this status and message.
    Fail(u16, String),
    /// The merge is done.
    Done { left: Vec<String>, folder_removed: bool },
}

/// The view of a merge action.
pub enum MergeActionView {
    ReadFile(Seq<char>),
    WriteFile { path: Seq<char>, bytes: Seq<u8> },
    Retire,
    Fail(u16, Seq<char>),
    Done { left: Seq<Seq<char>>, folder_removed: bool },
}

impl MergeAction {
    pub open spec fn view(&self) -> MergeActionView {
        match self {
            MergeAction::ReadFile(p) => MergeActionView::ReadFile(p@),
            MergeAction::WriteFile { path, bytes } => MergeActionView::WriteFile { path: path@, bytes: bytes@ },
            MergeAction::Retire => MergeActionView::Retire,
            MergeAction::Fail(c, m) => MergeActionView::Fail(*c, m@),
            MergeAction::Done { left, folder_removed } => MergeActionView::Done {
                left: crate::projection::str_views(left@),
                folder_removed: *folder_removed,
            },
        }
    }
}

/// How a merge goes on once the source has been surveyed and the plan made: a source that
/// cannot be merged is refused as a conflict before anything is copied; a dry run answers with
/// the plan alone; otherwise the merge is applied, starting with [`merge_begin`].
pub enum MergeOpening {
    Refuse(u16, String),
    DryRun,
    Apply,
}

pub fn merge_opening(blocked: Option<String>, dry_run: bool) -> (r: MergeOpening)
    ensures
        match blocked {
            Some(why) => r matches MergeOpening::Refuse(c, m) && c == 409 && m@ == why@,
            None => if dry_run {
                r is DryRun
            } else {
                r is Apply
            },
        },
{
    match blocked {
        Some(why) => MergeOpening::Refuse(409, why),
        None => if dry_run {
            MergeOpening::DryRun
        } else {
            MergeOpening::Apply
        },
    }
}

/// The notes of the plan, from position `k` on: read the next, or retire the source.
pub open spec fn notes_from(plan: MergePlan, k: int) -> (MergeStage, MergeActionView) {
    if 0 <= k < plan.notes@.len() {
        (MergeStage::ReadNote(k as usize), MergeActionView::ReadFile(plan.notes@[k].from@))
    } else {
        (MergeStage::Retire, MergeActionView::Retire)
    }
}

/// The attachments to copy, from position `k` on: read the next, then the notes.
pub open spec fn attachments_from(plan: MergePlan, k: int) -> (MergeStage, MergeActionView) {
    let cs = copies_spec(plan.attachments@);
    if 0 <= k < cs.len() {
        (MergeStage::ReadAttachment(k as usize), MergeActionView::ReadFile(cs[k].from@))
    } else {
        notes_from(plan, 0)
    }
}

/// `<path> already exists in the destination`, a conflict.
pub open spec fn exists_already(p: Seq<char>) -> MergeActionView {
    MergeActionView::Fail(409, p + " already exists in the destination"@)
}

/// The next step of an applied merge, given the vaults' answer to the last one. Attachments
/// come first (one the source does not have is skipped: the notes still name it by hash),
/// then the notes, each written with the references to renamed attachments rewritten (a note
/// that cannot be read, or is not text, stops the merge), then the source retires. A write
/// the destination refuses stops the merge as a conflict.
pub open spec fn merge_step_spec(plan: MergePlan, stage: MergeStage, event: MergeEvent) -> (MergeStage, MergeActionView) {
    let cs = copies_spec(plan.attachments@);
    match stage {
        MergeStage::ReadAttachment(k) => match event {
            MergeEvent::Read(Some(b)) => if (k as int) < cs.len() {
                (MergeStage::WriteAttachment(k), MergeActionView::WriteFile { path: cs[k as int].to@, bytes: b@ })
            } else {
                attachments_from(plan, k + 1)
            },
            _ => attachments_from(plan, k + 1),
        },
        MergeStage::WriteAttachment(k) => match event {
            MergeEvent::Wrote(Some(p)) => (stage, exists_already(p@)),
            _ => attachments_from(plan, k + 1),
        },
        MergeStage::ReadNote(k) => if (k as int) < plan.notes@.len() {
            let n = plan.notes@[k as int];
            match event {
                MergeEvent::Read(Some(b)) => if vstd::utf8::valid_utf8(b@) {
                    (
                        MergeStage::WriteNote(k),
                        MergeActionView::WriteFile {
                            path: n.to@,
                            bytes: vstd::utf8::encode_utf8(
                                crate::merge::rewrite_all(
                                    vstd::utf8::decode_utf8(b@),
                                    crate::merge::moved_pairs(plan.attachments@),
                                ),
                            ),
                        },
                    )
                } else {
                    (stage, MergeActionView::Fail(500, n.from@ + " is not text"@))
                },
                _ => (stage, MergeActionView::Fail(500, n.from@ + " could not be read"@)),
            }
        } else {
            notes_from(plan, k + 1)
        },
        MergeStage::WriteNote(k) => match event {
            MergeEvent::Wrote(Some(p)) => (stage, exists_already(p@)),
            _ => notes_from(plan, k + 1),
        },
        MergeStage::Retire => match event {
            MergeEvent::Retired { left, folder_removed } => (
                stage,
                MergeActionView::Done { left: crate::projection::str_views(left@), folder_removed },
            ),
            _ => (stage, MergeActionView::Fail(500, "the source vault would not retire"@)),
        },
    }
}

fn notes_from_exec(plan: &MergePlan, k: usize) -> (r: (MergeStage, MergeAction))
    ensures
        (r.0, r.1@) == notes_from(*plan, k as int),
{
    if k < plan.notes.len() {
        (MergeStage::ReadNote(k), MergeAction::ReadFile(plan.notes[k].from.as_str().to_owned()))
    } else {
        (MergeStage::Retire, MergeAction::Retire)
    }
}

fn attachments_from_exec(plan: &MergePlan, copies: &Vec<usize>, k: usize) -> (r: (MergeStage, MergeAction))
    requires
        copies@.len() == copies_spec(plan.attachments@).len(),
        forall|j: int|
            0 <= j < copies@.len() ==> #[trigger] copies@[j] < plan.attachments@.len() && plan.attachments@[copies@[j] as int]
                == copies_spec(plan.attachments@)[j],
    ensures
        (r.0, r.1@) == attachments_from(*plan, k as int),
{
    if k < copies.len() {
        let a = &plan.attachments[copies[k]];
        (MergeStage::ReadAttachment(k), MergeAction::ReadFile(a.from.as_str().to_owned()))
    } else {
        notes_from_exec(plan, 0)
    }
}

/// The first step of an applied merge: the first attachment to copy, else the first note,
/// else retiring the source.
pub fn merge_begin(plan: &MergePlan) -> (r: (MergeStage, MergeAction))
    ensures
        (r.0, r.1@) == attachments_from(*plan, 0),
{
    let copies = attachments_to_copy(plan);
    attachments_from_exec(plan, &copies, 0)
}

/// The next step of an applied merge (see [`merge_step_spec`]).
pub fn merge_step(plan: &MergePlan, stage: MergeStage, event: MergeEvent) -> (r: (MergeStage, MergeAction))
    ensures
        (r.0, r.1@) == merge_step_spec(*plan, stage, event),
{
    let copies = attachments_to_copy(plan);
    match stage {
        MergeStage::ReadAttachment(k) => match event {
            MergeEvent::Read(Some(b)) => {
                if k < copies.len() {
                    proof {
                        assert(copies@[k as int] < plan.attachments@.len());
                        assert(plan.attachments@[copies@[k as int] as int] == copies_spec(plan.attachments@)[k as int]);
                    }
                    let a = &plan.attachments[copies[k]];
                    (MergeStage::WriteAttachment(k), MergeAction::WriteFile { path: a.to.as_str().to_owned(), bytes: b })
                } else {
                    notes_from_exec(plan, 0)
                }
            },
            _ => {
                if k < copies.len() {
                    attachments_from_exec(plan, &copies, k + 1)
                } else {
                    notes_from_exec(plan, 0)
                }
            },
        },
        MergeStage::WriteAttachment(k) => match event {
            MergeEvent::Wrote(Some(p)) => {
                let m = crate::text::join_strs(p.as_str(), " already exists in the destination");
                (stage, MergeAction::Fail(409, m))
            },
            _ => {
                if k < copies.len() {
                    attachments_from_exec(plan, &copies, k + 1)
                } else {
                    notes_from_exec(plan, 0)
                }
            },
        },
        MergeStage::ReadNote(k) => {
            if k < plan.notes.len() {
                let n = &plan.notes[k];
                match event {
                    MergeEvent::Read(Some(b)) => match crate::text::utf8_str(b.as_slice()) {
                        Some(t) => {
                            let rewrites = plan.attachment_rewrites();
                            let text = crate::merge::rewrite_references(t, rewrites.as_slice());
                            let bytes = text.as_str().as_bytes_vec();
                            (MergeStage::WriteNote(k), MergeAction::WriteFile { path: n.to.as_str().to_owned(), bytes })
                        },
                        None => (stage, MergeAction::Fail(500, crate::text::join_strs(n.from.as_str(), " is not text"))),
                    },
                    _ => (stage, MergeAction::Fail(500, crate::text::join_strs(n.from.as_str(), " could not be read"))),
                }
            } else {
                notes_from_exec(plan, plan.notes.len())
            }
        },
        MergeStage::WriteNote(k) => match event {
            MergeEvent::Wrote(Some(p)) => {
                let m = crate::text::join_strs(p.as_str(), " already exists in the destination");
                (stage, MergeAction::Fail(409, m))
            },
            _ => {
                if k < plan.notes.len() {
                    notes_from_exec(plan, k + 1)
                } else {
                    notes_from_exec(plan, plan.notes.len())
                }
            },
        },
        MergeStage::Retire => match event {
            MergeEvent::Retired { left, folder_removed } => (stage, MergeAction::Done { left, folder_removed }),
            _ => (stage, MergeAction::Fail(500, "the source vault would not retire".to_owned())),
        },
    }
}

} // verus!
