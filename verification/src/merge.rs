//! Folding one vault into another: where each note lands, what to do when both vaults have a
//! `Plan.md`, and which attachments are the same file under the same name (free), a different
//! file under the same name (renamed, and the notes that point at it rewritten), or new.
use vstd::prelude::*;
use crate::ids::{ulid_text, NoteId, VaultId};
use crate::numfmt::{dec, fmt_u64};
use crate::projection::str_views;
use crate::text::{after_last, append, chars_of, concat, eq, lemma_rfind_before, replace, replace_exec, rfind, rfind_char, slice, string_of, strip_set, strip_set_exec, trim, trim_exec};
use crate::vaults::{default_folder_name, default_folder_name_spec, folder_name_for, folder_name_spec};

verus! {

broadcast use vstd::seq_lib::group_seq_properties;

/// One note, and where it will be in the destination vault.
#[derive(Debug, Clone, PartialEq, Eq)]
pub struct PlannedNote {
    /// The note's own id, which the merge preserves, as text.
    pub id: String,
    pub from: String,
    pub to: String,
    /// The destination already had a note at the obvious path, so this one was given another.
    pub renamed: bool,
}

/// What happens to one of the source vault's attachments.
#[derive(Debug, Clone, Copy, PartialEq, Eq, Structural)]
pub enum AttachmentFate {
    /// The destination has no such file: copied under the same path.
    New,
    /// The destination has the same bytes under that path already: nothing to copy.
    Same,
    /// The destination has a *different* file under that path: copied under a new name, and
    /// every reference to it in the notes being merged is rewritten.
    Renamed,
}

#[derive(Debug, Clone, PartialEq, Eq)]
pub struct PlannedAttachment {
    pub from: String,
    pub to: String,
    pub hash: String,
    pub fate: AttachmentFate,
}

/// Everything a merge will do, worked out before it does any of it.
#[derive(Debug, Clone, PartialEq, Eq)]
pub struct MergePlan {
    pub from: String,
    pub into: String,
    /// Folder inside the destination that the source's tree lands in; empty merges at the root.
    pub folder: String,
    pub notes: Vec<PlannedNote>,
    pub attachments: Vec<PlannedAttachment>,
}

/// How many of the notes were renamed.
pub open spec fn count_renamed(ns: Seq<PlannedNote>) -> nat
    decreases ns.len(),
{
    if ns.len() == 0 {
        0
    } else {
        count_renamed(ns.drop_last()) + if ns.last().renamed {
            1nat
        } else {
            0
        }
    }
}

/// How many of the attachments were renamed.
pub open spec fn count_moved(atts: Seq<PlannedAttachment>) -> nat
    decreases atts.len(),
{
    if atts.len() == 0 {
        0
    } else {
        count_moved(atts.drop_last()) + if atts.last().fate == AttachmentFate::Renamed {
            1nat
        } else {
            0
        }
    }
}

/// Old path → new path of the renamed attachments, in order.
pub open spec fn moved_pairs(atts: Seq<PlannedAttachment>) -> Seq<(Seq<char>, Seq<char>)>
    decreases atts.len(),
{
    if atts.len() == 0 {
        Seq::empty()
    } else {
        moved_pairs(atts.drop_last()) + if atts.last().fate == AttachmentFate::Renamed {
            seq![(atts.last().from@, atts.last().to@)]
        } else {
            Seq::empty()
        }
    }
}

pub open spec fn pair_views(v: Seq<(String, String)>) -> Seq<(Seq<char>, Seq<char>)> {
    v.map_values(|p: (String, String)| (p.0@, p.1@))
}

impl MergePlan {
    pub fn renamed_notes(&self) -> (r: usize)
        ensures
            r == count_renamed(self.notes@),
    {
        let mut n: usize = 0;
        let mut i: usize = 0;
        while i < self.notes.len()
            invariant
                i <= self.notes@.len(),
                n == count_renamed(self.notes@.take(i as int)),
                n <= i,
            decreases self.notes.len() - i,
        {
            proof {
                assert(self.notes@.take(i + 1).drop_last() =~= self.notes@.take(i as int));
            }
            if self.notes[i].renamed {
                n += 1;
            }
            i += 1;
        }
        proof {
            assert(self.notes@.take(self.notes@.len() as int) =~= self.notes@);
        }
        n
    }

    pub fn renamed_attachments(&self) -> (r: usize)
        ensures
            r == count_moved(self.attachments@),
    {
        let mut n: usize = 0;
        let mut i: usize = 0;
        while i < self.attachments.len()
            invariant
                i <= self.attachments@.len(),
                n == count_moved(self.attachments@.take(i as int)),
                n <= i,
            decreases self.attachments.len() - i,
        {
            proof {
                assert(self.attachments@.take(i + 1).drop_last() =~= self.attachments@.take(i as int));
            }
            if self.attachments[i].fate == AttachmentFate::Renamed {
                n += 1;
            }
            i += 1;
        }
        proof {
            assert(self.attachments@.take(self.attachments@.len() as int) =~= self.attachments@);
        }
        n
    }

    /// Old path → new path for the attachments that had to move, which is what the notes being
    /// merged have to be rewritten against.
    pub fn attachment_rewrites(&self) -> (r: Vec<(String, String)>)
        ensures
            pair_views(r@) == moved_pairs(self.attachments@),
    {
        let mut out: Vec<(String, String)> = Vec::new();
        let mut i: usize = 0;
        while i < self.attachments.len()
            invariant
                i <= self.attachments@.len(),
                pair_views(out@) == moved_pairs(self.attachments@.take(i as int)),
            decreases self.attachments.len() - i,
        {
            proof {
                assert(self.attachments@.take(i + 1).drop_last() =~= self.attachments@.take(i as int));
            }
            let a = &self.attachments[i];
            let ghost before = pair_views(out@);
            if a.fate == AttachmentFate::Renamed {
                let f = a.from.as_str().to_owned();
                let t = a.to.as_str().to_owned();
                out.push((f, t));
                proof {
                    assert(pair_views(out@) =~= before.push((f@, t@)));
                }
            }
            proof {
                assert(pair_views(out@) =~= moved_pairs(self.attachments@.take(i + 1)));
            }
            i += 1;
        }
        proof {
            assert(self.attachments@.take(self.attachments@.len() as int) =~= self.attachments@);
        }
        out
    }
}

/// A vault as a merge sees it: what it holds, by path.
#[derive(Debug, Clone)]
pub struct Survey {
    /// Note id and vault-relative path.
    pub notes: Vec<(NoteId, String)>,
    /// Attachment path and content hash, as recorded in the vault doc.
    pub attachments: Vec<(String, String)>,
}

impl Default for Survey {
    fn default() -> (r: Survey)
        ensures
            r.notes@.len() == 0 && r.attachments@.len() == 0,
    {
        Survey { notes: Vec::new(), attachments: Vec::new() }
    }
}

/// The folder for the source vault's tree: its name made safe, or the one named after its id.
pub open spec fn default_folder_spec(name: Option<Seq<char>>, id: VaultId) -> Seq<char> {
    match name {
        Some(n) => match folder_name_spec(n) {
            Some(f) => f,
            None => default_folder_name_spec(id),
        },
        None => default_folder_name_spec(id),
    }
}

/// A folder name for the source vault's tree inside the destination, from its name.
///
/// Only used as a default: the caller may pass any folder, including none.
pub fn default_folder(name: Option<&str>, id: VaultId) -> (r: String)
    ensures
        r@ == default_folder_spec(
            match name {
                Some(n) => Some(n@),
                None => None,
            },
            id,
        ),
{
    match name {
        Some(n) => match folder_name_for(n) {
            Some(f) => f,
            None => default_folder_name(id),
        },
        None => default_folder_name(id),
    }
}

/// `folder/path`, or `path` when the folder is empty.
pub open spec fn join_spec(folder: Seq<char>, path: Seq<char>) -> Seq<char> {
    if folder.len() == 0 {
        path
    } else {
        folder + seq!['/'] + path
    }
}

/// A path split before its extension: a dot in a folder name, or a leading dot, is not one.
pub open spec fn split_ext(path: Seq<char>) -> (Seq<char>, Seq<char>) {
    let start = match rfind(path, seq!['/']) {
        Some(s) => s + 1,
        None => 0,
    };
    match rfind(path, seq!['.']) {
        Some(i) => if i > start {
            (path.take(i), path.skip(i))
        } else {
            (path, Seq::empty())
        },
        None => (path, Seq::empty()),
    }
}

/// The first of `stem-n.ext`, `stem-(n+1).ext` … below 1000 that nothing has taken, or `wanted`.
pub open spec fn free_from(wanted: Seq<char>, taken: Seq<Seq<char>>, n: nat) -> Seq<char>
    decreases 1000 - n,
{
    if n >= 1000 {
        wanted
    } else {
        let c = split_ext(wanted).0 + seq!['-'] + dec(n) + split_ext(wanted).1;
        if !taken.contains(c) {
            c
        } else {
            free_from(wanted, taken, n + 1)
        }
    }
}

/// `wanted`, or the first `name-2.ext`, `name-3.ext`… that nothing has taken.
pub open spec fn free_path_spec(wanted: Seq<char>, taken: Seq<Seq<char>>) -> Seq<char> {
    if !taken.contains(wanted) {
        wanted
    } else {
        free_from(wanted, taken, 2)
    }
}

/// `attachments/logo.png` + a hash → `attachments/logo-3f9c2a.png`.
pub open spec fn suffixed_spec(path: Seq<char>, hash: Seq<char>) -> Seq<char> {
    split_ext(path).0 + seq!['-'] + hash.take(if hash.len() < 6 {
        hash.len() as int
    } else {
        6
    }) + split_ext(path).1
}

fn split_ext_exec(path: &[char]) -> (r: (Vec<char>, Vec<char>))
    ensures
        (r.0@, r.1@) == split_ext(path@),
{
    let n = path.len();
    proof {
        lemma_rfind_before(path@, seq!['/'], path@.len() + 1int);
        lemma_rfind_before(path@, seq!['.'], path@.len() + 1int);
    }
    let start = match rfind_char(path, '/') {
        Some(s) => s + 1,
        None => 0,
    };
    match rfind_char(path, '.') {
        Some(i) => {
            proof {
                assert(crate::text::is_at(path@, seq!['.'], i as int));
            }
            if i > start {
                (slice(path, 0, i), slice(path, i, n))
            } else {
                (slice(path, 0, n), Vec::new())
            }
        },
        None => (slice(path, 0, n), Vec::new()),
    }
}

/// `wanted`, or the first `name-2.ext`, `name-3.ext`… that nothing in `taken` has.
pub fn free_path(wanted: &str, taken: &[String]) -> (r: String)
    ensures
        r@ == free_path_spec(wanted@, str_views(taken@)),
{
    string_of(&free_path_chars(&chars_of(wanted), taken))
}

fn free_path_chars(wanted: &[char], taken: &[String]) -> (r: Vec<char>)
    ensures
        r@ == free_path_spec(wanted@, str_views(taken@)),
{
    if !crate::attachments::has_file(taken, wanted) {
        return slice(wanted, 0, wanted.len());
    }
    let (stem, ext) = split_ext_exec(wanted);
    let mut n: u64 = 2;
    while n < 1000
        invariant
            2 <= n <= 1000,
            (stem@, ext@) == split_ext(wanted@),
            free_path_spec(wanted@, str_views(taken@)) == free_from(wanted@, str_views(taken@), n as nat),
        decreases 1000 - n,
    {
        let mut c = slice(&stem, 0, stem.len());
        c.push('-');
        append(&mut c, &fmt_u64(n));
        append(&mut c, &ext);
        proof {
            assert(c@ =~= stem@ + seq!['-'] + dec(n as nat) + ext@);
        }
        if !crate::attachments::has_file(taken, &c) {
            return c;
        }
        n += 1;
    }
    slice(wanted, 0, wanted.len())
}

fn suffixed(path: &[char], hash: &[char]) -> (r: Vec<char>)
    ensures
        r@ == suffixed_spec(path@, hash@),
{
    let (stem, ext) = split_ext_exec(path);
    let k = if hash.len() < 6 {
        hash.len()
    } else {
        6
    };
    let mut out = stem;
    out.push('-');
    append(&mut out, &slice(hash, 0, k));
    append(&mut out, &ext);
    out
}

/// The hash recorded for `path` (the last record, when there are several).
pub open spec fn hash_at(atts: Seq<(String, String)>, path: Seq<char>) -> Option<Seq<char>>
    decreases atts.len(),
{
    if atts.len() == 0 {
        None
    } else if atts.last().0@ == path {
        Some(atts.last().1@)
    } else {
        hash_at(atts.drop_last(), path)
    }
}

/// Where the source's notes go: each under the folder, renumbered past every path the
/// destination has and every path planned before it.
pub open spec fn plan_notes(folder: Seq<char>, src: Seq<(NoteId, String)>, taken: Seq<Seq<char>>) -> Seq<(Seq<char>, Seq<char>, Seq<char>, bool)>
    decreases src.len(),
{
    if src.len() == 0 {
        Seq::empty()
    } else {
        let wanted = join_spec(folder, src[0].1@);
        let to = free_path_spec(wanted, taken);
        seq![(ulid_text(src[0].0.0), src[0].1@, to, to != wanted)] + plan_notes(folder, src.drop_first(), taken.push(to))
    }
}

/// What becomes of one attachment, given the destination's.
pub open spec fn fate_of(dest: Seq<(String, String)>, path: Seq<char>, hash: Seq<char>) -> AttachmentFate {
    match hash_at(dest, path) {
        None => AttachmentFate::New,
        Some(h) => if h == hash {
            AttachmentFate::Same
        } else {
            AttachmentFate::Renamed
        },
    }
}

/// Where the source's attachments go: they stay at their paths, except one the destination has
/// with other bytes, which gets its hash in its name, numbered past every path the destination
/// has and every path planned before it.
pub open spec fn plan_attachments(dest: Seq<(String, String)>, src: Seq<(String, String)>, planned: Seq<Seq<char>>) -> Seq<(Seq<char>, Seq<char>, Seq<char>, AttachmentFate)>
    decreases src.len(),
{
    if src.len() == 0 {
        Seq::empty()
    } else {
        let path = src[0].0@;
        let hash = src[0].1@;
        let fate = fate_of(dest, path, hash);
        let to = if fate == AttachmentFate::Renamed {
            free_path_spec(suffixed_spec(path, hash), planned + dest.map_values(|p: (String, String)| p.0@))
        } else {
            path
        };
        seq![(path, to, hash, fate)] + plan_attachments(dest, src.drop_first(), planned.push(to))
    }
}

pub open spec fn note_views(v: Seq<PlannedNote>) -> Seq<(Seq<char>, Seq<char>, Seq<char>, bool)> {
    v.map_values(|n: PlannedNote| (n.id@, n.from@, n.to@, n.renamed))
}

pub open spec fn attachment_views(v: Seq<PlannedAttachment>) -> Seq<(Seq<char>, Seq<char>, Seq<char>, AttachmentFate)> {
    v.map_values(|a: PlannedAttachment| (a.from@, a.to@, a.hash@, a.fate))
}

/// The folder as given, trimmed of spaces and slashes.
pub open spec fn plan_folder(folder: Seq<char>) -> Seq<char> {
    strip_set(trim(folder), seq!['/'])
}

fn hash_at_exec(atts: &Vec<(String, String)>, path: &[char]) -> (r: Option<Vec<char>>)
    ensures
        match r {
            Some(h) => hash_at(atts@, path@) == Some(h@),
            None => hash_at(atts@, path@) is None,
        },
{
    let mut j = atts.len();
    while j > 0
        invariant
            j <= atts@.len(),
            hash_at(atts@, path@) == hash_at(atts@.take(j as int), path@),
        decreases j,
    {
        proof {
            assert(atts@.take(j as int).drop_last() =~= atts@.take(j - 1));
        }
        if eq(&chars_of(atts[j - 1].0.as_str()), path) {
            return Some(chars_of(atts[j - 1].1.as_str()));
        }
        j -= 1;
    }
    None
}

/// Work out where everything goes. Pure: no engine, no disk, no ordering surprises.
pub fn plan(from: VaultId, into: VaultId, folder: &str, source: &Survey, dest: &Survey) -> (r: MergePlan)
    ensures
        r.from@ == ulid_text(from.0),
        r.into@ == ulid_text(into.0),
        r.folder@ == plan_folder(folder@),
        note_views(r.notes@) == plan_notes(
            plan_folder(folder@),
            source.notes@,
            dest.notes@.map_values(|n: (NoteId, String)| n.1@),
        ),
        attachment_views(r.attachments@) == plan_attachments(dest.attachments@, source.attachments@, Seq::empty()),
{
    let sl = vec!['/'];
    proof {
        assert(sl@ =~= seq!['/']);
    }
    let fc = strip_set_exec(&trim_exec(&chars_of(folder)), &sl);
    let mut taken: Vec<String> = Vec::new();
    let mut i: usize = 0;
    while i < dest.notes.len()
        invariant
            i <= dest.notes@.len(),
            str_views(taken@) == dest.notes@.map_values(|n: (NoteId, String)| n.1@).take(i as int),
        decreases dest.notes.len() - i,
    {
        let ghost before = str_views(taken@);
        let t = dest.notes[i].1.as_str().to_owned();
        taken.push(t);
        proof {
            assert(str_views(taken@) =~= before.push(t@));
            assert(dest.notes@.map_values(|n: (NoteId, String)| n.1@).take(i + 1) =~= dest.notes@.map_values(
                |n: (NoteId, String)| n.1@,
            ).take(i as int).push(t@));
        }
        i += 1;
    }
    proof {
        assert(dest.notes@.map_values(|n: (NoteId, String)| n.1@).take(dest.notes@.len() as int)
            =~= dest.notes@.map_values(|n: (NoteId, String)| n.1@));
        assert(source.notes@.skip(0) =~= source.notes@);
    }
    let ghost all_notes = plan_notes(fc@, source.notes@, str_views(taken@));
    let mut notes: Vec<PlannedNote> = Vec::new();
    let mut i: usize = 0;
    while i < source.notes.len()
        invariant
            i <= source.notes@.len(),
            sl@ == seq!['/'],
            all_notes == note_views(notes@) + plan_notes(fc@, source.notes@.skip(i as int), str_views(taken@)),
        decreases source.notes.len() - i,
    {
        proof {
            assert(source.notes@.skip(i as int).drop_first() =~= source.notes@.skip(i + 1));
            assert(source.notes@.skip(i as int)[0] == source.notes@[i as int]);
        }
        let (id, path) = (source.notes[i].0, &source.notes[i].1);
        let pc = chars_of(path.as_str());
        let wanted = if fc.len() == 0 {
            slice(&pc, 0, pc.len())
        } else {
            let mut w = slice(&fc, 0, fc.len());
            w.push('/');
            append(&mut w, &pc);
            w
        };
        proof {
            assert(wanted@ =~= join_spec(fc@, pc@));
        }
        let to = free_path_chars(&wanted, taken.as_slice());
        let ghost before_t = str_views(taken@);
        let to_s = string_of(&to);
        taken.push(string_of(&to));
        let renamed = !eq(&to, &wanted);
        let ghost before_n = note_views(notes@);
        let pn = PlannedNote { id: id.to_string(), from: path.as_str().to_owned(), to: to_s, renamed };
        notes.push(pn);
        proof {
            assert(str_views(taken@) =~= before_t.push(to@));
            assert(note_views(notes@) =~= before_n.push((ulid_text(id.0), pc@, to@, renamed)));
            let rest = plan_notes(fc@, source.notes@.skip(i + 1), str_views(taken@));
            assert(note_views(notes@) + rest =~= before_n + (seq![(ulid_text(id.0), pc@, to@, renamed)] + rest));
        }
        i += 1;
    }
    proof {
        assert(source.notes@.skip(source.notes@.len() as int) =~= Seq::<(NoteId, String)>::empty());
        assert(note_views(notes@) =~= note_views(notes@) + Seq::<(Seq<char>, Seq<char>, Seq<char>, bool)>::empty());
    }
    let attachments = plan_attachments_exec(&dest.attachments, &source.attachments);
    MergePlan { from: from.to_string(), into: into.to_string(), folder: string_of(&fc), notes, attachments }
}

fn plan_attachments_exec(dest: &Vec<(String, String)>, source: &Vec<(String, String)>) -> (r: Vec<PlannedAttachment>)
    ensures
        attachment_views(r@) == plan_attachments(dest@, source@, Seq::empty()),
{
    let mut planned: Vec<String> = Vec::new();
    let mut out: Vec<PlannedAttachment> = Vec::new();
    proof {
        assert(source@.skip(0) =~= source@);
        assert(str_views(planned@) =~= Seq::<Seq<char>>::empty());
    }
    let ghost all = plan_attachments(dest@, source@, Seq::empty());
    let mut i: usize = 0;
    while i < source.len()
        invariant
            i <= source@.len(),
            all == attachment_views(out@) + plan_attachments(dest@, source@.skip(i as int), str_views(planned@)),
        decreases source.len() - i,
    {
        proof {
            assert(source@.skip(i as int).drop_first() =~= source@.skip(i + 1));
            assert(source@.skip(i as int)[0] == source@[i as int]);
        }
        let pc = chars_of(source[i].0.as_str());
        let hc = chars_of(source[i].1.as_str());
        let fate = match hash_at_exec(dest, &pc) {
            None => AttachmentFate::New,
            Some(h) => if eq(&h, &hc) {
                AttachmentFate::Same
            } else {
                AttachmentFate::Renamed
            },
        };
        let to: Vec<char> = if fate == AttachmentFate::Renamed {
            let mut both: Vec<String> = Vec::new();
            let mut k: usize = 0;
            while k < planned.len()
                invariant
                    k <= planned@.len(),
                    str_views(both@) == str_views(planned@).take(k as int),
                decreases planned.len() - k,
            {
                let ghost b0 = str_views(both@);
                let t = planned[k].as_str().to_owned();
                both.push(t);
                proof {
                    assert(str_views(both@) =~= b0.push(t@));
                    assert(str_views(planned@).take(k + 1) =~= str_views(planned@).take(k as int).push(t@));
                }
                k += 1;
            }
            let mut k: usize = 0;
            while k < dest.len()
                invariant
                    k <= dest@.len(),
                    str_views(both@) == str_views(planned@) + dest@.map_values(|p: (String, String)| p.0@).take(k as int),
                decreases dest.len() - k,
            {
                let ghost b0 = str_views(both@);
                let t = dest[k].0.as_str().to_owned();
                both.push(t);
                proof {
                    assert(str_views(both@) =~= b0.push(t@));
                    assert(dest@.map_values(|p: (String, String)| p.0@).take(k + 1) =~= dest@.map_values(
                        |p: (String, String)| p.0@,
                    ).take(k as int).push(t@));
                }
                k += 1;
            }
            proof {
                assert(str_views(planned@).take(planned@.len() as int) =~= str_views(planned@));
                assert(dest@.map_values(|p: (String, String)| p.0@).take(dest@.len() as int) =~= dest@.map_values(
                    |p: (String, String)| p.0@,
                ));
            }
            free_path_chars(&suffixed(&pc, &hc), both.as_slice())
        } else {
            slice(&pc, 0, pc.len())
        };
        let ghost before_p = str_views(planned@);
        let ghost before_o = attachment_views(out@);
        planned.push(string_of(&to));
        let pa = PlannedAttachment { from: string_of(&pc), to: string_of(&to), hash: string_of(&hc), fate };
        out.push(pa);
        proof {
            assert(str_views(planned@) =~= before_p.push(to@));
            assert(attachment_views(out@) =~= before_o.push((pc@, to@, hc@, fate)));
            let rest = plan_attachments(dest@, source@.skip(i + 1), str_views(planned@));
            assert(attachment_views(out@) + rest =~= before_o + (seq![(pc@, to@, hc@, fate)] + rest));
        }
        i += 1;
    }
    proof {
        assert(source@.skip(source@.len() as int) =~= Seq::<(String, String)>::empty());
        assert(attachment_views(out@) =~= attachment_views(out@) + Seq::<(Seq<char>, Seq<char>, Seq<char>, AttachmentFate)>::empty());
    }
    out
}

/// One rewrite applied: `](from)` links, and `[[name]]` / `[[name|` embeds when the name
/// changes.
pub open spec fn rewrite_one(out: Seq<char>, from: Seq<char>, to: Seq<char>) -> Seq<char> {
    if from == to {
        out
    } else {
        let o1 = replace(out, seq![']', '('] + from + seq![')'], seq![']', '('] + to + seq![')']);
        let fb = after_last(from, '/');
        let tb = after_last(to, '/');
        if fb != tb {
            let o2 = replace(o1, seq!['[', '['] + fb + seq![']', ']'], seq!['[', '['] + tb + seq![']', ']']);
            replace(o2, seq!['[', '['] + fb + seq!['|'], seq!['[', '['] + tb + seq!['|'])
        } else {
            o1
        }
    }
}

/// The rewrites applied in order.
pub open spec fn rewrite_all(out: Seq<char>, rewrites: Seq<(Seq<char>, Seq<char>)>) -> Seq<char>
    decreases rewrites.len(),
{
    if rewrites.len() == 0 {
        out
    } else {
        rewrite_all(rewrite_one(out, rewrites[0].0, rewrites[0].1), rewrites.drop_first())
    }
}

fn wrap(open: &[char], mid: &[char], close: &[char]) -> (r: Vec<char>)
    ensures
        r@ == open@ + mid@ + close@,
{
    let mut v = concat(open, mid);
    append(&mut v, close);
    v
}

/// Point a note's attachment references at their new paths.
///
/// Two forms carry them: a markdown link or image whose target is the vault-relative path, and
/// a wikilink embed that names the file — usually by basename. Both are rewritten; anything
/// else is left exactly as it was, because a merge has no business editing prose.
pub fn rewrite_references(text: &str, rewrites: &[(String, String)]) -> (r: String)
    ensures
        r@ == rewrite_all(text@, pair_views(rewrites@)),
{
    let ghost rs = pair_views(rewrites@);
    let mut out = chars_of(text);
    let lp = vec![']', '('];
    let rp = vec![')'];
    let lw = vec!['[', '['];
    let rw = vec![']', ']'];
    let bar = vec!['|'];
    proof {
        assert(lp@ =~= seq![']', '(']);
        assert(rp@ =~= seq![')']);
        assert(lw@ =~= seq!['[', '[']);
        assert(rw@ =~= seq![']', ']']);
        assert(bar@ =~= seq!['|']);
        assert(rs.skip(0) =~= rs);
    }
    let mut i: usize = 0;
    while i < rewrites.len()
        invariant
            i <= rewrites@.len(),
            rs == pair_views(rewrites@),
            lp@ == seq![']', '('],
            rp@ == seq![')'],
            lw@ == seq!['[', '['],
            rw@ == seq![']', ']'],
            bar@ == seq!['|'],
            rewrite_all(text@, rs) == rewrite_all(out@, rs.skip(i as int)),
        decreases rewrites.len() - i,
    {
        proof {
            assert(rs.skip(i as int).drop_first() =~= rs.skip(i + 1));
            assert(rs.skip(i as int)[0] == (rewrites@[i as int].0@, rewrites@[i as int].1@));
        }
        let f = chars_of(rewrites[i].0.as_str());
        let t = chars_of(rewrites[i].1.as_str());
        if !eq(&f, &t) {
            let o1 = replace_exec(&out, &wrap(&lp, &f, &rp), &wrap(&lp, &t, &rp));
            let fb = crate::attachments::after_last_exec(&f, '/');
            let tb = crate::attachments::after_last_exec(&t, '/');
            if !eq(&fb, &tb) {
                let o2 = replace_exec(&o1, &wrap(&lw, &fb, &rw), &wrap(&lw, &tb, &rw));
                out = replace_exec(&o2, &wrap(&lw, &fb, &bar), &wrap(&lw, &tb, &bar));
            } else {
                out = o1;
            }
        }
        i += 1;
    }
    proof {
        assert(rs.skip(rewrites@.len() as int) =~= Seq::<(Seq<char>, Seq<char>)>::empty());
    }
    string_of(&out)
}

} // verus!
