//! The on-disk view of a vault: where its files are, which of them the sync leaves alone, and
//! how a link target relative to one note names another file of the vault.
//!
//! Paths are `/`-separated strings throughout: the vault's root as the caller gave it, and
//! vault-relative paths below it.
use vstd::prelude::*;
use crate::error::Error;
use crate::text::{after_last, append, chars_of, concat, ends_with, ends_with_exec, eq, join, join_exec, lemma_rfind_before, rfind, rfind_char, slice, split, split_exec, starts_with, starts_with_exec, string_of, strip_start_set, strip_start_set_exec};

verus! {

broadcast use vstd::seq_lib::group_seq_properties;

/// Sidecar directory inside a projected vault.
pub const SIDECAR_DIR: &'static str = ".notes";

/// The extensions a note has.
pub open spec fn note_extensions() -> Seq<Seq<char>> {
    seq![seq!['m', 'd'], seq!['q', 'm', 'd']]
}

pub open spec fn sidecar_name() -> Seq<char> {
    seq!['.', 'n', 'o', 't', 'e', 's']
}

/// The views of a sequence of character vectors.
pub open spec fn views(v: Seq<Vec<char>>) -> Seq<Seq<char>> {
    v.map_values(|x: Vec<char>| x@)
}

/// The views of a sequence of strings.
pub open spec fn str_views(v: Seq<String>) -> Seq<Seq<char>> {
    v.map_values(|x: String| x@)
}

pub open spec fn dot() -> Seq<char> {
    seq!['.']
}

pub open spec fn dotdot() -> Seq<char> {
    seq!['.', '.']
}

/// One segment of a relative path applied to the folders walked so far: empty and `.` stay,
/// `..` goes up (and cannot go above the root), anything else goes down.
pub open spec fn seg_step(parts: Seq<Seq<char>>, seg: Seq<char>) -> Option<Seq<Seq<char>>> {
    if seg.len() == 0 || seg == dot() {
        Some(parts)
    } else if seg == dotdot() {
        if parts.len() == 0 {
            None
        } else {
            Some(parts.drop_last())
        }
    } else {
        Some(parts.push(seg))
    }
}

/// The segments walked in order from the root; `None` when one of them leaves the vault.
pub open spec fn walk_segs(segs: Seq<Seq<char>>) -> Option<Seq<Seq<char>>>
    decreases segs.len(),
{
    if segs.len() == 0 {
        Some(Seq::empty())
    } else {
        match walk_segs(segs.drop_last()) {
            Some(p) => seg_step(p, segs.last()),
            None => None,
        }
    }
}

/// The folder of a vault-relative file path (`""` for a file at the root).
pub open spec fn parent_dir(p: Seq<char>) -> Seq<char> {
    match rfind(p, seq!['/']) {
        Some(i) => p.take(i),
        None => Seq::empty(),
    }
}

/// `target` resolved against the folder of `from`: from the root when it starts with `/`,
/// `.` and `..` collapsed; `None` when it escapes the vault or names nothing.
pub open spec fn normalize_relative_spec(from: Seq<char>, target: Seq<char>) -> Option<Seq<char>> {
    let base = parent_dir(from);
    let joined = if starts_with(target, seq!['/']) {
        strip_start_set(target, seq!['/'])
    } else if base.len() == 0 {
        target
    } else {
        base + seq!['/'] + target
    };
    match walk_segs(split(joined, '/')) {
        Some(parts) => if parts.len() == 0 {
            None
        } else {
            Some(join(parts, seq!['/']))
        },
        None => None,
    }
}

/// `rel` under `root`, as `Path::join` puts it.
pub open spec fn join_path(root: Seq<char>, rel: Seq<char>) -> Seq<char> {
    if starts_with(rel, seq!['/']) || root.len() == 0 {
        rel
    } else if ends_with(root, seq!['/']) {
        root + rel
    } else {
        root + seq!['/'] + rel
    }
}

/// A path segment the projection leaves alone: the sidecar, anything hidden, a temp file.
pub open spec fn ignored_seg(s: Seq<char>) -> bool {
    &&& s.len() > 0
    &&& s != dot()
    &&& s != dotdot()
    &&& (s == sidecar_name() || s[0] == '.' || ends_with(s, seq!['.', 't', 'm', 'p']))
}

/// `path` with the vault root taken off its front, when it is under it.
pub open spec fn under_root(root: Seq<char>, path: Seq<char>) -> Seq<char> {
    if starts_with(path, root) && (path.len() == root.len() || path[root.len() as int] == '/'
        || ends_with(root, seq!['/'])) {
        path.skip(root.len() as int)
    } else {
        path
    }
}

pub open spec fn is_ignored_spec(root: Seq<char>, path: Seq<char>) -> bool {
    exists|k: int|
        0 <= k < split(under_root(root, path), '/').len() && #[trigger] ignored_seg(
            split(under_root(root, path), '/')[k],
        )
}

/// The last component of a `/`-separated path, skipping empty and `.` segments.
pub open spec fn last_component(segs: Seq<Seq<char>>) -> Option<Seq<char>>
    decreases segs.len(),
{
    if segs.len() == 0 {
        None
    } else if segs.last().len() == 0 || segs.last() == dot() {
        last_component(segs.drop_last())
    } else {
        Some(segs.last())
    }
}

/// `Path::file_name`.
pub open spec fn file_name(p: Seq<char>) -> Option<Seq<char>> {
    match last_component(split(p, '/')) {
        Some(s) => if s == dotdot() {
            None
        } else {
            Some(s)
        },
        None => None,
    }
}

/// The extension of a file name: what follows its last `.`, unless that `.` starts the name.
pub open spec fn name_extension(name: Seq<char>) -> Option<Seq<char>> {
    match rfind(name, seq!['.']) {
        Some(i) => if i > 0 {
            Some(name.skip(i + 1))
        } else {
            None
        },
        None => None,
    }
}

/// `Path::extension`.
pub open spec fn path_extension(p: Seq<char>) -> Option<Seq<char>> {
    match file_name(p) {
        Some(n) => name_extension(n),
        None => None,
    }
}

/// Whether the two paths differ in nothing but their text being the same.
pub fn same(a: &[char], b: &[char]) -> (r: bool)
    ensures
        r == (a@ == b@),
{
    eq(a, b)
}

fn is_dot(s: &[char]) -> (r: bool)
    ensures
        r == (s@ == dot()),
{
    let r = s.len() == 1 && s[0] == '.';
    proof {
        if s@.len() == 1 && s@[0] == '.' {
            assert(s@ =~= dot());
        }
    }
    r
}

fn is_dotdot(s: &[char]) -> (r: bool)
    ensures
        r == (s@ == dotdot()),
{
    let r = s.len() == 2 && s[0] == '.' && s[1] == '.';
    proof {
        if s@.len() == 2 && s@[0] == '.' && s@[1] == '.' {
            assert(s@ =~= dotdot());
        }
    }
    r
}

/// Walks the segments from the root.
pub fn walk_segs_exec(segs: &Vec<Vec<char>>) -> (r: Option<Vec<Vec<char>>>)
    ensures
        match r {
            Some(p) => walk_segs(views(segs@)) == Some(views(p@)),
            None => walk_segs(views(segs@)) is None,
        },
{
    let ghost vs = views(segs@);
    let mut parts: Vec<Vec<char>> = Vec::new();
    let mut i: usize = 0;
    while i < segs.len()
        invariant
            i <= segs.len(),
            vs == views(segs@),
            walk_segs(vs.take(i as int)) == Some(views(parts@)),
        decreases segs.len() - i,
    {
        proof {
            assert(vs.take(i + 1).drop_last() =~= vs.take(i as int));
        }
        let seg = &segs[i];
        if seg.len() == 0 || is_dot(seg) {
        } else if is_dotdot(seg) {
            if parts.len() == 0 {
                proof {
                    lemma_walk_none(vs, i as int + 1);
                }
                return None;
            }
            let ghost before = parts@;
            parts.pop();
            proof {
                assert(views(parts@) =~= views(before).drop_last());
            }
        } else {
            let copy = slice(seg, 0, seg.len());
            parts.push(copy);
        }
        proof {
            assert(views(parts@) =~= walk_segs(vs.take(i + 1))->0);
        }
        i += 1;
    }
    proof {
        assert(vs.take(segs.len() as int) =~= vs);
    }
    Some(parts)
}

/// Once the walk has left the vault, walking on does not bring it back.
proof fn lemma_walk_none(vs: Seq<Seq<char>>, j: int)
    requires
        0 <= j <= vs.len(),
        walk_segs(vs.take(j)) is None,
    ensures
        walk_segs(vs) is None,
    decreases vs.len() - j,
{
    if j < vs.len() {
        assert(vs.take(j + 1).drop_last() =~= vs.take(j));
        lemma_walk_none(vs, j + 1);
    } else {
        assert(vs.take(j) =~= vs);
    }
}

/// The folder of a vault-relative file path.
pub fn parent_dir_exec(p: &[char]) -> (r: Vec<char>)
    ensures
        r@ == parent_dir(p@),
{
    proof {
        lemma_rfind_before(p@, seq!['/'], p@.len() + 1int);
    }
    match rfind_char(p, '/') {
        Some(i) => slice(p, 0, i),
        None => Vec::new(),
    }
}

/// The segments joined with `/`, when there are any.
fn joined_or_none(parts: Option<Vec<Vec<char>>>) -> (r: Option<String>)
    ensures
        match parts {
            Some(p) => if p@.len() == 0 {
                r is None
            } else {
                r matches Some(s) && s@ == join(views(p@), seq!['/'])
            },
            None => r is None,
        },
{
    match parts {
        Some(p) => {
            if p.len() == 0 {
                None
            } else {
                let sep = vec!['/'];
                proof {
                    assert(sep@ =~= seq!['/']);
                }
                Some(string_of(&join_exec(&p, &sep)))
            }
        },
        None => None,
    }
}

/// A vault, laid out on disk under `root`.
#[derive(Debug, Clone)]
pub struct Projection {
    root: String,
}

impl Projection {
    pub closed spec fn root_view(&self) -> Seq<char> {
        self.root@
    }

    pub fn new(root: String) -> (r: Projection)
        ensures
            r.root_view() == root@,
    {
        Projection { root }
    }

    pub fn root(&self) -> (r: &str)
        ensures
            r@ == self.root_view(),
    {
        self.root.as_str()
    }

    /// The sidecar directory inside the vault.
    pub fn sidecar_dir(&self) -> (r: String)
        ensures
            r@ == join_path(self.root_view(), sidecar_name()),
    {
        let side = chars_of(SIDECAR_DIR);
        proof {
            reveal_strlit(".notes");
            assert(side@ =~= sidecar_name());
        }
        join_path_exec(&chars_of(self.root.as_str()), &side)
    }

    /// The on-disk path of a vault-relative path; an absolute path or one with a `..` segment
    /// would leave the vault and is refused.
    pub fn resolve(&self, rel: &str) -> (r: Result<String, Error>)
        ensures
            (starts_with(rel@, seq!['/']) || split(rel@, '/').contains(dotdot())) ==> (r matches Err(
                Error::PathEscape(s),
            ) && s@ == rel@),
            !(starts_with(rel@, seq!['/']) || split(rel@, '/').contains(dotdot())) ==> (r matches Ok(
                p,
            ) && p@ == join_path(self.root_view(), rel@)),
    {
        let c = chars_of(rel);
        let slash = vec!['/'];
        proof {
            assert(slash@ =~= seq!['/']);
        }
        let segs = split_exec(&c, '/');
        let mut escapes = starts_with_exec(&c, &slash);
        let mut i: usize = 0;
        while i < segs.len()
            invariant
                i <= segs.len(),
                segs@.len() == split(c@, '/').len(),
                forall|k: int| 0 <= k < segs@.len() ==> #[trigger] segs@[k]@ == split(c@, '/')[k],
                escapes == (starts_with(c@, seq!['/']) || exists|k: int|
                    0 <= k < i && #[trigger] split(c@, '/')[k] == dotdot()),
            decreases segs.len() - i,
        {
            if is_dotdot(&segs[i]) {
                escapes = true;
            }
            i += 1;
        }
        proof {
            if split(rel@, '/').contains(dotdot()) {
                let k = choose|k: int| 0 <= k < split(rel@, '/').len() && split(rel@, '/')[k] == dotdot();
                assert(split(c@, '/')[k] == dotdot());
            }
        }
        if escapes {
            Err(Error::PathEscape(rel.to_owned()))
        } else {
            Ok(join_path_exec(&chars_of(self.root.as_str()), &c))
        }
    }

    /// Whether the projection leaves `path` alone: the sidecar, a hidden entry, a temp file.
    pub fn is_ignored(&self, path: &str) -> (r: bool)
        ensures
            r == is_ignored_spec(self.root_view(), path@),
    {
        let root = chars_of(self.root.as_str());
        let p = chars_of(path);
        let rel = under_root_exec(&root, &p);
        let segs = split_exec(&rel, '/');
        let mut i: usize = 0;
        while i < segs.len()
            invariant
                i <= segs.len(),
                rel@ == under_root(self.root_view(), path@),
                segs@.len() == split(rel@, '/').len(),
                forall|k: int| 0 <= k < segs@.len() ==> #[trigger] segs@[k]@ == split(rel@, '/')[k],
                forall|k: int| 0 <= k < i ==> !#[trigger] ignored_seg(split(rel@, '/')[k]),
            decreases segs.len() - i,
        {
            if ignored_seg_exec(&segs[i]) {
                proof {
                    assert(rel@ == under_root(self.root_view(), path@));
                    assert(ignored_seg(split(under_root(self.root_view(), path@), '/')[i as int]));
                }
                return true;
            }
            i += 1;
        }
        false
    }

    /// Whether `path` names a note: its extension is `md` or `qmd`.
    pub fn is_note_path(path: &str) -> (r: bool)
        ensures
            r == (path_extension(path@) matches Some(e) && note_extensions().contains(e)),
    {
        match path_extension_exec(&chars_of(path)) {
            Some(e) => is_note_extension(&e),
            None => false,
        }
    }

    /// Resolve `target` relative to the directory of `from` (a vault-relative file path),
    /// collapsing `.` and `..`, and reject anything that escapes the vault.
    pub fn normalize_relative(from: &str, target: &str) -> (r: Option<String>)
        ensures
            match r {
                Some(s) => normalize_relative_spec(from@, target@) == Some(s@),
                None => normalize_relative_spec(from@, target@) is None,
            },
    {
        let f = chars_of(from);
        let t = chars_of(target);
        let base = parent_dir_exec(&f);
        let slash = vec!['/'];
        proof {
            assert(slash@ =~= seq!['/']);
        }
        let joined = if starts_with_exec(&t, &slash) {
            strip_start_set_exec(&t, &slash)
        } else if base.len() == 0 {
            t
        } else {
            let mut j = base;
            j.push('/');
            append(&mut j, &t);
            j
        };
        proof {
            let base_s = parent_dir(from@);
            let spec_joined = if starts_with(target@, seq!['/']) {
                strip_start_set(target@, seq!['/'])
            } else if base_s.len() == 0 {
                target@
            } else {
                base_s + seq!['/'] + target@
            };
            assert(joined@ =~= spec_joined);
        }
        let segs = split_exec(&joined, '/');
        proof {
            assert(views(segs@) =~= split(joined@, '/'));
        }
        let walked = walk_segs_exec(&segs);
        joined_or_none(walked)
    }
}

/// `Path::join` on `/`-separated paths.
pub fn join_path_exec(root: &[char], rel: &[char]) -> (r: String)
    ensures
        r@ == join_path(root@, rel@),
{
    let slash = vec!['/'];
    proof {
        assert(slash@ =~= seq!['/']);
    }
    if starts_with_exec(rel, &slash) || root.len() == 0 {
        string_of(rel)
    } else if ends_with_exec(root, &slash) {
        string_of(&concat(root, rel))
    } else {
        let mut out = slice(root, 0, root.len());
        out.push('/');
        append(&mut out, rel);
        string_of(&out)
    }
}

fn under_root_exec(root: &[char], path: &[char]) -> (r: Vec<char>)
    ensures
        r@ == under_root(root@, path@),
{
    let slash = vec!['/'];
    proof {
        assert(slash@ =~= seq!['/']);
    }
    if starts_with_exec(path, root) && (path.len() == root.len() || path[root.len()] == '/'
        || ends_with_exec(root, &slash)) {
        slice(path, root.len(), path.len())
    } else {
        slice(path, 0, path.len())
    }
}

fn ignored_seg_exec(s: &[char]) -> (r: bool)
    ensures
        r == ignored_seg(s@),
{
    let side = chars_of(SIDECAR_DIR);
    let tmp = vec!['.', 't', 'm', 'p'];
    proof {
        reveal_strlit(".notes");
        assert(side@ =~= sidecar_name());
        assert(tmp@ =~= seq!['.', 't', 'm', 'p']);
    }
    s.len() > 0 && !is_dot(s) && !is_dotdot(s) && (eq(s, &side) || s[0] == '.' || ends_with_exec(
        s,
        &tmp,
    ))
}

/// The last component of a path.
pub fn file_name_exec(p: &[char]) -> (r: Option<Vec<char>>)
    ensures
        match r {
            Some(n) => file_name(p@) == Some(n@),
            None => file_name(p@) is None,
        },
{
    let segs = split_exec(p, '/');
    let ghost vs = split(p@, '/');
    let mut j = segs.len();
    while j > 0 && (segs[j - 1].len() == 0 || is_dot(&segs[j - 1]))
        invariant
            j <= segs@.len(),
            segs@.len() == vs.len(),
            forall|k: int| 0 <= k < segs@.len() ==> #[trigger] segs@[k]@ == vs[k],
            last_component(vs.take(j as int)) == last_component(vs),
        decreases j,
    {
        proof {
            assert(vs.take(j - 1) =~= vs.take(j as int).drop_last());
        }
        j -= 1;
    }
    if j == 0 {
        proof {
            assert(vs.take(0) =~= Seq::<Seq<char>>::empty());
        }
        return None;
    }
    proof {
        assert(vs.take(j as int).last() == vs[j - 1]);
    }
    let last = &segs[j - 1];
    if is_dotdot(last) {
        None
    } else {
        Some(slice(last, 0, last.len()))
    }
}

/// The extension of a file name.
pub fn name_extension_exec(name: &[char]) -> (r: Option<Vec<char>>)
    ensures
        match r {
            Some(e) => name_extension(name@) == Some(e@),
            None => name_extension(name@) is None,
        },
{
    let n = name.len();
    proof {
        lemma_rfind_before(name@, seq!['.'], name@.len() + 1int);
    }
    match rfind_char(name, '.') {
        Some(i) => {
            proof {
                assert(crate::text::is_at(name@, seq!['.'], i as int));
                assert(seq!['.'].len() == 1);
            }
            if i > 0 {
                Some(slice(name, i + 1, n))
            } else {
                None
            }
        },
        None => None,
    }
}

/// `Path::extension`.
pub fn path_extension_exec(p: &[char]) -> (r: Option<Vec<char>>)
    ensures
        match r {
            Some(e) => path_extension(p@) == Some(e@),
            None => path_extension(p@) is None,
        },
{
    match file_name_exec(p) {
        Some(n) => name_extension_exec(&n),
        None => None,
    }
}

fn is_note_extension(e: &[char]) -> (r: bool)
    ensures
        r == note_extensions().contains(e@),
{
    let md = vec!['m', 'd'];
    let qmd = vec!['q', 'm', 'd'];
    proof {
        assert(md@ =~= seq!['m', 'd']);
        assert(qmd@ =~= seq!['q', 'm', 'd']);
        assert(note_extensions()[0] == md@);
        assert(note_extensions()[1] == qmd@);
    }
    let r = eq(e, &md) || eq(e, &qmd);
    proof {
        if note_extensions().contains(e@) {
            let k = choose|k: int| 0 <= k < 2 && note_extensions()[k] == e@;
        }
    }
    r
}

/// The vault path a walk reports for a file found at `path`: what follows the root, with `/`
/// between segments; the path itself when it is not under the root.
pub open spec fn walk_rel(root: Seq<char>, path: Seq<char>) -> Seq<char> {
    let r = if starts_with(path, root) && path.len() > root.len() && path[root.len() as int] == '/' {
        path.skip(root.len() as int + 1)
    } else {
        under_root(root, path)
    };
    crate::text::replace(r, seq!['\\'], seq!['/'])
}

/// Whether `path` names a note.
pub open spec fn is_note_spec(path: Seq<char>) -> bool {
    path_extension(path) matches Some(e) && note_extensions().contains(e)
}

/// The vault paths of the found files a walk keeps, in the order found: those not ignored,
/// and notes or other files as asked.
pub open spec fn walk_kept(root: Seq<char>, found: Seq<Seq<char>>, notes: bool) -> Seq<Seq<char>>
    decreases found.len(),
{
    if found.len() == 0 {
        seq![]
    } else {
        let rest = walk_kept(root, found.drop_last(), notes);
        let p = found.last();
        if !is_ignored_spec(root, p) && is_note_spec(p) == notes {
            rest.push(walk_rel(root, p))
        } else {
            rest
        }
    }
}

/// Texts in order, equal ones side by side.
pub open spec fn texts_sorted(v: Seq<Seq<char>>) -> bool {
    forall|i: int, j: int| 0 <= i < j < v.len() ==> !crate::remote::text_lt(#[trigger] v[j], #[trigger] v[i])
}

/// Puts `s` into the sorted vector `out`, after the texts not greater than it.
fn insert_in_order(out: &mut Vec<String>, s: String)
    requires
        texts_sorted(str_views(old(out)@)),
    ensures
        texts_sorted(str_views(final(out)@)),
        str_views(final(out)@).to_multiset() == str_views(old(out)@).to_multiset().insert(s@),
{
    let x = chars_of(s.as_str());
    let mut p: usize = 0;
    while p < out.len() && !crate::remote::text_less(&x, &chars_of(out[p].as_str()))
        invariant
            p <= out@.len(),
            x@ == s@,
            forall|k: int| 0 <= k < p ==> !crate::remote::text_lt(x@, (#[trigger] out@[k])@),
        decreases out@.len() - p,
    {
        p += 1;
    }
    let ghost before = str_views(out@);
    proof {
        assert forall|k: int| p <= k < before.len() implies !crate::remote::text_lt(#[trigger] before[k], x@) by {
            if crate::remote::text_lt(before[k], x@) {
                assert(p < before.len());
                assert(crate::remote::text_lt(x@, before[p as int]));
                crate::remote::lemma_text_lt_trans(before[k], x@, before[p as int]);
                if p < k {
                    assert(!crate::remote::text_lt(before[k], before[p as int]));
                } else {
                    crate::remote::lemma_text_lt_asym(before[k], x@);
                }
            }
        }
    }
    out.insert(p, s);
    proof {
        let after = str_views(out@);
        assert(after =~= before.insert(p as int, x@));
        assert forall|a: int, b: int| 0 <= a < b < after.len() implies !crate::remote::text_lt(
            #[trigger] after[b],
            #[trigger] after[a],
        ) by {
            if b < p {
                assert(after[a] == before[a] && after[b] == before[b]);
            } else if b == p {
                assert(after[a] == before[a]);
            } else if a == p {
                assert(after[b] == before[b - 1]);
            } else if a < p {
                assert(after[a] == before[a] && after[b] == before[b - 1]);
            } else {
                assert(after[a] == before[a - 1] && after[b] == before[b - 1]);
            }
        }
        vstd::seq_lib::to_multiset_insert(before, p as int, x@);
    }
}

impl Projection {
    fn walk_rel_exec(&self, path: &str) -> (r: String)
        ensures
            r@ == walk_rel(self.root_view(), path@),
    {
        let root = chars_of(self.root.as_str());
        let p = chars_of(path);
        let r = if starts_with_exec(&p, &root) && p.len() > root.len() && p[root.len()] == '/' {
            slice(&p, root.len() + 1, p.len())
        } else {
            under_root_exec(&root, &p)
        };
        proof {
            assert(p@.subrange(root@.len() as int + 1, p@.len() as int) =~= p@.skip(root@.len() as int + 1));
        }
        let from = vec!['\\'];
        let to = vec!['/'];
        proof {
            assert(from@ =~= seq!['\\']);
            assert(to@ =~= seq!['/']);
        }
        string_of(&crate::text::replace_exec(&r, &from, &to))
    }

    fn walk_kept_sorted(&self, found: Vec<String>, notes: bool) -> (r: Vec<String>)
        ensures
            texts_sorted(str_views(r@)),
            str_views(r@).to_multiset() == walk_kept(self.root_view(), str_views(found@), notes).to_multiset(),
    {
        let mut out: Vec<String> = Vec::new();
        let mut i: usize = 0;
        proof {
            assert(str_views(found@).take(0) =~= Seq::<Seq<char>>::empty());
            assert(str_views(out@) =~= Seq::<Seq<char>>::empty());
        }
        while i < found.len()
            invariant
                i <= found@.len(),
                texts_sorted(str_views(out@)),
                str_views(out@).to_multiset() == walk_kept(
                    self.root_view(),
                    str_views(found@).take(i as int),
                    notes,
                ).to_multiset(),
            decreases found@.len() - i,
        {
            let ghost f = str_views(found@);
            proof {
                assert(f.take(i + 1).drop_last() =~= f.take(i as int));
                assert(f.take(i + 1).last() == found@[i as int]@);
            }
            let p = found[i].as_str();
            if !self.is_ignored(p) && Projection::is_note_path(p) == notes {
                let rel = self.walk_rel_exec(p);
                insert_in_order(&mut out, rel);
                proof {
                    vstd::seq_lib::to_multiset_build(
                        walk_kept(self.root_view(), f.take(i as int), notes),
                        walk_rel(self.root_view(), found@[i as int]@),
                    );
                }
            }
            i += 1;
        }
        proof {
            assert(str_views(found@).take(found@.len() as int) =~= str_views(found@));
        }
        out
    }

    /// The vault's files other than notes, as vault paths in order, from the files found
    /// under the root; ignored ones (the sidecar, hidden, temp files) are left out.
    pub fn walk_files(&self, found: Vec<String>) -> (r: Vec<String>)
        ensures
            texts_sorted(str_views(r@)),
            str_views(r@).to_multiset() == walk_kept(self.root_view(), str_views(found@), false).to_multiset(),
    {
        self.walk_kept_sorted(found, false)
    }

    /// The vault's notes, as vault paths in order, from the files found under the root;
    /// ignored ones are left out.
    pub fn walk_notes(&self, found: Vec<String>) -> (r: Vec<String>)
        ensures
            texts_sorted(str_views(r@)),
            str_views(r@).to_multiset() == walk_kept(self.root_view(), str_views(found@), true).to_multiset(),
    {
        self.walk_kept_sorted(found, true)
    }
}

/// Two texts `similar`'s diff turns into edits: both fit the edits' offsets, and the diff
/// covers both.
pub open spec fn edits_fit(a: Seq<char>, b: Seq<char>) -> bool {
    &&& crate::text::byte_len(a) <= u32::MAX
    &&& crate::text::byte_len(b) <= u32::MAX
    &&& (a == b || crate::diff::covers(crate::diff::char_diff(a, b), a, b))
}

/// The change from `a` to `b` can be applied: there is none, or it fits edits.
pub open spec fn diffable(a: Seq<char>, b: Seq<char>) -> bool {
    a == b || edits_fit(a, b)
}

/// The edits from `a` to `b`, where the two are [`diffable`]; a CRDT error where not.
fn edits_between(a: &str, b: &str) -> (r: Result<Vec<crate::diff::TextOp>, Error>)
    ensures
        r is Ok <==> edits_fit(a@, b@),
        r matches Ok(ops) ==> crate::diff::apply_edits(a@, crate::diff::edits(ops@)) == Some(b@) && (a@ == b@
            ==> ops@.len() == 0),
        r matches Err(e) ==> e is Crdt,
{
    if !crate::diff::byte_len_le(a, 4294967295) || !crate::diff::byte_len_le(b, 4294967295) {
        return Err(Error::Crdt("a text too long for edits".to_owned()));
    }
    match crate::diff::try_text_ops(a, b) {
        Some(ops) => Ok(ops),
        None => Err(Error::Crdt("a change the diff cannot express".to_owned())),
    }
}

/// Applies an edit made to the file outside the app. `last_projected` is the text this device
/// last wrote to or read from disk for the note; `on_disk` is the file now. Returns the CRDT
/// update, empty when the file still holds what was known.
///
/// When the document still holds `last_projected`, the file's change is applied to it as
/// edits, and the document then holds `on_disk`. When it has moved on (an edit from elsewhere
/// came in meanwhile), both changes are replayed on two replicas of `last_projected` and
/// merged by the CRDT, and the document takes the merged text. A failure leaves the document
/// as it was.
pub fn ingest_external_edit(doc: &mut crate::doc::NoteDoc, last_projected: &str, on_disk: &str) -> (r: Result<
    Vec<u8>,
    Error,
>)
    ensures
        last_projected@ == on_disk@ ==> (r matches Ok(u) && u@.len() == 0 && final(doc).text_view()
            == old(doc).text_view()),
        old(doc).text_view() == last_projected@ ==> (r is Ok <==> diffable(last_projected@, on_disk@)),
        old(doc).text_view() == last_projected@ && r is Ok ==> final(doc).text_view() == on_disk@,
        r is Err ==> final(doc).text_view() == old(doc).text_view(),
{
    if crate::text::eq(&chars_of(last_projected), &chars_of(on_disk)) {
        return Ok(Vec::new());
    }
    let ops = edits_between(last_projected, on_disk)?;
    let current = doc.text();
    if crate::text::eq(&chars_of(current.as_str()), &chars_of(last_projected)) {
        return Ok(doc.apply_ops(ops.as_slice()));
    }
    let mut base = crate::doc::NoteDoc::new();
    let base_ops = edits_between("", last_projected)?;
    proof {
        reveal_strlit("");
    }
    base.apply_ops(base_ops.as_slice());
    let base_full = base.encode_full();
    let mut external = crate::doc::NoteDoc::from_updates(&[base_full.clone()])?;
    let ext_text = external.text();
    if !crate::text::eq(&chars_of(ext_text.as_str()), &chars_of(last_projected)) {
        return Err(Error::Crdt("a snapshot that does not give its text back".to_owned()));
    }
    let ext_update = external.apply_ops(ops.as_slice());
    let mut ours = crate::doc::NoteDoc::from_updates(&[base_full])?;
    let ours_text = ours.text();
    if !crate::text::eq(&chars_of(ours_text.as_str()), &chars_of(last_projected)) {
        return Err(Error::Crdt("a snapshot that does not give its text back".to_owned()));
    }
    let own_ops = edits_between(last_projected, current.as_str())?;
    ours.apply_ops(own_ops.as_slice());
    ours.apply_update(ext_update.as_slice())?;
    let merged = ours.text();
    match doc.try_set_text(merged.as_str()) {
        Some(u) => Ok(u),
        None => Err(Error::Crdt("a merge the diff cannot express".to_owned())),
    }
}

} // verus!
