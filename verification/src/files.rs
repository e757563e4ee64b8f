//! The vault's files that are not notes, as the file manager sees them: what it lists, which
//! paths it accepts, and how notes follow a file that moves.
use vstd::prelude::*;
use crate::attachments::{after_last_exec, is_vault_resource, is_vault_resource_spec, resolve_reference, resolve_reference_spec, yaml_paths, yaml_paths_spec};
use crate::frontmatter::{block_chars, block_chars_exec, lemma_block_chars};
use crate::ids::{ulid_text, NoteId};
use crate::import::{closes_fence, closes_fence_exec, fence_marker, fence_marker_exec, fence_view, hidden_path, upload_path, upload_path_spec};
use crate::projection::{str_views, views};
use crate::text::{after_last, append, chars_of, concat, contains, contains_char, contains_exec, ends_with, ends_with_exec, eq, find, find_any_from, find_any_from_exec, find_exec, is_at, is_ws, is_ws_exec, join, join_exec, lemma_find, lower_seq, lower_vec, replace, replace_exec, slice, split, split_exec, split_inclusive, split_inclusive_exec, starts_with, starts_with_exec, string_of, trim, trim_exec, trim_start, trim_start_exec};

verus! {

broadcast use vstd::seq_lib::group_seq_properties;

// ---------------------------------------------------------------------------------------------
// Paths
// ---------------------------------------------------------------------------------------------

/// A path the file manager may write to: a normalised upload path that hides nothing and is
/// neither a note nor a temp file.
pub open spec fn file_path_spec(raw: Seq<char>) -> Option<Seq<char>> {
    match upload_path_spec(raw) {
        None => None,
        Some(path) => {
            let lower = lower_seq(after_last(path, '/'));
            if hidden_path(path) || ends_with(lower, seq!['.', 'm', 'd']) || ends_with(
                lower,
                seq!['.', 'q', 'm', 'd'],
            ) || ends_with(lower, seq!['.', 't', 'm', 'p']) {
                None
            } else {
                Some(path)
            }
        },
    }
}

/// How many leading items two sequences share.
pub open spec fn common_len(a: Seq<Seq<char>>, b: Seq<Seq<char>>) -> nat
    decreases a.len(),
{
    if a.len() == 0 || b.len() == 0 || a[0] != b[0] {
        0
    } else {
        1 + common_len(a.drop_first(), b.drop_first())
    }
}

/// `to` as a link from the note at `note_path`: up out of the note's folder as far as the two
/// share nothing, then down.
pub open spec fn relative_link_spec(note_path: Seq<char>, to: Seq<char>) -> Seq<char> {
    let from = split(note_path, '/').drop_last();
    let target = split(to, '/');
    let dirs = target.drop_last();
    let common = common_len(from, dirs);
    join(
        Seq::new((from.len() - common) as nat, |i: int| seq!['.', '.']) + dirs.skip(common as int) + seq![
            target.last(),
        ],
        seq!['/'],
    )
}

/// A path the file manager may write to: vault-relative, inside the vault, not a note (notes
/// are made as notes), and nothing the sync leaves alone — no hidden segment, no `.tmp`.
/// `None` for anything else.
pub fn file_path(raw: &str) -> (r: Option<String>)
    ensures
        match r {
            Some(s) => file_path_spec(raw@) == Some(s@),
            None => file_path_spec(raw@) is None,
        },
{
    let path = match upload_path(raw) {
        Some(p) => p,
        None => return None,
    };
    let pc = chars_of(path.as_str());
    let lower = lower_vec(&after_last_exec(&pc, '/'));
    let md = vec!['.', 'm', 'd'];
    let qmd = vec!['.', 'q', 'm', 'd'];
    let tmp = vec!['.', 't', 'm', 'p'];
    proof {
        assert(md@ =~= seq!['.', 'm', 'd']);
        assert(qmd@ =~= seq!['.', 'q', 'm', 'd']);
        assert(tmp@ =~= seq!['.', 't', 'm', 'p']);
    }
    if hidden_segment(&pc) || ends_with_exec(&lower, &md) || ends_with_exec(&lower, &qmd)
        || ends_with_exec(&lower, &tmp) {
        None
    } else {
        Some(path)
    }
}

fn hidden_segment(p: &[char]) -> (r: bool)
    ensures
        r == hidden_path(p@),
{
    let segs = split_exec(p, '/');
    let dotv = vec!['.'];
    proof {
        assert(dotv@ =~= seq!['.']);
    }
    let mut i: usize = 0;
    while i < segs.len()
        invariant
            i <= segs@.len(),
            dotv@ == seq!['.'],
            segs@.len() == split(p@, '/').len(),
            forall|k: int| 0 <= k < segs@.len() ==> #[trigger] segs@[k]@ == split(p@, '/')[k],
            forall|k: int| 0 <= k < i ==> !starts_with(#[trigger] split(p@, '/')[k], seq!['.']),
        decreases segs.len() - i,
    {
        if starts_with_exec(&segs[i], &dotv) {
            proof {
                assert(starts_with(split(p@, '/')[i as int], seq!['.']));
            }
            return true;
        }
        i += 1;
    }
    false
}

/// `to` (vault-relative) as a link from the note at `note_path`: up out of the note's folder as
/// far as the two share nothing, then down.
pub fn relative_link(note_path: &str, to: &str) -> (r: String)
    ensures
        r@ == relative_link_spec(note_path@, to@),
{
    relative_link_chars(&chars_of(note_path), &chars_of(to))
}

/// How many leading items of `a[..na]` and `b[..nb]` agree.
fn common_prefix(a: &Vec<Vec<char>>, na: usize, b: &Vec<Vec<char>>, nb: usize) -> (r: usize)
    requires
        na <= a@.len(),
        nb <= b@.len(),
    ensures
        r == common_len(views(a@).take(na as int), views(b@).take(nb as int)),
        r <= na,
        r <= nb,
{
    let ghost x = views(a@).take(na as int);
    let ghost y = views(b@).take(nb as int);
    let mut k: usize = 0;
    proof {
        assert(x.skip(0) =~= x);
        assert(y.skip(0) =~= y);
    }
    loop
        invariant
            k <= na,
            k <= nb,
            na <= a@.len(),
            nb <= b@.len(),
            x == views(a@).take(na as int),
            y == views(b@).take(nb as int),
            common_len(x, y) == k + common_len(x.skip(k as int), y.skip(k as int)),
        decreases na - k,
    {
        if k >= na || k >= nb {
            proof {
                assert(x.skip(k as int).len() == 0 || y.skip(k as int).len() == 0);
            }
            return k;
        }
        let same = eq(&a[k], &b[k]);
        proof {
            assert(x.skip(k as int)[0] == a@[k as int]@);
            assert(y.skip(k as int)[0] == b@[k as int]@);
            assert(x.skip(k as int).drop_first() =~= x.skip(k + 1));
            assert(y.skip(k as int).drop_first() =~= y.skip(k + 1));
        }
        if !same {
            return k;
        }
        k += 1;
    }
}

/// `n` times `..`.
fn ups(n: usize) -> (r: Vec<Vec<char>>)
    ensures
        views(r@) == Seq::new(n as nat, |i: int| seq!['.', '.']),
{
    let mut parts: Vec<Vec<char>> = Vec::new();
    let mut k: usize = 0;
    while k < n
        invariant
            k <= n,
            views(parts@) == Seq::new(k as nat, |i: int| seq!['.', '.']),
        decreases n - k,
    {
        let ghost before = views(parts@);
        let up = vec!['.', '.'];
        proof {
            assert(up@ =~= seq!['.', '.']);
        }
        parts.push(up);
        proof {
            assert(views(parts@) =~= before.push(seq!['.', '.']));
            assert(Seq::new((k + 1) as nat, |i: int| seq!['.', '.']) =~= Seq::new(
                k as nat,
                |i: int| seq!['.', '.'],
            ).push(seq!['.', '.']));
        }
        k += 1;
    }
    parts
}

/// Copies of `v[lo..hi]`, appended to `out`.
fn push_copies(out: &mut Vec<Vec<char>>, v: &Vec<Vec<char>>, lo: usize, hi: usize)
    requires
        lo <= hi <= v@.len(),
    ensures
        views(final(out)@) == views(old(out)@) + views(v@).subrange(lo as int, hi as int),
{
    let mut j = lo;
    while j < hi
        invariant
            lo <= j <= hi <= v@.len(),
            views(out@) == views(old(out)@) + views(v@).subrange(lo as int, j as int),
        decreases hi - j,
    {
        let ghost before = views(out@);
        out.push(slice(&v[j], 0, v[j].len()));
        proof {
            assert(views(out@) =~= before.push(v@[j as int]@));
            assert(views(v@).subrange(lo as int, j + 1) =~= views(v@).subrange(lo as int, j as int).push(
                v@[j as int]@,
            ));
        }
        j += 1;
    }
}

fn relative_link_chars(note_path: &[char], to: &[char]) -> (r: String)
    ensures
        r@ == relative_link_spec(note_path@, to@),
{
    let from_all = split_exec(note_path, '/');
    let target = split_exec(to, '/');
    proof {
        crate::text::lemma_split_len(note_path@, '/');
        crate::text::lemma_split_len(to@, '/');
        assert(views(from_all@) =~= split(note_path@, '/'));
        assert(views(target@) =~= split(to@, '/'));
    }
    let nf = from_all.len() - 1;
    let nd = target.len() - 1;
    let common = common_prefix(&from_all, nf, &target, nd);
    proof {
        assert(views(from_all@).take(nf as int) =~= split(note_path@, '/').drop_last());
        assert(views(target@).take(nd as int) =~= split(to@, '/').drop_last());
    }
    let mut parts = ups(nf - common);
    push_copies(&mut parts, &target, common, nd + 1);
    let sl = vec!['/'];
    proof {
        let dirs = split(to@, '/').drop_last();
        assert(sl@ =~= seq!['/']);
        assert(views(target@).subrange(common as int, nd + 1) =~= dirs.skip(common as int) + seq![
            split(to@, '/').last(),
        ]);
        let from = split(note_path@, '/').drop_last();
        assert(common == common_len(from, dirs));
        assert(views(parts@) =~= Seq::new((from.len() - common) as nat, |i: int| seq!['.', '.'])
            + dirs.skip(common as int) + seq![split(to@, '/').last()]);
    }
    string_of(&join_exec(&parts, &sl))
}

// ---------------------------------------------------------------------------------------------
// Following a moved file: the pieces of a link
// ---------------------------------------------------------------------------------------------

/// A moved file and the vault it moves in: the note being rewritten, the file's old and new
/// paths, every file before the move, and how a wikilink names the file after it.
pub struct MoveCtx {
    pub note: Seq<char>,
    pub from: Seq<char>,
    pub to: Seq<char>,
    pub files: Seq<Seq<char>>,
    pub new_wiki: Seq<char>,
}

/// A link target names the moved file: it resolves to the file's old path.
pub open spec fn points(c: MoveCtx, target: Seq<char>, wiki: bool) -> bool {
    resolve_reference_spec(c.note, target, wiki, c.files) == Some(c.from)
}

/// `<…>` taken off a target.
pub open spec fn unwrap_angle(t: Seq<char>) -> Seq<char> {
    if starts_with(t, seq!['<']) && ends_with(t.drop_first(), seq!['>']) {
        t.drop_first().drop_last()
    } else {
        t
    }
}

/// `path#frag` / `path?q` → (`path`, `#frag`).
pub open spec fn split_suffix(t: Seq<char>) -> (Seq<char>, Seq<char>) {
    match find_any_from(t, seq!['#', '?'], 0) {
        Some(i) => (t.take(i), t.skip(i)),
        None => (t, Seq::empty()),
    }
}

/// `%20` read as a space.
pub open spec fn decode(t: Seq<char>) -> Seq<char> {
    replace(t, seq!['%', '2', '0'], seq![' '])
}

pub open spec fn has_paren(p: Seq<char>) -> bool {
    p.contains('(') || p.contains(')')
}

/// The replacement for a link target that named the moved file, written the way the old one
/// was: from the root or relative, `%20` or `<…>` for spaces, its fragment kept.
pub open spec fn new_target(old: Seq<char>, bare: Seq<char>, suffix: Seq<char>, note: Seq<char>, to: Seq<char>) -> Seq<char> {
    let path = if starts_with(bare, seq!['/']) {
        seq!['/'] + to
    } else {
        relative_link_spec(note, to)
    };
    if starts_with(old, seq!['<']) {
        seq!['<'] + path + suffix + seq!['>']
    } else if contains(bare, seq!['%', '2', '0']) || (path.contains(' ') && !has_paren(path)) {
        replace(path, seq![' '], seq!['%', '2', '0']) + suffix
    } else if path.contains(' ') || has_paren(path) {
        seq!['<'] + path + suffix + seq!['>']
    } else {
        path + suffix
    }
}

/// Where a bare link target ends: at a space, or at the `)` that closes the link (balanced
/// parentheses allowed inside); `None` when neither comes.
pub open spec fn link_scan(s: Seq<char>, i: int, depth: nat) -> Option<int>
    decreases s.len() - i,
{
    if i < 0 || i >= s.len() {
        None
    } else if s[i] == '(' {
        link_scan(s, i + 1, depth + 1)
    } else if s[i] == ')' && depth == 0 {
        Some(i)
    } else if s[i] == ')' {
        link_scan(s, i + 1, (depth - 1) as nat)
    } else if is_ws(s[i]) {
        Some(i)
    } else {
        link_scan(s, i + 1, depth)
    }
}

/// The target at the start of a link's parentheses (leading spaces skipped): `<…>` whole, else
/// up to whitespace or the closing `)`. Empty when there is none.
pub open spec fn link_target(after: Seq<char>) -> Seq<char> {
    let s = trim_start(after);
    if starts_with(s, seq!['<']) {
        match find(s, seq!['>']) {
            Some(e) => s.take(e + 1),
            None => Seq::empty(),
        }
    } else {
        match link_scan(s, 0, 0) {
            Some(i) => s.take(i),
            None => Seq::empty(),
        }
    }
}

/// The first whitespace of `s` from `i` on.
pub open spec fn first_ws(s: Seq<char>, i: int) -> Option<int>
    decreases s.len() - i,
{
    if i < 0 || i >= s.len() {
        None
    } else if is_ws(s[i]) {
        Some(i)
    } else {
        first_ws(s, i + 1)
    }
}

/// `[id]: target` at the start of a line: where the target is.
pub open spec fn definition_target(line: Seq<char>) -> Option<(int, int)> {
    let t = trim_start(line);
    if !starts_with(t, seq!['[']) || starts_with(t, seq!['[', '[']) || starts_with(t, seq!['[', '^']) {
        None
    } else {
        match find(t, seq![']', ':']) {
            None => None,
            Some(close) => {
                let offset = line.len() - t.len() + close + 2;
                let rest = line.skip(offset);
                let s = trim_start(rest);
                let lead = rest.len() - s.len();
                let len = if starts_with(s, seq!['<']) {
                    match find(s, seq!['>']) {
                        Some(e) => Some(e + 1),
                        None => None,
                    }
                } else {
                    Some(
                        match first_ws(s, 0) {
                            Some(k) => k,
                            None => s.len() as int,
                        },
                    )
                };
                match len {
                    Some(n) => if n > 0 {
                        Some((offset + lead, offset + lead + n))
                    } else {
                        None
                    },
                    None => None,
                }
            },
        }
    }
}

/// A wikilink's inside split at its first `|` or `#` (an escaped `\|` keeps its backslash
/// with the tail): the target, and the alias or heading that stays.
pub open spec fn wiki_cut(inner: Seq<char>) -> (Seq<char>, Seq<char>) {
    match find_any_from(inner, seq!['|', '#'], 0) {
        Some(i) => {
            let j = if ends_with(inner.take(i), seq!['\\']) {
                i - 1
            } else {
                i
            };
            (inner.take(j), inner.skip(j))
        },
        None => (inner, Seq::empty()),
    }
}

/// May a front-matter value stand after this character? Start of text, a space, `[`, `,`,
/// a quote, `:` or `-`.
pub open spec fn before_ok(c: Option<char>) -> bool {
    match c {
        None => true,
        Some(c) => c == ' ' || c == '\t' || c == '[' || c == ',' || c == '"' || c == '\'' || c == ':'
            || c == '-',
    }
}

/// … and before this one? End of text, `]`, `,`, a quote, or the end of the line (not a space:
/// `title: custom.scss notes` is prose that happens to mention the file).
pub open spec fn after_ok(c: Option<char>) -> bool {
    match c {
        None => true,
        Some(c) => c == ']' || c == ',' || c == '"' || c == '\'' || c == '\n' || c == '\r',
    }
}

/// Whole occurrences of `old` in `rest` replaced by `new`, left to right; `last` is the character
/// written before `rest`. With whether any was.
pub open spec fn replace_tok(rest: Seq<char>, old: Seq<char>, new: Seq<char>, last: Option<char>) -> (Seq<
    char,
>, bool)
    decreases rest.len(),
{
    if old.len() == 0 {
        (rest, false)
    } else {
        match find(rest, old) {
            None => (rest, false),
            Some(at) => if 0 <= at && at + old.len() <= rest.len() {
                let prev = if at > 0 {
                    Some(rest[at - 1])
                } else {
                    last
                };
                let next = if at + old.len() < rest.len() {
                    Some(rest[at + old.len()])
                } else {
                    None
                };
                let ok = before_ok(prev) && after_ok(next);
                let piece = rest.take(at) + if ok {
                    new
                } else {
                    old
                };
                let new_last = if piece.len() > 0 {
                    Some(piece.last())
                } else {
                    last
                };
                let r = replace_tok(rest.skip(at + old.len()), old, new, new_last);
                (piece + r.0, ok || r.1)
            } else {
                (rest, false)
            },
        }
    }
}

/// Whole occurrences of `old` in a YAML text — as a value, not inside a longer word — replaced
/// by `new`; `None` when there was none.
pub open spec fn replace_token_spec(yaml: Seq<char>, old: Seq<char>, new: Seq<char>) -> Option<Seq<char>> {
    let r = replace_tok(yaml, old, new, None);
    if r.1 {
        Some(r.0)
    } else {
        None
    }
}

// ---------------------------------------------------------------------------------------------
// Following a moved file: lines, body, front matter
// ---------------------------------------------------------------------------------------------

/// The earliest of three optional positions.
pub open spec fn earliest(a: Option<int>, b: Option<int>, c: Option<int>) -> Option<int> {
    let ab = match (a, b) {
        (Some(x), Some(y)) => Some(if x <= y {
            x
        } else {
            y
        }),
        (Some(x), None) => Some(x),
        (None, y) => y,
    };
    match (ab, c) {
        (Some(x), Some(y)) => Some(if x <= y {
            x
        } else {
            y
        }),
        (Some(x), None) => Some(x),
        (None, y) => y,
    }
}

/// The rest of a line after any code spans, with the links and wikilinks that name the moved
/// file rewritten.
#[verifier::opaque]
pub open spec fn line_scan(c: MoveCtx, rest: Seq<char>) -> Seq<char>
    decreases rest.len(),
{
    if rest.len() == 0 {
        Seq::empty()
    } else {
        let tick = find(rest, seq!['`']);
        let paren = find(rest, seq![']', '(']);
        let wiki = find(rest, seq!['[', '[']);
        match earliest(tick, paren, wiki) {
            None => rest,
            Some(at) => if at < 0 || at + 2 > rest.len() + (if tick == Some(at) {
                1int
            } else {
                0
            }) {
                rest
            } else if tick == Some(at) {
                let run = crate::import::run_len(rest.skip(at), '`');
                let closer = Seq::new(run, |i: int| '`');
                match find(rest.skip(at + run), closer) {
                    Some(end) => {
                        let span = at + run + end + run;
                        if 0 < span <= rest.len() {
                            rest.take(span) + line_scan(c, rest.skip(span))
                        } else {
                            rest
                        }
                    },
                    None => rest,
                }
            } else if wiki == Some(at) {
                let inner_from = at + 2;
                match find(rest.skip(inner_from), seq![']', ']']) {
                    None => rest,
                    Some(end) => if 0 <= end && inner_from + end + 2 <= rest.len() {
                        let inner = rest.subrange(inner_from, inner_from + end);
                        let cut = wiki_cut(inner);
                        let mid = if points(c, trim(cut.0), true) {
                            c.new_wiki + cut.1
                        } else {
                            inner
                        };
                        rest.take(inner_from) + mid + seq![']', ']'] + line_scan(
                            c,
                            rest.skip(inner_from + end + 2),
                        )
                    } else {
                        rest
                    },
                }
            } else {
                let after = rest.skip(at + 2);
                let target = link_target(after);
                if target.len() == 0 {
                    rest.take(at + 2) + line_scan(c, after)
                } else {
                    let lead = after.len() - trim_start(after).len();
                    let sp = split_suffix(unwrap_angle(target));
                    let mid = if points(c, decode(sp.0), false) {
                        new_target(target, sp.0, sp.1, c.note, c.to)
                    } else {
                        target
                    };
                    if 0 <= lead && lead + target.len() <= after.len() {
                        rest.take(at + 2) + after.take(lead) + mid + line_scan(
                            c,
                            after.skip(lead + target.len()),
                        )
                    } else {
                        rest
                    }
                }
            },
        }
    }
}

/// One line outside fenced code: a link reference definition, or the line scanned.
pub open spec fn rewrite_line(c: MoveCtx, line: Seq<char>) -> Seq<char> {
    match definition_target(line) {
        Some((start, end)) => {
            let target = line.subrange(start, end);
            let sp = split_suffix(unwrap_angle(target));
            if points(c, decode(sp.0), false) {
                line.take(start) + new_target(target, sp.0, sp.1, c.note, c.to) + line.skip(end)
            } else {
                line
            }
        },
        None => line_scan(c, line),
    }
}

/// The lines from `i` on, fenced code copied, the others rewritten; with whether any changed.
pub open spec fn rw_body(c: MoveCtx, ls: Seq<Seq<char>>, i: int, fence: Option<(char, nat)>) -> (Seq<
    char,
>, bool)
    decreases ls.len() - i,
{
    if i < 0 || i >= ls.len() {
        (Seq::empty(), false)
    } else {
        let line = ls[i];
        match fence {
            Some((ch, n)) => {
                let r = rw_body(
                    c,
                    ls,
                    i + 1,
                    if closes_fence(line, ch, n) {
                        None
                    } else {
                        fence
                    },
                );
                (line + r.0, r.1)
            },
            None => match fence_marker(line) {
                Some(open) => {
                    let r = rw_body(c, ls, i + 1, Some(open));
                    (line + r.0, r.1)
                },
                None => {
                    let w = rewrite_line(c, line);
                    let r = rw_body(c, ls, i + 1, None);
                    (w + r.0, w != line || r.1)
                },
            },
        }
    }
}

/// The new path for a front-matter value that named the moved file.
pub open spec fn new_path(c: MoveCtx, v: Seq<char>) -> Seq<char> {
    if starts_with(v, seq!['/']) {
        seq!['/'] + c.to
    } else {
        relative_link_spec(c.note, c.to)
    }
}

/// The front matter with each value that named the moved file replaced, in turn.
pub open spec fn fm_rewrite(c: MoveCtx, values: Seq<Seq<char>>, yaml: Seq<char>) -> (Seq<char>, bool)
    decreases values.len(),
{
    if values.len() == 0 {
        (yaml, false)
    } else {
        let v = values[0];
        let step = if points(c, v, false) {
            match replace_token_spec(yaml, v, new_path(c, v)) {
                Some(r) => (r, true),
                None => (yaml, false),
            }
        } else {
            (yaml, false)
        };
        let rest = fm_rewrite(c, values.drop_first(), step.0);
        (rest.0, step.1 || rest.1)
    }
}

/// How a wikilink names the file after the move: its bare name, unless another file has it.
pub open spec fn new_wiki_spec(to: Seq<char>, from: Seq<char>, files: Seq<Seq<char>>) -> Seq<char> {
    let name = after_last(to, '/');
    if exists|k: int| 0 <= k < files.len() && files[k] != from && #[trigger] after_last(files[k], '/') == name {
        to
    } else {
        name
    }
}

/// The note's text with every reference to `from` pointed at `to` instead, or `None` when it has
/// none.
pub open spec fn rewrite_references_spec(
    note: Seq<char>,
    text: Seq<char>,
    from: Seq<char>,
    to: Seq<char>,
    files: Seq<Seq<char>>,
) -> Option<Seq<char>> {
    let c = MoveCtx { note, from, to, files, new_wiki: new_wiki_spec(to, from, files) };
    let head = match block_chars(text) {
        Some((b, a, e)) => {
            let r = fm_rewrite(c, yaml_paths_spec(text.subrange(b, a)), text.subrange(b, a));
            (text.take(b) + r.0 + text.subrange(a, e), e, r.1)
        },
        None => (Seq::empty(), 0int, false),
    };
    let body = rw_body(c, split_inclusive(text.skip(head.1), '\n'), 0, None);
    if head.2 || body.1 {
        Some(head.0 + body.0)
    } else {
        None
    }
}

// ---------------------------------------------------------------------------------------------
// Following a moved file: executable pieces
// ---------------------------------------------------------------------------------------------

fn unwrap_angle_exec(t: &[char]) -> (r: Vec<char>)
    ensures
        r@ == unwrap_angle(t@),
{
    let lt = vec!['<'];
    let gt = vec!['>'];
    proof {
        assert(lt@ =~= seq!['<']);
        assert(gt@ =~= seq!['>']);
    }
    let n = t.len();
    if starts_with_exec(t, &lt) {
        let inner = slice(t, 1, n);
        proof {
            assert(inner@ =~= t@.drop_first());
        }
        if ends_with_exec(&inner, &gt) {
            let m = inner.len();
            return slice(&inner, 0, m - 1);
        }
    }
    slice(t, 0, n)
}

fn split_suffix_exec(t: &[char]) -> (r: (Vec<char>, Vec<char>))
    ensures
        (r.0@, r.1@) == split_suffix(t@),
{
    let set = vec!['#', '?'];
    proof {
        assert(set@ =~= seq!['#', '?']);
        lemma_find_any_bound(t@, set@, 0);
    }
    let n = t.len();
    match find_any_from_exec(t, &set, 0) {
        Some(i) => (slice(t, 0, i), slice(t, i, n)),
        None => (slice(t, 0, n), Vec::new()),
    }
}

proof fn lemma_find_any_bound(s: Seq<char>, set: Seq<char>, i: int)
    ensures
        find_any_from(s, set, i) matches Some(k) ==> i <= k < s.len(),
    decreases s.len() - i,
{
    if 0 <= i < s.len() && !set.contains(s[i]) {
        lemma_find_any_bound(s, set, i + 1);
    }
}

fn decode_exec(t: &[char]) -> (r: Vec<char>)
    ensures
        r@ == decode(t@),
{
    let a = vec!['%', '2', '0'];
    let b = vec![' '];
    proof {
        assert(a@ =~= seq!['%', '2', '0']);
        assert(b@ =~= seq![' ']);
    }
    replace_exec(t, &a, &b)
}

fn has_paren_exec(p: &[char]) -> (r: bool)
    ensures
        r == has_paren(p@),
{
    contains_char(p, '(') || contains_char(p, ')')
}

fn new_target_exec(old: &[char], bare: &[char], suffix: &[char], note: &[char], to: &[char]) -> (r: Vec<char>)
    ensures
        r@ == new_target(old@, bare@, suffix@, note@, to@),
{
    let sl = vec!['/'];
    let lt = vec!['<'];
    let pct = vec!['%', '2', '0'];
    let sp = vec![' '];
    proof {
        assert(sl@ =~= seq!['/']);
        assert(lt@ =~= seq!['<']);
        assert(pct@ =~= seq!['%', '2', '0']);
        assert(sp@ =~= seq![' ']);
    }
    let path: Vec<char> = if starts_with_exec(bare, &sl) {
        let mut p = vec!['/'];
        append(&mut p, to);
        p
    } else {
        chars_of(relative_link_chars(note, to).as_str())
    };
    proof {
        let spec_path = if starts_with(bare@, seq!['/']) {
            seq!['/'] + to@
        } else {
            relative_link_spec(note@, to@)
        };
        assert(path@ =~= spec_path);
    }
    if starts_with_exec(old, &lt) {
        let mut out = vec!['<'];
        append(&mut out, &path);
        append(&mut out, suffix);
        out.push('>');
        proof {
            assert(out@ =~= seq!['<'] + path@ + suffix@ + seq!['>']);
        }
        out
    } else if contains_exec(bare, &pct) || (contains_char(&path, ' ') && !has_paren_exec(&path)) {
        let mut out = replace_exec(&path, &sp, &pct);
        append(&mut out, suffix);
        out
    } else if contains_char(&path, ' ') || has_paren_exec(&path) {
        let mut out = vec!['<'];
        append(&mut out, &path);
        append(&mut out, suffix);
        out.push('>');
        proof {
            assert(out@ =~= seq!['<'] + path@ + suffix@ + seq!['>']);
        }
        out
    } else {
        concat(&path, suffix)
    }
}

fn link_target_exec(after: &[char]) -> (r: Vec<char>)
    ensures
        r@ == link_target(after@),
{
    let s = trim_start_exec(after);
    let n = s.len();
    let lt = vec!['<'];
    let gt = vec!['>'];
    proof {
        assert(lt@ =~= seq!['<']);
        assert(gt@ =~= seq!['>']);
        lemma_find(s@, gt@);
    }
    if starts_with_exec(&s, &lt) {
        return match find_exec(&s, &gt) {
            Some(e) => slice(&s, 0, e + 1),
            None => Vec::new(),
        };
    }
    let mut depth: usize = 0;
    let mut i: usize = 0;
    while i < n
        invariant
            i <= n == s@.len(),
            depth <= i,
            s@ == trim_start(after@),
            !starts_with(s@, seq!['<']),
            link_scan(s@, 0, 0) == link_scan(s@, i as int, depth as nat),
        decreases n - i,
    {
        let c = s[i];
        if c == '(' {
            depth = depth + 1;
        } else if c == ')' && depth == 0 {
            return slice(&s, 0, i);
        } else if c == ')' {
            depth = depth - 1;
        } else if is_ws_exec(c) {
            return slice(&s, 0, i);
        }
        i += 1;
    }
    Vec::new()
}

fn first_ws_exec(s: &[char]) -> (r: usize)
    ensures
        r == match first_ws(s@, 0) {
            Some(k) => k,
            None => s@.len() as int,
        },
        r <= s@.len(),
{
    let mut i: usize = 0;
    while i < s.len()
        invariant
            i <= s@.len(),
            first_ws(s@, 0) == first_ws(s@, i as int),
        decreases s.len() - i,
    {
        if is_ws_exec(s[i]) {
            return i;
        }
        i += 1;
    }
    i
}

fn definition_target_exec(line: &[char]) -> (r: Option<(usize, usize)>)
    ensures
        match r {
            Some((a, b)) => definition_target(line@) == Some((a as int, b as int)) && a <= b <= line@.len(),
            None => definition_target(line@) is None,
        },
{
    let t = trim_start_exec(line);
    let n = line.len();
    proof {
        crate::text::lemma_trim_start_len(line@);
    }
    let lb = vec!['['];
    let lbb = vec!['[', '['];
    let lbc = vec!['[', '^'];
    let close = vec![']', ':'];
    let lt = vec!['<'];
    let gt = vec!['>'];
    proof {
        assert(lb@ =~= seq!['[']);
        assert(lbb@ =~= seq!['[', '[']);
        assert(lbc@ =~= seq!['[', '^']);
        assert(close@ =~= seq![']', ':']);
        assert(lt@ =~= seq!['<']);
        assert(gt@ =~= seq!['>']);
        lemma_find(t@, close@);
    }
    if !starts_with_exec(&t, &lb) || starts_with_exec(&t, &lbb) || starts_with_exec(&t, &lbc) {
        return None;
    }
    let c = match find_exec(&t, &close) {
        Some(c) => c,
        None => return None,
    };
    let offset = n - t.len() + c + 2;
    let rest = slice(line, offset, n);
    let s = trim_start_exec(&rest);
    proof {
        crate::text::lemma_trim_start_len(rest@);
        lemma_find(s@, gt@);
    }
    let lead = rest.len() - s.len();
    let len: usize = if starts_with_exec(&s, &lt) {
        match find_exec(&s, &gt) {
            Some(e) => e + 1,
            None => return None,
        }
    } else {
        first_ws_exec(&s)
    };
    if len > 0 {
        Some((offset + lead, offset + lead + len))
    } else {
        None
    }
}

fn wiki_cut_exec(inner: &[char]) -> (r: (Vec<char>, Vec<char>))
    ensures
        (r.0@, r.1@) == wiki_cut(inner@),
{
    let set = vec!['|', '#'];
    let bs = vec!['\\'];
    proof {
        assert(set@ =~= seq!['|', '#']);
        assert(bs@ =~= seq!['\\']);
        lemma_find_any_bound(inner@, set@, 0);
    }
    let n = inner.len();
    match find_any_from_exec(inner, &set, 0) {
        Some(i) => {
            let j = if ends_with_exec(&slice(inner, 0, i), &bs) {
                i - 1
            } else {
                i
            };
            (slice(inner, 0, j), slice(inner, j, n))
        },
        None => (slice(inner, 0, n), Vec::new()),
    }
}

fn before_ok_exec(c: Option<char>) -> (r: bool)
    ensures
        r == before_ok(c),
{
    match c {
        None => true,
        Some(c) => c == ' ' || c == '\t' || c == '[' || c == ',' || c == '"' || c == '\'' || c == ':'
            || c == '-',
    }
}

fn after_ok_exec(c: Option<char>) -> (r: bool)
    ensures
        r == after_ok(c),
{
    match c {
        None => true,
        Some(c) => c == ']' || c == ',' || c == '"' || c == '\'' || c == '\n' || c == '\r',
    }
}

/// One replacement step: what is written up to and including the next occurrence, whether it
/// was replaced, and how far it reaches (`None`: no occurrence, the rest is copied).
fn token_step(rest: &[char], old: &[char], new: &[char], last: Option<char>) -> (r: (Vec<char>, bool, Option<usize>))
    requires
        old@.len() > 0,
    ensures
        match r.2 {
            Some(k) => 0 < k <= rest@.len() && replace_tok(rest@, old@, new@, last).0 == r.0@ + replace_tok(
                rest@.skip(k as int),
                old@,
                new@,
                if r.0@.len() > 0 {
                    Some(r.0@.last())
                } else {
                    last
                },
            ).0 && replace_tok(rest@, old@, new@, last).1 == (r.1 || replace_tok(
                rest@.skip(k as int),
                old@,
                new@,
                if r.0@.len() > 0 {
                    Some(r.0@.last())
                } else {
                    last
                },
            ).1),
            None => replace_tok(rest@, old@, new@, last) == (r.0@, false) && !r.1,
        },
{
    let n = rest.len();
    let on = old.len();
    proof {
        lemma_find(rest@, old@);
    }
    match find_exec(rest, old) {
        None => (slice(rest, 0, n), false, None),
        Some(at) => {
            let prev = if at > 0 {
                Some(rest[at - 1])
            } else {
                last
            };
            let next = if at + on < n {
                Some(rest[at + on])
            } else {
                None
            };
            let ok = before_ok_exec(prev) && after_ok_exec(next);
            let mut piece = slice(rest, 0, at);
            if ok {
                append(&mut piece, new);
            } else {
                append(&mut piece, old);
            }
            (piece, ok, Some(at + on))
        },
    }
}

/// Replace whole occurrences of `old` in a YAML text with `new`; `None` when there was none.
fn replace_token(yaml: &[char], old: &[char], new: &[char]) -> (r: Option<Vec<char>>)
    ensures
        match r {
            Some(x) => replace_token_spec(yaml@, old@, new@) == Some(x@),
            None => replace_token_spec(yaml@, old@, new@) is None,
        },
{
    if old.len() == 0 {
        return None;
    }
    let n = yaml.len();
    let mut out: Vec<char> = Vec::new();
    let mut hit = false;
    let mut last: Option<char> = None;
    let mut i: usize = 0;
    loop
        invariant
            i <= n == yaml@.len(),
            old@.len() > 0,
            last == (if out@.len() > 0 {
                Some(out@.last())
            } else {
                None::<char>
            }),
            replace_tok(yaml@, old@, new@, None).0 == out@ + replace_tok(yaml@.skip(i as int), old@, new@, last).0,
            replace_tok(yaml@, old@, new@, None).1 == (hit || replace_tok(yaml@.skip(i as int), old@, new@, last).1),
        decreases n - i,
    {
        let rest = slice(yaml, i, n);
        proof {
            assert(rest@ =~= yaml@.skip(i as int));
        }
        let ghost before = out@;
        let (piece, ok, adv) = token_step(&rest, old, new, last);
        append(&mut out, &piece);
        match adv {
            None => {
                return if hit {
                    Some(out)
                } else {
                    None
                };
            },
            Some(k) => {
                if ok {
                    hit = true;
                }
                if piece.len() > 0 {
                    last = Some(piece[piece.len() - 1]);
                }
                proof {
                    assert(rest@.skip(k as int) =~= yaml@.skip(i + k));
                    let x = replace_tok(yaml@.skip(i + k), old@, new@, last).0;
                    assert(out@ + x =~= before + (piece@ + x));
                    if piece@.len() > 0 {
                        assert(out@.last() == piece@.last());
                    }
                }
                i = i + k;
            },
        }
    }
}

/// Whether a target, resolved from the note, is the moved file.
fn points_exec(note: &str, target: &[char], wiki: bool, from: &[char], files: &[String]) -> (r: bool)
    ensures
        r == (resolve_reference_spec(note@, target@, wiki, str_views(files@)) == Some(from@)),
{
    let ts = string_of(target);
    match resolve_reference(note, ts.as_str(), wiki, files) {
        Some(hit) => eq(&chars_of(hit.as_str()), from),
        None => false,
    }
}

/// The context of a move, as values.
pub open spec fn move_ctx(note: Seq<char>, from: Seq<char>, to: Seq<char>, files: Seq<String>, new_wiki: Seq<char>) -> MoveCtx {
    MoveCtx { note, from, to, files: str_views(files), new_wiki }
}

fn earliest_exec(a: Option<usize>, b: Option<usize>, c: Option<usize>) -> (r: Option<usize>)
    ensures
        match r {
            Some(x) => earliest(
                oi(a),
                oi(b),
                oi(c),
            ) == Some(x as int),
            None => earliest(
                oi(a),
                oi(b),
                oi(c),
            ) is None,
        },
{
    let ab = match (a, b) {
        (Some(x), Some(y)) => Some(if x <= y {
            x
        } else {
            y
        }),
        (Some(x), None) => Some(x),
        (None, y) => y,
    };
    match (ab, c) {
        (Some(x), Some(y)) => Some(if x <= y {
            x
        } else {
            y
        }),
        (Some(x), None) => Some(x),
        (None, y) => y,
    }
}

/// An optional index as an integer.
pub open spec fn oi(o: Option<usize>) -> Option<int> {
    match o {
        Some(v) => Some(v as int),
        None => None,
    }
}

/// Where the next code span, link or wikilink of a line starts, and which it is.
pub open spec fn scan_at(rest: Seq<char>) -> Option<int> {
    earliest(find(rest, seq!['`']), find(rest, seq![']', '(']), find(rest, seq!['[', '[']))
}

/// A code span passes through.
fn tick_step(rest: &[char], at: usize, ghost_c: Ghost<MoveCtx>) -> (r: (Vec<char>, Option<usize>))
    requires
        rest@.len() > 0,
        scan_at(rest@) == Some(at as int),
        find(rest@, seq!['`']) == Some(at as int),
    ensures
        match r.1 {
            Some(k) => 0 < k <= rest@.len() && line_scan(ghost_c@, rest@) == r.0@ + line_scan(ghost_c@, rest@.skip(k as int)),
            None => line_scan(ghost_c@, rest@) == r.0@,
        },
{
    reveal(line_scan);
    let n = rest.len();
    proof {
        lemma_find(rest@, seq!['`']);
    }
    let run = crate::import::run_len_exec(&slice(rest, at, n), '`');
    let mut closer: Vec<char> = Vec::new();
    let mut k: usize = 0;
    while k < run
        invariant
            k <= run,
            closer@ =~= Seq::new(k as nat, |i: int| '`'),
        decreases run - k,
    {
        closer.push('`');
        k += 1;
    }
    let tail = slice(rest, at + run, n);
    proof {
        assert(tail@ =~= rest@.skip(at + run));
        lemma_find(tail@, closer@);
        assert(rest@.skip(at as int)[0] == '`');
    }
    match find_exec(&tail, &closer) {
        Some(end) => {
            let span = at + run + end + run;
            (slice(rest, 0, span), Some(span))
        },
        None => (slice(rest, 0, n), None),
    }
}

/// A wikilink is rewritten when it names the moved file.
#[verifier::rlimit(40)]
fn wiki_step(note: &str, from: &[char], to: &[char], files: &[String], new_wiki: &[char], rest: &[char], at: usize) -> (r: (
    Vec<char>,
    Option<usize>,
))
    requires
        rest@.len() > 0,
        scan_at(rest@) == Some(at as int),
        find(rest@, seq!['`']) != Some(at as int),
        find(rest@, seq!['[', '[']) == Some(at as int),
    ensures
        match r.1 {
            Some(k) => 0 < k <= rest@.len() && line_scan(move_ctx(note@, from@, to@, files@, new_wiki@), rest@)
                == r.0@ + line_scan(move_ctx(note@, from@, to@, files@, new_wiki@), rest@.skip(k as int)),
            None => line_scan(move_ctx(note@, from@, to@, files@, new_wiki@), rest@) == r.0@,
        },
{
    reveal(line_scan);
    let ghost c = move_ctx(note@, from@, to@, files@, new_wiki@);
    let n = rest.len();
    let cl = vec![']', ']'];
    proof {
        assert(cl@ =~= seq![']', ']']);
        lemma_find(rest@, seq!['[', '[']);
    }
    let inner_from = at + 2;
    let tail = slice(rest, inner_from, n);
    proof {
        assert(tail@ =~= rest@.skip(inner_from as int));
        lemma_find(tail@, cl@);
    }
    match find_exec(&tail, &cl) {
        None => (slice(rest, 0, n), None),
        Some(end) => {
            let inner = slice(rest, inner_from, inner_from + end);
            let (target, tail2) = wiki_cut_exec(&inner);
            let mut piece = slice(rest, 0, inner_from);
            if points_exec(note, &trim_exec(&target), true, from, files) {
                append(&mut piece, new_wiki);
                append(&mut piece, &tail2);
            } else {
                append(&mut piece, &inner);
            }
            piece.push(']');
            piece.push(']');
            proof {
                let cut = wiki_cut(inner@);
                let mid = if points(c, trim(cut.0), true) {
                    c.new_wiki + cut.1
                } else {
                    inner@
                };
                assert(piece@ =~= rest@.take(inner_from as int) + mid + seq![']', ']']);
            }
            (piece, Some(inner_from + end + 2))
        },
    }
}

/// A link's target is rewritten when it names the moved file.
fn paren_step(note: &str, from: &[char], to: &[char], files: &[String], new_wiki: &[char], rest: &[char], at: usize) -> (r: (
    Vec<char>,
    Option<usize>,
))
    requires
        rest@.len() > 0,
        scan_at(rest@) == Some(at as int),
        find(rest@, seq!['`']) != Some(at as int),
        find(rest@, seq!['[', '[']) != Some(at as int),
    ensures
        match r.1 {
            Some(k) => 0 < k <= rest@.len() && line_scan(move_ctx(note@, from@, to@, files@, new_wiki@), rest@)
                == r.0@ + line_scan(move_ctx(note@, from@, to@, files@, new_wiki@), rest@.skip(k as int)),
            None => line_scan(move_ctx(note@, from@, to@, files@, new_wiki@), rest@) == r.0@,
        },
{
    reveal(line_scan);
    let ghost c = move_ctx(note@, from@, to@, files@, new_wiki@);
    let n = rest.len();
    proof {
        lemma_find(rest@, seq![']', '(']);
        lemma_find(rest@, seq!['`']);
        lemma_find(rest@, seq!['[', '[']);
        assert(find(rest@, seq![']', '(']) == Some(at as int));
    }
    let after = slice(rest, at + 2, n);
    proof {
        assert(after@ =~= rest@.skip(at + 2));
    }
    let target = link_target_exec(&after);
    if target.len() == 0 {
        return (slice(rest, 0, at + 2), Some(at + 2));
    }
    let ts = trim_start_exec(&after);
    proof {
        crate::text::lemma_trim_start_len(after@);
        lemma_link_target_len(after@);
    }
    let lead = after.len() - ts.len();
    let (bare, suffix) = split_suffix_exec(&unwrap_angle_exec(&target));
    let mut piece = slice(rest, 0, at + 2);
    append(&mut piece, &slice(&after, 0, lead));
    if points_exec(note, &decode_exec(&bare), false, from, files) {
        append(&mut piece, &new_target_exec(&target, &bare, &suffix, &chars_of(note), to));
    } else {
        append(&mut piece, &target);
    }
    proof {
        let sp = split_suffix(unwrap_angle(target@));
        let mid = if points(c, decode(sp.0), false) {
            new_target(target@, sp.0, sp.1, c.note, c.to)
        } else {
            target@
        };
        assert(piece@ =~= rest@.take(at + 2) + after@.take(lead as int) + mid);
        assert(after@.skip(lead + target@.len()) =~= rest@.skip(at + 2 + lead + target@.len()));
    }
    (piece, Some(at + 2 + lead + target.len()))
}

/// One step of scanning a line: what is written up to the end of the next code span, wikilink
/// or link, and how far that reaches (`None`: the rest is copied).
fn line_step(note: &str, from: &[char], to: &[char], files: &[String], new_wiki: &[char], rest: &[char]) -> (r: (
    Vec<char>,
    Option<usize>,
))
    ensures
        match r.1 {
            Some(k) => 0 < k <= rest@.len() && line_scan(move_ctx(note@, from@, to@, files@, new_wiki@), rest@)
                == r.0@ + line_scan(move_ctx(note@, from@, to@, files@, new_wiki@), rest@.skip(k as int)),
            None => line_scan(move_ctx(note@, from@, to@, files@, new_wiki@), rest@) == r.0@,
        },
{
    let n = rest.len();
    if n == 0 {
        proof {
            reveal(line_scan);
        }
        return (Vec::new(), None);
    }
    let tk = vec!['`'];
    let pr = vec![']', '('];
    let wk = vec!['[', '['];
    proof {
        assert(tk@ =~= seq!['`']);
        assert(pr@ =~= seq![']', '(']);
        assert(wk@ =~= seq!['[', '[']);
    }
    let tick = find_exec(rest, &tk);
    let paren = find_exec(rest, &pr);
    let wiki = find_exec(rest, &wk);
    proof {
        assert(oi(tick) == find(rest@, seq!['`']));
        assert(oi(paren) == find(rest@, seq![']', '(']));
        assert(oi(wiki) == find(rest@, seq!['[', '[']));
    }
    let at = match earliest_exec(tick, paren, wiki) {
        None => {
            proof {
                reveal(line_scan);
            }
            return (slice(rest, 0, n), None);
        },
        Some(at) => at,
    };
    if tick == Some(at) {
        tick_step(rest, at, Ghost(move_ctx(note@, from@, to@, files@, new_wiki@)))
    } else if wiki == Some(at) {
        wiki_step(note, from, to, files, new_wiki, rest, at)
    } else {
        paren_step(note, from, to, files, new_wiki, rest, at)
    }
}

/// A link's target lies within the text after its leading spaces.
proof fn lemma_link_target_len(after: Seq<char>)
    ensures
        link_target(after).len() <= trim_start(after).len(),
{
    let s = trim_start(after);
    lemma_find(s, seq!['>']);
    lemma_link_scan(s, 0, 0);
}

proof fn lemma_link_scan(s: Seq<char>, i: int, depth: nat)
    requires
        0 <= i,
    ensures
        link_scan(s, i, depth) matches Some(k) ==> i <= k < s.len(),
    decreases s.len() - i,
{
    if i < s.len() {
        if s[i] == '(' {
            lemma_link_scan(s, i + 1, depth + 1);
        } else if s[i] == ')' && depth == 0 {
        } else if s[i] == ')' {
            lemma_link_scan(s, i + 1, (depth - 1) as nat);
        } else if is_ws(s[i]) {
        } else {
            lemma_link_scan(s, i + 1, depth);
        }
    }
}

fn line_scan_exec(note: &str, from: &[char], to: &[char], files: &[String], new_wiki: &[char], line: &[char]) -> (r: Vec<char>)
    ensures
        r@ == line_scan(move_ctx(note@, from@, to@, files@, new_wiki@), line@),
{
    let ghost c = move_ctx(note@, from@, to@, files@, new_wiki@);
    let n = line.len();
    let mut out: Vec<char> = Vec::new();
    let mut i: usize = 0;
    loop
        invariant
            i <= n == line@.len(),
            c == move_ctx(note@, from@, to@, files@, new_wiki@),
            line_scan(c, line@) == out@ + line_scan(c, line@.skip(i as int)),
        decreases n - i,
    {
        let rest = slice(line, i, n);
        proof {
            assert(rest@ =~= line@.skip(i as int));
        }
        let ghost before = out@;
        let (piece, adv) = line_step(note, from, to, files, new_wiki, &rest);
        append(&mut out, &piece);
        match adv {
            None => {
                return out;
            },
            Some(k) => {
                proof {
                    assert(rest@.skip(k as int) =~= line@.skip(i + k));
                    let x = line_scan(c, line@.skip(i + k));
                    assert(out@ + x =~= before + (piece@ + x));
                }
                i = i + k;
            },
        }
    }
}

/// One line outside fenced code, rewritten.
fn rewrite_line_exec(note: &str, from: &[char], to: &[char], files: &[String], new_wiki: &[char], line: &[char]) -> (r: Vec<char>)
    ensures
        r@ == rewrite_line(move_ctx(note@, from@, to@, files@, new_wiki@), line@),
{
    match definition_target_exec(line) {
        Some((start, end)) => {
            let target = slice(line, start, end);
            let (bare, suffix) = split_suffix_exec(&unwrap_angle_exec(&target));
            if points_exec(note, &decode_exec(&bare), false, from, files) {
                let mut out = slice(line, 0, start);
                append(&mut out, &new_target_exec(&target, &bare, &suffix, &chars_of(note), to));
                append(&mut out, &slice(line, end, line.len()));
                out
            } else {
                slice(line, 0, line.len())
            }
        },
        None => line_scan_exec(note, from, to, files, new_wiki, line),
    }
}

/// The lines of a note's body after its front matter, rewritten; with whether any changed.
fn rw_body_exec(note: &str, from: &[char], to: &[char], files: &[String], new_wiki: &[char], ls: &Vec<Vec<char>>) -> (r: (Vec<char>, bool))
    ensures
        (r.0@, r.1) == rw_body(move_ctx(note@, from@, to@, files@, new_wiki@), views(ls@), 0, None),
{
    let ghost c = move_ctx(note@, from@, to@, files@, new_wiki@);
    let ghost vls = views(ls@);
    let mut out: Vec<char> = Vec::new();
    let mut changed = false;
    let mut fence: Option<(char, usize)> = None;
    let mut i: usize = 0;
    while i < ls.len()
        invariant
            i <= ls@.len(),
            vls == views(ls@),
            c == move_ctx(note@, from@, to@, files@, new_wiki@),
            rw_body(c, vls, 0, None).0 == out@ + rw_body(c, vls, i as int, fence_view(fence)).0,
            rw_body(c, vls, 0, None).1 == (changed || rw_body(c, vls, i as int, fence_view(fence)).1),
        decreases ls.len() - i,
    {
        let line = &ls[i];
        let ghost before = out@;
        let ghost f0 = fence_view(fence);
        match fence {
            Some((ch, n)) => {
                if closes_fence_exec(line, ch, n) {
                    fence = None;
                }
                append(&mut out, line);
            },
            None => match fence_marker_exec(line) {
                Some(open) => {
                    fence = Some(open);
                    append(&mut out, line);
                },
                None => {
                    let w = rewrite_line_exec(note, from, to, files, new_wiki, line);
                    if !eq(&w, line) {
                        changed = true;
                    }
                    append(&mut out, &w);
                },
            },
        }
        proof {
            let r = rw_body(c, vls, i + 1, fence_view(fence));
            assert(out@ + r.0 =~= before + (rw_body(c, vls, i as int, f0).0));
        }
        i += 1;
    }
    proof {
        assert(out@ =~= out@ + Seq::<char>::empty());
    }
    (out, changed)
}

/// The front matter's values that name the moved file, replaced in turn.
fn fm_rewrite_exec(note: &str, from: &[char], to: &[char], files: &[String], new_wiki: &[char], values: &Vec<String>, yaml: Vec<char>) -> (r: (Vec<char>, bool))
    ensures
        (r.0@, r.1) == fm_rewrite(move_ctx(note@, from@, to@, files@, new_wiki@), str_views(values@), yaml@),
{
    let ghost c = move_ctx(note@, from@, to@, files@, new_wiki@);
    let ghost vs = str_views(values@);
    let mut y = yaml;
    let mut changed = false;
    let mut i: usize = 0;
    let sl = vec!['/'];
    proof {
        assert(sl@ =~= seq!['/']);
        assert(vs.skip(0) =~= vs);
    }
    while i < values.len()
        invariant
            i <= values@.len(),
            vs == str_views(values@),
            sl@ == seq!['/'],
            c == move_ctx(note@, from@, to@, files@, new_wiki@),
            fm_rewrite(c, vs, yaml@).0 == fm_rewrite(c, vs.skip(i as int), y@).0,
            fm_rewrite(c, vs, yaml@).1 == (changed || fm_rewrite(c, vs.skip(i as int), y@).1),
        decreases values.len() - i,
    {
        proof {
            assert(vs.skip(i as int).drop_first() =~= vs.skip(i + 1));
            assert(vs.skip(i as int)[0] == values@[i as int]@);
        }
        let v = chars_of(values[i].as_str());
        if points_exec(note, &v, false, from, files) {
            let np: Vec<char> = if starts_with_exec(&v, &sl) {
                let mut p = vec!['/'];
                append(&mut p, to);
                p
            } else {
                chars_of(relative_link_chars(&chars_of(note), to).as_str())
            };
            proof {
                assert(np@ =~= new_path(c, v@));
            }
            match replace_token(&y, &v, &np) {
                Some(r) => {
                    y = r;
                    changed = true;
                },
                None => {},
            }
        }
        i += 1;
    }
    (y, changed)
}

/// How a wikilink names the file after the move.
fn new_wiki_exec(to: &[char], from: &[char], files: &[String]) -> (r: Vec<char>)
    ensures
        r@ == new_wiki_spec(to@, from@, str_views(files@)),
{
    let ghost fs = str_views(files@);
    let name = after_last_exec(to, '/');
    let mut i: usize = 0;
    while i < files.len()
        invariant
            i <= files@.len(),
            fs == str_views(files@),
            name@ == after_last(to@, '/'),
            forall|k: int| 0 <= k < i ==> !(fs[k] != from@ && #[trigger] after_last(fs[k], '/') == name@),
        decreases files.len() - i,
    {
        let f = chars_of(files[i].as_str());
        if !eq(&f, from) && eq(&after_last_exec(&f, '/'), &name) {
            proof {
                assert(fs[i as int] == f@);
                assert(fs[i as int] != from@ && after_last(fs[i as int], '/') == name@);
            }
            return slice(to, 0, to.len());
        }
        proof {
            assert(fs[i as int] == f@);
        }
        i += 1;
    }
    name
}

/// The note's text with every reference to the file `from` pointed at `to` instead, or `None`
/// when it has none. `files` is every file in the vault *before* the move, `from` among them:
/// a reference means what it resolves to there, the way [`resolve_reference`] resolves it.
///
/// - Markdown links and images, `[x](…)`, `![](<…>)`, and `[id]: …` definitions: the new
///   target is relative to the note (or from the root, when the old one started with `/`), with
///   the old one's `#fragment` kept and its spelling of spaces (`%20`, `<…>`) followed.
/// - `[[…]]` and `![[…]]`: the new file's bare name when that finds it unambiguously, else its
///   vault path; an alias or a `|300` width stays.
/// - Front-matter values (`theme: [cosmo, custom.scss]`): the new path, relative to the note.
///
/// Code — fenced blocks and inline spans — is left as it is.
pub fn rewrite_references(note_path: &str, text: &str, from: &str, to: &str, files: &[String]) -> (r: Option<String>)
    ensures
        match r {
            Some(s) => rewrite_references_spec(note_path@, text@, from@, to@, str_views(files@)) == Some(s@),
            None => rewrite_references_spec(note_path@, text@, from@, to@, str_views(files@)) is None,
        },
{
    let t = chars_of(text);
    let fc = chars_of(from);
    let tc = chars_of(to);
    let nw = new_wiki_exec(&tc, &fc, files);
    let ghost c = move_ctx(note_path@, from@, to@, files@, nw@);
    let n = t.len();
    let (front, body_start, fchanged): (Vec<char>, usize, bool) = match block_chars_exec(&t) {
        Some((b, a, e)) => {
            proof {
                lemma_block_chars(t@);
            }
            let yaml = slice(&t, b, a);
            let values = yaml_paths(string_of(&yaml).as_str());
            let (y2, ch) = fm_rewrite_exec(note_path, &fc, &tc, files, &nw, &values, yaml);
            let mut front = slice(&t, 0, b);
            append(&mut front, &y2);
            append(&mut front, &slice(&t, a, e));
            (front, e, ch)
        },
        None => (Vec::new(), 0, false),
    };
    proof {
        lemma_block_chars(t@);
        let head = match block_chars(t@) {
            Some((b, a, e)) => {
                let r = fm_rewrite(c, yaml_paths_spec(t@.subrange(b, a)), t@.subrange(b, a));
                (t@.take(b) + r.0 + t@.subrange(a, e), e, r.1)
            },
            None => (Seq::empty(), 0int, false),
        };
        assert(front@ =~= head.0);
        assert(body_start == head.1);
        assert(fchanged == head.2);
    }
    let body = slice(&t, body_start, n);
    let ls = split_inclusive_exec(&body, '\n');
    proof {
        assert(views(ls@) =~= split_inclusive(t@.skip(body_start as int), '\n'));
    }
    let (b, bchanged) = rw_body_exec(note_path, &fc, &tc, files, &nw, &ls);
    if fchanged || bchanged {
        Some(string_of(&concat(&front, &b)))
    } else {
        None
    }
}

// ---------------------------------------------------------------------------------------------
// The listing
// ---------------------------------------------------------------------------------------------

/// One file, as the file manager lists it.
#[derive(Debug, Clone, PartialEq, Eq)]
pub struct FileEntry {
    pub path: String,
    pub hash: String,
    /// Bytes, when the store knows them.
    pub size: Option<u64>,
    /// The notes that depend on it (their ids): link to it, embed it, name it in front matter,
    /// or use a stylesheet that imports it.
    pub used_by: Vec<String>,
    /// Put in the vault on purpose, so kept whether or not a note uses it.
    pub kept: bool,
    /// A vault resource (`_quarto.yml`, `_metadata.yml`, `export/`): kept for the vault.
    pub vault: bool,
}

pub open spec fn strictly_sorted(s: Seq<u128>) -> bool {
    forall|i: int, j: int| 0 <= i < j < s.len() ==> s[i] < s[j]
}

/// The note `u` uses the file at `path`.
pub open spec fn uses(users: Seq<(NoteId, String)>, path: Seq<char>, u: u128) -> bool {
    exists|j: int| 0 <= j < users.len() && #[trigger] users[j].0.0 == u && users[j].1@ == path
}

/// The ids of the notes that use `path`, each once, in increasing order, as text (a ULID's text
/// sorts as its value does).
pub open spec fn used_by_ok(used_by: Seq<String>, users: Seq<(NoteId, String)>, path: Seq<char>) -> bool {
    exists|ids: Seq<u128>|
        strictly_sorted(ids) && (forall|u: u128| #[trigger] ids.contains(u) <==> uses(users, path, u))
            && str_views(used_by) == ids.map_values(|u: u128| ulid_text(u))
}

/// `x` put into a strictly increasing list, unless it is there.
fn insert_sorted(v: &mut Vec<u128>, x: u128)
    requires
        strictly_sorted(old(v)@),
    ensures
        strictly_sorted(final(v)@),
        forall|y: u128| #[trigger] final(v)@.contains(y) <==> (old(v)@.contains(y) || y == x),
{
    let mut i: usize = 0;
    while i < v.len() && v[i] < x
        invariant
            i <= v@.len(),
            forall|j: int| 0 <= j < i ==> v@[j] < x,
        decreases v.len() - i,
    {
        i += 1;
    }
    if i < v.len() && v[i] == x {
        return;
    }
    let ghost before = v@;
    v.insert(i, x);
    proof {
        assert forall|a: int, b: int| 0 <= a < b < v@.len() implies v@[a] < v@[b] by {
            if b < i {
            } else if a < i && b == i {
            } else if a < i {
                assert(v@[b] == before[b - 1]);
            } else if a == i {
                assert(v@[b] == before[b - 1]);
                assert(before[i as int] > x);
            } else {
                assert(v@[a] == before[a - 1]);
                assert(v@[b] == before[b - 1]);
            }
        }
        assert forall|y: u128| #[trigger] v@.contains(y) <==> (before.contains(y) || y == x) by {
            if v@.contains(y) {
                let k = choose|k: int| 0 <= k < v@.len() && v@[k] == y;
                if k < i {
                    assert(before[k] == y);
                } else if k > i {
                    assert(before[k - 1] == y);
                }
            }
            if before.contains(y) {
                let k = choose|k: int| 0 <= k < before.len() && before[k] == y;
                if k < i {
                    assert(v@[k] == y);
                } else {
                    assert(v@[k + 1] == y);
                }
            }
            if y == x {
                assert(v@[i as int] == x);
            }
        }
    }
}

/// The ids of the notes that use `path`, each once, in increasing order.
fn users_of(users: &[(NoteId, String)], path: &[char]) -> (r: Vec<u128>)
    ensures
        strictly_sorted(r@),
        forall|u: u128| #[trigger] r@.contains(u) <==> uses(users@, path@, u),
{
    let mut out: Vec<u128> = Vec::new();
    let mut j: usize = 0;
    while j < users.len()
        invariant
            j <= users@.len(),
            strictly_sorted(out@),
            forall|u: u128| #[trigger] out@.contains(u) <==> exists|k: int|
                0 <= k < j && #[trigger] users@[k].0.0 == u && users@[k].1@ == path@,
        decreases users.len() - j,
    {
        if eq(&chars_of(users[j].1.as_str()), path) {
            insert_sorted(&mut out, users[j].0.0);
        }
        proof {
            assert forall|u: u128| #[trigger] out@.contains(u) <==> exists|k: int|
                0 <= k < j + 1 && #[trigger] users@[k].0.0 == u && users@[k].1@ == path@ by {
                if users@[j as int].0.0 == u && users@[j as int].1@ == path@ {
                    assert(users@[j as int].0.0 == u);
                }
            }
        }
        j += 1;
    }
    out
}

/// The ids as text.
fn id_texts(ids: &Vec<u128>) -> (r: Vec<String>)
    ensures
        str_views(r@) == ids@.map_values(|u: u128| ulid_text(u)),
{
    let mut out: Vec<String> = Vec::new();
    let mut i: usize = 0;
    while i < ids.len()
        invariant
            i <= ids@.len(),
            str_views(out@) == ids@.take(i as int).map_values(|u: u128| ulid_text(u)),
        decreases ids.len() - i,
    {
        let ghost before = str_views(out@);
        out.push(NoteId(ids[i]).to_string());
        proof {
            assert(str_views(out@) =~= before.push(ulid_text(ids@[i as int])));
            assert(ids@.take(i + 1).map_values(|u: u128| ulid_text(u)) =~= ids@.take(i as int).map_values(
                |u: u128| ulid_text(u),
            ).push(ulid_text(ids@[i as int])));
        }
        i += 1;
    }
    proof {
        assert(ids@.take(ids@.len() as int) =~= ids@);
    }
    out
}

/// What one entry of the listing says of a file.
pub open spec fn entry_ok<F: Fn(&str, &str) -> Option<u64>>(
    e: FileEntry,
    path: Seq<char>,
    hash: Seq<char>,
    kept: Seq<String>,
    users: Seq<(NoteId, String)>,
    size: F,
) -> bool {
    &&& e.path@ == path
    &&& e.hash@ == hash
    &&& exists|p: &str, h: &str| p@ == path && h@ == hash && size.ensures((p, h), e.size)
    &&& e.kept == str_views(kept).contains(path)
    &&& e.vault == is_vault_resource_spec(path)
    &&& used_by_ok(e.used_by@, users, path)
}

/// Assemble the listing from a vault doc's entries and marks, the store's (note, path) pairs,
/// and whatever the caller knows about sizes.
pub fn listing<F: Fn(&str, &str) -> Option<u64>>(
    entries: Vec<(String, String)>,
    kept: &[String],
    users: &[(NoteId, String)],
    size: F,
) -> (r: Vec<FileEntry>)
    requires
        forall|p: &str, h: &str| size.requires((p, h)),
    ensures
        r@.len() == entries@.len(),
        forall|k: int|
            0 <= k < r@.len() ==> entry_ok(#[trigger] r@[k], entries@[k].0@, entries@[k].1@, kept@, users@, size),
{
    let mut out: Vec<FileEntry> = Vec::new();
    let mut i: usize = 0;
    while i < entries.len()
        invariant
            i <= entries@.len(),
            out@.len() == i,
            forall|p: &str, h: &str| size.requires((p, h)),
            forall|k: int|
                0 <= k < i ==> entry_ok(#[trigger] out@[k], entries@[k].0@, entries@[k].1@, kept@, users@, size),
        decreases entries.len() - i,
    {
        let path = entries[i].0.as_str();
        let hash = entries[i].1.as_str();
        let pc = chars_of(path);
        let ids = users_of(users, &pc);
        let used_by = id_texts(&ids);
        let sz = size(path, hash);
        let e = FileEntry {
            path: path.to_owned(),
            hash: hash.to_owned(),
            size: sz,
            used_by,
            kept: crate::attachments::has_file(kept, &pc),
            vault: is_vault_resource(path),
        };
        proof {
            assert(used_by_ok(e.used_by@, users@, pc@));
        }
        out.push(e);
        i += 1;
    }
    out
}

} // verus!
