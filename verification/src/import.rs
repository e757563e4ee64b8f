//! Obsidian vault import: the text of a note rewritten for this dialect, and the files of an
//! uploaded vault sorted into notes, attachments and the two settings files that have a home
//! here.
//!
//! Two pieces of Obsidian-only syntax are rewritten: blockquote callouts become Quarto fenced
//! divs, and image embeds become standard markdown images. Wikilinks, tags, maths and front
//! matter are left alone.
use vstd::prelude::*;
use crate::json::{get_str, json_document, json_error_text, json_get, json_str, parse_json, Json};
use crate::projection::{dot, dotdot, file_name, file_name_exec, note_extensions, path_extension, path_extension_exec, str_views, views};
use crate::text::{split, split_exec, utf8_lossy, lossy_text, utf8_str};
use vstd::utf8::{decode_utf8, valid_utf8};
use crate::vault_doc::{bookmark_views, Bookmark};
use crate::error::Error;
use crate::text::{append, chars_of, concat, contains, contains_char, contains_exec, ends_with_exec, eq, find, find_exec, is_ws, is_ws_exec, join, join_exec, lemma_find, lower_seq, lower_vec, replace, replace_exec, slice, starts_with, starts_with_exec, string_of, strip_prefix, total_len, trim, trim_end, trim_end_exec, trim_exec, trim_start, trim_start_exec};

verus! {

broadcast use vstd::seq_lib::group_seq_properties;

// ---------------------------------------------------------------------------------------------
// Fences, quotes, callouts
// ---------------------------------------------------------------------------------------------

/// How many times `ch` repeats at the start of `t`.
pub open spec fn run_len(t: Seq<char>, ch: char) -> nat
    decreases t.len(),
{
    if t.len() > 0 && t[0] == ch {
        1 + run_len(t.drop_first(), ch)
    } else {
        0
    }
}

/// A code fence opening line: three or more backticks or tildes after the indentation.
pub open spec fn fence_marker(line: Seq<char>) -> Option<(char, nat)> {
    let t = trim_start(line);
    if t.len() == 0 || (t[0] != '`' && t[0] != '~') {
        None
    } else if run_len(t, t[0]) < 3 {
        None
    } else {
        Some((t[0], run_len(t, t[0])))
    }
}

/// A line that closes a fence opened with `opened` times `ch`: at least as long a run of the
/// same character, and nothing after it.
pub open spec fn closes_fence(line: Seq<char>, ch: char, opened: nat) -> bool {
    match fence_marker(line) {
        Some((c, n)) => c == ch && n >= opened && trim(trim_start(line).skip(n as int)).len() == 0,
        None => false,
    }
}

/// A blockquote line with its `> ` (or bare `>`) removed.
pub open spec fn strip_quote(line: Seq<char>) -> Option<Seq<char>> {
    match strip_prefix(trim_start(line), seq!['>']) {
        Some(r) => Some(
            match strip_prefix(r, seq![' ']) {
                Some(x) => x,
                None => r,
            },
        ),
        None => None,
    }
}

pub open spec fn kind_tip() -> Seq<char> {
    seq!['t', 'i', 'p']
}

pub open spec fn kind_note() -> Seq<char> {
    seq!['n', 'o', 't', 'e']
}

/// Obsidian callout kinds → the five Quarto kinds this dialect supports.
pub open spec fn map_kind(kind: Seq<char>) -> Seq<char> {
    if kind == kind_tip() || kind == seq!['h', 'i', 'n', 't'] || kind == seq!['s', 'u', 'c', 'c', 'e', 's', 's'] {
        kind_tip()
    } else if kind == seq!['w', 'a', 'r', 'n', 'i', 'n', 'g'] {
        kind
    } else if kind == seq!['c', 'a', 'u', 't', 'i', 'o', 'n'] {
        kind
    } else if kind == seq!['i', 'm', 'p', 'o', 'r', 't', 'a', 'n', 't'] {
        kind
    } else {
        kind_note()
    }
}

/// A parsed `> [!kind]± Title` header line: the Quarto kind, the title, and whether it starts
/// collapsed.
pub open spec fn parse_callout(line: Seq<char>) -> Option<(Seq<char>, Seq<char>, bool)> {
    match strip_prefix(trim_start(line), seq!['>']) {
        None => None,
        Some(r0) => match strip_prefix(trim_start(r0), seq!['[', '!']) {
            None => None,
            Some(r) => match find(r, seq![']']) {
                None => None,
                Some(end) => {
                    let kind = lower_seq(trim(r.take(end)));
                    if kind.len() == 0 {
                        None
                    } else {
                        let after = r.skip(end + 1);
                        if starts_with(after, seq!['-']) {
                            Some((map_kind(kind), trim(after.drop_first()), true))
                        } else {
                            let a2 = match strip_prefix(after, seq!['+']) {
                                Some(x) => x,
                                None => after,
                            };
                            Some((map_kind(kind), trim(a2), false))
                        }
                    }
                },
            },
        },
    }
}

/// The fenced div that opens a callout.
pub open spec fn callout_open(kind: Seq<char>, title: Seq<char>, collapsed: bool) -> Seq<char> {
    seq![':', ':', ':', ' ', '{', '.', 'c', 'a', 'l', 'l', 'o', 'u', 't', '-'] + kind + (if title.len() > 0 {
        seq![' ', 't', 'i', 't', 'l', 'e', '=', '"'] + replace(title, seq!['"'], seq!['\\', '"']) + seq!['"']
    } else {
        Seq::empty()
    }) + (if collapsed {
        seq![' ', 'c', 'o', 'l', 'l', 'a', 'p', 's', 'e', '=', '"', 't', 'r', 'u', 'e', '"']
    } else {
        Seq::empty()
    }) + seq!['}']
}

/// The indentation of a line.
pub open spec fn indent(line: Seq<char>) -> Seq<char> {
    line.take(line.len() - trim_start(line).len())
}

// ---------------------------------------------------------------------------------------------
// Embeds
// ---------------------------------------------------------------------------------------------

pub open spec fn image_extensions() -> Seq<Seq<char>> {
    seq![
        seq!['p', 'n', 'g'],
        seq!['j', 'p', 'g'],
        seq!['j', 'p', 'e', 'g'],
        seq!['g', 'i', 'f'],
        seq!['s', 'v', 'g'],
        seq!['w', 'e', 'b', 'p'],
        seq!['b', 'm', 'p'],
        seq!['a', 'v', 'i', 'f'],
    ]
}

/// An embed target whose extension is an image's.
pub open spec fn is_image(target: Seq<char>) -> bool {
    match path_extension(target) {
        Some(e) => image_extensions().contains(lower_seq(e)),
        None => false,
    }
}

/// The markdown image for a target, in `<…>` when it has a space or a parenthesis.
pub open spec fn image_link(target: Seq<char>) -> Seq<char> {
    if (exists|i: int| 0 <= i < target.len() && is_ws(#[trigger] target[i])) || target.contains('(')
        || target.contains(')') {
        seq!['!', '[', ']', '(', '<'] + target + seq!['>', ')']
    } else {
        seq!['!', '[', ']', '('] + target + seq![')']
    }
}

/// The part of `s` before its first `c`.
pub open spec fn before_char(s: Seq<char>, c: char) -> Seq<char> {
    match find(s, seq![c]) {
        Some(i) => s.take(i),
        None => s,
    }
}

/// `![[image.png]]` and `![[image.png|300]]` rewritten to `![](image.png)`, every other
/// `![[…]]` left for transclusion; with the number rewritten.
pub open spec fn rewrite_embeds(rest: Seq<char>) -> (Seq<char>, nat)
    decreases rest.len(),
{
    match find(rest, seq!['!', '[', '[']) {
        None => (rest, 0),
        Some(at) => {
            let inner_start = rest.skip(at + 3);
            match find(inner_start, seq![']', ']']) {
                None => (rest, 0),
                Some(end) => if 0 <= at && 0 <= end && at + 3 + end + 2 <= rest.len() {
                    let target = trim(before_char(inner_start.take(end), '|'));
                    let tail = rewrite_embeds(rest.skip(at + 3 + end + 2));
                    if is_image(target) {
                        (rest.take(at) + image_link(target) + tail.0, tail.1 + 1)
                    } else {
                        (rest.take(at + 3 + end + 2) + tail.0, tail.1)
                    }
                } else {
                    (rest, 0)
                },
            }
        },
    }
}

/// An embed takes five characters at least, so a line has fewer embeds than characters.
pub proof fn lemma_rewrite_embeds_count(rest: Seq<char>)
    ensures
        rewrite_embeds(rest).1 <= rest.len(),
    decreases rest.len(),
{
    lemma_find(rest, seq!['!', '[', '[']);
    match find(rest, seq!['!', '[', '[']) {
        None => {},
        Some(at) => {
            let inner_start = rest.skip(at + 3);
            lemma_find(inner_start, seq![']', ']']);
            match find(inner_start, seq![']', ']']) {
                None => {},
                Some(end) => {
                    if 0 <= at && 0 <= end && at + 3 + end + 2 <= rest.len() {
                        lemma_rewrite_embeds_count(rest.skip(at + 3 + end + 2));
                    }
                },
            }
        },
    }
}

// ---------------------------------------------------------------------------------------------
// Executable helpers
// ---------------------------------------------------------------------------------------------

pub(crate) fn run_len_exec(t: &[char], ch: char) -> (r: usize)
    ensures
        r == run_len(t@, ch),
        r <= t@.len(),
{
    let mut i: usize = 0;
    while i < t.len() && t[i] == ch
        invariant
            i <= t@.len(),
            forall|j: int| 0 <= j < i ==> t@[j] == ch,
        decreases t.len() - i,
    {
        i += 1;
    }
    proof {
        lemma_run_len(t@, ch, i as int);
    }
    i
}

proof fn lemma_run_len(t: Seq<char>, ch: char, i: int)
    requires
        0 <= i <= t.len(),
        forall|j: int| 0 <= j < i ==> t[j] == ch,
        i == t.len() || t[i] != ch,
    ensures
        run_len(t, ch) == i,
    decreases i,
{
    if i > 0 {
        assert forall|j: int| 0 <= j < i - 1 implies t.drop_first()[j] == ch by {
            assert(t.drop_first()[j] == t[j + 1]);
        }
        lemma_run_len(t.drop_first(), ch, i - 1);
    }
}

/// A code fence opening line.
pub fn fence_marker_exec(line: &[char]) -> (r: Option<(char, usize)>)
    ensures
        match r {
            Some((c, n)) => fence_marker(line@) == Some((c, n as nat)) && n <= trim_start(line@).len(),
            None => fence_marker(line@) is None,
        },
{
    let t = trim_start_exec(line);
    if t.len() == 0 || (t[0] != '`' && t[0] != '~') {
        return None;
    }
    let n = run_len_exec(&t, t[0]);
    if n < 3 {
        None
    } else {
        Some((t[0], n))
    }
}

/// Whether `line` closes a fence opened with `opened` times `ch`.
pub fn closes_fence_exec(line: &[char], ch: char, opened: usize) -> (r: bool)
    ensures
        r == closes_fence(line@, ch, opened as nat),
{
    match fence_marker_exec(line) {
        Some((c, n)) => {
            let t = trim_start_exec(line);
            proof {
                assert(n <= t@.len());
            }
            c == ch && n >= opened && trim_exec(&slice(&t, n, t.len())).len() == 0
        },
        None => false,
    }
}

fn strip_prefix_exec(s: &[char], p: &[char]) -> (r: Option<Vec<char>>)
    ensures
        match r {
            Some(x) => strip_prefix(s@, p@) == Some(x@),
            None => strip_prefix(s@, p@) is None,
        },
{
    if starts_with_exec(s, p) {
        Some(slice(s, p.len(), s.len()))
    } else {
        None
    }
}

/// A blockquote line with its `> ` removed.
pub fn strip_quote_exec(line: &[char]) -> (r: Option<Vec<char>>)
    ensures
        match r {
            Some(x) => strip_quote(line@) == Some(x@),
            None => strip_quote(line@) is None,
        },
{
    let gt = vec!['>'];
    let sp = vec![' '];
    proof {
        assert(gt@ =~= seq!['>']);
        assert(sp@ =~= seq![' ']);
    }
    match strip_prefix_exec(&trim_start_exec(line), &gt) {
        Some(r) => match strip_prefix_exec(&r, &sp) {
            Some(x) => Some(x),
            None => Some(r),
        },
        None => None,
    }
}

fn lit(s: &str) -> (r: Vec<char>)
    ensures
        r@ == s@,
{
    chars_of(s)
}

fn map_kind_exec(kind: &[char]) -> (r: Vec<char>)
    ensures
        r@ == map_kind(kind@),
{
    let tip = lit("tip");
    let hint = lit("hint");
    let success = lit("success");
    let warning = lit("warning");
    let caution = lit("caution");
    let important = lit("important");
    proof {
        reveal_strlit("tip");
        reveal_strlit("hint");
        reveal_strlit("success");
        reveal_strlit("warning");
        reveal_strlit("caution");
        reveal_strlit("important");
        reveal_strlit("note");
        assert(tip@ =~= kind_tip());
        assert(hint@ =~= seq!['h', 'i', 'n', 't']);
        assert(success@ =~= seq!['s', 'u', 'c', 'c', 'e', 's', 's']);
        assert(warning@ =~= seq!['w', 'a', 'r', 'n', 'i', 'n', 'g']);
        assert(caution@ =~= seq!['c', 'a', 'u', 't', 'i', 'o', 'n']);
        assert(important@ =~= seq!['i', 'm', 'p', 'o', 'r', 't', 'a', 'n', 't']);
    }
    if eq(kind, &tip) || eq(kind, &hint) || eq(kind, &success) {
        tip
    } else if eq(kind, &warning) || eq(kind, &caution) || eq(kind, &important) {
        slice(kind, 0, kind.len())
    } else {
        let n = lit("note");
        proof {
            assert(n@ =~= kind_note());
        }
        n
    }
}

/// A parsed callout header.
fn parse_callout_exec(line: &[char]) -> (r: Option<(Vec<char>, Vec<char>, bool)>)
    ensures
        match r {
            Some((k, t, c)) => parse_callout(line@) == Some((k@, t@, c)),
            None => parse_callout(line@) is None,
        },
{
    let gt = vec!['>'];
    let bang = vec!['[', '!'];
    let close = vec![']'];
    let minus = vec!['-'];
    let plus = vec!['+'];
    proof {
        assert(gt@ =~= seq!['>']);
        assert(bang@ =~= seq!['[', '!']);
        assert(close@ =~= seq![']']);
        assert(minus@ =~= seq!['-']);
        assert(plus@ =~= seq!['+']);
    }
    let r0 = match strip_prefix_exec(&trim_start_exec(line), &gt) {
        Some(x) => x,
        None => return None,
    };
    let r = match strip_prefix_exec(&trim_start_exec(&r0), &bang) {
        Some(x) => x,
        None => return None,
    };
    proof {
        lemma_find(r@, close@);
    }
    let end = match find_exec(&r, &close) {
        Some(e) => e,
        None => return None,
    };
    let kind = lower_vec(&trim_exec(&slice(&r, 0, end)));
    if kind.len() == 0 {
        return None;
    }
    let rn = r.len();
    let after = slice(&r, end + 1, rn);
    let mk = map_kind_exec(&kind);
    if starts_with_exec(&after, &minus) {
        Some((mk, trim_exec(&slice(&after, 1, after.len())), true))
    } else {
        let a2 = match strip_prefix_exec(&after, &plus) {
            Some(x) => x,
            None => after,
        };
        Some((mk, trim_exec(&a2), false))
    }
}

/// The fenced div that opens a callout.
fn callout_open_exec(kind: &[char], title: &[char], collapsed: bool) -> (r: Vec<char>)
    ensures
        r@ == callout_open(kind@, title@, collapsed),
{
    let mut out = lit("::: {.callout-");
    proof {
        reveal_strlit("::: {.callout-");
        assert(out@ =~= seq![':', ':', ':', ' ', '{', '.', 'c', 'a', 'l', 'l', 'o', 'u', 't', '-']);
    }
    append(&mut out, kind);
    let ghost a = out@;
    if title.len() > 0 {
        let open = lit(" title=\"");
        let q = vec!['"'];
        let esc = vec!['\\', '"'];
        proof {
            reveal_strlit(" title=\"");
            assert(open@ =~= seq![' ', 't', 'i', 't', 'l', 'e', '=', '"']);
            assert(q@ =~= seq!['"']);
            assert(esc@ =~= seq!['\\', '"']);
        }
        append(&mut out, &open);
        append(&mut out, &replace_exec(title, &q, &esc));
        out.push('"');
    }
    let ghost b = out@;
    if collapsed {
        let c = lit(" collapse=\"true\"");
        proof {
            reveal_strlit(" collapse=\"true\"");
            assert(c@ =~= seq![' ', 'c', 'o', 'l', 'l', 'a', 'p', 's', 'e', '=', '"', 't', 'r', 'u', 'e', '"']);
        }
        append(&mut out, &c);
    }
    out.push('}');
    proof {
        assert(out@ =~= callout_open(kind@, title@, collapsed));
    }
    out
}

fn is_image_exec(target: &[char]) -> (r: bool)
    ensures
        r == is_image(target@),
{
    match path_extension_exec(target) {
        Some(e) => {
            let le = lower_vec(&e);
            let exts: Vec<Vec<char>> = vec![
                vec!['p', 'n', 'g'],
                vec!['j', 'p', 'g'],
                vec!['j', 'p', 'e', 'g'],
                vec!['g', 'i', 'f'],
                vec!['s', 'v', 'g'],
                vec!['w', 'e', 'b', 'p'],
                vec!['b', 'm', 'p'],
                vec!['a', 'v', 'i', 'f'],
            ];
            proof {
                assert(views(exts@) =~= image_extensions());
            }
            let mut i: usize = 0;
            while i < exts.len()
                invariant
                    i <= exts@.len(),
                    views(exts@) == image_extensions(),
                    le@ == lower_seq(e@),
                    path_extension(target@) == Some(e@),
                    forall|j: int| 0 <= j < i ==> image_extensions()[j] != le@,
                decreases exts.len() - i,
            {
                if eq(&exts[i], &le) {
                    proof {
                        assert(image_extensions()[i as int] == le@);
                        assert(image_extensions().contains(le@));
                    }
                    return true;
                }
                proof {
                    assert(views(exts@)[i as int] == exts@[i as int]@);
                }
                i += 1;
            }
            false
        },
        None => false,
    }
}

fn image_link_exec(target: &[char]) -> (r: Vec<char>)
    ensures
        r@ == image_link(target@),
{
    let mut spaced = false;
    let mut i: usize = 0;
    while i < target.len()
        invariant
            i <= target@.len(),
            spaced == exists|j: int| 0 <= j < i && is_ws(#[trigger] target@[j]),
        decreases target.len() - i,
    {
        if is_ws_exec(target[i]) {
            spaced = true;
        }
        i += 1;
    }
    let paren = vec!['(', ')'];
    if spaced || contains_char(target, '(') || contains_char(target, ')') {
        let mut out = vec!['!', '[', ']', '(', '<'];
        append(&mut out, target);
        out.push('>');
        out.push(')');
        proof {
            assert(out@ =~= image_link(target@));
        }
        out
    } else {
        let mut out = vec!['!', '[', ']', '('];
        append(&mut out, target);
        out.push(')');
        proof {
            assert(out@ =~= image_link(target@));
        }
        out
    }
}

/// One embed step: the text before and including the next embed, rewritten, its count, and how
/// far it reached (`None`: no embed follows, the rest is copied).
fn embed_step(rest: &[char]) -> (r: (Vec<char>, usize, Option<usize>))
    ensures
        r.1 <= 1,
        match r.2 {
            Some(k) => 0 < k <= rest@.len() && rewrite_embeds(rest@).0 == r.0@ + rewrite_embeds(
                rest@.skip(k as int),
            ).0 && rewrite_embeds(rest@).1 == rewrite_embeds(rest@.skip(k as int)).1 + r.1,
            None => rewrite_embeds(rest@) == (r.0@, 0nat) && r.1 == 0,
        },
{
    let open = vec!['!', '[', '['];
    let close = vec![']', ']'];
    proof {
        assert(open@ =~= seq!['!', '[', '[']);
        assert(close@ =~= seq![']', ']']);
        lemma_find(rest@, open@);
    }
    let n = rest.len();
    match find_exec(rest, &open) {
        None => (slice(rest, 0, n), 0, None),
        Some(at) => {
            let inner_start = slice(rest, at + 3, n);
            proof {
                assert(inner_start@ =~= rest@.skip(at + 3));
                lemma_find(inner_start@, close@);
            }
            match find_exec(&inner_start, &close) {
                None => (slice(rest, 0, n), 0, None),
                Some(end) => {
                    let inner = slice(&inner_start, 0, end);
                    let bar = vec!['|'];
                    proof {
                        assert(bar@ =~= seq!['|']);
                        lemma_find(inner@, bar@);
                    }
                    let head = match find_exec(&inner, &bar) {
                        Some(b) => slice(&inner, 0, b),
                        None => inner,
                    };
                    let target = trim_exec(&head);
                    if is_image_exec(&target) {
                        let mut piece = slice(rest, 0, at);
                        append(&mut piece, &image_link_exec(&target));
                        (piece, 1, Some(at + 3 + end + 2))
                    } else {
                        (slice(rest, 0, at + 3 + end + 2), 0, Some(at + 3 + end + 2))
                    }
                },
            }
        },
    }
}

/// Rewrite the image embeds of one line, counting them.
pub fn rewrite_embeds_exec(line: &[char]) -> (r: (Vec<char>, usize))
    ensures
        rewrite_embeds(line@) == (r.0@, r.1 as nat),
{
    let mut out: Vec<char> = Vec::new();
    let mut count: usize = 0;
    let mut i: usize = 0;
    let n = line.len();
    proof {
        lemma_rewrite_embeds_count(line@);
    }
    loop
        invariant
            i <= n == line@.len(),
            rewrite_embeds(line@).0 == out@ + rewrite_embeds(line@.skip(i as int)).0,
            rewrite_embeds(line@).1 == count + rewrite_embeds(line@.skip(i as int)).1,
            rewrite_embeds(line@).1 <= n,
        decreases n - i,
    {
        let rest = slice(line, i, n);
        proof {
            assert(rest@ =~= line@.skip(i as int));
        }
        let ghost before = out@;
        let (piece, k, adv) = embed_step(&rest);
        append(&mut out, &piece);
        match adv {
            Some(m) => {
                proof {
                    assert(rest@.skip(m as int) =~= line@.skip(i + m));
                    let x = rewrite_embeds(line@.skip(i + m)).0;
                    assert(out@ + x =~= before + (piece@ + x));
                }
                count = count + k;
                i = i + m;
            },
            None => {
                return (out, count);
            },
        }
    }
}

// ---------------------------------------------------------------------------------------------
// A note's text
// ---------------------------------------------------------------------------------------------

pub open spec fn dashes() -> Seq<char> {
    seq!['-', '-', '-']
}

pub open spec fn dots() -> Seq<char> {
    seq!['.', '.', '.']
}

/// The index after the front matter's closing line, searching from `i`; all the lines when it
/// never closes.
pub open spec fn fm_close(ls: Seq<Seq<char>>, i: int) -> int
    decreases ls.len() - i,
{
    if i < 0 || i >= ls.len() {
        ls.len() as int
    } else if trim_end(ls[i]) == dashes() || trim_end(ls[i]) == dots() {
        i + 1
    } else {
        fm_close(ls, i + 1)
    }
}

/// How many lines the front matter takes: a `---` on line 1 up to the next `---` or `...`.
pub open spec fn front_end(ls: Seq<Seq<char>>) -> int {
    if ls.len() > 0 && trim_end(ls[0]) == dashes() {
        fm_close(ls, 1)
    } else {
        0
    }
}

/// The continuation lines of a callout from `j` on, each unquoted and with its embeds
/// rewritten; the embeds counted; and where the blockquote ends.
pub open spec fn quote_block(ls: Seq<Seq<char>>, j: int) -> (Seq<Seq<char>>, nat, int)
    decreases ls.len() - j,
{
    if 0 <= j < ls.len() && strip_quote(ls[j]) is Some {
        let w = rewrite_embeds(strip_quote(ls[j])->0);
        let rest = quote_block(ls, j + 1);
        (seq![w.0] + rest.0, w.1 + rest.1, rest.2)
    } else {
        (Seq::empty(), 0, j)
    }
}

/// A fence state with its count as a number.
pub open spec fn fence_view(f: Option<(char, usize)>) -> Option<(char, nat)> {
    match f {
        Some((c, n)) => Some((c, n as nat)),
        None => None,
    }
}

/// The lines from `i` on converted, inside a fence or not; with the callouts and embeds.
pub open spec fn convert_body(ls: Seq<Seq<char>>, i: int, fence: Option<(char, nat)>) -> (Seq<
    Seq<char>,
>, nat, nat)
    decreases ls.len() - i,
{
    if i < 0 || i >= ls.len() {
        (Seq::empty(), 0, 0)
    } else {
        let line = ls[i];
        match fence {
            Some((ch, n)) => {
                let rest = convert_body(
                    ls,
                    i + 1,
                    if closes_fence(line, ch, n) {
                        None
                    } else {
                        fence
                    },
                );
                (seq![line] + rest.0, rest.1, rest.2)
            },
            None => match fence_marker(line) {
                Some(open) => {
                    let rest = convert_body(ls, i + 1, Some(open));
                    (seq![line] + rest.0, rest.1, rest.2)
                },
                None => match parse_callout(line) {
                    Some((k, t, c)) => {
                        let q = quote_block(ls, i + 1);
                        if i < q.2 <= ls.len() {
                            let rest = convert_body(ls, q.2, None);
                            (
                                seq![indent(line) + callout_open(k, t, c)] + q.0 + seq![
                                    indent(line) + seq![':', ':', ':'],
                                ] + rest.0,
                                rest.1 + 1,
                                q.1 + rest.2,
                            )
                        } else {
                            (Seq::empty(), 0, 0)
                        }
                    },
                    None => {
                        let w = rewrite_embeds(line);
                        let rest = convert_body(ls, i + 1, None);
                        (seq![w.0] + rest.0, rest.1, w.1 + rest.2)
                    },
                },
            },
        }
    }
}

/// A note's text converted: front matter and fenced code copied through, callouts turned into
/// fenced divs, image embeds into images; with the callouts and embeds rewritten.
pub open spec fn convert_spec(text: Seq<char>) -> (Seq<char>, nat, nat) {
    let ls = crate::text::lines(text);
    let fe = front_end(ls);
    let b = convert_body(ls, fe, None);
    let joined = join(ls.take(fe) + b.0, seq!['\n']);
    (
        if crate::text::ends_with(text, seq!['\n']) || text.len() == 0 {
            joined + seq!['\n']
        } else {
            joined
        },
        b.1,
        b.2,
    )
}

/// The continuation lines of a callout end where the blockquote does, after where they start.
proof fn lemma_quote_block_end(ls: Seq<Seq<char>>, j: int)
    requires
        0 <= j,
    ensures
        j <= quote_block(ls, j).2 <= (if j <= ls.len() {
            ls.len() as int
        } else {
            j
        }),
    decreases ls.len() - j,
{
    if 0 <= j < ls.len() && strip_quote(ls[j]) is Some {
        lemma_quote_block_end(ls, j + 1);
    }
}

fn is_lit3(s: &[char], c: char) -> (r: bool)
    ensures
        r == (s@ == seq![c, c, c]),
{
    let r = s.len() == 3 && s[0] == c && s[1] == c && s[2] == c;
    proof {
        if s@.len() == 3 && s@[0] == c && s@[1] == c && s@[2] == c {
            assert(s@ =~= seq![c, c, c]);
        }
    }
    r
}

/// One line, or one callout with its continuation lines, converted.
fn body_step(ls: &Vec<Vec<char>>, i: usize, fence: Option<(char, usize)>) -> (r: (
    Vec<Vec<char>>,
    usize,
    usize,
    usize,
    Option<(char, usize)>,
))
    requires
        i < ls@.len(),
        total_len(views(ls@)) <= usize::MAX,
    ensures
        i < r.3 <= ls@.len(),
        r.1 <= 1,
        r.2 <= total_len(views(ls@).subrange(i as int, r.3 as int)),
        convert_body(views(ls@), i as int, fence_view(fence)).0 == views(r.0@) + convert_body(
            views(ls@),
            r.3 as int,
            fence_view(r.4),
        ).0,
        convert_body(views(ls@), i as int, fence_view(fence)).1 == r.1 + convert_body(
            views(ls@),
            r.3 as int,
            fence_view(r.4),
        ).1,
        convert_body(views(ls@), i as int, fence_view(fence)).2 == r.2 + convert_body(
            views(ls@),
            r.3 as int,
            fence_view(r.4),
        ).2,
{
    let ghost vls = views(ls@);
    let n_lines = ls.len();
    let line = &ls[i];
    let copy = slice(line, 0, line.len());
    proof {
        assert(vls.subrange(i as int, i + 1) =~= seq![line@]);
        assert(crate::text::total_len(seq![line@]) == line@.len()) by {
            reveal_with_fuel(crate::text::total_len, 2);
            assert(seq![line@].drop_last() =~= Seq::<Seq<char>>::empty());
        }
    }
    match fence {
        Some((ch, n)) => {
            let next = if closes_fence_exec(line, ch, n) {
                None
            } else {
                fence
            };
            let v = vec![copy];
            proof {
                assert(views(v@) =~= seq![line@]);
            }
            (v, 0, 0, i + 1, next)
        },
        None => match fence_marker_exec(line) {
            Some(open) => {
                let v = vec![copy];
                proof {
                    assert(views(v@) =~= seq![line@]);
                }
                (v, 0, 0, i + 1, Some(open))
            },
            None => match parse_callout_exec(line) {
                Some((k, t, c)) => {
                    let ts = trim_start_exec(line);
                    proof {
                        crate::text::lemma_trim_start_len(line@);
                    }
                    let ind = slice(line, 0, line.len() - ts.len());
                    let mut head = slice(&ind, 0, ind.len());
                    append(&mut head, &callout_open_exec(&k, &t, c));
                    proof {
                        assert(head@ =~= indent(line@) + callout_open(k@, t@, c));
                    }
                    let ghost h = head@;
                    let mut pieces: Vec<Vec<char>> = vec![head];
                    let mut embeds: usize = 0;
                    let mut j = i + 1;
                    proof {
                        crate::text::lemma_trim_start_len(line@);
                        lemma_quote_block_end(vls, i + 1);
                        assert(vls.subrange(i + 1, i + 1) =~= Seq::<Seq<char>>::empty());
                    }
                    while j < ls.len()
                        invariant_except_break
                            i < j <= ls@.len(),
                            vls == views(ls@),
                            quote_block(vls, i + 1).0 == views(pieces@).drop_first() + quote_block(vls, j as int).0,
                            quote_block(vls, i + 1).1 == embeds + quote_block(vls, j as int).1,
                            quote_block(vls, i + 1).2 == quote_block(vls, j as int).2,
                            pieces@.len() >= 1,
                            pieces@[0]@ == h,
                            embeds <= total_len(vls.subrange(i + 1, j as int)),
                            total_len(vls) <= usize::MAX,
                        ensures
                            i < j <= ls@.len(),
                            quote_block(vls, i + 1).0 == views(pieces@).drop_first(),
                            quote_block(vls, i + 1).1 == embeds,
                            quote_block(vls, i + 1).2 == j,
                            pieces@.len() >= 1,
                            pieces@[0]@ == h,
                            embeds <= total_len(vls.subrange(i + 1, j as int)),
                        decreases ls.len() - j,
                    {
                        match strip_quote_exec(&ls[j]) {
                            Some(inner) => {
                                let ghost before = pieces@;
                                let (w, k2) = rewrite_embeds_exec(&inner);
                                proof {
                                    lemma_rewrite_embeds_count(inner@);
                                    crate::text::lemma_trim_start_len(ls@[j as int]@);
                                    assert(inner@.len() <= ls@[j as int]@.len());
                                    assert(vls.subrange(i + 1, j + 1).drop_last() =~= vls.subrange(i + 1, j as int));
                                    lemma_total_len_subrange(vls, i + 1, j + 1);
                                }
                                pieces.push(w);
                                proof {
                                    assert(views(pieces@).drop_first() =~= views(before).drop_first() + seq![w@]);
                                }
                                embeds = embeds + k2;
                                j = j + 1;
                            },
                            None => {
                                break;
                            },
                        }
                    }
                    let mut close = slice(&ind, 0, ind.len());
                    close.push(':');
                    close.push(':');
                    close.push(':');
                    let ghost before = pieces@;
                    pieces.push(close);
                    proof {
                        assert(views(pieces@) =~= views(before) + seq![close@]);
                        assert(views(before) =~= seq![views(before)[0]] + views(before).drop_first());
                        assert(close@ =~= indent(line@) + seq![':', ':', ':']);
                        lemma_total_len_sub(vls, i as int, j as int);
                        assert(views(pieces@) =~= seq![h] + quote_block(vls, i + 1).0 + seq![close@]);
                        let rest = convert_body(vls, j as int, None);
                        assert(convert_body(vls, i as int, None).0 =~= views(pieces@) + rest.0);
                    }
                    (pieces, 1, embeds, j, None)
                },
                None => {
                    let (w, k2) = rewrite_embeds_exec(line);
                    proof {
                        lemma_rewrite_embeds_count(line@);
                    }
                    let v = vec![w];
                    proof {
                        assert(views(v@) =~= seq![w@]);
                    }
                    (v, 0, k2, i + 1, None)
                },
            },
        },
    }
}

/// A run of pieces has no more characters than all of them.
proof fn lemma_total_len_subrange(ls: Seq<Seq<char>>, a: int, b: int)
    requires
        0 <= a <= b <= ls.len(),
    ensures
        total_len(ls.subrange(a, b)) <= total_len(ls),
{
    crate::text::lemma_total_len_add(ls.take(a), ls.subrange(a, b));
    crate::text::lemma_total_len_add(ls.take(b), ls.skip(b));
    assert(ls.take(a) + ls.subrange(a, b) =~= ls.take(b));
    assert(ls.take(b) + ls.skip(b) =~= ls);
}

/// Dropping the first of a run of pieces drops no more than its characters.
proof fn lemma_total_len_sub(ls: Seq<Seq<char>>, i: int, j: int)
    requires
        0 <= i < j <= ls.len(),
    ensures
        total_len(ls.subrange(i + 1, j)) <= total_len(ls.subrange(i, j)),
{
    crate::text::lemma_total_len_add(seq![ls[i]], ls.subrange(i + 1, j));
    assert(seq![ls[i]] + ls.subrange(i + 1, j) =~= ls.subrange(i, j));
}

/// One note's text after conversion, with what changed.
#[derive(Debug, Clone, PartialEq, Eq)]
pub struct Converted {
    pub text: String,
    pub callouts: usize,
    pub embeds: usize,
}

impl Default for Converted {
    fn default() -> (r: Converted)
        ensures
            r.text@.len() == 0 && r.callouts == 0 && r.embeds == 0,
    {
        Converted { text: String::new(), callouts: 0, embeds: 0 }
    }
}

/// The front matter's lines, copied: `---` on line 1 up to the next `---` or `...`.
fn front_lines(ls: &Vec<Vec<char>>) -> (r: Vec<Vec<char>>)
    ensures
        views(r@) == views(ls@).take(front_end(views(ls@))),
        0 <= front_end(views(ls@)) <= ls@.len(),
{
    let ghost vls = views(ls@);
    let mut out: Vec<Vec<char>> = Vec::new();
    if ls.len() == 0 || !is_lit3(&trim_end_exec(&ls[0]), '-') {
        proof {
            assert(views(out@) =~= vls.take(0));
        }
        return out;
    }
    out.push(slice(&ls[0], 0, ls[0].len()));
    let mut i: usize = 1;
    proof {
        assert(views(out@) =~= vls.take(1));
    }
    while i < ls.len()
        invariant_except_break
            1 <= i <= ls@.len(),
            vls == views(ls@),
            fm_close(vls, 1) == fm_close(vls, i as int),
            views(out@) == vls.take(i as int),
        ensures
            1 <= i <= ls@.len(),
            fm_close(vls, 1) == i,
            views(out@) == vls.take(i as int),
        decreases ls.len() - i,
    {
        let line = &ls[i];
        let ghost before = out@;
        let copy = slice(line, 0, line.len());
        out.push(copy);
        proof {
            assert(views(out@) =~= views(before).push(vls[i as int]));
            assert(vls.take(i + 1) =~= vls.take(i as int).push(vls[i as int]));
        }
        let t = trim_end_exec(line);
        let closing = is_lit3(&t, '-') || is_lit3(&t, '.');
        i += 1;
        if closing {
            break;
        }
    }
    out
}

/// Rewrite Obsidian-only syntax in a note's markdown. Front matter and fenced code blocks are
/// copied through untouched; wikilinks, tags, and maths are never rewritten.
pub fn convert_note(text: &str) -> (r: Converted)
    ensures
        r.text@ == convert_spec(text@).0,
        r.callouts == convert_spec(text@).1,
        r.embeds == convert_spec(text@).2,
{
    let tc = chars_of(text);
    let tn = tc.len();
    let ls = crate::text::lines_exec(&tc);
    let ghost vls = views(ls@);
    proof {
        assert(vls =~= crate::text::lines(text@));
        crate::text::lemma_lines_total(text@);
        assert(total_len(vls) <= tn);
    }
    let mut out = front_lines(&ls);
    let mut i = out.len();
    let ghost fe = i as int;
    proof {
        assert(views(out@).len() == out@.len());
        assert(fe == front_end(vls));
    }
    let mut fence: Option<(char, usize)> = None;
    let mut callouts: usize = 0;
    let mut embeds: usize = 0;
    proof {
        assert(vls.subrange(fe, fe) =~= Seq::<Seq<char>>::empty());
        assert(views(out@) + convert_body(vls, fe, None).0 =~= vls.take(fe) + convert_body(vls, fe, None).0);
    }
    while i < ls.len()
        invariant
            0 <= fe <= i <= ls@.len(),
            vls == views(ls@),
            fe == front_end(vls),
            total_len(vls) <= usize::MAX,
            views(out@) + convert_body(vls, i as int, fence_view(fence)).0 == vls.take(fe) + convert_body(
                vls,
                fe,
                None,
            ).0,
            callouts + convert_body(vls, i as int, fence_view(fence)).1 == convert_body(vls, fe, None).1,
            embeds + convert_body(vls, i as int, fence_view(fence)).2 == convert_body(vls, fe, None).2,
            callouts <= i,
            embeds <= total_len(vls.subrange(fe, i as int)),
        decreases ls.len() - i,
    {
        let ghost before = views(out@);
        let (mut pieces, c, e, next, f2) = body_step(&ls, i, fence);
        let ghost pv = views(pieces@);
        out.append(&mut pieces);
        proof {
            assert(views(out@) =~= before + pv);
            let rest = convert_body(vls, next as int, fence_view(f2)).0;
            assert(views(out@) + rest =~= before + (pv + rest));
            crate::text::lemma_total_len_add(vls.subrange(fe, i as int), vls.subrange(i as int, next as int));
            assert(vls.subrange(fe, i as int) + vls.subrange(i as int, next as int) =~= vls.subrange(fe, next as int));
            lemma_total_len_subrange(vls, fe, next as int);
        }
        callouts = callouts + c;
        embeds = embeds + e;
        fence = f2;
        i = next;
    }
    let nl = vec!['\n'];
    proof {
        assert(nl@ =~= seq!['\n']);
        assert(views(out@) =~= vls.take(fe) + convert_body(vls, fe, None).0);
    }
    let mut joined = join_exec(&out, &nl);
    if ends_with_exec(&tc, &nl) || tc.len() == 0 {
        joined.push('\n');
    }
    Converted { text: string_of(&joined), callouts, embeds }
}

// ---------------------------------------------------------------------------------------------
// Vault settings
// ---------------------------------------------------------------------------------------------

pub type BookmarkView = (Seq<char>, Seq<char>, Seq<char>);

pub open spec fn lit_note() -> Seq<char> {
    kind_note()
}

/// `Path::file_stem`: the file name without its last extension, or the whole path when it has
/// no file name.
pub open spec fn file_stem(p: Seq<char>) -> Seq<char> {
    match file_name(p) {
        Some(n) => match crate::text::rfind(n, seq!['.']) {
            Some(i) => if i > 0 {
                n.take(i)
            } else {
                n
            },
            None => n,
        },
        None => p,
    }
}

/// The note bookmarks of an Obsidian `items` member: files by path, with their title or else the
/// file stem as label, and groups flattened in order; searches and the like dropped.
pub open spec fn collect_bookmarks(items: Json) -> Seq<BookmarkView>
    decreases items,
{
    match items {
        Json::Array(a) => collect_list(a@),
        _ => Seq::empty(),
    }
}

pub open spec fn collect_list(a: Seq<Json>) -> Seq<BookmarkView>
    decreases a,
{
    if a.len() == 0 {
        Seq::empty()
    } else {
        item_bookmarks(a[0]) + collect_list(a.drop_first())
    }
}

pub open spec fn item_bookmarks(item: Json) -> Seq<BookmarkView>
    decreases item,
{
    match item {
        Json::Object(m) => {
            let ty = json_str(json_get(item, seq!['t', 'y', 'p', 'e']));
            if ty == Some(seq!['g', 'r', 'o', 'u', 'p']) {
                group_items(m@)
            } else if ty == Some(seq!['f', 'i', 'l', 'e']) {
                match json_str(json_get(item, seq!['p', 'a', 't', 'h'])) {
                    None => Seq::empty(),
                    Some(p) => {
                        let label = match json_str(json_get(item, seq!['t', 'i', 't', 'l', 'e'])) {
                            Some(t) => if t.len() > 0 {
                                t
                            } else {
                                file_stem(p)
                            },
                            None => file_stem(p),
                        };
                        seq![(lit_note(), p, label)]
                    },
                }
            } else {
                Seq::empty()
            }
        },
        _ => Seq::empty(),
    }
}

/// A group's bookmarks: those of its `items` member.
pub open spec fn group_items(m: Seq<(String, Json)>) -> Seq<BookmarkView>
    decreases m,
{
    if m.len() == 0 {
        Seq::empty()
    } else if m[0].0@ == seq!['i', 't', 'e', 'm', 's'] {
        collect_bookmarks(m[0].1)
    } else {
        group_items(m.drop_first())
    }
}

/// The bookmarks of Obsidian's `bookmarks.json`, or the parser's complaint.
pub open spec fn parse_bookmarks_spec(raw: Seq<char>) -> Result<Seq<BookmarkView>, Seq<char>> {
    match json_document(raw) {
        Some(v) => Ok(
            match v {
                Json::Object(m) => group_items(m@),
                _ => Seq::empty(),
            },
        ),
        None => Err(json_error_text(raw)),
    }
}

fn file_stem_exec(p: &[char]) -> (r: Vec<char>)
    ensures
        r@ == file_stem(p@),
{
    match file_name_exec(p) {
        Some(n) => {
            let nn = n.len();
            proof {
                crate::text::lemma_rfind_before(n@, seq!['.'], n@.len() + 1int);
            }
            match crate::text::rfind_char(&n, '.') {
                Some(i) => if i > 0 {
                    slice(&n, 0, i)
                } else {
                    n
                },
                None => n,
            }
        },
        None => slice(p, 0, p.len()),
    }
}

fn collect_bookmarks_exec(items: &Json, out: &mut Vec<Bookmark>)
    ensures
        bookmark_views(final(out)@) == bookmark_views(old(out)@) + collect_bookmarks(*items),
    decreases items,
{
    match items {
        Json::Array(a) => {
            collect_list_exec(a, out);
        },
        _ => {
            proof {
                assert(bookmark_views(out@) =~= bookmark_views(out@) + Seq::<BookmarkView>::empty());
            }
        },
    }
}

fn collect_list_exec(a: &Vec<Json>, out: &mut Vec<Bookmark>)
    ensures
        bookmark_views(final(out)@) == bookmark_views(old(out)@) + collect_list(a@),
    decreases a@,
{
    let mut i: usize = 0;
    proof {
        assert(a@.skip(0) =~= a@);
        assert(bookmark_views(out@) =~= bookmark_views(old(out)@) + Seq::<BookmarkView>::empty());
    }
    while i < a.len()
        invariant
            i <= a@.len(),
            bookmark_views(out@) + collect_list(a@.skip(i as int)) == bookmark_views(old(out)@)
                + collect_list(a@),
        decreases a.len() - i,
    {
        let ghost before = bookmark_views(out@);
        proof {
            assert(a@.skip(i as int).drop_first() =~= a@.skip(i + 1));
            assert(a@.skip(i as int)[0] == a@[i as int]);
        }
        item_bookmarks_exec(&a[i], out);
        proof {
            let x = collect_list(a@.skip(i + 1));
            assert(bookmark_views(out@) + x =~= before + (item_bookmarks(a@[i as int]) + x));
        }
        i += 1;
    }
    proof {
        assert(a@.skip(a@.len() as int) =~= Seq::<Json>::empty());
    }
}

fn item_bookmarks_exec(item: &Json, out: &mut Vec<Bookmark>)
    ensures
        bookmark_views(final(out)@) == bookmark_views(old(out)@) + item_bookmarks(*item),
    decreases item,
{
    proof {
        assert(bookmark_views(out@) =~= bookmark_views(out@) + Seq::<BookmarkView>::empty());
    }
    match item {
        Json::Object(m) => {
            let ty = get_str(item, "type");
            let group = lit("group");
            let file = lit("file");
            proof {
                reveal_strlit("type");
                reveal_strlit("group");
                reveal_strlit("file");
                assert("type"@ =~= seq!['t', 'y', 'p', 'e']);
                assert(group@ =~= seq!['g', 'r', 'o', 'u', 'p']);
                assert(file@ =~= seq!['f', 'i', 'l', 'e']);
            }
            match ty {
                Some(t) => {
                    let tc = chars_of(t.as_str());
                    if eq(&tc, &group) {
                        group_items_exec(m, out);
                    } else if eq(&tc, &file) {
                        proof {
                            reveal_strlit("path");
                            reveal_strlit("title");
                            assert("path"@ =~= seq!['p', 'a', 't', 'h']);
                            assert("title"@ =~= seq!['t', 'i', 't', 'l', 'e']);
                        }
                        match get_str(item, "path") {
                            None => {},
                            Some(p) => {
                                let pc = chars_of(p.as_str());
                                let label = match get_str(item, "title") {
                                    Some(t) => if chars_of(t.as_str()).len() > 0 {
                                        t
                                    } else {
                                        string_of(&file_stem_exec(&pc))
                                    },
                                    None => string_of(&file_stem_exec(&pc)),
                                };
                                let kind = string_of(&lit("note"));
                                proof {
                                    reveal_strlit("note");
                                    assert(kind@ =~= lit_note());
                                    let spec_label = match json_str(json_get(*item, seq!['t', 'i', 't', 'l', 'e'])) {
                                        Some(t) => if t.len() > 0 {
                                            t
                                        } else {
                                            file_stem(p@)
                                        },
                                        None => file_stem(p@),
                                    };
                                    assert(label@ == spec_label);
                                    assert(item_bookmarks(*item) =~= seq![(lit_note(), p@, spec_label)]);
                                }
                                let ghost before = out@;
                                out.push(Bookmark { kind, target: p, label });
                                proof {
                                    assert(bookmark_views(out@) =~= bookmark_views(before) + item_bookmarks(*item));
                                }
                            },
                        }
                    }
                },
                None => {},
            }
        },
        _ => {},
    }
}

fn group_items_exec(m: &Vec<(String, Json)>, out: &mut Vec<Bookmark>)
    ensures
        bookmark_views(final(out)@) == bookmark_views(old(out)@) + group_items(m@),
    decreases m@,
{
    let items = lit("items");
    proof {
        reveal_strlit("items");
        assert(items@ =~= seq!['i', 't', 'e', 'm', 's']);
        assert(m@.skip(0) =~= m@);
    }
    let mut i: usize = 0;
    while i < m.len()
        invariant
            i <= m@.len(),
            items@ == seq!['i', 't', 'e', 'm', 's'],
            group_items(m@) == group_items(m@.skip(i as int)),
            bookmark_views(out@) == bookmark_views(old(out)@),
        decreases m.len() - i,
    {
        proof {
            assert(m@.skip(i as int).drop_first() =~= m@.skip(i + 1));
            assert(m@.skip(i as int)[0] == m@[i as int]);
        }
        if eq(&chars_of(m[i].0.as_str()), &items) {
            collect_bookmarks_exec(&m[i].1, out);
            return;
        }
        i += 1;
    }
    proof {
        assert(m@.skip(m@.len() as int) =~= Seq::<(String, Json)>::empty());
        assert(bookmark_views(out@) =~= bookmark_views(old(out)@) + group_items(m@));
    }
}

/// Flatten Obsidian's `bookmarks.json` (nested `group` items) into note bookmarks.
pub fn parse_bookmarks(raw: &str) -> (r: Result<Vec<Bookmark>, Error>)
    ensures
        match r {
            Ok(v) => parse_bookmarks_spec(raw@) == Ok::<Seq<BookmarkView>, Seq<char>>(bookmark_views(v@)),
            Err(e) => parse_bookmarks_spec(raw@) matches Err(m) && e == Error::Import(e->Import_0) && e->Import_0@ == m,
        },
{
    match parse_json(raw) {
        Ok(v) => {
            let mut out: Vec<Bookmark> = Vec::new();
            match &v {
                Json::Object(m) => {
                    group_items_exec(m, &mut out);
                },
                _ => {},
            }
            proof {
                assert(bookmark_views(out@) =~= (match v {
                    Json::Object(m) => group_items(m@),
                    _ => Seq::empty(),
                }));
            }
            Ok(out)
        },
        Err(m) => Err(Error::Import(m)),
    }
}

/// Imported daily-note settings (`.obsidian/daily-notes.json`).
#[derive(Debug, Clone, PartialEq, Eq)]
pub struct DailySettings {
    /// Folder new daily notes go into ("" = vault root).
    pub folder: String,
    /// Moment.js-style date format Obsidian used for the filename.
    pub format: String,
}

impl Default for DailySettings {
    fn default() -> (r: DailySettings)
        ensures
            r.folder@.len() == 0 && r.format@.len() == 0,
    {
        DailySettings { folder: String::new(), format: String::new() }
    }
}

pub open spec fn lit_default_format() -> Seq<char> {
    seq!['Y', 'Y', 'Y', 'Y', '-', 'M', 'M', '-', 'D', 'D']
}

/// Obsidian's `daily-notes.json`: folder and format, the folder empty and the format
/// `YYYY-MM-DD` when missing; `None` for a text that is not JSON.
pub open spec fn parse_daily_notes_spec(raw: Seq<char>) -> Option<(Seq<char>, Seq<char>)> {
    match json_document(raw) {
        Some(v) => Some(
            (
                match json_str(json_get(v, seq!['f', 'o', 'l', 'd', 'e', 'r'])) {
                    Some(f) => f,
                    None => Seq::empty(),
                },
                match json_str(json_get(v, seq!['f', 'o', 'r', 'm', 'a', 't'])) {
                    Some(f) => f,
                    None => lit_default_format(),
                },
            ),
        ),
        None => None,
    }
}

/// Obsidian's `daily-notes.json`, with its defaults filled in.
pub fn parse_daily_notes(raw: &str) -> (r: Option<DailySettings>)
    ensures
        match r {
            Some(d) => parse_daily_notes_spec(raw@) == Some((d.folder@, d.format@)),
            None => parse_daily_notes_spec(raw@) is None,
        },
{
    match parse_json(raw) {
        Ok(v) => {
            proof {
                reveal_strlit("folder");
                reveal_strlit("format");
                reveal_strlit("YYYY-MM-DD");
                assert("folder"@ =~= seq!['f', 'o', 'l', 'd', 'e', 'r']);
                assert("format"@ =~= seq!['f', 'o', 'r', 'm', 'a', 't']);
                assert("YYYY-MM-DD"@ =~= lit_default_format());
            }
            let folder = match get_str(&v, "folder") {
                Some(f) => f,
                None => String::new(),
            };
            let format = match get_str(&v, "format") {
                Some(f) => f,
                None => "YYYY-MM-DD".to_owned(),
            };
            Some(DailySettings { folder, format })
        },
        Err(_) => None,
    }
}

// ---------------------------------------------------------------------------------------------
// Uploaded vaults
// ---------------------------------------------------------------------------------------------

/// One segment of an uploaded path, trimmed: empty and `.` are dropped, `..` refuses the path.
pub open spec fn upload_walk(segs: Seq<Seq<char>>) -> Option<Seq<Seq<char>>>
    decreases segs.len(),
{
    if segs.len() == 0 {
        Some(Seq::empty())
    } else {
        match upload_walk(segs.drop_last()) {
            None => None,
            Some(p) => {
                let t = trim(segs.last());
                if t.len() == 0 || t == dot() {
                    Some(p)
                } else if t == dotdot() {
                    None
                } else {
                    Some(p.push(t))
                }
            },
        }
    }
}

/// A browser-supplied relative path normalised: backslashes become `/`, empty and `.` segments
/// go, segments are trimmed; anything that could escape the vault (`..`, a `:` as in `C:`, an
/// empty result) is refused.
pub open spec fn upload_path_spec(rel: Seq<char>) -> Option<Seq<char>> {
    let r = replace(rel, seq!['\\'], seq!['/']);
    if r.contains(':') {
        None
    } else {
        match upload_walk(split(r, '/')) {
            Some(p) => if p.len() == 0 {
                None
            } else {
                Some(join(p, seq!['/']))
            },
            None => None,
        }
    }
}

/// Normalise a browser-supplied relative path: backslashes become `/`, leading slashes and `.`
/// segments go, and anything that could escape the vault (`..`, an absolute Windows path, an
/// empty result) is rejected.
pub fn upload_path(rel: &str) -> (r: Option<String>)
    ensures
        match r {
            Some(s) => upload_path_spec(rel@) == Some(s@),
            None => upload_path_spec(rel@) is None,
        },
{
    let bs = vec!['\\'];
    let sl = vec!['/'];
    proof {
        assert(bs@ =~= seq!['\\']);
        assert(sl@ =~= seq!['/']);
    }
    let r = replace_exec(&chars_of(rel), &bs, &sl);
    if contains_char(&r, ':') {
        return None;
    }
    let segs = split_exec(&r, '/');
    let ghost vs = split(r@, '/');
    let mut parts: Vec<Vec<char>> = Vec::new();
    let mut i: usize = 0;
    while i < segs.len()
        invariant
            i <= segs@.len(),
            r@ == replace(rel@, seq!['\\'], seq!['/']),
            !r@.contains(':'),
            vs == split(r@, '/'),
            segs@.len() == vs.len(),
            forall|k: int| 0 <= k < segs@.len() ==> #[trigger] segs@[k]@ == vs[k],
            upload_walk(vs.take(i as int)) == Some(views(parts@)),
        decreases segs.len() - i,
    {
        proof {
            assert(vs.take(i + 1).drop_last() =~= vs.take(i as int));
        }
        let t = trim_exec(&segs[i]);
        let is_dot = t.len() == 1 && t[0] == '.';
        let is_dotdot = t.len() == 2 && t[0] == '.' && t[1] == '.';
        proof {
            if t@.len() == 1 && t@[0] == '.' {
                assert(t@ =~= dot());
            }
            if t@.len() == 2 && t@[0] == '.' && t@[1] == '.' {
                assert(t@ =~= dotdot());
            }
        }
        if t.len() == 0 || is_dot {
        } else if is_dotdot {
            proof {
                lemma_upload_walk_none(vs, i as int + 1);
            }
            return None;
        } else {
            let ghost before = parts@;
            parts.push(t);
            proof {
                assert(views(parts@) =~= views(before).push(t@));
            }
        }
        i += 1;
    }
    proof {
        assert(vs.take(segs@.len() as int) =~= vs);
    }
    if parts.len() == 0 {
        None
    } else {
        proof {
            assert(sl@ =~= seq!['/']);
        }
        Some(string_of(&join_exec(&parts, &sl)))
    }
}

proof fn lemma_upload_walk_none(vs: Seq<Seq<char>>, j: int)
    requires
        0 <= j <= vs.len(),
        upload_walk(vs.take(j)) is None,
    ensures
        upload_walk(vs) is None,
    decreases vs.len() - j,
{
    if j < vs.len() {
        assert(vs.take(j + 1).drop_last() =~= vs.take(j));
        lemma_upload_walk_none(vs, j + 1);
    } else {
        assert(vs.take(j) =~= vs);
    }
}

/// What one uploaded file of an Obsidian vault turns into. The caller decides where it lands:
/// the server writes notes into the CRDT, the local relay into the vault folder.
#[derive(Debug, Clone, PartialEq, Eq)]
pub enum Upload {
    /// A converted note, ready to be created at `path`.
    Note { path: String, text: String, callouts: usize, embeds: usize },
    /// Any other file the vault referenced.
    Attachment { path: String, bytes: Vec<u8> },
    /// `.obsidian/bookmarks.json`, flattened.
    Bookmarks(Vec<Bookmark>),
    /// `.obsidian/daily-notes.json`.
    Daily(DailySettings),
}

/// What an upload is, as values.
pub enum UploadView {
    Note(Seq<char>, Seq<char>, nat, nat),
    Attachment(Seq<char>, Seq<u8>),
    Bookmarks(Seq<BookmarkView>),
    Daily(Seq<char>, Seq<char>),
}

impl Upload {
    pub open spec fn view_of(self) -> UploadView {
        match self {
            Upload::Note { path, text, callouts, embeds } => UploadView::Note(
                path@,
                text@,
                callouts as nat,
                embeds as nat,
            ),
            Upload::Attachment { path, bytes } => UploadView::Attachment(path@, bytes@),
            Upload::Bookmarks(v) => UploadView::Bookmarks(bookmark_views(v@)),
            Upload::Daily(d) => UploadView::Daily(d.folder@, d.format@),
        }
    }
}

/// What one upload request did. A whole import is several requests, so these counts are per
/// request and the caller adds them up.
#[derive(Debug, Clone, Copy, PartialEq, Eq)]
pub struct UploadReport {
    pub notes: usize,
    pub attachments: usize,
    pub callouts: usize,
    pub embeds: usize,
    /// Files left alone: a path the vault already had, or an attachment over the size limit.
    pub skipped: usize,
    pub bookmarks: usize,
    /// Whether daily-note settings were stored.
    pub daily_notes: bool,
}

impl Default for UploadReport {
    fn default() -> (r: UploadReport)
        ensures
            r == (UploadReport {
                notes: 0,
                attachments: 0,
                callouts: 0,
                embeds: 0,
                skipped: 0,
                bookmarks: 0,
                daily_notes: false,
            }),
    {
        UploadReport {
            notes: 0,
            attachments: 0,
            callouts: 0,
            embeds: 0,
            skipped: 0,
            bookmarks: 0,
            daily_notes: false,
        }
    }
}

pub open spec fn bookmarks_json() -> Seq<char> {
    seq!['.', 'o', 'b', 's', 'i', 'd', 'i', 'a', 'n', '/', 'b', 'o', 'o', 'k', 'm', 'a', 'r', 'k', 's', '.', 'j', 's', 'o', 'n']
}

pub open spec fn daily_json() -> Seq<char> {
    seq!['.', 'o', 'b', 's', 'i', 'd', 'i', 'a', 'n', '/', 'd', 'a', 'i', 'l', 'y', '-', 'n', 'o', 't', 'e', 's', '.', 'j', 's', 'o', 'n']
}

/// A path with a segment that starts with `.`.
pub open spec fn hidden_path(p: Seq<char>) -> bool {
    exists|k: int| 0 <= k < split(p, '/').len() && starts_with(#[trigger] split(p, '/')[k], seq!['.'])
}

/// A note, by its extension in any case.
pub open spec fn is_note_upload(p: Seq<char>) -> bool {
    path_extension(p) matches Some(e) && note_extensions().contains(lower_seq(e))
}

/// What an uploaded file turns into: `None` for a path that escapes the vault, for hidden files
/// (Obsidian's workspace state, its trash, the sidecar) other than the two settings files, and
/// for settings files that cannot be read or hold no bookmark; a note converted; any other file
/// as it is.
pub open spec fn import_upload_spec(rel: Seq<char>, bytes: Seq<u8>) -> Option<UploadView> {
    match upload_path_spec(rel) {
        None => None,
        Some(p) => if hidden_path(p) {
            if p == bookmarks_json() {
                if !valid_utf8(bytes) {
                    None
                } else {
                    match parse_bookmarks_spec(decode_utf8(bytes)) {
                        Ok(ms) => if ms.len() > 0 {
                            Some(UploadView::Bookmarks(ms))
                        } else {
                            None
                        },
                        Err(_) => None,
                    }
                }
            } else if p == daily_json() {
                if !valid_utf8(bytes) {
                    None
                } else {
                    match parse_daily_notes_spec(decode_utf8(bytes)) {
                        Some((f, fm)) => Some(UploadView::Daily(f, fm)),
                        None => None,
                    }
                }
            } else {
                None
            }
        } else if is_note_upload(p) {
            let c = convert_spec(utf8_lossy(bytes));
            Some(UploadView::Note(p, c.0, c.1, c.2))
        } else {
            Some(UploadView::Attachment(p, bytes))
        },
    }
}

fn hidden_path_exec(p: &[char]) -> (r: bool)
    ensures
        r == hidden_path(p@),
{
    let segs = split_exec(p, '/');
    let dotv = vec!['.'];
    proof {
        assert(dotv@ =~= seq!['.']);
    }
    let mut i: usize = 0;
    while i < segs.len()
        invariant
            i <= segs@.len(),
            dotv@ == seq!['.'],
            segs@.len() == split(p@, '/').len(),
            forall|k: int| 0 <= k < segs@.len() ==> #[trigger] segs@[k]@ == split(p@, '/')[k],
            forall|k: int| 0 <= k < i ==> !starts_with(#[trigger] split(p@, '/')[k], seq!['.']),
        decreases segs.len() - i,
    {
        if starts_with_exec(&segs[i], &dotv) {
            proof {
                assert(starts_with(split(p@, '/')[i as int], seq!['.']));
            }
            return true;
        }
        i += 1;
    }
    false
}

fn is_note_upload_exec(p: &[char]) -> (r: bool)
    ensures
        r == is_note_upload(p@),
{
    match path_extension_exec(p) {
        Some(e) => {
            let le = lower_vec(&e);
            let md = vec!['m', 'd'];
            let qmd = vec!['q', 'm', 'd'];
            proof {
                assert(md@ =~= seq!['m', 'd']);
                assert(qmd@ =~= seq!['q', 'm', 'd']);
                assert(note_extensions()[0] == md@);
                assert(note_extensions()[1] == qmd@);
            }
            let r = eq(&le, &md) || eq(&le, &qmd);
            proof {
                if note_extensions().contains(le@) {
                    let k = choose|k: int| 0 <= k < 2 && note_extensions()[k] == le@;
                }
            }
            r
        },
        None => false,
    }
}

/// Classify and convert one uploaded file. `None` means "not imported": Obsidian's own
/// workspace state, its trash, our sidecar, and hidden files generally — except the two
/// settings files that have a home here.
pub fn import_upload(rel: &str, bytes: Vec<u8>) -> (r: Option<Upload>)
    ensures
        match r {
            Some(u) => import_upload_spec(rel@, bytes@) == Some(u.view_of()),
            None => import_upload_spec(rel@, bytes@) is None,
        },
{
    let path = match upload_path(rel) {
        Some(p) => p,
        None => return None,
    };
    let pc = chars_of(path.as_str());
    if hidden_path_exec(&pc) {
        let bj = lit(".obsidian/bookmarks.json");
        let dj = lit(".obsidian/daily-notes.json");
        proof {
            reveal_strlit(".obsidian/bookmarks.json");
            reveal_strlit(".obsidian/daily-notes.json");
            assert(bj@ =~= bookmarks_json());
            assert(dj@ =~= daily_json());
        }
        if eq(&pc, &bj) {
            let raw = match utf8_str(bytes.as_slice()) {
                Some(s) => s,
                None => return None,
            };
            match parse_bookmarks(raw) {
                Ok(marks) => if marks.len() > 0 {
                    Some(Upload::Bookmarks(marks))
                } else {
                    None
                },
                Err(_) => None,
            }
        } else if eq(&pc, &dj) {
            let raw = match utf8_str(bytes.as_slice()) {
                Some(s) => s,
                None => return None,
            };
            match parse_daily_notes(raw) {
                Some(d) => Some(Upload::Daily(d)),
                None => None,
            }
        } else {
            None
        }
    } else if is_note_upload_exec(&pc) {
        let text = lossy_text(bytes.as_slice());
        let c = convert_note(text.as_str());
        Some(Upload::Note { path, text: c.text, callouts: c.callouts, embeds: c.embeds })
    } else {
        Some(Upload::Attachment { path, bytes })
    }
}

/// Whether an import overwrites files that already exist.
#[derive(Debug, Clone, Copy, PartialEq, Eq)]
pub struct ImportOptions {
    /// Overwrite files that already exist in the destination instead of skipping them.
    pub overwrite: bool,
}

impl Default for ImportOptions {
    fn default() -> (r: ImportOptions)
        ensures
            !r.overwrite,
    {
        ImportOptions { overwrite: false }
    }
}

/// What an import of a vault folder did.
#[derive(Debug, Clone, Copy, PartialEq, Eq)]
pub struct ImportReport {
    /// `.md`/`.qmd` files copied.
    pub notes: usize,
    /// Non-note files copied.
    pub attachments: usize,
    /// Obsidian callouts turned into Quarto fenced divs.
    pub callouts: usize,
    /// `![[image]]` embeds rewritten to `![](image)`.
    pub embeds: usize,
    /// Files left alone because the destination already had them.
    pub skipped: usize,
    /// Bookmarks read from `.obsidian/bookmarks.json`.
    pub bookmarks: usize,
    /// Whether `.obsidian/daily-notes.json` was translated.
    pub daily_notes: bool,
}

impl Default for ImportReport {
    fn default() -> (r: ImportReport)
        ensures
            r == (ImportReport {
                notes: 0,
                attachments: 0,
                callouts: 0,
                embeds: 0,
                skipped: 0,
                bookmarks: 0,
                daily_notes: false,
            }),
    {
        ImportReport {
            notes: 0,
            attachments: 0,
            callouts: 0,
            embeds: 0,
            skipped: 0,
            bookmarks: 0,
            daily_notes: false,
        }
    }
}

} // verus!
