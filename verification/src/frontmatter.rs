//! Front-matter surgery for the `id:` field: every note carries its id in front matter so that
//! moves and copies made outside the app resolve without heuristics.
//!
//! Only the CommonMark/pandoc form is recognised: `---` on the very first line, and a closing
//! `---` (or `...`) on a line of its own. Everything works line by line on the raw text, so
//! nothing else in the note is touched.
use vstd::prelude::*;
use crate::text::{append, byte_len, char_width_exec, chars_of, concat, eq, find_from, find_from_exec, is_at, lemma_byte_len_prefix, lemma_find_from, lines, lines_exec, slice, split_inclusive, split_inclusive_exec, starts_with, starts_with_exec, string_of, strip_end_set, strip_end_set_exec, strip_prefix, strip_set, strip_set_exec, trim, trim_exec};

verus! {

broadcast use vstd::seq_lib::group_seq_properties;

// ---------------------------------------------------------------------------------------------
// Specifications
// ---------------------------------------------------------------------------------------------

/// A line (with its terminator) that closes a front-matter block: `---` or `...`, ignoring any
/// trailing `\n`/`\r`.
pub open spec fn is_fence_line(line: Seq<char>) -> bool {
    let t = strip_end_set(line, seq!['\n', '\r']);
    t == seq!['-', '-', '-'] || t == seq!['.', '.', '.']
}

/// Index just past the line that starts at `pos`.
pub open spec fn line_end(t: Seq<char>, pos: int) -> int {
    match find_from(t, seq!['\n'], pos) {
        Some(k) => k + 1,
        None => t.len() as int,
    }
}

/// The first closing fence line at or after `pos`: its start and the index past it.
pub open spec fn closing_fence(t: Seq<char>, pos: int) -> Option<(int, int)>
    decreases t.len() - pos,
{
    if pos < 0 || pos >= t.len() {
        None
    } else {
        let e = line_end(t, pos);
        if is_fence_line(t.subrange(pos, e)) {
            Some((pos, e))
        } else if e <= pos || e > t.len() {
            None
        } else {
            closing_fence(t, e)
        }
    }
}

/// Where the YAML starts: just past an opening `---\r\n` or `---\n` on the first line.
pub open spec fn opening(t: Seq<char>) -> Option<int> {
    if starts_with(t, seq!['-', '-', '-', '\r', '\n']) {
        Some(5)
    } else if starts_with(t, seq!['-', '-', '-', '\n']) {
        Some(4)
    } else {
        None
    }
}

/// The front-matter block of `t` in characters: the YAML's start and end, and the index just
/// past the closing fence line.
pub open spec fn block_chars(t: Seq<char>) -> Option<(int, int, int)> {
    match opening(t) {
        Some(b) => match closing_fence(t, b) {
            Some((a, e)) => Some((b, a, e)),
            None => None,
        },
        None => None,
    }
}

/// The value of an `id:` line, quotes stripped.
pub open spec fn id_value(line: Seq<char>) -> Option<Seq<char>> {
    match strip_prefix(line, seq!['i', 'd', ':']) {
        Some(v) => Some(strip_set(trim(v), seq!['"', '\''])),
        None => None,
    }
}

/// The first `id:` value among `ls`.
pub open spec fn first_id(ls: Seq<Seq<char>>) -> Option<Seq<char>>
    decreases ls.len(),
{
    if ls.len() == 0 {
        None
    } else {
        match id_value(ls[0]) {
            Some(v) => Some(v),
            None => first_id(ls.drop_first()),
        }
    }
}

/// Every `id:` value among `ls`, in order.
pub open spec fn all_ids(ls: Seq<Seq<char>>) -> Seq<Seq<char>>
    decreases ls.len(),
{
    if ls.len() == 0 {
        Seq::empty()
    } else {
        let r = all_ids(ls.drop_last());
        match id_value(ls.last()) {
            Some(v) => r.push(v),
            None => r,
        }
    }
}

/// The id the front matter of `t` carries.
pub open spec fn id_of_spec(t: Seq<char>) -> Option<Seq<char>> {
    match block_chars(t) {
        Some((b, a, _)) => first_id(lines(t.subrange(b, a))),
        None => None,
    }
}

/// Blocks at the start of `rest` whose YAML equals `yaml` removed, and whether there were any.
pub open spec fn drop_copies(rest: Seq<char>, yaml: Seq<char>) -> (Seq<char>, bool)
    decreases rest.len(),
{
    match block_chars(rest) {
        Some((b, a, e)) => if rest.subrange(b, a) == yaml && 0 < e <= rest.len() {
            (drop_copies(rest.skip(e), yaml).0, true)
        } else {
            (rest, false)
        },
        None => (rest, false),
    }
}

/// `t` with repeats of its leading block removed, when it had any.
pub open spec fn dedupe_spec(t: Seq<char>) -> Option<Seq<char>> {
    match block_chars(t) {
        Some((b, a, e)) => {
            let (r, removed) = drop_copies(t.skip(e), t.subrange(b, a));
            if removed {
                Some(t.take(e) + r)
            } else {
                None
            }
        },
        None => None,
    }
}

/// The lines of `ls`, concatenated, with every `id:` line after the first one dropped.
pub open spec fn keep_first_id(ls: Seq<Seq<char>>, seen: bool) -> Seq<char>
    decreases ls.len(),
{
    if ls.len() == 0 {
        Seq::empty()
    } else {
        let is_id = id_value(strip_end_set(ls[0], seq!['\n', '\r'])) is Some;
        if is_id && seen {
            keep_first_id(ls.drop_first(), seen)
        } else {
            ls[0] + keep_first_id(ls.drop_first(), seen || is_id)
        }
    }
}

/// `id: <id>` appended to a YAML body, after a newline if it lacks one.
pub open spec fn with_id_line(body: Seq<char>, id: Seq<char>) -> Seq<char> {
    let b = if body.len() > 0 && body.last() != '\n' {
        body.push('\n')
    } else {
        body
    };
    b + seq!['i', 'd', ':', ' '] + id + seq!['\n']
}

/// What [`normalize`] makes of a text `out` whose block has its YAML at `b..a`; `changed` says
/// whether `out` already differs from the note's text.
pub open spec fn normalize_block_spec(
    out: Seq<char>,
    b: int,
    a: int,
    id: Seq<char>,
    changed: bool,
) -> Option<Seq<char>> {
    let body = out.subrange(b, a);
    let ids = all_ids(lines(body));
    let unchanged = if changed {
        Some(out)
    } else {
        None
    };
    if ids.len() == 1 && ids[0] == id {
        unchanged
    } else if ids.len() == 0 {
        Some(out.take(b) + with_id_line(body, id) + out.skip(a))
    } else if forall|k: int| 0 <= k < ids.len() ==> ids[k] == id {
        Some(out.take(b) + keep_first_id(split_inclusive(body, '\n'), false) + out.skip(a))
    } else {
        unchanged
    }
}

/// What [`normalize`] returns.
pub open spec fn normalize_spec(t: Seq<char>, id: Seq<char>) -> Option<Seq<char>> {
    let out = match dedupe_spec(t) {
        Some(d) => d,
        None => t,
    };
    match block_chars(out) {
        None => Some(seq!['-', '-', '-', '\n', 'i', 'd', ':', ' '] + id + seq![
            '\n',
            '-',
            '-',
            '-',
            '\n',
        ] + out),
        Some((b, a, _)) => normalize_block_spec(out, b, a, id, out != t),
    }
}

// ---------------------------------------------------------------------------------------------
// Lemmas
// ---------------------------------------------------------------------------------------------

proof fn lemma_closing_fence(t: Seq<char>, pos: int)
    ensures
        match closing_fence(t, pos) {
            Some((a, e)) => 0 <= pos <= a < e <= t.len(),
            None => true,
        },
    decreases t.len() - pos,
{
    if pos < 0 || pos >= t.len() {
    } else {
        lemma_find_from(t, seq!['\n'], pos);
        let e = line_end(t, pos);
        if is_fence_line(t.subrange(pos, e)) {
        } else if e <= pos || e > t.len() {
        } else {
            lemma_closing_fence(t, e);
        }
    }
}

pub proof fn lemma_block_chars(t: Seq<char>)
    ensures
        match block_chars(t) {
            Some((b, a, e)) => 4 <= b <= a < e <= t.len(),
            None => true,
        },
{
    if let Some(b) = opening(t) {
        lemma_closing_fence(t, b);
    }
}

// ---------------------------------------------------------------------------------------------
// Executable
// ---------------------------------------------------------------------------------------------

fn is_fence_line_exec(line: &[char]) -> (r: bool)
    ensures
        r == is_fence_line(line@),
{
    let set = vec!['\n', '\r'];
    let dashes = vec!['-', '-', '-'];
    let dots = vec!['.', '.', '.'];
    proof {
        assert(set@ =~= seq!['\n', '\r']);
        assert(dashes@ =~= seq!['-', '-', '-']);
        assert(dots@ =~= seq!['.', '.', '.']);
    }
    let t = strip_end_set_exec(line, &set);
    eq(&t, &dashes) || eq(&t, &dots)
}

fn line_end_exec(t: &[char], pos: usize) -> (r: usize)
    ensures
        r == line_end(t@, pos as int),
{
    let nl = vec!['\n'];
    proof {
        assert(nl@ =~= seq!['\n']);
        lemma_find_from(t@, seq!['\n'], pos as int);
    }
    match find_from_exec(t, &nl, pos) {
        Some(k) => {
            assert(is_at(t@, seq!['\n'], k as int));
            assert(seq!['\n'].len() == 1);
            let n = t.len();
            assert(k + 1 <= n);
            k + 1
        },
        None => t.len(),
    }
}

/// The block in characters: see [`block_chars`].
pub fn block_chars_exec(t: &[char]) -> (r: Option<(usize, usize, usize)>)
    ensures
        match r {
            Some((b, a, e)) => block_chars(t@) == Some((b as int, a as int, e as int)),
            None => block_chars(t@) is None,
        },
{
    let open_crlf = vec!['-', '-', '-', '\r', '\n'];
    let open_lf = vec!['-', '-', '-', '\n'];
    proof {
        assert(open_crlf@ =~= seq!['-', '-', '-', '\r', '\n']);
        assert(open_lf@ =~= seq!['-', '-', '-', '\n']);
    }
    let b: usize = if starts_with_exec(t, &open_crlf) {
        5
    } else if starts_with_exec(t, &open_lf) {
        4
    } else {
        return None;
    };
    let mut pos = b;
    loop
        invariant
            b <= pos,
            opening(t@) == Some(b as int),
            closing_fence(t@, b as int) == closing_fence(t@, pos as int),
        decreases t.len() - pos,
    {
        if pos >= t.len() {
            return None;
        }
        let e = line_end_exec(t, pos);
        proof {
            lemma_find_from(t@, seq!['\n'], pos as int);
        }
        let line = slice(t, pos, e);
        if is_fence_line_exec(&line) {
            return Some((b, pos, e));
        }
        pos = e;
    }
}

/// Bytes taken by the first `k` characters of `t`.
fn byte_offset(text: &str, t: &[char], k: usize) -> (r: usize)
    requires
        t@ == text@,
        k <= t.len(),
    ensures
        r == byte_len(t@.take(k as int)),
{
    let mut sum: usize = 0;
    let mut i: usize = 0;
    let total = text.as_bytes().len();
    proof {
        assert(total == byte_len(t@));
    }
    while i < k
        invariant
            i <= k <= t.len(),
            sum == byte_len(t@.take(i as int)),
            total == byte_len(t@),
        decreases k - i,
    {
        proof {
            lemma_byte_len_prefix(t@, i as int);
        }
        sum = sum + char_width_exec(t[i]);
        i += 1;
    }
    sum
}

/// Byte range of the YAML lines (both fences excluded) and the byte index just past the closing
/// fence line, if the text starts with a front-matter block.
pub fn block(text: &str) -> (r: Option<(std::ops::Range<usize>, usize)>)
    ensures
        match r {
            Some((range, e)) => match block_chars(text@) {
                Some((bc, ac, ec)) => range.start == byte_len(text@.take(bc)) && range.end
                    == byte_len(text@.take(ac)) && e == byte_len(text@.take(ec)),
                None => false,
            },
            None => block_chars(text@) is None,
        },
{
    let t = chars_of(text);
    match block_chars_exec(&t) {
        Some((b, a, e)) => {
            proof {
                lemma_block_chars(t@);
            }
            let bs = byte_offset(text, &t, b);
            let as_ = byte_offset(text, &t, a);
            let es = byte_offset(text, &t, e);
            Some((bs..as_, es))
        },
        None => None,
    }
}

fn id_value_exec(line: &[char]) -> (r: Option<Vec<char>>)
    ensures
        match r {
            Some(v) => id_value(line@) == Some(v@),
            None => id_value(line@) is None,
        },
{
    let key = vec!['i', 'd', ':'];
    let quotes = vec!['"', '\''];
    proof {
        assert(key@ =~= seq!['i', 'd', ':']);
        assert(quotes@ =~= seq!['"', '\'']);
    }
    if starts_with_exec(line, &key) {
        let v = slice(line, 3, line.len());
        let tv = trim_exec(&v);
        Some(strip_set_exec(&tv, &quotes))
    } else {
        None
    }
}

/// The `id:` value in the front matter, if any (quotes stripped).
pub fn id_of(text: &str) -> (r: Option<String>)
    ensures
        match r {
            Some(s) => id_of_spec(text@) == Some(s@),
            None => id_of_spec(text@) is None,
        },
{
    let t = chars_of(text);
    let (b, a) = match block_chars_exec(&t) {
        Some((b, a, _)) => (b, a),
        None => return None,
    };
    proof {
        lemma_block_chars(t@);
    }
    let body = slice(&t, b, a);
    let ls = lines_exec(&body);
    let ghost all = lines(body@);
    let mut i: usize = 0;
    while i < ls.len()
        invariant
            i <= ls@.len() == all.len(),
            forall|k: int| 0 <= k < ls@.len() ==> #[trigger] ls@[k]@ == all[k],
            first_id(all) == first_id(all.skip(i as int)),
            id_of_spec(text@) == first_id(all),
        decreases ls.len() - i,
    {
        proof {
            assert(all.skip(i as int)[0] == all[i as int]);
            assert(all.skip(i as int).drop_first() =~= all.skip(i + 1));
        }
        match id_value_exec(&ls[i]) {
            Some(v) => {
                return Some(string_of(&v));
            },
            None => {},
        }
        i += 1;
    }
    None
}

fn dedupe_leading_blocks(t: &[char]) -> (r: Option<Vec<char>>)
    ensures
        match r {
            Some(v) => dedupe_spec(t@) == Some(v@),
            None => dedupe_spec(t@) is None,
        },
{
    let (b, a, e) = match block_chars_exec(t) {
        Some(x) => x,
        None => return None,
    };
    proof {
        lemma_block_chars(t@);
    }
    let yaml = slice(t, b, a);
    let mut rest = slice(t, e, t.len());
    let mut removed = false;
    let ghost d = drop_copies(t@.skip(e as int), yaml@);
    loop
        invariant
            d == drop_copies(t@.skip(e as int), yaml@),
            drop_copies(rest@, yaml@).0 == d.0,
            removed ==> d.1,
            !removed ==> rest@ == t@.skip(e as int),
        ensures
            d == drop_copies(t@.skip(e as int), yaml@),
            drop_copies(rest@, yaml@) == (rest@, false),
            drop_copies(rest@, yaml@).0 == d.0,
            removed ==> d.1,
            !removed ==> rest@ == t@.skip(e as int),
        decreases rest.len(),
    {
        match block_chars_exec(&rest) {
            Some((b2, a2, e2)) => {
                proof {
                    lemma_block_chars(rest@);
                }
                let y2 = slice(&rest, b2, a2);
                if eq(&y2, &yaml) {
                    rest = slice(&rest, e2, rest.len());
                    removed = true;
                } else {
                    break;
                }
            },
            None => break,
        }
    }
    if removed {
        proof {
            assert(d.0 == rest@);
        }
        let head = slice(t, 0, e);
        Some(concat(&head, &rest))
    } else {
        None
    }
}

fn all_ids_exec(ls: &Vec<Vec<char>>) -> (r: Vec<Vec<char>>)
    ensures
        r@.len() == all_ids(ls@.map_values(|v: Vec<char>| v@)).len(),
        forall|k: int|
            0 <= k < r@.len() ==> #[trigger] r@[k]@ == all_ids(ls@.map_values(|v: Vec<char>| v@))[k],
{
    let ghost m = ls@.map_values(|v: Vec<char>| v@);
    let mut r: Vec<Vec<char>> = Vec::new();
    let mut i: usize = 0;
    while i < ls.len()
        invariant
            i <= ls.len(),
            m == ls@.map_values(|v: Vec<char>| v@),
            r@.len() == all_ids(m.take(i as int)).len(),
            forall|k: int| 0 <= k < r@.len() ==> #[trigger] r@[k]@ == all_ids(m.take(i as int))[k],
        decreases ls.len() - i,
    {
        proof {
            assert(m.take(i + 1).drop_last() =~= m.take(i as int));
        }
        match id_value_exec(&ls[i]) {
            Some(v) => {
                r.push(v);
            },
            None => {},
        }
        i += 1;
    }
    proof {
        assert(m.take(ls.len() as int) =~= m);
    }
    r
}

fn keep_first_id_exec(ls: &Vec<Vec<char>>) -> (r: Vec<char>)
    ensures
        r@ == keep_first_id(ls@.map_values(|v: Vec<char>| v@), false),
{
    let ghost m = ls@.map_values(|v: Vec<char>| v@);
    let set = vec!['\n', '\r'];
    proof {
        assert(set@ =~= seq!['\n', '\r']);
    }
    let mut out: Vec<char> = Vec::new();
    let mut seen = false;
    let mut i: usize = 0;
    while i < ls.len()
        invariant
            i <= ls.len(),
            m == ls@.map_values(|v: Vec<char>| v@),
            set@ == seq!['\n', '\r'],
            out@ + keep_first_id(m.skip(i as int), seen) == keep_first_id(m, false),
        decreases ls.len() - i,
    {
        proof {
            assert(m.skip(i as int)[0] == ls@[i as int]@);
            assert(m.skip(i as int).drop_first() =~= m.skip(i + 1));
        }
        let stripped = strip_end_set_exec(&ls[i], &set);
        let is_id = id_value_exec(&stripped).is_some();
        if is_id && seen {
        } else {
            let ghost before = out@;
            append(&mut out, &ls[i]);
            proof {
                let x = keep_first_id(m.skip(i + 1), seen || is_id);
                assert(out@ + x =~= before + (ls@[i as int]@ + x));
            }
            seen = seen || is_id;
        }
        i += 1;
    }
    proof {
        assert(m.skip(ls.len() as int) =~= Seq::<Seq<char>>::empty());
    }
    out
}

fn ids_all_equal(ids: &Vec<Vec<char>>, idc: &[char]) -> (r: bool)
    ensures
        r == forall|j: int| 0 <= j < ids@.len() ==> ids@[j]@ == idc@,
{
    let mut k: usize = 0;
    while k < ids.len()
        invariant
            k <= ids.len(),
            forall|j: int| 0 <= j < k ==> ids@[j]@ == idc@,
        decreases ids.len() - k,
    {
        if !eq(&ids[k], &idc) {
            return false;
        }
        k += 1;
    }
    true
}

/// The YAML body with `id: <id>` appended.
fn with_id_line_exec(body: &[char], idc: &[char]) -> (r: Vec<char>)
    ensures
        r@ == with_id_line(body@, idc@),
{
    let mut nb = slice(body, 0, body.len());
    proof {
        assert(body@.subrange(0, body@.len() as int) =~= body@);
    }
    if body.len() > 0 && body[body.len() - 1] != '\n' {
        nb.push('\n');
    }
    let key = vec!['i', 'd', ':', ' '];
    proof {
        assert(key@ =~= seq!['i', 'd', ':', ' ']);
    }
    append(&mut nb, &key);
    append(&mut nb, idc);
    nb.push('\n');
    proof {
        assert(nb@ =~= with_id_line(body@, idc@));
    }
    nb
}

/// What `normalize` does to a text `out` whose block has its YAML at `b..a`.
fn normalize_in_block(out: &[char], b: usize, a: usize, idc: &[char], changed: bool) -> (r: Option<Vec<char>>)
    requires
        b <= a <= out.len(),
    ensures
        match r {
            Some(v) => normalize_block_spec(out@, b as int, a as int, idc@, changed) == Some(v@),
            None => normalize_block_spec(out@, b as int, a as int, idc@, changed) is None,
        },
{
    let body = slice(out, b, a);
    let ls = lines_exec(&body);
    proof {
        assert(ls@.map_values(|v: Vec<char>| v@) =~= lines(body@));
    }
    let ids = all_ids_exec(&ls);
    let ghost spec_ids = all_ids(lines(body@));
    proof {
        assert(body@ == out@.subrange(b as int, a as int));
        assert(out@.subrange(0, out@.len() as int) =~= out@);
        assert(ids@.len() == spec_ids.len());
    }
    let before = slice(out, 0, b);
    let after = slice(out, a, out.len());
    proof {
        assert(before@ =~= out@.take(b as int));
        assert(after@ =~= out@.skip(a as int));
    }
    if ids.len() == 1 && eq(&ids[0], idc) {
        if changed { Some(slice(out, 0, out.len())) } else { None }
    } else if ids.len() == 0 {
        let nb = with_id_line_exec(&body, idc);
        let x = concat(&before, &nb);
        Some(concat(&x, &after))
    } else {
        let all_same = ids_all_equal(&ids, idc);
        proof {
            if all_same {
                assert forall|k: int| 0 <= k < spec_ids.len() implies spec_ids[k] == idc@ by {
                    assert(ids@[k]@ == spec_ids[k]);
                }
            } else {
                let j = choose|j: int| 0 <= j < ids@.len() && ids@[j]@ != idc@;
                assert(ids@[j]@ == spec_ids[j]);
            }
        }
        if all_same {
            let pieces = split_inclusive_exec(&body, '\n');
            proof {
                assert(pieces@.map_values(|v: Vec<char>| v@) =~= split_inclusive(body@, '\n'));
            }
            let kept = keep_first_id_exec(&pieces);
            let x = concat(&before, &kept);
            Some(concat(&x, &after))
        } else if changed {
            Some(slice(out, 0, out.len()))
        } else {
            None
        }
    }
}

/// Make the note carry `id: <id>` exactly once: adds the field (creating a front-matter block
/// when there is none), collapses duplicate identical `id:` lines, and removes a duplicated
/// leading block (what two replicas adding front matter concurrently merge into). Returns the
/// new text, or `None` when nothing needed to change. A *different* existing id is left alone.
pub fn normalize(text: &str, id: &str) -> (r: Option<String>)
    ensures
        match r {
            Some(s) => normalize_spec(text@, id@) == Some(s@),
            None => normalize_spec(text@, id@) is None,
        },
{
    let t = chars_of(text);
    let idc = chars_of(id);
    let out = match dedupe_leading_blocks(&t) {
        Some(d) => d,
        None => slice(&t, 0, t.len()),
    };
    proof {
        assert(t@.subrange(0, t@.len() as int) =~= t@);
    }
    let changed_blocks = !eq(&out, &t);
    let ghost spec_out = match dedupe_spec(t@) {
        Some(d) => d,
        None => t@,
    };
    assert(spec_out == out@);
    assert(t@ == text@);
    match block_chars_exec(&out) {
        None => {
            let head = vec!['-', '-', '-', '\n', 'i', 'd', ':', ' '];
            let tail = vec!['\n', '-', '-', '-', '\n'];
            proof {
                assert(head@ =~= seq!['-', '-', '-', '\n', 'i', 'd', ':', ' ']);
                assert(tail@ =~= seq!['\n', '-', '-', '-', '\n']);
            }
            let x = concat(&head, &idc);
            let y = concat(&x, &tail);
            let z = concat(&y, &out);
            proof {
                assert(z@ =~= seq!['-', '-', '-', '\n', 'i', 'd', ':', ' '] + idc@ + seq![
                    '\n',
                    '-',
                    '-',
                    '-',
                    '\n',
                ] + out@);
            }
            Some(string_of(&z))
        },
        Some((b, a, _)) => {
            proof {
                lemma_block_chars(out@);
                assert(out@.subrange(0, out@.len() as int) =~= out@);
            }
            let ghost unchanged = if out@ != t@ { Some(out@) } else { None::<Seq<char>> };
            assert(changed_blocks == (out@ != t@));
            let r = normalize_in_block(&out, b, a, &idc, changed_blocks);
            match r {
                Some(v) => Some(string_of(&v)),
                None => None,
            }
        },
    }
}

} // verus!
