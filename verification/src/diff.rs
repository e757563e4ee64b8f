//! Text diffing: turning "replace the whole text" into minimal edits.
//!
//! Offsets are UTF-8 byte offsets, expressed against the text as it is at the moment each
//! edit is applied, so the edits apply in order with no bookkeeping.
use vstd::prelude::*;
use vstd::utf8::encode_utf8;
use crate::text::{byte_len, char_width, char_width_exec, chars_of, lemma_byte_len_add, lemma_byte_len_prefix, slice, string_of};

verus! {

/// One edit of a text, at a byte offset.
#[derive(Debug, Clone, PartialEq, Eq)]
pub enum TextOp {
    Delete { at: u32, len: u32 },
    Insert { at: u32, text: String },
}

/// An edit as a value: offsets as integers, the inserted text as characters.
pub enum Edit {
    Delete { at: int, len: int },
    Insert { at: int, text: Seq<char> },
}

impl View for TextOp {
    type V = Edit;

    open spec fn view(&self) -> Edit {
        match self {
            TextOp::Delete { at, len } => Edit::Delete { at: *at as int, len: *len as int },
            TextOp::Insert { at, text } => Edit::Insert { at: *at as int, text: text@ },
        }
    }
}

/// The edits, as values.
pub open spec fn edits(ops: Seq<TextOp>) -> Seq<Edit> {
    ops.map_values(|o: TextOp| o@)
}

/// `k` characters of `s` take exactly `at` bytes.
pub open spec fn boundary(s: Seq<char>, at: int, k: int) -> bool {
    0 <= k <= s.len() && byte_len(s.take(k)) == at
}

/// Byte offset `at` falls between two characters of `s` (or at either end).
pub open spec fn is_boundary(s: Seq<char>, at: int) -> bool {
    exists|k: int| boundary(s, at, k)
}

/// The number of characters before byte offset `at`.
pub open spec fn char_index(s: Seq<char>, at: int) -> int {
    choose|k: int| boundary(s, at, k)
}

/// One edit applied to `s`; `None` where an offset is out of range or inside a character.
pub open spec fn edit_step(s: Seq<char>, e: Edit) -> Option<Seq<char>> {
    match e {
        Edit::Delete { at, len } => if is_boundary(s, at) && is_boundary(s, at + len) {
            Some(s.take(char_index(s, at)) + s.skip(char_index(s, at + len)))
        } else {
            None
        },
        Edit::Insert { at, text } => if is_boundary(s, at) {
            Some(s.take(char_index(s, at)) + text + s.skip(char_index(s, at)))
        } else {
            None
        },
    }
}

/// The edits applied in order; `None` where one of them does not apply.
pub open spec fn apply_edits(s: Seq<char>, es: Seq<Edit>) -> Option<Seq<char>>
    decreases es.len(),
{
    if es.len() == 0 {
        Some(s)
    } else {
        match edit_step(s, es[0]) {
            Some(t) => apply_edits(t, es.drop_first()),
            None => None,
        }
    }
}

/// A longer prefix takes more bytes.
pub proof fn lemma_prefix_bytes_increase(s: Seq<char>, a: int, b: int)
    requires
        0 <= a < b <= s.len(),
    ensures
        byte_len(s.take(a)) < byte_len(s.take(b)),
    decreases b - a,
{
    lemma_byte_len_prefix(s, b - 1);
    if a < b - 1 {
        lemma_prefix_bytes_increase(s, a, b - 1);
    }
}

/// A byte offset falls after one number of characters at most.
pub proof fn lemma_boundary_unique(s: Seq<char>, at: int, k: int)
    requires
        boundary(s, at, k),
    ensures
        is_boundary(s, at),
        char_index(s, at) == k,
{
    let j = char_index(s, at);
    assert(boundary(s, at, j));
    if j < k {
        lemma_prefix_bytes_increase(s, j, k);
    } else if k < j {
        lemma_prefix_bytes_increase(s, k, j);
    }
}

/// Applying two runs of edits is applying the first, then the second.
pub proof fn lemma_apply_append(s: Seq<char>, a: Seq<Edit>, b: Seq<Edit>)
    ensures
        apply_edits(s, a + b) == (match apply_edits(s, a) {
            Some(t) => apply_edits(t, b),
            None => None,
        }),
    decreases a.len(),
{
    if a.len() == 0 {
        assert(a + b =~= b);
    } else {
        assert((a + b)[0] == a[0]);
        assert((a + b).drop_first() =~= a.drop_first() + b);
        match edit_step(s, a[0]) {
            Some(t) => lemma_apply_append(t, a.drop_first(), b),
            None => {},
        }
    }
}

/// One step of a character diff of two texts: a run of characters that is equal, deleted,
/// inserted or replaced, by its positions in the old and the new text.
#[derive(Debug, Clone, Copy, PartialEq, Eq, Structural)]
pub enum CharDiff {
    Equal { old_index: usize, new_index: usize, len: usize },
    Delete { old_index: usize, old_len: usize, new_index: usize },
    Insert { old_index: usize, new_index: usize, new_len: usize },
    Replace { old_index: usize, old_len: usize, new_index: usize, new_len: usize },
}

/// The steps walk both texts from positions `oi` and `ni` to their ends, each step starting
/// where the last one stopped, and an equal run is equal in both.
pub open spec fn covers_from(d: Seq<CharDiff>, old: Seq<char>, new: Seq<char>, oi: int, ni: int) -> bool
    decreases d.len(),
{
    if d.len() == 0 {
        oi == old.len() && ni == new.len()
    } else {
        let rest = d.drop_first();
        match d[0] {
            CharDiff::Equal { old_index, new_index, len } => {
                &&& old_index == oi
                &&& new_index == ni
                &&& oi + len <= old.len()
                &&& ni + len <= new.len()
                &&& old.subrange(oi, oi + len) == new.subrange(ni, ni + len)
                &&& covers_from(rest, old, new, oi + len, ni + len)
            },
            CharDiff::Delete { old_index, old_len, new_index } => {
                &&& old_index == oi
                &&& new_index == ni
                &&& oi + old_len <= old.len()
                &&& covers_from(rest, old, new, oi + old_len, ni)
            },
            CharDiff::Insert { old_index, new_index, new_len } => {
                &&& old_index == oi
                &&& new_index == ni
                &&& ni + new_len <= new.len()
                &&& covers_from(rest, old, new, oi, ni + new_len)
            },
            CharDiff::Replace { old_index, old_len, new_index, new_len } => {
                &&& old_index == oi
                &&& new_index == ni
                &&& oi + old_len <= old.len()
                &&& ni + new_len <= new.len()
                &&& covers_from(rest, old, new, oi + old_len, ni + new_len)
            },
        }
    }
}

/// The steps describe `old` becoming `new`, from the start of both.
pub open spec fn covers(d: Seq<CharDiff>, old: Seq<char>, new: Seq<char>) -> bool {
    covers_from(d, old, new, 0, 0)
}

/// The edits one step becomes: a deletion and an insertion where the new text has come to,
/// with the removed run's bytes and the inserted run's characters.
pub open spec fn step_edits(old: Seq<char>, new: Seq<char>, c: CharDiff) -> Seq<Edit> {
    match c {
        CharDiff::Equal { .. } => seq![],
        CharDiff::Delete { old_index, old_len, new_index } => seq![
            Edit::Delete {
                at: byte_len(new.take(new_index as int)) as int,
                len: byte_len(old.subrange(old_index as int, old_index + old_len)) as int,
            },
        ],
        CharDiff::Insert { old_index, new_index, new_len } => seq![
            Edit::Insert {
                at: byte_len(new.take(new_index as int)) as int,
                text: new.subrange(new_index as int, new_index + new_len),
            },
        ],
        CharDiff::Replace { old_index, old_len, new_index, new_len } => seq![
            Edit::Delete {
                at: byte_len(new.take(new_index as int)) as int,
                len: byte_len(old.subrange(old_index as int, old_index + old_len)) as int,
            },
            Edit::Insert {
                at: byte_len(new.take(new_index as int)) as int,
                text: new.subrange(new_index as int, new_index + new_len),
            },
        ],
    }
}

/// The edits a diff becomes, step after step.
pub open spec fn diff_edits(old: Seq<char>, new: Seq<char>, d: Seq<CharDiff>) -> Seq<Edit>
    decreases d.len(),
{
    if d.len() == 0 {
        seq![]
    } else {
        step_edits(old, new, d[0]) + diff_edits(old, new, d.drop_first())
    }
}

proof fn lemma_delete_at(old: Seq<char>, new: Seq<char>, oi: int, ni: int, ol: int)
    requires
        0 <= oi,
        oi + ol <= old.len(),
        0 <= ol,
        0 <= ni <= new.len(),
    ensures
        ({
            let cur = new.take(ni) + old.skip(oi);
            let e = Edit::Delete {
                at: byte_len(new.take(ni)) as int,
                len: byte_len(old.subrange(oi, oi + ol)) as int,
            };
            edit_step(cur, e) == Some(new.take(ni) + old.skip(oi + ol))
        }),
{
    let cur = new.take(ni) + old.skip(oi);
    let at = byte_len(new.take(ni)) as int;
    let len = byte_len(old.subrange(oi, oi + ol)) as int;
    assert(cur.take(ni) =~= new.take(ni));
    lemma_boundary_unique(cur, at, ni);
    assert(cur.take(ni + ol) =~= new.take(ni) + old.subrange(oi, oi + ol));
    lemma_byte_len_add(new.take(ni), old.subrange(oi, oi + ol));
    lemma_boundary_unique(cur, at + len, ni + ol);
    assert(cur.skip(ni + ol) =~= old.skip(oi + ol));
}

proof fn lemma_insert_at(old: Seq<char>, new: Seq<char>, oi: int, ni: int, nl: int)
    requires
        0 <= oi <= old.len(),
        0 <= ni,
        0 <= nl,
        ni + nl <= new.len(),
    ensures
        ({
            let cur = new.take(ni) + old.skip(oi);
            let e = Edit::Insert { at: byte_len(new.take(ni)) as int, text: new.subrange(ni, ni + nl) };
            edit_step(cur, e) == Some(new.take(ni + nl) + old.skip(oi))
        }),
{
    let cur = new.take(ni) + old.skip(oi);
    let at = byte_len(new.take(ni)) as int;
    assert(cur.take(ni) =~= new.take(ni));
    lemma_boundary_unique(cur, at, ni);
    assert(cur.skip(ni) =~= old.skip(oi));
    assert(new.take(ni) + new.subrange(ni, ni + nl) + old.skip(oi) =~= new.take(ni + nl) + old.skip(oi));
}

/// Applied to what has been rebuilt so far (the new text up to `ni`, then the old text from
/// `oi`), the edits of a covering diff give the new text.
proof fn lemma_diff_edits_apply(old: Seq<char>, new: Seq<char>, d: Seq<CharDiff>, oi: int, ni: int)
    requires
        0 <= oi <= old.len(),
        0 <= ni <= new.len(),
        covers_from(d, old, new, oi, ni),
    ensures
        apply_edits(new.take(ni) + old.skip(oi), diff_edits(old, new, d)) == Some(new),
    decreases d.len(),
{
    let cur = new.take(ni) + old.skip(oi);
    if d.len() == 0 {
        assert(cur =~= new);
    } else {
        let rest = d.drop_first();
        let here = step_edits(old, new, d[0]);
        lemma_apply_append(cur, here, diff_edits(old, new, rest));
        match d[0] {
            CharDiff::Equal { old_index, new_index, len } => {
                let l = len as int;
                assert(old.subrange(oi, oi + l) == new.subrange(ni, ni + l));
                assert(cur =~= new.take(ni + l) + old.skip(oi + l)) by {
                    assert(old.skip(oi) =~= old.subrange(oi, oi + l) + old.skip(oi + l));
                    assert(new.take(ni + l) =~= new.take(ni) + new.subrange(ni, ni + l));
                }
                assert(apply_edits(cur, here) == Some(cur));
                lemma_diff_edits_apply(old, new, rest, oi + l, ni + l);
            },
            CharDiff::Delete { old_index, old_len, new_index } => {
                lemma_delete_at(old, new, oi, ni, old_len as int);
                let t = new.take(ni) + old.skip(oi + old_len);
                assert(here.drop_first() =~= Seq::<Edit>::empty());
                assert(edit_step(cur, here[0]) == Some(t));
                assert(apply_edits(t, here.drop_first()) == Some(t));
                assert(apply_edits(cur, here) == Some(t));
                lemma_diff_edits_apply(old, new, rest, oi + old_len, ni);
            },
            CharDiff::Insert { old_index, new_index, new_len } => {
                lemma_insert_at(old, new, oi, ni, new_len as int);
                let t = new.take(ni + new_len) + old.skip(oi);
                assert(here.drop_first() =~= Seq::<Edit>::empty());
                assert(edit_step(cur, here[0]) == Some(t));
                assert(apply_edits(t, here.drop_first()) == Some(t));
                assert(apply_edits(cur, here) == Some(t));
                lemma_diff_edits_apply(old, new, rest, oi, ni + new_len);
            },
            CharDiff::Replace { old_index, old_len, new_index, new_len } => {
                lemma_delete_at(old, new, oi, ni, old_len as int);
                let t = new.take(ni) + old.skip(oi + old_len);
                lemma_insert_at(old, new, oi + old_len, ni, new_len as int);
                let u = new.take(ni + new_len) + old.skip(oi + old_len);
                assert(here.drop_first().drop_first() =~= Seq::<Edit>::empty());
                assert(edit_step(cur, here[0]) == Some(t));
                assert(here.drop_first()[0] == here[1]);
                assert(edit_step(t, here[1]) == Some(u));
                assert(apply_edits(u, here.drop_first().drop_first()) == Some(u));
                assert(apply_edits(t, here.drop_first()) == Some(u));
                assert(apply_edits(cur, here) == Some(u));
                lemma_diff_edits_apply(old, new, rest, oi + old_len, ni + new_len);
            },
        }
    }
}

/// The edits of a diff that covers the two texts turn the old text into the new one.
pub proof fn lemma_diff_round_trip(old: Seq<char>, new: Seq<char>, d: Seq<CharDiff>)
    requires
        covers(d, old, new),
    ensures
        apply_edits(old, diff_edits(old, new, d)) == Some(new),
{
    assert(new.take(0) + old.skip(0) =~= old);
    lemma_diff_edits_apply(old, new, d, 0, 0);
}

/// What `similar` makes of two texts diffed character by character: its steps, in order.
pub uninterp spec fn char_diff(old: Seq<char>, new: Seq<char>) -> Seq<CharDiff>;

/// `similar::TextDiff::from_chars(old, new).ops()`, each step copied as it is.
#[verifier::external_body]
fn diff_chars(old: &str, new: &str) -> (r: Vec<CharDiff>)
    ensures
        r@ == char_diff(old@, new@),
{
    similar::TextDiff::from_chars(old, new).ops().iter().map(char_diff_of).collect()
}

#[verifier::external_type_specification]
#[verifier::external_body]
pub struct ExDiffOp(similar::DiffOp);

/// One `similar::DiffOp` as a [`CharDiff`], variant by variant.
#[verifier::external_body]
fn char_diff_of(op: &similar::DiffOp) -> CharDiff {
    match *op {
        similar::DiffOp::Equal { old_index, new_index, len } => CharDiff::Equal { old_index, new_index, len },
        similar::DiffOp::Delete { old_index, old_len, new_index } => CharDiff::Delete { old_index, old_len, new_index },
        similar::DiffOp::Insert { old_index, new_index, new_len } => CharDiff::Insert { old_index, new_index, new_len },
        similar::DiffOp::Replace { old_index, old_len, new_index, new_len } => {
            CharDiff::Replace { old_index, old_len, new_index, new_len }
        },
    }
}

/// The byte offset of each character of `s`, and then `s`'s length in bytes.
fn char_byte_offsets(s: &[char]) -> (r: Vec<usize>)
    requires
        byte_len(s@) <= u32::MAX,
    ensures
        r@.len() == s@.len() + 1,
        forall|k: int| 0 <= k <= s@.len() ==> #[trigger] r@[k] == byte_len(s@.take(k)),
{
    let mut r: Vec<usize> = Vec::new();
    let mut acc: usize = 0;
    r.push(0);
    proof {
        assert(s@.take(0) =~= Seq::<char>::empty());
        assert(byte_len(Seq::<char>::empty()) == 0);
    }
    let mut i: usize = 0;
    while i < s.len()
        invariant
            i <= s@.len(),
            r@.len() == i + 1,
            acc == byte_len(s@.take(i as int)),
            byte_len(s@) <= u32::MAX,
            forall|k: int| 0 <= k <= i ==> #[trigger] r@[k] == byte_len(s@.take(k)),
        decreases s@.len() - i,
    {
        proof {
            lemma_byte_len_prefix(s@, i as int);
        }
        acc = acc + char_width_exec(s[i]);
        r.push(acc);
        i += 1;
    }
    r
}

/// Whether the steps describe `old` becoming `new` (see `covers`).
pub fn diff_covers(d: &[CharDiff], old: &[char], new: &[char]) -> (r: bool)
    ensures
        r == covers(d@, old@, new@),
{
    let mut oi: usize = 0;
    let mut ni: usize = 0;
    let mut i: usize = 0;
    proof {
        assert(d@.skip(0) =~= d@);
    }
    while i < d.len()
        invariant
            i <= d@.len(),
            oi <= old@.len(),
            ni <= new@.len(),
            covers(d@, old@, new@) == covers_from(d@.skip(i as int), old@, new@, oi as int, ni as int),
        decreases d@.len() - i,
    {
        proof {
            assert(d@.skip(i as int).drop_first() =~= d@.skip(i + 1));
            assert(d@.skip(i as int)[0] == d@[i as int]);
        }
        match d[i] {
            CharDiff::Equal { old_index, new_index, len } => {
                if old_index != oi || new_index != ni || len > old.len() - oi || len > new.len() - ni {
                    return false;
                }
                if !crate::text::eq(&slice(old, oi, oi + len), &slice(new, ni, ni + len)) {
                    return false;
                }
                oi = oi + len;
                ni = ni + len;
            },
            CharDiff::Delete { old_index, old_len, new_index } => {
                if old_index != oi || new_index != ni || old_len > old.len() - oi {
                    return false;
                }
                oi = oi + old_len;
            },
            CharDiff::Insert { old_index, new_index, new_len } => {
                if old_index != oi || new_index != ni || new_len > new.len() - ni {
                    return false;
                }
                ni = ni + new_len;
            },
            CharDiff::Replace { old_index, old_len, new_index, new_len } => {
                if old_index != oi || new_index != ni || old_len > old.len() - oi || new_len > new.len() - ni {
                    return false;
                }
                oi = oi + old_len;
                ni = ni + new_len;
            },
        }
        i += 1;
    }
    proof {
        assert(d@.skip(i as int) =~= Seq::<CharDiff>::empty());
    }
    oi == old.len() && ni == new.len()
}

/// Prefixes and runs of a text take no more bytes than the text.
proof fn lemma_part_bytes(s: Seq<char>, a: int, b: int)
    requires
        0 <= a <= b <= s.len(),
    ensures
        byte_len(s.take(b)) == byte_len(s.take(a)) + byte_len(s.subrange(a, b)),
        byte_len(s.take(b)) <= byte_len(s),
{
    assert(s.take(b) =~= s.take(a) + s.subrange(a, b));
    lemma_byte_len_add(s.take(a), s.subrange(a, b));
    assert(s =~= s.take(b) + s.skip(b));
    lemma_byte_len_add(s.take(b), s.skip(b));
}

/// The edits that turn `old` into `new` along the steps of a diff that covers them, with
/// byte offsets as the text is when each edit is applied.
pub fn ops_from_diff(old: &str, new: &str, diff: &[CharDiff]) -> (r: Vec<TextOp>)
    requires
        covers(diff@, old@, new@),
        byte_len(old@) <= u32::MAX,
        byte_len(new@) <= u32::MAX,
    ensures
        edits(r@) == diff_edits(old@, new@, diff@),
        apply_edits(old@, edits(r@)) == Some(new@),
{
    let oc = chars_of(old);
    let nc = chars_of(new);
    let old_bytes = char_byte_offsets(&oc);
    let new_bytes = char_byte_offsets(&nc);
    let olen = oc.len();
    let nlen = nc.len();
    let mut out: Vec<TextOp> = Vec::new();
    let mut i: usize = 0;
    let ghost mut oi: int = 0;
    let ghost mut ni: int = 0;
    proof {
        assert(diff@.skip(0) =~= diff@);
        assert(edits(out@) =~= Seq::<Edit>::empty());
        assert(Seq::<Edit>::empty() + diff_edits(old@, new@, diff@) =~= diff_edits(old@, new@, diff@));
    }
    while i < diff.len()
        invariant
            i <= diff@.len(),
            oc@ == old@,
            nc@ == new@,
            olen == old@.len(),
            nlen == new@.len(),
            old_bytes@.len() == old@.len() + 1,
            new_bytes@.len() == new@.len() + 1,
            forall|k: int| 0 <= k <= old@.len() ==> #[trigger] old_bytes@[k] == byte_len(old@.take(k)),
            forall|k: int| 0 <= k <= new@.len() ==> #[trigger] new_bytes@[k] == byte_len(new@.take(k)),
            byte_len(old@) <= u32::MAX,
            byte_len(new@) <= u32::MAX,
            0 <= oi <= old@.len(),
            0 <= ni <= new@.len(),
            covers_from(diff@.skip(i as int), old@, new@, oi, ni),
            edits(out@) + diff_edits(old@, new@, diff@.skip(i as int)) == diff_edits(old@, new@, diff@),
        decreases diff@.len() - i,
    {
        let ghost rest = diff@.skip(i + 1);
        proof {
            assert(diff@.skip(i as int).drop_first() =~= rest);
            assert(diff@.skip(i as int)[0] == diff@[i as int]);
        }
        let ghost before = out@;
        match diff[i] {
            CharDiff::Equal { old_index, new_index, len } => {
                proof {
                    assert(covers_from(rest, old@, new@, oi + len, ni + len));
                    oi = oi + len;
                    ni = ni + len;
                }
            },
            CharDiff::Delete { old_index, old_len, new_index } => {
                proof {
                    assert(old_index == oi && new_index == ni && oi + old_len <= old@.len());
                    assert(covers_from(rest, old@, new@, oi + old_len, ni));
                    lemma_part_bytes(old@, old_index as int, old_index + old_len);
                    lemma_part_bytes(new@, new_index as int, new_index as int);
                }
                let len = old_bytes[old_index + old_len] - old_bytes[old_index];
                out.push(TextOp::Delete { at: new_bytes[new_index] as u32, len: len as u32 });
                proof {
                    oi = oi + old_len;
                }
            },
            CharDiff::Insert { old_index, new_index, new_len } => {
                proof {
                    assert(old_index == oi && new_index == ni && ni + new_len <= new@.len());
                    assert(covers_from(rest, old@, new@, oi, ni + new_len));
                    lemma_part_bytes(new@, new_index as int, new_index as int);
                }
                let text = string_of(&slice(&nc, new_index, new_index + new_len));
                out.push(TextOp::Insert { at: new_bytes[new_index] as u32, text });
                proof {
                    ni = ni + new_len;
                }
            },
            CharDiff::Replace { old_index, old_len, new_index, new_len } => {
                proof {
                    assert(old_index == oi && new_index == ni && oi + old_len <= old@.len() && ni + new_len <= new@.len());
                    assert(covers_from(rest, old@, new@, oi + old_len, ni + new_len));
                    lemma_part_bytes(old@, old_index as int, old_index + old_len);
                    lemma_part_bytes(new@, new_index as int, new_index as int);
                }
                let len = old_bytes[old_index + old_len] - old_bytes[old_index];
                let at = new_bytes[new_index] as u32;
                out.push(TextOp::Delete { at, len: len as u32 });
                let text = string_of(&slice(&nc, new_index, new_index + new_len));
                out.push(TextOp::Insert { at, text });
                proof {
                    oi = oi + old_len;
                    ni = ni + new_len;
                }
            },
        }
        proof {
            let here = step_edits(old@, new@, diff@[i as int]);
            assert(edits(out@) =~= edits(before) + here);
            assert(diff_edits(old@, new@, diff@.skip(i as int)) == here + diff_edits(old@, new@, rest));
            assert(edits(out@) + diff_edits(old@, new@, rest) =~= edits(before) + diff_edits(old@, new@, diff@.skip(i as int)));
        }
        i += 1;
    }
    proof {
        assert(diff@.skip(i as int) =~= Seq::<CharDiff>::empty());
        assert(edits(out@) + Seq::<Edit>::empty() =~= edits(out@));
        lemma_diff_round_trip(old@, new@, diff@);
    }
    out
}

/// The edits that turn `old` into `new`: none when they are equal, else those of `similar`'s
/// character diff of the two.
pub fn text_ops(old: &str, new: &str) -> (r: Vec<TextOp>)
    requires
        byte_len(old@) <= u32::MAX,
        byte_len(new@) <= u32::MAX,
        old@ == new@ || covers(char_diff(old@, new@), old@, new@),
    ensures
        old@ == new@ ==> r@.len() == 0,
        old@ != new@ ==> edits(r@) == diff_edits(old@, new@, char_diff(old@, new@)),
        apply_edits(old@, edits(r@)) == Some(new@),
{
    if crate::text::eq(&chars_of(old), &chars_of(new)) {
        let r: Vec<TextOp> = Vec::new();
        proof {
            assert(edits(r@) =~= Seq::<Edit>::empty());
        }
        return r;
    }
    let d = diff_chars(old, new);
    ops_from_diff(old, new, &d)
}

/// `text_ops` where `similar`'s diff of the two texts covers them; `None` where it does not.
pub fn try_text_ops(old: &str, new: &str) -> (r: Option<Vec<TextOp>>)
    requires
        byte_len(old@) <= u32::MAX,
        byte_len(new@) <= u32::MAX,
    ensures
        match r {
            Some(ops) => {
                &&& old@ == new@ || covers(char_diff(old@, new@), old@, new@)
                &&& old@ == new@ ==> ops@.len() == 0
                &&& old@ != new@ ==> edits(ops@) == diff_edits(old@, new@, char_diff(old@, new@))
                &&& apply_edits(old@, edits(ops@)) == Some(new@)
            },
            None => old@ != new@ && !covers(char_diff(old@, new@), old@, new@),
        },
{
    let oc = chars_of(old);
    let nc = chars_of(new);
    if crate::text::eq(&oc, &nc) {
        return Some(text_ops(old, new));
    }
    let d = diff_chars(old, new);
    if diff_covers(&d, &oc, &nc) {
        Some(text_ops(old, new))
    } else {
        None
    }
}

/// The number of characters of `s` before byte offset `at`.
fn char_index_exec(s: &Vec<char>, at: u64) -> (k: usize)
    requires
        is_boundary(s@, at as int),
    ensures
        k == char_index(s@, at as int),
        boundary(s@, at as int, k as int),
{
    let ghost k0 = char_index(s@, at as int);
    proof {
        assert(boundary(s@, at as int, k0));
        assert(s@.take(0) =~= Seq::<char>::empty());
        assert(byte_len(Seq::<char>::empty()) == 0);
    }
    let n = s.len();
    let mut k: usize = 0;
    let mut acc: u64 = 0;
    while acc < at
        invariant
            k <= k0 <= n,
            boundary(s@, at as int, k0),
            acc == byte_len(s@.take(k as int)),
            acc <= at,
        decreases k0 - k,
    {
        proof {
            if k == k0 {
                assert(false);
            }
            lemma_byte_len_prefix(s@, k as int);
            if k + 1 < k0 {
                lemma_prefix_bytes_increase(s@, k + 1, k0);
            }
        }
        acc = acc + char_width_exec(s[k]) as u64;
        k += 1;
    }
    proof {
        if k < k0 {
            lemma_prefix_bytes_increase(s@, k as int, k0);
        }
        lemma_boundary_unique(s@, at as int, k as int);
    }
    k
}

/// The edits applied to `text` in order.
pub fn apply_ops(text: &str, ops: &[TextOp]) -> (r: String)
    requires
        apply_edits(text@, edits(ops@)) is Some,
    ensures
        Some(r@) == apply_edits(text@, edits(ops@)),
{
    let mut cur = chars_of(text);
    let mut i: usize = 0;
    proof {
        assert(edits(ops@).skip(0) =~= edits(ops@));
    }
    while i < ops.len()
        invariant
            i <= ops@.len(),
            apply_edits(cur@, edits(ops@).skip(i as int)) == apply_edits(text@, edits(ops@)),
            apply_edits(text@, edits(ops@)) is Some,
        decreases ops@.len() - i,
    {
        let ghost es = edits(ops@).skip(i as int);
        proof {
            assert(es[0] == ops@[i as int]@);
            assert(es.drop_first() =~= edits(ops@).skip(i + 1));
        }
        match &ops[i] {
            TextOp::Delete { at, len } => {
                let a = char_index_exec(&cur, *at as u64);
                let b = char_index_exec(&cur, *at as u64 + *len as u64);
                proof {
                    if b < a {
                        lemma_prefix_bytes_increase(cur@, b as int, a as int);
                    }
                }
                let head = slice(&cur, 0, a);
                let tail = slice(&cur, b, cur.len());
                proof {
                    assert(head@ =~= cur@.take(a as int));
                    assert(tail@ =~= cur@.skip(b as int));
                }
                cur = crate::text::concat(&head, &tail);
            },
            TextOp::Insert { at, text } => {
                let a = char_index_exec(&cur, *at as u64);
                let head = slice(&cur, 0, a);
                let tail = slice(&cur, a, cur.len());
                proof {
                    assert(head@ =~= cur@.take(a as int));
                    assert(tail@ =~= cur@.skip(a as int));
                }
                let mid = crate::text::concat(&head, &chars_of(text.as_str()));
                cur = crate::text::concat(&mid, &tail);
            },
        }
        i += 1;
    }
    proof {
        assert(edits(ops@).skip(i as int) =~= Seq::<Edit>::empty());
    }
    string_of(&cur)
}

/// Whether the string takes at most `n` bytes.
pub fn byte_len_le(s: &str, n: usize) -> (r: bool)
    ensures
        r == (byte_len(s@) <= n),
{
    let b = s.as_bytes();
    proof {
        assert(b@ == encode_utf8(s@));
    }
    b.len() <= n
}

} // verus!
