//! Character-level text helpers shared by every module: the mathematical meaning of the usual
//! `str` operations (find, split, trim, join …) over `Seq<char>`, and executable versions over
//! `Vec<char>` that are proved to compute them.
use vstd::prelude::*;
use vstd::utf8::*;

verus! {

broadcast use vstd::seq_lib::group_seq_properties;

// ---------------------------------------------------------------------------------------------
// Specifications
// ---------------------------------------------------------------------------------------------

/// Unicode `White_Space`, which is what `char::is_whitespace` and `str::trim` use.
pub open spec fn is_ws(c: char) -> bool {
    ||| '\t' <= c <= '\r'
    ||| c == ' '
    ||| c == '\u{85}'
    ||| c == '\u{a0}'
    ||| c == '\u{1680}'
    ||| '\u{2000}' <= c <= '\u{200a}'
    ||| c == '\u{2028}'
    ||| c == '\u{2029}'
    ||| c == '\u{202f}'
    ||| c == '\u{205f}'
    ||| c == '\u{3000}'
}

pub open spec fn is_ascii_digit(c: char) -> bool {
    '0' <= c <= '9'
}

pub open spec fn is_ascii_upper(c: char) -> bool {
    'A' <= c <= 'Z'
}

pub open spec fn is_ascii_lower(c: char) -> bool {
    'a' <= c <= 'z'
}

pub open spec fn is_ascii_alpha(c: char) -> bool {
    is_ascii_upper(c) || is_ascii_lower(c)
}

pub open spec fn is_ascii_alnum(c: char) -> bool {
    is_ascii_alpha(c) || is_ascii_digit(c)
}

/// `char::to_ascii_lowercase`.
pub open spec fn lower(c: char) -> char {
    if is_ascii_upper(c) {
        ((c as u32) + 32) as char
    } else {
        c
    }
}

/// `str::to_ascii_lowercase`.
pub open spec fn lower_seq(s: Seq<char>) -> Seq<char> {
    s.map_values(|c: char| lower(c))
}

/// `s` with leading whitespace removed (`str::trim_start`).
pub open spec fn trim_start(s: Seq<char>) -> Seq<char>
    decreases s.len(),
{
    if s.len() > 0 && is_ws(s[0]) {
        trim_start(s.drop_first())
    } else {
        s
    }
}

/// `s` with trailing whitespace removed (`str::trim_end`).
pub open spec fn trim_end(s: Seq<char>) -> Seq<char>
    decreases s.len(),
{
    if s.len() > 0 && is_ws(s.last()) {
        trim_end(s.drop_last())
    } else {
        s
    }
}

/// `str::trim`.
pub open spec fn trim(s: Seq<char>) -> Seq<char> {
    trim_end(trim_start(s))
}

/// `s` with leading characters from `set` removed (`trim_start_matches` with a char set).
pub open spec fn strip_start_set(s: Seq<char>, set: Seq<char>) -> Seq<char>
    decreases s.len(),
{
    if s.len() > 0 && set.contains(s[0]) {
        strip_start_set(s.drop_first(), set)
    } else {
        s
    }
}

/// `s` with trailing characters from `set` removed.
pub open spec fn strip_end_set(s: Seq<char>, set: Seq<char>) -> Seq<char>
    decreases s.len(),
{
    if s.len() > 0 && set.contains(s.last()) {
        strip_end_set(s.drop_last(), set)
    } else {
        s
    }
}

/// `trim_matches` with a char set.
pub open spec fn strip_set(s: Seq<char>, set: Seq<char>) -> Seq<char> {
    strip_end_set(strip_start_set(s, set), set)
}

/// `p` occurs in `s` at index `i`.
pub open spec fn is_at(s: Seq<char>, p: Seq<char>, i: int) -> bool {
    0 <= i && i + p.len() <= s.len() && s.subrange(i, i + p.len()) == p
}

pub open spec fn starts_with(s: Seq<char>, p: Seq<char>) -> bool {
    is_at(s, p, 0)
}

pub open spec fn ends_with(s: Seq<char>, p: Seq<char>) -> bool {
    p.len() <= s.len() && is_at(s, p, s.len() - p.len())
}

/// `s` contains `p`.
pub open spec fn contains(s: Seq<char>, p: Seq<char>) -> bool {
    exists|i: int| is_at(s, p, i)
}

/// The first occurrence of `p` in `s` at or after `i` (`str::find` on `&s[i..]`, shifted).
pub open spec fn find_from(s: Seq<char>, p: Seq<char>, i: int) -> Option<int>
    decreases s.len() + 1 - i,
{
    if i < 0 || i + p.len() > s.len() {
        None
    } else if is_at(s, p, i) {
        Some(i)
    } else {
        find_from(s, p, i + 1)
    }
}

/// `str::find`.
pub open spec fn find(s: Seq<char>, p: Seq<char>) -> Option<int> {
    find_from(s, p, 0)
}

/// The last occurrence of `p` in `s` starting before `end` (`rfind` on a prefix).
pub open spec fn rfind_before(s: Seq<char>, p: Seq<char>, end: int) -> Option<int>
    decreases end,
{
    if end <= 0 {
        None
    } else if is_at(s, p, end - 1) {
        Some(end - 1)
    } else {
        rfind_before(s, p, end - 1)
    }
}

/// `str::rfind`.
pub open spec fn rfind(s: Seq<char>, p: Seq<char>) -> Option<int> {
    rfind_before(s, p, s.len() + 1int)
}

/// The first index in `s` at or after `i` whose character is in `set` (`find` with a char set).
pub open spec fn find_any_from(s: Seq<char>, set: Seq<char>, i: int) -> Option<int>
    decreases s.len() - i,
{
    if i < 0 || i >= s.len() {
        None
    } else if set.contains(s[i]) {
        Some(i)
    } else {
        find_any_from(s, set, i + 1)
    }
}

/// `str::split` on one character.
pub open spec fn split(s: Seq<char>, c: char) -> Seq<Seq<char>>
    decreases s.len(),
{
    if s.len() == 0 {
        seq![Seq::<char>::empty()]
    } else {
        let r = split(s.drop_last(), c);
        if s.last() == c {
            r.push(Seq::<char>::empty())
        } else {
            r.update(r.len() - 1, r.last().push(s.last()))
        }
    }
}

/// `[T]::join` / `Vec<&str>::join(sep)`.
pub open spec fn join(parts: Seq<Seq<char>>, sep: Seq<char>) -> Seq<char>
    decreases parts.len(),
{
    if parts.len() == 0 {
        Seq::empty()
    } else if parts.len() == 1 {
        parts[0]
    } else {
        join(parts.drop_last(), sep) + sep + parts.last()
    }
}

/// The part of `s` after the last `c` (the first item of `rsplit(c)`), or all of `s`.
pub open spec fn after_last(s: Seq<char>, c: char) -> Seq<char> {
    match rfind(s, seq![c]) {
        Some(i) => s.skip(i + 1),
        None => s,
    }
}

/// `str::replace`: every non-overlapping occurrence of `from`, left to right, becomes `to`.
pub open spec fn replace(s: Seq<char>, from: Seq<char>, to: Seq<char>) -> Seq<char>
    decreases s.len(),
{
    if from.len() == 0 || s.len() == 0 {
        s
    } else if starts_with(s, from) {
        to + replace(s.skip(from.len() as int), from, to)
    } else {
        seq![s[0]] + replace(s.drop_first(), from, to)
    }
}

/// `str::strip_prefix`.
pub open spec fn strip_prefix(s: Seq<char>, p: Seq<char>) -> Option<Seq<char>> {
    if starts_with(s, p) {
        Some(s.skip(p.len() as int))
    } else {
        None
    }
}

/// `str::strip_suffix`.
pub open spec fn strip_suffix(s: Seq<char>, p: Seq<char>) -> Option<Seq<char>> {
    if ends_with(s, p) {
        Some(s.take(s.len() - p.len()))
    } else {
        None
    }
}

/// `str::trim_end_matches` with a string pattern: the suffix removed as often as it is there.
pub open spec fn trim_end_pat(s: Seq<char>, p: Seq<char>) -> Seq<char>
    decreases s.len(),
{
    if p.len() > 0 && ends_with(s, p) {
        trim_end_pat(s.take(s.len() - p.len()), p)
    } else {
        s
    }
}

/// `str::trim_start_matches` with a string pattern.
pub open spec fn trim_start_pat(s: Seq<char>, p: Seq<char>) -> Seq<char>
    decreases s.len(),
{
    if p.len() > 0 && starts_with(s, p) {
        trim_start_pat(s.skip(p.len() as int), p)
    } else {
        s
    }
}

/// Number of UTF-8 bytes of `s` (`str::len` of the string whose characters are `s`).
pub open spec fn byte_len(s: Seq<char>) -> nat {
    encode_utf8(s).len()
}

/// Bytes in the UTF-8 encoding of one character (`char::len_utf8`).
pub open spec fn char_width(c: char) -> nat {
    if (c as u32) <= 0x7f {
        1
    } else if (c as u32) <= 0x7ff {
        2
    } else if (c as u32) <= 0xffff {
        3
    } else {
        4
    }
}

/// `str::split_inclusive` on one character: each piece keeps its terminator; no empty pieces.
pub open spec fn split_inclusive(s: Seq<char>, c: char) -> Seq<Seq<char>>
    decreases s.len(),
{
    if s.len() == 0 {
        Seq::empty()
    } else {
        let r = split_inclusive(s.drop_last(), c);
        if r.len() == 0 || r.last().last() == c {
            r.push(seq![s.last()])
        } else {
            r.update(r.len() - 1, r.last().push(s.last()))
        }
    }
}

/// One line of `str::lines`: its `\n` removed, and a `\r` before that.
pub open spec fn strip_line_end(l: Seq<char>) -> Seq<char> {
    match strip_suffix(l, seq!['\n']) {
        Some(x) => match strip_suffix(x, seq!['\r']) {
            Some(y) => y,
            None => x,
        },
        None => l,
    }
}

/// `str::lines`.
pub open spec fn lines(s: Seq<char>) -> Seq<Seq<char>> {
    split_inclusive(s, '\n').map_values(|l: Seq<char>| strip_line_end(l))
}

// ---------------------------------------------------------------------------------------------
// Lemmas
// ---------------------------------------------------------------------------------------------

pub proof fn lemma_find_from(s: Seq<char>, p: Seq<char>, i: int)
    requires
        0 <= i,
    ensures
        match find_from(s, p, i) {
            Some(k) => i <= k && is_at(s, p, k) && forall|j: int| i <= j < k ==> !is_at(s, p, j),
            None => forall|j: int| i <= j ==> !is_at(s, p, j),
        },
    decreases s.len() + 1 - i,
{
    if i + p.len() > s.len() {
    } else if is_at(s, p, i) {
    } else {
        lemma_find_from(s, p, i + 1);
    }
}

/// Trimming never lengthens, and what is left is a suffix.
pub proof fn lemma_trim_start_len(s: Seq<char>)
    ensures
        trim_start(s).len() <= s.len(),
        trim_start(s) == s.skip(s.len() - trim_start(s).len()),
    decreases s.len(),
{
    if s.len() > 0 && is_ws(s[0]) {
        lemma_trim_start_len(s.drop_first());
        assert(s.drop_first().skip(s.len() - 1 - trim_start(s).len()) =~= s.skip(
            s.len() - trim_start(s).len(),
        ));
    } else {
        assert(s.skip(0) =~= s);
    }
}

/// The characters in all the pieces together.
pub open spec fn total_len(ls: Seq<Seq<char>>) -> nat
    decreases ls.len(),
{
    if ls.len() == 0 {
        0
    } else {
        total_len(ls.drop_last()) + ls.last().len()
    }
}

/// A prefix of the pieces has no more characters than all of them.
pub proof fn lemma_total_len_take(ls: Seq<Seq<char>>, i: int)
    requires
        0 <= i <= ls.len(),
    ensures
        total_len(ls.take(i)) <= total_len(ls),
    decreases ls.len() - i,
{
    if i < ls.len() {
        lemma_total_len_take(ls, i + 1);
        assert(ls.take(i + 1).drop_last() =~= ls.take(i));
    } else {
        assert(ls.take(i) =~= ls);
    }
}

/// The characters of two runs of pieces add up.
pub proof fn lemma_total_len_add(a: Seq<Seq<char>>, b: Seq<Seq<char>>)
    ensures
        total_len(a + b) == total_len(a) + total_len(b),
    decreases b.len(),
{
    if b.len() > 0 {
        lemma_total_len_add(a, b.drop_last());
        assert((a + b).drop_last() =~= a + b.drop_last());
    } else {
        assert(a + b =~= a);
    }
}

/// The pieces of `split_inclusive` hold the characters of the text.
pub proof fn lemma_split_inclusive_total(s: Seq<char>, c: char)
    ensures
        total_len(split_inclusive(s, c)) == s.len(),
        forall|k: int| 0 <= k < split_inclusive(s, c).len() ==> #[trigger] split_inclusive(s, c)[k].len() > 0,
    decreases s.len(),
{
    if s.len() > 0 {
        lemma_split_inclusive_total(s.drop_last(), c);
        let r = split_inclusive(s.drop_last(), c);
        if r.len() == 0 || r.last().last() == c {
            assert(r.push(seq![s.last()]).drop_last() =~= r);
        } else {
            let u = r.update(r.len() - 1, r.last().push(s.last()));
            assert(u.drop_last() =~= r.drop_last());
            assert(r.drop_last().push(r.last()) =~= r);
        }
    }
}

/// The lines of a text hold no more characters than it.
pub proof fn lemma_lines_total(s: Seq<char>)
    ensures
        total_len(lines(s)) <= s.len(),
{
    lemma_split_inclusive_total(s, '\n');
    lemma_map_strip_total(split_inclusive(s, '\n'));
}

proof fn lemma_map_strip_total(ps: Seq<Seq<char>>)
    ensures
        total_len(ps.map_values(|l: Seq<char>| strip_line_end(l))) <= total_len(ps),
    decreases ps.len(),
{
    if ps.len() > 0 {
        lemma_map_strip_total(ps.drop_last());
        assert(ps.map_values(|l: Seq<char>| strip_line_end(l)).drop_last() =~= ps.drop_last().map_values(
            |l: Seq<char>| strip_line_end(l),
        ));
        assert(strip_line_end(ps.last()).len() <= ps.last().len());
    }
}

pub proof fn lemma_find(s: Seq<char>, p: Seq<char>)
    ensures
        match find(s, p) {
            Some(k) => 0 <= k && k + p.len() <= s.len() && is_at(s, p, k) && forall|j: int|
                0 <= j < k ==> !is_at(s, p, j),
            None => forall|j: int| !is_at(s, p, j),
        },
{
    lemma_find_from(s, p, 0);
}

pub proof fn lemma_rfind_before(s: Seq<char>, p: Seq<char>, end: int)
    ensures
        match rfind_before(s, p, end) {
            Some(k) => k < end && is_at(s, p, k) && forall|j: int| k < j < end ==> !is_at(s, p, j),
            None => forall|j: int| j < end ==> !is_at(s, p, j),
        },
    decreases end,
{
    if end <= 0 {
    } else if is_at(s, p, end - 1) {
    } else {
        lemma_rfind_before(s, p, end - 1);
    }
}

pub proof fn lemma_split_len(s: Seq<char>, c: char)
    ensures
        split(s, c).len() >= 1,
    decreases s.len(),
{
    if s.len() > 0 {
        lemma_split_len(s.drop_last(), c);
    }
}

pub proof fn lemma_encode_utf8_add(a: Seq<char>, b: Seq<char>)
    ensures
        encode_utf8(a + b) == encode_utf8(a) + encode_utf8(b),
    decreases a.len(),
{
    if a.len() == 0 {
        assert(a + b =~= b);
    } else {
        assert((a + b).drop_first() =~= a.drop_first() + b);
        lemma_encode_utf8_add(a.drop_first(), b);
    }
}

pub proof fn lemma_byte_len_push(s: Seq<char>, c: char)
    ensures
        byte_len(s.push(c)) == byte_len(s) + char_width(c),
{
    lemma_encode_utf8_add(s, seq![c]);
    assert(s.push(c) =~= s + seq![c]);
    assert(seq![c].drop_first() =~= Seq::<char>::empty());
    char_is_scalar(c);
    assert(encode_utf8(Seq::<char>::empty()) =~= Seq::<u8>::empty());
    assert(encode_utf8(seq![c]) =~= encode_scalar(c as u32));
}

/// Prefixes of `s` take at most its bytes, one character more adding that character's width.
pub proof fn lemma_byte_len_prefix(s: Seq<char>, i: int)
    requires
        0 <= i < s.len(),
    ensures
        byte_len(s.take(i + 1)) == byte_len(s.take(i)) + char_width(s[i]),
        byte_len(s.take(i + 1)) <= byte_len(s),
{
    lemma_byte_len_push(s.take(i), s[i]);
    assert(s.take(i).push(s[i]) =~= s.take(i + 1));
    lemma_encode_utf8_add(s.take(i + 1), s.skip(i + 1));
    assert(s.take(i + 1) + s.skip(i + 1) =~= s);
}

pub proof fn lemma_byte_len_add(a: Seq<char>, b: Seq<char>)
    ensures
        byte_len(a + b) == byte_len(a) + byte_len(b),
{
    lemma_encode_utf8_add(a, b);
}

// ---------------------------------------------------------------------------------------------
// Executable helpers
// ---------------------------------------------------------------------------------------------

/// `std::str::from_utf8`: the text when the bytes are valid UTF-8.
#[verifier::external_body]
pub(crate) fn utf8_str(b: &[u8]) -> (r: Option<&str>)
    ensures
        match r {
            Some(s) => valid_utf8(b@) && s@ == decode_utf8(b@),
            None => !valid_utf8(b@),
        },
{
    std::str::from_utf8(b).ok()
}

/// What `String::from_utf8_lossy` makes of some bytes: their text, with each invalid sequence
/// replaced by U+FFFD.
pub uninterp spec fn utf8_lossy(b: Seq<u8>) -> Seq<char>;

/// `String::from_utf8_lossy`: a function of the bytes that reads valid UTF-8 as it is.
#[verifier::external_body]
pub(crate) fn lossy_text(b: &[u8]) -> (r: String)
    ensures
        r@ == utf8_lossy(b@),
        valid_utf8(b@) ==> r@ == decode_utf8(b@),
{
    String::from_utf8_lossy(b).into_owned()
}

/// The characters of `s`, in order.
pub fn chars_of(s: &str) -> (v: Vec<char>)
    ensures
        v@ == s@,
{
    let mut v: Vec<char> = Vec::new();
    for c in it: s.chars()
        invariant
            v@ == it.seq().take(it.index() as int),
    {
        v.push(c);
    }
    v
}

/// `String::push`.
#[verifier::external_body]
fn push_char(s: &mut String, c: char)
    ensures
        final(s)@ == old(s)@.push(c),
{
    s.push(c);
}

/// The string made of the characters `v`.
pub fn string_of(v: &[char]) -> (s: String)
    ensures
        s@ == v@,
{
    let mut s = String::new();
    let mut i: usize = 0;
    while i < v.len()
        invariant
            i <= v.len(),
            s@ == v@.take(i as int),
        decreases v.len() - i,
    {
        push_char(&mut s, v[i]);
        i += 1;
    }
    s
}

/// `v[lo..hi]`, copied.
pub fn slice(v: &[char], lo: usize, hi: usize) -> (r: Vec<char>)
    requires
        lo <= hi <= v.len(),
    ensures
        r@ == v@.subrange(lo as int, hi as int),
{
    let mut r: Vec<char> = Vec::new();
    let mut i = lo;
    while i < hi
        invariant
            lo <= i <= hi <= v.len(),
            r@ == v@.subrange(lo as int, i as int),
        decreases hi - i,
    {
        r.push(v[i]);
        i += 1;
    }
    r
}

/// `a` followed by `b`.
pub fn concat(a: &[char], b: &[char]) -> (r: Vec<char>)
    ensures
        r@ == a@ + b@,
{
    let mut r: Vec<char> = Vec::new();
    let mut i: usize = 0;
    while i < a.len()
        invariant
            i <= a.len(),
            r@ == a@.take(i as int),
        decreases a.len() - i,
    {
        r.push(a[i]);
        i += 1;
    }
    let mut j: usize = 0;
    while j < b.len()
        invariant
            j <= b.len(),
            r@ == a@ + b@.take(j as int),
        decreases b.len() - j,
    {
        r.push(b[j]);
        j += 1;
    }
    r
}

/// Appends `b` to `a`.
pub fn append(a: &mut Vec<char>, b: &[char])
    ensures
        final(a)@ == old(a)@ + b@,
{
    let mut j: usize = 0;
    while j < b.len()
        invariant
            j <= b.len(),
            a@ == old(a)@ + b@.take(j as int),
        decreases b.len() - j,
    {
        a.push(b[j]);
        j += 1;
    }
}

/// Whether the two character sequences are equal.
pub fn eq(a: &[char], b: &[char]) -> (r: bool)
    ensures
        r == (a@ == b@),
{
    if a.len() != b.len() {
        return false;
    }
    let mut i: usize = 0;
    while i < a.len()
        invariant
            i <= a.len() == b.len(),
            a@.take(i as int) == b@.take(i as int),
        decreases a.len() - i,
    {
        if a[i] != b[i] {
            assert(a@[i as int] != b@[i as int]);
            return false;
        }
        i += 1;
    }
    assert(a@ =~= a@.take(a.len() as int));
    assert(b@ =~= b@.take(b.len() as int));
    true
}

/// Whether `p` occurs in `s` at `i`.
pub fn is_at_exec(s: &[char], p: &[char], i: usize) -> (r: bool)
    ensures
        r == is_at(s@, p@, i as int),
{
    if i > s.len() || p.len() > s.len() - i {
        return false;
    }
    let mut k: usize = 0;
    while k < p.len()
        invariant
            i + p.len() <= s.len(),
            k <= p.len(),
            s@.subrange(i as int, i + k) == p@.take(k as int),
        decreases p.len() - k,
    {
        if s[i + k] != p[k] {
            assert(s@.subrange(i as int, i + p.len())[k as int] != p@[k as int]);
            return false;
        }
        assert(s@.subrange(i as int, i + k + 1) =~= s@.subrange(i as int, i + k).push(s@[i + k]));
        assert(p@.take(k + 1) =~= p@.take(k as int).push(p@[k as int]));
        k += 1;
    }
    assert(p@.take(p.len() as int) =~= p@);
    true
}

pub fn starts_with_exec(s: &[char], p: &[char]) -> (r: bool)
    ensures
        r == starts_with(s@, p@),
{
    is_at_exec(s, p, 0)
}

pub fn ends_with_exec(s: &[char], p: &[char]) -> (r: bool)
    ensures
        r == ends_with(s@, p@),
{
    if p.len() > s.len() {
        false
    } else {
        is_at_exec(s, p, s.len() - p.len())
    }
}

/// The first occurrence of `p` in `s` at or after `from`.
pub fn find_from_exec(s: &[char], p: &[char], from: usize) -> (r: Option<usize>)
    ensures
        match r {
            Some(k) => find_from(s@, p@, from as int) == Some(k as int),
            None => find_from(s@, p@, from as int) is None,
        },
{
    let mut i = from;
    loop
        invariant
            from <= i,
            find_from(s@, p@, from as int) == find_from(s@, p@, i as int),
        decreases s.len() + 1 - i,
    {
        if i > s.len() || p.len() > s.len() - i {
            return None;
        }
        if is_at_exec(s, p, i) {
            return Some(i);
        }
        proof {
            if i == s.len() {
                assert(s@.subrange(i as int, i as int) =~= p@);
            }
        }
        i += 1;
    }
}

/// `str::find`.
pub fn find_exec(s: &[char], p: &[char]) -> (r: Option<usize>)
    ensures
        match r {
            Some(k) => find(s@, p@) == Some(k as int),
            None => find(s@, p@) is None,
        },
{
    find_from_exec(s, p, 0)
}

/// `str::find` for one character.
pub fn find_char(s: &[char], c: char) -> (r: Option<usize>)
    ensures
        match r {
            Some(k) => find(s@, seq![c]) == Some(k as int),
            None => find(s@, seq![c]) is None,
        },
{
    let p = vec![c];
    proof {
        assert(p@ =~= seq![c]);
    }
    find_exec(s, &p)
}

/// `str::rfind`.
pub fn rfind_exec(s: &[char], p: &[char]) -> (r: Option<usize>)
    ensures
        match r {
            Some(k) => rfind(s@, p@) == Some(k as int),
            None => rfind(s@, p@) is None,
        },
{
    if is_at_exec(s, p, s.len()) {
        return Some(s.len());
    }
    let mut end = s.len();
    loop
        invariant
            end <= s.len(),
            rfind(s@, p@) == rfind_before(s@, p@, end as int),
        decreases end,
    {
        if end == 0 {
            return None;
        }
        if is_at_exec(s, p, end - 1) {
            return Some(end - 1);
        }
        end -= 1;
    }
}

/// `str::rfind` for one character.
pub fn rfind_char(s: &[char], c: char) -> (r: Option<usize>)
    ensures
        match r {
            Some(k) => rfind(s@, seq![c]) == Some(k as int),
            None => rfind(s@, seq![c]) is None,
        },
{
    let p = vec![c];
    proof {
        assert(p@ =~= seq![c]);
    }
    rfind_exec(s, &p)
}

/// The first index at or after `from` holding a character of `set`.
pub fn find_any_from_exec(s: &[char], set: &[char], from: usize) -> (r: Option<usize>)
    ensures
        match r {
            Some(k) => find_any_from(s@, set@, from as int) == Some(k as int),
            None => find_any_from(s@, set@, from as int) is None,
        },
{
    let mut i = from;
    loop
        invariant
            from <= i,
            find_any_from(s@, set@, from as int) == find_any_from(s@, set@, i as int),
        decreases s.len() - i,
    {
        if i >= s.len() {
            return None;
        }
        if contains_char(set, s[i]) {
            return Some(i);
        }
        i += 1;
    }
}

/// Whether `c` is one of `set`.
pub fn contains_char(set: &[char], c: char) -> (r: bool)
    ensures
        r == set@.contains(c),
{
    let mut i: usize = 0;
    while i < set.len()
        invariant
            i <= set.len(),
            forall|j: int| 0 <= j < i ==> set@[j] != c,
        decreases set.len() - i,
    {
        if set[i] == c {
            return true;
        }
        i += 1;
    }
    false
}

/// Whether `p` occurs anywhere in `s`.
pub fn contains_exec(s: &[char], p: &[char]) -> (r: bool)
    ensures
        r == contains(s@, p@),
{
    proof {
        lemma_find(s@, p@);
    }
    match find_exec(s, p) {
        Some(_) => true,
        None => false,
    }
}

pub fn is_ws_exec(c: char) -> (r: bool)
    ensures
        r == is_ws(c),
{
    ('\t' <= c && c <= '\r') || c == ' ' || c == '\u{85}' || c == '\u{a0}' || c == '\u{1680}' || (
    '\u{2000}' <= c && c <= '\u{200a}') || c == '\u{2028}' || c == '\u{2029}' || c == '\u{202f}'
        || c == '\u{205f}' || c == '\u{3000}'
}

pub fn lower_exec(c: char) -> (r: char)
    ensures
        r == lower(c),
{
    if 'A' <= c && c <= 'Z' {
        let u = c as u32;
        let b = u as u8;
        assert(b == u) by (bit_vector)
            requires
                u <= 0x5a,
                b == u as u8,
        ;
        assert(c as u8 == b);
        (b + 32) as char
    } else {
        c
    }
}

/// `str::to_ascii_lowercase`.
pub fn lower_vec(s: &[char]) -> (r: Vec<char>)
    ensures
        r@ == lower_seq(s@),
{
    let mut r: Vec<char> = Vec::new();
    let mut i: usize = 0;
    while i < s.len()
        invariant
            i <= s.len(),
            r@ == lower_seq(s@.take(i as int)),
        decreases s.len() - i,
    {
        r.push(lower_exec(s[i]));
        assert(lower_seq(s@.take(i + 1)) =~= lower_seq(s@.take(i as int)).push(lower(s@[i as int])));
        i += 1;
    }
    assert(s@.take(s.len() as int) =~= s@);
    r
}

/// `str::trim_start`.
pub fn trim_start_exec(s: &[char]) -> (r: Vec<char>)
    ensures
        r@ == trim_start(s@),
{
    let mut i: usize = 0;
    while i < s.len() && is_ws_exec(s[i])
        invariant
            i <= s.len(),
            trim_start(s@.skip(i as int)) == trim_start(s@),
        decreases s.len() - i,
    {
        assert(s@.skip(i as int).drop_first() =~= s@.skip(i + 1));
        i += 1;
    }
    slice(s, i, s.len())
}

/// `str::trim_end`.
pub fn trim_end_exec(s: &[char]) -> (r: Vec<char>)
    ensures
        r@ == trim_end(s@),
{
    let mut j: usize = s.len();
    while j > 0 && is_ws_exec(s[j - 1])
        invariant
            j <= s.len(),
            trim_end(s@.take(j as int)) == trim_end(s@),
        decreases j,
    {
        assert(s@.take(j as int).drop_last() =~= s@.take(j - 1));
        j -= 1;
    }
    slice(s, 0, j)
}

/// `str::trim`.
pub fn trim_exec(s: &[char]) -> (r: Vec<char>)
    ensures
        r@ == trim(s@),
{
    let a = trim_start_exec(s);
    trim_end_exec(&a)
}

/// `trim_start_matches` with a char set.
pub fn strip_start_set_exec(s: &[char], set: &[char]) -> (r: Vec<char>)
    ensures
        r@ == strip_start_set(s@, set@),
{
    let mut i: usize = 0;
    while i < s.len() && contains_char(set, s[i])
        invariant
            i <= s.len(),
            strip_start_set(s@.skip(i as int), set@) == strip_start_set(s@, set@),
        decreases s.len() - i,
    {
        assert(s@.skip(i as int).drop_first() =~= s@.skip(i + 1));
        i += 1;
    }
    slice(s, i, s.len())
}

/// `trim_end_matches` with a char set.
pub fn strip_end_set_exec(s: &[char], set: &[char]) -> (r: Vec<char>)
    ensures
        r@ == strip_end_set(s@, set@),
{
    let mut j: usize = s.len();
    while j > 0 && contains_char(set, s[j - 1])
        invariant
            j <= s.len(),
            strip_end_set(s@.take(j as int), set@) == strip_end_set(s@, set@),
        decreases j,
    {
        assert(s@.take(j as int).drop_last() =~= s@.take(j - 1));
        j -= 1;
    }
    slice(s, 0, j)
}

/// `trim_matches` with a char set.
pub fn strip_set_exec(s: &[char], set: &[char]) -> (r: Vec<char>)
    ensures
        r@ == strip_set(s@, set@),
{
    let a = strip_start_set_exec(s, set);
    strip_end_set_exec(&a, set)
}

/// `str::trim_end_matches` with a string pattern.
pub fn trim_end_pat_exec(s: &[char], p: &[char]) -> (r: Vec<char>)
    ensures
        r@ == trim_end_pat(s@, p@),
{
    let mut j: usize = s.len();
    while p.len() > 0 && p.len() <= j && is_at_exec(s, p, j - p.len())
        invariant
            j <= s.len(),
            trim_end_pat(s@.take(j as int), p@) == trim_end_pat(s@, p@),
        decreases j,
    {
        proof {
            let t = s@.take(j as int);
            assert(t.subrange(j - p.len(), j as int) =~= s@.subrange(j - p.len(), j as int));
            assert(ends_with(t, p@));
            assert(t.take(t.len() - p.len()) =~= s@.take(j - p.len()));
        }
        j -= p.len();
    }
    proof {
        let t = s@.take(j as int);
        if p.len() > 0 && p.len() <= j {
            assert(t.subrange(j - p.len(), j as int) =~= s@.subrange(j - p.len(), j as int));
        }
    }
    slice(s, 0, j)
}

/// `str::trim_start_matches` with a string pattern.
pub fn trim_start_pat_exec(s: &[char], p: &[char]) -> (r: Vec<char>)
    ensures
        r@ == trim_start_pat(s@, p@),
{
    let mut i: usize = 0;
    while p.len() > 0 && is_at_exec(s, p, i)
        invariant
            i <= s.len(),
            trim_start_pat(s@.skip(i as int), p@) == trim_start_pat(s@, p@),
        decreases s.len() - i,
    {
        proof {
            let t = s@.skip(i as int);
            assert(t.subrange(0, p.len() as int) =~= s@.subrange(i as int, i + p.len()));
            assert(t.skip(p.len() as int) =~= s@.skip(i + p.len()));
        }
        i += p.len();
    }
    proof {
        let t = s@.skip(i as int);
        if p.len() > 0 && p.len() <= t.len() {
            assert(t.subrange(0, p.len() as int) =~= s@.subrange(i as int, i + p.len()));
        }
    }
    slice(s, i, s.len())
}

/// `str::split` on one character.
pub fn split_exec(s: &[char], c: char) -> (r: Vec<Vec<char>>)
    ensures
        r@.len() == split(s@, c).len(),
        forall|k: int| 0 <= k < r@.len() ==> #[trigger] r@[k]@ == split(s@, c)[k],
{
    let mut done: Vec<Vec<char>> = Vec::new();
    let mut cur: Vec<char> = Vec::new();
    let mut i: usize = 0;
    while i < s.len()
        invariant
            i <= s.len(),
            done@.len() + 1 == split(s@.take(i as int), c).len(),
            forall|k: int| 0 <= k < done@.len() ==> #[trigger] done@[k]@ == split(
                s@.take(i as int),
                c,
            )[k],
            cur@ == split(s@.take(i as int), c).last(),
        decreases s.len() - i,
    {
        proof {
            lemma_split_len(s@.take(i as int), c);
            assert(s@.take(i + 1).drop_last() =~= s@.take(i as int));
        }
        if s[i] == c {
            done.push(cur);
            cur = Vec::new();
        } else {
            cur.push(s[i]);
        }
        i += 1;
    }
    done.push(cur);
    proof {
        assert(s@.take(s.len() as int) =~= s@);
        lemma_split_len(s@, c);
    }
    done
}

/// `parts.join(sep)`.
pub fn join_exec(parts: &Vec<Vec<char>>, sep: &[char]) -> (r: Vec<char>)
    ensures
        r@ == join(parts@.map_values(|v: Vec<char>| v@), sep@),
{
    let ghost ps = parts@.map_values(|v: Vec<char>| v@);
    let mut r: Vec<char> = Vec::new();
    let mut i: usize = 0;
    while i < parts.len()
        invariant
            i <= parts.len(),
            ps == parts@.map_values(|v: Vec<char>| v@),
            r@ == join(ps.take(i as int), sep@),
        decreases parts.len() - i,
    {
        proof {
            assert(ps.take(i + 1).drop_last() =~= ps.take(i as int));
            if i == 0 {
                assert(ps.take(1) =~= seq![parts@[0]@]);
            }
        }
        if i > 0 {
            append(&mut r, sep);
        }
        append(&mut r, &parts[i]);
        i += 1;
    }
    proof {
        assert(ps.take(parts.len() as int) =~= ps);
    }
    r
}

/// `str::replace`.
#[verifier::spinoff_prover]
#[verifier::rlimit(40)]
pub fn replace_exec(s: &[char], from: &[char], to: &[char]) -> (r: Vec<char>)
    ensures
        r@ == replace(s@, from@, to@),
{
    let mut out: Vec<char> = Vec::new();
    let mut i: usize = 0;
    while i < s.len()
        invariant
            i <= s.len(),
            out@ + replace(s@.skip(i as int), from@, to@) == replace(s@, from@, to@),
        decreases s.len() - i,
    {
        let ghost t = s@.skip(i as int);
        if from.len() > 0 && is_at_exec(s, from, i) {
            proof {
                assert(t.subrange(0, from.len() as int) =~= s@.subrange(i as int, i + from.len()));
                assert(t.skip(from.len() as int) =~= s@.skip(i + from.len()));
            }
            let ghost before = out@;
            append(&mut out, to);
            proof {
                let x = replace(s@.skip(i + from.len()), from@, to@);
                assert(out@ + x =~= before + (to@ + x));
            }
            i += from.len();
        } else {
            proof {
                if from.len() > 0 && from.len() <= t.len() {
                    assert(t.subrange(0, from.len() as int) =~= s@.subrange(
                        i as int,
                        i + from.len(),
                    ));
                }
                assert(t.drop_first() =~= s@.skip(i + 1));
                assert(t[0] == s@[i as int]);
            }
            let ghost before = out@;
            out.push(s[i]);
            proof {
                let x = replace(s@.skip(i + 1), from@, to@);
                assert(out@ + x =~= before + (seq![s@[i as int]] + x));
            }
            i += 1;
        }
    }
    proof {
        assert(s@.skip(s.len() as int) =~= Seq::<char>::empty());
    }
    out
}

/// `str::split_inclusive` on one character.
pub fn split_inclusive_exec(s: &[char], c: char) -> (r: Vec<Vec<char>>)
    ensures
        r@.len() == split_inclusive(s@, c).len(),
        forall|k: int| 0 <= k < r@.len() ==> #[trigger] r@[k]@ == split_inclusive(s@, c)[k],
{
    let mut done: Vec<Vec<char>> = Vec::new();
    let mut cur: Vec<char> = Vec::new();
    let mut i: usize = 0;
    while i < s.len()
        invariant
            i <= s.len(),
            cur@.len() == 0 ==> done@.len() == split_inclusive(s@.take(i as int), c).len(),
            cur@.len() > 0 ==> done@.len() + 1 == split_inclusive(s@.take(i as int), c).len()
                && cur@ == split_inclusive(s@.take(i as int), c).last() && cur@.last() != c,
            forall|k: int| 0 <= k < done@.len() ==> #[trigger] done@[k]@ == split_inclusive(
                s@.take(i as int),
                c,
            )[k],
            forall|k: int| 0 <= k < done@.len() ==> (#[trigger] done@[k]@).len() > 0
                && done@[k]@.last() == c,
        decreases s.len() - i,
    {
        let ghost r = split_inclusive(s@.take(i as int), c);
        proof {
            assert(s@.take(i + 1).drop_last() =~= s@.take(i as int));
            if cur@.len() == 0 && r.len() > 0 {
                assert(done@[done@.len() - 1]@ == r[r.len() - 1]);
            }
        }
        cur.push(s[i]);
        proof {
            let r2 = split_inclusive(s@.take(i + 1), c);
            if cur@.len() == 1 {
                assert(r2 == r.push(seq![s@[i as int]]));
                assert(cur@ =~= seq![s@[i as int]]);
            } else {
                assert(r2 == r.update(r.len() - 1, r.last().push(s@[i as int])));
            }
        }
        if s[i] == c {
            done.push(cur);
            cur = Vec::new();
        }
        i += 1;
    }
    if cur.len() > 0 {
        done.push(cur);
    }
    proof {
        assert(s@.take(s.len() as int) =~= s@);
    }
    done
}

/// One line of `str::lines`.
pub fn strip_line_end_exec(l: &[char]) -> (r: Vec<char>)
    ensures
        r@ == strip_line_end(l@),
{
    let nl = vec!['\n'];
    let cr = vec!['\r'];
    proof {
        assert(nl@ =~= seq!['\n']);
        assert(cr@ =~= seq!['\r']);
    }
    if ends_with_exec(l, &nl) {
        let x = slice(l, 0, l.len() - 1);
        if ends_with_exec(&x, &cr) {
            slice(&x, 0, x.len() - 1)
        } else {
            x
        }
    } else {
        slice(l, 0, l.len())
    }
}

/// `str::lines`.
pub fn lines_exec(s: &[char]) -> (r: Vec<Vec<char>>)
    ensures
        r@.len() == lines(s@).len(),
        forall|k: int| 0 <= k < r@.len() ==> #[trigger] r@[k]@ == lines(s@)[k],
{
    let pieces = split_inclusive_exec(s, '\n');
    let mut r: Vec<Vec<char>> = Vec::new();
    let mut i: usize = 0;
    while i < pieces.len()
        invariant
            i <= pieces.len(),
            pieces@.len() == split_inclusive(s@, '\n').len(),
            forall|k: int| 0 <= k < pieces@.len() ==> #[trigger] pieces@[k]@ == split_inclusive(
                s@,
                '\n',
            )[k],
            r@.len() == i,
            forall|k: int| 0 <= k < i ==> #[trigger] r@[k]@ == lines(s@)[k],
        decreases pieces.len() - i,
    {
        r.push(strip_line_end_exec(&pieces[i]));
        i += 1;
    }
    r
}

/// `a` followed by `b`, as a string.
pub fn join_strs(a: &str, b: &str) -> (r: String)
    ensures
        r@ == a@ + b@,
{
    let x = chars_of(a);
    let y = chars_of(b);
    let z = concat(&x, &y);
    string_of(&z)
}

/// What `str::to_lowercase` makes of a text: Unicode's lowercase mapping, with its one rule
/// that looks at the neighbours (a final capital sigma); no locale is involved.
pub uninterp spec fn unicode_lower(s: Seq<char>) -> Seq<char>;

/// `str::to_lowercase`.
#[verifier::external_body]
pub(crate) fn to_lowercase(s: &str) -> (r: String)
    ensures
        r@ == unicode_lower(s@),
{
    s.to_lowercase()
}

/// `char::len_utf8`.
pub fn char_width_exec(c: char) -> (r: usize)
    ensures
        r == char_width(c),
{
    if (c as u32) <= 0x7f {
        1
    } else if (c as u32) <= 0x7ff {
        2
    } else if (c as u32) <= 0xffff {
        3
    } else {
        4
    }
}

} // verus!
