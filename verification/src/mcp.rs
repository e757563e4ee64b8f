//! What the notes tool server checks before a request reaches the server: dates, and note
//! paths written into `note://` URIs and read back from them.
use vstd::prelude::*;
use vstd::utf8::*;
use crate::attachments::{debug_quoted, str_debug};
use crate::ids::ulid_decoded;
use crate::json::{entries_get, json_get, json_str, Json};
use crate::numfmt::{fmt_i64, fmt_int, fmt_u64};
use crate::remote::{
    is_not_found, lemma_text_lt_total, lemma_text_lt_trans, lookup_note, resolve_note, text_less, text_lt, NoteSummary,
    NotesApi, RemoteError, SearchHit, TagCount,
};
use crate::text::{
    chars_of, join_strs, lossy_text, string_of, trim, trim_end_pat, trim_end_pat_exec, trim_exec,
    trim_start_pat, trim_start_pat_exec, utf8_lossy,
};

verus! {

/// `YYYY-MM-DD` in shape: ten characters, dashes at 4 and 7, digits elsewhere. (A text with any
/// character outside ASCII has a byte that is no digit, so counting characters is counting
/// bytes here.)
pub open spec fn valid_date_spec(s: Seq<char>) -> bool {
    s.len() == 10 && forall|i: int|
        0 <= i < 10 ==> if i == 4 || i == 7 {
            #[trigger] s[i] == '-'
        } else {
            '0' <= s[i] <= '9'
        }
}

/// Cheap `YYYY-MM-DD` check, so a bad date never reaches the server.
pub fn valid_date(s: &str) -> (r: bool)
    ensures
        r == valid_date_spec(s@),
{
    let c = crate::text::chars_of(s);
    if c.len() != 10 {
        return false;
    }
    let mut i: usize = 0;
    while i < 10
        invariant
            i <= 10,
            c@ == s@,
            c@.len() == 10,
            forall|j: int|
                0 <= j < i ==> if j == 4 || j == 7 {
                    #[trigger] c@[j] == '-'
                } else {
                    '0' <= c@[j] <= '9'
                },
        decreases 10 - i,
    {
        let ok = if i == 4 || i == 7 {
            c[i] == '-'
        } else {
            '0' <= c[i] && c[i] <= '9'
        };
        if !ok {
            return false;
        }
        i += 1;
    }
    true
}

/// Bytes a `note://` URI writes as they are.
pub open spec fn unreserved(b: u8) -> bool {
    (65 <= b <= 90) || (97 <= b <= 122) || (48 <= b <= 57) || b == 45 || b == 46 || b == 95 || b == 126
        || b == 47
}

/// An uppercase hex digit's character.
pub open spec fn hex_char(v: int) -> char {
    if v < 10 {
        (48 + v) as char
    } else {
        (55 + v) as char
    }
}

/// A note path's bytes percent-encoded, as characters.
pub open spec fn encode_chars(b: Seq<u8>) -> Seq<char>
    decreases b.len(),
{
    if b.len() == 0 {
        Seq::empty()
    } else {
        (if unreserved(b[0]) {
            seq![b[0] as char]
        } else {
            seq!['%', hex_char(b[0] as int / 16), hex_char(b[0] as int % 16)]
        }) + encode_chars(b.drop_first())
    }
}

/// The value of a hex digit byte.
pub open spec fn hex_value(b: u8) -> Option<int> {
    if 48 <= b <= 57 {
        Some(b - 48)
    } else if 65 <= b <= 70 {
        Some(b - 55)
    } else if 97 <= b <= 102 {
        Some(b - 87)
    } else {
        None
    }
}

/// `u8::from_str_radix(.., 16)` on two bytes: two hex digits, or `+` and one.
pub open spec fn parse_hex2(b1: u8, b2: u8) -> Option<u8> {
    match (hex_value(b1), hex_value(b2)) {
        (Some(x), Some(y)) => Some((16 * x + y) as u8),
        _ => if b1 == 43 {
            match hex_value(b2) {
                Some(y) => Some(y as u8),
                None => None,
            }
        } else {
            None
        },
    }
}

/// Percent escapes read back into bytes; a `%` that starts no escape stays.
pub open spec fn decode_bytes(b: Seq<u8>) -> Seq<u8>
    decreases b.len(),
{
    if b.len() == 0 {
        Seq::empty()
    } else if b[0] == 37 && 2 < b.len() && parse_hex2(b[1], b[2]) is Some {
        seq![parse_hex2(b[1], b[2])->0] + decode_bytes(b.skip(3))
    } else {
        seq![b[0]] + decode_bytes(b.drop_first())
    }
}

/// A text whose percent escapes can be read without cutting a character: after each `%` that
/// is followed by two more bytes, the third byte starts a character.
pub open spec fn decode_safe(b: Seq<u8>) -> bool
    decreases b.len(),
{
    if b.len() == 0 {
        true
    } else if b[0] == 37 && 2 < b.len() {
        (b.len() == 3 || !is_continuation_byte(b[3])) && if parse_hex2(b[1], b[2]) is Some {
            decode_safe(b.skip(3))
        } else {
            decode_safe(b.drop_first())
        }
    } else {
        decode_safe(b.drop_first())
    }
}

fn hex_char_exec(v: u8) -> (r: char)
    requires
        v < 16,
    ensures
        r == hex_char(v as int),
{
    if v < 10 {
        (48 + v) as char
    } else {
        (55 + v) as char
    }
}

/// Percent-encode a note path for a `note://` URI, keeping the separators readable.
pub fn encode_path(path: &str) -> (r: String)
    ensures
        r@ == encode_chars(encode_utf8(path@)),
{
    let bytes = path.as_bytes();
    let ghost b = encode_utf8(path@);
    let mut out: Vec<char> = Vec::new();
    let mut i: usize = 0;
    proof {
        assert(b.skip(0) =~= b);
    }
    while i < bytes.len()
        invariant
            i <= bytes@.len(),
            bytes@ == b,
            encode_chars(b) == out@ + encode_chars(b.skip(i as int)),
        decreases bytes.len() - i,
    {
        let x = bytes[i];
        let ghost before = out@;
        proof {
            assert(b.skip(i as int)[0] == x);
            assert(b.skip(i as int).drop_first() =~= b.skip(i + 1));
        }
        if (65 <= x && x <= 90) || (97 <= x && x <= 122) || (48 <= x && x <= 57) || x == 45 || x == 46
            || x == 95 || x == 126 || x == 47 {
            out.push(x as char);
        } else {
            out.push('%');
            out.push(hex_char_exec(x / 16));
            out.push(hex_char_exec(x % 16));
        }
        proof {
            let rest = encode_chars(b.skip(i + 1));
            let piece = if unreserved(x) {
                seq![x as char]
            } else {
                seq!['%', hex_char(x as int / 16), hex_char(x as int % 16)]
            };
            assert(out@ =~= before + piece);
            assert(out@ + rest =~= before + (piece + rest));
        }
        i += 1;
    }
    proof {
        assert(b.skip(bytes@.len() as int) =~= Seq::<u8>::empty());
    }
    crate::text::string_of(&out)
}

fn hex_value_exec(b: u8) -> (r: Option<u8>)
    ensures
        match r {
            Some(v) => hex_value(b) == Some(v as int) && v < 16,
            None => hex_value(b) is None,
        },
{
    if 48 <= b && b <= 57 {
        Some(b - 48)
    } else if 65 <= b && b <= 70 {
        Some(b - 55)
    } else if 97 <= b && b <= 102 {
        Some(b - 87)
    } else {
        None
    }
}

fn parse_hex2_exec(b1: u8, b2: u8) -> (r: Option<u8>)
    ensures
        r == parse_hex2(b1, b2),
{
    match (hex_value_exec(b1), hex_value_exec(b2)) {
        (Some(x), Some(y)) => Some(16 * x + y),
        _ => if b1 == 43 {
            match hex_value_exec(b2) {
                Some(y) => Some(y),
                None => None,
            }
        } else {
            None
        },
    }
}

/// The bytes a `note://` path stands for: its escapes read back.
pub fn decode_path_bytes(path: &str) -> (r: Vec<u8>)
    ensures
        r@ == decode_bytes(encode_utf8(path@)),
{
    let bytes = path.as_bytes();
    let ghost b = encode_utf8(path@);
    let n = bytes.len();
    let mut out: Vec<u8> = Vec::new();
    let mut i: usize = 0;
    proof {
        assert(b.skip(0) =~= b);
    }
    while i < n
        invariant
            i <= n == bytes@.len(),
            bytes@ == b,
            decode_bytes(b) == out@ + decode_bytes(b.skip(i as int)),
        decreases n - i,
    {
        let ghost rest = b.skip(i as int);
        let ghost before = out@;
        proof {
            assert(rest[0] == bytes@[i as int]);
        }
        let v = if bytes[i] == 37 && n - i > 2 {
            proof {
                assert(rest[1] == bytes@[i + 1]);
                assert(rest[2] == bytes@[i + 2]);
            }
            parse_hex2_exec(bytes[i + 1], bytes[i + 2])
        } else {
            None
        };
        match v {
            Some(x) => {
                out.push(x);
                proof {
                    assert(rest.skip(3) =~= b.skip(i + 3));
                    let t = decode_bytes(b.skip(i + 3));
                    assert(out@ + t =~= before + (seq![x] + t));
                }
                i = i + 3;
            },
            None => {
                out.push(bytes[i]);
                proof {
                    assert(rest.drop_first() =~= b.skip(i + 1));
                    let t = decode_bytes(b.skip(i + 1));
                    assert(out@ + t =~= before + (seq![bytes@[i as int]] + t));
                }
                i = i + 1;
            },
        }
    }
    proof {
        assert(b.skip(n as int) =~= Seq::<u8>::empty());
    }
    out
}

/// The note path a `note://` URI holds: its escapes read back, invalid UTF-8 replaced.
/// A path on which the original reading would cut a character (see [`decode_safe`]) is not
/// accepted.
pub fn decode_path(path: &str) -> (r: String)
    requires
        decode_safe(encode_utf8(path@)),
    ensures
        r@ == utf8_lossy(decode_bytes(encode_utf8(path@))),
        valid_utf8(decode_bytes(encode_utf8(path@))) ==> r@ == decode_utf8(decode_bytes(encode_utf8(path@))),
{
    let b = decode_path_bytes(path);
    lossy_text(b.as_slice())
}

/// Encoding writes ASCII only, so its characters are its bytes.
pub proof fn lemma_encode_ascii(b: Seq<u8>)
    ensures
        encode_utf8(encode_chars(b)) == encode_bytes(b),
    decreases b.len(),
{
    if b.len() > 0 {
        lemma_encode_ascii(b.drop_first());
        let piece = if unreserved(b[0]) {
            seq![b[0] as char]
        } else {
            seq!['%', hex_char(b[0] as int / 16), hex_char(b[0] as int % 16)]
        };
        crate::text::lemma_encode_utf8_add(piece, encode_chars(b.drop_first()));
        lemma_piece_bytes(b[0]);
    }
}

/// The bytes of the encoding of `b`.
pub open spec fn encode_bytes(b: Seq<u8>) -> Seq<u8>
    decreases b.len(),
{
    if b.len() == 0 {
        Seq::empty()
    } else {
        (if unreserved(b[0]) {
            seq![b[0]]
        } else {
            seq![37u8, hex_char(b[0] as int / 16) as u8, hex_char(b[0] as int % 16) as u8]
        }) + encode_bytes(b.drop_first())
    }
}

proof fn lemma_ascii_utf8(c: char)
    requires
        (c as u32) <= 0x7f,
    ensures
        encode_utf8(seq![c]) == seq![(c as u32) as u8],
{
    let v = c as u32;
    assert((v & 0x7F) as u8 == v as u8) by (bit_vector)
        requires
            v <= 0x7f,
    ;
    assert(seq![c].drop_first() =~= Seq::<char>::empty());
    assert(seq![c][0] == c);
    assert(encode_utf8(Seq::<char>::empty()) =~= Seq::<u8>::empty());
    assert(encode_scalar(v) =~= seq![v as u8]);
    assert(encode_utf8(seq![c]) == encode_scalar(v) + encode_utf8(Seq::<char>::empty()));
    assert(encode_utf8(seq![c]) =~= seq![v as u8]);
}

proof fn lemma_piece_bytes(x: u8)
    ensures
        encode_utf8(
            if unreserved(x) {
                seq![x as char]
            } else {
                seq!['%', hex_char(x as int / 16), hex_char(x as int % 16)]
            },
        ) == if unreserved(x) {
            seq![x]
        } else {
            seq![37u8, hex_char(x as int / 16) as u8, hex_char(x as int % 16) as u8]
        },
{
    if unreserved(x) {
        lemma_ascii_utf8(x as char);
    } else {
        let a = '%';
        let h = hex_char(x as int / 16);
        let l = hex_char(x as int % 16);
        lemma_ascii_utf8(a);
        lemma_ascii_utf8(h);
        lemma_ascii_utf8(l);
        crate::text::lemma_encode_utf8_add(seq![a], seq![h, l]);
        crate::text::lemma_encode_utf8_add(seq![h], seq![l]);
        assert(seq![a] + seq![h, l] =~= seq![a, h, l]);
        assert(seq![h] + seq![l] =~= seq![h, l]);
        assert(seq![(a as u32) as u8] + (seq![(h as u32) as u8] + seq![(l as u32) as u8]) =~= seq![
            37u8,
            h as u8,
            l as u8,
        ]);
    }
}

/// Reading back what was written gives the bytes that were written, and reading it cuts no
/// character.
pub proof fn lemma_decode_encode(b: Seq<u8>)
    ensures
        decode_bytes(encode_bytes(b)) == b,
        decode_safe(encode_bytes(b)),
    decreases b.len(),
{
    if b.len() > 0 {
        lemma_decode_encode(b.drop_first());
        let e = encode_bytes(b);
        let rest = encode_bytes(b.drop_first());
        if unreserved(b[0]) {
            assert(e[0] == b[0]);
            assert(e.drop_first() =~= rest);
        } else {
            let hi = b[0] / 16;
            let lo = b[0] % 16;
            assert(e[0] == 37u8);
            assert(e[1] == hex_char(hi as int) as u8);
            assert(e[2] == hex_char(lo as int) as u8);
            assert(hex_value(e[1]) == Some(hi as int));
            assert(hex_value(e[2]) == Some(lo as int));
            assert(e.skip(3) =~= rest);
            lemma_encode_bytes_ascii(b.drop_first());
            if rest.len() > 0 {
                assert(e[3] == rest[0]);
            }
        }
    }
}

/// Encoding writes ASCII bytes only.
proof fn lemma_encode_bytes_ascii(b: Seq<u8>)
    ensures
        forall|i: int| 0 <= i < encode_bytes(b).len() ==> #[trigger] encode_bytes(b)[i] < 128,
    decreases b.len(),
{
    if b.len() > 0 {
        lemma_encode_bytes_ascii(b.drop_first());
        let piece = if unreserved(b[0]) {
            seq![b[0]]
        } else {
            seq![37u8, hex_char(b[0] as int / 16) as u8, hex_char(b[0] as int % 16) as u8]
        };
        assert(encode_bytes(b) == piece + encode_bytes(b.drop_first()));
        assert forall|i: int| 0 <= i < encode_bytes(b).len() implies #[trigger] encode_bytes(b)[i] < 128 by {
            if i >= piece.len() {
                assert(encode_bytes(b)[i] == encode_bytes(b.drop_first())[i - piece.len()]);
            }
        }
    }
}

/// A note path written into a `note://` URI reads back as the same path: the URI's text is
/// safe to read, and its escapes give back the path's bytes, which are valid UTF-8 and decode
/// to the path.
pub proof fn lemma_note_uri_round_trip(path: Seq<char>)
    ensures
        decode_safe(encode_utf8(encode_chars(encode_utf8(path)))),
        decode_bytes(encode_utf8(encode_chars(encode_utf8(path)))) == encode_utf8(path),
        valid_utf8(encode_utf8(path)),
        decode_utf8(encode_utf8(path)) == path,
{
    lemma_encode_ascii(encode_utf8(path));
    lemma_decode_encode(encode_utf8(path));
    encode_utf8_valid_utf8(path);
    encode_utf8_decode_utf8(path);
}

/// Whether a `note://` path can be read back without cutting a character.
pub fn escapes_readable(path: &str) -> (r: bool)
    ensures
        r == decode_safe(encode_utf8(path@)),
{
    let bytes = path.as_bytes();
    let ghost b = encode_utf8(path@);
    let n = bytes.len();
    let mut i: usize = 0;
    proof {
        assert(b.skip(0) =~= b);
    }
    while i < n
        invariant
            i <= n == bytes@.len(),
            bytes@ == b,
            b == encode_utf8(path@),
            decode_safe(b) == decode_safe(b.skip(i as int)),
        decreases n - i,
    {
        let ghost rest = b.skip(i as int);
        proof {
            assert(rest[0] == bytes@[i as int]);
        }
        if bytes[i] == 37 && n - i > 2 {
            proof {
                assert(rest[1] == bytes@[i + 1]);
                assert(rest[2] == bytes@[i + 2]);
            }
            if n - i > 3 {
                proof {
                    assert(rest[3] == bytes@[i + 3]);
                }
                if is_continuation_byte_exec(bytes[i + 3]) {
                    proof {
                        assert(rest.len() == n - i);
                        assert(!decode_safe(rest));
                    }
                    return false;
                }
            }
            match parse_hex2_exec(bytes[i + 1], bytes[i + 2]) {
                Some(_) => {
                    proof {
                        assert(rest.skip(3) =~= b.skip(i + 3));
                    }
                    i = i + 3;
                },
                None => {
                    proof {
                        assert(rest.drop_first() =~= b.skip(i + 1));
                    }
                    i = i + 1;
                },
            }
        } else {
            proof {
                assert(rest.drop_first() =~= b.skip(i + 1));
            }
            i = i + 1;
        }
    }
    proof {
        assert(b.skip(i as int) =~= Seq::<u8>::empty());
    }
    true
}

fn is_continuation_byte_exec(x: u8) -> (r: bool)
    ensures
        r == is_continuation_byte(x),
{
    assert(is_continuation_byte(x) == (0x80 <= x <= 0xbf));
    0x80 <= x && x <= 0xbf
}

// ---- JSON values -----------------------------------------------------------------------------

/// Two JSON values with the same content (texts compared by their characters).
pub open spec fn same_json(a: Json, b: Json) -> bool
    decreases a,
{
    match (a, b) {
        (Json::Null, Json::Null) => true,
        (Json::Bool(x), Json::Bool(y)) => x == y,
        (Json::Number(x), Json::Number(y)) => x@ == y@,
        (Json::Str(x), Json::Str(y)) => x@ == y@,
        (Json::Array(x), Json::Array(y)) => x@.len() == y@.len() && forall|i: int|
            0 <= i < x@.len() ==> same_json(#[trigger] x@[i], y@[i]),
        (Json::Object(x), Json::Object(y)) => x@.len() == y@.len() && forall|i: int|
            0 <= i < x@.len() ==> (#[trigger] x@[i]).0@ == y@[i].0@ && same_json(x@[i].1, y@[i].1),
        _ => false,
    }
}

/// A copy of a JSON value.
pub fn json_copy(v: &Json) -> (r: Json)
    ensures
        same_json(r, *v),
    decreases *v,
{
    match v {
        Json::Null => Json::Null,
        Json::Bool(b) => Json::Bool(*b),
        Json::Number(n) => Json::Number(copy_string(n)),
        Json::Str(t) => Json::Str(copy_string(t)),
        Json::Array(items) => {
            let mut out: Vec<Json> = Vec::new();
            let mut i: usize = 0;
            while i < items.len()
                invariant
                    i <= items@.len(),
                    *v == Json::Array(*items),
                    out@.len() == i,
                    forall|k: int| 0 <= k < i ==> same_json(#[trigger] out@[k], items@[k]),
                decreases items@.len() - i,
            {
                proof {
                    assert((*v)->Array_0 == *items);
                    assert(decreases_to!(*v => (*v)->Array_0));
                    assert(decreases_to!(*items => items@));
                    assert(decreases_to!(items@ => items@[i as int]));
                    assert(decreases_to!(*v => items@[i as int]));
                }
                out.push(json_copy(&items[i]));
                i += 1;
            }
            let r = Json::Array(out);
            proof {
                assert forall|k: int| 0 <= k < out@.len() implies same_json(#[trigger] out@[k], items@[k]) by {}
            }
            r
        },
        Json::Object(m) => {
            let mut out: Vec<(String, Json)> = Vec::new();
            let mut i: usize = 0;
            while i < m.len()
                invariant
                    i <= m@.len(),
                    *v == Json::Object(*m),
                    out@.len() == i,
                    forall|k: int| 0 <= k < i ==> (#[trigger] out@[k]).0@ == m@[k].0@ && same_json(out@[k].1, m@[k].1),
                decreases m@.len() - i,
            {
                proof {
                    assert((*v)->Object_0 == *m);
                    assert(decreases_to!(*v => (*v)->Object_0));
                    assert(decreases_to!(*m => m@));
                    assert(decreases_to!(m@ => m@[i as int]));
                    assert(decreases_to!(m@[i as int] => m@[i as int].1));
                    assert(decreases_to!(*v => m@[i as int].1));
                }
                let val = json_copy(&m[i].1);
                out.push((m[i].0.as_str().to_owned(), val));
                i += 1;
            }
            Json::Object(out)
        },
    }
}

fn copy_string(s: &String) -> (r: String)
    ensures
        r@ == s@,
{
    s.as_str().to_owned()
}

/// A string value.
pub fn jstr(s: &str) -> (r: Json)
    ensures
        r matches Json::Str(t) && t@ == s@,
{
    Json::Str(s.to_owned())
}

/// The member of an object under a key.
pub fn get_member<'a>(v: &'a Json, key: &str) -> (r: Option<&'a Json>)
    ensures
        match r {
            Some(x) => json_get(*v, key@) == Some(*x),
            None => json_get(*v, key@) is None,
        },
{
    match v {
        Json::Object(m) => {
            let k = chars_of(key);
            let mut i: usize = 0;
            proof {
                assert(m@.skip(0) =~= m@);
            }
            while i < m.len()
                invariant
                    i <= m@.len(),
                    k@ == key@,
                    json_get(*v, key@) == entries_get(m@, key@),
                    entries_get(m@, key@) == entries_get(m@.skip(i as int), key@),
                decreases m.len() - i,
            {
                proof {
                    assert(m@.skip(i as int).drop_first() =~= m@.skip(i + 1));
                    assert(m@.skip(i as int)[0] == m@[i as int]);
                }
                if crate::text::eq(&chars_of(m[i].0.as_str()), &k) {
                    return Some(&m[i].1);
                }
                i += 1;
            }
            None
        },
        _ => None,
    }
}

/// The decimal digits' value, when the text is a non-negative integer that fits 64 bits.
pub open spec fn digits_value(s: Seq<char>) -> Option<u64>
    decreases s.len(),
{
    if s.len() == 0 {
        None
    } else {
        let d = s.last();
        if !('0' <= d <= '9') {
            None
        } else if s.len() == 1 {
            Some((d as u32 - 48) as u64)
        } else {
            match digits_value(s.drop_last()) {
                Some(v) => if v * 10 + (d as u32 - 48) <= u64::MAX {
                    Some((v * 10 + (d as u32 - 48)) as u64)
                } else {
                    None
                },
                None => None,
            }
        }
    }
}

/// `Value::as_u64`: a number that is a non-negative integer of 64 bits.
pub open spec fn json_u64(v: Option<Json>) -> Option<u64> {
    match v {
        Some(Json::Number(n)) => digits_value(n@),
        _ => None,
    }
}

fn digits_value_exec(s: &[char]) -> (r: Option<u64>)
    ensures
        r == digits_value(s@),
{
    let n = s.len();
    if n == 0 {
        return None;
    }
    let mut v: u64 = 0;
    let mut i: usize = 0;
    while i < n
        invariant
            i <= n == s@.len(),
            n > 0,
            i > 0 ==> digits_value(s@.take(i as int)) == Some(v),
        decreases n - i,
    {
        let d = s[i];
        proof {
            assert(s@.take(i + 1).last() == d);
            assert(s@.take(i + 1).drop_last() =~= s@.take(i as int));
        }
        if !('0' <= d && d <= '9') {
            proof {
                lemma_digits_none_after(s@, i as int);
            }
            return None;
        }
        let dv = (d as u32 - 48) as u64;
        if i == 0 {
            v = dv;
        } else {
            if v > (u64::MAX - dv) / 10 {
                proof {
                    assert(v * 10 + dv > u64::MAX) by (nonlinear_arith)
                        requires
                            v > (u64::MAX - dv) / 10,
                            dv <= 9,
                    ;
                    lemma_digits_none_after(s@, i as int);
                }
                return None;
            }
            proof {
                assert(v * 10 + dv <= u64::MAX) by (nonlinear_arith)
                    requires
                        v <= (u64::MAX - dv) / 10,
                        dv <= 9,
                ;
            }
            v = v * 10 + dv;
        }
        i += 1;
    }
    proof {
        assert(s@.take(n as int) =~= s@);
    }
    Some(v)
}

/// Once a prefix reads as no number, no longer prefix does.
proof fn lemma_digits_none_after(s: Seq<char>, i: int)
    requires
        0 <= i < s.len(),
        digits_value(s.take(i + 1)) is None,
    ensures
        digits_value(s) is None,
    decreases s.len() - i,
{
    if i + 1 < s.len() {
        assert(s.take(i + 2).drop_last() =~= s.take(i + 1));
        lemma_digits_none_after(s, i + 1);
    } else {
        assert(s.take(i + 1) =~= s);
    }
}

// ---- JSON-RPC --------------------------------------------------------------------------------

/// The protocol revision spoken when the client asks for one not known here.
pub const DEFAULT_PROTOCOL: &'static str = "2025-06-18";

/// The protocol revisions known here.
pub open spec fn supported_protocols() -> Seq<Seq<char>> {
    seq!["2024-11-05"@, "2025-03-26"@, "2025-06-18"@]
}

/// The revision to speak: the one asked for when it is known, else the default.
pub fn negotiate_protocol(asked: &str) -> (r: String)
    ensures
        r@ == if supported_protocols().contains(asked@) {
            asked@
        } else {
            DEFAULT_PROTOCOL@
        },
{
    let a = chars_of(asked);
    let known = [chars_of("2024-11-05"), chars_of("2025-03-26"), chars_of("2025-06-18")];
    let mut i: usize = 0;
    while i < 3
        invariant
            i <= 3,
            a@ == asked@,
            known@.len() == 3,
            known@[0]@ == "2024-11-05"@,
            known@[1]@ == "2025-03-26"@,
            known@[2]@ == "2025-06-18"@,
            forall|j: int| 0 <= j < i ==> known@[j]@ != asked@,
        decreases 3 - i,
    {
        if crate::text::eq(&known[i], &a) {
            proof {
                assert(supported_protocols()[i as int] == asked@);
            }
            return asked.to_owned();
        }
        i += 1;
    }
    proof {
        if supported_protocols().contains(asked@) {
            let j = choose|j: int| 0 <= j < 3 && supported_protocols()[j] == asked@;
            assert(known@[j]@ == asked@);
        }
    }
    DEFAULT_PROTOCOL.to_owned()
}

/// A string value with this text.
pub open spec fn is_str(j: Json, t: Seq<char>) -> bool {
    j matches Json::Str(s) && s@ == t
}

/// A successful answer.
pub fn rpc_result(id: Json, result: Json) -> (r: Json)
    ensures
        match r {
            Json::Object(m) => m@.len() == 3 && m@[0].0@ == "jsonrpc"@ && is_str(m@[0].1, "2.0"@) && m@[1].0@
                == "id"@ && m@[1].1 == id && m@[2].0@ == "result"@ && m@[2].1 == result,
            _ => false,
        },
{
    let m = vec![("jsonrpc".to_owned(), jstr("2.0")), ("id".to_owned(), id), ("result".to_owned(), result)];
    Json::Object(m)
}

/// An error answer.
pub fn rpc_error(id: Json, code: i64, message: String) -> (r: Json)
    requires
        code > i64::MIN,
    ensures
        match r {
            Json::Object(m) => m@.len() == 3 && m@[0].0@ == "jsonrpc"@ && is_str(m@[0].1, "2.0"@) && m@[1].0@
                == "id"@ && m@[1].1 == id && m@[2].0@ == "error"@ && match m@[2].1 {
                Json::Object(e) => e@.len() == 2 && e@[0].0@ == "code"@ && (e@[0].1 matches Json::Number(c)
                    && c@ == fmt_int(code as int, 1)) && e@[1].0@ == "message"@ && is_str(e@[1].1, message@),
                _ => false,
            },
            _ => false,
        },
        rpc_error_code(r) == Some(fmt_int(code as int, 1)),
{
    let c = Json::Number(string_of(&fmt_i64(code, 1)));
    let e = vec![("code".to_owned(), c), ("message".to_owned(), Json::Str(message))];
    let m = vec![("jsonrpc".to_owned(), jstr("2.0")), ("id".to_owned(), id), ("error".to_owned(), Json::Object(e))];
    proof {
        reveal_strlit("jsonrpc");
        reveal_strlit("id");
        reveal_strlit("error");
        reveal_strlit("code");
        assert("jsonrpc"@.len() != "error"@.len());
        assert("id"@.len() != "error"@.len());
        lemma_entries_get_at(m@, "error"@, 2);
        lemma_entries_get_at(e@, "code"@, 0);
    }
    Json::Object(m)
}

/// A tool's answer: its text, and whether it is a failure inside the tool.
pub fn text_result(text: String, is_error: bool) -> (r: Json)
    ensures
        match r {
            Json::Object(m) => m@.len() == 2 && m@[0].0@ == "content"@ && m@[1].0@ == "isError"@ && m@[1].1
                == Json::Bool(is_error) && match m@[0].1 {
                Json::Array(c) => c@.len() == 1 && match c@[0] {
                    Json::Object(item) => item@.len() == 2 && item@[0].0@ == "type"@ && is_str(item@[0].1, "text"@)
                        && item@[1].0@ == "text"@ && is_str(item@[1].1, text@),
                    _ => false,
                },
                _ => false,
            },
            _ => false,
        },
{
    let item = vec![("type".to_owned(), jstr("text")), ("text".to_owned(), Json::Str(text))];
    let m = vec![
        ("content".to_owned(), Json::Array(vec![Json::Object(item)])),
        ("isError".to_owned(), Json::Bool(is_error)),
    ];
    Json::Object(m)
}

/// The methods the server answers.
#[derive(Debug, Clone, Copy, PartialEq, Eq, Structural)]
pub enum Method {
    Initialize,
    Ping,
    /// A notification sent as a request: answered with an empty object.
    Notification,
    ToolsList,
    ToolsCall,
    ResourcesList,
    ResourcesRead,
    Unknown,
}

/// What a method name asks for.
pub open spec fn method_spec(m: Seq<char>) -> Method {
    if m == "initialize"@ {
        Method::Initialize
    } else if m == "ping"@ {
        Method::Ping
    } else if crate::text::starts_with(m, "notifications/"@) {
        Method::Notification
    } else if m == "tools/list"@ {
        Method::ToolsList
    } else if m == "tools/call"@ {
        Method::ToolsCall
    } else if m == "resources/list"@ {
        Method::ResourcesList
    } else if m == "resources/read"@ {
        Method::ResourcesRead
    } else {
        Method::Unknown
    }
}

/// The method a name asks for.
pub fn method_of(m: &str) -> (r: Method)
    ensures
        r == method_spec(m@),
{
    let c = chars_of(m);
    if crate::text::eq(&c, &chars_of("initialize")) {
        Method::Initialize
    } else if crate::text::eq(&c, &chars_of("ping")) {
        Method::Ping
    } else if crate::text::starts_with_exec(&c, &chars_of("notifications/")) {
        Method::Notification
    } else if crate::text::eq(&c, &chars_of("tools/list")) {
        Method::ToolsList
    } else if crate::text::eq(&c, &chars_of("tools/call")) {
        Method::ToolsCall
    } else if crate::text::eq(&c, &chars_of("resources/list")) {
        Method::ResourcesList
    } else if crate::text::eq(&c, &chars_of("resources/read")) {
        Method::ResourcesRead
    } else {
        Method::Unknown
    }
}

/// What one incoming message is.
#[derive(Debug, PartialEq, Eq)]
pub enum Envelope {
    /// A request: its id, method and parameters (an empty object when it has none).
    Request { id: Json, method: String, params: Json },
    /// Something with an id but no method: answered as an invalid request.
    NoMethod { id: Json },
    /// A notification, a response or junk without an id: not answered at all.
    Ignore,
}

/// Sort an incoming message: requests are answered, a message claiming an id without a method
/// is an invalid request, and notifications (no id) are never answered.
pub fn envelope(msg: &Json) -> (r: Envelope)
    ensures
        match json_str(json_get(*msg, "method"@)) {
            None => match json_get(*msg, "id"@) {
                Some(id) => r matches Envelope::NoMethod { id: i } && same_json(i, id),
                None => r == Envelope::Ignore,
            },
            Some(m) => match json_get(*msg, "id"@) {
                None => r == Envelope::Ignore,
                Some(id) => r matches Envelope::Request { id: i, method: mm, params: p } && same_json(i, id) && mm@
                    == m && match json_get(*msg, "params"@) {
                    Some(q) => same_json(p, q),
                    None => p matches Json::Object(e) && e@.len() == 0,
                },
            },
        },
{
    let id = get_member(msg, "id");
    let method = match get_member(msg, "method") {
        Some(Json::Str(m)) => Some(m),
        _ => None,
    };
    match method {
        None => match id {
            Some(i) => Envelope::NoMethod { id: json_copy(i) },
            None => Envelope::Ignore,
        },
        Some(m) => match id {
            None => Envelope::Ignore,
            Some(i) => {
                let params = match get_member(msg, "params") {
                    Some(p) => json_copy(p),
                    None => Json::Object(Vec::new()),
                };
                Envelope::Request { id: json_copy(i), method: copy_string(m), params }
            },
        },
    }
}

// ---- The tools -------------------------------------------------------------------------------

/// The eight tools, in the order they are listed.
pub open spec fn tool_names() -> Seq<Seq<char>> {
    seq![
        "search_notes"@,
        "read_note"@,
        "write_note"@,
        "append_to_note"@,
        "list_notes"@,
        "get_daily_note"@,
        "get_backlinks"@,
        "list_tags"@,
    ]
}

/// The arguments each tool requires.
pub open spec fn tool_required(i: int) -> Seq<Seq<char>> {
    if i == 0 {
        seq!["query"@]
    } else if i == 1 || i == 6 {
        seq!["path_or_id"@]
    } else if i == 2 || i == 3 {
        seq!["path_or_id"@, "content"@]
    } else {
        Seq::empty()
    }
}

/// An array of strings with these texts.
pub open spec fn str_array(j: Option<Json>, ns: Seq<Seq<char>>) -> bool {
    match j {
        Some(Json::Array(a)) => a@.len() == ns.len() && forall|k: int|
            0 <= k < a@.len() ==> is_str(#[trigger] a@[k], ns[k]),
        _ => false,
    }
}

/// The value under the first entry with a key.
proof fn lemma_entries_get_at(m: Seq<(String, Json)>, key: Seq<char>, i: int)
    requires
        0 <= i < m.len(),
        m[i].0@ == key,
        forall|j: int| 0 <= j < i ==> (#[trigger] m[j]).0@ != key,
    ensures
        entries_get(m, key) == Some(m[i].1),
    decreases i,
{
    if i > 0 {
        assert(m[0].0@ != key);
        assert forall|j: int| 0 <= j < i - 1 implies (#[trigger] m.drop_first()[j]).0@ != key by {
            assert(m.drop_first()[j] == m[j + 1]);
        }
        lemma_entries_get_at(m.drop_first(), key, i - 1);
    }
}

/// What each tool says it does, in the order they are listed.
pub open spec fn tool_descriptions() -> Seq<Seq<char>> {
    seq![
        "Full-text search across the vault. Returns the matching notes' paths, ids, and a snippet each. Use it to find notes before reading them."@,
        "Read one note's full markdown source, front matter included."@,
        "Replace a note's entire content, creating the note when the path does not exist yet. The server applies the new text as a diff, so concurrent editors are merged rather than clobbered. To add to a note without resending it, use `append_to_note`."@,
        "Append markdown to the end of a note, keeping what is already there (a newline is inserted if needed). Creates the note when the path does not exist yet."@,
        "List the notes in the vault as `path (id)` lines, optionally only those in one folder."@,
        "Get the daily note for a date (today by default), creating `Daily/<date>.md` if it does not exist yet. Returns its markdown content."@,
        "List the notes that link to a note ([[wikilinks]] and markdown links alike)."@,
        "List every tag used in the vault with how many notes carry it, most used first."@,
    ]
}

/// An argument of a tool: its name, its JSON type and its description.
pub type PropView = (Seq<char>, Seq<char>, Seq<char>);

/// The arguments each tool takes, in the order its schema lists them.
pub open spec fn tool_props(i: int) -> Seq<PropView> {
    let note: PropView = ("path_or_id"@, "string"@, NOTE_REF@);
    if i == 0 {
        seq![
            ("query"@, "string"@, "Full-text query, e.g. `roadmap` or `tax invoice`."@),
            ("limit"@, "integer"@, "Maximum number of hits (1-100, default 20)."@),
        ]
    } else if i == 1 || i == 6 {
        seq![note]
    } else if i == 2 {
        seq![note, ("content"@, "string"@, "The complete new markdown content of the note."@)]
    } else if i == 3 {
        seq![note, ("content"@, "string"@, "Markdown to add at the end of the note."@)]
    } else if i == 4 {
        seq![
            (
                "folder"@,
                "string"@,
                "Vault-relative folder to list, e.g. `Projects`. Omit for the whole vault."@,
            ),
        ]
    } else if i == 5 {
        seq![("date"@, "string"@, "Calendar date as YYYY-MM-DD. Defaults to today."@)]
    } else {
        Seq::empty()
    }
}

/// A member of `properties` describing argument `p`: its name, type and description.
pub open spec fn prop_is(e: (String, Json), p: PropView) -> bool {
    &&& e.0@ == p.0
    &&& json_str(json_get(e.1, "type"@)) == Some(p.1)
    &&& json_str(json_get(e.1, "description"@)) == Some(p.2)
}

/// `properties` describes exactly these arguments, in this order.
pub open spec fn props_are(j: Option<Json>, ps: Seq<PropView>) -> bool {
    match j {
        Some(Json::Object(m)) => m@.len() == ps.len() && forall|k: int|
            0 <= k < ps.len() ==> #[trigger] prop_is(m@[k], ps[k]),
        _ => false,
    }
}

/// A number member with this text.
pub open spec fn num_member(j: Json, key: Seq<char>, n: Seq<char>) -> bool {
    json_get(j, key) matches Some(Json::Number(t)) && t@ == n
}

/// The extra constraints of one argument of a tool: `limit` lies in 1 to 100, `date` has the
/// shape of an ISO date.
pub open spec fn prop_extras(i: int, props: Option<Json>) -> bool {
    match props {
        Some(Json::Object(m)) => (i == 0 ==> m@.len() == 2 && num_member(m@[1].1, "minimum"@, "1"@)
            && num_member(m@[1].1, "maximum"@, "100"@)) && (i == 5 ==> m@.len() == 1 && json_str(
            json_get(m@[0].1, "pattern"@),
        ) == Some("^\\d{4}-\\d{2}-\\d{2}$"@)),
        _ => false,
    }
}

/// An input schema: an object, closed to other properties, with these arguments, requiring
/// these.
pub open spec fn object_schema(sch: Json, props: Seq<PropView>, required: Seq<Seq<char>>) -> bool {
    &&& json_str(json_get(sch, "type"@)) == Some("object"@)
    &&& props_are(json_get(sch, "properties"@), props)
    &&& json_get(sch, "additionalProperties"@) == Some(Json::Bool(false))
    &&& str_array(json_get(sch, "required"@), required)
}

/// A tool's entry: its name, its description, and an input schema with its arguments.
pub open spec fn tool_entry(j: Json, i: int) -> bool {
    &&& json_str(json_get(j, "name"@)) == Some(tool_names()[i])
    &&& json_str(json_get(j, "description"@)) == Some(tool_descriptions()[i])
    &&& match json_get(j, "inputSchema"@) {
        Some(sch) => object_schema(sch, tool_props(i), tool_required(i)) && prop_extras(
            i,
            json_get(sch, "properties"@),
        ),
        None => false,
    }
}

/// The texts of string slices.
pub open spec fn strs(v: Seq<&str>) -> Seq<Seq<char>> {
    v.map_values(|s: &str| s@)
}

/// A property of a schema: its type and description, and more members when given.
fn prop(name: &str, ty: &str, description: &str, more: Vec<(String, Json)>) -> (r: (String, Json))
    ensures
        prop_is(r, (name@, ty@, description@)),
        r.1 matches Json::Object(m) && m@.len() == 2 + more@.len() && m@[0].0@ == "type"@ && m@[1].0@
            == "description"@ && forall|k: int| 0 <= k < more@.len() ==> m@[2 + k] == #[trigger] more@[k],
{
    let ghost more0 = more@;
    let mut m = vec![("type".to_owned(), jstr(ty)), ("description".to_owned(), jstr(description))];
    let mut more = more;
    m.append(&mut more);
    proof {
        reveal_strlit("type");
        reveal_strlit("description");
        assert("type"@.len() != "description"@.len());
        lemma_entries_get_at(m@, "type"@, 0);
        lemma_entries_get_at(m@, "description"@, 1);
        assert forall|k: int| 0 <= k < more0.len() implies m@[2 + k] == #[trigger] more0[k] by {}
    }
    (name.to_owned(), Json::Object(m))
}

fn names(required: &[&str]) -> (r: Json)
    ensures
        str_array(Some(r), strs(required@)),
{
    let mut a: Vec<Json> = Vec::new();
    let mut i: usize = 0;
    while i < required.len()
        invariant
            i <= required@.len(),
            a@.len() == i,
            forall|k: int| 0 <= k < i ==> is_str(#[trigger] a@[k], required@[k]@),
        decreases required@.len() - i,
    {
        a.push(jstr(required[i]));
        i += 1;
    }
    let r = Json::Array(a);
    proof {
        assert forall|k: int| 0 <= k < a@.len() implies is_str(#[trigger] a@[k], strs(required@)[k]) by {}
    }
    r
}

/// An input schema: an object with these properties, these required, no others allowed.
fn schema(props: Vec<(String, Json)>, required: &[&str], Ghost(ps): Ghost<Seq<PropView>>) -> (r: Json)
    requires
        props@.len() == ps.len(),
        forall|k: int| 0 <= k < ps.len() ==> #[trigger] prop_is(props@[k], ps[k]),
    ensures
        object_schema(r, ps, strs(required@)),
        json_get(r, "properties"@) == Some(Json::Object(props)),
{
    let req = names(required);
    let m = vec![
        ("type".to_owned(), jstr("object")),
        ("properties".to_owned(), Json::Object(props)),
        ("required".to_owned(), req),
        ("additionalProperties".to_owned(), Json::Bool(false)),
    ];
    let r = Json::Object(m);
    proof {
        reveal_strlit("type");
        reveal_strlit("properties");
        reveal_strlit("required");
        reveal_strlit("additionalProperties");
        let s = m@;
        assert("type"@.len() != "required"@.len());
        assert("properties"@.len() != "required"@.len());
        assert("type"@.len() != "additionalProperties"@.len());
        assert("properties"@.len() != "additionalProperties"@.len());
        assert("required"@.len() != "additionalProperties"@.len());
        lemma_entries_get_at(s, "type"@, 0);
        lemma_entries_get_at(s, "properties"@, 1);
        lemma_entries_get_at(s, "required"@, 2);
        lemma_entries_get_at(s, "additionalProperties"@, 3);
    }
    r
}

/// A tool's catalogue entry.
fn tool(name: &str, description: &str, input_schema: Json) -> (r: Json)
    ensures
        json_str(json_get(r, "name"@)) == Some(name@),
        json_str(json_get(r, "description"@)) == Some(description@),
        json_get(r, "inputSchema"@) == Some(input_schema),
{
    let m = vec![
        ("name".to_owned(), jstr(name)),
        ("description".to_owned(), jstr(description)),
        ("inputSchema".to_owned(), input_schema),
    ];
    let r = Json::Object(m);
    proof {
        reveal_strlit("name");
        reveal_strlit("description");
        reveal_strlit("inputSchema");
        let s = m@;
        assert("name"@.len() != "inputSchema"@.len());
        assert("name"@.len() != "description"@.len());
        assert("description"@[0] != "inputSchema"@[0]);
        lemma_entries_get_at(s, "name"@, 0);
        lemma_entries_get_at(s, "description"@, 1);
        lemma_entries_get_at(s, "inputSchema"@, 2);
    }
    r
}

/// How the tools that take a note describe it.
pub const NOTE_REF: &'static str = "The note, either its vault-relative path (`Projects/plan.md`, the `.md` optional) or its ULID.";

/// The eight tools, in the order they are listed.
pub fn tools() -> (r: Vec<Json>)
    ensures
        r@.len() == 8,
        forall|i: int| 0 <= i < 8 ==> tool_entry(#[trigger] r@[i], i),
        forall|i: int| 0 <= i < 8 ==> (#[trigger] tool_descriptions()[i]).len() > 20,
{
    let mut out: Vec<Json> = Vec::new();
    let limit_more = vec![
        ("minimum".to_owned(), Json::Number("1".to_owned())),
        ("maximum".to_owned(), Json::Number("100".to_owned())),
    ];
    let query = prop("query", "string", "Full-text query, e.g. `roadmap` or `tax invoice`.", Vec::new());
    let limit = prop("limit", "integer", "Maximum number of hits (1-100, default 20).", limit_more);
    proof {
        reveal_strlit("type");
        reveal_strlit("description");
        reveal_strlit("minimum");
        reveal_strlit("maximum");
        reveal_strlit("1");
        reveal_strlit("100");
        let lm = limit.1->Object_0@;
        assert("type"@.len() != "minimum"@.len());
        assert("description"@.len() != "minimum"@.len());
        assert("type"@[0] != "maximum"@[0]);
        assert("description"@.len() != "maximum"@.len());
        assert("minimum"@[1] != "maximum"@[1]);
        assert(lm[2] == limit_more@[0]);
        assert(lm[3] == limit_more@[1]);
        lemma_entries_get_at(lm, "minimum"@, 2);
        lemma_entries_get_at(lm, "maximum"@, 3);
    }
    let s0 = schema(vec![query, limit], &["query"], Ghost(tool_props(0)));
    out.push(
        tool(
            "search_notes",
            "Full-text search across the vault. Returns the matching notes' paths, ids, and a snippet each. Use it to find notes before reading them.",
            s0,
        ),
    );
    let s1 = schema(vec![prop("path_or_id", "string", NOTE_REF, Vec::new())], &["path_or_id"], Ghost(tool_props(1)));
    out.push(tool("read_note", "Read one note's full markdown source, front matter included.", s1));
    let s2 = schema(
        vec![
            prop("path_or_id", "string", NOTE_REF, Vec::new()),
            prop("content", "string", "The complete new markdown content of the note.", Vec::new()),
        ],
        &["path_or_id", "content"],
        Ghost(tool_props(2)),
    );
    out.push(
        tool(
            "write_note",
            "Replace a note's entire content, creating the note when the path does not exist yet. The server applies the new text as a diff, so concurrent editors are merged rather than clobbered. To add to a note without resending it, use `append_to_note`.",
            s2,
        ),
    );
    let s3 = schema(
        vec![
            prop("path_or_id", "string", NOTE_REF, Vec::new()),
            prop("content", "string", "Markdown to add at the end of the note.", Vec::new()),
        ],
        &["path_or_id", "content"],
        Ghost(tool_props(3)),
    );
    out.push(
        tool(
            "append_to_note",
            "Append markdown to the end of a note, keeping what is already there (a newline is inserted if needed). Creates the note when the path does not exist yet.",
            s3,
        ),
    );
    let s4 = schema(
        vec![
            prop(
                "folder",
                "string",
                "Vault-relative folder to list, e.g. `Projects`. Omit for the whole vault.",
                Vec::new(),
            ),
        ],
        &[],
        Ghost(tool_props(4)),
    );
    out.push(
        tool(
            "list_notes",
            "List the notes in the vault as `path (id)` lines, optionally only those in one folder.",
            s4,
        ),
    );
    let date_more = vec![("pattern".to_owned(), jstr("^\\d{4}-\\d{2}-\\d{2}$"))];
    let date = prop("date", "string", "Calendar date as YYYY-MM-DD. Defaults to today.", date_more);
    proof {
        reveal_strlit("pattern");
        let dm = date.1->Object_0@;
        assert("type"@.len() != "pattern"@.len());
        assert("description"@.len() != "pattern"@.len());
        assert(dm[2] == date_more@[0]);
        lemma_entries_get_at(dm, "pattern"@, 2);
    }
    let s5 = schema(vec![date], &[], Ghost(tool_props(5)));
    out.push(
        tool(
            "get_daily_note",
            "Get the daily note for a date (today by default), creating `Daily/<date>.md` if it does not exist yet. Returns its markdown content.",
            s5,
        ),
    );
    let s6 = schema(vec![prop("path_or_id", "string", NOTE_REF, Vec::new())], &["path_or_id"], Ghost(tool_props(6)));
    out.push(
        tool(
            "get_backlinks",
            "List the notes that link to a note ([[wikilinks]] and markdown links alike).",
            s6,
        ),
    );
    let s7 = schema(Vec::new(), &[], Ghost(tool_props(7)));
    out.push(
        tool(
            "list_tags",
            "List every tag used in the vault with how many notes carry it, most used first.",
            s7,
        ),
    );
    proof {
        reveal_strlit("search_notes");
        reveal_strlit("Full-text search across the vault. Returns the matching notes' paths, ids, and a snippet each. Use it to find notes before reading them.");
        reveal_strlit("Read one note's full markdown source, front matter included.");
        reveal_strlit("Replace a note's entire content, creating the note when the path does not exist yet. The server applies the new text as a diff, so concurrent editors are merged rather than clobbered. To add to a note without resending it, use `append_to_note`.");
        reveal_strlit("Append markdown to the end of a note, keeping what is already there (a newline is inserted if needed). Creates the note when the path does not exist yet.");
        reveal_strlit("List the notes in the vault as `path (id)` lines, optionally only those in one folder.");
        reveal_strlit("Get the daily note for a date (today by default), creating `Daily/<date>.md` if it does not exist yet. Returns its markdown content.");
        reveal_strlit("List the notes that link to a note ([[wikilinks]] and markdown links alike).");
        reveal_strlit("List every tag used in the vault with how many notes carry it, most used first.");
        assert forall|i: int| 0 <= i < 8 implies tool_entry(#[trigger] out@[i], i) by {
            assert(tool_names()[i] == tool_names()[i]);
        }
    }
    out
}

// ---- Calling a tool --------------------------------------------------------------------------

/// What a tool call asks of the server.
#[derive(Debug, Clone, PartialEq, Eq)]
pub enum ToolCall {
    Search { query: String, limit: u32 },
    Read(String),
    Write { target: String, content: String },
    Append { target: String, content: String },
    /// The notes, in one folder when one is given.
    List(Option<String>),
    /// The daily note of a date; `None` for today.
    Daily(Option<String>),
    Backlinks(String),
    Tags,
}

/// `missing required argument "<key>"`.
pub open spec fn missing_message(key: Seq<char>) -> Seq<char> {
    "missing required argument "@ + str_debug(key)
}

/// A required text argument: trimmed, and not blank.
pub open spec fn str_arg_spec(args: Json, key: Seq<char>) -> Result<Seq<char>, Seq<char>> {
    match json_str(json_get(args, key)) {
        Some(s) => if trim(s).len() > 0 {
            Ok(trim(s))
        } else {
            Err(missing_message(key))
        },
        None => Err(missing_message(key)),
    }
}

/// An optional text argument, empty when absent.
pub open spec fn text_arg(args: Json, key: Seq<char>) -> Seq<char> {
    match json_str(json_get(args, key)) {
        Some(s) => s,
        None => Seq::empty(),
    }
}

/// The search limit: the number given, else 20, kept within 1 to 100.
pub open spec fn limit_arg(args: Json) -> u32 {
    let n = match json_u64(json_get(args, "limit"@)) {
        Some(v) => v as int,
        None => 20,
    };
    if n < 1 {
        1
    } else if n > 100 {
        100
    } else {
        n as u32
    }
}

/// The folder to list: trimmed, without surrounding slashes, `None` when nothing is left.
pub open spec fn folder_arg(args: Json) -> Option<Seq<char>> {
    match json_str(json_get(args, "folder"@)) {
        Some(f) => {
            let g = trim_end_pat(trim_start_pat(trim(f), "/"@), "/"@);
            if g.len() > 0 {
                Some(g)
            } else {
                None
            }
        },
        None => None,
    }
}

/// The date asked for, trimmed; `None` when absent or blank.
pub open spec fn date_arg(args: Json) -> Option<Seq<char>> {
    match json_str(json_get(args, "date"@)) {
        Some(d) => if trim(d).len() > 0 {
            Some(trim(d))
        } else {
            None
        },
        None => None,
    }
}

/// `date must be YYYY-MM-DD (got "<date>")`.
pub open spec fn bad_date_message(d: Seq<char>) -> Seq<char> {
    "date must be YYYY-MM-DD (got "@ + str_debug(d) + ")"@
}

/// A planned call reads its arguments as the tool does.
pub open spec fn planned(name: Seq<char>, args: Json, r: Result<ToolCall, String>) -> bool {
    if name == "search_notes"@ {
        match str_arg_spec(args, "query"@) {
            Ok(q) => r matches Ok(ToolCall::Search { query, limit }) && query@ == q && limit == limit_arg(args),
            Err(m) => r matches Err(e) && e@ == m,
        }
    } else if name == "read_note"@ || name == "get_backlinks"@ {
        match str_arg_spec(args, "path_or_id"@) {
            Ok(t) => if name == "read_note"@ {
                r matches Ok(ToolCall::Read(x)) && x@ == t
            } else {
                r matches Ok(ToolCall::Backlinks(x)) && x@ == t
            },
            Err(m) => r matches Err(e) && e@ == m,
        }
    } else if name == "write_note"@ || name == "append_to_note"@ {
        match str_arg_spec(args, "path_or_id"@) {
            Ok(t) => if name == "write_note"@ {
                r matches Ok(ToolCall::Write { target, content }) && target@ == t && content@ == text_arg(
                    args,
                    "content"@,
                )
            } else {
                r matches Ok(ToolCall::Append { target, content }) && target@ == t && content@ == text_arg(
                    args,
                    "content"@,
                )
            },
            Err(m) => r matches Err(e) && e@ == m,
        }
    } else if name == "list_notes"@ {
        r matches Ok(ToolCall::List(f)) && crate::remote::opt_view(f) == folder_arg(args)
    } else if name == "get_daily_note"@ {
        match date_arg(args) {
            Some(d) => if valid_date_spec(d) {
                r matches Ok(ToolCall::Daily(Some(x))) && x@ == d
            } else {
                r matches Err(e) && e@ == bad_date_message(d)
            },
            None => r == Ok::<ToolCall, String>(ToolCall::Daily(None)),
        }
    } else if name == "list_tags"@ {
        r == Ok::<ToolCall, String>(ToolCall::Tags)
    } else {
        r matches Err(e) && e@ == "unknown tool: "@ + name
    }
}

fn str_arg(args: &Json, key: &str) -> (r: Result<String, String>)
    ensures
        match str_arg_spec(*args, key@) {
            Ok(s) => r matches Ok(x) && x@ == s,
            Err(m) => r matches Err(e) && e@ == m,
        },
{
    match get_member(args, key) {
        Some(Json::Str(s)) => {
            let t = trim_exec(&chars_of(s.as_str()));
            if t.len() > 0 {
                return Ok(string_of(&t));
            }
        },
        _ => {},
    }
    Err(join_strs("missing required argument ", debug_quoted(key).as_str()))
}

fn text_arg_exec(args: &Json, key: &str) -> (r: String)
    ensures
        r@ == text_arg(*args, key@),
{
    match get_member(args, key) {
        Some(Json::Str(s)) => s.as_str().to_owned(),
        _ => String::new(),
    }
}

fn limit_arg_exec(args: &Json) -> (r: u32)
    ensures
        r == limit_arg(*args),
{
    let n: u64 = match get_member(args, "limit") {
        Some(Json::Number(t)) => match digits_value_exec(&chars_of(t.as_str())) {
            Some(v) => v,
            None => 20,
        },
        _ => 20,
    };
    if n < 1 {
        1
    } else if n > 100 {
        100
    } else {
        n as u32
    }
}

/// Read a tool's arguments into the call it asks for, refusing what the tool would refuse.
pub fn plan_tool(name: &str, args: &Json) -> (r: Result<ToolCall, String>)
    ensures
        planned(name@, *args, r),
{
    let n = chars_of(name);
    let is = |s: &str| -> (b: bool)
        ensures
            b == (n@ == s@),
        { crate::text::eq(&n, &chars_of(s)) };
    if is("search_notes") {
        match str_arg(args, "query") {
            Ok(q) => Ok(ToolCall::Search { query: q, limit: limit_arg_exec(args) }),
            Err(e) => Err(e),
        }
    } else if is("read_note") || is("get_backlinks") {
        match str_arg(args, "path_or_id") {
            Ok(t) => if is("read_note") {
                Ok(ToolCall::Read(t))
            } else {
                Ok(ToolCall::Backlinks(t))
            },
            Err(e) => Err(e),
        }
    } else if is("write_note") || is("append_to_note") {
        match str_arg(args, "path_or_id") {
            Ok(t) => {
                let content = text_arg_exec(args, "content");
                if is("write_note") {
                    Ok(ToolCall::Write { target: t, content })
                } else {
                    Ok(ToolCall::Append { target: t, content })
                }
            },
            Err(e) => Err(e),
        }
    } else if is("list_notes") {
        let folder = match get_member(args, "folder") {
            Some(Json::Str(f)) => {
                let g = trim_end_pat_exec(
                    &trim_start_pat_exec(&trim_exec(&chars_of(f.as_str())), &chars_of("/")),
                    &chars_of("/"),
                );
                if g.len() > 0 {
                    Some(string_of(&g))
                } else {
                    None
                }
            },
            _ => None,
        };
        Ok(ToolCall::List(folder))
    } else if is("get_daily_note") {
        let date = match get_member(args, "date") {
            Some(Json::Str(d)) => {
                let t = trim_exec(&chars_of(d.as_str()));
                if t.len() > 0 {
                    Some(string_of(&t))
                } else {
                    None
                }
            },
            _ => None,
        };
        match date {
            Some(d) => if valid_date(d.as_str()) {
                Ok(ToolCall::Daily(Some(d)))
            } else {
                let a = join_strs("date must be YYYY-MM-DD (got ", debug_quoted(d.as_str()).as_str());
                Err(join_strs(a.as_str(), ")"))
            },
            None => Ok(ToolCall::Daily(None)),
        }
    } else if is("list_tags") {
        Ok(ToolCall::Tags)
    } else {
        Err(join_strs("unknown tool: ", name))
    }
}

/// `tools/call`'s parameters: the tool's name (one of the eight) and its arguments (an empty
/// object when none are given), or the JSON-RPC error for a missing or unknown name.
pub fn tool_request(params: &Json) -> (r: Result<(String, Json), (i64, String)>)
    ensures
        match json_str(json_get(*params, "name"@)) {
            None => r matches Err((c, m)) && c == -32602 && m@ == "tools/call needs a tool name"@,
            Some(n) => if tool_names().contains(n) {
                r matches Ok((name, args)) && name@ == n && match json_get(*params, "arguments"@) {
                    Some(a) => same_json(args, a),
                    None => args matches Json::Object(e) && e@.len() == 0,
                }
            } else {
                r matches Err((c, m)) && c == -32602 && m@ == "unknown tool: "@ + n
            },
        },
{
    let name = match get_member(params, "name") {
        Some(Json::Str(n)) => n,
        _ => return Err((-32602, "tools/call needs a tool name".to_owned())),
    };
    let c = chars_of(name.as_str());
    let known = [
        "search_notes",
        "read_note",
        "write_note",
        "append_to_note",
        "list_notes",
        "get_daily_note",
        "get_backlinks",
        "list_tags",
    ];
    let mut i: usize = 0;
    let mut found = false;
    while i < 8
        invariant
            i <= 8,
            c@ == name@,
            known@.len() == 8,
            forall|k: int| 0 <= k < 8 ==> (#[trigger] known@[k])@ == tool_names()[k],
            found == exists|k: int| 0 <= k < i && tool_names()[k] == name@,
        decreases 8 - i,
    {
        if crate::text::eq(&chars_of(known[i]), &c) {
            found = true;
        }
        i += 1;
    }
    proof {
        assert(tool_names().contains(name@) == exists|k: int| 0 <= k < 8 && tool_names()[k] == name@);
    }
    if !found {
        return Err((-32602, join_strs("unknown tool: ", name.as_str())));
    }
    let args = match get_member(params, "arguments") {
        Some(a) => json_copy(a),
        None => Json::Object(Vec::new()),
    };
    Ok((name.as_str().to_owned(), args))
}

// ---- What the tools answer -------------------------------------------------------------------

/// `- <path> (<id>)\n` for each note.
pub open spec fn note_lines(ns: Seq<NoteSummary>) -> Seq<char>
    decreases ns.len(),
{
    if ns.len() == 0 {
        Seq::empty()
    } else {
        note_lines(ns.drop_last()) + "- "@ + ns.last().path@ + " ("@ + ns.last().id@ + ")\n"@
    }
}

fn note_lines_exec(ns: &Vec<NoteSummary>) -> (r: Vec<char>)
    ensures
        r@ == note_lines(ns@),
{
    let mut out: Vec<char> = Vec::new();
    let mut i: usize = 0;
    while i < ns.len()
        invariant
            i <= ns@.len(),
            out@ == note_lines(ns@.take(i as int)),
        decreases ns@.len() - i,
    {
        proof {
            assert(ns@.take(i + 1).drop_last() =~= ns@.take(i as int));
            assert(ns@.take(i + 1).last() == ns@[i as int]);
        }
        crate::text::append(&mut out, &chars_of("- "));
        crate::text::append(&mut out, &chars_of(ns[i].path.as_str()));
        crate::text::append(&mut out, &chars_of(" ("));
        crate::text::append(&mut out, &chars_of(ns[i].id.as_str()));
        crate::text::append(&mut out, &chars_of(")\n"));
        i += 1;
    }
    proof {
        assert(ns@.take(ns@.len() as int) =~= ns@);
    }
    out
}

/// Note `a` sorts no later than note `b` by path.
pub open spec fn path_le(a: NoteSummary, b: NoteSummary) -> bool {
    !text_lt(b.path@, a.path@)
}

/// Notes in path order.
pub open spec fn sorted_by_path(ns: Seq<NoteSummary>) -> bool {
    forall|i: int, j: int| 0 <= i < j < ns.len() ==> path_le(#[trigger] ns[i], #[trigger] ns[j])
}

/// The notes in path order (equal paths keep their order).
pub fn sort_by_path(v: Vec<NoteSummary>) -> (r: Vec<NoteSummary>)
    ensures
        r@.to_multiset() == v@.to_multiset(),
        sorted_by_path(r@),
{
    let mut out: Vec<NoteSummary> = Vec::new();
    let mut i: usize = 0;
    let n = v.len();
    let mut src = v;
    let ghost orig = src@;
    proof {
        assert(orig.take(0) =~= Seq::<NoteSummary>::empty());
        assert(orig.skip(0) =~= orig);
    }
    while i < n
        invariant
            i <= n == orig.len(),
            src@ == orig.skip(i as int),
            out@.to_multiset() == orig.take(i as int).to_multiset(),
            sorted_by_path(out@),
        decreases n - i,
    {
        proof {
            assert(src@[0] == orig[i as int]);
        }
        let x = src.remove(0);
        proof {
            assert(src@ =~= orig.skip(i + 1));
        }
        let px = chars_of(x.path.as_str());
        let mut p: usize = 0;
        while p < out.len() && !text_less(&px, &chars_of(out[p].path.as_str()))
            invariant
                p <= out@.len(),
                px@ == x.path@,
                forall|k: int| 0 <= k < p ==> !text_lt(x.path@, (#[trigger] out@[k]).path@),
            decreases out@.len() - p,
        {
            p += 1;
        }
        let ghost before = out@;
        proof {
            assert forall|k: int| p <= k < before.len() implies !text_lt((#[trigger] before[k]).path@, x.path@) by {
                if text_lt(before[k].path@, x.path@) {
                    assert(p < before.len());
                    assert(text_lt(x.path@, before[p as int].path@));
                    lemma_text_lt_trans(before[k].path@, x.path@, before[p as int].path@);
                    if p < k {
                        assert(path_le(before[p as int], before[k]));
                    } else {
                        assert(k == p);
                        crate::remote::lemma_text_lt_asym(before[k].path@, x.path@);
                    }
                }
            }
        }
        out.insert(p, x);
        proof {
            let after = out@;
            assert(after =~= before.insert(p as int, x));
            assert forall|a: int, b: int| 0 <= a < b < after.len() implies path_le(#[trigger] after[a], #[trigger] after[b]) by {
                if b < p {
                    assert(after[a] == before[a] && after[b] == before[b]);
                } else if b == p {
                    assert(after[a] == before[a]);
                } else if a == p {
                    assert(after[b] == before[b - 1]);
                } else if a < p {
                    assert(after[a] == before[a] && after[b] == before[b - 1]);
                } else {
                    assert(after[a] == before[a - 1] && after[b] == before[b - 1]);
                }
            }
            vstd::seq_lib::to_multiset_insert(before, p as int, x);
            assert(orig.take(i + 1) =~= orig.take(i as int).push(orig[i as int]));
            vstd::seq_lib::to_multiset_build(orig.take(i as int), orig[i as int]);
            assert(x == orig[i as int]);
        }
        i += 1;
    }
    proof {
        assert(orig.take(n as int) =~= orig);
    }
    out
}

/// The notes under a folder (whose path starts with `<folder>/`), in their order.
pub open spec fn under_folder(ns: Seq<NoteSummary>, folder: Seq<char>) -> Seq<NoteSummary>
    decreases ns.len(),
{
    if ns.len() == 0 {
        Seq::empty()
    } else {
        under_folder(ns.drop_last(), folder) + if crate::text::starts_with(ns.last().path@, folder + "/"@) {
            seq![ns.last()]
        } else {
            Seq::empty()
        }
    }
}

fn under_folder_exec(ns: Vec<NoteSummary>, folder: &str) -> (r: Vec<NoteSummary>)
    ensures
        r@ == under_folder(ns@, folder@),
{
    let prefix = crate::text::concat(&chars_of(folder), &chars_of("/"));
    let ghost orig = ns@;
    let mut src = ns;
    let mut out: Vec<NoteSummary> = Vec::new();
    let mut i: usize = 0;
    let n = src.len();
    proof {
        assert(orig.skip(0) =~= orig);
    }
    while i < n
        invariant
            i <= n == orig.len(),
            prefix@ == folder@ + "/"@,
            src@ == orig.skip(i as int),
            out@ == under_folder(orig.take(i as int), folder@),
        decreases n - i,
    {
        proof {
            assert(src@[0] == orig[i as int]);
            assert(orig.take(i + 1).drop_last() =~= orig.take(i as int));
            assert(orig.take(i + 1).last() == orig[i as int]);
        }
        let x = src.remove(0);
        proof {
            assert(src@ =~= orig.skip(i + 1));
        }
        let ghost o0 = out@;
        if crate::text::starts_with_exec(&chars_of(x.path.as_str()), &prefix) {
            out.push(x);
            proof {
                assert(out@ =~= o0 + seq![orig[i as int]]);
            }
        } else {
            proof {
                assert(out@ =~= o0 + Seq::<NoteSummary>::empty());
            }
        }
        i += 1;
    }
    proof {
        assert(orig.take(n as int) =~= orig);
    }
    out
}

/// `list_notes`'s answer for these notes (all the vault's) and folder: the notes under the
/// folder in path order, one `- path (id)` line each.
pub fn list_text(notes: Vec<NoteSummary>, folder: Option<&str>) -> (r: String)
    ensures
        ({
            let chosen = match folder {
                Some(f) => under_folder(notes@, f@),
                None => notes@,
            };
            exists|sorted: Seq<NoteSummary>|
                sorted.to_multiset() == chosen.to_multiset() && sorted_by_path(sorted) && r@ == if sorted.len()
                    == 0 {
                    match folder {
                        Some(f) => "No notes under "@ + f@ + "/."@,
                        None => "This vault has no notes yet."@,
                    }
                } else {
                    fmt_int(sorted.len() as int, 0) + " note(s):\n"@ + note_lines(sorted)
                }
        }),
{
    let chosen = match folder {
        Some(f) => under_folder_exec(notes, f),
        None => notes,
    };
    let sorted = sort_by_path(chosen);
    proof {
        vstd::seq_lib::to_multiset_len(sorted@);
    }
    if sorted.len() == 0 {
        return match folder {
            Some(f) => join_strs(join_strs("No notes under ", f).as_str(), "/."),
            None => "This vault has no notes yet.".to_owned(),
        };
    }
    let head = join_strs(string_of(&fmt_u64(sorted.len() as u64)).as_str(), " note(s):\n");
    join_strs(head.as_str(), string_of(&note_lines_exec(&sorted)).as_str())
}

/// `get_backlinks`'s answer: the notes that link to `found`, as they came.
pub fn backlinks_text(found: &NoteSummary, links: &Vec<NoteSummary>) -> (r: String)
    ensures
        r@ == if links@.len() == 0 {
            "Nothing links to "@ + found.path@ + "."@
        } else {
            fmt_int(links@.len() as int, 0) + " note(s) link to "@ + found.path@ + ":\n"@ + note_lines(links@)
        },
{
    if links.len() == 0 {
        return join_strs(join_strs("Nothing links to ", found.path.as_str()).as_str(), ".");
    }
    let a = join_strs(string_of(&fmt_u64(links.len() as u64)).as_str(), " note(s) link to ");
    let b = join_strs(join_strs(a.as_str(), found.path.as_str()).as_str(), ":\n");
    join_strs(b.as_str(), string_of(&note_lines_exec(links)).as_str())
}

/// A tag sorts before another when more notes carry it, or as many and it comes first.
pub open spec fn tag_before(a: TagCount, b: TagCount) -> bool {
    a.count > b.count || (a.count == b.count && text_lt(a.tag@, b.tag@))
}

/// Tags most used first, then by name.
pub open spec fn sorted_tags(ts: Seq<TagCount>) -> bool {
    forall|i: int, j: int| 0 <= i < j < ts.len() ==> !tag_before(#[trigger] ts[j], #[trigger] ts[i])
}

proof fn lemma_tag_before_trans(a: TagCount, b: TagCount, c: TagCount)
    requires
        tag_before(a, b),
        tag_before(b, c),
    ensures
        tag_before(a, c),
{
    if a.count == b.count && b.count == c.count {
        lemma_text_lt_trans(a.tag@, b.tag@, c.tag@);
    }
}

proof fn lemma_tag_before_asym(a: TagCount, b: TagCount)
    requires
        tag_before(a, b),
    ensures
        !tag_before(b, a),
{
    if a.count == b.count {
        crate::remote::lemma_text_lt_asym(a.tag@, b.tag@);
    }
}

/// Tags most used first, then by name (equal ones keep their order).
pub fn sort_tags(v: Vec<TagCount>) -> (r: Vec<TagCount>)
    ensures
        r@.to_multiset() == v@.to_multiset(),
        sorted_tags(r@),
{
    let mut out: Vec<TagCount> = Vec::new();
    let mut i: usize = 0;
    let n = v.len();
    let mut src = v;
    let ghost orig = src@;
    proof {
        assert(orig.take(0) =~= Seq::<TagCount>::empty());
        assert(orig.skip(0) =~= orig);
    }
    while i < n
        invariant
            i <= n == orig.len(),
            src@ == orig.skip(i as int),
            out@.to_multiset() == orig.take(i as int).to_multiset(),
            sorted_tags(out@),
        decreases n - i,
    {
        proof {
            assert(src@[0] == orig[i as int]);
        }
        let x = src.remove(0);
        proof {
            assert(src@ =~= orig.skip(i + 1));
        }
        let xt = chars_of(x.tag.as_str());
        let mut p: usize = 0;
        while p < out.len() && !(x.count > out[p].count || (x.count == out[p].count && text_less(
            &xt,
            &chars_of(out[p].tag.as_str()),
        )))
            invariant
                p <= out@.len(),
                xt@ == x.tag@,
                forall|k: int| 0 <= k < p ==> !tag_before(x, #[trigger] out@[k]),
            decreases out@.len() - p,
        {
            p += 1;
        }
        let ghost before = out@;
        proof {
            assert forall|k: int| p <= k < before.len() implies !tag_before(#[trigger] before[k], x) by {
                if tag_before(before[k], x) {
                    assert(tag_before(x, before[p as int]));
                    lemma_tag_before_trans(before[k], x, before[p as int]);
                    if p < k {
                        assert(!tag_before(before[k], before[p as int]));
                    } else {
                        lemma_tag_before_asym(before[k], x);
                    }
                }
            }
        }
        out.insert(p, x);
        proof {
            let after = out@;
            assert(after =~= before.insert(p as int, x));
            assert forall|a: int, b: int| 0 <= a < b < after.len() implies !tag_before(#[trigger] after[b], #[trigger] after[a]) by {
                if b < p {
                    assert(after[a] == before[a] && after[b] == before[b]);
                } else if b == p {
                    assert(after[a] == before[a]);
                } else if a == p {
                    assert(after[b] == before[b - 1]);
                } else if a < p {
                    assert(after[a] == before[a] && after[b] == before[b - 1]);
                } else {
                    assert(after[a] == before[a - 1] && after[b] == before[b - 1]);
                }
            }
            vstd::seq_lib::to_multiset_insert(before, p as int, x);
            assert(orig.take(i + 1) =~= orig.take(i as int).push(orig[i as int]));
            vstd::seq_lib::to_multiset_build(orig.take(i as int), orig[i as int]);
        }
        i += 1;
    }
    proof {
        assert(orig.take(n as int) =~= orig);
    }
    out
}

/// `- #<tag> (<count>)\n` for each tag.
pub open spec fn tag_lines(ts: Seq<TagCount>) -> Seq<char>
    decreases ts.len(),
{
    if ts.len() == 0 {
        Seq::empty()
    } else {
        tag_lines(ts.drop_last()) + "- #"@ + ts.last().tag@ + " ("@ + fmt_int(ts.last().count as int, 0) + ")\n"@
    }
}

/// `list_tags`'s answer: the tags most used first.
pub fn tags_text(tags: Vec<TagCount>) -> (r: String)
    ensures
        tags@.len() == 0 ==> r@ == "This vault has no tags yet."@,
        tags@.len() > 0 ==> exists|sorted: Seq<TagCount>|
            sorted.to_multiset() == tags@.to_multiset() && sorted_tags(sorted) && r@ == fmt_int(
                sorted.len() as int,
                0,
            ) + " tag(s):\n"@ + tag_lines(sorted),
{
    if tags.len() == 0 {
        return "This vault has no tags yet.".to_owned();
    }
    let sorted = sort_tags(tags);
    proof {
        vstd::seq_lib::to_multiset_len(sorted@);
        vstd::seq_lib::to_multiset_len(tags@);
    }
    let mut out: Vec<char> = Vec::new();
    let mut i: usize = 0;
    while i < sorted.len()
        invariant
            i <= sorted@.len(),
            out@ == tag_lines(sorted@.take(i as int)),
        decreases sorted@.len() - i,
    {
        proof {
            assert(sorted@.take(i + 1).drop_last() =~= sorted@.take(i as int));
            assert(sorted@.take(i + 1).last() == sorted@[i as int]);
        }
        crate::text::append(&mut out, &chars_of("- #"));
        crate::text::append(&mut out, &chars_of(sorted[i].tag.as_str()));
        crate::text::append(&mut out, &chars_of(" ("));
        crate::text::append(&mut out, &fmt_u64(sorted[i].count as u64));
        crate::text::append(&mut out, &chars_of(")\n"));
        i += 1;
    }
    proof {
        assert(sorted@.take(sorted@.len() as int) =~= sorted@);
    }
    let head = join_strs(string_of(&fmt_u64(sorted.len() as u64)).as_str(), " tag(s):\n");
    join_strs(head.as_str(), string_of(&out).as_str())
}

/// The path of the note with an id, as a lookup table built from the listing keeps it (the
/// last note listed with that id).
pub open spec fn path_of(ns: Seq<NoteSummary>, id: Seq<char>) -> Option<Seq<char>>
    decreases ns.len(),
{
    if ns.len() == 0 {
        None
    } else if ns.last().id@ == id {
        Some(ns.last().path@)
    } else {
        path_of(ns.drop_last(), id)
    }
}

fn path_of_exec(ns: &Vec<NoteSummary>, id: &str) -> (r: Option<String>)
    ensures
        crate::remote::opt_view(r) == path_of(ns@, id@),
{
    let k = chars_of(id);
    let mut i = ns.len();
    proof {
        assert(ns@.take(ns@.len() as int) =~= ns@);
    }
    while i > 0
        invariant
            i <= ns@.len(),
            k@ == id@,
            path_of(ns@, id@) == path_of(ns@.take(i as int), id@),
        decreases i,
    {
        proof {
            assert(ns@.take(i as int).last() == ns@[i - 1]);
            assert(ns@.take(i as int).drop_last() =~= ns@.take(i - 1));
        }
        if crate::text::eq(&chars_of(ns[i - 1].id.as_str()), &k) {
            return Some(ns[i - 1].path.as_str().to_owned());
        }
        i -= 1;
    }
    proof {
        assert(ns@.take(0) =~= Seq::<NoteSummary>::empty());
    }
    None
}

/// One search hit's lines: where the note is, and its snippet on one line.
pub open spec fn hit_lines(hs: Seq<SearchHit>, ns: Seq<NoteSummary>) -> Seq<char>
    decreases hs.len(),
{
    if hs.len() == 0 {
        Seq::empty()
    } else {
        let h = hs.last();
        let path = match path_of(ns, h.note_id@) {
            Some(p) => p,
            None => h.note_id@,
        };
        hit_lines(hs.drop_last(), ns) + "- "@ + path + " ("@ + h.note_id@ + ")\n  "@ + trim(
            crate::text::replace(h.snippet@, seq!['\n'], seq![' ']),
        ) + "\n"@
    }
}

/// `search_notes`'s answer for a query, its hits, and the vault's listing.
pub fn search_text(query: &str, hits: &Vec<SearchHit>, notes: &Vec<NoteSummary>) -> (r: String)
    ensures
        r@ == if hits@.len() == 0 {
            "No notes match "@ + str_debug(query@) + "."@
        } else {
            fmt_int(hits@.len() as int, 0) + " note(s) match "@ + str_debug(query@) + ":\n"@ + hit_lines(hits@, notes@)
        },
{
    let q = debug_quoted(query);
    if hits.len() == 0 {
        return join_strs(join_strs("No notes match ", q.as_str()).as_str(), ".");
    }
    let mut out: Vec<char> = Vec::new();
    let nl = vec!['\n'];
    let sp = vec![' '];
    proof {
        assert(nl@ =~= seq!['\n']);
        assert(sp@ =~= seq![' ']);
    }
    let mut i: usize = 0;
    while i < hits.len()
        invariant
            i <= hits@.len(),
            nl@ == seq!['\n'],
            sp@ == seq![' '],
            out@ == hit_lines(hits@.take(i as int), notes@),
        decreases hits@.len() - i,
    {
        proof {
            assert(hits@.take(i + 1).drop_last() =~= hits@.take(i as int));
            assert(hits@.take(i + 1).last() == hits@[i as int]);
        }
        let h = &hits[i];
        let path = match path_of_exec(notes, h.note_id.as_str()) {
            Some(p) => p,
            None => h.note_id.as_str().to_owned(),
        };
        let snippet = trim_exec(&crate::text::replace_exec(&chars_of(h.snippet.as_str()), &nl, &sp));
        crate::text::append(&mut out, &chars_of("- "));
        crate::text::append(&mut out, &chars_of(path.as_str()));
        crate::text::append(&mut out, &chars_of(" ("));
        crate::text::append(&mut out, &chars_of(h.note_id.as_str()));
        crate::text::append(&mut out, &chars_of(")\n  "));
        crate::text::append(&mut out, &snippet);
        crate::text::append(&mut out, &chars_of("\n"));
        i += 1;
    }
    proof {
        assert(hits@.take(hits@.len() as int) =~= hits@);
    }
    let a = join_strs(string_of(&fmt_u64(hits.len() as u64)).as_str(), " note(s) match ");
    let b = join_strs(join_strs(a.as_str(), q.as_str()).as_str(), ":\n");
    join_strs(b.as_str(), string_of(&out).as_str())
}

/// A note's text with more added at its end: a newline first when the text does not end with
/// one, and one after the addition when it does not end with one.
pub open spec fn appended_spec(current: Seq<char>, addition: Seq<char>) -> Seq<char> {
    let t1 = if current.len() > 0 && !crate::text::ends_with(current, seq!['\n']) {
        current + seq!['\n']
    } else {
        current
    };
    let t2 = t1 + addition;
    if !crate::text::ends_with(t2, seq!['\n']) {
        t2 + seq!['\n']
    } else {
        t2
    }
}

/// `append_to_note`'s new text for a note.
pub fn appended(current: &str, addition: &str) -> (r: String)
    ensures
        r@ == appended_spec(current@, addition@),
{
    let nl = vec!['\n'];
    proof {
        assert(nl@ =~= seq!['\n']);
    }
    let mut t = chars_of(current);
    if t.len() > 0 && !crate::text::ends_with_exec(&t, &nl) {
        t.push('\n');
        proof {
            assert(t@ =~= current@ + seq!['\n']);
        }
    }
    crate::text::append(&mut t, &chars_of(addition));
    let ghost t2 = t@;
    if !crate::text::ends_with_exec(&t, &nl) {
        t.push('\n');
        proof {
            assert(t@ =~= t2 + seq!['\n']);
        }
    }
    string_of(&t)
}

/// Writing to an id that names no note of the vault is refused (a path creates the note).
pub fn create_refusal(target: &str) -> (r: Option<String>)
    ensures
        match r {
            Some(m) => ulid_decoded(target@) is Some && m@ == "no note with id "@ + target@ + " in this vault"@,
            None => ulid_decoded(target@) is None,
        },
{
    match crate::ids::NoteId::parse(target) {
        Ok(_) => Some(join_strs(join_strs("no note with id ", target).as_str(), " in this vault")),
        Err(_) => None,
    }
}

/// `Wrote <path> (<id>).`
pub fn wrote_text(note: &crate::remote::Note) -> (r: String)
    ensures
        r@ == "Wrote "@ + note.path@ + " ("@ + note.id@ + ")."@,
{
    let a = join_strs(join_strs("Wrote ", note.path.as_str()).as_str(), " (");
    join_strs(join_strs(a.as_str(), note.id.as_str()).as_str(), ").")
}

/// `Appended to <path> (<id>).`
pub fn appended_text(note: &crate::remote::Note) -> (r: String)
    ensures
        r@ == "Appended to "@ + note.path@ + " ("@ + note.id@ + ")."@,
{
    let a = join_strs(join_strs("Appended to ", note.path.as_str()).as_str(), " (");
    join_strs(join_strs(a.as_str(), note.id.as_str()).as_str(), ").")
}

// ---- Writing and appending, step by step -----------------------------------------------------

/// A write or an append to a note: the note asked for, the text, and which of the two.
pub struct NoteEdit {
    pub target: String,
    pub content: String,
    pub append: bool,
}

/// What the server last answered while an edit runs.
pub enum EditAnswer {
    /// Nothing was asked yet.
    Start,
    /// The lookup of the target: the note found, if any.
    Looked(Option<NoteSummary>),
    /// The current content of the note found.
    Current { id: String, content: String },
    /// The note as the server saved it.
    Saved(crate::remote::Note),
}

/// What to do next in an edit.
pub enum EditAction {
    /// Look the target up.
    Lookup(String),
    /// Read the content of the note with this id.
    ReadNote(String),
    /// Replace the note with this id by the text.
    Replace { id: String, text: String },
    /// Create a note at this path with the text.
    Create { path: String, text: String },
    /// Done: the tool's answer.
    Reply(String),
    /// Done: the tool's error.
    Refuse(String),
}

/// The view of an edit action, with texts as character sequences.
pub enum EditActionView {
    Lookup(Seq<char>),
    ReadNote(Seq<char>),
    Replace { id: Seq<char>, text: Seq<char> },
    Create { path: Seq<char>, text: Seq<char> },
    Reply(Seq<char>),
    Refuse(Seq<char>),
}

impl EditAction {
    pub open spec fn view(&self) -> EditActionView {
        match self {
            EditAction::Lookup(t) => EditActionView::Lookup(t@),
            EditAction::ReadNote(i) => EditActionView::ReadNote(i@),
            EditAction::Replace { id, text } => EditActionView::Replace { id: id@, text: text@ },
            EditAction::Create { path, text } => EditActionView::Create { path: path@, text: text@ },
            EditAction::Reply(t) => EditActionView::Reply(t@),
            EditAction::Refuse(m) => EditActionView::Refuse(m@),
        }
    }
}

/// Where a target that was not found goes: an id is refused (a note cannot be created under
/// an id), a path is created with the text as it was given.
pub open spec fn missing_target_step(target: Seq<char>, content: Seq<char>) -> EditActionView {
    if ulid_decoded(target) is Some {
        EditActionView::Refuse("no note with id "@ + target + " in this vault"@)
    } else {
        EditActionView::Create { path: target, text: content }
    }
}

/// The next step of an edit, given the server's last answer. A write replaces the note found
/// by the text; an append first reads the note found and replaces it by its content with the
/// text appended. Neither creates a note that was found. The answer names the saved note.
pub open spec fn edit_step_spec(target: Seq<char>, content: Seq<char>, append: bool, answer: EditAnswer) -> EditActionView {
    match answer {
        EditAnswer::Start => EditActionView::Lookup(target),
        EditAnswer::Looked(Some(f)) => if append {
            EditActionView::ReadNote(f.id@)
        } else {
            EditActionView::Replace { id: f.id@, text: content }
        },
        EditAnswer::Looked(None) => missing_target_step(target, content),
        EditAnswer::Current { id, content: current } => EditActionView::Replace {
            id: id@,
            text: if append {
                appended_spec(current@, content)
            } else {
                content
            },
        },
        EditAnswer::Saved(n) => EditActionView::Reply(
            if append {
                "Appended to "@
            } else {
                "Wrote "@
            } + n.path@ + " ("@ + n.id@ + ")."@,
        ),
    }
}

/// How many more answers an edit can need after this one.
pub open spec fn edit_answer_rank(a: EditAnswer) -> int {
    match a {
        EditAnswer::Start => 3,
        EditAnswer::Looked(_) => 2,
        EditAnswer::Current { .. } => 1,
        EditAnswer::Saved(_) => 0,
    }
}

/// The next step of an edit, given the server's last answer.
pub fn edit_step(edit: &NoteEdit, answer: &EditAnswer) -> (r: EditAction)
    ensures
        r@ == edit_step_spec(edit.target@, edit.content@, edit.append, *answer),
{
    match answer {
        EditAnswer::Start => EditAction::Lookup(edit.target.as_str().to_owned()),
        EditAnswer::Looked(Some(f)) => {
            if edit.append {
                EditAction::ReadNote(f.id.as_str().to_owned())
            } else {
                EditAction::Replace { id: f.id.as_str().to_owned(), text: edit.content.as_str().to_owned() }
            }
        },
        EditAnswer::Looked(None) => match create_refusal(edit.target.as_str()) {
            Some(m) => EditAction::Refuse(m),
            None => EditAction::Create {
                path: edit.target.as_str().to_owned(),
                text: edit.content.as_str().to_owned(),
            },
        },
        EditAnswer::Current { id, content } => {
            let text = if edit.append {
                appended(content.as_str(), edit.content.as_str())
            } else {
                edit.content.as_str().to_owned()
            };
            EditAction::Replace { id: id.as_str().to_owned(), text }
        },
        EditAnswer::Saved(n) => EditAction::Reply(
            if edit.append {
                appended_text(n)
            } else {
                wrote_text(n)
            },
        ),
    }
}

// ---- Resources -------------------------------------------------------------------------------

/// A note's resource URI: `note://<vault>/<encoded path>`.
pub open spec fn note_uri(vault: Seq<char>, path: Seq<char>) -> Seq<char> {
    "note://"@ + vault + "/"@ + encode_chars(encode_utf8(path))
}

/// A note's entry in `resources/list`: its URI, its title (else its path) as name, its path as
/// description, and the markdown media type.
/// `r` is the `resources/list` entry of note `n` of `vault`: its URI, its name (the title, or
/// else the path), its path as description and its MIME type.
pub open spec fn is_resource_entry(r: Json, vault: Seq<char>, n: NoteSummary) -> bool {
    match r {
        Json::Object(m) => m@.len() == 4 && m@[0].0@ == "uri"@ && is_str(m@[0].1, note_uri(vault, n.path@))
            && m@[1].0@ == "name"@ && is_str(
            m@[1].1,
            match n.title {
                Some(t) => t@,
                None => n.path@,
            },
        ) && m@[2].0@ == "description"@ && is_str(m@[2].1, n.path@) && m@[3].0@ == "mimeType"@ && is_str(
            m@[3].1,
            "text/markdown"@,
        ),
        _ => false,
    }
}

/// `j` is the `resources/list` answer for `notes`: one entry per note, in their order.
pub open spec fn is_resource_list(j: Json, vault: Seq<char>, notes: Seq<NoteSummary>) -> bool {
    match j {
        Json::Object(m) => m@.len() == 1 && m@[0].0@ == "resources"@ && match m@[0].1 {
            Json::Array(a) => a@.len() == notes.len() && forall|i: int|
                0 <= i < notes.len() ==> #[trigger] is_resource_entry(a@[i], vault, notes[i]),
            _ => false,
        },
        _ => false,
    }
}

pub fn resource_entry(vault: &str, n: &NoteSummary) -> (r: Json)
    ensures
        is_resource_entry(r, vault@, *n),
{
    let a = join_strs(join_strs("note://", vault).as_str(), "/");
    let uri = join_strs(a.as_str(), encode_path(n.path.as_str()).as_str());
    let name = match &n.title {
        Some(t) => t.as_str().to_owned(),
        None => n.path.as_str().to_owned(),
    };
    let m = vec![
        ("uri".to_owned(), Json::Str(uri)),
        ("name".to_owned(), Json::Str(name)),
        ("description".to_owned(), jstr(n.path.as_str())),
        ("mimeType".to_owned(), jstr("text/markdown")),
    ];
    Json::Object(m)
}

/// What a `note://` URI names, as its encoded path, when it is one of this vault's; else the
/// JSON-RPC error for it.
pub fn note_uri_path(uri: &str, vault: &str) -> (r: Result<String, (i64, String)>)
    ensures
        match crate::text::strip_prefix(uri@, "note://"@) {
            None => r matches Err((c, m)) && c == -32602 && m@ == "not a note:// uri: "@ + uri@,
            Some(rest) => match crate::markdown::split_once(rest, '/') {
                None => r matches Err((c, m)) && c == -32602 && m@ == "uri has no note path: "@ + uri@,
                Some((v, p)) => if v == vault@ {
                    r matches Ok(x) && x@ == p
                } else {
                    r matches Err((c, m)) && c == -32602 && m@ == "uri names vault "@ + v
                        + ", this server serves "@ + vault@
                },
            },
        },
{
    let u = chars_of(uri);
    let pre = chars_of("note://");
    if !crate::text::starts_with_exec(&u, &pre) {
        return Err((-32602, join_strs("not a note:// uri: ", uri)));
    }
    proof {
        assert(crate::text::is_at(u@, pre@, 0));
    }
    let rest = crate::text::slice(&u, pre.len(), u.len());
    proof {
        assert(rest@ =~= u@.skip(pre@.len() as int));
        crate::text::lemma_find(rest@, seq!['/']);
    }
    let slash = vec!['/'];
    proof {
        assert(slash@ =~= seq!['/']);
    }
    match crate::text::find_exec(&rest, &slash) {
        None => Err((-32602, join_strs("uri has no note path: ", uri))),
        Some(k) => {
            proof {
                assert(crate::text::is_at(rest@, seq!['/'], k as int));
            }
            let v = crate::text::slice(&rest, 0, k);
            let p = crate::text::slice(&rest, k + 1, rest.len());
            if crate::text::eq(&v, &chars_of(vault)) {
                Ok(string_of(&p))
            } else {
                let a = join_strs("uri names vault ", string_of(&v).as_str());
                let b = join_strs(a.as_str(), ", this server serves ");
                Err((-32602, join_strs(b.as_str(), vault)))
            }
        },
    }
}

// ---- The server ------------------------------------------------------------------------------

/// The version the server reports about itself.
pub const SERVER_VERSION: &'static str = "0.1.0";

/// The answer to `initialize`: the protocol revision to speak, the capabilities, and who is
/// answering.
pub fn initialize_result(asked: &str) -> (r: Json)
    ensures
        json_str(json_get(r, "protocolVersion"@)) == Some(
            if supported_protocols().contains(asked@) {
                asked@
            } else {
                DEFAULT_PROTOCOL@
            },
        ),
{
    let version = negotiate_protocol(asked);
    let caps = vec![
        ("tools".to_owned(), Json::Object(Vec::new())),
        ("resources".to_owned(), Json::Object(Vec::new())),
    ];
    let info = vec![("name".to_owned(), jstr("notes")), ("version".to_owned(), jstr(SERVER_VERSION))];
    let m = vec![
        ("protocolVersion".to_owned(), Json::Str(version)),
        ("capabilities".to_owned(), Json::Object(caps)),
        ("serverInfo".to_owned(), Json::Object(info)),
    ];
    let r = Json::Object(m);
    proof {
        lemma_entries_get_at(m@, "protocolVersion"@, 0);
    }
    r
}

/// One MCP session: a vault, and the server that holds it.
pub struct Server<'a, A: NotesApi> {
    api: &'a A,
    vault: String,
}

/// The JSON-RPC error for a failure outside a tool.
pub open spec fn internal_error(e: RemoteError) -> (i64, Seq<char>) {
    (
        -32603i64,
        match e {
            RemoteError::Http(h) => crate::remote::http_message(h),
            RemoteError::Other(m) => m@,
        },
    )
}

fn internal(e: RemoteError) -> (r: (i64, String))
    ensures
        r.0 == internal_error(e).0 && r.1@ == internal_error(e).1,
{
    (-32603, e.message())
}

impl<'a, A: NotesApi> Server<'a, A> {
    /// The vault this session serves.
    pub closed spec fn vault_view(&self) -> Seq<char> {
        self.vault@
    }

    pub fn new(api: &'a A, vault: String) -> (r: Self)
        ensures
            r.vault_view() == vault@,
    {
        Server { api, vault }
    }

    pub fn vault(&self) -> (r: &str)
        ensures
            r@ == self.vault_view(),
    {
        self.vault.as_str()
    }

    /// One line of input → the message to write back, or `None` when nothing is owed (blank
    /// lines, notifications). `today` is the date a daily note defaults to.
    pub fn handle_line(&self, line: &str, today: &str) -> (r: Option<Json>)
        ensures
            trim(line@).len() == 0 ==> r is None,
            trim(line@).len() > 0 && crate::json::json_document(trim(line@)) is None ==> (r matches Some(e)
                && rpc_error_code(e) == Some(fmt_int(-32700, 1))),
            trim(line@).len() > 0 ==> match crate::json::json_document(trim(line@)) {
                Some(d) => !(d is Array) ==> (envelope_kind(d) == 0 ==> r is None) && (envelope_kind(d) == 1 ==> (
                r matches Some(e) && rpc_error_code(e) == Some(fmt_int(-32600, 1)))) && (envelope_kind(d) == 2 ==> (
                r matches Some(a) && request_answered(self.vault_view(), d, a))),
                None => true,
            },
    {
        let t = string_of(&trim_exec(&chars_of(line)));
        if t.as_str().unicode_len() == 0 {
            return None;
        }
        match crate::json::parse_json(t.as_str()) {
            Ok(msg) => self.dispatch(&msg, today),
            Err(e) => Some(rpc_error(Json::Null, -32700, join_strs("parse error: ", e.as_str()))),
        }
    }

    /// Dispatch one message, or a batch of them: a batch is answered with the answers to its
    /// requests, nothing when it holds none, and an empty batch is an invalid request.
    pub fn dispatch(&self, msg: &Json, today: &str) -> (r: Option<Json>)
        ensures
            (msg matches Json::Array(b) && b@.len() == 0) ==> (r matches Some(e) && rpc_error_code(e) == Some(
                fmt_int(-32600, 1),
            )),
            !(msg is Array) ==> (envelope_kind(*msg) == 0 ==> r is None),
            !(msg is Array) && envelope_kind(*msg) == 1 ==> (r matches Some(e) && rpc_error_code(e) == Some(
                fmt_int(-32600, 1),
            )),
            !(msg is Array) && envelope_kind(*msg) == 2 ==> (r matches Some(a) && request_answered(
                self.vault_view(),
                *msg,
                a,
            )),
            (msg matches Json::Array(b) && b@.len() > 0) ==> if answered_count(msg->Array_0@) == 0 {
                r is None
            } else {
                r matches Some(Json::Array(a)) && a@.len() == answered_count(msg->Array_0@)
            },
    {
        match msg {
            Json::Array(batch) => {
                if batch.len() == 0 {
                    return Some(rpc_error(Json::Null, -32600, "invalid request: empty batch".to_owned()));
                }
                let mut out: Vec<Json> = Vec::new();
                let mut i: usize = 0;
                while i < batch.len()
                    invariant
                        i <= batch@.len(),
                        out@.len() == answered_count(batch@.take(i as int)),
                    decreases batch@.len() - i,
                {
                    proof {
                        assert(batch@.take(i + 1).drop_last() =~= batch@.take(i as int));
                    }
                    match self.dispatch_one(&batch[i], today) {
                        Some(v) => out.push(v),
                        None => {},
                    }
                    i += 1;
                }
                proof {
                    assert(batch@.take(batch@.len() as int) =~= batch@);
                }
                if out.len() == 0 {
                    None
                } else {
                    Some(Json::Array(out))
                }
            },
            _ => self.dispatch_one(msg, today),
        }
    }

    fn dispatch_one(&self, msg: &Json, today: &str) -> (r: Option<Json>)
        ensures
            envelope_kind(*msg) == 0 ==> r is None,
            envelope_kind(*msg) == 1 ==> (r matches Some(e) && rpc_error_code(e) == Some(fmt_int(-32600, 1))),
            envelope_kind(*msg) == 2 ==> (r matches Some(a) && request_answered(self.vault_view(), *msg, a)),
    {
        match envelope(msg) {
            Envelope::Ignore => None,
            Envelope::NoMethod { id } => Some(rpc_error(id, -32600, "invalid request: no method".to_owned())),
            Envelope::Request { id, method, params } => {
                let res = self.call(method.as_str(), &params, today);
                let ghost res0 = res;
                let a = match res {
                    Ok(v) => rpc_result(id, v),
                    Err((code, message)) => {
                        if code == i64::MIN {
                            rpc_error(id, -32603, message)
                        } else {
                            rpc_error(id, code, message)
                        }
                    },
                };
                proof {
                    assert(answers_request(self.vault_view(), *msg, a, id, params, res0));
                }
                Some(a)
            },
        }
    }

    /// The method table. `Err` is a JSON-RPC error; failures *inside* a tool are `Ok` results
    /// marked as errors, which is what MCP clients expect.
    fn call(&self, method: &str, params: &Json, today: &str) -> (r: Result<Json, (i64, String)>)
        ensures
            call_outcome(self.vault_view(), method@, *params, r),
    {
        match method_of(method) {
            Method::Initialize => {
                let asked = match get_member(params, "protocolVersion") {
                    Some(Json::Str(a)) => a.as_str().to_owned(),
                    _ => String::new(),
                };
                Ok(initialize_result(asked.as_str()))
            },
            Method::Ping => Ok(Json::Object(Vec::new())),
            Method::Notification => Ok(Json::Object(Vec::new())),
            Method::ToolsList => {
                let ts = tools();
                let m = vec![("tools".to_owned(), Json::Array(ts))];
                proof {
                    lemma_entries_get_at(m@, "tools"@, 0);
                }
                Ok(Json::Object(m))
            },
            Method::ToolsCall => self.tools_call(params, today),
            Method::ResourcesList => self.resources_list(),
            Method::ResourcesRead => self.resources_read(params),
            Method::Unknown => Err((-32601, join_strs("method not found: ", method))),
        }
    }

    fn tools_call(&self, params: &Json, today: &str) -> (r: Result<Json, (i64, String)>)
        ensures
            match json_str(json_get(*params, "name"@)) {
                None => r matches Err((c, m)) && c == -32602 && m@ == "tools/call needs a tool name"@,
                Some(n) => !tool_names().contains(n) ==> (r matches Err((c, m)) && c == -32602 && m@
                    == "unknown tool: "@ + n),
            },
    {
        let (name, args) = match tool_request(params) {
            Ok(x) => x,
            Err(e) => return Err(e),
        };
        Ok(
            match self.run_tool(name.as_str(), &args, today) {
                Ok(text) => text_result(text, false),
                Err(e) => text_result(e.message(), true),
            },
        )
    }

    /// Runs a write or an append: asks the server what each step of [`edit_step`] calls for,
    /// until the step answers or refuses.
    pub fn run_edit(&self, edit: NoteEdit) -> (r: Result<String, RemoteError>)
        ensures
            r matches Ok(t) ==> exists|n: crate::remote::Note|
                #[trigger] edit_step_spec(edit.target@, edit.content@, edit.append, EditAnswer::Saved(n))
                    == EditActionView::Reply(t@),
    {
        let v = self.vault.as_str();
        let mut answer = EditAnswer::Start;
        loop
            decreases edit_answer_rank(answer),
        {
            let ghost rank = edit_answer_rank(answer);
            let action = edit_step(&edit, &answer);
            match action {
                EditAction::Lookup(t) => {
                    answer = EditAnswer::Looked(lookup_note(self.api, v, t.as_str())?);
                },
                EditAction::ReadNote(id) => {
                    let n = self.api.note(v, id.as_str())?;
                    answer = EditAnswer::Current { id, content: n.content };
                },
                EditAction::Replace { id, text } => {
                    answer = EditAnswer::Saved(self.api.replace(v, id.as_str(), text.as_str())?);
                },
                EditAction::Create { path, text } => {
                    answer = EditAnswer::Saved(self.api.create(v, path.as_str(), text.as_str())?);
                },
                EditAction::Reply(t) => {
                    proof {
                        let n = answer->Saved_0;
                        assert(edit_step_spec(edit.target@, edit.content@, edit.append, EditAnswer::Saved(n))
                            == EditActionView::Reply(t@));
                    }
                    return Ok(t);
                },
                EditAction::Refuse(m) => {
                    return Err(RemoteError::Other(m));
                },
            }
            assert(edit_answer_rank(answer) < rank);
        }
    }

    /// Run one tool: its arguments are read by [`plan_tool`] (its refusals are the tool's
    /// errors), the server is asked, and the answer is written by the functions above.
    pub fn run_tool(&self, name: &str, args: &Json, today: &str) -> (r: Result<String, RemoteError>)
        ensures
            forall|p: Result<ToolCall, String>|
                planned(name@, *args, p) && p is Err ==> (r matches Err(RemoteError::Other(e)) && e@ == p->Err_0@),
            name@ == "write_note"@ && str_arg_spec(*args, "path_or_id"@) is Ok && r is Ok ==> exists|
                n: crate::remote::Note,
            |
                #[trigger] edit_step_spec(
                    str_arg_spec(*args, "path_or_id"@)->Ok_0,
                    text_arg(*args, "content"@),
                    false,
                    EditAnswer::Saved(n),
                ) == EditActionView::Reply(r->Ok_0@),
            name@ == "append_to_note"@ && str_arg_spec(*args, "path_or_id"@) is Ok && r is Ok ==> exists|
                n: crate::remote::Note,
            |
                #[trigger] edit_step_spec(
                    str_arg_spec(*args, "path_or_id"@)->Ok_0,
                    text_arg(*args, "content"@),
                    true,
                    EditAnswer::Saved(n),
                ) == EditActionView::Reply(r->Ok_0@),
            name@ == "get_daily_note"@ && date_arg(*args) is None && !valid_date_spec(today@) ==> (r matches Err(
                RemoteError::Other(e),
            ) && e@ == "date must be YYYY-MM-DD (got "@ + str_debug(today@) + ")"@),
    {
        proof {
            reveal_strlit("get_daily_note");
            reveal_strlit("search_notes");
            reveal_strlit("read_note");
            reveal_strlit("get_backlinks");
            reveal_strlit("write_note");
            reveal_strlit("append_to_note");
            reveal_strlit("list_notes");
            assert("get_daily_note"@.len() != "search_notes"@.len());
            assert("get_daily_note"@.len() != "read_note"@.len());
            assert("get_daily_note"@.len() != "get_backlinks"@.len());
            assert("get_daily_note"@.len() != "write_note"@.len());
            assert("get_daily_note"@[0] != "append_to_note"@[0]);
            assert("get_daily_note"@.len() != "list_notes"@.len());
            assert("append_to_note"@.len() != "search_notes"@.len());
            assert("append_to_note"@.len() != "read_note"@.len());
            assert("append_to_note"@.len() != "get_backlinks"@.len());
            assert("append_to_note"@.len() != "write_note"@.len());
            assert("write_note"@.len() != "search_notes"@.len());
            assert("write_note"@.len() != "read_note"@.len());
            assert("write_note"@.len() != "get_backlinks"@.len());
        }
        let v = self.vault.as_str();
        let call = match plan_tool(name, args) {
            Ok(c) => c,
            Err(m) => return Err(RemoteError::Other(m)),
        };
        match call {
            ToolCall::Search { query, limit } => {
                let hits = self.api.search(v, query.as_str(), limit)?;
                if hits.len() == 0 {
                    return Ok(search_text(query.as_str(), &hits, &Vec::new()));
                }
                let notes = self.api.notes(v)?;
                Ok(search_text(query.as_str(), &hits, &notes))
            },
            ToolCall::Read(target) => {
                let found = resolve_note(self.api, v, target.as_str())?;
                Ok(self.api.note(v, found.id.as_str())?.content)
            },
            ToolCall::Write { target, content } => self.run_edit(NoteEdit { target, content, append: false }),
            ToolCall::Append { target, content } => self.run_edit(NoteEdit { target, content, append: true }),
            ToolCall::List(folder) => {
                let notes = self.api.notes(v)?;
                Ok(
                    match &folder {
                        Some(f) => list_text(notes, Some(f.as_str())),
                        None => list_text(notes, None),
                    },
                )
            },
            ToolCall::Daily(date) => {
                let d = match date {
                    Some(d) => d,
                    None => {
                        if !valid_date(today) {
                            let a = join_strs("date must be YYYY-MM-DD (got ", debug_quoted(today).as_str());
                            return Err(RemoteError::Other(join_strs(a.as_str(), ")")));
                        }
                        today.to_owned()
                    },
                };
                Ok(self.api.daily(v, d.as_str())?.content)
            },
            ToolCall::Backlinks(target) => {
                let found = resolve_note(self.api, v, target.as_str())?;
                let links = self.api.backlinks(v, found.id.as_str())?;
                Ok(backlinks_text(&found, &links))
            },
            ToolCall::Tags => {
                let tags = self.api.tags(v)?;
                Ok(tags_text(tags))
            },
        }
    }

    fn resources_list(&self) -> (r: Result<Json, (i64, String)>)
        ensures
            match r {
                Ok(j) => exists|ns: Seq<NoteSummary>|
                    sorted_by_path(ns) && #[trigger] is_resource_list(j, self.vault_view(), ns),
                Err((c, _)) => c == -32603,
            },
    {
        let notes = match self.api.notes(self.vault.as_str()) {
            Ok(n) => sort_by_path(n),
            Err(e) => return Err(internal(e)),
        };
        let mut out: Vec<Json> = Vec::new();
        let mut i: usize = 0;
        while i < notes.len()
            invariant
                i <= notes@.len(),
                out@.len() == i,
                forall|k: int| 0 <= k < i ==> #[trigger] is_resource_entry(out@[k], self.vault@, notes@[k]),
            decreases notes@.len() - i,
        {
            out.push(resource_entry(self.vault.as_str(), &notes[i]));
            i += 1;
        }
        let r = Json::Object(vec![("resources".to_owned(), Json::Array(out))]);
        proof {
            assert(is_resource_list(r, self.vault_view(), notes@));
        }
        Ok(r)
    }

    fn resources_read(&self, params: &Json) -> (r: Result<Json, (i64, String)>)
        ensures
            json_str(json_get(*params, "uri"@)) is None ==> (r matches Err((c, m)) && c == -32602 && m@
                == "resources/read needs a uri"@),
    {
        let uri = match get_member(params, "uri") {
            Some(Json::Str(u)) => u,
            _ => return Err((-32602, "resources/read needs a uri".to_owned())),
        };
        let encoded = note_uri_path(uri.as_str(), self.vault.as_str())?;
        if !escapes_readable(encoded.as_str()) {
            return Err((-32602, join_strs("not a note:// uri: ", uri.as_str())));
        }
        let path = decode_path(encoded.as_str());
        let found = match resolve_note(self.api, self.vault.as_str(), path.as_str()) {
            Ok(f) => f,
            Err(e) => {
                if is_not_found(&e) {
                    return Err((-32002, join_strs("resource not found: ", uri.as_str())));
                }
                return Err(internal(e));
            },
        };
        let note = match self.api.note(self.vault.as_str(), found.id.as_str()) {
            Ok(n) => n,
            Err(e) => return Err(internal(e)),
        };
        let item = vec![
            ("uri".to_owned(), jstr(uri.as_str())),
            ("mimeType".to_owned(), jstr("text/markdown")),
            ("text".to_owned(), Json::Str(note.content)),
        ];
        Ok(Json::Object(vec![("contents".to_owned(), Json::Array(vec![Json::Object(item)]))]))
    }
}

/// The `tools/list` answer: the eight tools, as [`tools`] lists them.
pub open spec fn tools_listed(j: Json) -> bool {
    json_get(j, "tools"@) matches Some(Json::Array(a)) && a@.len() == 8 && forall|i: int|
        0 <= i < 8 ==> tool_entry(#[trigger] a@[i], i)
}

/// The protocol version an `initialize` asks for; empty when it names none.
pub open spec fn asked_protocol(params: Json) -> Seq<char> {
    match json_str(json_get(params, "protocolVersion"@)) {
        Some(a) => a,
        None => seq![],
    }
}

/// What a method of this vault's session answers: exactly, where the server's data does not
/// decide (initialize, ping, notifications, tools/list, an unknown method); for the others,
/// what the method itself states.
pub open spec fn call_outcome(vault: Seq<char>, method: Seq<char>, params: Json, r: Result<Json, (i64, String)>) -> bool {
    match method_spec(method) {
        Method::Unknown => r matches Err((c, m)) && c == -32601 && m@ == "method not found: "@ + method,
        Method::Ping => r matches Ok(Json::Object(e)) && e@.len() == 0,
        Method::Notification => r matches Ok(Json::Object(e)) && e@.len() == 0,
        Method::ToolsList => r matches Ok(j) && tools_listed(j),
        Method::Initialize => r matches Ok(j) && json_str(json_get(j, "protocolVersion"@)) == Some(
            if supported_protocols().contains(asked_protocol(params)) {
                asked_protocol(params)
            } else {
                DEFAULT_PROTOCOL@
            },
        ),
        Method::ToolsCall => match json_str(json_get(params, "name"@)) {
            None => r matches Err((c, m)) && c == -32602 && m@ == "tools/call needs a tool name"@,
            Some(n) => !tool_names().contains(n) ==> (r matches Err((c, m)) && c == -32602 && m@ == "unknown tool: "@
                + n),
        },
        Method::ResourcesList => match r {
            Ok(j) => exists|ns: Seq<NoteSummary>| sorted_by_path(ns) && #[trigger] is_resource_list(j, vault, ns),
            Err((c, _)) => c == -32603,
        },
        Method::ResourcesRead => json_str(json_get(params, "uri"@)) is None ==> (r matches Err((c, m)) && c
            == -32602 && m@ == "resources/read needs a uri"@),
    }
}

/// `a` answers request `id` with the outcome `res`: its result, or its error, a code that
/// cannot be written becoming an internal error.
pub open spec fn rpc_answer(a: Json, id: Json, res: Result<Json, (i64, String)>) -> bool {
    match a {
        Json::Object(m) => m@.len() == 3 && m@[0].0@ == "jsonrpc"@ && is_str(m@[0].1, "2.0"@) && m@[1].0@ == "id"@
            && m@[1].1 == id && match res {
            Ok(v) => m@[2].0@ == "result"@ && m@[2].1 == v,
            Err((c, msg)) => m@[2].0@ == "error"@ && rpc_error_code(a) == Some(
                fmt_int(
                    if c == i64::MIN {
                        -32603
                    } else {
                        c as int
                    },
                    1,
                ),
            ) && (m@[2].1 matches Json::Object(e) && e@.len() == 2 && e@[1].0@ == "message"@ && is_str(
                e@[1].1,
                msg@,
            )),
        },
        _ => false,
    }
}

/// The parameters a request carries, or an empty object when it has none.
pub open spec fn params_given(msg: Json, p: Json) -> bool {
    match json_get(msg, "params"@) {
        Some(q) => same_json(p, q),
        None => p matches Json::Object(e) && e@.len() == 0,
    }
}

/// `a` answers request `msg`, with this id, these parameters and this outcome of its method.
pub open spec fn answers_request(
    vault: Seq<char>,
    msg: Json,
    a: Json,
    id: Json,
    p: Json,
    res: Result<Json, (i64, String)>,
) -> bool {
    &&& json_get(msg, "id"@) matches Some(i) && same_json(id, i)
    &&& params_given(msg, p)
    &&& json_str(json_get(msg, "method"@)) matches Some(m) && call_outcome(vault, m, p, res)
    &&& rpc_answer(a, id, res)
}

/// How many messages of a batch are answered: those that are not notifications or replies.
pub open spec fn answered_count(b: Seq<Json>) -> nat
    decreases b.len(),
{
    if b.len() == 0 {
        0
    } else {
        answered_count(b.drop_last()) + if envelope_kind(b.last()) == 0 {
            0nat
        } else {
            1nat
        }
    }
}

/// `a` is the answer to request `msg`.
pub open spec fn request_answered(vault: Seq<char>, msg: Json, a: Json) -> bool {
    exists|id: Json, p: Json, res: Result<Json, (i64, String)>| #[trigger] answers_request(vault, msg, a, id, p, res)
}

/// The code of a JSON-RPC error answer, as written.
pub open spec fn rpc_error_code(e: Json) -> Option<Seq<char>> {
    match json_get(e, "error"@) {
        Some(err) => match json_get(err, "code"@) {
            Some(Json::Number(c)) => Some(c@),
            _ => None,
        },
        None => None,
    }
}

/// `0` for a message that is not answered, `1` for one with an id and no method, `2` for a
/// request.
pub open spec fn envelope_kind(msg: Json) -> int {
    match json_str(json_get(msg, "method"@)) {
        None => if json_get(msg, "id"@) is Some {
            1
        } else {
            0
        },
        Some(_) => if json_get(msg, "id"@) is Some {
            2
        } else {
            0
        },
    }
}

} // verus!
