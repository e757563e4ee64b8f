//! Wire framing for the multiplexed sync WebSocket. Each binary message is one [`Frame`]: a doc
//! id followed by a standard Yjs protocol message, so any y-protocols client can be adapted by
//! prefixing the doc id.
//!
//! Layout: `u16 BE len(doc_id) | doc_id (UTF-8) | yjs message bytes (v1 encoding)`.
use vstd::prelude::*;
use vstd::utf8::*;
use crate::error::Error;
use crate::text::utf8_str;

verus! {

#[derive(Debug, Clone, PartialEq, Eq)]
pub struct Frame {
    pub doc_id: String,
    pub payload: Vec<u8>,
}

/// The bytes of a frame: the id's UTF-8 length as a big-endian `u16` (wrapping, as the cast does),
/// the id's bytes, then the payload.
pub open spec fn frame_bytes(doc_id: Seq<char>, payload: Seq<u8>) -> Seq<u8> {
    let id = encode_utf8(doc_id);
    let n = id.len() % 65536;
    seq![(n / 256) as u8, (n % 256) as u8] + id + payload
}

/// What a frame's bytes hold: the doc id and the payload, or `None` when they are malformed.
pub open spec fn frame_parse(b: Seq<u8>) -> Option<(Seq<char>, Seq<u8>)> {
    if b.len() < 2 {
        None
    } else {
        let n = b[0] as int * 256 + b[1] as int;
        if 2 + n > b.len() {
            None
        } else {
            let id = b.subrange(2, 2 + n);
            if !valid_utf8(id) || decode_utf8(id).len() == 0 {
                None
            } else {
                Some((decode_utf8(id), b.skip(2 + n)))
            }
        }
    }
}

/// Which error a malformed frame gives.
pub open spec fn frame_error(b: Seq<u8>) -> Error {
    if b.len() < 2 {
        Error::Frame("too short")
    } else {
        let n = b[0] as int * 256 + b[1] as int;
        if 2 + n > b.len() {
            Error::Frame("doc id truncated")
        } else if !valid_utf8(b.subrange(2, 2 + n)) {
            Error::Frame("doc id not utf-8")
        } else {
            Error::Frame("empty doc id")
        }
    }
}

impl Frame {
    pub fn encode(&self) -> (r: Vec<u8>)
        ensures
            r@ == frame_bytes(self.doc_id@, self.payload@),
    {
        let id = self.doc_id.as_str().as_bytes();
        let len = id.len();
        let n = len as u16;
        proof {
            assert(n == len % 65536) by (bit_vector)
                requires
                    n == len as u16,
            ;
        }
        let hi = (n >> 8) as u8;
        let lo = (n & 0xff) as u8;
        proof {
            assert(hi == n / 256 && lo == n % 256) by (bit_vector)
                requires
                    hi == (n >> 8) as u8,
                    lo == (n & 0xff) as u8,
            ;
        }
        let mut out: Vec<u8> = Vec::new();
        out.push(hi);
        out.push(lo);
        let mut i: usize = 0;
        while i < id.len()
            invariant
                i <= id.len(),
                out@ == seq![hi, lo] + id@.take(i as int),
            decreases id.len() - i,
        {
            out.push(id[i]);
            i += 1;
        }
        let mut j: usize = 0;
        while j < self.payload.len()
            invariant
                j <= self.payload.len(),
                out@ == seq![hi, lo] + id@ + self.payload@.take(j as int),
            decreases self.payload.len() - j,
        {
            out.push(self.payload[j]);
            j += 1;
        }
        proof {
            assert(id@.take(id@.len() as int) =~= id@);
            assert(self.payload@.take(self.payload@.len() as int) =~= self.payload@);
            assert(n == id@.len() % 65536);
            assert(out@ =~= frame_bytes(self.doc_id@, self.payload@));
        }
        out
    }

    pub fn decode(bytes: &[u8]) -> (r: Result<Frame, Error>)
        ensures
            match r {
                Ok(f) => frame_parse(bytes@) == Some((f.doc_id@, f.payload@)),
                Err(e) => frame_parse(bytes@) is None && e == frame_error(bytes@),
            },
    {
        if bytes.len() < 2 {
            return Err(Error::Frame("too short"));
        }
        let n = (bytes[0] as usize) * 256 + (bytes[1] as usize);
        if n > bytes.len() - 2 {
            return Err(Error::Frame("doc id truncated"));
        }
        let id = slice_bytes(bytes, 2, 2 + n);
        let doc_id = match utf8_str(&id) {
            Some(s) => {
                if s.is_empty() {
                    return Err(Error::Frame("empty doc id"));
                }
                s.to_owned()
            },
            None => return Err(Error::Frame("doc id not utf-8")),
        };
        let payload = slice_bytes(bytes, 2 + n, bytes.len());
        Ok(Frame { doc_id, payload })
    }
}

/// `b[lo..hi].to_vec()`.
fn slice_bytes(b: &[u8], lo: usize, hi: usize) -> (r: Vec<u8>)
    requires
        lo <= hi <= b.len(),
    ensures
        r@ == b@.subrange(lo as int, hi as int),
{
    let mut r: Vec<u8> = Vec::new();
    let mut i = lo;
    while i < hi
        invariant
            lo <= i <= hi <= b.len(),
            r@ == b@.subrange(lo as int, i as int),
        decreases hi - i,
    {
        r.push(b[i]);
        i += 1;
    }
    r
}

/// A frame's bytes read back as the frame, whenever its doc id is not empty and its UTF-8 fits
/// the 16-bit length.
pub proof fn lemma_frame_round_trip(doc_id: Seq<char>, payload: Seq<u8>)
    requires
        doc_id.len() > 0,
        encode_utf8(doc_id).len() < 65536,
    ensures
        frame_parse(frame_bytes(doc_id, payload)) == Some((doc_id, payload)),
{
    let id = encode_utf8(doc_id);
    let n = id.len() as int;
    let b = frame_bytes(doc_id, payload);
    assert(b[0] as int * 256 + b[1] as int == n);
    assert(b.subrange(2, 2 + n) =~= id);
    assert(b.skip(2 + n) =~= payload);
    encode_utf8_valid_utf8(doc_id);
    encode_utf8_decode_utf8(doc_id);
}

} // verus!
