//! Stable identifiers. Notes and vaults are identified by ULIDs; paths are mutable attributes.
use vstd::prelude::*;
use vstd::arithmetic::power::pow;
use crate::error::Error;
use crate::text::{chars_of, join_strs, slice, starts_with, starts_with_exec, string_of, strip_prefix};

verus! {

/// Crockford's base32 alphabet, as ULIDs write it.
pub open spec fn ulid_alphabet() -> Seq<char> {
    seq![
        '0', '1', '2', '3', '4', '5', '6', '7', '8', '9', 'A', 'B', 'C', 'D', 'E', 'F', 'G', 'H',
        'J', 'K', 'M', 'N', 'P', 'Q', 'R', 'S', 'T', 'V', 'W', 'X', 'Y', 'Z',
    ]
}

/// The 26-character text of a ULID: its 128 bits as base-32 digits, most significant first.
pub open spec fn ulid_text(u: u128) -> Seq<char> {
    Seq::new(26, |i: int| ulid_alphabet()[(u as int / pow(32, (25 - i) as nat)) % 32])
}

/// What `ulid::Ulid::from_string` makes of a text: the value, or `None` when it is no ULID.
pub uninterp spec fn ulid_decoded(s: Seq<char>) -> Option<u128>;

/// `ulid::Ulid::to_string`: the base-32 text of the value, which `from_string` reads back.
#[verifier::external_body]
fn ulid_encode(u: u128) -> (r: String)
    ensures
        r@ == ulid_text(u),
        ulid_decoded(r@) == Some(u),
{
    ulid::Ulid(u).to_string()
}

/// The message of the `ulid::DecodeError` a text that is no ULID gives (its `Display`).
pub uninterp spec fn ulid_error_text(s: Seq<char>) -> Seq<char>;

/// `ulid::Ulid::from_string`, its error given by its message. Claims that both are functions
/// of the text.
#[verifier::external_body]
fn ulid_decode(s: &str) -> (r: Result<u128, String>)
    ensures
        match r {
            Ok(u) => ulid_decoded(s@) == Some(u),
            Err(m) => ulid_decoded(s@) is None && m@ == ulid_error_text(s@),
        },
{
    ulid::Ulid::from_string(s).map(|u| u.0).map_err(|e| e.to_string())
}

/// `ulid::Ulid::new`: a fresh id from the clock and a random source.
#[verifier::external_body]
fn ulid_generate() -> u128 {
    ulid::Ulid::new().0
}

/// A note's id.
#[derive(Debug, Clone, Copy, PartialEq, Eq, Hash, PartialOrd, Ord, Structural)]
pub struct NoteId(pub u128);

/// A vault's id.
#[derive(Debug, Clone, Copy, PartialEq, Eq, Hash, PartialOrd, Ord, Structural)]
pub struct VaultId(pub u128);

/// The error for a text that is no id: the text, then the decoder's message.
pub open spec fn id_error_text(s: Seq<char>) -> Seq<char> {
    s + ": "@ + ulid_error_text(s)
}

fn id_error(s: &str, e: &String) -> (r: Error)
    requires
        e@ == ulid_error_text(s@),
    ensures
        r matches Error::Id(m) && m@ == id_error_text(s@),
{
    let a = join_strs(s, ": ");
    Error::Id(join_strs(a.as_str(), e.as_str()))
}

impl NoteId {
    /// A fresh id.
    pub fn new() -> Self {
        NoteId(ulid_generate())
    }

    /// The id's text.
    pub fn to_string(&self) -> (r: String)
        ensures
            r@ == ulid_text(self.0),
    {
        ulid_encode(self.0)
    }

    /// Parse an id's text.
    pub fn parse(s: &str) -> (r: Result<NoteId, Error>)
        ensures
            match r {
                Ok(n) => ulid_decoded(s@) == Some(n.0),
                Err(e) => ulid_decoded(s@) is None && (e matches Error::Id(m) && m@ == id_error_text(s@)),
            },
    {
        match ulid_decode(s) {
            Ok(u) => Ok(NoteId(u)),
            Err(e) => Err(id_error(s, &e)),
        }
    }
}

impl VaultId {
    /// A fresh id.
    pub fn new() -> Self {
        VaultId(ulid_generate())
    }

    /// The id's text.
    pub fn to_string(&self) -> (r: String)
        ensures
            r@ == ulid_text(self.0),
    {
        ulid_encode(self.0)
    }

    /// Parse an id's text.
    pub fn parse(s: &str) -> (r: Result<VaultId, Error>)
        ensures
            match r {
                Ok(n) => ulid_decoded(s@) == Some(n.0),
                Err(e) => ulid_decoded(s@) is None && (e matches Error::Id(m) && m@ == id_error_text(s@)),
            },
    {
        match ulid_decode(s) {
            Ok(u) => Ok(VaultId(u)),
            Err(e) => Err(id_error(s, &e)),
        }
    }
}

impl std::str::FromStr for NoteId {
    type Err = Error;

    fn from_str(s: &str) -> Result<NoteId, Error> {
        NoteId::parse(s)
    }
}

impl std::str::FromStr for VaultId {
    type Err = Error;

    fn from_str(s: &str) -> Result<VaultId, Error> {
        VaultId::parse(s)
    }
}

/// Identifies a CRDT document in the update log: a note doc or the vault doc.
#[derive(Debug, Clone, Copy, PartialEq, Eq, Hash, Structural)]
pub enum DocId {
    Note(NoteId),
    Vault(VaultId),
}

pub open spec fn vault_prefix() -> Seq<char> {
    seq!['v', 'a', 'u', 'l', 't', ':']
}

/// A doc id's text: the note's id, or `vault:` and the vault's.
pub open spec fn doc_id_text(d: DocId) -> Seq<char> {
    match d {
        DocId::Note(n) => ulid_text(n.0),
        DocId::Vault(v) => vault_prefix() + ulid_text(v.0),
    }
}

/// The doc id a text names, if any.
pub open spec fn doc_id_parse(s: Seq<char>) -> Option<DocId> {
    match strip_prefix(s, vault_prefix()) {
        Some(rest) => match ulid_decoded(rest) {
            Some(u) => Some(DocId::Vault(VaultId(u))),
            None => None,
        },
        None => match ulid_decoded(s) {
            Some(u) => Some(DocId::Note(NoteId(u))),
            None => None,
        },
    }
}

impl DocId {
    /// The doc id's text (its `Display`).
    ///
    /// The text reads back as the same doc id.
    pub fn to_string(&self) -> (r: String)
        ensures
            r@ == doc_id_text(*self),
            doc_id_parse(r@) == Some(*self),
    {
        match self {
            DocId::Note(n) => {
                let t = ulid_encode(n.0);
                proof {
                    let x = (n.0 as int / pow(32, 25)) % 32;
                    assert(t@[0] == ulid_alphabet()[x]);
                    assert(t@[0] != 'v');
                    assert(!starts_with(t@, vault_prefix()));
                }
                t
            },
            DocId::Vault(v) => {
                let t = ulid_encode(v.0);
                let r = join_strs("vault:", t.as_str());
                proof {
                    reveal_strlit("vault:");
                    assert("vault:"@ =~= vault_prefix());
                    assert(r@.subrange(0, 6) =~= vault_prefix());
                    assert(r@.skip(6) =~= t@);
                }
                r
            },
        }
    }

    /// Parse a doc id's text.
    pub fn parse(s: &str) -> (r: Result<DocId, Error>)
        ensures
            match r {
                Ok(d) => doc_id_parse(s@) == Some(d),
                Err(_) => doc_id_parse(s@) is None,
            },
    {
        let c = chars_of(s);
        let p = chars_of("vault:");
        proof {
            reveal_strlit("vault:");
            assert(p@ =~= vault_prefix());
        }
        if starts_with_exec(&c, &p) {
            let rest = string_of(&slice(&c, 6, c.len()));
            match VaultId::parse(rest.as_str()) {
                Ok(v) => Ok(DocId::Vault(v)),
                Err(e) => Err(e),
            }
        } else {
            match NoteId::parse(s) {
                Ok(n) => Ok(DocId::Note(n)),
                Err(e) => Err(e),
            }
        }
    }
}

impl std::str::FromStr for DocId {
    type Err = Error;

    fn from_str(s: &str) -> Result<DocId, Error> {
        DocId::parse(s)
    }
}

} // verus!
