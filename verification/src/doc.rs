//! A note's CRDT document: one yrs `Doc` with a single text, `content`, holding the note's
//! markdown. Replacing the text goes through the diff's edits, so concurrent edits elsewhere
//! merge instead of being clobbered.
use vstd::prelude::*;
use crate::diff::{apply_edits, byte_len_le, char_diff, covers, edit_step, edits, is_boundary, text_ops, try_text_ops, Edit, TextOp};
use crate::error::Error;
use crate::text::{byte_len, chars_of};

verus! {

#[verifier::external_type_specification]
#[verifier::external_body]
pub struct ExYrsDoc(yrs::Doc);

#[verifier::external_type_specification]
#[verifier::external_body]
pub struct ExYrsTextRef(yrs::TextRef);

#[verifier::external_type_specification]
#[verifier::external_body]
pub struct ExYrsStateVector(yrs::StateVector);

/// Name of the text holding a note's markdown source.
pub const CONTENT_FIELD: &'static str = "content";

/// The text a document's `content` holds.
pub uninterp spec fn doc_text(d: yrs::Doc) -> Seq<char>;

/// `yrs::Doc::new()` with its `content` text: a new document holds no text.
#[verifier::external_body]
fn new_doc() -> (r: (yrs::Doc, yrs::TextRef))
    ensures
        doc_text(r.0) == Seq::<char>::empty(),
{
    let doc = yrs::Doc::new();
    let content = doc.get_or_insert_text(CONTENT_FIELD);
    (doc, content)
}

/// `GetString::get_string` of the content: the text the document holds.
#[verifier::external_body]
fn read_text(doc: &yrs::Doc, content: &yrs::TextRef) -> (r: String)
    ensures
        r@ == doc_text(*doc),
{
    yrs::GetString::get_string(content, &yrs::Transact::transact(doc))
}

/// `Text::insert` at a byte offset (the document's offsets count bytes), in a transaction of
/// its own: the text gets `chunk` there.
#[verifier::external_body]
fn insert_text(doc: &mut yrs::Doc, content: &yrs::TextRef, at: u32, chunk: &str)
    requires
        is_boundary(doc_text(*old(doc)), at as int),
    ensures
        Some(doc_text(*final(doc))) == edit_step(doc_text(*old(doc)), Edit::Insert { at: at as int, text: chunk@ }),
{
    let mut txn = yrs::Transact::transact_mut(&*doc);
    yrs::Text::insert(content, &mut txn, at, chunk);
}

/// `Text::remove_range` of `len` bytes at byte offset `at`, in a transaction of its own.
#[verifier::external_body]
fn remove_text(doc: &mut yrs::Doc, content: &yrs::TextRef, at: u32, len: u32)
    requires
        is_boundary(doc_text(*old(doc)), at as int),
        is_boundary(doc_text(*old(doc)), at + len),
    ensures
        Some(doc_text(*final(doc))) == edit_step(doc_text(*old(doc)), Edit::Delete { at: at as int, len: len as int }),
{
    let mut txn = yrs::Transact::transact_mut(&*doc);
    yrs::Text::remove_range(content, &mut txn, at, len);
}

/// `ReadTxn::state_vector`; nothing is claimed of it.
#[verifier::external_body]
fn doc_state_vector(doc: &yrs::Doc) -> yrs::StateVector {
    yrs::ReadTxn::state_vector(&yrs::Transact::transact(doc))
}

/// `ReadTxn::encode_diff_v1` against a state vector; nothing is claimed of the bytes.
#[verifier::external_body]
fn doc_diff(doc: &yrs::Doc, sv: &yrs::StateVector) -> Vec<u8> {
    yrs::ReadTxn::encode_diff_v1(&yrs::Transact::transact(doc), sv)
}

/// `ReadTxn::encode_state_as_update_v1` from the empty state; nothing is claimed of the bytes.
#[verifier::external_body]
fn doc_full(doc: &yrs::Doc) -> Vec<u8> {
    yrs::ReadTxn::encode_state_as_update_v1(&yrs::Transact::transact(doc), &yrs::StateVector::default())
}

/// Whether `Update::decode_v1` reads the bytes as an update.
pub uninterp spec fn update_decodes(update: Seq<u8>) -> bool;

/// `Update::decode_v1`, then `TransactionMut::apply_update`, or the error's message. Bytes
/// that do not decode are an error before the document is touched; what the text becomes
/// otherwise is not claimed. That the call returns at all is claimed only of what does not
/// decode: for bytes that decode but contradict the document, returning (rather than
/// panicking) is not claimed, and the clauses speak only of a call that returns.
#[verifier::external_body]
fn doc_apply(doc: &mut yrs::Doc, update: &[u8]) -> (r: Result<(), String>)
    ensures
        r is Ok ==> update_decodes(update@),
        !update_decodes(update@) ==> r is Err && doc_text(*final(doc)) == doc_text(*old(doc)),
{
    let u = <yrs::Update as yrs::updates::decoder::Decode>::decode_v1(update).map_err(|e| e.to_string())?;
    yrs::Transact::transact_mut(&*doc).apply_update(u).map_err(|e| e.to_string())
}

/// `Encode::encode_v1` of a state vector.
#[verifier::external_body]
pub fn encode_state_vector(sv: &yrs::StateVector) -> Vec<u8> {
    yrs::updates::encoder::Encode::encode_v1(sv)
}

/// `Decode::decode_v1` of a state vector, or the error's message.
#[verifier::external_body]
fn sv_decode(bytes: &[u8]) -> Result<yrs::StateVector, String> {
    <yrs::StateVector as yrs::updates::decoder::Decode>::decode_v1(bytes).map_err(|e| e.to_string())
}

/// A state vector off the wire; a malformed one is a CRDT error.
pub fn decode_state_vector(bytes: &[u8]) -> (r: Result<yrs::StateVector, Error>)
    ensures
        r matches Err(e) ==> e is Crdt,
{
    match sv_decode(bytes) {
        Ok(sv) => Ok(sv),
        Err(m) => Err(Error::Crdt(m)),
    }
}

/// A note's document.
pub struct NoteDoc {
    doc: yrs::Doc,
    content: yrs::TextRef,
}

impl NoteDoc {
    /// The text the document holds.
    pub closed spec fn text_view(&self) -> Seq<char> {
        doc_text(self.doc)
    }

    /// An empty document.
    pub fn new() -> (r: NoteDoc)
        ensures
            r.text_view() == Seq::<char>::empty(),
    {
        let (doc, content) = new_doc();
        NoteDoc { doc, content }
    }

    /// A document rebuilt from updates (a snapshot first, then the log); a malformed update is
    /// a CRDT error.
    pub fn from_updates(updates: &[Vec<u8>]) -> (r: Result<NoteDoc, Error>)
        ensures
            updates@.len() == 0 ==> (r matches Ok(d) && d.text_view() == Seq::<char>::empty()),
            r matches Err(e) ==> e is Crdt,
            r is Ok ==> forall|k: int| 0 <= k < updates@.len() ==> update_decodes(#[trigger] updates@[k]@),
    {
        let mut d = NoteDoc::new();
        let mut i: usize = 0;
        while i < updates.len()
            invariant
                i <= updates@.len(),
                i == 0 ==> d.text_view() == Seq::<char>::empty(),
                forall|k: int| 0 <= k < i ==> update_decodes(#[trigger] updates@[k]@),
            decreases updates@.len() - i,
        {
            match d.apply_update(updates[i].as_slice()) {
                Ok(()) => {},
                Err(e) => {
                    return Err(e);
                },
            }
            i += 1;
        }
        Ok(d)
    }

    /// The note's text.
    pub fn text(&self) -> (r: String)
        ensures
            r@ == self.text_view(),
    {
        read_text(&self.doc, &self.content)
    }

    pub fn state_vector(&self) -> yrs::StateVector {
        doc_state_vector(&self.doc)
    }

    /// The full state as one update (for snapshots and initial sync).
    pub fn encode_full(&self) -> Vec<u8> {
        doc_full(&self.doc)
    }

    /// Everything a replica at `sv` is missing.
    pub fn diff_since(&self, sv: &yrs::StateVector) -> Vec<u8> {
        doc_diff(&self.doc, sv)
    }

    /// Applies an update from elsewhere; bytes that are no update are a CRDT error, and the
    /// text stays as it was.
    pub fn apply_update(&mut self, update: &[u8]) -> (r: Result<(), Error>)
        ensures
            r matches Err(e) ==> e is Crdt,
            r is Ok ==> update_decodes(update@),
            !update_decodes(update@) ==> r is Err && final(self).text_view() == old(self).text_view(),
    {
        match doc_apply(&mut self.doc, update) {
            Ok(()) => Ok(()),
            Err(m) => Err(Error::Crdt(m)),
        }
    }

    /// Applies edits (see [`crate::diff`]) in order; returns the update that encodes them
    /// (empty for no edits).
    pub fn apply_ops(&mut self, ops: &[TextOp]) -> (r: Vec<u8>)
        requires
            apply_edits(old(self).text_view(), edits(ops@)) is Some,
        ensures
            Some(final(self).text_view()) == apply_edits(old(self).text_view(), edits(ops@)),
            ops@.len() == 0 ==> r@.len() == 0,
    {
        if ops.len() == 0 {
            return Vec::new();
        }
        let before = doc_state_vector(&self.doc);
        let mut i: usize = 0;
        proof {
            assert(edits(ops@).skip(0) =~= edits(ops@));
        }
        while i < ops.len()
            invariant
                i <= ops@.len(),
                apply_edits(self.text_view(), edits(ops@).skip(i as int)) == apply_edits(old(self).text_view(), edits(ops@)),
                apply_edits(old(self).text_view(), edits(ops@)) is Some,
            decreases ops@.len() - i,
        {
            let ghost es = edits(ops@).skip(i as int);
            proof {
                assert(es[0] == ops@[i as int]@);
                assert(es.drop_first() =~= edits(ops@).skip(i + 1));
            }
            match &ops[i] {
                TextOp::Delete { at, len } => {
                    proof {
                        assert(is_boundary(self.text_view(), *at + *len));
                    }
                    remove_text(&mut self.doc, &self.content, *at, *len);
                },
                TextOp::Insert { at, text } => {
                    insert_text(&mut self.doc, &self.content, *at, text.as_str());
                },
            }
            i += 1;
        }
        proof {
            assert(edits(ops@).skip(i as int) =~= Seq::<Edit>::empty());
        }
        doc_diff(&self.doc, &before)
    }

    /// Replaces the text by the edits of `similar`'s diff of the old and the new text, so
    /// concurrent edits elsewhere merge instead of being clobbered; returns the update that
    /// encodes the change (empty when the text is unchanged). Afterwards the text is `new`.
    pub fn set_text(&mut self, new: &str) -> (r: Vec<u8>)
        requires
            byte_len(old(self).text_view()) <= u32::MAX,
            byte_len(new@) <= u32::MAX,
            old(self).text_view() == new@ || covers(char_diff(old(self).text_view(), new@), old(self).text_view(), new@),
        ensures
            final(self).text_view() == new@,
            old(self).text_view() == new@ ==> r@.len() == 0,
    {
        let old_text = self.text();
        let ops = text_ops(old_text.as_str(), new);
        self.apply_ops(ops.as_slice())
    }

    /// `set_text` where the text fits the edits' offsets and `similar`'s diff covers the old and
    /// the new text; `None`, leaving the text as it was, where not.
    pub fn try_set_text(&mut self, new: &str) -> (r: Option<Vec<u8>>)
        ensures
            match r {
                Some(_) => final(self).text_view() == new@,
                None => final(self).text_view() == old(self).text_view() && (byte_len(old(self).text_view()) > u32::MAX
                    || byte_len(new@) > u32::MAX || (old(self).text_view() != new@ && !covers(
                    char_diff(old(self).text_view(), new@),
                    old(self).text_view(),
                    new@,
                ))),
            },
    {
        let old_text = self.text();
        if !byte_len_le(old_text.as_str(), 4294967295) || !byte_len_le(new, 4294967295) {
            return None;
        }
        match try_text_ops(old_text.as_str(), new) {
            Some(_) => Some(self.set_text(new)),
            None => None,
        }
    }
}

} // verus!
