//! What a vault keeps beside its notes.
use vstd::prelude::*;

verus! {

/// One entry of the bookmark list. `kind` is `note`, `folder`, `search` or `heading`; the
/// importer only produces `note`.
#[derive(Debug, Clone, PartialEq, Eq)]
pub struct Bookmark {
    pub kind: String,
    /// Vault-relative path of the bookmarked note.
    pub target: String,
    /// Display label: the bookmark's own title, else the file stem.
    pub label: String,
}

impl Bookmark {
    /// Kind, target and label.
    pub open spec fn view3(self) -> (Seq<char>, Seq<char>, Seq<char>) {
        (self.kind@, self.target@, self.label@)
    }
}

/// The views of a list of bookmarks.
pub open spec fn bookmark_views(v: Seq<Bookmark>) -> Seq<(Seq<char>, Seq<char>, Seq<char>)> {
    v.map_values(|b: Bookmark| b.view3())
}

} // verus!
