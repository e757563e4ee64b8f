//! The library's error type.
use vstd::prelude::*;

verus! {

/// Why an operation of the library failed.
#[derive(Debug, Clone, PartialEq, Eq)]
pub enum Error {
    /// A CRDT update could not be decoded or applied.
    Crdt(String),
    /// A sync frame is malformed.
    Frame(&'static str),
    /// The markdown could not be parsed.
    Markdown(String),
    /// A string is not a valid id.
    Id(String),
    /// A path escapes the vault root.
    PathEscape(String),
    /// A sync-level failure.
    Sync(String),
    /// An import failed.
    Import(String),
    /// An export or render failed.
    Export(String),
}

/// The message an error displays: what failed, then what was said of it.
pub open spec fn message_spec(e: Error) -> Seq<char> {
    match e {
        Error::Crdt(s) => "crdt update could not be decoded or applied: "@ + s@,
        Error::Frame(s) => "sync frame malformed: "@ + s@,
        Error::Markdown(s) => "markdown: "@ + s@,
        Error::Id(s) => "invalid id: "@ + s@,
        Error::PathEscape(s) => "path escapes vault root: "@ + s@,
        Error::Sync(s) => "sync: "@ + s@,
        Error::Import(s) => "import: "@ + s@,
        Error::Export(s) => "export: "@ + s@,
    }
}

impl Error {
    /// The message the error displays.
    pub fn message(&self) -> (r: String)
        ensures
            r@ == message_spec(*self),
    {
        match self {
            Error::Crdt(s) => crate::text::join_strs("crdt update could not be decoded or applied: ", s),
            Error::Frame(s) => crate::text::join_strs("sync frame malformed: ", s),
            Error::Markdown(s) => crate::text::join_strs("markdown: ", s),
            Error::Id(s) => crate::text::join_strs("invalid id: ", s),
            Error::PathEscape(s) => crate::text::join_strs("path escapes vault root: ", s),
            Error::Sync(s) => crate::text::join_strs("sync: ", s),
            Error::Import(s) => crate::text::join_strs("import: ", s),
            Error::Export(s) => crate::text::join_strs("export: ", s),
        }
    }
}

} // verus!
