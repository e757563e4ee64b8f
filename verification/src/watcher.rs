//! What the filesystem watcher reports of a projected vault: coarse events for every file that
//! is not ignored (notes and attachments alike). Debouncing, classification and rename
//! detection are the sync loop's job.
use vstd::prelude::*;

verus! {

/// A change to a file of the vault.
#[derive(Debug, Clone, PartialEq, Eq)]
pub enum FsEvent {
    Created(String),
    Modified(String),
    Removed(String),
}

/// The kind of change the operating system reported.
#[derive(Debug, Clone, Copy, PartialEq, Eq, Structural)]
pub enum ChangeKind {
    Create,
    Modify,
    Remove,
    /// Access, metadata-only and other events, which are not reported on.
    Other,
}

/// The event a change to a path becomes: none for other kinds of change, for ignored paths
/// (the sidecar, hidden files) and for directories.
pub fn fs_event(kind: ChangeKind, path: String, ignored: bool, is_dir: bool) -> (r: Option<FsEvent>)
    ensures
        match r {
            Some(e) => !ignored && !is_dir && match kind {
                ChangeKind::Create => e == FsEvent::Created(path),
                ChangeKind::Modify => e == FsEvent::Modified(path),
                ChangeKind::Remove => e == FsEvent::Removed(path),
                ChangeKind::Other => false,
            },
            None => ignored || is_dir || kind == ChangeKind::Other,
        },
{
    if ignored || is_dir {
        return None;
    }
    match kind {
        ChangeKind::Create => Some(FsEvent::Created(path)),
        ChangeKind::Modify => Some(FsEvent::Modified(path)),
        ChangeKind::Remove => Some(FsEvent::Removed(path)),
        ChangeKind::Other => None,
    }
}

} // verus!
