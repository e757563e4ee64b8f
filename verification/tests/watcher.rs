use lemmate::watcher::{fs_event, ChangeKind, FsEvent};

#[test]
fn reports_note_changes_and_ignores_sidecar() {
    assert_eq!(
        fs_event(ChangeKind::Modify, "note.md".into(), false, false),
        Some(FsEvent::Modified("note.md".into()))
    );
    assert_eq!(fs_event(ChangeKind::Create, ".lemmate/local.db".into(), true, false), None);
    assert_eq!(fs_event(ChangeKind::Create, ".hidden.txt".into(), true, false), None);
}

#[test]
fn every_kind_of_change_has_its_event() {
    assert_eq!(fs_event(ChangeKind::Create, "a.md".into(), false, false), Some(FsEvent::Created("a.md".into())));
    assert_eq!(fs_event(ChangeKind::Remove, "a.md".into(), false, false), Some(FsEvent::Removed("a.md".into())));
    assert_eq!(fs_event(ChangeKind::Other, "a.md".into(), false, false), None);
    assert_eq!(fs_event(ChangeKind::Create, "dir".into(), false, true), None);
}
