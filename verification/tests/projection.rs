use lemmate::doc::NoteDoc;
use lemmate::projection::{ingest_external_edit, Projection};

fn owned(v: &[&str]) -> Vec<String> {
    v.iter().map(|s| s.to_string()).collect()
}

#[test]
fn walking_keeps_notes_in_order_and_leaves_the_sidecar() {
    let p = Projection::new("/v".to_string());
    let found = owned(&[
        "/v/Projects/x.qmd",
        "/v/.notes/ignored.md",
        "/v/notes.txt",
        "/v/Daily/2026-08-29.md",
        "/v/draft.md.tmp",
    ]);
    assert_eq!(p.walk_notes(found.clone()), vec!["Daily/2026-08-29.md", "Projects/x.qmd"]);
    assert_eq!(p.walk_files(found), vec!["notes.txt"]);
}

#[test]
fn walking_files_skips_notes_and_hidden_entries() {
    let p = Projection::new("/v/".to_string());
    let found = owned(&["/v/n.md", "/v/deep/two.bin", "/v/attachments/one.bin", "/v/.notes/local.db", "/v/.git/config"]);
    assert_eq!(p.walk_files(found), vec!["attachments/one.bin", "deep/two.bin"]);
}

#[test]
fn external_edit_merges_with_concurrent_remote_edit() {
    let mut doc = NoteDoc::new();
    doc.set_text("# Title\n\nbody\n");
    let projected = doc.text();
    // Remote edit arrives after projection.
    doc.set_text("# Title (remote)\n\nbody\n");
    // Meanwhile vim appended a line to the file that still reflects `projected`.
    let on_disk = "# Title\n\nbody\nfrom vim\n";
    let update = ingest_external_edit(&mut doc, &projected, on_disk).unwrap();
    assert!(!update.is_empty());
    assert_eq!(doc.text(), "# Title (remote)\n\nbody\nfrom vim\n");
}

#[test]
fn unchanged_file_is_a_noop() {
    let mut doc = NoteDoc::new();
    doc.set_text("x");
    assert!(ingest_external_edit(&mut doc, "x", "x").unwrap().is_empty());
}

#[test]
fn an_external_edit_on_an_unmoved_doc_lands_as_is() {
    let mut doc = NoteDoc::new();
    doc.set_text("one\n");
    let update = ingest_external_edit(&mut doc, "one\n", "one\ntwo\n").unwrap();
    assert!(!update.is_empty());
    assert_eq!(doc.text(), "one\ntwo\n");
}
