use lemmate::frontmatter::{block, id_of, normalize};

#[test]
fn adds_block_when_missing() {
    assert_eq!(normalize("# T\n\nbody\n", "X").as_deref(), Some("---\nid: X\n---\n# T\n\nbody\n"));
    assert_eq!(normalize("", "X").as_deref(), Some("---\nid: X\n---\n"));
}

#[test]
fn appends_into_existing_block() {
    let t = "---\ntitle: A\ntags: [x]\n---\n\nbody\n";
    assert_eq!(normalize(t, "X").as_deref(), Some("---\ntitle: A\ntags: [x]\nid: X\n---\n\nbody\n"));
    assert_eq!(id_of("---\ntitle: A\nid: \"Q\"\n---\n").as_deref(), Some("Q"));
}

#[test]
fn idempotent_and_respects_foreign_ids() {
    let t = "---\nid: X\n---\nbody\n";
    assert_eq!(normalize(t, "X"), None);
    assert_eq!(normalize("---\nid: OTHER\n---\nbody\n", "X"), None);
    assert_eq!(block("no front matter\n---\n"), None);
    assert_eq!(block("---\nunterminated\n"), None);
}

#[test]
fn collapses_duplicates_from_concurrent_merges() {
    let merged = "---\nid: X\n---\n---\nid: X\n---\n# T\n";
    assert_eq!(normalize(merged, "X").as_deref(), Some("---\nid: X\n---\n# T\n"));
    let dup_line = "---\ntitle: A\nid: X\nid: X\n---\nbody\n";
    assert_eq!(normalize(dup_line, "X").as_deref(), Some("---\ntitle: A\nid: X\n---\nbody\n"));
}

#[test]
fn block_offsets_are_bytes() {
    // "é" takes two bytes: the YAML starts at byte 4 and ends at byte 11.
    let t = "---\ntitle: é\n---\nbody";
    let (range, end) = block(t).unwrap();
    assert_eq!(range, 4..14);
    assert_eq!(&t[range], "title: é\n");
    assert_eq!(end, 18);
    assert_eq!(&t[end..], "body");
    assert_eq!(block("---\r\nx\r\n...\r\nrest").map(|(r, e)| (r.start, r.end, e)), Some((5, 8, 13)));
}

#[test]
fn normalizing_twice_changes_nothing_more() {
    for t in ["", "# T\n", "---\ntitle: A\n---\nbody\n", "---\nid: X\nid: X\n---\n"] {
        let once = normalize(t, "X").unwrap_or_else(|| t.to_owned());
        assert_eq!(normalize(&once, "X"), None, "{t:?}");
        assert_eq!(id_of(&once).as_deref(), Some("X"));
    }
}

#[test]
fn a_note_given_its_id_keeps_it() {
    let id = "01ARZ3NDEKTSV4RRFFQ69G5FAV";
    let text = "# Hello\n\nbody\n";
    let u = lemmate::frontmatter::normalize(text, id).unwrap();
    assert_eq!(u, format!("---\nid: {id}\n---\n{text}"));
    assert_eq!(lemmate::frontmatter::normalize(&u, id), None);
    assert_eq!(lemmate::frontmatter::id_of(&u).as_deref(), Some(id));
}
