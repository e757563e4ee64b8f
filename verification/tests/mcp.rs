use lemmate::mcp::{decode_path, decode_path_bytes, encode_path, valid_date};
use lemmate::mcp::{edit_step, EditAction, EditAnswer, NoteEdit};
use lemmate::remote::{Note, NoteSummary};

#[test]
fn note_uris_percent_round_trip() {
    for path in ["a/b.md", "My Notes/über #1.md", "plain.md"] {
        assert_eq!(decode_path(&encode_path(path)), path);
    }
}

#[test]
fn dates_have_the_iso_shape() {
    assert!(valid_date("2024-03-09"));
    assert!(!valid_date("2024-3-09"));
    assert!(!valid_date("2024/03/09"));
    assert!(!valid_date("20240309xx"));
    assert!(!valid_date(""));
}

#[test]
fn reserved_bytes_are_escaped_in_uppercase_hex() {
    assert_eq!(encode_path("My Notes/über #1.md"), "My%20Notes/%C3%BCber%20%231.md");
    assert_eq!(encode_path("a-b_c.~/d"), "a-b_c.~/d");
}

#[test]
fn escapes_read_back_and_bad_escapes_stay() {
    assert_eq!(decode_path_bytes("%41%4a%zz%"), b"AJ%zz%".to_vec());
    assert_eq!(decode_path("caf%C3%A9"), "café");
    assert_eq!(decode_path("%FF"), "\u{FFFD}");
}

#[test]
fn an_append_reads_the_note_then_replaces_it_and_never_creates() {
    let edit = NoteEdit { target: "plan".to_owned(), content: "more".to_owned(), append: true };
    assert!(matches!(edit_step(&edit, &EditAnswer::Start), EditAction::Lookup(t) if t == "plan"));
    let found = NoteSummary { id: "01ABC".to_owned(), path: "plan.md".to_owned(), title: None };
    assert!(matches!(edit_step(&edit, &EditAnswer::Looked(Some(found))), EditAction::ReadNote(i) if i == "01ABC"));
    let current = EditAnswer::Current { id: "01ABC".to_owned(), content: "# New\n".to_owned() };
    assert!(matches!(
        edit_step(&edit, &current),
        EditAction::Replace { id, text } if id == "01ABC" && text == "# New\nmore\n"
    ));
    let saved = Note { id: "01ABC".to_owned(), path: "plan.md".to_owned(), title: None, content: String::new() };
    assert!(matches!(edit_step(&edit, &EditAnswer::Saved(saved)), EditAction::Reply(t) if t == "Appended to plan.md (01ABC)."));
    assert!(matches!(
        edit_step(&edit, &EditAnswer::Looked(None)),
        EditAction::Create { path, text } if path == "plan" && text == "more"
    ));
}

#[test]
fn a_write_replaces_what_was_found_and_refuses_a_missing_id() {
    let edit = NoteEdit { target: "plan".to_owned(), content: "all new".to_owned(), append: false };
    let found = NoteSummary { id: "01ABC".to_owned(), path: "plan.md".to_owned(), title: None };
    assert!(matches!(
        edit_step(&edit, &EditAnswer::Looked(Some(found))),
        EditAction::Replace { id, text } if id == "01ABC" && text == "all new"
    ));
    let by_id = NoteEdit { target: "01ARZ3NDEKTSV4RRFFQ69G5FAV".to_owned(), content: "x".to_owned(), append: false };
    assert!(matches!(
        edit_step(&by_id, &EditAnswer::Looked(None)),
        EditAction::Refuse(m) if m == "no note with id 01ARZ3NDEKTSV4RRFFQ69G5FAV in this vault"
    ));
}
