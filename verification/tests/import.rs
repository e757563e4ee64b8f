use lemmate::import::{convert_note, import_upload, parse_bookmarks, parse_daily_notes, upload_path, DailySettings, Upload};
use lemmate::vault_doc::Bookmark;

#[test]
fn upload_paths_are_normalised_and_escapes_rejected() {
    assert_eq!(upload_path("Daily\\2026-01-01.md").as_deref(), Some("Daily/2026-01-01.md"));
    assert_eq!(upload_path("/Projects/./plan.md").as_deref(), Some("Projects/plan.md"));
    assert_eq!(upload_path("../escape.md"), None);
    assert_eq!(upload_path("C:/vault/note.md"), None);
    assert_eq!(upload_path("   "), None);
}

#[test]
fn uploaded_notes_are_converted_and_other_files_pass_through() {
    let note = import_upload("Notes/a.md", b"> [!tip] T\n> body\n".to_vec()).unwrap();
    assert_eq!(
        note,
        Upload::Note {
            path: "Notes/a.md".to_owned(),
            text: "::: {.callout-tip title=\"T\"}\nbody\n:::\n".to_owned(),
            callouts: 1,
            embeds: 0,
        }
    );
    let img = import_upload("attachments/logo.png", vec![1, 2, 3]).unwrap();
    assert_eq!(img, Upload::Attachment { path: "attachments/logo.png".to_owned(), bytes: vec![1, 2, 3] });
}

#[test]
fn uploaded_obsidian_state_is_ignored_apart_from_the_two_settings_files() {
    assert_eq!(import_upload(".obsidian/workspace.json", b"{}".to_vec()), None);
    assert_eq!(import_upload(".trash/old.md", b"x".to_vec()), None);
    assert_eq!(import_upload(".lemmate/local.db", b"x".to_vec()), None);
    let marks = import_upload(
        ".obsidian/bookmarks.json",
        br#"{"items":[{"type":"file","path":"Projects/plan.md","title":"Plan"}]}"#.to_vec(),
    );
    assert_eq!(
        marks,
        Some(Upload::Bookmarks(vec![Bookmark {
            kind: "note".to_owned(),
            target: "Projects/plan.md".to_owned(),
            label: "Plan".to_owned(),
        }]))
    );
    let daily = import_upload(".obsidian/daily-notes.json", br#"{"folder":"Daily"}"#.to_vec());
    assert_eq!(
        daily,
        Some(Upload::Daily(DailySettings { folder: "Daily".to_owned(), format: "YYYY-MM-DD".to_owned() }))
    );
}

fn convert(src: &str) -> String {
    convert_note(src).text
}

#[test]
fn callout_with_title() {
    let out = convert("> [!warning] Careful\n> body\n");
    assert_eq!(out, "::: {.callout-warning title=\"Careful\"}\nbody\n:::\n");
}

#[test]
fn callout_without_title() {
    let c = convert_note("> [!NOTE]\n> body\n");
    assert_eq!(c.text, "::: {.callout-note}\nbody\n:::\n");
    assert_eq!(c.callouts, 1);
}

#[test]
fn collapsed_callout() {
    let out = convert("> [!note]- Hidden\n> body\n");
    assert_eq!(out, "::: {.callout-note title=\"Hidden\" collapse=\"true\"}\nbody\n:::\n");
}

#[test]
fn multi_line_callout_between_prose() {
    let out = convert("intro\n\n> [!tip] T\n> one\n>\n> two\n\nafter\n");
    assert_eq!(out, "intro\n\n::: {.callout-tip title=\"T\"}\none\n\ntwo\n:::\n\nafter\n");
}

#[test]
fn unknown_kinds_fall_back_to_note_and_aliases_map() {
    assert_eq!(convert("> [!hint] H\n"), "::: {.callout-tip title=\"H\"}\n:::\n");
    assert_eq!(convert("> [!bug] B\n"), "::: {.callout-note title=\"B\"}\n:::\n");
    assert_eq!(convert("> [!caution] C\n"), "::: {.callout-caution title=\"C\"}\n:::\n");
    assert_eq!(convert("> [!important] I\n"), "::: {.callout-important title=\"I\"}\n:::\n");
}

#[test]
fn plain_blockquote_is_untouched() {
    let c = convert_note("> just a quote\n> more\n");
    assert_eq!(c.text, "> just a quote\n> more\n");
    assert_eq!(c.callouts, 0);
}

#[test]
fn callout_inside_code_block_is_untouched() {
    let src = "```md\n> [!note] Example\n> body\n```\n\n> [!note] Real\n> body\n";
    let c = convert_note(src);
    assert_eq!(
        c.text,
        "```md\n> [!note] Example\n> body\n```\n\n::: {.callout-note title=\"Real\"}\nbody\n:::\n"
    );
    assert_eq!(c.callouts, 1);
}

#[test]
fn tilde_fences_and_embeds_inside_code_are_untouched() {
    let c = convert_note("~~~\n![[img.png]]\n~~~\n![[img.png]]\n");
    assert_eq!(c.text, "~~~\n![[img.png]]\n~~~\n![](img.png)\n");
    assert_eq!(c.embeds, 1);
}

#[test]
fn image_embeds_are_rewritten() {
    let c = convert_note("![[img.png]] ![[img.png|300]] ![[folder/img.JPG]] ![[my pic.webp]]\n");
    assert_eq!(c.text, "![](img.png) ![](img.png) ![](folder/img.JPG) ![](<my pic.webp>)\n");
    assert_eq!(c.embeds, 4);
}

#[test]
fn non_image_embeds_and_wikilinks_are_left_alone() {
    let src = "![[Some Note]] ![[paper.pdf]] [[wiki|label]] #tag $x_1$\n";
    let c = convert_note(src);
    assert_eq!(c.text, src);
    assert_eq!(c.embeds, 0);
}

#[test]
fn front_matter_is_untouched_and_no_id_is_added() {
    let src = "---\ntitle: T\ntags: [a]\n---\n\n![[img.png]]\n";
    let c = convert_note(src);
    assert_eq!(c.text, "---\ntitle: T\ntags: [a]\n---\n\n![](img.png)\n");
    assert!(!c.text.contains("id:"));
}

#[test]
fn embeds_inside_callouts_are_rewritten() {
    let c = convert_note("> [!note] N\n> ![[img.png]]\n");
    assert_eq!(c.text, "::: {.callout-note title=\"N\"}\n![](img.png)\n:::\n");
    assert_eq!((c.callouts, c.embeds), (1, 1));
}

#[test]
fn bookmarks_with_nested_groups() {
    let raw = r#"{
      "items": [
        { "type": "file", "path": "Inbox.md", "title": "Inbox" },
        { "type": "search", "query": "tag:#x" },
        { "type": "group", "title": "Work", "items": [
            { "type": "file", "path": "Work/Plan.md" },
            { "type": "group", "title": "Deep", "items": [
                { "type": "file", "path": "Work/Deep/Design.md", "title": "The Design" }
            ]}
        ]}
      ]
    }"#;
    let got = parse_bookmarks(raw).unwrap();
    assert_eq!(
        got,
        vec![
            Bookmark { kind: "note".into(), target: "Inbox.md".into(), label: "Inbox".into() },
            Bookmark { kind: "note".into(), target: "Work/Plan.md".into(), label: "Plan".into() },
            Bookmark { kind: "note".into(), target: "Work/Deep/Design.md".into(), label: "The Design".into() },
        ]
    );
    assert!(parse_bookmarks("not json").is_err());
}

#[test]
fn daily_settings_have_defaults_and_need_json() {
    assert_eq!(
        parse_daily_notes("{}"),
        Some(DailySettings { folder: String::new(), format: "YYYY-MM-DD".into() })
    );
    assert_eq!(parse_daily_notes("not json"), None);
    assert_eq!(import_upload(".obsidian/daily-notes.json", vec![0xff, 0xfe]), None);
}

#[test]
fn an_unclosed_front_matter_and_an_empty_text() {
    assert_eq!(convert("---\ntitle: x\n![[a.png]]\n"), "---\ntitle: x\n![[a.png]]\n");
    assert_eq!(convert(""), "\n");
    assert_eq!(convert("no newline ![[a.png]]"), "no newline ![](a.png)");
}
