use lemmate::files::{file_path, listing, relative_link, rewrite_references};
use lemmate::ids::NoteId;

fn files(list: &[&str]) -> Vec<String> {
    list.iter().map(|s| (*s).to_owned()).collect()
}

#[test]
fn paths_the_file_manager_accepts() {
    assert_eq!(file_path("styles/site.scss").as_deref(), Some("styles/site.scss"));
    assert_eq!(file_path("/a/./b.png").as_deref(), Some("a/b.png"));
    assert_eq!(file_path("_quarto.yml").as_deref(), Some("_quarto.yml"));
    for bad in ["a/../../x.png", "note.md", "talk.QMD", ".lemmate/x", "a/.git/config", "x.tmp", "", "C:/x"] {
        assert_eq!(file_path(bad), None, "{bad}");
    }
}

#[test]
fn relative_links_between_folders() {
    assert_eq!(relative_link("talks/deck.qmd", "talks/img/a.png"), "img/a.png");
    assert_eq!(relative_link("talks/deck.qmd", "attachments/a.png"), "../attachments/a.png");
    assert_eq!(relative_link("deck.md", "styles/a.scss"), "styles/a.scss");
    assert_eq!(relative_link("a/b/c.md", "a/x.png"), "../x.png");
}

#[test]
fn links_images_and_definitions_follow_the_file() {
    let vault = files(&["talks/img/pic.png", "attachments/other.png", "attachments/my pic.png"]);
    let text = "See ![alt](img/pic.png \"t\") and [same](/talks/img/pic.png#x) and ![](other.png).\n\
                Inline `![](img/pic.png)` stays.\n\n```md\n![](img/pic.png)\n```\n[ref]: img/pic.png\n";
    let out =
        rewrite_references("talks/deck.qmd", text, "talks/img/pic.png", "slides/2026/pic.png", &vault).unwrap();
    assert_eq!(
        out,
        "See ![alt](../slides/2026/pic.png \"t\") and [same](/slides/2026/pic.png#x) and ![](other.png).\n\
         Inline `![](img/pic.png)` stays.\n\n```md\n![](img/pic.png)\n```\n[ref]: ../slides/2026/pic.png\n"
    );
    // Spaces are written the way the link already wrote them.
    let text = "![](../attachments/my%20pic.png) ![](<../attachments/my pic.png>)\n";
    let out =
        rewrite_references("talks/d.md", text, "attachments/my pic.png", "attachments/new pic.png", &vault)
            .unwrap();
    assert_eq!(out, "![](../attachments/new%20pic.png) ![](<../attachments/new pic.png>)\n");
}

#[test]
fn wikilinks_keep_their_alias_and_width() {
    let vault = files(&["attachments/pic.png", "attachments/doc.pdf", "other/doc.pdf"]);
    let text = "![[pic.png|300]] [[pic.png#page=2|see]] ![[Another note]]\n";
    let out = rewrite_references("n.md", text, "attachments/pic.png", "img/diagram.png", &vault).unwrap();
    assert_eq!(out, "![[diagram.png|300]] [[diagram.png#page=2|see]] ![[Another note]]\n");
    // A name another file also has is written as a path, or it would find the wrong one.
    let text = "![[doc.pdf]]\n";
    let out = rewrite_references("n.md", text, "attachments/doc.pdf", "archive/doc.pdf", &vault).unwrap();
    assert_eq!(out, "![[archive/doc.pdf]]\n");
}

#[test]
fn front_matter_paths_follow_too() {
    let vault = files(&["talks/custom.scss", "talks/custom.scss.bak"]);
    let text = "---\ntitle: custom.scss notes\nformat:\n  html:\n    theme: [cosmo, custom.scss]\n    css: \"custom.scss\"\n---\nbody custom.scss\n";
    let out =
        rewrite_references("talks/deck.qmd", text, "talks/custom.scss", "styles/deck.scss", &vault).unwrap();
    assert_eq!(
        out,
        "---\ntitle: custom.scss notes\nformat:\n  html:\n    theme: [cosmo, ../styles/deck.scss]\n    css: \"../styles/deck.scss\"\n---\nbody custom.scss\n"
    );
}

#[test]
fn a_note_that_does_not_name_the_file_is_untouched() {
    let vault = files(&["talks/pic.png", "other/pic.png"]);
    assert_eq!(rewrite_references("other/n.md", "![](pic.png)\n", "talks/pic.png", "x/pic.png", &vault), None);
    assert_eq!(rewrite_references("n.md", "no links\n", "talks/pic.png", "x/pic.png", &vault), None);
}

#[test]
fn the_listing_joins_entries_marks_and_users() {
    let a: NoteId = "01K5Z0000000000000000000AA".parse().unwrap();
    let b: NoteId = "01K5Z0000000000000000000AB".parse().unwrap();
    let entries = vec![
        ("_quarto.yml".to_owned(), "h0".to_owned()),
        ("styles/site.scss".to_owned(), "h1".to_owned()),
        ("attachments/pic.png".to_owned(), "h2".to_owned()),
    ];
    let users = vec![(b, "attachments/pic.png".to_owned()), (a, "attachments/pic.png".to_owned()), (a, "x".to_owned())];
    let list = listing(entries, &["styles/site.scss".to_owned()], &users, |p, _| (p != "x").then_some(3));
    assert!(list[0].vault && !list[0].kept && list[0].used_by.is_empty());
    assert!(list[1].kept && !list[1].vault);
    assert_eq!(list[2].used_by, [a.to_string(), b.to_string()]);
    assert_eq!(list[2].size, Some(3));
}

#[test]
fn duplicate_users_are_listed_once() {
    let a: NoteId = "01K5Z0000000000000000000AA".parse().unwrap();
    let entries = vec![("p.png".to_owned(), "h".to_owned())];
    let users = vec![(a, "p.png".to_owned()), (a, "p.png".to_owned())];
    let list = listing(entries, &[], &users, |_, _| None);
    assert_eq!(list[0].used_by, [a.to_string()]);
    assert_eq!(list[0].size, None);
}

#[test]
fn code_spans_with_longer_runs_and_unclosed_links() {
    let vault = files(&["a.png"]);
    let text = "``![](a.png)`` ![](a.png) [x](a.png\n";
    let out = rewrite_references("n.md", text, "a.png", "b/a.png", &vault).unwrap();
    assert_eq!(out, "``![](a.png)`` ![](b/a.png) [x](b/a.png\n");
}

#[test]
fn a_relative_link_reads_back_as_the_file_it_names() {
    for (note, to) in [("a/b/c.md", "a/x.png"), ("n.md", "img/p.png"), ("a/b.md", "a/b/c/d.png"), ("x/y.md", "z.png")] {
        let link = lemmate::files::relative_link(note, to);
        assert_eq!(lemmate::projection::Projection::normalize_relative(note, &link).as_deref(), Some(to));
    }
    assert_eq!(lemmate::files::relative_link("a/b/c.md", "a/x.png"), "../x.png");
}
