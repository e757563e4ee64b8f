use lemmate::markdown::{index, rewrite_wikilinks, WikiLink};

#[test]
fn extracts_everything() {
    let src = "---\ntitle: My Note\ntags: [alpha, Beta/Gamma]\naliases: nick\n---\n\n# Heading One\n\nSee [[Other Note#Section|label]] and ![[img.png]] plus #inline-tag and #Alpha.\n\nMath $x^2$ and `#notatag` and [link](https://x.y/z).\n\n- [ ] todo\n\n```{python}\nprint(1)\n```\n\n## Sub\n";
    let ix = index(src).unwrap();
    assert_eq!(ix.title.as_deref(), Some("My Note"));
    assert_eq!(ix.tags, vec!["inline-tag", "alpha", "beta/gamma"]);
    assert_eq!(ix.wikilinks.len(), 2);
    assert_eq!(
        ix.wikilinks[0],
        WikiLink {
            target: "Other Note".into(),
            heading: Some("Section".into()),
            label: Some("label".into()),
            embed: false
        }
    );
    assert!(ix.wikilinks[1].embed);
    assert_eq!(ix.links, vec!["https://x.y/z"]);
    assert!(ix.has_math && ix.has_tasks);
    assert_eq!(ix.code_langs, vec!["python"]);
    assert_eq!(ix.headings.len(), 2);
    assert_eq!(ix.front_matter.as_ref().unwrap().aliases, vec!["nick"]);
    assert!(ix.plain_text.contains("Heading One"));
}

#[test]
fn rewrites_links_on_rename() {
    let t = "see [[Projects/Plan]] and [[Plan|the plan]] and [[Projects/Plan.md#Goals]] but not [[Planning]] or `[[Plan]]`\n";
    let r = rewrite_wikilinks(t, "Projects/Plan.md", "Archive/Roadmap.md").unwrap();
    assert_eq!(
        r,
        "see [[Archive/Roadmap]] and [[Roadmap|the plan]] and [[Archive/Roadmap#Goals]] but not [[Planning]] or `[[Roadmap]]`\n"
    );
    assert_eq!(rewrite_wikilinks("nothing here", "a.md", "b.md"), None);
    // Same basename, different folder: bare basenames stay.
    assert_eq!(
        rewrite_wikilinks("[[Plan]] [[Projects/Plan]]", "Projects/Plan.md", "Done/Plan.md").unwrap(),
        "[[Plan]] [[Done/Plan]]"
    );
}

#[test]
fn title_falls_back_to_h1() {
    assert_eq!(index("# Hello\n\ntext").unwrap().title.as_deref(), Some("Hello"));
    assert_eq!(index("just text").unwrap().title, None);
}

#[test]
fn numeric_and_heading_hashes_are_not_tags() {
    let ix = index("# Not a tag\n\nissue #123 and #1a is a tag\n").unwrap();
    assert_eq!(ix.tags, vec!["1a"]);
}

#[test]
fn malformed_front_matter_still_indexes_the_body() {
    let ix = index("---\ntitle: [unclosed\n---\n\n# Body\n").unwrap();
    assert_eq!(ix.title.as_deref(), Some("Body"));
    let ix = index("---\ntitle: T\ntags: 5\n---\n\n# Body\n").unwrap();
    assert_eq!(ix.title.as_deref(), Some("Body"));
    let ix = index("---\ntags: a, b ,, c\n---\n").unwrap();
    assert_eq!(ix.tags, vec!["a", "b", "c"]);
}

#[test]
fn plain_text_is_words_joined_by_single_spaces() {
    let ix = index("# A  title\n\nsome   text\nhere").unwrap();
    assert_eq!(ix.plain_text, "A title some text here");
    let ix = index("a [[x]] b").unwrap();
    assert_eq!(ix.wikilinks[0].target, "x");
    assert!(!ix.wikilinks[0].embed);
}
