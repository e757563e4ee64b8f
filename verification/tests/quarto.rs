use lemmate::quarto::{disposition, prepare, preview_format, render_extras, vault_project_file, safe_relative, source_path, tail, Format, RenderOptions};

const ATTACHMENTS: &[&str] = &["attachments/pic.png", "dir/local.png"];

fn atts() -> Vec<String> {
    ATTACHMENTS.iter().map(|s| (*s).to_owned()).collect()
}

#[test]
fn quarto_formats_parse() {
    assert_eq!(Format::parse("HTML"), Some(Format::Html));
    assert_eq!(Format::parse("pdf"), Some(Format::Pdf));
    assert_eq!(Format::parse("slides"), Some(Format::RevealJs));
    assert_eq!(Format::parse("beamer"), None);
    assert_eq!(Format::Pdf.quarto_name(), "typst");
    assert_eq!(Format::RevealJs.extension(), "html");
}

#[test]
fn served_inline_under_the_notes_name() {
    assert_eq!(disposition("dir/Talk.qmd", Format::Pdf), "inline; filename=\"Talk.pdf\"");
    assert_eq!(disposition("a \"b\".md", Format::Html), "inline; filename=\"a b.html\"");
    assert_eq!(disposition("", Format::Docx), "inline; filename=\"note.docx\"");
}

#[test]
fn wikilinks_become_labels_and_image_embeds_images() {
    let md = "See [[Other Note]], [[Plan#Goals]], [[Plan|the plan]] and [[Plan#^goal]].\n\
              ![[pic.png]] ![[pic.png|300]] ![[local.png]] ![[Some Note]]\n";
    let out = prepare(md, "dir/note.qmd", &atts());
    assert_eq!(
        out,
        "See [Other Note]{.wikilink}, [Plan › Goals]{.wikilink}, [the plan]{.wikilink} and \
         [Plan › goal]{.wikilink}.\n\
         ![](<../attachments/pic.png>) ![](<../attachments/pic.png>){width=300px} \
         ![](<../dir/local.png>) [Some Note]{.wikilink}\n"
    );
    // At the vault root there is nothing to climb out of.
    assert_eq!(prepare("![[pic.png]]", "note.md", &atts()), "![](<attachments/pic.png>)");
}

#[test]
fn code_is_left_alone() {
    let md = "```python\nx = [[1, 2]]\n```\nInline `[[not a link]]` and ``a [[b]] ``, then [[Real]].\n\
              ~~~~\n[[inside tilde]]\n~~~~\n";
    let out = prepare(md, "n.qmd", &[]);
    assert_eq!(
        out,
        "```python\nx = [[1, 2]]\n```\nInline `[[not a link]]` and ``a [[b]] ``, then [Real]{.wikilink}.\n\
         ~~~~\n[[inside tilde]]\n~~~~\n"
    );
}

#[test]
fn labels_are_escaped_and_table_pipes_understood() {
    assert_eq!(prepare("[[a_b*c]]", "n.md", &[]), "[a\\_b\\*c]{.wikilink}");
    assert_eq!(prepare("| [[Plan\\|label]] |", "n.md", &[]), "| [label]{.wikilink} |");
    assert_eq!(prepare("unclosed [[link", "n.md", &[]), "unclosed [[link");
}

#[test]
fn project_paths_stay_inside_the_project() {
    assert_eq!(source_path("dir/Note.md"), "dir/Note.qmd");
    assert_eq!(source_path("Talk.qmd"), "Talk.qmd");
    assert_eq!(source_path("../escape.md"), "note.qmd");
    assert_eq!(safe_relative("a/../b"), None);
    assert_eq!(safe_relative("/abs/x.png").as_deref(), Some("abs/x.png"));
}

#[test]
fn stderr_is_trimmed_to_the_message() {
    let err = "Starting render\n\u{1b}[91mERROR: YAMLException: unexpected end (4:1)\n\n 2 | title: \"Broken\n-----^\n\nStack trace:\n    at Object.x (file:///q.js:1:2)\n\u{1b}[39m";
    assert_eq!(tail(err), "quarto: YAMLException: unexpected end (4:1)\n\n 2 | title: \"Broken\n-----^");
    assert_eq!(tail("pandoc\n  to: html\nsomething went wrong\n"), "quarto: pandoc\n  to: html\nsomething went wrong");
    assert_eq!(tail(""), "quarto failed without saying why");
}

#[test]
fn the_last_six_lines_without_frames_are_kept() {
    let log = "1\n2\n  at frame\n3\n4\n5\n6\n7\n\n8\n";
    assert_eq!(tail(log), "quarto: 3\n4\n5\n6\n7\n8");
    assert_eq!(RenderOptions::default().timeout_secs, 120);
    assert_eq!(Format::Docx.mime(), "application/vnd.openxmlformats-officedocument.wordprocessingml.document");
}

#[test]
fn project_yaml_names_the_bibliography() {
    let y = lemmate::quarto::project_yaml(None, &[("bibliography".to_string(), "/tmp/it's/references.bib".to_string())])
        .unwrap();
    let v: serde_yaml_ng::Value = serde_yaml_ng::from_str(&y).unwrap();
    assert_eq!(v["project"]["type"], "default");
    assert_eq!(v["format"]["html"]["embed-resources"], true);
    assert_eq!(v["format"]["revealjs"]["embed-resources"], true);
    assert_eq!(v["bibliography"], "/tmp/it's/references.bib");
}

#[test]
fn the_vaults_project_file_is_the_base_but_not_the_boss() {
    let vault = "project:\n  type: website\n  output-dir: _site\n  pre-render: rm -rf /\n\
                 format:\n  html:\n    theme: [cosmo, styles/custom.scss]\n    embed-resources: false\n\
                 bibliography: refs/mine.bib\nauthor: Juan\n";
    let extra = [
        ("bibliography".to_string(), "/p/export/references.bib".to_string()),
        ("csl".to_string(), "/p/export/style.csl".to_string()),
    ];
    let v: serde_yaml_ng::Value =
        serde_yaml_ng::from_str(&lemmate::quarto::project_yaml(Some(vault), &extra).unwrap()).unwrap();
    assert_eq!(v["project"].as_mapping().unwrap().len(), 1, "only `type` survives: {v:?}");
    assert_eq!(v["project"]["type"], "default");
    assert_eq!(v["format"]["html"]["theme"][1], "styles/custom.scss", "the shared theme stays");
    assert_eq!(v["format"]["html"]["embed-resources"], true, "the pane needs one page");
    assert_eq!(v["bibliography"], "refs/mine.bib", "the vault's own bibliography wins over export/");
    assert_eq!(v["csl"], "/p/export/style.csl");
    assert_eq!(v["author"], "Juan");
    // A bare format name still gets its options.
    let v: serde_yaml_ng::Value =
        serde_yaml_ng::from_str(&lemmate::quarto::project_yaml(Some("format: html\n"), &[]).unwrap()).unwrap();
    assert_eq!(v["format"]["html"]["embed-resources"], true);
    assert!(lemmate::quarto::project_yaml(Some("format: [\n"), &[]).unwrap_err().message().contains("not valid YAML"));
}

#[test]
fn a_format_list_names_each_format_once() {
    let y = lemmate::quarto::project_yaml(Some("format: [pdf, html, pdf, 3]\n"), &[]).unwrap();
    let v: serde_yaml_ng::Value = serde_yaml_ng::from_str(&y).unwrap();
    let f = v["format"].as_mapping().unwrap();
    assert_eq!(f.len(), 3, "{y}");
    assert_eq!(v["format"]["pdf"], "default");
    assert_eq!(v["format"]["html"]["embed-resources"], true);
}

#[test]
fn the_preview_renders_what_the_note_declares() {
    let deck =
        "---\ntitle: T\nformat:\n  revealjs:\n    theme: [default, cern.scss]\n  pdf: default\n---\nx";
    assert_eq!(preview_format(deck), Format::RevealJs);
    assert_eq!(preview_format("---\nformat: revealjs\n---\n"), Format::RevealJs);
    assert_eq!(preview_format("---\nformat: [pdf, revealjs+code]\n---\n"), Format::RevealJs);
    assert_eq!(
        preview_format("---\nformat:\n  pdf: default\n  html: default\n  revealjs: default\n---\n"),
        Format::Html
    );
    assert_eq!(preview_format("---\nformat: docx\n---\n"), Format::Html, "not a page: a plain one then");
    assert_eq!(preview_format("# no front matter"), Format::Html);
    assert_eq!(preview_format("---\nformat: [\n---\n"), Format::Html);
}

#[test]
fn a_render_hands_quarto_the_vaults_bibliography_and_style() {
    let files = vec!["a.png".to_owned(), "export/style.csl".to_owned(), "export/references.bib".to_owned()];
    assert_eq!(
        render_extras(&files),
        vec![
            ("bibliography".to_owned(), "export/references.bib".to_owned()),
            ("csl".to_owned(), "export/style.csl".to_owned())
        ]
    );
    assert!(render_extras(&["a.png".to_owned()]).is_empty());
    assert!(vault_project_file("_quarto.yml") && vault_project_file("_quarto.yaml"));
    assert!(!vault_project_file("sub/_quarto.yml"));
}
