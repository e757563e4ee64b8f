use lemmate::pandoc::Format;
use lemmate::pandoc::{export_input, pandoc_args, ExportOptions, READER};

#[test]
fn pandoc_formats_parse() {
    assert_eq!(Format::parse("HTML"), Some(Format::Html));
    assert_eq!(Format::parse("slides"), Some(Format::RevealJs));
    assert_eq!(Format::parse("nope"), None);
}

#[test]
fn pandoc_names_and_media_types() {
    assert_eq!(Format::Html.pandoc_name(), "html5");
    assert_eq!(Format::Markdown.pandoc_name(), "commonmark_x");
    assert_eq!(Format::Docx.extension(), "docx");
    assert_eq!(Format::Beamer.mime(), "application/pdf");
    assert!(Format::Pdf.binary());
    assert!(!Format::Html.binary());
}

#[test]
fn a_note_names_its_own_bibliography_or_gets_the_vaults() {
    let files: Vec<String> = ["export/references.bib", "export/style.csl", "Papers/refs.bib", "Papers/more.bib", "apa.csl"]
        .iter()
        .map(|s| s.to_string())
        .collect();
    let vault = lemmate::pandoc::Citations {
        bibliography: vec!["export/references.bib".into()],
        csl: Some("export/style.csl".into()),
    };
    assert_eq!(lemmate::pandoc::citation_files("Papers/a.md", "# no front matter\n", &files), vault);
    assert_eq!(
        lemmate::pandoc::citation_files("Papers/a.md", "---\nbibliography: refs.bib\n---\n", &files).bibliography,
        ["Papers/refs.bib"]
    );
    let both = lemmate::pandoc::citation_files(
        "Papers/a.md",
        "---\nbibliography: [refs.bib, more.bib]\ncsl: /apa.csl\n---\n",
        &files,
    );
    assert_eq!(both.bibliography, ["Papers/refs.bib", "Papers/more.bib"]);
    assert_eq!(both.csl.as_deref(), Some("apa.csl"));
    // Missing files, and paths out of the vault, fall back to the vault's.
    assert_eq!(lemmate::pandoc::citation_files("Papers/a.md", "---\nbibliography: ../../etc/x.bib\n---\n", &files), vault);
    assert_eq!(lemmate::pandoc::citation_files("Papers/a.md", "---\nbibliography: gone.bib\n---\n", &files), vault);
    assert_eq!(lemmate::pandoc::citation_files("a.md", "", &[]), lemmate::pandoc::Citations::default());
}

#[test]
fn pandoc_is_asked_for_the_format_and_the_options() {
    let opts = ExportOptions::default();
    assert_eq!(pandoc_args(Format::Html, &opts, None, "/t/out.html"), ["-f", READER, "-t", "html5", "--standalone", "--mathjax"]);
    let opts = ExportOptions {
        pandoc: None,
        resource_dir: Some("/vault".to_owned()),
        strip_front_matter: true,
        standalone: false,
        bibliography: vec!["/vault/a.bib".to_owned(), "/vault/b.bib".to_owned()],
        csl: Some("/vault/s.csl".to_owned()),
    };
    assert_eq!(
        pandoc_args(Format::Docx, &opts, Some("/vault/export/defaults.yaml"), "/t/out.docx"),
        [
            "-f",
            READER,
            "-t",
            "docx",
            "--resource-path",
            "/vault",
            "--defaults",
            "/vault/export/defaults.yaml",
            "--citeproc",
            "--bibliography",
            "/vault/a.bib",
            "--bibliography",
            "/vault/b.bib",
            "--csl",
            "/vault/s.csl",
            "-o",
            "/t/out.docx",
        ]
    );
}

#[test]
fn the_front_matter_is_dropped_before_export_when_asked() {
    let md = "---\nid: 01X\n---\n# Title\n";
    assert_eq!(export_input(md, true), "# Title\n");
    assert_eq!(export_input(md, false), md);
    assert_eq!(export_input("# no front matter\n", true), "# no front matter\n");
}
