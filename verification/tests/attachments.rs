use lemmate::attachments::{
    append_new, dependencies, follow_add, hash_bytes, is_valid_hash, is_vault_resource, mime_for_path, named_by, names_files,
    referenced, resolve_reference, stylesheet_imports, vault_resources, yaml_paths, AttachmentStore, FileSource,
};
use std::collections::HashMap;
use lemmate::ids::VaultId;

#[test]
fn sass_resolution_candidates() {
    assert_eq!(
        stylesheet_imports("@use 'a/b' as c; @import \"d.css\";"),
        [
            vec![
                "a/_b.scss",
                "a/b.scss",
                "a/_b.sass",
                "a/b.sass",
                "a/b.css",
                "a/b/_index.scss",
                "a/b/index.scss"
            ],
            vec!["d.css", "_d.css"],
        ]
    );
    assert!(stylesheet_imports("/* @import 'x'; */ a { b: c }").is_empty());
}

#[test]
fn resolves_references() {
    let files = ["attachments/a.png".to_owned(), "sub/img/b.bin".to_owned()];
    assert_eq!(resolve_reference("sub/n.md", "img/b.bin", false, &files).as_deref(), Some("sub/img/b.bin"));
    assert_eq!(
        resolve_reference("sub/n.md", "../attachments/a.png", false, &files).as_deref(),
        Some("attachments/a.png")
    );
    assert_eq!(resolve_reference("n.md", "a.png", true, &files).as_deref(), Some("attachments/a.png"));
    assert_eq!(resolve_reference("n.md", "b.bin", true, &files).as_deref(), Some("sub/img/b.bin"));
    assert_eq!(resolve_reference("n.md", "b.bin", false, &files), None);
    assert_eq!(resolve_reference("n.md", "https://x/a.png", true, &files), None);
    assert_eq!(resolve_reference("n.md", "a.png#frag", true, &files).as_deref(), Some("attachments/a.png"));
}

#[test]
fn imports_with_comments_urls_and_lists() {
    let css = "/*-- scss:defaults --*/\n@import 'partials/vars', \"mixins\";\n@use \"sass:math\";\n// @import \"commented\";\n";
    let got = stylesheet_imports(css);
    assert_eq!(got.len(), 2);
    assert_eq!(got[0][0], "partials/_vars.scss");
    assert_eq!(got[1][1], "mixins.scss");
    assert!(stylesheet_imports("body { background: url(https://example.org/x.png); }").is_empty());
}

#[test]
fn yaml_values_that_look_like_files() {
    let y = "title: Notes on v1.2\ntheme: [cosmo, a.scss]\nnested: {deep: [x/y.lua]}\nurl: https://a.b/c.css\n\
             key.scss: not-a-path\nn: 3.14\nmulti: |\n  a.css\n  b.css\n";
    assert_eq!(yaml_paths(y), ["a.scss", "x/y.lua"]);
    assert!(yaml_paths("format: [\n").is_empty(), "unreadable YAML names nothing");
}

#[test]
fn vault_resources_are_named() {
    assert!(is_vault_resource("_quarto.yml") && is_vault_resource("a/_metadata.yml"));
    assert!(is_vault_resource("export/references.bib") && !is_vault_resource("exports/x"));
    assert!(names_files("a/b.SCSS") && names_files("x/_metadata.yml") && names_files("export/references.bib"));
    assert!(!names_files("attachments/pic.png"));
}

#[test]
fn hashes_and_blob_paths() {
    let h = hash_bytes(b"hello");
    assert!(is_valid_hash(&h));
    assert_ne!(h, hash_bytes(b"hello!"));
    assert!(!is_valid_hash("../x"));
    assert!(!is_valid_hash(&h.to_uppercase()));
    let v: VaultId = VaultId::parse("01K5Z0000000000000000000AA").unwrap();
    let store = AttachmentStore::new("/srv/blobs".to_owned());
    assert_eq!(
        store.path_for(v, &h).unwrap(),
        format!("/srv/blobs/01K5Z0000000000000000000AA/{}/{}", &h[..2], h)
    );
    assert!(store.path_for(v, "../x").is_err());
    assert_eq!(store.root(), "/srv/blobs");
    assert_eq!(mime_for_path("a/b.png"), "image/png");
    assert_eq!(mime_for_path("weird.zzz"), "application/octet-stream");
}

/// A vault as a map of path to content, with `.md`/`.qmd` counting as notes, not files.
struct Vault(HashMap<String, String>);

impl FileSource for Vault {
    fn read(&self, path: &str) -> Option<Vec<u8>> {
        self.0.get(path).map(|c| c.as_bytes().to_vec())
    }
}

fn vault(files: &[(&str, &str)]) -> Vault {
    Vault(files.iter().map(|(p, c)| ((*p).to_owned(), (*c).to_owned())).collect())
}

fn deps_in(v: &Vault, note: &str) -> Vec<String> {
    let text = &v.0[note];
    let ix = lemmate::markdown::index(text).unwrap();
    let is_file = |p: &str| v.0.contains_key(p) && !p.ends_with(".md") && !p.ends_with(".qmd");
    let mut all: Vec<String> = v.0.keys().filter(|p| is_file(p)).cloned().collect();
    all.sort();
    dependencies(note, text, &ix, &all, v)
}

#[test]
fn front_matter_names_files_and_stylesheets_are_followed() {
    let v = vault(&[
        (
            "talks/deck.qmd",
            "---\ntitle: A talk v1.2\nformat:\n  html:\n    theme: [cosmo, custom.scss]\n    css: /shared/extra.css\n    \
             include-in-header: header.html\nfilters: [ ../filters/wordcount.lua ]\nlogo: https://example.org/logo.png\n\
             reference-doc: missing.docx\n---\n![](img/pic.png)\n",
        ),
        (
            "talks/custom.scss",
            "/*-- scss:defaults --*/\n@import 'partials/vars', \"mixins\";\n@use \"sass:math\";\n// @import \"commented\";\n",
        ),
        ("talks/partials/_vars.scss", "@forward '../../theme/base';\n$x: 1;"),
        ("talks/_mixins.scss", "@import \"partials/vars\"; // a cycle, back to vars"),
        ("theme/base/_index.scss", "body { background: url(https://example.org/x.png); }"),
        ("talks/commented.scss", ""),
        ("shared/extra.css", "@import url(\"https://fonts.example.org/f.css\");"),
        ("talks/header.html", "<meta>"),
        ("filters/wordcount.lua", "return {}"),
        ("talks/img/pic.png", "png"),
        ("talks/unrelated.png", "png"),
    ]);
    assert_eq!(
        deps_in(&v, "talks/deck.qmd"),
        [
            "talks/img/pic.png",
            "talks/custom.scss",
            "shared/extra.css",
            "talks/header.html",
            "filters/wordcount.lua",
            "talks/partials/_vars.scss",
            "talks/_mixins.scss",
            "theme/base/_index.scss",
        ]
    );
}

#[test]
fn vault_resources_and_what_they_name() {
    let v = vault(&[
        ("_quarto.yml", "format:\n  html:\n    theme: styles/site.scss\n"),
        ("styles/site.scss", "@import 'vars';"),
        ("styles/_vars.scss", ""),
        ("notes/_metadata.yml", "css: notes.css\n"),
        ("notes/notes.css", ""),
        ("export/references.bib", "@book{x}"),
        ("attachments/pic.png", ""),
    ]);
    let mut all: Vec<String> = v.0.keys().cloned().collect();
    all.sort();
    let got = vault_resources(&all, &v);
    assert_eq!(
        got,
        [
            "_quarto.yml",
            "export/references.bib",
            "notes/_metadata.yml",
            "styles/site.scss",
            "notes/notes.css",
            "styles/_vars.scss",
        ]
    );
    assert!(names_files("a/b.SCSS") && names_files("x/_metadata.yml") && names_files("export/references.bib"));
    assert!(!names_files("attachments/pic.png"));
}

#[test]
fn a_note_references_what_it_embeds_once() {
    let v = vault(&[("n.md", "![[a.png]] and ![](a.png) and [x](b.css)"), ("attachments/a.png", ""), ("b.css", "")]);
    let all = vec!["attachments/a.png".to_string(), "b.css".to_string()];
    assert_eq!(referenced("n.md", &v.0["n.md"], &all, &v).unwrap(), ["attachments/a.png", "b.css"]);
}

#[test]
fn what_a_file_names_depends_on_its_kind() {
    let files = vec!["s/_v.scss".to_string(), "s/x.lua".to_string()];
    assert_eq!(named_by("s/a.scss", &Some(b"@import 'v';".to_vec()), &files), ["s/_v.scss"]);
    assert_eq!(named_by("s/a.yml", &Some(b"f: x.lua\n".to_vec()), &files), ["s/x.lua"]);
    assert!(named_by("s/a.scss", &None, &files).is_empty());
    assert!(named_by("s/a.png", &Some(b"@import 'v';".to_vec()), &files).is_empty());
}

#[test]
fn following_stops_at_the_most_dependencies() {
    let mut out: Vec<String> = (0..255).map(|i| format!("f{i}")).collect();
    follow_add(&mut out, &vec!["f1".to_string(), "new".to_string(), "newer".to_string()]);
    assert_eq!(out.len(), 256);
    assert_eq!(out[255], "new");
}

#[test]
fn more_files_are_appended_once() {
    let mut files = vec!["a.png".to_string(), "b.css".to_string()];
    append_new(&mut files, vec!["b.css".to_string(), "c.yml".to_string(), "c.yml".to_string()]);
    assert_eq!(files, ["a.png", "b.css", "c.yml"]);
}

#[test]
fn a_front_matter_naming_half_the_vault_stops_at_the_cap() {
    let mut files: Vec<(String, String)> = (0..300).map(|i| (format!("img/p{i:03}.png"), String::new())).collect();
    let links: String = (0..300).map(|i| format!("![](img/p{i:03}.png)\n")).collect();
    files.push(("n.md".to_owned(), links));
    let v = Vault(files.into_iter().collect());
    let got = deps_in(&v, "n.md");
    assert_eq!(got.len(), 256);
    assert_eq!(got[0], "img/p000.png");
    assert_eq!(got[255], "img/p255.png");
}
