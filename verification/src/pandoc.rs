//! Export through pandoc: the formats an export produces, the arguments pandoc is run with, and
//! which bibliography a note cites from.
use vstd::prelude::*;
use crate::frontmatter::{block_chars, block_chars_exec, lemma_block_chars};
use crate::projection::{normalize_relative_spec, str_views, Projection};
use crate::text::{chars_of, eq, lower_seq, lower_vec, string_of, trim, trim_exec};
use crate::yaml::{parse_yaml, yaml_as_str, yaml_as_str_exec, yaml_document, yaml_get, yaml_get_exec, Yaml};
use crate::attachments::has_file;
use crate::remote::opt_view;
use crate::text::slice;

verus! {

broadcast use vstd::seq_lib::group_seq_properties;

/// Output formats the API accepts.
#[derive(Debug, Clone, Copy, PartialEq, Eq, Structural)]
pub enum Format {
    Html,
    Pdf,
    Docx,
    RevealJs,
    Beamer,
    Markdown,
}

/// The format a name asks for, in any case.
pub open spec fn parse_format(s: Seq<char>) -> Option<Format> {
    let l = lower_seq(s);
    if l == seq!['h', 't', 'm', 'l'] {
        Some(Format::Html)
    } else if l == seq!['p', 'd', 'f'] {
        Some(Format::Pdf)
    } else if l == seq!['d', 'o', 'c', 'x'] {
        Some(Format::Docx)
    } else if l == seq!['r', 'e', 'v', 'e', 'a', 'l', 'j', 's'] || l == seq!['s', 'l', 'i', 'd', 'e', 's'] {
        Some(Format::RevealJs)
    } else if l == seq!['b', 'e', 'a', 'm', 'e', 'r'] {
        Some(Format::Beamer)
    } else if l == seq!['m', 'd'] || l == seq!['m', 'a', 'r', 'k', 'd', 'o', 'w', 'n'] || l == seq![
        'c',
        'o',
        'm',
        'm',
        'o',
        'n',
        'm',
        'a',
        'r',
        'k',
    ] {
        Some(Format::Markdown)
    } else {
        None
    }
}

fn lit(s: &str) -> (r: Vec<char>)
    ensures
        r@ == s@,
{
    chars_of(s)
}

impl Format {
    pub fn parse(s: &str) -> (r: Option<Format>)
        ensures
            r == parse_format(s@),
    {
        let l = lower_vec(&chars_of(s));
        let names = [
            lit("html"),
            lit("pdf"),
            lit("docx"),
            lit("revealjs"),
            lit("slides"),
            lit("beamer"),
            lit("md"),
            lit("markdown"),
            lit("commonmark"),
        ];
        proof {
            reveal_strlit("html");
            reveal_strlit("pdf");
            reveal_strlit("docx");
            reveal_strlit("revealjs");
            reveal_strlit("slides");
            reveal_strlit("beamer");
            reveal_strlit("md");
            reveal_strlit("markdown");
            reveal_strlit("commonmark");
            assert(names[0]@ =~= seq!['h', 't', 'm', 'l']);
            assert(names[1]@ =~= seq!['p', 'd', 'f']);
            assert(names[2]@ =~= seq!['d', 'o', 'c', 'x']);
            assert(names[3]@ =~= seq!['r', 'e', 'v', 'e', 'a', 'l', 'j', 's']);
            assert(names[4]@ =~= seq!['s', 'l', 'i', 'd', 'e', 's']);
            assert(names[5]@ =~= seq!['b', 'e', 'a', 'm', 'e', 'r']);
            assert(names[6]@ =~= seq!['m', 'd']);
            assert(names[7]@ =~= seq!['m', 'a', 'r', 'k', 'd', 'o', 'w', 'n']);
            assert(names[8]@ =~= seq!['c', 'o', 'm', 'm', 'o', 'n', 'm', 'a', 'r', 'k']);
        }
        if eq(&l, &names[0]) {
            Some(Format::Html)
        } else if eq(&l, &names[1]) {
            Some(Format::Pdf)
        } else if eq(&l, &names[2]) {
            Some(Format::Docx)
        } else if eq(&l, &names[3]) || eq(&l, &names[4]) {
            Some(Format::RevealJs)
        } else if eq(&l, &names[5]) {
            Some(Format::Beamer)
        } else if eq(&l, &names[6]) || eq(&l, &names[7]) || eq(&l, &names[8]) {
            Some(Format::Markdown)
        } else {
            None
        }
    }

    /// The writer pandoc is asked for.
    pub fn pandoc_name(self) -> (r: &'static str)
        ensures
            r@ == match self {
                Format::Html => "html5"@,
                Format::Pdf => "pdf"@,
                Format::Docx => "docx"@,
                Format::RevealJs => "revealjs"@,
                Format::Beamer => "beamer"@,
                Format::Markdown => "commonmark_x"@,
            },
    {
        match self {
            Format::Html => "html5",
            Format::Pdf => "pdf",
            Format::Docx => "docx",
            Format::RevealJs => "revealjs",
            Format::Beamer => "beamer",
            Format::Markdown => "commonmark_x",
        }
    }

    pub fn mime(self) -> (r: &'static str)
        ensures
            r@ == match self {
                Format::Html | Format::RevealJs => "text/html; charset=utf-8"@,
                Format::Pdf | Format::Beamer => "application/pdf"@,
                Format::Docx => "application/vnd.openxmlformats-officedocument.wordprocessingml.document"@,
                Format::Markdown => "text/markdown; charset=utf-8"@,
            },
    {
        match self {
            Format::Html | Format::RevealJs => "text/html; charset=utf-8",
            Format::Pdf | Format::Beamer => "application/pdf",
            Format::Docx => "application/vnd.openxmlformats-officedocument.wordprocessingml.document",
            Format::Markdown => "text/markdown; charset=utf-8",
        }
    }

    pub fn extension(self) -> (r: &'static str)
        ensures
            r@ == match self {
                Format::Html | Format::RevealJs => "html"@,
                Format::Pdf | Format::Beamer => "pdf"@,
                Format::Docx => "docx"@,
                Format::Markdown => "md"@,
            },
    {
        match self {
            Format::Html | Format::RevealJs => "html",
            Format::Pdf | Format::Beamer => "pdf",
            Format::Docx => "docx",
            Format::Markdown => "md",
        }
    }

    /// Formats pandoc writes as bytes to a file rather than text on stdout.
    pub fn binary(self) -> (r: bool)
        ensures
            r == (self == Format::Pdf || self == Format::Beamer || self == Format::Docx),
    {
        match self {
            Format::Pdf | Format::Beamer | Format::Docx => true,
            _ => false,
        }
    }
}

/// The pandoc reader for this dialect: pandoc markdown plus wikilinks (`[[target|title]]`).
pub const READER: &'static str = "markdown+wikilinks_title_after_pipe+tex_math_dollars+fenced_divs+bracketed_spans";

/// How an export runs.
#[derive(Debug, Clone)]
pub struct ExportOptions {
    /// `pandoc` binary; `None` → `pandoc` on `PATH`.
    pub pandoc: Option<String>,
    /// Vault directory, used to resolve images/attachments and `export/defaults.yaml`.
    pub resource_dir: Option<String>,
    /// Drop the front matter block before rendering (ids are not for readers).
    pub strip_front_matter: bool,
    pub standalone: bool,
    /// Bibliography files to cite from (`--citeproc`), on disk; see [`citation_files`].
    pub bibliography: Vec<String>,
    /// Citation style, on disk.
    pub csl: Option<String>,
}

impl Default for ExportOptions {
    fn default() -> (r: ExportOptions)
        ensures
            r.pandoc is None,
            r.resource_dir is None,
            r.strip_front_matter,
            r.standalone,
            r.bibliography@.len() == 0,
            r.csl is None,
    {
        ExportOptions {
            pandoc: None,
            resource_dir: None,
            strip_front_matter: true,
            standalone: true,
            bibliography: Vec::new(),
            csl: None,
        }
    }
}

/// The writer pandoc is asked for, by format.
pub open spec fn writer_name(f: Format) -> Seq<char> {
    match f {
        Format::Html => "html5"@,
        Format::Pdf => "pdf"@,
        Format::Docx => "docx"@,
        Format::RevealJs => "revealjs"@,
        Format::Beamer => "beamer"@,
        Format::Markdown => "commonmark_x"@,
    }
}

/// A flag and its value, when there is a value.
pub open spec fn opt_pair(flag: Seq<char>, v: Option<Seq<char>>) -> Seq<Seq<char>> {
    match v {
        Some(x) => seq![flag, x],
        None => seq![],
    }
}

/// `--bibliography <file>` for each file, in order.
pub open spec fn bibliography_args(bs: Seq<Seq<char>>) -> Seq<Seq<char>>
    decreases bs.len(),
{
    if bs.len() == 0 {
        seq![]
    } else {
        bibliography_args(bs.drop_last()) + seq!["--bibliography"@, bs.last()]
    }
}

/// The arguments pandoc is run with: the reader and the writer; `--standalone` when asked;
/// MathJax for the HTML formats; the resource path and, when the vault has one, its
/// `export/defaults.yaml`; citeproc with each bibliography and the style when there are
/// bibliographies; and, for the formats written as bytes, the file to write.
pub open spec fn pandoc_args_spec(
    format: Format,
    standalone: bool,
    resource_dir: Option<Seq<char>>,
    defaults: Option<Seq<char>>,
    bibliography: Seq<Seq<char>>,
    csl: Option<Seq<char>>,
    out_path: Seq<char>,
) -> Seq<Seq<char>> {
    seq!["-f"@, READER@, "-t"@, writer_name(format)] + (if standalone {
        seq!["--standalone"@]
    } else {
        seq![]
    }) + (if format == Format::Html || format == Format::RevealJs {
        seq!["--mathjax"@]
    } else {
        seq![]
    }) + (match resource_dir {
        Some(d) => seq!["--resource-path"@, d] + opt_pair("--defaults"@, defaults),
        None => seq![],
    }) + (if bibliography.len() > 0 {
        seq!["--citeproc"@] + bibliography_args(bibliography) + opt_pair("--csl"@, csl)
    } else {
        seq![]
    }) + (if format == Format::Pdf || format == Format::Beamer || format == Format::Docx {
        seq!["-o"@, out_path]
    } else {
        seq![]
    })
}

/// The text of an optional string slice.
pub open spec fn opt_str(o: Option<&str>) -> Option<Seq<char>> {
    match o {
        Some(s) => Some(s@),
        None => None,
    }
}

fn push_arg(out: &mut Vec<String>, a: &str)
    ensures
        str_views(final(out)@) == str_views(old(out)@).push(a@),
{
    out.push(a.to_owned());
    proof {
        assert(str_views(out@) =~= str_views(old(out)@).push(a@));
    }
}

fn push_opt_pair(out: &mut Vec<String>, flag: &str, v: Option<&str>)
    ensures
        str_views(final(out)@) == str_views(old(out)@) + opt_pair(flag@, opt_str(v)),
{
    match v {
        Some(x) => {
            push_arg(out, flag);
            push_arg(out, x);
        },
        None => {},
    }
    proof {
        assert(str_views(out@) =~= str_views(old(out)@) + opt_pair(flag@, opt_str(v)));
    }
}

fn push_bibliography(out: &mut Vec<String>, bibs: &Vec<String>)
    ensures
        str_views(final(out)@) == str_views(old(out)@) + bibliography_args(str_views(bibs@)),
{
    let ghost before = str_views(out@);
    let ghost bs = str_views(bibs@);
    let mut i: usize = 0;
    proof {
        assert(bs.take(0) =~= Seq::<Seq<char>>::empty());
        assert(str_views(out@) =~= before + bibliography_args(bs.take(0)));
    }
    while i < bibs.len()
        invariant
            i <= bibs@.len(),
            bs == str_views(bibs@),
            str_views(out@) == before + bibliography_args(bs.take(i as int)),
        decreases bibs@.len() - i,
    {
        push_arg(out, "--bibliography");
        push_arg(out, bibs[i].as_str());
        proof {
            assert(bs.take(i + 1).drop_last() =~= bs.take(i as int));
            assert(bs.take(i + 1).last() == bibs@[i as int]@);
            assert(str_views(out@) =~= before + bibliography_args(bs.take(i + 1)));
        }
        i += 1;
    }
    proof {
        assert(bs.take(bs.len() as int) =~= bs);
    }
}

fn opt_as_str(o: &Option<String>) -> (r: Option<&str>)
    ensures
        opt_str(r) == opt_view(*o),
{
    match o {
        Some(x) => Some(x.as_str()),
        None => None,
    }
}

/// The arguments pandoc is run with to export to `format` (see [`pandoc_args_spec`]):
/// `defaults` is the vault's `export/defaults.yaml` when it is a file, `out_path` the file a
/// binary format is written to.
#[verifier::rlimit(30)]
pub fn pandoc_args(format: Format, opts: &ExportOptions, defaults: Option<&str>, out_path: &str) -> (r: Vec<String>)
    ensures
        str_views(r@) == pandoc_args_spec(
            format,
            opts.standalone,
            opt_view(opts.resource_dir),
            opt_str(defaults),
            str_views(opts.bibliography@),
            opt_view(opts.csl),
            out_path@,
        ),
{
    let mut out: Vec<String> = Vec::new();
    push_arg(&mut out, "-f");
    push_arg(&mut out, READER);
    push_arg(&mut out, "-t");
    push_arg(&mut out, format.pandoc_name());
    let ghost p1 = str_views(out@);
    proof {
        assert(p1 =~= seq!["-f"@, READER@, "-t"@, writer_name(format)]);
    }
    if opts.standalone {
        push_arg(&mut out, "--standalone");
    }
    let ghost p2 = str_views(out@);
    match format {
        Format::Html | Format::RevealJs => push_arg(&mut out, "--mathjax"),
        _ => {},
    }
    let ghost p3 = str_views(out@);
    match &opts.resource_dir {
        Some(dir) => {
            push_arg(&mut out, "--resource-path");
            push_arg(&mut out, dir.as_str());
            push_opt_pair(&mut out, "--defaults", defaults);
        },
        None => {},
    }
    let ghost p4 = str_views(out@);
    if opts.bibliography.len() > 0 {
        push_arg(&mut out, "--citeproc");
        push_bibliography(&mut out, &opts.bibliography);
        push_opt_pair(&mut out, "--csl", opt_as_str(&opts.csl));
    }
    let ghost p5 = str_views(out@);
    if format.binary() {
        push_arg(&mut out, "-o");
        push_arg(&mut out, out_path);
    }
    proof {
        let a2: Seq<Seq<char>> = if opts.standalone {
            seq!["--standalone"@]
        } else {
            seq![]
        };
        assert(p2 =~= p1 + a2);
        let a3: Seq<Seq<char>> = if format == Format::Html || format == Format::RevealJs {
            seq!["--mathjax"@]
        } else {
            seq![]
        };
        assert(p3 =~= p2 + a3);
        let a4: Seq<Seq<char>> = match opt_view(opts.resource_dir) {
            Some(d) => seq!["--resource-path"@, d] + opt_pair("--defaults"@, opt_str(defaults)),
            None => seq![],
        };
        assert(p4 =~= p3 + a4);
        let a5: Seq<Seq<char>> = if str_views(opts.bibliography@).len() > 0 {
            seq!["--citeproc"@] + bibliography_args(str_views(opts.bibliography@)) + opt_pair(
                "--csl"@,
                opt_view(opts.csl),
            )
        } else {
            seq![]
        };
        assert(p5 =~= p4 + a5);
        let a6: Seq<Seq<char>> = if format == Format::Pdf || format == Format::Beamer || format == Format::Docx {
            seq!["-o"@, out_path@]
        } else {
            seq![]
        };
        assert(str_views(out@) =~= p5 + a6);
        assert(str_views(out@) =~= p1 + a2 + a3 + a4 + a5 + a6);
    }
    out
}

/// What pandoc reads: the note, without its front matter block when that is to be dropped.
pub fn export_input(markdown: &str, strip_front_matter: bool) -> (r: String)
    ensures
        r@ == (if strip_front_matter && block_chars(markdown@) is Some {
            markdown@.skip(block_chars(markdown@)->Some_0.2)
        } else {
            markdown@
        }),
{
    if !strip_front_matter {
        return markdown.to_owned();
    }
    let t = chars_of(markdown);
    match block_chars_exec(&t) {
        Some((_b, _a, e)) => {
            proof {
                lemma_block_chars(t@);
            }
            let rest = slice(&t, e, t.len());
            proof {
                assert(rest@ =~= markdown@.skip(e as int));
            }
            string_of(&rest)
        },
        None => markdown.to_owned(),
    }
}

/// The vault's bibliography and citation style, for notes that name none.
pub const VAULT_BIBLIOGRAPHY: &'static str = "export/references.bib";

pub const VAULT_CSL: &'static str = "export/style.csl";

/// What an export of one note cites from, as vault paths.
#[derive(Debug, Clone, PartialEq, Eq)]
pub struct Citations {
    pub bibliography: Vec<String>,
    pub csl: Option<String>,
}

impl Default for Citations {
    fn default() -> (r: Citations)
        ensures
            r.bibliography@.len() == 0,
            r.csl is None,
    {
        Citations { bibliography: Vec::new(), csl: None }
    }
}

/// The front matter of a note as YAML: null when it has none or it does not parse.
pub open spec fn front_matter_yaml(text: Seq<char>) -> Yaml {
    match block_chars(text) {
        Some((b, a, e)) => match yaml_document(text.subrange(b, a)) {
            Some(v) => v,
            None => Yaml::Null,
        },
        None => Yaml::Null,
    }
}

/// A front-matter value as a file of the vault: a string, taken relative to the note, that
/// stays in the vault and is one of `files`.
pub open spec fn cited_file(note: Seq<char>, v: Yaml, files: Seq<Seq<char>>) -> Option<Seq<char>> {
    match yaml_as_str(v) {
        Some(p) => match normalize_relative_spec(note, trim(p)) {
            Some(n) => if files.contains(n) {
                Some(n)
            } else {
                None
            },
            None => None,
        },
        None => None,
    }
}

/// The files among a list of front-matter values, in order.
pub open spec fn cited_files(note: Seq<char>, vs: Seq<Yaml>, files: Seq<Seq<char>>) -> Seq<Seq<char>>
    decreases vs.len(),
{
    if vs.len() == 0 {
        seq![]
    } else {
        match cited_file(note, vs.last(), files) {
            Some(p) => cited_files(note, vs.drop_last(), files).push(p),
            None => cited_files(note, vs.drop_last(), files),
        }
    }
}

pub open spec fn lit_vault_bibliography() -> Seq<char> {
    seq!['e', 'x', 'p', 'o', 'r', 't', '/', 'r', 'e', 'f', 'e', 'r', 'e', 'n', 'c', 'e', 's', '.', 'b', 'i', 'b']
}

pub open spec fn lit_vault_csl() -> Seq<char> {
    seq!['e', 'x', 'p', 'o', 'r', 't', '/', 's', 't', 'y', 'l', 'e', '.', 'c', 's', 'l']
}

/// The citation files of a note, as (bibliography, style): the note's own `bibliography:` (one
/// path or a list) and `csl:`, as files of the vault; failing a bibliography of its own, the
/// vault's `export/references.bib`; the vault's `export/style.csl` as the style the note names
/// none; nothing when there is no bibliography at all.
pub open spec fn citation_spec(note: Seq<char>, text: Seq<char>, files: Seq<Seq<char>>) -> (Seq<Seq<char>>, Option<Seq<char>>) {
    let meta = front_matter_yaml(text);
    let own = match yaml_get(meta, seq!['b', 'i', 'b', 'l', 'i', 'o', 'g', 'r', 'a', 'p', 'h', 'y']) {
        Some(Yaml::List(items)) => cited_files(note, items@, files),
        Some(v) => match cited_file(note, v, files) {
            Some(p) => seq![p],
            None => seq![],
        },
        None => seq![],
    };
    let named_csl = match yaml_get(meta, seq!['c', 's', 'l']) {
        Some(v) => cited_file(note, v, files),
        None => None,
    };
    let csl = match named_csl {
        Some(c) => Some(c),
        None => if files.contains(lit_vault_csl()) {
            Some(lit_vault_csl())
        } else {
            None
        },
    };
    if own.len() > 0 {
        (own, csl)
    } else if files.contains(lit_vault_bibliography()) {
        (seq![lit_vault_bibliography()], csl)
    } else {
        (seq![], None)
    }
}

fn cited_file_exec(note: &str, v: &Yaml, files: &[String]) -> (r: Option<String>)
    ensures
        opt_view(r) == cited_file(note@, *v, str_views(files@)),
{
    match yaml_as_str_exec(v) {
        Some(p) => {
            let t = string_of(&trim_exec(&chars_of(p.as_str())));
            match Projection::normalize_relative(note, t.as_str()) {
                Some(n) => if has_file(files, &chars_of(n.as_str())) {
                    Some(n)
                } else {
                    None
                },
                None => None,
            }
        },
        None => None,
    }
}

/// The citation files for exporting the note at `note_path` (see `citation_spec`); `files`
/// are the vault's files, and nothing outside them is returned.
pub fn citation_files(note_path: &str, markdown: &str, files: &[String]) -> (r: Citations)
    ensures
        (str_views(r.bibliography@), opt_view(r.csl)) == citation_spec(note_path@, markdown@, str_views(files@)),
{
    let t = chars_of(markdown);
    let meta: Yaml = match block_chars_exec(&t) {
        Some((b, a, _e)) => {
            proof {
                lemma_block_chars(t@);
            }
            match parse_yaml(string_of(&slice(&t, b, a)).as_str()) {
                Some(v) => v,
                None => Yaml::Null,
            }
        },
        None => Yaml::Null,
    };
    proof {
        reveal_strlit("bibliography");
        reveal_strlit("csl");
        reveal_strlit("export/references.bib");
        reveal_strlit("export/style.csl");
        assert("bibliography"@ =~= seq!['b', 'i', 'b', 'l', 'i', 'o', 'g', 'r', 'a', 'p', 'h', 'y']);
        assert("csl"@ =~= seq!['c', 's', 'l']);
        assert(VAULT_BIBLIOGRAPHY@ =~= lit_vault_bibliography());
        assert(VAULT_CSL@ =~= lit_vault_csl());
        assert(meta == front_matter_yaml(markdown@));
    }
    let mut own: Vec<String> = Vec::new();
    match yaml_get_exec(&meta, "bibliography") {
        Some(Yaml::List(items)) => {
            let mut i: usize = 0;
            proof {
                assert(items@.take(0) =~= Seq::<Yaml>::empty());
                assert(str_views(own@) =~= Seq::<Seq<char>>::empty());
            }
            while i < items.len()
                invariant
                    i <= items@.len(),
                    str_views(own@) == cited_files(note_path@, items@.take(i as int), str_views(files@)),
                decreases items@.len() - i,
            {
                proof {
                    assert(items@.take(i + 1).drop_last() =~= items@.take(i as int));
                    assert(items@.take(i + 1).last() == items@[i as int]);
                }
                match cited_file_exec(note_path, &items[i], files) {
                    Some(p) => {
                        own.push(p);
                        proof {
                            assert(str_views(own@) =~= str_views(own@.drop_last()).push(own@.last()@));
                        }
                    },
                    None => {},
                }
                i += 1;
            }
            proof {
                assert(items@.take(items@.len() as int) =~= items@);
            }
        },
        Some(v) => {
            match cited_file_exec(note_path, v, files) {
                Some(p) => {
                    own.push(p);
                },
                None => {},
            }
            proof {
                assert(str_views(own@) =~= (match cited_file(note_path@, *v, str_views(files@)) {
                    Some(p) => seq![p],
                    None => Seq::<Seq<char>>::empty(),
                }));
            }
        },
        None => {
            proof {
                assert(str_views(own@) =~= Seq::<Seq<char>>::empty());
            }
        },
    }
    let named_csl = match yaml_get_exec(&meta, "csl") {
        Some(v) => cited_file_exec(note_path, v, files),
        None => None,
    };
    let csl = match named_csl {
        Some(c) => Some(c),
        None => if has_file(files, &chars_of(VAULT_CSL)) {
            Some(VAULT_CSL.to_owned())
        } else {
            None
        },
    };
    if own.len() > 0 {
        Citations { bibliography: own, csl }
    } else if has_file(files, &chars_of(VAULT_BIBLIOGRAPHY)) {
        let b = vec![VAULT_BIBLIOGRAPHY.to_owned()];
        proof {
            assert(str_views(b@) =~= seq![lit_vault_bibliography()]);
        }
        Citations { bibliography: b, csl }
    } else {
        let r = Citations::default();
        proof {
            assert(str_views(r.bibliography@) =~= Seq::<Seq<char>>::empty());
        }
        r
    }
}

} // verus!
