//! Rendering a note through Quarto: the formats a render produces, the note as Quarto should
//! read it, where the note and its files go in the project a render builds, and what a failed
//! render says.
//!
//! A render never runs code: `--no-execute` is always passed, so a `{python}` cell is shown,
//! not run.
use vstd::prelude::*;
use crate::attachments::{resolve_reference, resolve_reference_spec};
use crate::error::Error;
use crate::yaml::{emit_yaml, from_pairs, im_insert, im_insert_exec, im_remove, im_remove_exec, key_index, key_index_exec, lemma_im_insert_named, lemma_im_remove_named, lemma_string_like, lemma_tags_named_list, lemma_tags_named_map, lemma_yv_list_index, opt_yv, parse_yaml_or_error, string_like, tags_named, tags_named_list, tags_named_map, yaml_as_str_exec, yaml_document, yaml_emit, yaml_error_text, yv, yv_list, yv_map, Yaml, YamlV};
use crate::import::{closes_fence, closes_fence_exec, fence_marker, fence_marker_exec, fence_view, run_len, run_len_exec};
use crate::projection::{dot, dotdot, file_name, file_name_exec, str_views, views};
use crate::text::{append, chars_of, concat, contains, contains_char, eq, find, find_exec, is_ascii_alpha, is_ascii_digit, join, join_exec, lemma_find, lines, lines_exec, lower_seq, lower_vec, rfind, rfind_char, slice, split, split_exec, split_inclusive, split_inclusive_exec, starts_with, starts_with_exec, string_of, trim, trim_end, trim_end_exec, trim_end_pat, trim_end_pat_exec, trim_exec, trim_start, trim_start_exec, trim_start_pat, trim_start_pat_exec};

verus! {

broadcast use vstd::seq_lib::group_seq_properties;

/// What a render can produce.
#[derive(Debug, Clone, Copy, PartialEq, Eq, Structural)]
pub enum Format {
    /// One self-contained page — what the app shows in its preview pane.
    Html,
    /// PDF through Typst, which Quarto bundles.
    Pdf,
    Docx,
    /// reveal.js slides, self-contained like `Html`.
    RevealJs,
}

/// The format a name asks for, in any case.
pub open spec fn parse_format(s: Seq<char>) -> Option<Format> {
    let l = lower_seq(s);
    if l == seq!['h', 't', 'm', 'l'] {
        Some(Format::Html)
    } else if l == seq!['p', 'd', 'f'] || l == seq!['t', 'y', 'p', 's', 't'] {
        Some(Format::Pdf)
    } else if l == seq!['d', 'o', 'c', 'x'] {
        Some(Format::Docx)
    } else if l == seq!['r', 'e', 'v', 'e', 'a', 'l', 'j', 's'] || l == seq!['s', 'l', 'i', 'd', 'e', 's'] {
        Some(Format::RevealJs)
    } else {
        None
    }
}

pub open spec fn format_extension(f: Format) -> Seq<char> {
    match f {
        Format::Html | Format::RevealJs => seq!['h', 't', 'm', 'l'],
        Format::Pdf => seq!['p', 'd', 'f'],
        Format::Docx => seq!['d', 'o', 'c', 'x'],
    }
}

fn lit(s: &str) -> (r: Vec<char>)
    ensures
        r@ == s@,
{
    chars_of(s)
}

impl Format {
    pub fn parse(s: &str) -> (r: Option<Format>)
        ensures
            r == parse_format(s@),
    {
        let l = lower_vec(&chars_of(s));
        let html = lit("html");
        let pdf = lit("pdf");
        let typst = lit("typst");
        let docx = lit("docx");
        let reveal = lit("revealjs");
        let slides = lit("slides");
        proof {
            reveal_strlit("html");
            reveal_strlit("pdf");
            reveal_strlit("typst");
            reveal_strlit("docx");
            reveal_strlit("revealjs");
            reveal_strlit("slides");
            assert(html@ =~= seq!['h', 't', 'm', 'l']);
            assert(pdf@ =~= seq!['p', 'd', 'f']);
            assert(typst@ =~= seq!['t', 'y', 'p', 's', 't']);
            assert(docx@ =~= seq!['d', 'o', 'c', 'x']);
            assert(reveal@ =~= seq!['r', 'e', 'v', 'e', 'a', 'l', 'j', 's']);
            assert(slides@ =~= seq!['s', 'l', 'i', 'd', 'e', 's']);
        }
        if eq(&l, &html) {
            Some(Format::Html)
        } else if eq(&l, &pdf) || eq(&l, &typst) {
            Some(Format::Pdf)
        } else if eq(&l, &docx) {
            Some(Format::Docx)
        } else if eq(&l, &reveal) || eq(&l, &slides) {
            Some(Format::RevealJs)
        } else {
            None
        }
    }

    /// The `--to` Quarto is given.
    pub fn quarto_name(self) -> (r: &'static str)
        ensures
            r@ == match self {
                Format::Html => seq!['h', 't', 'm', 'l'],
                Format::Pdf => seq!['t', 'y', 'p', 's', 't'],
                Format::Docx => seq!['d', 'o', 'c', 'x'],
                Format::RevealJs => seq!['r', 'e', 'v', 'e', 'a', 'l', 'j', 's'],
            },
    {
        proof {
            reveal_strlit("html");
            reveal_strlit("typst");
            reveal_strlit("docx");
            reveal_strlit("revealjs");
        }
        match self {
            Format::Html => "html",
            Format::Pdf => "typst",
            Format::Docx => "docx",
            Format::RevealJs => "revealjs",
        }
    }

    pub fn extension(self) -> (r: &'static str)
        ensures
            r@ == format_extension(self),
    {
        proof {
            reveal_strlit("html");
            reveal_strlit("pdf");
            reveal_strlit("docx");
        }
        match self {
            Format::Html | Format::RevealJs => "html",
            Format::Pdf => "pdf",
            Format::Docx => "docx",
        }
    }

    pub fn mime(self) -> (r: &'static str)
        ensures
            r@ == match self {
                Format::Html | Format::RevealJs => "text/html; charset=utf-8"@,
                Format::Pdf => "application/pdf"@,
                Format::Docx => "application/vnd.openxmlformats-officedocument.wordprocessingml.document"@,
            },
    {
        match self {
            Format::Html | Format::RevealJs => "text/html; charset=utf-8",
            Format::Pdf => "application/pdf",
            Format::Docx => "application/vnd.openxmlformats-officedocument.wordprocessingml.document",
        }
    }
}

/// The texts of optional strings.
pub open spec fn opt_strs(v: Seq<Option<String>>) -> Seq<Option<Seq<char>>> {
    v.map_values(|o: Option<String>| crate::remote::opt_view(o))
}

/// The text of `s` before its first `c`, or all of it.
pub open spec fn before_char(s: Seq<char>, c: char) -> Seq<char>
    decreases s.len(),
{
    if s.len() == 0 {
        s
    } else if s[0] == c {
        seq![]
    } else {
        seq![s[0]] + before_char(s.drop_first(), c)
    }
}

/// The page-like format a declared format names, ignoring its `+extensions`.
pub open spec fn page_format(name: Seq<char>) -> Option<Format> {
    let base = before_char(name, '+');
    if base == "revealjs"@ {
        Some(Format::RevealJs)
    } else if base == "html"@ {
        Some(Format::Html)
    } else {
        None
    }
}

/// The first of the declared formats that is page-like.
pub open spec fn first_page_format(names: Seq<Option<Seq<char>>>) -> Option<Format>
    decreases names.len(),
{
    if names.len() == 0 {
        None
    } else {
        match names[0] {
            Some(n) => match page_format(n) {
                Some(f) => Some(f),
                None => first_page_format(names.drop_first()),
            },
            None => first_page_format(names.drop_first()),
        }
    }
}

/// The formats a `format:` value declares, in order: the string itself, each string of a list,
/// or each key of a mapping (what is not a string declares nothing).
pub open spec fn declared_formats(f: Option<Yaml>) -> Seq<Option<Seq<char>>> {
    match f {
        Some(Yaml::Str(s)) => seq![Some(s@)],
        Some(Yaml::List(items)) => items@.map_values(|x: Yaml| crate::yaml::yaml_as_str(x)),
        Some(Yaml::Mapping(es)) => es@.map_values(|e: (Yaml, Yaml)| crate::yaml::yaml_as_str(e.0)),
        _ => seq![],
    }
}

/// What the preview pane renders a note as: the first page-like format its front matter
/// declares, else a plain page.
pub open spec fn preview_format_spec(text: Seq<char>) -> Format {
    match crate::frontmatter::block_chars(text) {
        Some((b, a, _e)) => match yaml_document(text.subrange(b, a)) {
            Some(Yaml::Mapping(es)) => match first_page_format(
                declared_formats(crate::yaml::yaml_get(Yaml::Mapping(es), "format"@)),
            ) {
                Some(f) => f,
                None => Format::Html,
            },
            _ => Format::Html,
        },
        None => Format::Html,
    }
}

fn before_plus(s: &[char]) -> (r: Vec<char>)
    ensures
        r@ == before_char(s@, '+'),
{
    let mut i: usize = 0;
    while i < s.len() && s[i] != '+'
        invariant
            i <= s@.len(),
            forall|k: int| 0 <= k < i ==> s@[k] != '+',
            before_char(s@, '+') == s@.take(i as int) + before_char(s@.skip(i as int), '+'),
        decreases s@.len() - i,
    {
        proof {
            let rest = s@.skip(i as int);
            assert(rest.drop_first() =~= s@.skip(i + 1));
            assert(s@.take(i + 1) =~= s@.take(i as int) + seq![s@[i as int]]);
        }
        i += 1;
    }
    proof {
        if i < s.len() {
            assert(s@.skip(i as int)[0] == '+');
        } else {
            assert(s@.skip(i as int) =~= Seq::<char>::empty());
        }
    }
    slice(s, 0, i)
}

fn page_format_exec(name: &str) -> (r: Option<Format>)
    ensures
        r == page_format(name@),
{
    let b = before_plus(&chars_of(name));
    if eq(&b, &chars_of("revealjs")) {
        Some(Format::RevealJs)
    } else if eq(&b, &chars_of("html")) {
        Some(Format::Html)
    } else {
        None
    }
}

fn declared_formats_exec(f: Option<&Yaml>) -> (r: Vec<Option<String>>)
    ensures
        opt_strs(r@) == declared_formats(
            match f {
                Some(y) => Some(*y),
                None => None,
            },
        ),
{
    let mut out: Vec<Option<String>> = Vec::new();
    match f {
        Some(Yaml::Str(s)) => {
            out.push(Some(s.as_str().to_owned()));
            proof {
                assert(opt_strs(out@) =~= seq![Some(s@)]);
            }
        },
        Some(Yaml::List(items)) => {
            let ghost want = items@.map_values(|x: Yaml| crate::yaml::yaml_as_str(x));
            let mut i: usize = 0;
            while i < items.len()
                invariant
                    i <= items@.len(),
                    out@.len() == i,
                    want == items@.map_values(|x: Yaml| crate::yaml::yaml_as_str(x)),
                    opt_strs(out@) =~= want.take(i as int),
                decreases items@.len() - i,
            {
                let x = yaml_as_str_exec(&items[i]);
                let ghost prev = out@;
                out.push(x);
                proof {
                    assert(crate::remote::opt_view(x) == want[i as int]);
                    assert(out@ =~= prev.push(x));
                    assert forall|k: int| 0 <= k < i + 1 implies opt_strs(out@)[k] == want.take(i + 1)[k] by {
                        if k < i {
                            assert(opt_strs(prev)[k] == want.take(i as int)[k]);
                        }
                    }
                    assert(opt_strs(out@) =~= want.take(i + 1));
                }
                i += 1;
            }
            proof {
                assert(want.take(items@.len() as int) =~= want);
            }
        },
        Some(Yaml::Mapping(es)) => {
            let ghost want = es@.map_values(|e: (Yaml, Yaml)| crate::yaml::yaml_as_str(e.0));
            let mut i: usize = 0;
            while i < es.len()
                invariant
                    i <= es@.len(),
                    out@.len() == i,
                    want == es@.map_values(|e: (Yaml, Yaml)| crate::yaml::yaml_as_str(e.0)),
                    opt_strs(out@) =~= want.take(i as int),
                decreases es@.len() - i,
            {
                let x = yaml_as_str_exec(&es[i].0);
                let ghost prev = out@;
                out.push(x);
                proof {
                    assert(crate::remote::opt_view(x) == want[i as int]);
                    assert(out@ =~= prev.push(x));
                    assert forall|k: int| 0 <= k < i + 1 implies opt_strs(out@)[k] == want.take(i + 1)[k] by {
                        if k < i {
                            assert(opt_strs(prev)[k] == want.take(i as int)[k]);
                        }
                    }
                    assert(opt_strs(out@) =~= want.take(i + 1));
                }
                i += 1;
            }
            proof {
                assert(want.take(es@.len() as int) =~= want);
            }
        },
        _ => {
            proof {
                assert(opt_strs(out@) =~= Seq::<Option<Seq<char>>>::empty());
            }
        },
    }
    out
}

/// What the preview pane renders a note as: the first page-like format its front matter
/// declares (so a deck previews as slides), else a plain page. A render asked for as
/// `"preview"` resolves through here.
pub fn preview_format(text: &str) -> (r: Format)
    ensures
        r == preview_format_spec(text@),
{
    let t = chars_of(text);
    match crate::frontmatter::block_chars_exec(&t) {
        None => Format::Html,
        Some((b, a, _e)) => {
            proof {
                crate::frontmatter::lemma_block_chars(t@);
            }
            let y = string_of(&slice(&t, b, a));
            match crate::yaml::parse_yaml(y.as_str()) {
                Some(doc) => match &doc {
                    Yaml::Mapping(_) => {
                        let f = crate::yaml::yaml_get_exec(&doc, "format");
                        let names = declared_formats_exec(f);
                        let ghost ns = opt_strs(names@);
                        let mut i: usize = 0;
                        proof {
                            assert(ns.skip(0) =~= ns);
                            assert(y@ =~= text@.subrange(b as int, a as int));
                            assert(ns == declared_formats(crate::yaml::yaml_get(doc, "format"@)));
                            assert(preview_format_spec(text@) == match first_page_format(ns) {
                                Some(f) => f,
                                None => Format::Html,
                            });
                        }
                        while i < names.len()
                            invariant
                                i <= names@.len(),
                                preview_format_spec(text@) == match first_page_format(ns) {
                                    Some(f) => f,
                                    None => Format::Html,
                                },
                                ns == opt_strs(names@),
                                first_page_format(ns) == first_page_format(ns.skip(i as int)),
                            decreases names@.len() - i,
                        {
                            proof {
                                assert(ns.skip(i as int).drop_first() =~= ns.skip(i + 1));
                            }
                            match &names[i] {
                                Some(n) => match page_format_exec(n.as_str()) {
                                    Some(fm) => {
                                        proof {
                                            assert(ns.skip(i as int).len() > 0);
                                            assert(ns.skip(i as int)[0] == ns[i as int]);
                                            assert(ns[i as int] == Some(n@));
                                            assert(first_page_format(ns.skip(i as int)) == Some(fm));
                                        }
                                        return fm;
                                    },
                                    None => {},
                                },
                                None => {},
                            }
                            i += 1;
                        }
                        proof {
                            assert(ns.skip(i as int) =~= Seq::<Option<Seq<char>>>::empty());
                        }
                        Format::Html
                    },
                    _ => Format::Html,
                },
                None => Format::Html,
            }
        },
    }
}

/// `Path::file_stem`: the file name before its last `.` (a leading dot does not count).
pub open spec fn path_file_stem(p: Seq<char>) -> Option<Seq<char>> {
    match file_name(p) {
        Some(n) => Some(
            match rfind(n, seq!['.']) {
                Some(i) => if i > 0 {
                    n.take(i)
                } else {
                    n
                },
                None => n,
            },
        ),
        None => None,
    }
}

/// Characters a file name in a header cannot carry.
pub open spec fn header_unsafe(c: char) -> bool {
    c == '"' || c == '\\' || c == '\r' || c == '\n'
}

/// The note's file stem without the characters a header cannot carry, or `note`.
pub open spec fn disposition_stem(note_path: Seq<char>) -> Seq<char> {
    match path_file_stem(note_path) {
        Some(s) => {
            let clean = s.filter(|c: char| !header_unsafe(c));
            if clean.len() > 0 {
                clean
            } else {
                seq!['n', 'o', 't', 'e']
            }
        },
        None => seq!['n', 'o', 't', 'e'],
    }
}

pub open spec fn disposition_spec(note_path: Seq<char>, format: Format) -> Seq<char> {
    seq!['i', 'n', 'l', 'i', 'n', 'e', ';', ' ', 'f', 'i', 'l', 'e', 'n', 'a', 'm', 'e', '=', '"']
        + disposition_stem(note_path) + seq!['.'] + format_extension(format) + seq!['"']
}

fn path_file_stem_exec(p: &[char]) -> (r: Option<Vec<char>>)
    ensures
        match r {
            Some(s) => path_file_stem(p@) == Some(s@),
            None => path_file_stem(p@) is None,
        },
{
    match file_name_exec(p) {
        Some(n) => {
            proof {
                crate::text::lemma_rfind_before(n@, seq!['.'], n@.len() + 1int);
            }
            match rfind_char(&n, '.') {
                Some(i) => if i > 0 {
                    Some(slice(&n, 0, i))
                } else {
                    Some(n)
                },
                None => Some(n),
            }
        },
        None => None,
    }
}

/// The `Content-Disposition` a render is served with: inline, so HTML can be shown in place,
/// and named after the note for whoever saves it.
pub fn disposition(note_path: &str, format: Format) -> (r: String)
    ensures
        r@ == disposition_spec(note_path@, format),
{
    let stem: Vec<char> = match path_file_stem_exec(&chars_of(note_path)) {
        Some(s) => {
            let mut clean: Vec<char> = Vec::new();
            let mut i: usize = 0;
            while i < s.len()
                invariant
                    i <= s@.len(),
                    clean@ == s@.take(i as int).filter(|c: char| !header_unsafe(c)),
                decreases s.len() - i,
            {
                let c = s[i];
                proof {
                    assert(s@.take(i + 1).drop_last() =~= s@.take(i as int));
                    s@.take(i as int).lemma_filter_push(c, |c: char| !header_unsafe(c));
                    assert(s@.take(i as int).push(c) =~= s@.take(i + 1));
                }
                if !(c == '"' || c == '\\' || c == '\r' || c == '\n') {
                    clean.push(c);
                }
                i += 1;
            }
            proof {
                assert(s@.take(s@.len() as int) =~= s@);
            }
            if clean.len() > 0 {
                clean
            } else {
                let n = lit("note");
                proof {
                    reveal_strlit("note");
                }
                n
            }
        },
        None => {
            let n = lit("note");
            proof {
                reveal_strlit("note");
            }
            n
        },
    };
    let mut out = lit("inline; filename=\"");
    proof {
        reveal_strlit("inline; filename=\"");
        assert(out@ =~= seq!['i', 'n', 'l', 'i', 'n', 'e', ';', ' ', 'f', 'i', 'l', 'e', 'n', 'a', 'm', 'e', '=', '"']);
        assert(stem@ =~= disposition_stem(note_path@));
    }
    append(&mut out, &stem);
    out.push('.');
    append(&mut out, &chars_of(format.extension()));
    out.push('"');
    string_of(&out)
}

/// How long a render may take, and which Quarto runs it.
#[derive(Debug, Clone)]
pub struct RenderOptions {
    /// `quarto` binary; `None` → `$LEMMATE_QUARTO`, then `quarto` on `PATH`.
    pub quarto: Option<String>,
    /// A render that takes longer, in seconds, is killed.
    pub timeout_secs: u64,
}

impl Default for RenderOptions {
    fn default() -> (r: RenderOptions)
        ensures
            r.quarto is None,
            r.timeout_secs == 120,
    {
        RenderOptions { quarto: None, timeout_secs: 120 }
    }
}

// ---------------------------------------------------------------------------------------------
// The note as Quarto reads it
// ---------------------------------------------------------------------------------------------

/// Characters that mean something to Quarto's inline reader.
pub open spec fn inline_special(c: char) -> bool {
    c == '[' || c == ']' || c == '*' || c == '_' || c == '`' || c == '\\' || c == '$' || c == '<' || c == '>'
        || c == '#' || c == '^' || c == '~' || c == '@'
}

/// Each special character escaped with a backslash.
pub open spec fn escape_inline(s: Seq<char>) -> Seq<char>
    decreases s.len(),
{
    if s.len() == 0 {
        Seq::empty()
    } else {
        escape_inline(s.drop_last()) + if inline_special(s.last()) {
            seq!['\\', s.last()]
        } else {
            seq![s.last()]
        }
    }
}

/// How many `/` a path has.
pub open spec fn slash_count(p: Seq<char>) -> nat
    decreases p.len(),
{
    if p.len() == 0 {
        0
    } else {
        slash_count(p.drop_last()) + if p.last() == '/' {
            1nat
        } else {
            0
        }
    }
}

/// `../` once per folder of `n`.
pub open spec fn ups(n: nat) -> Seq<char>
    decreases n,
{
    if n == 0 {
        Seq::empty()
    } else {
        ups((n - 1) as nat) + seq!['.', '.', '/']
    }
}

/// `path` (vault-relative) as seen from the folder holding `note_path`.
pub open spec fn relative_from(note_path: Seq<char>, path: Seq<char>) -> Seq<char> {
    ups(slash_count(note_path)) + path
}

pub open spec fn all_digits(s: Seq<char>) -> bool {
    forall|i: int| 0 <= i < s.len() ==> is_ascii_digit(#[trigger] s[i])
}

/// A wikilink as one rendered page shows it: an attachment embed as an image (an Obsidian width
/// kept), anything else as its label marked `.wikilink`.
pub open spec fn wikilink_spec(inner: Seq<char>, embed: bool, note: Seq<char>, atts: Seq<Seq<char>>) -> Seq<char> {
    let (t0, alias) = match find(inner, seq!['|']) {
        Some(i) => (trim_end_pat(inner.take(i), seq!['\\']), Some(trim(inner.skip(i + 1)))),
        None => (inner, None),
    };
    let target = trim(t0);
    let hit = if embed {
        resolve_reference_spec(note, target, true, atts)
    } else {
        None
    };
    match hit {
        Some(path) => {
            let src = relative_from(note, path);
            match alias {
                Some(w) => if w.len() > 0 && all_digits(w) {
                    seq!['!', '[', ']', '(', '<'] + src + seq!['>', ')', '{', 'w', 'i', 'd', 't', 'h', '=']
                        + w + seq!['p', 'x', '}']
                } else {
                    seq!['!', '[', ']', '(', '<'] + src + seq!['>', ')']
                },
                None => seq!['!', '[', ']', '(', '<'] + src + seq!['>', ')'],
            }
        },
        None => {
            let label = match alias {
                Some(a) => if a.len() > 0 {
                    a
                } else {
                    label_of(target)
                },
                None => label_of(target),
            };
            seq!['['] + escape_inline(label) + seq![']', '{', '.', 'w', 'i', 'k', 'i', 'l', 'i', 'n', 'k', '}']
        },
    }
}

/// The label of a wikilink target: `Note › section` for a heading or block link.
pub open spec fn label_of(target: Seq<char>) -> Seq<char> {
    match find(target, seq!['#']) {
        Some(k) => {
            let note = target.take(k);
            let section = trim_start_pat(target.skip(k + 1), seq!['^']);
            if note.len() > 0 {
                note + seq![' ', '\u{203a}', ' '] + section
            } else {
                section
            }
        },
        None => target,
    }
}

/// A line outside fenced code: code spans copied, `[[…]]` rewritten.
#[verifier::opaque]
pub open spec fn prep_scan(rest: Seq<char>, note: Seq<char>, atts: Seq<Seq<char>>) -> Seq<char>
    decreases rest.len(),
{
    if rest.len() == 0 {
        Seq::empty()
    } else {
        let tick = find(rest, seq!['`']);
        let link = find(rest, seq!['[', '[']);
        if tick is Some && (link is None || tick->0 < link->0) {
            let t = tick->0;
            if 0 <= t < rest.len() {
                let run = run_len(rest.skip(t), '`');
                match find(rest.skip(t + run), Seq::new(run, |i: int| '`')) {
                    Some(end) => {
                        let span = t + run + end + run;
                        if 0 < span <= rest.len() {
                            rest.take(span) + prep_scan(rest.skip(span), note, atts)
                        } else {
                            rest
                        }
                    },
                    None => rest,
                }
            } else {
                rest
            }
        } else if link is Some {
            let l = link->0;
            let embed = l > 0 && rest[l - 1] == '!';
            let start = if embed {
                l - 1
            } else {
                l
            };
            match find(rest.skip(l + 2), seq![']', ']']) {
                None => rest,
                Some(end) => if 0 <= l && 0 <= end && l + 2 + end + 2 <= rest.len() {
                    let inner = rest.subrange(l + 2, l + 2 + end);
                    rest.take(start) + wikilink_spec(inner, embed, note, atts) + prep_scan(
                        rest.skip(l + 2 + end + 2),
                        note,
                        atts,
                    )
                } else {
                    rest
                },
            }
        } else {
            rest
        }
    }
}

/// The lines from `i` on: fenced code copied, the others rewritten.
pub open spec fn prep_body(ls: Seq<Seq<char>>, i: int, fence: Option<(char, nat)>, note: Seq<char>, atts: Seq<Seq<char>>) -> Seq<char>
    decreases ls.len() - i,
{
    if i < 0 || i >= ls.len() {
        Seq::empty()
    } else {
        let line = ls[i];
        match fence {
            Some((ch, n)) => line + prep_body(
                ls,
                i + 1,
                if closes_fence(line, ch, n) {
                    None
                } else {
                    fence
                },
                note,
                atts,
            ),
            None => match fence_marker(line) {
                Some(open) => line + prep_body(ls, i + 1, Some(open), note, atts),
                None => prep_scan(line, note, atts) + prep_body(ls, i + 1, None, note, atts),
            },
        }
    }
}

/// The note as Quarto should read it.
pub open spec fn prepare_spec(text: Seq<char>, note: Seq<char>, atts: Seq<Seq<char>>) -> Seq<char> {
    prep_body(split_inclusive(text, '\n'), 0, None, note, atts)
}

fn escape_inline_exec(s: &[char]) -> (r: Vec<char>)
    ensures
        r@ == escape_inline(s@),
{
    let mut out: Vec<char> = Vec::new();
    let mut i: usize = 0;
    while i < s.len()
        invariant
            i <= s@.len(),
            out@ == escape_inline(s@.take(i as int)),
        decreases s.len() - i,
    {
        proof {
            assert(s@.take(i + 1).drop_last() =~= s@.take(i as int));
        }
        let c = s[i];
        let ghost before = out@;
        if c == '[' || c == ']' || c == '*' || c == '_' || c == '`' || c == '\\' || c == '$' || c == '<'
            || c == '>' || c == '#' || c == '^' || c == '~' || c == '@' {
            out.push('\\');
        }
        out.push(c);
        proof {
            assert(out@ =~= escape_inline(s@.take(i + 1)));
        }
        i += 1;
    }
    proof {
        assert(s@.take(s@.len() as int) =~= s@);
    }
    out
}

fn relative_from_exec(note: &[char], path: &[char]) -> (r: Vec<char>)
    ensures
        r@ == relative_from(note@, path@),
{
    let mut out: Vec<char> = Vec::new();
    let mut i: usize = 0;
    while i < note.len()
        invariant
            i <= note@.len(),
            out@ == ups(slash_count(note@.take(i as int))),
        decreases note.len() - i,
    {
        proof {
            assert(note@.take(i + 1).drop_last() =~= note@.take(i as int));
        }
        if note[i] == '/' {
            out.push('.');
            out.push('.');
            out.push('/');
            proof {
                assert(slash_count(note@.take(i + 1)) == slash_count(note@.take(i as int)) + 1);
                assert(out@ =~= ups(slash_count(note@.take(i + 1))));
            }
        }
        i += 1;
    }
    proof {
        assert(note@.take(note@.len() as int) =~= note@);
    }
    append(&mut out, path);
    out
}

fn label_of_exec(target: &[char]) -> (r: Vec<char>)
    ensures
        r@ == label_of(target@),
{
    let hash = vec!['#'];
    let caret = vec!['^'];
    proof {
        assert(hash@ =~= seq!['#']);
        assert(caret@ =~= seq!['^']);
        lemma_find(target@, hash@);
    }
    let n = target.len();
    match find_exec(target, &hash) {
        Some(k) => {
            let note = slice(target, 0, k);
            let section = trim_start_pat_exec(&slice(target, k + 1, n), &caret);
            if note.len() > 0 {
                let mut out = note;
                out.push(' ');
                out.push('\u{203a}');
                out.push(' ');
                append(&mut out, &section);
                out
            } else {
                section
            }
        },
        None => slice(target, 0, n),
    }
}

fn all_digits_exec(s: &[char]) -> (r: bool)
    ensures
        r == all_digits(s@),
{
    let mut i: usize = 0;
    while i < s.len()
        invariant
            i <= s@.len(),
            forall|j: int| 0 <= j < i ==> is_ascii_digit(#[trigger] s@[j]),
        decreases s.len() - i,
    {
        if !('0' <= s[i] && s[i] <= '9') {
            return false;
        }
        i += 1;
    }
    true
}

#[verifier::rlimit(40)]
fn wikilink_exec(inner: &[char], embed: bool, note: &str, atts: &[String]) -> (r: Vec<char>)
    ensures
        r@ == wikilink_spec(inner@, embed, note@, str_views(atts@)),
{
    let bar = vec!['|'];
    let bs = vec!['\\'];
    proof {
        assert(bar@ =~= seq!['|']);
        assert(bs@ =~= seq!['\\']);
        lemma_find(inner@, bar@);
    }
    let n = inner.len();
    let (t0, alias): (Vec<char>, Option<Vec<char>>) = match find_exec(inner, &bar) {
        Some(i) => (trim_end_pat_exec(&slice(inner, 0, i), &bs), Some(trim_exec(&slice(inner, i + 1, n)))),
        None => (slice(inner, 0, n), None),
    };
    let target = trim_exec(&t0);
    let hit = if embed {
        resolve_reference(note, string_of(&target).as_str(), true, atts)
    } else {
        None
    };
    match hit {
        Some(path) => {
            let src = relative_from_exec(&chars_of(note), &chars_of(path.as_str()));
            let mut out = vec!['!', '[', ']', '(', '<'];
            append(&mut out, &src);
            out.push('>');
            out.push(')');
            match alias {
                Some(w) => if w.len() > 0 && all_digits_exec(&w) {
                    let open = lit("{width=");
                    proof {
                        reveal_strlit("{width=");
                        assert(open@ =~= seq!['{', 'w', 'i', 'd', 't', 'h', '=']);
                    }
                    append(&mut out, &open);
                    append(&mut out, &w);
                    out.push('p');
                    out.push('x');
                    out.push('}');
                },
                None => {},
            }
            proof {
                assert(out@ =~= wikilink_spec(inner@, embed, note@, str_views(atts@)));
            }
            out
        },
        None => {
            let label = match alias {
                Some(a) => if a.len() > 0 {
                    a
                } else {
                    label_of_exec(&target)
                },
                None => label_of_exec(&target),
            };
            let mut out = vec!['['];
            append(&mut out, &escape_inline_exec(&label));
            let close = lit("]{.wikilink}");
            proof {
                reveal_strlit("]{.wikilink}");
                assert(close@ =~= seq![']', '{', '.', 'w', 'i', 'k', 'i', 'l', 'i', 'n', 'k', '}']);
            }
            append(&mut out, &close);
            proof {
                assert(out@ =~= wikilink_spec(inner@, embed, note@, str_views(atts@)));
            }
            out
        },
    }
}

/// One step of a line: up to the end of the next code span or wikilink, and how far that reaches
/// (`None`: the rest is copied).
fn prep_step(rest: &[char], note: &str, atts: &[String]) -> (r: (Vec<char>, Option<usize>))
    ensures
        match r.1 {
            Some(k) => 0 < k <= rest@.len() && prep_scan(rest@, note@, str_views(atts@)) == r.0@ + prep_scan(
                rest@.skip(k as int),
                note@,
                str_views(atts@),
            ),
            None => prep_scan(rest@, note@, str_views(atts@)) == r.0@,
        },
{
    reveal(prep_scan);
    let n = rest.len();
    if n == 0 {
        return (Vec::new(), None);
    }
    let tk = vec!['`'];
    let lk = vec!['[', '['];
    let cl = vec![']', ']'];
    proof {
        assert(tk@ =~= seq!['`']);
        assert(lk@ =~= seq!['[', '[']);
        assert(cl@ =~= seq![']', ']']);
        lemma_find(rest@, tk@);
        lemma_find(rest@, lk@);
    }
    let tick = find_exec(rest, &tk);
    let link = find_exec(rest, &lk);
    if tick.is_some() && (link.is_none() || tick.unwrap() < link.unwrap()) {
        let t = tick.unwrap();
        let run = run_len_exec(&slice(rest, t, n), '`');
        let mut closer: Vec<char> = Vec::new();
        let mut k: usize = 0;
        while k < run
            invariant
                k <= run,
                closer@ =~= Seq::new(k as nat, |i: int| '`'),
            decreases run - k,
        {
            closer.push('`');
            k += 1;
        }
        let tail = slice(rest, t + run, n);
        proof {
            assert(tail@ =~= rest@.skip(t + run));
            lemma_find(tail@, closer@);
            assert(rest@.skip(t as int)[0] == '`');
        }
        match find_exec(&tail, &closer) {
            Some(end) => {
                let span = t + run + end + run;
                (slice(rest, 0, span), Some(span))
            },
            None => (slice(rest, 0, n), None),
        }
    } else if link.is_some() {
        let l = link.unwrap();
        let embed = l > 0 && rest[l - 1] == '!';
        let start = if embed {
            l - 1
        } else {
            l
        };
        let tail = slice(rest, l + 2, n);
        proof {
            assert(tail@ =~= rest@.skip(l + 2));
            lemma_find(tail@, cl@);
        }
        match find_exec(&tail, &cl) {
            None => (slice(rest, 0, n), None),
            Some(end) => {
                let inner = slice(rest, l + 2, l + 2 + end);
                let mut piece = slice(rest, 0, start);
                append(&mut piece, &wikilink_exec(&inner, embed, note, atts));
                (piece, Some(l + 2 + end + 2))
            },
        }
    } else {
        (slice(rest, 0, n), None)
    }
}

fn prep_scan_exec(line: &[char], note: &str, atts: &[String]) -> (r: Vec<char>)
    ensures
        r@ == prep_scan(line@, note@, str_views(atts@)),
{
    let n = line.len();
    let mut out: Vec<char> = Vec::new();
    let mut i: usize = 0;
    loop
        invariant
            i <= n == line@.len(),
            prep_scan(line@, note@, str_views(atts@)) == out@ + prep_scan(line@.skip(i as int), note@, str_views(atts@)),
        decreases n - i,
    {
        let rest = slice(line, i, n);
        proof {
            assert(rest@ =~= line@.skip(i as int));
        }
        let ghost before = out@;
        let (piece, adv) = prep_step(&rest, note, atts);
        append(&mut out, &piece);
        match adv {
            None => {
                return out;
            },
            Some(k) => {
                proof {
                    assert(rest@.skip(k as int) =~= line@.skip(i + k));
                    let x = prep_scan(line@.skip(i + k), note@, str_views(atts@));
                    assert(out@ + x =~= before + (piece@ + x));
                }
                i = i + k;
            },
        }
    }
}

/// The note as Quarto should read it. Quarto's reader knows nothing of wikilinks, so outside
/// code they become what they mean in a single rendered page: an attachment embed an image,
/// with an Obsidian width (`|300`) kept; any other link or embed its label, marked `.wikilink`
/// — the other note is not part of this document, so there is nowhere for it to go.
pub fn prepare(text: &str, note_path: &str, attachments: &[String]) -> (r: String)
    ensures
        r@ == prepare_spec(text@, note_path@, str_views(attachments@)),
{
    let ls = split_inclusive_exec(&chars_of(text), '\n');
    let ghost vls = views(ls@);
    let ghost atts = str_views(attachments@);
    proof {
        assert(vls =~= split_inclusive(text@, '\n'));
    }
    let mut out: Vec<char> = Vec::new();
    let mut fence: Option<(char, usize)> = None;
    let mut i: usize = 0;
    while i < ls.len()
        invariant
            i <= ls@.len(),
            vls == views(ls@),
            atts == str_views(attachments@),
            prep_body(vls, 0, None, note_path@, atts) == out@ + prep_body(vls, i as int, fence_view(fence), note_path@, atts),
        decreases ls.len() - i,
    {
        let line = &ls[i];
        let ghost before = out@;
        let ghost f0 = fence_view(fence);
        match fence {
            Some((ch, n)) => {
                if closes_fence_exec(line, ch, n) {
                    fence = None;
                }
                append(&mut out, line);
            },
            None => match fence_marker_exec(line) {
                Some(open) => {
                    fence = Some(open);
                    append(&mut out, line);
                },
                None => {
                    append(&mut out, &prep_scan_exec(line, note_path, attachments));
                },
            },
        }
        proof {
            let r = prep_body(vls, i + 1, fence_view(fence), note_path@, atts);
            assert(out@ + r =~= before + prep_body(vls, i as int, f0, note_path@, atts));
        }
        i += 1;
    }
    proof {
        assert(out@ =~= out@ + Seq::<char>::empty());
    }
    string_of(&out)
}

// ---------------------------------------------------------------------------------------------
// The project a render builds, and what a failed one says
// ---------------------------------------------------------------------------------------------

/// The segments of a vault path kept as a project path: `None` when one leaves the project or
/// holds `\` or `:`.
pub open spec fn safe_segs(segs: Seq<Seq<char>>) -> Option<Seq<Seq<char>>>
    decreases segs.len(),
{
    if segs.len() == 0 {
        Some(Seq::empty())
    } else {
        match safe_segs(segs.drop_last()) {
            None => None,
            Some(p) => {
                let s = segs.last();
                if s.len() == 0 || s == dot() {
                    Some(p)
                } else if s == dotdot() || s.contains('\\') || s.contains(':') {
                    None
                } else {
                    Some(p.push(s))
                }
            },
        }
    }
}

/// A vault path as a relative path that stays inside the project, or `None`.
pub open spec fn safe_relative_spec(path: Seq<char>) -> Option<Seq<char>> {
    match safe_segs(split(path, '/')) {
        Some(p) => if p.len() == 0 {
            None
        } else {
            Some(join(p, seq!['/']))
        },
        None => None,
    }
}

/// A vault path as a relative filesystem path that stays inside the project, or `None`.
pub fn safe_relative(path: &str) -> (r: Option<String>)
    ensures
        match r {
            Some(s) => safe_relative_spec(path@) == Some(s@),
            None => safe_relative_spec(path@) is None,
        },
{
    let segs = split_exec(&chars_of(path), '/');
    let ghost vs = split(path@, '/');
    let mut parts: Vec<Vec<char>> = Vec::new();
    let mut i: usize = 0;
    while i < segs.len()
        invariant
            i <= segs@.len(),
            segs@.len() == vs.len(),
            vs == split(path@, '/'),
            forall|k: int| 0 <= k < segs@.len() ==> #[trigger] segs@[k]@ == vs[k],
            safe_segs(vs.take(i as int)) == Some(views(parts@)),
        decreases segs.len() - i,
    {
        proof {
            assert(vs.take(i + 1).drop_last() =~= vs.take(i as int));
        }
        let s = &segs[i];
        let is_dot = s.len() == 1 && s[0] == '.';
        let is_dotdot = s.len() == 2 && s[0] == '.' && s[1] == '.';
        proof {
            if s@.len() == 1 && s@[0] == '.' {
                assert(s@ =~= dot());
            }
            if s@.len() == 2 && s@[0] == '.' && s@[1] == '.' {
                assert(s@ =~= dotdot());
            }
        }
        if s.len() == 0 || is_dot {
        } else if is_dotdot || contains_char(s, '\\') || contains_char(s, ':') {
            proof {
                lemma_safe_none(vs, i as int + 1);
            }
            return None;
        } else {
            let ghost before = parts@;
            parts.push(slice(s, 0, s.len()));
            proof {
                assert(views(parts@) =~= views(before).push(s@));
            }
        }
        i += 1;
    }
    proof {
        assert(vs.take(segs@.len() as int) =~= vs);
    }
    if parts.len() == 0 {
        None
    } else {
        let sl = vec!['/'];
        proof {
            assert(sl@ =~= seq!['/']);
        }
        Some(string_of(&join_exec(&parts, &sl)))
    }
}

proof fn lemma_safe_none(vs: Seq<Seq<char>>, j: int)
    requires
        0 <= j <= vs.len(),
        safe_segs(vs.take(j)) is None,
    ensures
        safe_segs(vs) is None,
    decreases vs.len() - j,
{
    if j < vs.len() {
        assert(vs.take(j + 1).drop_last() =~= vs.take(j));
        lemma_safe_none(vs, j + 1);
    } else {
        assert(vs.take(j) =~= vs);
    }
}

/// `Path::with_extension` on a `/`-separated relative path: the last segment's stem, then
/// the new extension.
pub open spec fn with_extension(p: Seq<char>, ext: Seq<char>) -> Seq<char> {
    let dir = match rfind(p, seq!['/']) {
        Some(i) => p.take(i + 1),
        None => Seq::empty(),
    };
    let name = crate::text::after_last(p, '/');
    let stem = match rfind(name, seq!['.']) {
        Some(i) => if i > 0 {
            name.take(i)
        } else {
            name
        },
        None => name,
    };
    dir + stem + seq!['.'] + ext
}

/// Where the note goes in the project: its own vault path, or `note`, with `.qmd` for an
/// extension.
pub open spec fn source_path_spec(note_path: Seq<char>) -> Seq<char> {
    with_extension(
        match safe_relative_spec(note_path) {
            Some(p) => p,
            None => seq!['n', 'o', 't', 'e'],
        },
        seq!['q', 'm', 'd'],
    )
}

/// Where the note goes in the project: its own vault path, with `.qmd` for an extension.
pub fn source_path(note_path: &str) -> (r: String)
    ensures
        r@ == source_path_spec(note_path@),
{
    let p: Vec<char> = match safe_relative(note_path) {
        Some(s) => chars_of(s.as_str()),
        None => {
            let n = lit("note");
            proof {
                reveal_strlit("note");
                assert(n@ =~= seq!['n', 'o', 't', 'e']);
            }
            n
        },
    };
    proof {
        assert(p@ == match safe_relative_spec(note_path@) {
            Some(p) => p,
            None => seq!['n', 'o', 't', 'e'],
        });
    }
    let np = p.len();
    proof {
        crate::text::lemma_rfind_before(p@, seq!['/'], p@.len() + 1int);
    }
    let dir = match rfind_char(&p, '/') {
        Some(i) => {
            proof {
                assert(crate::text::is_at(p@, seq!['/'], i as int));
            }
            slice(&p, 0, i + 1)
        },
        None => Vec::new(),
    };
    let name = crate::attachments::after_last_exec(&p, '/');
    proof {
        crate::text::lemma_rfind_before(name@, seq!['.'], name@.len() + 1int);
    }
    let stem = match rfind_char(&name, '.') {
        Some(i) => if i > 0 {
            slice(&name, 0, i)
        } else {
            name
        },
        None => name,
    };
    let mut out = dir;
    append(&mut out, &stem);
    out.push('.');
    out.push('q');
    out.push('m');
    out.push('d');
    proof {
        assert(out@ =~= with_extension(p@, seq!['q', 'm', 'd']));
    }
    string_of(&out)
}

/// The rest of an escape sequence, through its final letter.
pub open spec fn skip_csi(s: Seq<char>) -> Seq<char>
    decreases s.len(),
{
    if s.len() == 0 {
        s
    } else if is_ascii_alpha(s[0]) {
        s.drop_first()
    } else {
        skip_csi(s.drop_first())
    }
}

/// Skipping an escape sequence never lengthens the text.
pub proof fn lemma_skip_csi(s: Seq<char>)
    ensures
        skip_csi(s).len() <= s.len(),
    decreases s.len(),
{
    if s.len() > 0 && !is_ascii_alpha(s[0]) {
        lemma_skip_csi(s.drop_first());
    }
}

/// A terminal's colour codes (`ESC [` … letter) taken out.
pub open spec fn strip_ansi(s: Seq<char>) -> Seq<char>
    decreases s.len(),
{
    if s.len() == 0 {
        s
    } else if s[0] == '\u{1b}' && s.len() > 1 && s[1] == '[' {
        proof {
            lemma_skip_csi(s.skip(2));
        }
        strip_ansi(skip_csi(s.skip(2)))
    } else {
        seq![s[0]] + strip_ansi(s.drop_first())
    }
}

pub open spec fn lit_error() -> Seq<char> {
    seq!['E', 'R', 'R', 'O', 'R']
}

/// The first line from `i` on that starts, after its indentation, with `ERROR`.
pub open spec fn first_error(ls: Seq<Seq<char>>, i: int) -> Option<int>
    decreases ls.len() - i,
{
    if i < 0 || i >= ls.len() {
        None
    } else if starts_with(trim_start(ls[i]), lit_error()) {
        Some(i)
    } else {
        first_error(ls, i + 1)
    }
}

pub open spec fn lit_stack() -> Seq<char> {
    seq!['S', 't', 'a', 'c', 'k', ' ', 't', 'r', 'a', 'c', 'e', ':']
}

/// The lines before the stack trace.
pub open spec fn until_stack(ls: Seq<Seq<char>>) -> Seq<Seq<char>>
    decreases ls.len(),
{
    if ls.len() == 0 || starts_with(ls[0], lit_stack()) {
        Seq::empty()
    } else {
        seq![ls[0]] + until_stack(ls.drop_first())
    }
}

/// A line worth keeping when there is no `ERROR`: not empty, not a stack frame.
pub open spec fn kept_line(l: Seq<char>) -> bool {
    l.len() > 0 && !starts_with(trim_start(l), seq!['a', 't', ' '])
}

/// The lines a failed render is read for.
pub open spec fn picked_lines(ls: Seq<Seq<char>>) -> Seq<Seq<char>> {
    match first_error(ls, 0) {
        Some(at) => {
            let u = until_stack(ls.skip(at));
            u.take(if u.len() < 12 {
                u.len() as int
            } else {
                12
            })
        },
        None => {
            let kept = ls.filter(|l: Seq<char>| kept_line(l));
            kept.skip(if kept.len() < 6 {
                0
            } else {
                kept.len() - 6
            })
        },
    }
}

/// What a failed render says: Quarto's `ERROR` and the lines that point at the problem,
/// without its colours or its stack trace — or, when there is no `ERROR`, the last few lines.
pub open spec fn tail_spec(stderr: Seq<char>) -> Seq<char> {
    let ls = lines(strip_ansi(stderr)).map_values(|l: Seq<char>| trim_end(l));
    let msg = trim(trim_start_pat(trim(join(picked_lines(ls), seq!['\n'])), seq!['E', 'R', 'R', 'O', 'R', ':']));
    if msg.len() == 0 {
        "quarto failed without saying why"@
    } else {
        seq!['q', 'u', 'a', 'r', 't', 'o', ':', ' '] + msg
    }
}

fn strip_ansi_exec(s: &[char]) -> (r: Vec<char>)
    ensures
        r@ == strip_ansi(s@),
{
    let n = s.len();
    let mut out: Vec<char> = Vec::new();
    let mut i: usize = 0;
    while i < n
        invariant
            i <= n == s@.len(),
            strip_ansi(s@) == out@ + strip_ansi(s@.skip(i as int)),
        decreases n - i,
    {
        let ghost rest = s@.skip(i as int);
        let ghost before = out@;
        if s[i] == '\u{1b}' && i + 1 < n && s[i + 1] == '[' {
            let mut j = i + 2;
            proof {
                assert(rest.skip(2) =~= s@.skip(j as int));
            }
            while j < n && !(('a' <= s[j] && s[j] <= 'z') || ('A' <= s[j] && s[j] <= 'Z'))
                invariant
                    i + 2 <= j <= n,
                    n == s@.len(),
                    skip_csi(rest.skip(2)) == skip_csi(s@.skip(j as int)),
                decreases n - j,
            {
                proof {
                    assert(s@.skip(j as int).drop_first() =~= s@.skip(j + 1));
                }
                j += 1;
            }
            if j < n {
                proof {
                    assert(s@.skip(j as int).drop_first() =~= s@.skip(j + 1));
                }
                j += 1;
            } else {
                proof {
                    assert(s@.skip(j as int) =~= Seq::<char>::empty());
                }
            }
            i = j;
        } else {
            out.push(s[i]);
            proof {
                assert(rest.drop_first() =~= s@.skip(i + 1));
                let x = strip_ansi(s@.skip(i + 1));
                assert(out@ + x =~= before + (seq![s@[i as int]] + x));
            }
            i += 1;
        }
    }
    proof {
        assert(s@.skip(n as int) =~= Seq::<char>::empty());
    }
    out
}

/// What a failed render says: Quarto's `ERROR` and the lines that point at the problem, without
/// its colours or its stack trace — or, when there is no `ERROR`, the last few lines it wrote.
pub fn tail(stderr: &str) -> (r: String)
    ensures
        r@ == tail_spec(stderr@),
{
    let plain = strip_ansi_exec(&chars_of(stderr));
    let raw = lines_exec(&plain);
    let mut ls: Vec<Vec<char>> = Vec::new();
    let mut i: usize = 0;
    while i < raw.len()
        invariant
            i <= raw@.len(),
            raw@.len() == lines(plain@).len(),
            forall|k: int| 0 <= k < raw@.len() ==> #[trigger] raw@[k]@ == lines(plain@)[k],
            views(ls@) == lines(plain@).map_values(|l: Seq<char>| trim_end(l)).take(i as int),
        decreases raw.len() - i,
    {
        let ghost before = views(ls@);
        let t = trim_end_exec(&raw[i]);
        ls.push(t);
        proof {
            assert(views(ls@) =~= before.push(t@));
            assert(t@ == lines(plain@).map_values(|l: Seq<char>| trim_end(l))[i as int]);
            assert(views(ls@) =~= lines(plain@).map_values(|l: Seq<char>| trim_end(l)).take(i + 1));
        }
        i += 1;
    }
    let ghost vls = lines(plain@).map_values(|l: Seq<char>| trim_end(l));
    proof {
        assert(vls.take(raw@.len() as int) =~= vls);
    }
    let picked = pick_lines(&ls);
    let nl = vec!['\n'];
    let colon = lit("ERROR:");
    proof {
        assert(nl@ =~= seq!['\n']);
        reveal_strlit("ERROR:");
        assert(colon@ =~= seq!['E', 'R', 'R', 'O', 'R', ':']);
    }
    let msg = trim_exec(&trim_start_pat_exec(&trim_exec(&join_exec(&picked, &nl)), &colon));
    if msg.len() == 0 {
        "quarto failed without saying why".to_owned()
    } else {
        let mut out = lit("quarto: ");
        proof {
            reveal_strlit("quarto: ");
            assert(out@ =~= seq!['q', 'u', 'a', 'r', 't', 'o', ':', ' ']);
        }
        append(&mut out, &msg);
        string_of(&out)
    }
}

fn pick_lines(ls: &Vec<Vec<char>>) -> (r: Vec<Vec<char>>)
    ensures
        views(r@) == picked_lines(views(ls@)),
{
    let ghost vls = views(ls@);
    let err = vec!['E', 'R', 'R', 'O', 'R'];
    let stack = vec!['S', 't', 'a', 'c', 'k', ' ', 't', 'r', 'a', 'c', 'e', ':'];
    let at_ = vec!['a', 't', ' '];
    proof {
        assert(err@ =~= lit_error());
        assert(stack@ =~= lit_stack());
        assert(at_@ =~= seq!['a', 't', ' ']);
    }
    let mut i: usize = 0;
    while i < ls.len()
        invariant
            i <= ls@.len(),
            vls == views(ls@),
            err@ == lit_error(),
            first_error(vls, 0) == first_error(vls, i as int),
        ensures
            i <= ls@.len(),
            first_error(vls, 0) == first_error(vls, i as int),
            i < ls@.len() ==> starts_with(trim_start(vls[i as int]), lit_error()),
        decreases ls.len() - i,
    {
        if starts_with_exec(&trim_start_exec(&ls[i]), &err) {
            break;
        }
        i += 1;
    }
    let mut out: Vec<Vec<char>> = Vec::new();
    if i < ls.len() {
        let mut j = i;
        proof {
            assert(vls.skip(i as int).skip(0) =~= vls.skip(i as int));
        }
        while j < ls.len() && out.len() < 12 && !starts_with_exec(&ls[j], &stack)
            invariant
                i <= j <= ls@.len(),
                vls == views(ls@),
                stack@ == lit_stack(),
                out@.len() == j - i,
                out@.len() <= 12,
                views(out@) + until_stack(vls.skip(j as int)) == until_stack(vls.skip(i as int)),
            decreases ls.len() - j,
        {
            let ghost before = views(out@);
            proof {
                assert(vls.skip(j as int).drop_first() =~= vls.skip(j + 1));
                assert(vls.skip(j as int)[0] == vls[j as int]);
            }
            out.push(slice(&ls[j], 0, ls[j].len()));
            proof {
                let x = until_stack(vls.skip(j + 1));
                assert(views(out@) + x =~= before + (seq![vls[j as int]] + x));
            }
            j += 1;
        }
        proof {
            let u = until_stack(vls.skip(i as int));
            if j < ls@.len() && out@.len() < 12 {
                assert(vls.skip(j as int)[0] == vls[j as int]);
                assert(until_stack(vls.skip(j as int)) =~= Seq::<Seq<char>>::empty());
            }
            if j == ls@.len() {
                assert(vls.skip(j as int) =~= Seq::<Seq<char>>::empty());
            }
            lemma_until_stack_len(vls.skip(j as int));
            assert(views(out@) =~= u.take(if u.len() < 12 {
                u.len() as int
            } else {
                12
            }));
        }
        out
    } else {
        let mut kept: Vec<Vec<char>> = Vec::new();
        let mut k: usize = 0;
        while k < ls.len()
            invariant
                k <= ls@.len(),
                vls == views(ls@),
                at_@ == seq!['a', 't', ' '],
                views(kept@) == vls.take(k as int).filter(|l: Seq<char>| kept_line(l)),
            decreases ls.len() - k,
        {
            let ghost before = views(kept@);
            proof {
                assert(vls.take(k + 1) =~= vls.take(k as int).push(vls[k as int]));
                vls.take(k as int).lemma_filter_push(vls[k as int], |l: Seq<char>| kept_line(l));
            }
            if ls[k].len() > 0 && !starts_with_exec(&trim_start_exec(&ls[k]), &at_) {
                kept.push(slice(&ls[k], 0, ls[k].len()));
                proof {
                    assert(views(kept@) =~= before.push(vls[k as int]));
                }
            }
            k += 1;
        }
        proof {
            assert(vls.take(ls@.len() as int) =~= vls);
        }
        let from = if kept.len() < 6 {
            0
        } else {
            kept.len() - 6
        };
        let mut m = from;
        while m < kept.len()
            invariant
                from <= m <= kept@.len(),
                views(out@) == views(kept@).subrange(from as int, m as int),
            decreases kept.len() - m,
        {
            let ghost before = views(out@);
            let c = slice(&kept[m], 0, kept[m].len());
            out.push(c);
            proof {
                assert(views(out@) =~= before.push(views(kept@)[m as int]));
                assert(views(out@) =~= views(kept@).subrange(from as int, m + 1));
            }
            m += 1;
        }
        proof {
            assert(views(kept@).subrange(from as int, kept@.len() as int) =~= views(kept@).skip(from as int));
        }
        out
    }
}

proof fn lemma_until_stack_len(ls: Seq<Seq<char>>)
    ensures
        until_stack(ls).len() <= ls.len(),
    decreases ls.len(),
{
    if ls.len() > 0 && !starts_with(ls[0], lit_stack()) {
        lemma_until_stack_len(ls.drop_first());
    }
}

pub open spec fn sv(s: Seq<char>) -> YamlV {
    YamlV::Str(s)
}

pub open spec fn lit_default() -> Seq<char> {
    seq!['d', 'e', 'f', 'a', 'u', 'l', 't']
}

pub open spec fn lit_format() -> Seq<char> {
    seq!['f', 'o', 'r', 'm', 'a', 't']
}

pub open spec fn lit_project() -> Seq<char> {
    seq!['p', 'r', 'o', 'j', 'e', 'c', 't']
}

pub open spec fn lit_type() -> Seq<char> {
    seq!['t', 'y', 'p', 'e']
}

pub open spec fn lit_embed() -> Seq<char> {
    seq!['e', 'm', 'b', 'e', 'd', '-', 'r', 'e', 's', 'o', 'u', 'r', 'c', 'e', 's']
}

pub open spec fn lit_html() -> Seq<char> {
    seq!['h', 't', 'm', 'l']
}

pub open spec fn lit_revealjs() -> Seq<char> {
    seq!['r', 'e', 'v', 'e', 'a', 'l', 'j', 's']
}

pub open spec fn lit_not_yaml() -> Seq<char> {
    "the vault's _quarto.yml is not valid YAML: "@
}

/// The string items of a format list, each naming a format with default options.
pub open spec fn defaults_for(items: Seq<YamlV>) -> Seq<(YamlV, YamlV)>
    decreases items.len(),
{
    if items.len() == 0 {
        seq![]
    } else if string_like(items.last()) {
        defaults_for(items.drop_last()).push((items.last(), sv(lit_default())))
    } else {
        defaults_for(items.drop_last())
    }
}

/// The formats of the vault's `format:`: its mapping; a format name, or a list of them, with
/// default options; nothing otherwise.
pub open spec fn format_entries(f: Option<YamlV>) -> Seq<(YamlV, YamlV)> {
    match f {
        Some(YamlV::Mapping(m)) => m,
        Some(YamlV::Str(x)) => seq![(YamlV::Str(x), sv(lit_default()))],
        Some(YamlV::List(fs)) => from_pairs(defaults_for(fs)),
        _ => seq![],
    }
}

/// The format `name`, with its options (if it had a mapping of them) and `embed-resources: true`,
/// moved last.
pub open spec fn with_embed(f: Seq<(YamlV, YamlV)>, name: Seq<char>) -> Seq<(YamlV, YamlV)> {
    let (g, o) = im_remove(f, sv(name));
    let opts = match o {
        Some(YamlV::Mapping(m)) => m,
        _ => seq![],
    };
    im_insert(g, sv(name), YamlV::Mapping(im_insert(opts, sv(lit_embed()), YamlV::Bool(true))))
}

/// The extra entries (key and path) the project does not have a key for.
pub open spec fn add_extra(r: Seq<(YamlV, YamlV)>, extra: Seq<(Seq<char>, Seq<char>)>) -> Seq<(YamlV, YamlV)>
    decreases extra.len(),
{
    if extra.len() == 0 {
        r
    } else {
        let r0 = add_extra(r, extra.drop_last());
        if key_index(r0, sv(extra.last().0)) is Some {
            r0
        } else {
            r0.push((sv(extra.last().0), sv(extra.last().1)))
        }
    }
}

/// The project around a note, from the vault's own project file: `project:` is `type:
/// default` and nothing else; HTML and reveal.js are self-contained; the extra entries come
/// in where the vault's file has none.
pub open spec fn project_entries(root: Seq<(YamlV, YamlV)>, extra: Seq<(Seq<char>, Seq<char>)>) -> Seq<(YamlV, YamlV)> {
    let r1 = im_insert(root, sv(lit_project()), YamlV::Mapping(seq![(sv(lit_type()), sv(lit_default()))]));
    let (r2, f) = im_remove(r1, sv(lit_format()));
    let f2 = with_embed(with_embed(format_entries(f), lit_html()), lit_revealjs());
    add_extra(im_insert(r2, sv(lit_format()), YamlV::Mapping(f2)), extra)
}

/// The vault's project file as entries: none when there is none, it is blank, or it is not a
/// mapping; the parser's message when it is not YAML.
pub open spec fn vault_root(vault: Option<Seq<char>>) -> Result<Seq<(YamlV, YamlV)>, Seq<char>> {
    match vault {
        Some(t) => if trim(t).len() > 0 {
            match yaml_document(t) {
                Some(v) => match yv(v) {
                    YamlV::Mapping(m) => Ok(m),
                    _ => Ok(seq![]),
                },
                None => Err(yaml_error_text(t)),
            }
        } else {
            Ok(seq![])
        },
        None => Ok(seq![]),
    }
}

/// The `_quarto.yml` a render writes, as text, or the message of the export error.
pub open spec fn project_yaml_spec(vault: Option<Seq<char>>, extra: Seq<(Seq<char>, Seq<char>)>) -> Result<Seq<char>, Seq<char>> {
    match vault_root(vault) {
        Err(m) => Err(lit_not_yaml() + m),
        Ok(root) => yaml_emit(YamlV::Mapping(project_entries(root, extra))),
    }
}

pub open spec fn pair_views(v: Seq<(String, String)>) -> Seq<(Seq<char>, Seq<char>)> {
    v.map_values(|p: (String, String)| (p.0@, p.1@))
}

proof fn lemma_defaults_named(items: Seq<YamlV>)
    requires
        tags_named_list(items),
    ensures
        forall|i: int| 0 <= i < defaults_for(items).len() ==> tags_named((#[trigger] defaults_for(items)[i]).0) && tags_named(
            defaults_for(items)[i].1,
        ),
    decreases items.len(),
{
    if items.len() > 0 {
        lemma_tags_named_list(items);
        lemma_tags_named_list(items.drop_last());
        assert forall|i: int| 0 <= i < items.drop_last().len() implies tags_named(#[trigger] items.drop_last()[i]) by {
            assert(items.drop_last()[i] == items[i]);
        }
        lemma_defaults_named(items.drop_last());
        assert(tags_named(items[items.len() - 1]));
        let d = defaults_for(items.drop_last());
        if string_like(items.last()) {
            let x = (items.last(), sv(lit_default()));
            assert forall|i: int| 0 <= i < d.push(x).len() implies tags_named((#[trigger] d.push(x)[i]).0) && tags_named(
                d.push(x)[i].1,
            ) by {
                if i < d.len() {
                    assert(d.push(x)[i] == d[i]);
                }
            }
        }
    }
}

proof fn lemma_from_pairs_named(ps: Seq<(YamlV, YamlV)>)
    requires
        forall|i: int| 0 <= i < ps.len() ==> tags_named((#[trigger] ps[i]).0) && tags_named(ps[i].1),
    ensures
        tags_named_map(from_pairs(ps)),
    decreases ps.len(),
{
    if ps.len() > 0 {
        assert forall|i: int| 0 <= i < ps.drop_last().len() implies tags_named((#[trigger] ps.drop_last()[i]).0) && tags_named(
            ps.drop_last()[i].1,
        ) by {
            assert(ps.drop_last()[i] == ps[i]);
        }
        lemma_from_pairs_named(ps.drop_last());
        assert(ps.last() == ps[ps.len() - 1]);
        lemma_im_insert_named(from_pairs(ps.drop_last()), ps.last().0, ps.last().1);
    }
}

proof fn lemma_with_embed_named(f: Seq<(YamlV, YamlV)>, name: Seq<char>)
    requires
        tags_named_map(f),
    ensures
        tags_named_map(with_embed(f, name)),
{
    lemma_im_remove_named(f, sv(name));
    let (g, o) = im_remove(f, sv(name));
    let opts = match o {
        Some(YamlV::Mapping(m)) => m,
        _ => seq![],
    };
    assert(tags_named_map(opts)) by {
        if !(o matches Some(YamlV::Mapping(_))) {
            assert(tags_named_map(Seq::<(YamlV, YamlV)>::empty()));
        }
    }
    lemma_im_insert_named(opts, sv(lit_embed()), YamlV::Bool(true));
    lemma_im_insert_named(g, sv(name), YamlV::Mapping(im_insert(opts, sv(lit_embed()), YamlV::Bool(true))));
}

proof fn lemma_add_extra_named(r: Seq<(YamlV, YamlV)>, extra: Seq<(Seq<char>, Seq<char>)>)
    requires
        tags_named_map(r),
    ensures
        tags_named_map(add_extra(r, extra)),
    decreases extra.len(),
{
    if extra.len() > 0 {
        lemma_add_extra_named(r, extra.drop_last());
        let r0 = add_extra(r, extra.drop_last());
        let e = (sv(extra.last().0), sv(extra.last().1));
        lemma_tags_named_map(r0);
        lemma_tags_named_map(r0.push(e));
        assert forall|i: int| 0 <= i < r0.push(e).len() implies tags_named((#[trigger] r0.push(e)[i]).0) && tags_named(
            r0.push(e)[i].1,
        ) by {
            if i < r0.len() {
                assert(r0.push(e)[i] == r0[i]);
            }
        }
    }
}

/// Every tag in the project the vault's file becomes has a name.
proof fn lemma_project_named(root: Seq<(YamlV, YamlV)>, extra: Seq<(Seq<char>, Seq<char>)>)
    requires
        tags_named_map(root),
    ensures
        tags_named(YamlV::Mapping(project_entries(root, extra))),
{
    let pv = YamlV::Mapping(seq![(sv(lit_type()), sv(lit_default()))]);
    assert(tags_named(pv)) by {
        let e = seq![(sv(lit_type()), sv(lit_default()))];
        lemma_tags_named_map(e);
    }
    lemma_im_insert_named(root, sv(lit_project()), pv);
    let r1 = im_insert(root, sv(lit_project()), pv);
    lemma_im_remove_named(r1, sv(lit_format()));
    let (r2, f) = im_remove(r1, sv(lit_format()));
    assert(tags_named_map(format_entries(f))) by {
        match f {
            Some(YamlV::Mapping(m)) => {},
            Some(YamlV::Str(x)) => {
                let e = seq![(YamlV::Str(x), sv(lit_default()))];
                lemma_tags_named_map(e);
            },
            Some(YamlV::List(fs)) => {
                lemma_defaults_named(fs);
                lemma_from_pairs_named(defaults_for(fs));
            },
            _ => {},
        }
    }
    lemma_with_embed_named(format_entries(f), lit_html());
    lemma_with_embed_named(with_embed(format_entries(f), lit_html()), lit_revealjs());
    let f2 = with_embed(with_embed(format_entries(f), lit_html()), lit_revealjs());
    lemma_im_insert_named(r2, sv(lit_format()), YamlV::Mapping(f2));
    lemma_add_extra_named(im_insert(r2, sv(lit_format()), YamlV::Mapping(f2)), extra);
}

fn ystr(s: &str) -> (r: Yaml)
    ensures
        yv(r) == sv(s@),
{
    Yaml::Str(s.to_owned())
}

/// The format `name` moved last, with `embed-resources: true` among its options.
fn with_embed_exec(f: &mut Vec<(Yaml, Yaml)>, name: &str)
    ensures
        yv_map(final(f)@) == with_embed(yv_map(old(f)@), name@),
{
    let removed = im_remove_exec(f, &ystr(name));
    let ghost rem = opt_yv(removed);
    let mut opts: Vec<(Yaml, Yaml)> = match removed {
        Some(Yaml::Mapping(m)) => m,
        _ => Vec::new(),
    };
    proof {
        reveal_strlit("embed-resources");
        assert("embed-resources"@ =~= lit_embed());
        if !(rem matches Some(YamlV::Mapping(_))) {
            assert(yv_map(opts@) =~= Seq::<(YamlV, YamlV)>::empty());
        }
    }
    im_insert_exec(&mut opts, ystr("embed-resources"), Yaml::Bool(true));
    im_insert_exec(f, ystr(name), Yaml::Mapping(opts));
}

/// The vault's `format:` as a mapping of formats (see `format_entries`).
fn format_entries_exec(f: Option<Yaml>) -> (r: Vec<(Yaml, Yaml)>)
    ensures
        yv_map(r@) == format_entries(opt_yv(f)),
{
    proof {
        reveal_strlit("default");
        assert("default"@ =~= lit_default());
    }
    match f {
        Some(Yaml::Mapping(m)) => m,
        Some(Yaml::Str(x)) => {
            let d = ystr("default");
            let ghost xv = x@;
            let r = vec![(Yaml::Str(x), d)];
            proof {
                assert(yv(r@[0].1) == sv(lit_default()));
                assert(yv(r@[0].0) == YamlV::Str(xv));
                crate::yaml::lemma_yv_map_ext(r@, seq![(YamlV::Str(xv), sv(lit_default()))]);
            }
            r
        },
        Some(Yaml::List(fs)) => {
            let ghost items = yv_list(fs@);
            let mut rest = fs;
            let mut out: Vec<(Yaml, Yaml)> = Vec::new();
            let n = rest.len();
            let mut i: usize = 0;
            proof {
                assert(items.take(0) =~= Seq::<YamlV>::empty());
                assert(yv_map(out@) =~= Seq::<(YamlV, YamlV)>::empty());
                lemma_yv_list_index(fs@);
                assert(rest@ =~= fs@.skip(0));
            }
            while i < n
                invariant
                    i <= n == fs@.len(),
                    items == yv_list(fs@),
                    items.len() == fs@.len(),
                    forall|j: int| 0 <= j < fs@.len() ==> #[trigger] items[j] == yv(fs@[j]),
                    rest@ == fs@.skip(i as int),
                    "default"@ == lit_default(),
                    yv_map(out@) == from_pairs(defaults_for(items.take(i as int))),
                decreases n - i,
            {
                let x = rest.remove(0);
                proof {
                    assert(x == fs@[i as int]);
                    assert(rest@ =~= fs@.skip(i + 1));
                    assert(items.take(i + 1).drop_last() =~= items.take(i as int));
                    assert(items.take(i + 1).last() == yv(x));
                    lemma_string_like(x);
                }
                let is_str = yaml_as_str_exec(&x).is_some();
                let ghost xv = yv(x);
                let ghost d = defaults_for(items.take(i as int));
                if is_str {
                    im_insert_exec(&mut out, x, ystr("default"));
                    proof {
                        let p = (xv, sv(lit_default()));
                        assert(string_like(xv));
                        assert(defaults_for(items.take(i + 1)) == d.push(p));
                        assert(d.push(p).drop_last() =~= d);
                        assert(d.push(p).last() == p);
                        assert(from_pairs(d.push(p)) == im_insert(from_pairs(d), p.0, p.1));
                    }
                } else {
                    proof {
                        assert(!string_like(xv));
                        assert(defaults_for(items.take(i + 1)) == d);
                    }
                }
                i += 1;
            }
            proof {
                assert(items.take(n as int) =~= items);
            }
            out
        },
        _ => {
            let r: Vec<(Yaml, Yaml)> = Vec::new();
            proof {
                assert(yv_map(r@) =~= Seq::<(YamlV, YamlV)>::empty());
            }
            r
        },
    }
}

/// The `_quarto.yml` a render of one note writes: the vault's own project file, when it has
/// one, with `project:` reduced to `type: default`, HTML and reveal.js self-contained, and each
/// extra entry (a key and a path) where the vault's file has none; an export error when the
/// vault's file is not YAML.
pub fn project_yaml(vault: Option<&str>, extra: &[(String, String)]) -> (r: Result<String, Error>)
    ensures
        match project_yaml_spec(
            match vault {
                Some(t) => Some(t@),
                None => None,
            },
            pair_views(extra@),
        ) {
            Ok(s) => r matches Ok(x) && x@ == s,
            Err(m) => r matches Err(Error::Export(x)) && x@ == m,
        },
{
    let mut root: Vec<(Yaml, Yaml)> = Vec::new();
    proof {
        assert(yv_map(root@) =~= Seq::<(YamlV, YamlV)>::empty());
    }
    match vault {
        Some(text) => {
            if trim_exec(&chars_of(text)).len() > 0 {
                match parse_yaml_or_error(text) {
                    Ok(Yaml::Mapping(m)) => {
                        root = m;
                    },
                    Ok(_) => {},
                    Err(e) => {
                        let msg = crate::text::join_strs("the vault's _quarto.yml is not valid YAML: ", e.as_str());
                        return Err(Error::Export(msg));
                    },
                }
            }
        },
        None => {},
    }
    let ghost root0 = yv_map(root@);
    proof {
        reveal_strlit("project");
        reveal_strlit("type");
        reveal_strlit("default");
        reveal_strlit("format");
        reveal_strlit("html");
        reveal_strlit("revealjs");
        assert("project"@ =~= lit_project());
        assert("type"@ =~= lit_type());
        assert("default"@ =~= lit_default());
        assert("format"@ =~= lit_format());
        assert("html"@ =~= lit_html());
        assert("revealjs"@ =~= lit_revealjs());
        lemma_tags_named_map(root0);
    }
    let project = vec![(ystr("type"), ystr("default"))];
    proof {
        assert(project@.drop_last() =~= Seq::<(Yaml, Yaml)>::empty());
        assert(yv_map(project@) =~= seq![(sv(lit_type()), sv(lit_default()))]);
    }
    im_insert_exec(&mut root, ystr("project"), Yaml::Mapping(project));
    let f = im_remove_exec(&mut root, &ystr("format"));
    let mut format = format_entries_exec(f);
    with_embed_exec(&mut format, "html");
    with_embed_exec(&mut format, "revealjs");
    im_insert_exec(&mut root, ystr("format"), Yaml::Mapping(format));
    let mut i: usize = 0;
    let ghost r3 = yv_map(root@);
    proof {
        assert(pair_views(extra@).take(0) =~= Seq::<(Seq<char>, Seq<char>)>::empty());
    }
    while i < extra.len()
        invariant
            i <= extra@.len(),
            yv_map(root@) == add_extra(r3, pair_views(extra@).take(i as int)),
        decreases extra@.len() - i,
    {
        proof {
            assert(pair_views(extra@).take(i + 1).drop_last() =~= pair_views(extra@).take(i as int));
            assert(pair_views(extra@).take(i + 1).last() == (extra@[i as int].0@, extra@[i as int].1@));
        }
        let k = ystr(extra[i].0.as_str());
        if key_index_exec(&root, &k).is_none() {
            let ghost before = root@;
            root.push((k, ystr(extra[i].1.as_str())));
            proof {
                assert(root@.drop_last() =~= before);
            }
        }
        i += 1;
    }
    proof {
        assert(pair_views(extra@).take(extra@.len() as int) =~= pair_views(extra@));
        lemma_project_named(root0, pair_views(extra@));
        assert(yv(Yaml::Mapping(root)) == YamlV::Mapping(yv_map(root@)));
    }
    let whole = Yaml::Mapping(root);
    match emit_yaml(&whole) {
        Ok(s) => Ok(s),
        Err(m) => Err(Error::Export(m)),
    }
}

/// The vault's bibliography and citation style, handed to a render when it has them.
pub const VAULT_BIBLIOGRAPHY_FILE: &'static str = "export/references.bib";

pub const VAULT_CSL_FILE: &'static str = "export/style.csl";

/// A dependency list the walk from `start` can end at, for some reads of the files.
pub open spec fn walked_from(start: Seq<Seq<char>>, r: Seq<Seq<char>>, files: Seq<Seq<char>>) -> bool {
    exists|reads: Seq<Option<Seq<u8>>>| #[trigger] crate::attachments::walk_ends_at(start, reads, files, r)
}

/// The files a render lays out: what the note depends on, then the vault's resources it does
/// not already have.
pub open spec fn render_set(deps: Seq<Seq<char>>, resources: Seq<Seq<char>>) -> Seq<Seq<char>> {
    crate::attachments::add_new(deps, resources.map_values(|p: Seq<char>| Some(p)))
}

/// The files a render of the note at `note_path` lays out in its project, each at its vault
/// path: what the note depends on (see `referenced`), then the vault's resources (see
/// `vault_resources`) not already among them. A note whose markdown cannot be read is an error.
pub fn render_files<S: crate::attachments::FileSource>(note_path: &str, text: &str, attachments: &[String], src: &S) -> (r:
    Result<Vec<String>, Error>)
    ensures
        match crate::markdown::md_parse(text@) {
            Err(m) => r matches Err(Error::Markdown(e)) && e@ == m,
            Ok(t) => r matches Ok(v) && exists|deps: Seq<Seq<char>>, res: Seq<Seq<char>>|
                #[trigger] render_set(deps, res) == str_views(v@) && walked_from(
                    crate::attachments::capped(
                        crate::attachments::direct_dependencies(
                            note_path@,
                            text@,
                            crate::markdown::walked(t).wikilinks,
                            crate::markdown::walked(t).links,
                            str_views(attachments@),
                        ),
                    ),
                    deps,
                    str_views(attachments@),
                ) && walked_from(
                    crate::attachments::capped(crate::attachments::resources_in(str_views(attachments@))),
                    res,
                    str_views(attachments@),
                ),
        },
{
    let mut files = crate::attachments::referenced(note_path, text, attachments, src)?;
    let ghost deps = str_views(files@);
    let res = crate::attachments::vault_resources(attachments, src);
    let ghost rs = str_views(res@);
    crate::attachments::append_new(&mut files, res);
    proof {
        assert(render_set(deps, rs) == str_views(files@));
    }
    Ok(files)
}

/// The project file a render merges the vault's own into, rather than copying it.
pub open spec fn is_vault_project_file(p: Seq<char>) -> bool {
    p == "_quarto.yml"@ || p == "_quarto.yaml"@
}

pub fn vault_project_file(p: &str) -> (r: bool)
    ensures
        r == is_vault_project_file(p@),
{
    let c = chars_of(p);
    eq(&c, &chars_of("_quarto.yml")) || eq(&c, &chars_of("_quarto.yaml"))
}

/// The project keys a render sets from the files it lays out: `bibliography` when the vault's
/// bibliography is among them, `csl` when its citation style is, each with its vault path.
pub open spec fn render_extras_spec(files: Seq<Seq<char>>) -> Seq<(Seq<char>, Seq<char>)> {
    (if files.contains(VAULT_BIBLIOGRAPHY_FILE@) {
        seq![("bibliography"@, VAULT_BIBLIOGRAPHY_FILE@)]
    } else {
        seq![]
    }) + (if files.contains(VAULT_CSL_FILE@) {
        seq![("csl"@, VAULT_CSL_FILE@)]
    } else {
        seq![]
    })
}

pub fn render_extras(files: &[String]) -> (r: Vec<(String, String)>)
    ensures
        pair_views(r@) == render_extras_spec(str_views(files@)),
{
    let mut out: Vec<(String, String)> = Vec::new();
    if crate::attachments::has_file(files, &chars_of(VAULT_BIBLIOGRAPHY_FILE)) {
        out.push(("bibliography".to_owned(), VAULT_BIBLIOGRAPHY_FILE.to_owned()));
    }
    let ghost a = pair_views(out@);
    if crate::attachments::has_file(files, &chars_of(VAULT_CSL_FILE)) {
        out.push(("csl".to_owned(), VAULT_CSL_FILE.to_owned()));
    }
    proof {
        assert(pair_views(out@) =~= render_extras_spec(str_views(files@)));
    }
    out
}

} // verus!
