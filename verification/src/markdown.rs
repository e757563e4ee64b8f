//! Markdown indexing for the notes dialect: what the relational tables and the search index
//! need of a note (title, tags, links, headings, feature flags), and the rewriting of
//! `[[wikilinks]]` when a note is renamed.
use vstd::prelude::*;
use crate::remote::opt_view;
use crate::store::{views, words};
use crate::text::{
    after_last, chars_of, concat, ends_with, find, find_any_from, find_any_from_exec, find_exec, join,
    lemma_find, slice, string_of, strip_set, strip_set_exec, trim, trim_end_pat, trim_end_pat_exec,
    trim_exec,
    unicode_lower,
};
use crate::error::Error;
use crate::yaml::{yaml_document, Yaml};

verus! {

// ---- Rewriting links on rename ---------------------------------------------------------------

/// A path without its `.md`, then without its `.qmd`, endings.
pub open spec fn link_stem(p: Seq<char>) -> Seq<char> {
    trim_end_pat(trim_end_pat(p, ".md"@), ".qmd"@)
}

/// What a link's target becomes, if the rename concerns it: the full old path or its stem
/// become the new stem; the old bare name becomes the new bare name while the names differ.
pub open spec fn link_replacement(t: Seq<char>, old_path: Seq<char>, new_path: Seq<char>) -> Option<Seq<char>> {
    let old_stem = link_stem(old_path);
    let new_stem = link_stem(new_path);
    let old_base = after_last(old_stem, '/');
    let new_base = after_last(new_stem, '/');
    if t == old_path || t == old_stem {
        Some(new_stem)
    } else if t == old_base && old_base != new_base {
        Some(new_base)
    } else {
        None
    }
}

/// A link's inside split at its first `#` or `|`: the target, and the suffix kept as it is.
pub open spec fn split_inner(inner: Seq<char>) -> (Seq<char>, Seq<char>) {
    match find_any_from(inner, seq!['#', '|'], 0) {
        Some(k) => (inner.take(k), inner.skip(k)),
        None => (inner, Seq::empty()),
    }
}

/// The rewritten text and whether anything changed, link by link from the left. After a
/// `[[` with no `]]` the rest is kept as it is.
pub open spec fn rewrite_from(rest: Seq<char>, old_path: Seq<char>, new_path: Seq<char>) -> (Seq<char>, bool)
    decreases rest.len(),
{
    match find(rest, "[["@) {
        None => (rest, false),
        Some(i) => {
            let head = rest.take(i + 2);
            let r2 = rest.skip(i + 2);
            if i < 0 || i + 2 > rest.len() {
                (rest, false)
            } else {
                match find(r2, "]]"@) {
                    None => (head + r2, false),
                    Some(end) => if end < 0 || end > r2.len() {
                        (rest, false)
                    } else {
                        let inner = r2.take(end);
                        let (target, suffix) = split_inner(inner);
                        let repl = link_replacement(trim(target), old_path, new_path);
                        let piece = match repl {
                            Some(r) => r + suffix,
                            None => inner,
                        };
                        let (tail, changed) = rewrite_from(r2.skip(end), old_path, new_path);
                        (head + piece + tail, changed || repl is Some)
                    },
                }
            }
        },
    }
}

proof fn lemma_find_any_bounds(s: Seq<char>, set: Seq<char>, i: int)
    ensures
        match find_any_from(s, set, i) {
            Some(k) => 0 <= i <= k < s.len(),
            None => true,
        },
    decreases s.len() - i,
{
    if i < 0 || i >= s.len() {
    } else if set.contains(s[i]) {
    } else {
        lemma_find_any_bounds(s, set, i + 1);
    }
}

fn link_replacement_exec(t: &[char], old_path: &[char], new_path: &[char]) -> (r: Option<Vec<char>>)
    ensures
        match r {
            Some(v) => link_replacement(t@, old_path@, new_path@) == Some(v@),
            None => link_replacement(t@, old_path@, new_path@) is None,
        },
{
    let md = chars_of(".md");
    let qmd = chars_of(".qmd");
    let old_stem = trim_end_pat_exec(&trim_end_pat_exec(old_path, &md), &qmd);
    let new_stem = trim_end_pat_exec(&trim_end_pat_exec(new_path, &md), &qmd);
    let old_base = crate::attachments::after_last_exec(&old_stem, '/');
    let new_base = crate::attachments::after_last_exec(&new_stem, '/');
    if crate::text::eq(t, old_path) || crate::text::eq(t, &old_stem) {
        Some(new_stem)
    } else if crate::text::eq(t, &old_base) && !crate::text::eq(&old_base, &new_base) {
        Some(new_base)
    } else {
        None
    }
}

/// Rewrite `[[old]]`-style links that resolve to `old_path` so they point at `new_path`.
/// Matches the forms the resolver accepts — full path, path without extension, bare name
/// without extension — and keeps any `#heading` / `|label` suffix. `None` when nothing changed.
pub fn rewrite_wikilinks(text: &str, old_path: &str, new_path: &str) -> (r: Option<String>)
    ensures
        match r {
            Some(s) => rewrite_from(text@, old_path@, new_path@) == (s@, true),
            None => !rewrite_from(text@, old_path@, new_path@).1,
        },
{
    let op = chars_of(old_path);
    let np = chars_of(new_path);
    let open = chars_of("[[");
    let close = chars_of("]]");
    let mut rest = chars_of(text);
    let mut out: Vec<char> = Vec::new();
    let mut changed = false;
    proof {
        reveal_strlit("[[");
        reveal_strlit("]]");
    }
    loop
        invariant_except_break
            out@ + rewrite_from(rest@, op@, np@).0 == rewrite_from(text@, old_path@, new_path@).0,
            (changed || rewrite_from(rest@, op@, np@).1) == rewrite_from(text@, old_path@, new_path@).1,
        invariant
            open@ == "[["@,
            close@ == "]]"@,
            "[["@.len() == 2,
            op@ == old_path@,
            np@ == new_path@,
        ensures
            out@ == rewrite_from(text@, old_path@, new_path@).0,
            changed == rewrite_from(text@, old_path@, new_path@).1,
        decreases rest@.len(),
    {
        proof {
            lemma_find(rest@, open@);
        }
        let i = match find_exec(&rest, &open) {
            Some(i) => i,
            None => {
                crate::text::append(&mut out, &rest);
                break;
            },
        };
        let n = rest.len();
        proof {
            assert(crate::text::is_at(rest@, open@, i as int));
        }
        let head = slice(&rest, 0, i + 2);
        let r2 = slice(&rest, i + 2, n);
        proof {
            assert(head@ =~= rest@.take(i + 2));
            assert(r2@ =~= rest@.skip(i + 2));
            lemma_find(r2@, close@);
        }
        let end = match find_exec(&r2, &close) {
            Some(e) => e,
            None => {
                crate::text::append(&mut out, &head);
                crate::text::append(&mut out, &r2);
                break;
            },
        };
        let m = r2.len();
        let inner = slice(&r2, 0, end);
        proof {
            assert(inner@ =~= r2@.take(end as int));
            lemma_find_any_bounds(inner@, seq!['#', '|'], 0);
        }
        let set = vec!['#', '|'];
        proof {
            assert(set@ =~= seq!['#', '|']);
        }
        let (target, suffix) = match find_any_from_exec(&inner, &set, 0) {
            Some(k) => (slice(&inner, 0, k), slice(&inner, k, inner.len())),
            None => (slice(&inner, 0, inner.len()), Vec::new()),
        };
        proof {
            assert((target@, suffix@) =~= split_inner(inner@));
        }
        let t = trim_exec(&target);
        let repl = link_replacement_exec(&t, &op, &np);
        let ghost tail_pair = rewrite_from(r2@.skip(end as int), op@, np@);
        let ghost o0 = out@;
        crate::text::append(&mut out, &head);
        match repl {
            Some(rv) => {
                crate::text::append(&mut out, &rv);
                crate::text::append(&mut out, &suffix);
                changed = true;
            },
            None => {
                crate::text::append(&mut out, &inner);
            },
        }
        let next = slice(&r2, end, m);
        proof {
            assert(next@ =~= r2@.skip(end as int));
            let piece = match link_replacement(trim(target@), op@, np@) {
                Some(r) => r + suffix@,
                None => inner@,
            };
            assert(out@ =~= o0 + head@ + piece);
            assert(rewrite_from(rest@, op@, np@).0 == head@ + piece + tail_pair.0);
            assert(o0 + (head@ + piece + tail_pair.0) =~= out@ + tail_pair.0);
        }
        rest = next;
    }
    if changed {
        Some(string_of(&out))
    } else {
        None
    }
}


// ---- The tree the parser builds -------------------------------------------------------------

/// A markdown syntax tree node, holding what indexing reads of it.
#[derive(Debug, PartialEq, Eq)]
pub enum MdNode {
    /// YAML front matter, as written.
    Yaml(String),
    /// A heading: depth and inline content.
    Heading(u8, Vec<MdNode>),
    Paragraph(Vec<MdNode>),
    /// A math block.
    Math,
    InlineMath,
    /// A list item: whether it is a task (done or not), and its content.
    ListItem(Option<bool>, Vec<MdNode>),
    /// A fenced code block and its language.
    Code(Option<String>),
    /// A link: destination and content.
    Link(String, Vec<MdNode>),
    /// An image: destination.
    Image(String),
    Text(String),
    InlineCode,
    Break,
    /// Any other node, with its children (none for a leaf).
    Other(Vec<MdNode>),
}

#[verifier::external_type_specification]
#[verifier::external_body]
pub struct ExParseOptions(markdown::ParseOptions);

#[verifier::external_type_specification]
#[verifier::external_body]
pub struct ExMdastNode(markdown::mdast::Node);

/// The parser's options for the notes dialect: GitHub flavour plus front matter and math.
#[verifier::external_body]
pub fn parse_options() -> markdown::ParseOptions {
    markdown::ParseOptions {
        constructs: markdown::Constructs { frontmatter: true, math_flow: true, math_text: true, ..markdown::Constructs::gfm() },
        ..markdown::ParseOptions::gfm()
    }
}

/// What `markdown::to_mdast` makes of a text with [`parse_options`]: its tree, or the message
/// of the error it reports.
pub uninterp spec fn md_parse(source: Seq<char>) -> Result<MdNode, Seq<char>>;

/// `markdown::to_mdast` with [`parse_options`], the tree converted node by node. Claims only
/// that the outcome is a function of the text.
#[verifier::external_body]
fn parse_markdown(source: &str) -> (r: Result<MdNode, String>)
    ensures
        match r {
            Ok(t) => md_parse(source@) == Ok::<MdNode, Seq<char>>(t),
            Err(e) => md_parse(source@) == Err::<MdNode, Seq<char>>(e@),
        },
{
    markdown::to_mdast(source, &parse_options()).map(|t| md_of(&t)).map_err(|e| e.to_string())
}

/// The conversion of a node: front matter, headings and paragraphs here, the rest through
/// [`md_inner`].
#[verifier::external_body]
fn md_of(n: &markdown::mdast::Node) -> MdNode {
    match n {
        markdown::mdast::Node::Yaml(y) => MdNode::Yaml(y.value.clone()),
        markdown::mdast::Node::Heading(h) => MdNode::Heading(h.depth, h.children.iter().map(md_of).collect()),
        markdown::mdast::Node::Paragraph(p) => MdNode::Paragraph(p.children.iter().map(md_of).collect()),
        other => md_inner(other),
    }
}

/// The conversion of list items, links and other parents (leaves through [`md_leaf`]).
#[verifier::external_body]
fn md_inner(n: &markdown::mdast::Node) -> MdNode {
    match n {
        markdown::mdast::Node::ListItem(l) => MdNode::ListItem(l.checked, l.children.iter().map(md_of).collect()),
        markdown::mdast::Node::Link(l) => MdNode::Link(l.url.clone(), l.children.iter().map(md_of).collect()),
        other => match other.children() {
            Some(c) => MdNode::Other(c.iter().map(md_of).collect()),
            None => md_leaf(other),
        },
    }
}

/// The conversion of a leaf node.
#[verifier::external_body]
fn md_leaf(n: &markdown::mdast::Node) -> MdNode {
    match n {
        markdown::mdast::Node::Math(_) => MdNode::Math,
        markdown::mdast::Node::InlineMath(_) => MdNode::InlineMath,
        markdown::mdast::Node::Code(c) => MdNode::Code(c.lang.clone()),
        markdown::mdast::Node::Image(i) => MdNode::Image(i.url.clone()),
        markdown::mdast::Node::Text(t) => MdNode::Text(t.value.clone()),
        markdown::mdast::Node::InlineCode(_) => MdNode::InlineCode,
        markdown::mdast::Node::Break(_) => MdNode::Break,
        _ => MdNode::Other(Vec::new()),
    }
}

// ---- What an index holds ---------------------------------------------------------------------

/// A note's front matter, as far as the index reads it.
#[derive(Debug, Clone, PartialEq, Eq)]
pub struct FrontMatter {
    pub title: Option<String>,
    pub tags: Vec<String>,
    pub aliases: Vec<String>,
    pub id: Option<String>,
}

impl Default for FrontMatter {
    fn default() -> (r: Self)
        ensures
            r.title is None,
            r.tags@.len() == 0,
            r.aliases@.len() == 0,
            r.id is None,
    {
        FrontMatter { title: None, tags: Vec::new(), aliases: Vec::new(), id: None }
    }
}

/// A `[[wikilink]]` or `![[embed]]`.
#[derive(Debug, Clone, PartialEq, Eq)]
pub struct WikiLink {
    pub target: String,
    pub heading: Option<String>,
    pub label: Option<String>,
    pub embed: bool,
}

#[derive(Debug, Clone, PartialEq, Eq)]
pub struct Heading {
    pub depth: u8,
    pub text: String,
}

#[derive(Debug, Clone, PartialEq, Eq)]
pub struct NoteIndex {
    /// Front-matter `title`, else the first H1, else `None` (the caller falls back to the
    /// file name).
    pub title: Option<String>,
    pub front_matter: Option<FrontMatter>,
    /// Lower-cased, deduplicated, in first-seen order; inline `#tags`, then the front matter's.
    pub tags: Vec<String>,
    pub wikilinks: Vec<WikiLink>,
    /// Destinations of standard `[text](url)` and `![](url)` links, verbatim.
    pub links: Vec<String>,
    pub headings: Vec<Heading>,
    pub has_math: bool,
    pub has_tasks: bool,
    /// Languages of fenced code blocks, braces stripped (`{python}` → `python`), deduplicated.
    pub code_langs: Vec<String>,
    /// Plain text with markup removed, words separated by single spaces.
    pub plain_text: String,
}

/// Front matter by its texts.
#[verifier::ext_equal]
pub struct FmView {
    pub title: Option<Seq<char>>,
    pub tags: Seq<Seq<char>>,
    pub aliases: Seq<Seq<char>>,
    pub id: Option<Seq<char>>,
}

/// A wikilink by its texts.
#[verifier::ext_equal]
pub struct WlView {
    pub target: Seq<char>,
    pub heading: Option<Seq<char>>,
    pub label: Option<Seq<char>>,
    pub embed: bool,
}

/// An index being built, by its texts; `plain` is the text collected so far.
#[verifier::ext_equal]
pub struct IxView {
    pub fm: Option<FmView>,
    pub tags: Seq<Seq<char>>,
    pub wikilinks: Seq<WlView>,
    pub links: Seq<Seq<char>>,
    pub headings: Seq<(u8, Seq<char>)>,
    pub math: bool,
    pub tasks: bool,
    pub langs: Seq<Seq<char>>,
    pub plain: Seq<char>,
}

pub open spec fn fm_view(f: FrontMatter) -> FmView {
    FmView { title: opt_view(f.title), tags: views(f.tags@), aliases: views(f.aliases@), id: opt_view(f.id) }
}

pub open spec fn wl_view(w: WikiLink) -> WlView {
    WlView { target: w.target@, heading: opt_view(w.heading), label: opt_view(w.label), embed: w.embed }
}

pub open spec fn wl_views(ws: Seq<WikiLink>) -> Seq<WlView> {
    ws.map_values(|w: WikiLink| wl_view(w))
}

pub open spec fn heading_views(hs: Seq<Heading>) -> Seq<(u8, Seq<char>)> {
    hs.map_values(|h: Heading| (h.depth, h.text@))
}

pub open spec fn empty_view() -> IxView {
    IxView {
        fm: None,
        tags: Seq::empty(),
        wikilinks: Seq::empty(),
        links: Seq::empty(),
        headings: Seq::empty(),
        math: false,
        tasks: false,
        langs: Seq::empty(),
        plain: Seq::empty(),
    }
}

// ---- Inline text and links -------------------------------------------------------------------

/// The concatenated text of a node's inline content, code and math left out (a space each),
/// breaks as newlines.
pub open spec fn node_text(n: MdNode) -> Seq<char>
    decreases n, 0nat,
{
    match n {
        MdNode::Text(v) => v@,
        MdNode::InlineCode => seq![' '],
        MdNode::InlineMath => seq![' '],
        MdNode::Break => seq!['\n'],
        MdNode::Heading(_, c) => nodes_text(c@),
        MdNode::Paragraph(c) => nodes_text(c@),
        MdNode::ListItem(_, c) => nodes_text(c@),
        MdNode::Link(_, c) => nodes_text(c@),
        MdNode::Other(c) => nodes_text(c@),
        _ => Seq::empty(),
    }
}

/// The text of a list of inline nodes.
pub open spec fn nodes_text(ns: Seq<MdNode>) -> Seq<char>
    decreases ns, 1nat,
{
    if ns.len() == 0 {
        Seq::empty()
    } else {
        nodes_text(ns.subrange(0, ns.len() - 1)) + node_text(ns[ns.len() - 1])
    }
}

/// The link and image destinations in a node, its own first.
pub open spec fn node_links(n: MdNode) -> Seq<Seq<char>>
    decreases n, 0nat,
{
    match n {
        MdNode::Link(u, c) => seq![u@] + nodes_links(c@),
        MdNode::Image(u) => seq![u@],
        MdNode::Heading(_, c) => nodes_links(c@),
        MdNode::Paragraph(c) => nodes_links(c@),
        MdNode::ListItem(_, c) => nodes_links(c@),
        MdNode::Other(c) => nodes_links(c@),
        _ => Seq::empty(),
    }
}

pub open spec fn nodes_links(ns: Seq<MdNode>) -> Seq<Seq<char>>
    decreases ns, 1nat,
{
    if ns.len() == 0 {
        Seq::empty()
    } else {
        nodes_links(ns.subrange(0, ns.len() - 1)) + node_links(ns[ns.len() - 1])
    }
}

// ---- Tags and wikilinks in inline text --------------------------------------------------------

/// `char::is_alphanumeric`: Unicode's alphabetic or numeric characters.
pub uninterp spec fn alphanumeric(c: char) -> bool;

/// `char::is_alphabetic`: Unicode's alphabetic characters.
pub uninterp spec fn alphabetic(c: char) -> bool;

/// `char::is_alphanumeric`.
#[verifier::external_body]
fn is_alphanumeric(c: char) -> (r: bool)
    ensures
        r == alphanumeric(c),
{
    c.is_alphanumeric()
}

/// `char::is_alphabetic`.
#[verifier::external_body]
fn is_alphabetic(c: char) -> (r: bool)
    ensures
        r == alphabetic(c),
{
    c.is_alphabetic()
}

/// A character a tag's body may hold.
pub open spec fn tag_char(c: char) -> bool {
    alphanumeric(c) || c == '_' || c == '-' || c == '/'
}

/// How many characters from the start of `s` a tag's body may take.
pub open spec fn tag_run(s: Seq<char>) -> nat
    decreases s.len(),
{
    if s.len() > 0 && tag_char(s[0]) {
        1 + tag_run(s.drop_first())
    } else {
        0
    }
}

/// `s` without `c`'s first occurrence and what follows it, and what follows it.
pub open spec fn split_once(s: Seq<char>, c: char) -> Option<(Seq<char>, Seq<char>)> {
    match find(s, seq![c]) {
        Some(k) => Some((s.take(k), s.skip(k + 1))),
        None => None,
    }
}

/// A trimmed text, when something is left.
pub open spec fn nonempty_trim(s: Seq<char>) -> Option<Seq<char>> {
    if trim(s).len() > 0 {
        Some(trim(s))
    } else {
        None
    }
}

/// A wikilink's inside: `target#heading|label`, each part trimmed, empty parts absent.
pub open spec fn parse_wl(inner: Seq<char>, embed: bool) -> WlView {
    let (tp, label) = match split_once(inner, '|') {
        Some((t, l)) => (t, nonempty_trim(l)),
        None => (inner, None),
    };
    let (target, heading) = match split_once(tp, '#') {
        Some((t, h)) => (t, nonempty_trim(h)),
        None => (tp, None),
    };
    WlView { target: trim(target), heading, label, embed }
}

/// What inline text holds, in order.
pub enum ScanItem {
    Link(WlView),
    Tag(Seq<char>),
}

/// A wikilink starting at `i`: its inside, and where its `]]` starts after the `[[`.
pub open spec fn wiki_at(t: Seq<char>, i: int) -> Option<(Seq<char>, int)> {
    if 0 <= i && i + 1 < t.len() && t[i] == '[' && t[i + 1] == '[' {
        match find(t.skip(i + 2), seq![']', ']']) {
            Some(e) => {
                let inner = t.subrange(i + 2, i + 2 + e);
                if inner.len() > 0 && !crate::text::contains(inner, seq!['[', '[']) {
                    Some((inner, e))
                } else {
                    None
                }
            },
            None => None,
        }
    } else {
        None
    }
}

/// A tag starting at `i`: a `#` at the start or after a character that is not alphanumeric,
/// followed by a body with a letter that does not start with `/`.
pub open spec fn tag_at(t: Seq<char>, i: int) -> Option<Seq<char>> {
    if 0 <= i < t.len() && t[i] == '#' && (i == 0 || !alphanumeric(t[i - 1])) {
        let rest = t.skip(i + 1);
        let body = rest.take(tag_run(rest) as int);
        if (exists|k: int| 0 <= k < body.len() && alphabetic(#[trigger] body[k])) && !(body.len() > 0
            && body[0] == '/') {
            Some(body)
        } else {
            None
        }
    } else {
        None
    }
}

/// The wikilinks and tags of inline text from `i` on, left to right; a wikilink's inside is
/// not searched for tags.
pub open spec fn scan_from(t: Seq<char>, i: int) -> Seq<ScanItem>
    decreases t.len() - i,
{
    if i < 0 || i >= t.len() {
        Seq::empty()
    } else {
        match wiki_at(t, i) {
            Some((inner, e)) => if e >= 0 && i + e + 4 <= t.len() {
                seq![ScanItem::Link(parse_wl(inner, i > 0 && t[i - 1] == '!'))] + scan_from(t, i + e + 4)
            } else {
                Seq::empty()
            },
            None => match tag_at(t, i) {
                Some(b) => if i + 1 + b.len() <= t.len() {
                    seq![ScanItem::Tag(b)] + scan_from(t, i + 1 + b.len())
                } else {
                    Seq::empty()
                },
                None => scan_from(t, i + 1),
            },
        }
    }
}

/// The tag a body is recorded as: trimmed, slashes trimmed, lowercased.
pub open spec fn tag_key(t: Seq<char>) -> Seq<char> {
    unicode_lower(strip_set(trim(t), seq!['/']))
}

/// A tag added once, when something is left of it.
pub open spec fn push_tag(tags: Seq<Seq<char>>, t: Seq<char>) -> Seq<Seq<char>> {
    let k = tag_key(t);
    if k.len() > 0 && !tags.contains(k) {
        tags.push(k)
    } else {
        tags
    }
}

/// Tags added one after the other.
pub open spec fn push_tags(tags: Seq<Seq<char>>, ts: Seq<Seq<char>>) -> Seq<Seq<char>>
    decreases ts.len(),
{
    if ts.len() == 0 {
        tags
    } else {
        push_tags(push_tag(tags, ts[0]), ts.drop_first())
    }
}

/// What scanned items add to an index.
pub open spec fn apply_items(st: IxView, items: Seq<ScanItem>) -> IxView
    decreases items.len(),
{
    if items.len() == 0 {
        st
    } else {
        let next = match items[0] {
            ScanItem::Link(w) => IxView { wikilinks: st.wikilinks.push(w), ..st },
            ScanItem::Tag(b) => IxView { tags: push_tag(st.tags, b), ..st },
        };
        apply_items(next, items.drop_first())
    }
}

// ---- Front matter ----------------------------------------------------------------------------

/// The value under a key of a YAML mapping (its first occurrence).
pub open spec fn lookup(pairs: Seq<(Yaml, Yaml)>, key: Seq<char>) -> Option<Yaml>
    decreases pairs.len(),
{
    if pairs.len() == 0 {
        None
    } else if pairs[0].0 matches Yaml::Str(k) && k@ == key {
        Some(pairs[0].1)
    } else {
        lookup(pairs.drop_first(), key)
    }
}

/// A YAML scalar as a string field reads it.
pub open spec fn scalar_text(y: Yaml) -> Option<Seq<char>> {
    match y {
        Yaml::Bool(b) => Some(
            if b {
                seq!['t', 'r', 'u', 'e']
            } else {
                seq!['f', 'a', 'l', 's', 'e']
            },
        ),
        Yaml::Number(s) => Some(s@),
        Yaml::Str(s) => Some(s@),
        _ => None,
    }
}

/// An optional string field: absent or null is `None`; anything but a scalar is an error
/// (the outer `None`).
pub open spec fn opt_field(v: Option<Yaml>) -> Option<Option<Seq<char>>> {
    match v {
        None => Some(None),
        Some(Yaml::Null) => Some(None),
        Some(x) => match scalar_text(x) {
            Some(t) => Some(Some(t)),
            None => None,
        },
    }
}

/// The trimmed non-empty parts of a list.
pub open spec fn nonempty_trims(parts: Seq<Seq<char>>) -> Seq<Seq<char>>
    decreases parts.len(),
{
    if parts.len() == 0 {
        Seq::empty()
    } else {
        nonempty_trims(parts.drop_last()) + if trim(parts.last()).len() > 0 {
            seq![trim(parts.last())]
        } else {
            Seq::empty()
        }
    }
}

/// A list field: one string (split at commas, parts trimmed, empty ones dropped), a list of
/// strings, or null/absent for none; anything else is an error (`None`).
pub open spec fn list_field(v: Option<Yaml>) -> Option<Seq<Seq<char>>> {
    match v {
        None => Some(Seq::empty()),
        Some(Yaml::Null) => Some(Seq::empty()),
        Some(Yaml::Str(s)) => Some(nonempty_trims(crate::text::split(s@, ','))),
        Some(Yaml::List(items)) => if forall|k: int| 0 <= k < items@.len() ==> (#[trigger] items@[k]) is Str {
            Some(items@.map_values(|x: Yaml| x->Str_0@))
        } else {
            None
        },
        _ => None,
    }
}

pub open spec fn empty_fm() -> FmView {
    FmView { title: None, tags: Seq::empty(), aliases: Seq::empty(), id: None }
}

/// The front matter a YAML block gives: its fields when it is a mapping whose fields all read,
/// else an empty front matter (a malformed block does not stop the indexing).
pub open spec fn fm_of_yaml(y: Option<Yaml>) -> FmView {
    match y {
        Some(Yaml::Mapping(pairs)) => {
            let ps = pairs@;
            match (
                opt_field(lookup(ps, "title"@)),
                list_field(lookup(ps, "tags"@)),
                list_field(lookup(ps, "aliases"@)),
                opt_field(lookup(ps, "id"@)),
            ) {
                (Some(t), Some(g), Some(a), Some(i)) => FmView { title: t, tags: g, aliases: a, id: i },
                _ => empty_fm(),
            }
        },
        _ => empty_fm(),
    }
}

// ---- The walk --------------------------------------------------------------------------------

/// What a heading's or paragraph's inline content adds: its wikilinks and tags, its text (and a
/// newline) to the plain text, its destinations, and — for a heading — the heading.
pub open spec fn inline_visit(st: IxView, c: Seq<MdNode>, depth: Option<u8>) -> IxView {
    let text = nodes_text(c);
    let st1 = apply_items(st, scan_from(text, 0));
    let st2 = IxView { plain: st1.plain + text + seq!['\n'], links: st1.links + nodes_links(c), ..st1 };
    match depth {
        Some(d) => IxView { headings: st2.headings.push((d, text)), ..st2 },
        None => st2,
    }
}

/// What one node adds to the index (its children are visited after it).
pub open spec fn visit(st: IxView, n: MdNode) -> IxView {
    match n {
        MdNode::Yaml(v) => IxView { fm: Some(fm_of_yaml(yaml_document(v@))), ..st },
        MdNode::Heading(d, c) => inline_visit(st, c@, Some(d)),
        MdNode::Paragraph(c) => inline_visit(st, c@, None),
        MdNode::Math => IxView { math: true, ..st },
        MdNode::InlineMath => IxView { math: true, ..st },
        MdNode::ListItem(Some(_), _) => IxView { tasks: true, ..st },
        MdNode::Code(Some(l)) => {
            let lang = strip_set(l@, seq!['{', '}']);
            if lang.len() > 0 && !st.langs.contains(lang) {
                IxView { langs: st.langs.push(lang), ..st }
            } else {
                st
            }
        },
        _ => st,
    }
}

/// A node and all below it, each before its children.
pub open spec fn preorder(n: MdNode) -> Seq<MdNode>
    decreases n, 0nat,
{
    seq![n] + match n {
        MdNode::Heading(_, c) => preorder_list(c@),
        MdNode::Paragraph(c) => preorder_list(c@),
        MdNode::ListItem(_, c) => preorder_list(c@),
        MdNode::Link(_, c) => preorder_list(c@),
        MdNode::Other(c) => preorder_list(c@),
        _ => Seq::empty(),
    }
}

pub open spec fn preorder_list(ns: Seq<MdNode>) -> Seq<MdNode>
    decreases ns, 1nat,
{
    if ns.len() == 0 {
        Seq::empty()
    } else {
        preorder_list(ns.subrange(0, ns.len() - 1)) + preorder(ns[ns.len() - 1])
    }
}

/// Nodes visited one after the other.
pub open spec fn visit_all(st: IxView, ns: Seq<MdNode>) -> IxView
    decreases ns.len(),
{
    if ns.len() == 0 {
        st
    } else {
        visit_all(visit(st, ns[0]), ns.drop_first())
    }
}

/// The first level-one heading's text.
pub open spec fn first_h1(hs: Seq<(u8, Seq<char>)>) -> Option<Seq<char>>
    decreases hs.len(),
{
    if hs.len() == 0 {
        None
    } else if hs[0].0 == 1 {
        Some(hs[0].1)
    } else {
        first_h1(hs.drop_first())
    }
}

/// The index of a tree: the walk's result; the front matter's title and tags (after the
/// inline ones) when it has them; else the first H1 as title; the plain text's words joined by
/// single spaces.
pub open spec fn index_tags(t: MdNode) -> Seq<Seq<char>> {
    let w = visit_all(empty_view(), preorder(t));
    match w.fm {
        Some(f) => push_tags(w.tags, f.tags),
        None => w.tags,
    }
}

pub open spec fn index_title(t: MdNode) -> Option<Seq<char>> {
    let w = visit_all(empty_view(), preorder(t));
    match w.fm {
        Some(f) => if f.title is Some {
            f.title
        } else {
            first_h1(w.headings)
        },
        None => first_h1(w.headings),
    }
}

// ---- Building the index ----------------------------------------------------------------------

/// An index being built, with the plain text collected so far.
struct Acc {
    ix: NoteIndex,
    plain: Vec<char>,
}

spec fn acc_view(a: Acc) -> IxView {
    IxView {
        fm: match a.ix.front_matter {
            Some(f) => Some(fm_view(f)),
            None => None,
        },
        tags: views(a.ix.tags@),
        wikilinks: wl_views(a.ix.wikilinks@),
        links: views(a.ix.links@),
        headings: heading_views(a.ix.headings@),
        math: a.ix.has_math,
        tasks: a.ix.has_tasks,
        langs: views(a.ix.code_langs@),
        plain: a.plain@,
    }
}

/// Whether a list of strings holds a text.
fn holds(v: &Vec<String>, k: &[char]) -> (r: bool)
    ensures
        r == views(v@).contains(k@),
{
    let mut j: usize = 0;
    while j < v.len()
        invariant
            j <= v@.len(),
            forall|i: int| 0 <= i < j ==> v@[i]@ != k@,
        decreases v@.len() - j,
    {
        if crate::text::eq(&chars_of(v[j].as_str()), k) {
            proof {
                assert(views(v@)[j as int] == k@);
            }
            return true;
        }
        j += 1;
    }
    proof {
        if views(v@).contains(k@) {
            let i = choose|i: int| 0 <= i < views(v@).len() && views(v@)[i] == k@;
            assert(v@[i]@ == k@);
        }
    }
    false
}

fn push_string(v: &mut Vec<String>, s: String)
    ensures
        views(final(v)@) == views(old(v)@).push(s@),
{
    v.push(s);
    proof {
        assert(views(v@) =~= views(old(v)@).push(s@));
    }
}

fn push_tag_exec(tags: &mut Vec<String>, t: &[char])
    ensures
        views(final(tags)@) == push_tag(views(old(tags)@), t@),
{
    let set = vec!['/'];
    proof {
        assert(set@ =~= seq!['/']);
    }
    let k = to_lowercase_chars(&strip_set_exec(&trim_exec(t), &set));
    let kc = chars_of(k.as_str());
    if kc.len() > 0 && !holds(tags, &kc) {
        push_string(tags, k);
    }
}

fn to_lowercase_chars(s: &[char]) -> (r: String)
    ensures
        r@ == unicode_lower(s@),
{
    crate::text::to_lowercase(string_of(s).as_str())
}

fn opt_string(s: Option<Vec<char>>) -> (r: Option<String>)
    ensures
        opt_view(r) == match s {
            Some(v) => Some(v@),
            None => None::<Seq<char>>,
        },
{
    match s {
        Some(v) => Some(string_of(&v)),
        None => None,
    }
}

fn nonempty_trim_exec(s: &[char]) -> (r: Option<Vec<char>>)
    ensures
        match r {
            Some(v) => nonempty_trim(s@) == Some(v@),
            None => nonempty_trim(s@) is None,
        },
{
    let t = trim_exec(s);
    if t.len() > 0 {
        Some(t)
    } else {
        None
    }
}

fn split_once_exec(s: &[char], c: char) -> (r: Option<(Vec<char>, Vec<char>)>)
    ensures
        match r {
            Some((a, b)) => split_once(s@, c) == Some((a@, b@)),
            None => split_once(s@, c) is None,
        },
{
    proof {
        lemma_find(s@, seq![c]);
    }
    let n = s.len();
    let one = vec![c];
    proof {
        assert(one@ =~= seq![c]);
    }
    match find_exec(s, &one) {
        Some(k) => {
            proof {
                assert(crate::text::is_at(s@, seq![c], k as int));
            }
            Some((slice(s, 0, k), slice(s, k + 1, n)))
        },
        None => None,
    }
}

fn parse_wl_exec(inner: &[char], embed: bool) -> (r: WikiLink)
    ensures
        wl_view(r) == parse_wl(inner@, embed),
{
    let (tp, label) = match split_once_exec(inner, '|') {
        Some((t, l)) => (t, nonempty_trim_exec(&l)),
        None => (slice(inner, 0, inner.len()), None),
    };
    proof {
        assert(inner@.subrange(0, inner@.len() as int) =~= inner@);
    }
    let (target, heading) = match split_once_exec(&tp, '#') {
        Some((t, h)) => (t, nonempty_trim_exec(&h)),
        None => (slice(&tp, 0, tp.len()), None),
    };
    proof {
        assert(tp@.subrange(0, tp@.len() as int) =~= tp@);
    }
    WikiLink { target: string_of(&trim_exec(&target)), heading: opt_string(heading), label: opt_string(label), embed }
}

fn tag_run_exec(t: &[char], from: usize) -> (r: usize)
    requires
        from <= t@.len(),
    ensures
        from + r <= t@.len(),
        r == tag_run(t@.skip(from as int)),
{
    let n = t.len();
    let mut j = from;
    while j < n && (is_alphanumeric(t[j]) || t[j] == '_' || t[j] == '-' || t[j] == '/')
        invariant
            from <= j <= n == t@.len(),
            tag_run(t@.skip(from as int)) == (j - from) + tag_run(t@.skip(j as int)),
        decreases n - j,
    {
        proof {
            assert(t@.skip(j as int)[0] == t@[j as int]);
            assert(t@.skip(j as int).drop_first() =~= t@.skip(j + 1));
        }
        j += 1;
    }
    proof {
        if j < n {
            assert(t@.skip(j as int)[0] == t@[j as int]);
        }
    }
    j - from
}

fn any_alphabetic(s: &[char]) -> (r: bool)
    ensures
        r == exists|k: int| 0 <= k < s@.len() && alphabetic(#[trigger] s@[k]),
{
    let mut k: usize = 0;
    while k < s.len()
        invariant
            k <= s@.len(),
            forall|j: int| 0 <= j < k ==> !alphabetic(#[trigger] s@[j]),
        decreases s@.len() - k,
    {
        if is_alphabetic(s[k]) {
            return true;
        }
        k += 1;
    }
    false
}

proof fn lemma_apply_first(st: IxView, x: ScanItem, rest: Seq<ScanItem>)
    ensures
        apply_items(st, seq![x] + rest) == apply_items(
            match x {
                ScanItem::Link(w) => IxView { wikilinks: st.wikilinks.push(w), ..st },
                ScanItem::Tag(b) => IxView { tags: push_tag(st.tags, b), ..st },
            },
            rest,
        ),
{
    assert((seq![x] + rest)[0] == x);
    assert((seq![x] + rest).drop_first() =~= rest);
}

/// Add the wikilinks and tags of inline text.
fn scan_exec(text: &[char], acc: &mut Acc)
    ensures
        acc_view(*final(acc)) == apply_items(acc_view(*old(acc)), scan_from(text@, 0)),
{
    let n = text.len();
    let close = vec![']', ']'];
    let open = vec!['[', '['];
    proof {
        assert(close@ =~= seq![']', ']']);
        assert(open@ =~= seq!['[', '[']);
    }
    let mut i: usize = 0;
    while i < n
        invariant
            i <= n == text@.len(),
            close@ == seq![']', ']'],
            open@ == seq!['[', '['],
            apply_items(acc_view(*old(acc)), scan_from(text@, 0)) == apply_items(acc_view(*acc), scan_from(text@, i as int)),
        decreases n - i,
    {
        let ghost t = text@;
        if text[i] == '[' && i + 1 < n && text[i + 1] == '[' {
            let rest = slice(text, i + 2, n);
            proof {
                assert(rest@ =~= t.skip(i + 2));
                lemma_find(rest@, close@);
            }
            match find_exec(&rest, &close) {
                Some(e) => {
                    proof {
                        assert(crate::text::is_at(rest@, close@, e as int));
                    }
                    let inner = slice(text, i + 2, i + 2 + e);
                    if inner.len() > 0 && !crate::text::contains_exec(&inner, &open) {
                        let embed = i > 0 && text[i - 1] == '!';
                        let w = parse_wl_exec(&inner, embed);
                        let ghost before = *acc;
                        proof {
                            assert(wiki_at(t, i as int) == Some((inner@, e as int)));
                            lemma_apply_first(acc_view(before), ScanItem::Link(wl_view(w)), scan_from(t, i + e + 4));
                        }
                        acc.ix.wikilinks.push(w);
                        proof {
                            assert(wl_views(acc.ix.wikilinks@) =~= wl_views(before.ix.wikilinks@).push(wl_view(w)));
                        }
                        i = i + e + 4;
                        continue;
                    }
                    proof {
                        assert(wiki_at(t, i as int) is None);
                    }
                },
                None => {
                    proof {
                        assert(wiki_at(t, i as int) is None);
                    }
                },
            }
        }
        proof {
            if !(text@[i as int] == '[' && i + 1 < n && text@[i + 1] == '[') {
                assert(wiki_at(t, i as int) is None);
            }
        }
        if text[i] == '#' && (i == 0 || !is_alphanumeric(text[i - 1])) {
            let run = tag_run_exec(text, i + 1);
            let body = slice(text, i + 1, i + 1 + run);
            if any_alphabetic(&body) && !(run > 0 && body[0] == '/') {
                let ghost before = *acc;
                proof {
                    assert(body@ =~= t.skip(i + 1).take(run as int));
                    assert(tag_at(t, i as int) == Some(body@));
                    lemma_apply_first(acc_view(before), ScanItem::Tag(body@), scan_from(t, i + 1 + run));
                }
                push_tag_exec(&mut acc.ix.tags, &body);
                i = i + 1 + run;
                continue;
            }
            proof {
                assert(body@ =~= t.skip(i + 1).take(run as int));
                assert(tag_at(t, i as int) is None);
            }
        }
        i += 1;
    }
    proof {
        assert(scan_from(text@, i as int) =~= Seq::<ScanItem>::empty());
    }
}

/// The inline text of a node.
fn node_text_exec(n: &MdNode) -> (r: Vec<char>)
    ensures
        r@ == node_text(*n),
    decreases *n, 0nat,
{
    match n {
        MdNode::Text(v) => chars_of(v.as_str()),
        MdNode::InlineCode => vec![' '],
        MdNode::InlineMath => vec![' '],
        MdNode::Break => vec!['\n'],
        MdNode::Heading(_, c) => nodes_text_exec(c),
        MdNode::Paragraph(c) => nodes_text_exec(c),
        MdNode::ListItem(_, c) => nodes_text_exec(c),
        MdNode::Link(_, c) => nodes_text_exec(c),
        MdNode::Other(c) => nodes_text_exec(c),
        _ => Vec::new(),
    }
}

/// The inline text of a list of nodes.
fn nodes_text_exec(ns: &Vec<MdNode>) -> (r: Vec<char>)
    ensures
        r@ == nodes_text(ns@),
    decreases ns@, 1nat,
{
    let mut out: Vec<char> = Vec::new();
    let mut i: usize = 0;
    proof {
        assert(ns@.subrange(0, 0) =~= Seq::<MdNode>::empty());
    }
    while i < ns.len()
        invariant
            i <= ns@.len(),
            out@ == nodes_text(ns@.subrange(0, i as int)),
        decreases ns@.len() - i,
    {
        proof {
            assert(ns@.subrange(0, i + 1).subrange(0, i as int) =~= ns@.subrange(0, i as int));
            assert(ns@.subrange(0, i + 1)[i as int] == ns@[i as int]);
            assert(decreases_to!(ns@ => ns@[i as int]));
        }
        let t = node_text_exec(&ns[i]);
        crate::text::append(&mut out, &t);
        i += 1;
    }
    proof {
        assert(ns@.subrange(0, ns@.len() as int) =~= ns@);
    }
    out
}

/// Add the link and image destinations of a node, its own first.
fn node_links_exec(n: &MdNode, out: &mut Vec<String>)
    ensures
        views(final(out)@) == views(old(out)@) + node_links(*n),
    decreases *n, 0nat,
{
    match n {
        MdNode::Link(u, c) => {
            push_string(out, u.as_str().to_owned());
            let ghost mid = views(out@);
            nodes_links_exec(c, out);
            proof {
                assert(views(old(out)@) + node_links(*n) =~= views(old(out)@).push(u@) + nodes_links(c@));
            }
        },
        MdNode::Image(u) => {
            push_string(out, u.as_str().to_owned());
            proof {
                assert(views(old(out)@).push(u@) =~= views(old(out)@) + seq![u@]);
            }
        },
        MdNode::Heading(_, c) => nodes_links_exec(c, out),
        MdNode::Paragraph(c) => nodes_links_exec(c, out),
        MdNode::ListItem(_, c) => nodes_links_exec(c, out),
        MdNode::Other(c) => nodes_links_exec(c, out),
        _ => {
            proof {
                assert(views(old(out)@) + Seq::<Seq<char>>::empty() =~= views(old(out)@));
            }
        },
    }
}

fn nodes_links_exec(ns: &Vec<MdNode>, out: &mut Vec<String>)
    ensures
        views(final(out)@) == views(old(out)@) + nodes_links(ns@),
    decreases ns@, 1nat,
{
    let mut i: usize = 0;
    proof {
        assert(ns@.subrange(0, 0) =~= Seq::<MdNode>::empty());
        assert(views(out@) =~= views(old(out)@) + Seq::<Seq<char>>::empty());
    }
    while i < ns.len()
        invariant
            i <= ns@.len(),
            views(out@) == views(old(out)@) + nodes_links(ns@.subrange(0, i as int)),
        decreases ns@.len() - i,
    {
        proof {
            assert(ns@.subrange(0, i + 1).subrange(0, i as int) =~= ns@.subrange(0, i as int));
            assert(ns@.subrange(0, i + 1)[i as int] == ns@[i as int]);
            assert(decreases_to!(ns@ => ns@[i as int]));
        }
        let ghost before = views(out@);
        node_links_exec(&ns[i], out);
        proof {
            assert(views(old(out)@) + nodes_links(ns@.subrange(0, i + 1)) =~= before + node_links(ns@[i as int]));
        }
        i += 1;
    }
    proof {
        assert(ns@.subrange(0, ns@.len() as int) =~= ns@);
    }
}

/// An optional reference's value.
spec fn od(v: Option<&Yaml>) -> Option<Yaml> {
    match v {
        Some(y) => Some(*y),
        None => None,
    }
}

fn lookup_exec<'a>(pairs: &'a Vec<(Yaml, Yaml)>, key: &str) -> (r: Option<&'a Yaml>)
    ensures
        od(r) == lookup(pairs@, key@),
{
    let k = chars_of(key);
    let mut j: usize = 0;
    proof {
        assert(pairs@.skip(0) =~= pairs@);
    }
    while j < pairs.len()
        invariant
            j <= pairs@.len(),
            k@ == key@,
            lookup(pairs@, key@) == lookup(pairs@.skip(j as int), key@),
        decreases pairs@.len() - j,
    {
        proof {
            assert(pairs@.skip(j as int)[0] == pairs@[j as int]);
            assert(pairs@.skip(j as int).drop_first() =~= pairs@.skip(j + 1));
        }
        let hit = match &pairs[j].0 {
            Yaml::Str(s) => crate::text::eq(&chars_of(s.as_str()), &k),
            _ => false,
        };
        if hit {
            return Some(&pairs[j].1);
        }
        j += 1;
    }
    None
}

fn scalar_text_exec(y: &Yaml) -> (r: Option<String>)
    ensures
        opt_view(r) == scalar_text(*y),
{
    match y {
        Yaml::Bool(b) => {
            let t = if *b {
                vec!['t', 'r', 'u', 'e']
            } else {
                vec!['f', 'a', 'l', 's', 'e']
            };
            proof {
                if *b {
                    assert(t@ =~= seq!['t', 'r', 'u', 'e']);
                } else {
                    assert(t@ =~= seq!['f', 'a', 'l', 's', 'e']);
                }
            }
            Some(string_of(&t))
        },
        Yaml::Number(s) => Some(s.as_str().to_owned()),
        Yaml::Str(s) => Some(s.as_str().to_owned()),
        _ => None,
    }
}

fn opt_field_exec(v: Option<&Yaml>) -> (r: Option<Option<String>>)
    ensures
        match r {
            Some(o) => opt_field(od(v)) == Some(opt_view(o)),
            None => opt_field(od(v)) is None,
        },
{
    match v {
        None => Some(None),
        Some(Yaml::Null) => Some(None),
        Some(x) => match scalar_text_exec(x) {
            Some(t) => Some(Some(t)),
            None => None,
        },
    }
}

fn list_field_exec(v: Option<&Yaml>) -> (r: Option<Vec<String>>)
    ensures
        match r {
            Some(l) => list_field(od(v)) == Some(views(l@)),
            None => list_field(od(v)) is None,
        },
{
    match v {
        None => Some(Vec::new()),
        Some(Yaml::Null) => Some(Vec::new()),
        Some(Yaml::Str(s)) => {
            let parts = crate::text::split_exec(&chars_of(s.as_str()), ',');
            let ghost ps = crate::text::split(s@, ',');
            let mut out: Vec<String> = Vec::new();
            let mut i: usize = 0;
            while i < parts.len()
                invariant
                    i <= parts@.len() == ps.len(),
                    od(v) == Some(Yaml::Str(*s)),
                    forall|k: int| 0 <= k < parts@.len() ==> #[trigger] parts@[k]@ == ps[k],
                    views(out@) == nonempty_trims(ps.take(i as int)),
                decreases parts@.len() - i,
            {
                proof {
                    assert(ps.take(i + 1).drop_last() =~= ps.take(i as int));
                    assert(ps.take(i + 1).last() == ps[i as int]);
                }
                let t = trim_exec(&parts[i]);
                if t.len() > 0 {
                    push_string(&mut out, string_of(&t));
                } else {
                    proof {
                        assert(views(out@) =~= views(out@) + Seq::<Seq<char>>::empty());
                    }
                }
                i += 1;
            }
            proof {
                assert(ps.take(ps.len() as int) =~= ps);
            }
            Some(out)
        },
        Some(Yaml::List(items)) => {
            let mut out: Vec<String> = Vec::new();
            let mut i: usize = 0;
            while i < items.len()
                invariant
                    i <= items@.len(),
                    od(v) == Some(Yaml::List(*items)),
                    forall|k: int| 0 <= k < i ==> (#[trigger] items@[k]) is Str,
                    views(out@) == items@.take(i as int).map_values(|x: Yaml| x->Str_0@),
                decreases items@.len() - i,
            {
                match &items[i] {
                    Yaml::Str(s) => {
                        push_string(&mut out, s.as_str().to_owned());
                        proof {
                            assert(items@.take(i + 1).map_values(|x: Yaml| x->Str_0@) =~= items@.take(
                                i as int,
                            ).map_values(|x: Yaml| x->Str_0@).push(s@));
                        }
                    },
                    _ => {
                        proof {
                            assert(!(items@[i as int] is Str));
                            assert(!(forall|k: int| 0 <= k < items@.len() ==> (#[trigger] items@[k]) is Str));
                        }
                        return None;
                    },
                }
                i += 1;
            }
            proof {
                assert(items@.take(items@.len() as int) =~= items@);
            }
            Some(out)
        },
        _ => None,
    }
}

/// The front matter a parsed YAML block gives (empty when it does not read as one).
fn fm_from_yaml(y: &Option<Yaml>) -> (r: FrontMatter)
    ensures
        fm_view(r) == fm_of_yaml(*y),
{
    match y {
        Some(Yaml::Mapping(pairs)) => {
            let t = opt_field_exec(lookup_exec(pairs, "title"));
            let g = list_field_exec(lookup_exec(pairs, "tags"));
            let a = list_field_exec(lookup_exec(pairs, "aliases"));
            let i = opt_field_exec(lookup_exec(pairs, "id"));
            match (t, g, a, i) {
                (Some(t), Some(g), Some(a), Some(i)) => FrontMatter { title: t, tags: g, aliases: a, id: i },
                _ => {
                    let r = FrontMatter::default();
                    proof {
                        assert(fm_view(r).tags =~= Seq::<Seq<char>>::empty());
                        assert(fm_view(r).aliases =~= Seq::<Seq<char>>::empty());
                    }
                    r
                },
            }
        },
        _ => {
            let r = FrontMatter::default();
            proof {
                assert(fm_view(r).tags =~= Seq::<Seq<char>>::empty());
                assert(fm_view(r).aliases =~= Seq::<Seq<char>>::empty());
            }
            r
        },
    }
}

fn inline_exec(c: &Vec<MdNode>, depth: Option<u8>, acc: &mut Acc)
    ensures
        acc_view(*final(acc)) == inline_visit(acc_view(*old(acc)), c@, depth),
{
    let text = nodes_text_exec(c);
    scan_exec(&text, acc);
    let ghost v1 = acc_view(*acc);
    crate::text::append(&mut acc.plain, &text);
    acc.plain.push('\n');
    nodes_links_exec(c, &mut acc.ix.links);
    let ghost v2 = acc_view(*acc);
    proof {
        let st2 = IxView { plain: v1.plain + text@ + seq!['\n'], links: v1.links + nodes_links(c@), ..v1 };
        assert(v2.plain =~= st2.plain);
        assert(v2 =~= st2);
    }
    match depth {
        Some(d) => {
            let h = Heading { depth: d, text: string_of(&text) };
            acc.ix.headings.push(h);
            proof {
                assert(heading_views(acc.ix.headings@) =~= v2.headings.push((d, text@)));
                assert(acc_view(*acc) =~= IxView { headings: v2.headings.push((d, text@)), ..v2 });
            }
        },
        None => {},
    }
}

fn visit_exec(n: &MdNode, acc: &mut Acc)
    ensures
        acc_view(*final(acc)) == visit(acc_view(*old(acc)), *n),
{
    let ghost v0 = acc_view(*acc);
    match n {
        MdNode::Yaml(v) => {
            let y = crate::yaml::parse_yaml(v.as_str());
            let f = fm_from_yaml(&y);
            acc.ix.front_matter = Some(f);
            proof {
                assert(acc_view(*acc) =~= IxView { fm: Some(fm_of_yaml(yaml_document(v@))), ..v0 });
            }
        },
        MdNode::Heading(d, c) => inline_exec(c, Some(*d), acc),
        MdNode::Paragraph(c) => inline_exec(c, None, acc),
        MdNode::Math => {
            acc.ix.has_math = true;
            proof {
                assert(acc_view(*acc) =~= IxView { math: true, ..v0 });
            }
        },
        MdNode::InlineMath => {
            acc.ix.has_math = true;
            proof {
                assert(acc_view(*acc) =~= IxView { math: true, ..v0 });
            }
        },
        MdNode::ListItem(Some(_), _) => {
            acc.ix.has_tasks = true;
            proof {
                assert(acc_view(*acc) =~= IxView { tasks: true, ..v0 });
            }
        },
        MdNode::Code(Some(l)) => {
            let braces = vec!['{', '}'];
            proof {
                assert(braces@ =~= seq!['{', '}']);
            }
            let lang = strip_set_exec(&chars_of(l.as_str()), &braces);
            if lang.len() > 0 && !holds(&acc.ix.code_langs, &lang) {
                push_string(&mut acc.ix.code_langs, string_of(&lang));
                proof {
                    assert(acc_view(*acc) =~= IxView { langs: v0.langs.push(lang@), ..v0 });
                }
            }
        },
        _ => {},
    }
}

proof fn lemma_visit_all_concat(st: IxView, a: Seq<MdNode>, b: Seq<MdNode>)
    ensures
        visit_all(st, a + b) == visit_all(visit_all(st, a), b),
    decreases a.len(),
{
    if a.len() == 0 {
        assert(a + b =~= b);
    } else {
        assert((a + b)[0] == a[0]);
        assert((a + b).drop_first() =~= a.drop_first() + b);
        lemma_visit_all_concat(visit(st, a[0]), a.drop_first(), b);
    }
}

/// The nodes below a node, each before its children.
spec fn below_of(n: MdNode) -> Seq<MdNode> {
    match n {
        MdNode::Heading(_, c) => preorder_list(c@),
        MdNode::Paragraph(c) => preorder_list(c@),
        MdNode::ListItem(_, c) => preorder_list(c@),
        MdNode::Link(_, c) => preorder_list(c@),
        MdNode::Other(c) => preorder_list(c@),
        _ => Seq::<MdNode>::empty(),
    }
}

fn walk(n: &MdNode, acc: &mut Acc)
    ensures
        acc_view(*final(acc)) == visit_all(acc_view(*old(acc)), preorder(*n)),
    decreases *n, 0nat,
{
    let ghost v0 = acc_view(*acc);
    visit_exec(n, acc);
    let ghost v1 = acc_view(*acc);
    let ghost below = below_of(*n);
    match n {
        MdNode::Heading(_, c) => walk_list(c, acc),
        MdNode::Paragraph(c) => walk_list(c, acc),
        MdNode::ListItem(_, c) => walk_list(c, acc),
        MdNode::Link(_, c) => walk_list(c, acc),
        MdNode::Other(c) => walk_list(c, acc),
        _ => {},
    }
    proof {
        assert(preorder(*n) == seq![*n] + below);
        assert((seq![*n] + below)[0] == *n);
        assert((seq![*n] + below).drop_first() =~= below);
        assert(acc_view(*acc) == visit_all(v1, below));
    }
}

fn walk_list(ns: &Vec<MdNode>, acc: &mut Acc)
    ensures
        acc_view(*final(acc)) == visit_all(acc_view(*old(acc)), preorder_list(ns@)),
    decreases ns@, 1nat,
{
    let ghost v0 = acc_view(*acc);
    let mut i: usize = 0;
    proof {
        assert(ns@.subrange(0, 0) =~= Seq::<MdNode>::empty());
    }
    while i < ns.len()
        invariant
            i <= ns@.len(),
            acc_view(*acc) == visit_all(v0, preorder_list(ns@.subrange(0, i as int))),
        decreases ns@.len() - i,
    {
        proof {
            assert(ns@.subrange(0, i + 1).subrange(0, i as int) =~= ns@.subrange(0, i as int));
            assert(ns@.subrange(0, i + 1)[i as int] == ns@[i as int]);
            assert(decreases_to!(ns@ => ns@[i as int]));
            lemma_visit_all_concat(v0, preorder_list(ns@.subrange(0, i as int)), preorder(ns@[i as int]));
        }
        walk(&ns[i], acc);
        i += 1;
    }
    proof {
        assert(ns@.subrange(0, ns@.len() as int) =~= ns@);
    }
}

fn first_h1_exec(hs: &Vec<Heading>) -> (r: Option<String>)
    ensures
        opt_view(r) == first_h1(heading_views(hs@)),
{
    let mut j: usize = 0;
    proof {
        assert(heading_views(hs@).skip(0) =~= heading_views(hs@));
    }
    while j < hs.len()
        invariant
            j <= hs@.len(),
            first_h1(heading_views(hs@)) == first_h1(heading_views(hs@).skip(j as int)),
        decreases hs@.len() - j,
    {
        proof {
            assert(heading_views(hs@).skip(j as int)[0] == (hs@[j as int].depth, hs@[j as int].text@));
            assert(heading_views(hs@).skip(j as int).drop_first() =~= heading_views(hs@).skip(j + 1));
        }
        if hs[j].depth == 1 {
            return Some(hs[j].text.as_str().to_owned());
        }
        j += 1;
    }
    proof {
        assert(heading_views(hs@).skip(j as int).len() == 0);
    }
    None
}

fn copy_opt_string(o: &Option<String>) -> (r: Option<String>)
    ensures
        opt_view(r) == opt_view(*o),
{
    match o {
        Some(s) => Some(s.as_str().to_owned()),
        None => None,
    }
}

/// What the walk over a tree gives.
pub open spec fn walked(t: MdNode) -> IxView {
    visit_all(empty_view(), preorder(t))
}

/// An index is the index of a tree.
pub open spec fn indexes(r: NoteIndex, t: MdNode) -> bool {
    let w = walked(t);
    &&& opt_view(r.title) == index_title(t)
    &&& match r.front_matter {
        Some(f) => w.fm == Some(fm_view(f)),
        None => w.fm is None,
    }
    &&& views(r.tags@) == index_tags(t)
    &&& wl_views(r.wikilinks@) == w.wikilinks
    &&& views(r.links@) == w.links
    &&& heading_views(r.headings@) == w.headings
    &&& r.has_math == w.math
    &&& r.has_tasks == w.tasks
    &&& views(r.code_langs@) == w.langs
    &&& r.plain_text@ == join(words(w.plain), seq![' '])
}

/// The index of a parsed note.
pub fn index_tree(t: &MdNode) -> (r: NoteIndex)
    ensures
        indexes(r, *t),
{
    let mut acc = Acc {
        ix: NoteIndex {
            title: None,
            front_matter: None,
            tags: Vec::new(),
            wikilinks: Vec::new(),
            links: Vec::new(),
            headings: Vec::new(),
            has_math: false,
            has_tasks: false,
            code_langs: Vec::new(),
            plain_text: String::new(),
        },
        plain: Vec::new(),
    };
    proof {
        assert(acc_view(acc) =~= empty_view());
    }
    walk(t, &mut acc);
    let ghost w = acc_view(acc);
    let ws = crate::store::split_whitespace(&acc.plain);
    let space = vec![' '];
    let joined = crate::text::join_exec(&ws, &space);
    proof {
        assert(space@ =~= seq![' ']);
    }
    let Acc { ix, plain: _ } = acc;
    let NoteIndex {
        title: _,
        front_matter,
        tags,
        wikilinks,
        links,
        headings,
        has_math,
        has_tasks,
        code_langs,
        plain_text: _,
    } = ix;
    let mut tags = tags;
    let mut title: Option<String> = None;
    match &front_matter {
        Some(f) => {
            if f.title.is_some() {
                title = copy_opt_string(&f.title);
            }
            let mut k: usize = 0;
            let ghost ft = views(f.tags@);
            proof {
                assert(ft.skip(0) =~= ft);
            }
            while k < f.tags.len()
                invariant
                    k <= f.tags@.len(),
                    ft == views(f.tags@),
                    push_tags(w.tags, ft) == push_tags(views(tags@), ft.skip(k as int)),
                decreases f.tags@.len() - k,
            {
                proof {
                    assert(ft.skip(k as int)[0] == f.tags@[k as int]@);
                    assert(ft.skip(k as int).drop_first() =~= ft.skip(k + 1));
                }
                push_tag_exec(&mut tags, &chars_of(f.tags[k].as_str()));
                k += 1;
            }
            proof {
                assert(ft.skip(k as int).len() == 0);
            }
        },
        None => {},
    }
    if title.is_none() {
        title = first_h1_exec(&headings);
    }
    NoteIndex {
        title,
        front_matter,
        tags,
        wikilinks,
        links,
        headings,
        has_math,
        has_tasks,
        code_langs,
        plain_text: string_of(&joined),
    }
}

/// Index a note: parse it, then read off [`index_tree`]; a parse failure is a markdown error.
pub fn index(source: &str) -> (r: Result<NoteIndex, Error>)
    ensures
        match md_parse(source@) {
            Ok(t) => r matches Ok(ix) && indexes(ix, t),
            Err(m) => r matches Err(Error::Markdown(e)) && e@ == m,
        },
{
    match parse_markdown(source) {
        Ok(t) => Ok(index_tree(&t)),
        Err(m) => Err(Error::Markdown(m)),
    }
}

} // verus!
