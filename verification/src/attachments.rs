//! Content-addressed attachments: files are identified by the blake3 hash of their bytes, and
//! notes name them by links that this module resolves to vault paths. Also what a file's own
//! content names in turn: a stylesheet's imports, a YAML file's paths.
use vstd::prelude::*;
use crate::error::Error;
use crate::ids::{ulid_text, VaultId};
use crate::projection::{join_path, join_path_exec, normalize_relative_spec, str_views, views, Projection};
use crate::text::{after_last, append, chars_of, concat, contains, contains_exec, ends_with, eq, find, find_exec, is_ascii_alnum, is_ascii_alpha, join_strs, lemma_find, lemma_rfind_before, lower_seq, lower_vec, replace, replace_exec, rfind, rfind_char, slice, split, starts_with, starts_with_exec, string_of, trim, trim_exec, trim_start, trim_start_exec};
use crate::yaml::{parse_yaml, Yaml};
use crate::frontmatter::{block_chars, block_chars_exec, lemma_block_chars};
use crate::markdown::{md_parse, walked, wl_view, wl_views, NoteIndex, WlView};
use crate::text::{lossy_text, utf8_lossy};
use crate::remote::opt_view;

verus! {

broadcast use vstd::seq_lib::group_seq_properties;

/// Upper bound accepted by the server and requested by clients.
pub const MAX_ATTACHMENT_BYTES: u64 = 67108864;

pub open spec fn is_hash_char(c: char) -> bool {
    ('0' <= c <= '9') || ('a' <= c <= 'f')
}

/// 64 lowercase hex digits: the text of a blake3 hash. (A string with any other character is
/// no hash whatever its byte length, so counting characters is counting bytes here.)
pub open spec fn is_valid_hash_spec(s: Seq<char>) -> bool {
    s.len() == 64 && forall|i: int| 0 <= i < s.len() ==> is_hash_char(#[trigger] s[i])
}

/// The blake3 hash of some bytes, as its hex text.
pub uninterp spec fn blake3_hex(bytes: Seq<u8>) -> Seq<char>;

/// `blake3::hash(..).to_hex()`: a function of the bytes, written as 64 lowercase hex digits.
#[verifier::external_body]
pub fn hash_bytes(bytes: &[u8]) -> (r: String)
    ensures
        r@ == blake3_hex(bytes@),
        is_valid_hash_spec(r@),
{
    blake3::hash(bytes).to_hex().to_string()
}

pub fn is_valid_hash(s: &str) -> (r: bool)
    ensures
        r == is_valid_hash_spec(s@),
{
    let c = chars_of(s);
    if c.len() != 64 {
        return false;
    }
    let mut i: usize = 0;
    while i < c.len()
        invariant
            i <= c.len(),
            c@ == s@,
            forall|j: int| 0 <= j < i ==> is_hash_char(#[trigger] c@[j]),
        decreases c.len() - i,
    {
        let ch = c[i];
        if !(('0' <= ch && ch <= '9') || ('a' <= ch && ch <= 'f')) {
            return false;
        }
        i += 1;
    }
    true
}

/// The media type `mime_guess` gives a path by its extension.
pub uninterp spec fn mime_essence(path: Seq<char>) -> Seq<char>;

/// `mime_guess::from_path(..).first_or_octet_stream().essence_str()`: a function of the path's
/// extension, `application/octet-stream` when it knows none.
#[verifier::external_body]
pub fn mime_for_path(path: &str) -> (r: String)
    ensures
        r@ == mime_essence(path@),
{
    mime_guess::from_path(path).first_or_octet_stream().essence_str().to_owned()
}

pub open spec fn lit_quarto_yml() -> Seq<char> {
    seq!['_', 'q', 'u', 'a', 'r', 't', 'o', '.', 'y', 'm', 'l']
}

pub open spec fn lit_quarto_yaml() -> Seq<char> {
    seq!['_', 'q', 'u', 'a', 'r', 't', 'o', '.', 'y', 'a', 'm', 'l']
}

pub open spec fn lit_metadata_yml() -> Seq<char> {
    seq!['_', 'm', 'e', 't', 'a', 'd', 'a', 't', 'a', '.', 'y', 'm', 'l']
}

pub open spec fn lit_export() -> Seq<char> {
    seq!['e', 'x', 'p', 'o', 'r', 't', '/']
}

pub open spec fn lit_attachments() -> Seq<char> {
    seq!['a', 't', 't', 'a', 'c', 'h', 'm', 'e', 'n', 't', 's', '/']
}

/// Quarto's project file, a folder's `_metadata.yml`, or anything under `export/`.
pub open spec fn is_vault_resource_spec(p: Seq<char>) -> bool {
    p == lit_quarto_yml() || p == lit_quarto_yaml() || after_last(p, '/') == lit_metadata_yml()
        || starts_with(p, lit_export())
}

/// The lowercased extension of a path's last segment (after its last `.`), or empty.
pub open spec fn extension_spec(p: Seq<char>) -> Seq<char> {
    let b = after_last(p, '/');
    match rfind(b, seq!['.']) {
        Some(i) => lower_seq(b.skip(i + 1)),
        None => Seq::empty(),
    }
}

pub open spec fn is_stylesheet_ext(e: Seq<char>) -> bool {
    e == seq!['s', 'c', 's', 's'] || e == seq!['s', 'a', 's', 's'] || e == seq!['c', 's', 's']
}

pub open spec fn is_yaml_ext(e: Seq<char>) -> bool {
    e == seq!['y', 'm', 'l'] || e == seq!['y', 'a', 'm', 'l']
}

pub open spec fn names_files_spec(p: Seq<char>) -> bool {
    is_stylesheet_ext(extension_spec(p)) || is_yaml_ext(extension_spec(p)) || is_vault_resource_spec(p)
}

/// `after_last` computed.
pub fn after_last_exec(s: &[char], c: char) -> (r: Vec<char>)
    ensures
        r@ == after_last(s@, c),
{
    let n = s.len();
    proof {
        lemma_rfind_before(s@, seq![c], s@.len() + 1int);
    }
    match rfind_char(s, c) {
        Some(i) => {
            proof {
                assert(crate::text::is_at(s@, seq![c], i as int));
            }
            slice(s, i + 1, n)
        },
        None => slice(s, 0, n),
    }
}

fn lit(s: &str) -> (r: Vec<char>)
    ensures
        r@ == s@,
{
    chars_of(s)
}

/// Files that belong to the vault rather than to a note: Quarto's project file and its
/// per-folder `_metadata.yml`, and the `export/` folder.
pub fn is_vault_resource(path: &str) -> (r: bool)
    ensures
        r == is_vault_resource_spec(path@),
{
    let p = chars_of(path);
    let a = lit("_quarto.yml");
    let b = lit("_quarto.yaml");
    let m = lit("_metadata.yml");
    let x = lit("export/");
    proof {
        reveal_strlit("_quarto.yml");
        reveal_strlit("_quarto.yaml");
        reveal_strlit("_metadata.yml");
        reveal_strlit("export/");
        assert(a@ =~= lit_quarto_yml());
        assert(b@ =~= lit_quarto_yaml());
        assert(m@ =~= lit_metadata_yml());
        assert(x@ =~= lit_export());
    }
    eq(&p, &a) || eq(&p, &b) || eq(&after_last_exec(&p, '/'), &m) || starts_with_exec(&p, &x)
}

/// The lowercased extension of the path's last segment.
pub fn extension(path: &[char]) -> (r: Vec<char>)
    ensures
        r@ == extension_spec(path@),
{
    let b = after_last_exec(path, '/');
    let n = b.len();
    proof {
        lemma_rfind_before(b@, seq!['.'], b@.len() + 1int);
    }
    match rfind_char(&b, '.') {
        Some(i) => {
            proof {
                assert(crate::text::is_at(b@, seq!['.'], i as int));
            }
            lower_vec(&slice(&b, i + 1, n))
        },
        None => Vec::new(),
    }
}

fn is_stylesheet_ext_exec(e: &[char]) -> (r: bool)
    ensures
        r == is_stylesheet_ext(e@),
{
    let a = vec!['s', 'c', 's', 's'];
    let b = vec!['s', 'a', 's', 's'];
    let c = vec!['c', 's', 's'];
    proof {
        assert(a@ =~= seq!['s', 'c', 's', 's']);
        assert(b@ =~= seq!['s', 'a', 's', 's']);
        assert(c@ =~= seq!['c', 's', 's']);
    }
    eq(e, &a) || eq(e, &b) || eq(e, &c)
}

fn is_yaml_ext_exec(e: &[char]) -> (r: bool)
    ensures
        r == is_yaml_ext(e@),
{
    let a = vec!['y', 'm', 'l'];
    let b = vec!['y', 'a', 'm', 'l'];
    proof {
        assert(a@ =~= seq!['y', 'm', 'l']);
        assert(b@ =~= seq!['y', 'a', 'm', 'l']);
    }
    eq(e, &a) || eq(e, &b)
}

/// Whether a file's content can name more files — so that changing it can change what a note
/// depends on.
pub fn names_files(path: &str) -> (r: bool)
    ensures
        r == names_files_spec(path@),
{
    let e = extension(&chars_of(path));
    is_stylesheet_ext_exec(&e) || is_yaml_ext_exec(&e) || is_vault_resource(path)
}

// ---------------------------------------------------------------------------------------------
// Resolving a link target
// ---------------------------------------------------------------------------------------------

/// The part of a link target before its first `#` or `?`.
pub open spec fn before_suffix(t: Seq<char>) -> Seq<char> {
    match crate::text::find_any_from(t, seq!['#', '?'], 0) {
        Some(i) => t.take(i),
        None => t,
    }
}

/// A link target as a path: fragment and query dropped, trimmed, `%20` read as a space.
pub open spec fn target_path(target: Seq<char>) -> Seq<char> {
    replace(trim(before_suffix(target)), seq!['%', '2', '0'], seq![' '])
}

/// Targets that name no file of the vault: empty, a URL, `mailto:`, `data:`.
pub open spec fn is_external(t: Seq<char>) -> bool {
    t.len() == 0 || contains(t, seq![':', '/', '/']) || starts_with(t, seq!['m', 'a', 'i', 'l', 't', 'o', ':'])
        || starts_with(t, seq!['d', 'a', 't', 'a', ':'])
}

/// Where a target may be, in order: relative to the note, relative to the root, and under
/// `attachments/` by its name.
pub open spec fn reference_tries(note: Seq<char>, t: Seq<char>) -> Seq<Seq<char>> {
    let a = match normalize_relative_spec(note, t) {
        Some(p) => seq![p],
        None => Seq::empty(),
    };
    let b = match normalize_relative_spec(Seq::empty(), t) {
        Some(p) => seq![p],
        None => Seq::empty(),
    };
    a + b + seq![lit_attachments() + after_last(t, '/')]
}

/// The first of `tries` that is one of `files`.
pub open spec fn first_known(tries: Seq<Seq<char>>, files: Seq<Seq<char>>) -> Option<Seq<char>>
    decreases tries.len(),
{
    if tries.len() == 0 {
        None
    } else if files.contains(tries[0]) {
        Some(tries[0])
    } else {
        first_known(tries.drop_first(), files)
    }
}

/// The first of `files` whose last segment is `name`.
pub open spec fn first_named(files: Seq<Seq<char>>, name: Seq<char>) -> Option<Seq<char>>
    decreases files.len(),
{
    if files.len() == 0 {
        None
    } else if after_last(files[0], '/') == name {
        Some(files[0])
    } else {
        first_named(files.drop_first(), name)
    }
}

/// The file of the vault a link target names, if any.
pub open spec fn resolve_reference_spec(
    note: Seq<char>,
    target: Seq<char>,
    wiki: bool,
    files: Seq<Seq<char>>,
) -> Option<Seq<char>> {
    let t = target_path(target);
    if is_external(t) {
        None
    } else {
        match first_known(reference_tries(note, t), files) {
            Some(hit) => Some(hit),
            None => if wiki {
                first_named(files, after_last(t, '/'))
            } else {
                None
            },
        }
    }
}

/// A link target as a path.
pub fn target_path_exec(target: &[char]) -> (r: Vec<char>)
    ensures
        r@ == target_path(target@),
{
    let set = vec!['#', '?'];
    proof {
        assert(set@ =~= seq!['#', '?']);
    }
    let head = match crate::text::find_any_from_exec(target, &set, 0) {
        Some(i) => {
            proof {
                lemma_find_any_bound(target@, set@, 0);
            }
            slice(target, 0, i)
        },
        None => slice(target, 0, target.len()),
    };
    let from = vec!['%', '2', '0'];
    let to = vec![' '];
    proof {
        assert(from@ =~= seq!['%', '2', '0']);
        assert(to@ =~= seq![' ']);
    }
    replace_exec(&trim_exec(&head), &from, &to)
}

proof fn lemma_find_any_bound(s: Seq<char>, set: Seq<char>, i: int)
    ensures
        crate::text::find_any_from(s, set, i) matches Some(k) ==> i <= k < s.len(),
    decreases s.len() - i,
{
    if 0 <= i < s.len() && !set.contains(s[i]) {
        lemma_find_any_bound(s, set, i + 1);
    }
}

fn is_external_exec(t: &[char]) -> (r: bool)
    ensures
        r == is_external(t@),
{
    let a = vec![':', '/', '/'];
    let b = vec!['m', 'a', 'i', 'l', 't', 'o', ':'];
    let c = vec!['d', 'a', 't', 'a', ':'];
    proof {
        assert(a@ =~= seq![':', '/', '/']);
        assert(b@ =~= seq!['m', 'a', 'i', 'l', 't', 'o', ':']);
        assert(c@ =~= seq!['d', 'a', 't', 'a', ':']);
    }
    t.len() == 0 || contains_exec(t, &a) || starts_with_exec(t, &b) || starts_with_exec(t, &c)
}

/// Whether `files` holds `p`.
pub fn has_file(files: &[String], p: &[char]) -> (r: bool)
    ensures
        r == str_views(files@).contains(p@),
{
    let mut i: usize = 0;
    while i < files.len()
        invariant
            i <= files.len(),
            forall|j: int| 0 <= j < i ==> files@[j]@ != p@,
        decreases files.len() - i,
    {
        if eq(&chars_of(files[i].as_str()), p) {
            proof {
                assert(str_views(files@)[i as int] == p@);
            }
            return true;
        }
        i += 1;
    }
    proof {
        if str_views(files@).contains(p@) {
            let k = choose|k: int| 0 <= k < files@.len() && str_views(files@)[k] == p@;
            assert(files@[k]@ == p@);
        }
    }
    false
}

fn first_known_exec(tries: &Vec<Vec<char>>, files: &[String]) -> (r: Option<String>)
    ensures
        match r {
            Some(s) => first_known(views(tries@), str_views(files@)) == Some(s@),
            None => first_known(views(tries@), str_views(files@)) is None,
        },
{
    let ghost ts = views(tries@);
    let mut i: usize = 0;
    while i < tries.len()
        invariant
            i <= tries.len(),
            ts == views(tries@),
            first_known(ts, str_views(files@)) == first_known(ts.skip(i as int), str_views(files@)),
        decreases tries.len() - i,
    {
        proof {
            assert(ts.skip(i as int).drop_first() =~= ts.skip(i + 1));
        }
        if has_file(files, &tries[i]) {
            return Some(string_of(&tries[i]));
        }
        i += 1;
    }
    None
}

fn first_named_exec(files: &[String], name: &[char]) -> (r: Option<String>)
    ensures
        match r {
            Some(s) => first_named(str_views(files@), name@) == Some(s@),
            None => first_named(str_views(files@), name@) is None,
        },
{
    let ghost fs = str_views(files@);
    let mut i: usize = 0;
    while i < files.len()
        invariant
            i <= files.len(),
            fs == str_views(files@),
            first_named(fs, name@) == first_named(fs.skip(i as int), name@),
        decreases files.len() - i,
    {
        proof {
            assert(fs.skip(i as int).drop_first() =~= fs.skip(i + 1));
        }
        let f = chars_of(files[i].as_str());
        if eq(&after_last_exec(&f, '/'), name) {
            return Some(string_of(&f));
        }
        i += 1;
    }
    None
}

/// Map a link target to an attachment path: relative to the note, relative to the root, under
/// `attachments/`, and (for `![[wikilinks]]`) by basename among `files`, the vault's files.
pub fn resolve_reference(note_rel: &str, target: &str, wiki: bool, files: &[String]) -> (r: Option<
    String,
>)
    ensures
        match r {
            Some(s) => resolve_reference_spec(note_rel@, target@, wiki, str_views(files@)) == Some(s@),
            None => resolve_reference_spec(note_rel@, target@, wiki, str_views(files@)) is None,
        },
{
    let t = target_path_exec(&chars_of(target));
    if is_external_exec(&t) {
        return None;
    }
    let ts = string_of(&t);
    let name = after_last_exec(&t, '/');
    let mut tries: Vec<Vec<char>> = Vec::new();
    match Projection::normalize_relative(note_rel, ts.as_str()) {
        Some(p) => tries.push(chars_of(p.as_str())),
        None => {},
    }
    match Projection::normalize_relative("", ts.as_str()) {
        Some(p) => tries.push(chars_of(p.as_str())),
        None => {},
    }
    let mut att = lit("attachments/");
    proof {
        reveal_strlit("attachments/");
        reveal_strlit("");
        assert(att@ =~= lit_attachments());
        assert(""@ =~= Seq::<char>::empty());
    }
    append(&mut att, &name);
    tries.push(att);
    proof {
        assert(views(tries@) =~= reference_tries(note_rel@, t@));
    }
    match first_known_exec(&tries, files) {
        Some(hit) => Some(hit),
        None => if wiki {
            first_named_exec(files, &name)
        } else {
            None
        },
    }
}

// ---------------------------------------------------------------------------------------------
// What a stylesheet imports
// ---------------------------------------------------------------------------------------------

/// Where a `//` comment starts, unless the first `//` follows a `:` (`url(https://…)`).
pub open spec fn line_comment_at(rest: Seq<char>) -> Option<int> {
    match find(rest, seq!['/', '/']) {
        Some(l) => if ends_with(rest.take(l), seq![':']) {
            None
        } else {
            Some(l)
        },
        None => None,
    }
}

/// A stylesheet with its `/* … */` and `// …` comments removed (a line comment keeps its
/// newline; an unterminated comment runs to the end).
pub open spec fn strip_comments(rest: Seq<char>) -> Seq<char>
    decreases rest.len(),
{
    let block = find(rest, seq!['/', '*']);
    let line = line_comment_at(rest);
    if block is Some && (line is None || block->0 < line->0) {
        let b = block->0;
        match find(rest.skip(b + 2), seq!['*', '/']) {
            Some(e) => if 0 <= b && 0 <= e && b + e + 4 <= rest.len() {
                rest.take(b) + strip_comments(rest.skip(b + e + 4))
            } else {
                rest.take(b)
            },
            None => rest.take(b),
        }
    } else if line is Some {
        let l = line->0;
        match find(rest.skip(l), seq!['\n']) {
            Some(e) => if 0 <= l && 0 <= e && 0 < l + e <= rest.len() {
                rest.take(l) + strip_comments(rest.skip(l + e))
            } else {
                rest.take(l)
            },
            None => rest.take(l),
        }
    } else {
        rest
    }
}

/// Length of the run of ASCII letters that starts `s`.
pub open spec fn alpha_prefix_len(s: Seq<char>) -> nat
    decreases s.len(),
{
    if s.len() > 0 && is_ascii_alpha(s[0]) {
        1 + alpha_prefix_len(s.drop_first())
    } else {
        0
    }
}

pub open spec fn kw_import() -> Seq<char> {
    seq!['i', 'm', 'p', 'o', 'r', 't']
}

pub open spec fn is_import_keyword(k: Seq<char>) -> bool {
    k == kw_import() || k == seq!['u', 's', 'e'] || k == seq!['f', 'o', 'r', 'w', 'a', 'r', 'd']
}

/// An import target that names a file: not a URL, not a built-in `sass:` module, not empty.
pub open spec fn names_a_file(t: Seq<char>) -> bool {
    !contains(t, seq![':', '/', '/']) && !starts_with(t, seq!['s', 'a', 's', 's', ':']) && t.len() > 0
}

/// The files Sass would try for an import, in its order: `"vars"` is `_vars.scss`,
/// `vars.scss`, the `.sass` pair, `vars.css`, then `vars/_index.scss` and `vars/index.scss`;
/// a target that has a stylesheet extension is itself or its partial.
#[verifier::opaque]
pub open spec fn sass_candidates_spec(target: Seq<char>) -> Seq<Seq<char>> {
    let dir = match rfind(target, seq!['/']) {
        Some(i) => target.take(i) + seq!['/'],
        None => Seq::empty(),
    };
    let base = after_last(target, '/');
    if is_stylesheet_ext(extension_spec(base)) {
        seq![target, dir + seq!['_'] + base]
    } else {
        seq![
            dir + seq!['_'] + base + seq!['.', 's', 'c', 's', 's'],
            dir + base + seq!['.', 's', 'c', 's', 's'],
            dir + seq!['_'] + base + seq!['.', 's', 'a', 's', 's'],
            dir + base + seq!['.', 's', 'a', 's', 's'],
            dir + base + seq!['.', 'c', 's', 's'],
            target + seq!['/', '_', 'i', 'n', 'd', 'e', 'x', '.', 's', 'c', 's', 's'],
            target + seq!['/', 'i', 'n', 'd', 'e', 'x', '.', 's', 'c', 's', 's'],
        ]
    }
}

/// The quoted targets after an import keyword, and the text after them: `@import "a", "b";`
/// lists several (`is_import`), `@use "a" as b;` names one.
pub open spec fn import_targets(rest: Seq<char>, is_import: bool) -> (Seq<Seq<Seq<char>>>, Seq<char>)
    decreases rest.len(),
{
    let t = trim_start(rest);
    if t.len() == 0 || (t[0] != '"' && t[0] != '\'') {
        (Seq::empty(), t)
    } else {
        match find(t.drop_first(), seq![t[0]]) {
            None => (Seq::empty(), t),
            Some(end) => if 0 <= end && end + 2 <= t.len() {
                let target = t.subrange(1, 1 + end);
                let r = t.skip(end + 2);
                let item = if names_a_file(target) {
                    seq![sass_candidates_spec(target)]
                } else {
                    Seq::empty()
                };
                let after = trim_start(r);
                if is_import && after.len() > 0 && after[0] == ',' {
                    proof {
                        crate::text::lemma_trim_start_len(rest);
                        crate::text::lemma_trim_start_len(r);
                    }
                    let more = import_targets(after.drop_first(), true);
                    (item + more.0, more.1)
                } else {
                    (item, r)
                }
            } else {
                (Seq::empty(), t)
            },
        }
    }
}

/// What the imports in `rest` name, one list of candidates per import.
pub open spec fn imports_from(rest: Seq<char>) -> Seq<Seq<Seq<char>>>
    decreases rest.len(),
{
    match find(rest, seq!['@']) {
        None => Seq::empty(),
        Some(at) => if 0 <= at && at + 1 <= rest.len() {
            let r1 = rest.skip(at + 1);
            let kw = r1.take(alpha_prefix_len(r1) as int);
            if alpha_prefix_len(r1) <= r1.len() && is_import_keyword(kw) {
                let p = import_targets(r1.skip(kw.len() as int), kw == kw_import());
                proof {
                    lemma_import_targets_len(r1.skip(kw.len() as int), kw == kw_import());
                }
                p.0 + imports_from(p.1)
            } else {
                imports_from(r1)
            }
        } else {
            Seq::empty()
        },
    }
}

/// What is left after the targets is no longer than what they were read from.
pub proof fn lemma_import_targets_len(rest: Seq<char>, is_import: bool)
    ensures
        import_targets(rest, is_import).1.len() <= rest.len(),
    decreases rest.len(),
{
    crate::text::lemma_trim_start_len(rest);
    let t = trim_start(rest);
    if t.len() == 0 || (t[0] != '"' && t[0] != '\'') {
    } else {
        match find(t.drop_first(), seq![t[0]]) {
            None => {},
            Some(end) => if 0 <= end && end + 2 <= t.len() {
                let r = t.skip(end + 2);
                let after = trim_start(r);
                crate::text::lemma_trim_start_len(r);
                if is_import && after.len() > 0 && after[0] == ',' {
                    lemma_import_targets_len(after.drop_first(), true);
                }
            },
        }
    }
}

/// Everything the stylesheet imports.
pub open spec fn stylesheet_imports_spec(css: Seq<char>) -> Seq<Seq<Seq<char>>> {
    imports_from(strip_comments(css))
}

/// One step of comment stripping: the text kept before the next comment, and how far to move
/// on (`None` when nothing follows).
fn comment_step(rest: &[char]) -> (r: (Vec<char>, Option<usize>))
    ensures
        match r.1 {
            Some(k) => 0 < k <= rest@.len() && strip_comments(rest@) == r.0@ + strip_comments(
                rest@.skip(k as int),
            ),
            None => strip_comments(rest@) == r.0@,
        },
{
    let open = vec!['/', '*'];
    let close = vec!['*', '/'];
    let dslash = vec!['/', '/'];
    let colon = vec![':'];
    let nl = vec!['\n'];
    proof {
        assert(open@ =~= seq!['/', '*']);
        assert(close@ =~= seq!['*', '/']);
        assert(dslash@ =~= seq!['/', '/']);
        assert(colon@ =~= seq![':']);
        assert(nl@ =~= seq!['\n']);
        lemma_find(rest@, open@);
        lemma_find(rest@, dslash@);
    }
    let n = rest.len();
    let block = find_exec(rest, &open);
    let line = match find_exec(rest, &dslash) {
        Some(l) => if crate::text::ends_with_exec(&slice(rest, 0, l), &colon) {
            None
        } else {
            Some(l)
        },
        None => None,
    };
    proof {
        assert(match line {
            Some(l) => line_comment_at(rest@) == Some(l as int),
            None => line_comment_at(rest@) is None,
        });
    }
    if block.is_some() && (line.is_none() || block.unwrap() < line.unwrap()) {
        let b = block.unwrap();
        let tail = slice(rest, b + 2, n);
        proof {
            assert(tail@ =~= rest@.skip(b + 2));
            lemma_find(tail@, close@);
        }
        match find_exec(&tail, &close) {
            Some(e) => (slice(rest, 0, b), Some(b + e + 4)),
            None => (slice(rest, 0, b), None),
        }
    } else if line.is_some() {
        let l = line.unwrap();
        let tail = slice(rest, l, n);
        proof {
            assert(tail@ =~= rest@.skip(l as int));
            lemma_find(tail@, nl@);
            assert(tail@[0] == '/' && tail@[1] == '/');
        }
        match find_exec(&tail, &nl) {
            Some(e) => {
                proof {
                    assert(e >= 2);
                }
                (slice(rest, 0, l), Some(l + e))
            },
            None => (slice(rest, 0, l), None),
        }
    } else {
        (slice(rest, 0, n), None)
    }
}

/// Strip a stylesheet's comments.
pub fn strip_css_comments(css: &[char]) -> (r: Vec<char>)
    ensures
        r@ == strip_comments(css@),
{
    let mut out: Vec<char> = Vec::new();
    let mut i: usize = 0;
    let n = css.len();
    loop
        invariant
            i <= n == css@.len(),
            out@ + strip_comments(css@.skip(i as int)) == strip_comments(css@),
        decreases n - i,
    {
        let rest = slice(css, i, n);
        let ghost before = out@;
        proof {
            assert(rest@ =~= css@.skip(i as int));
        }
        let (piece, adv) = comment_step(&rest);
        append(&mut out, &piece);
        match adv {
            Some(k) => {
                proof {
                    assert(rest@.skip(k as int) =~= css@.skip(i + k));
                    let x = strip_comments(css@.skip(i + k));
                    assert(out@ + x =~= before + (piece@ + x));
                }
                i = i + k;
            },
            None => {
                return out;
            },
        }
    }
}

/// The views of a list of candidate lists.
pub open spec fn nested_views(v: Seq<Vec<String>>) -> Seq<Seq<Seq<char>>> {
    v.map_values(|x: Vec<String>| str_views(x@))
}

fn cat3(a: &[char], b: &[char], c: &[char]) -> (r: String)
    ensures
        r@ == a@ + b@ + c@,
{
    let mut v = concat(a, b);
    append(&mut v, c);
    string_of(&v)
}

/// The files Sass would try for an import target.
pub fn sass_candidates(target: &[char]) -> (r: Vec<String>)
    ensures
        str_views(r@) == sass_candidates_spec(target@),
{
    reveal(sass_candidates_spec);
    let n = target.len();
    proof {
        lemma_rfind_before(target@, seq!['/'], target@.len() + 1int);
    }
    let dir = match rfind_char(target, '/') {
        Some(i) => {
            let mut d = slice(target, 0, i);
            d.push('/');
            d
        },
        None => Vec::new(),
    };
    let base = after_last_exec(target, '/');
    let under = vec!['_'];
    proof {
        assert(under@ =~= seq!['_']);
        let spec_dir = match rfind(target@, seq!['/']) {
            Some(i) => target@.take(i) + seq!['/'],
            None => Seq::empty(),
        };
        assert(dir@ =~= spec_dir);
    }
    if is_stylesheet_ext_exec(&extension(&base)) {
        let r = vec![string_of(target), cat3(&dir, &under, &base)];
        proof {
            assert(str_views(r@) =~= sass_candidates_spec(target@));
        }
        r
    } else {
        let scss = vec!['.', 's', 'c', 's', 's'];
        let sass = vec!['.', 's', 'a', 's', 's'];
        let css = vec!['.', 'c', 's', 's'];
        let uidx = vec!['/', '_', 'i', 'n', 'd', 'e', 'x', '.', 's', 'c', 's', 's'];
        let idx = vec!['/', 'i', 'n', 'd', 'e', 'x', '.', 's', 'c', 's', 's'];
        proof {
            assert(scss@ =~= seq!['.', 's', 'c', 's', 's']);
            assert(sass@ =~= seq!['.', 's', 'a', 's', 's']);
            assert(css@ =~= seq!['.', 'c', 's', 's']);
            assert(uidx@ =~= seq!['/', '_', 'i', 'n', 'd', 'e', 'x', '.', 's', 'c', 's', 's']);
            assert(idx@ =~= seq!['/', 'i', 'n', 'd', 'e', 'x', '.', 's', 'c', 's', 's']);
        }
        let dun = concat(&dir, &under);
        let r = vec![
            cat3(&dun, &base, &scss),
            cat3(&dir, &base, &scss),
            cat3(&dun, &base, &sass),
            cat3(&dir, &base, &sass),
            cat3(&dir, &base, &css),
            string_of(&concat(target, &uidx)),
            string_of(&concat(target, &idx)),
        ];
        proof {
            assert(str_views(r@) =~= sass_candidates_spec(target@));
        }
        r
    }
}

fn names_a_file_exec(t: &[char]) -> (r: bool)
    ensures
        r == names_a_file(t@),
{
    let a = vec![':', '/', '/'];
    let b = vec!['s', 'a', 's', 's', ':'];
    proof {
        assert(a@ =~= seq![':', '/', '/']);
        assert(b@ =~= seq!['s', 'a', 's', 's', ':']);
    }
    !contains_exec(t, &a) && !starts_with_exec(t, &b) && t.len() > 0
}

/// One step of [`import_targets`] after a quoted target.
proof fn lemma_import_step(rest: Seq<char>, is_import: bool, end: int)
    requires
        trim_start(rest).len() > 0,
        trim_start(rest)[0] == '"' || trim_start(rest)[0] == '\'',
        find(trim_start(rest).drop_first(), seq![trim_start(rest)[0]]) == Some(end),
        0 <= end,
        end + 2 <= trim_start(rest).len(),
    ensures
        ({
            let t = trim_start(rest);
            let target = t.subrange(1, 1 + end);
            let r = t.skip(end + 2);
            let item = if names_a_file(target) {
                seq![sass_candidates_spec(target)]
            } else {
                Seq::empty()
            };
            let after = trim_start(r);
            import_targets(rest, is_import) == if is_import && after.len() > 0 && after[0] == ',' {
                (item + import_targets(after.drop_first(), true).0, import_targets(after.drop_first(), true).1)
            } else {
                (item, r)
            }
        }),
{
}

/// The quoted targets after an import keyword.
#[verifier::spinoff_prover]
#[verifier::rlimit(60)]
fn import_targets_exec(rest: &[char], is_import: bool) -> (r: (Vec<Vec<String>>, Vec<char>))
    ensures
        nested_views(r.0@) == import_targets(rest@, is_import).0,
        r.1@ == import_targets(rest@, is_import).1,
    decreases rest@.len(),
{
    let t = trim_start_exec(rest);
    proof {
        crate::text::lemma_trim_start_len(rest@);
    }
    if t.len() == 0 || (t[0] != '"' && t[0] != '\'') {
        let e: Vec<Vec<String>> = Vec::new();
        proof {
            assert(nested_views(e@) =~= Seq::<Seq<Seq<char>>>::empty());
        }
        return (e, t);
    }
    let q = vec![t[0]];
    let tn = t.len();
    let after_q = slice(&t, 1, tn);
    proof {
        assert(q@ =~= seq![t@[0]]);
        assert(after_q@ =~= t@.drop_first());
        lemma_find(after_q@, q@);
    }
    match find_exec(&after_q, &q) {
        None => {
            let e: Vec<Vec<String>> = Vec::new();
            proof {
                assert(nested_views(e@) =~= Seq::<Seq<Seq<char>>>::empty());
            }
            (e, t)
        },
        Some(end) => {
            proof {
                assert(crate::text::is_at(after_q@, q@, end as int));
                lemma_import_step(rest@, is_import, end as int);
            }
            let target = slice(&t, 1, 1 + end);
            let r = slice(&t, end + 2, tn);
            proof {
                assert(r@ =~= t@.skip(end + 2));
            }
            let mut items: Vec<Vec<String>> = Vec::new();
            if names_a_file_exec(&target) {
                items.push(sass_candidates(&target));
            }
            proof {
                assert(nested_views(items@) =~= (if names_a_file(target@) {
                    seq![sass_candidates_spec(target@)]
                } else {
                    Seq::empty()
                }));
            }
            let after = trim_start_exec(&r);
            if is_import && after.len() > 0 && after[0] == ',' {
                proof {
                    crate::text::lemma_trim_start_len(r@);
                }
                let an = after.len();
                let more = import_targets_exec(&slice(&after, 1, an), true);
                let ghost first = items@;
                let (mut more_items, fin) = more;
                items.append(&mut more_items);
                proof {
                    assert(nested_views(items@) =~= nested_views(first) + nested_views(more.0@));
                }
                (items, fin)
            } else {
                (items, r)
            }
        },
    }
}

fn alpha_prefix_len_exec(s: &[char]) -> (r: usize)
    ensures
        r == alpha_prefix_len(s@),
        r <= s@.len(),
{
    let mut i: usize = 0;
    while i < s.len() && (('a' <= s[i] && s[i] <= 'z') || ('A' <= s[i] && s[i] <= 'Z'))
        invariant
            i <= s@.len(),
            forall|j: int| 0 <= j < i ==> is_ascii_alpha(#[trigger] s@[j]),
        decreases s.len() - i,
    {
        i += 1;
    }
    proof {
        lemma_alpha_prefix(s@, i as int);
    }
    i
}

proof fn lemma_alpha_prefix(s: Seq<char>, i: int)
    requires
        0 <= i <= s.len(),
        forall|j: int| 0 <= j < i ==> is_ascii_alpha(#[trigger] s[j]),
        i == s.len() || !is_ascii_alpha(s[i]),
    ensures
        alpha_prefix_len(s) == i,
    decreases i,
{
    if i > 0 {
        assert forall|j: int| 0 <= j < i - 1 implies is_ascii_alpha(#[trigger] s.drop_first()[j]) by {
            assert(s.drop_first()[j] == s[j + 1]);
        }
        lemma_alpha_prefix(s.drop_first(), i - 1);
    }
}

fn is_import_keyword_exec(k: &[char]) -> (r: bool)
    ensures
        r == is_import_keyword(k@),
{
    let a = vec!['i', 'm', 'p', 'o', 'r', 't'];
    let b = vec!['u', 's', 'e'];
    let c = vec!['f', 'o', 'r', 'w', 'a', 'r', 'd'];
    proof {
        assert(a@ =~= kw_import());
        assert(b@ =~= seq!['u', 's', 'e']);
        assert(c@ =~= seq!['f', 'o', 'r', 'w', 'a', 'r', 'd']);
    }
    eq(k, &a) || eq(k, &b) || eq(k, &c)
}

/// One step through a stylesheet: the imports of the next `@` rule, and the text after it
/// (`None` when there is no `@` left).
fn import_step(rest: &[char]) -> (r: Option<(Vec<Vec<String>>, Vec<char>)>)
    ensures
        match r {
            Some(p) => p.1@.len() < rest@.len() && imports_from(rest@) == nested_views(p.0@)
                + imports_from(p.1@),
            None => imports_from(rest@) == Seq::<Seq<Seq<char>>>::empty(),
        },
{
    let at_sign = vec!['@'];
    proof {
        assert(at_sign@ =~= seq!['@']);
        lemma_find(rest@, at_sign@);
    }
    let n = rest.len();
    match find_exec(rest, &at_sign) {
        None => None,
        Some(at) => {
            let r1 = slice(rest, at + 1, n);
            proof {
                assert(r1@ =~= rest@.skip(at + 1));
            }
            let kl = alpha_prefix_len_exec(&r1);
            let kw = slice(&r1, 0, kl);
            if is_import_keyword_exec(&kw) {
                let body = slice(&r1, kl, r1.len());
                proof {
                    assert(kw@ =~= r1@.take(alpha_prefix_len(r1@) as int));
                    assert(body@ =~= r1@.skip(kw@.len() as int));
                    lemma_import_targets_len(body@, kw@ == kw_import());
                }
                let imp = vec!['i', 'm', 'p', 'o', 'r', 't'];
                proof {
                    assert(imp@ =~= kw_import());
                }
                let is_imp = eq(&kw, &imp);
                Some(import_targets_exec(&body, is_imp))
            } else {
                let e: Vec<Vec<String>> = Vec::new();
                proof {
                    assert(kw@ =~= r1@.take(alpha_prefix_len(r1@) as int));
                    assert(nested_views(e@) + imports_from(r1@) =~= imports_from(r1@));
                }
                Some((e, r1))
            }
        },
    }
}

/// What a stylesheet imports — `@import`, `@use` and `@forward` — as the files Sass would try
/// for each, relative to the stylesheet. Built-in modules (`sass:math`) and URLs name no file.
/// Comments are skipped, so an import commented out is not followed.
pub fn stylesheet_imports(css: &str) -> (r: Vec<Vec<String>>)
    ensures
        nested_views(r@) == stylesheet_imports_spec(css@),
{
    let mut rest = strip_css_comments(&chars_of(css));
    let mut out: Vec<Vec<String>> = Vec::new();
    loop
        invariant
            nested_views(out@) + imports_from(rest@) == stylesheet_imports_spec(css@),
        decreases rest@.len(),
    {
        let ghost before = out@;
        let ghost old_rest = rest@;
        match import_step(&rest) {
            None => {
                proof {
                    assert(nested_views(out@) =~= nested_views(out@) + imports_from(rest@));
                }
                return out;
            },
            Some(p) => {
                let (mut items, next) = p;
                out.append(&mut items);
                proof {
                    assert(nested_views(out@) =~= nested_views(before) + nested_views(p.0@));
                    assert(nested_views(out@) + imports_from(next@) =~= nested_views(before) + (
                    nested_views(p.0@) + imports_from(next@)));
                }
                rest = next;
            },
        }
    }
}

// ---------------------------------------------------------------------------------------------
// What a YAML file names
// ---------------------------------------------------------------------------------------------

/// A string that could be the path of a file: trimmed, at most 512 bytes on one line, not a
/// URL, and a last segment with a stem and an extension of one to eight ASCII letters and
/// digits, at least one a letter.
pub open spec fn looks_like_path(s0: Seq<char>) -> bool {
    let s = trim(s0);
    if s.len() == 0 || crate::text::byte_len(s) > 512 || s.contains('\n') || contains(
        s,
        seq![':', '/', '/'],
    ) || starts_with(s, seq!['d', 'a', 't', 'a', ':']) {
        false
    } else {
        let b = after_last(s, '/');
        match rfind(b, seq!['.']) {
            None => false,
            Some(i) => {
                let stem = b.take(i);
                let ext = b.skip(i + 1);
                &&& stem.len() > 0
                &&& 1 <= ext.len() <= 8
                &&& forall|j: int| 0 <= j < ext.len() ==> is_ascii_alnum(#[trigger] ext[j])
                &&& exists|j: int| 0 <= j < ext.len() && is_ascii_alpha(#[trigger] ext[j])
            },
        }
    }
}

/// The strings of a YAML value that look like paths, trimmed, in document order: values, never
/// keys.
pub open spec fn yaml_walk(v: Yaml) -> Seq<Seq<char>>
    decreases v,
{
    match v {
        Yaml::Str(s) => if looks_like_path(s@) {
            seq![trim(s@)]
        } else {
            Seq::empty()
        },
        Yaml::List(items) => yaml_walk_list(items@),
        Yaml::Mapping(m) => yaml_walk_map(m@),
        Yaml::Tagged(_, b) => yaml_walk(*b),
        _ => Seq::empty(),
    }
}

pub open spec fn yaml_walk_list(items: Seq<Yaml>) -> Seq<Seq<char>>
    decreases items,
{
    if items.len() == 0 {
        Seq::empty()
    } else {
        yaml_walk_list(items.drop_last()) + yaml_walk(items.last())
    }
}

pub open spec fn yaml_walk_map(m: Seq<(Yaml, Yaml)>) -> Seq<Seq<char>>
    decreases m,
{
    if m.len() == 0 {
        Seq::empty()
    } else {
        yaml_walk_map(m.drop_last()) + yaml_walk(m.last().1)
    }
}

/// Every string in a YAML document that could be the path of a file; unreadable YAML names
/// nothing.
pub open spec fn yaml_paths_spec(text: Seq<char>) -> Seq<Seq<char>> {
    match crate::yaml::yaml_document(text) {
        Some(v) => yaml_walk(v),
        None => Seq::empty(),
    }
}

fn looks_like_path_exec(s0: &str) -> (r: bool)
    ensures
        r == looks_like_path(s0@),
{
    let t = trim_exec(&chars_of(s0));
    let ts = string_of(&t);
    let bytes = ts.as_str().as_bytes().len();
    let url = vec![':', '/', '/'];
    let data = vec!['d', 'a', 't', 'a', ':'];
    proof {
        assert(url@ =~= seq![':', '/', '/']);
        assert(data@ =~= seq!['d', 'a', 't', 'a', ':']);
    }
    if t.len() == 0 || bytes > 512 || crate::text::contains_char(&t, '\n') || contains_exec(&t, &url)
        || starts_with_exec(&t, &data) {
        return false;
    }
    let b = after_last_exec(&t, '/');
    let bn = b.len();
    proof {
        lemma_rfind_before(b@, seq!['.'], b@.len() + 1int);
    }
    match rfind_char(&b, '.') {
        None => false,
        Some(i) => {
            proof {
                assert(crate::text::is_at(b@, seq!['.'], i as int));
            }
            let ext = slice(&b, i + 1, bn);
            if i == 0 || ext.len() < 1 || ext.len() > 8 {
                return false;
            }
            let mut all_alnum = true;
            let mut any_alpha = false;
            let mut j: usize = 0;
            while j < ext.len()
                invariant
                    j <= ext@.len(),
                    all_alnum == (forall|k: int| 0 <= k < j ==> is_ascii_alnum(#[trigger] ext@[k])),
                    any_alpha == (exists|k: int| 0 <= k < j && is_ascii_alpha(#[trigger] ext@[k])),
                decreases ext.len() - j,
            {
                let c = ext[j];
                let alpha = ('a' <= c && c <= 'z') || ('A' <= c && c <= 'Z');
                let alnum = alpha || ('0' <= c && c <= '9');
                if !alnum {
                    all_alnum = false;
                }
                if alpha {
                    any_alpha = true;
                }
                proof {
                    assert(is_ascii_alpha(ext@[j as int]) == alpha);
                    assert(is_ascii_alnum(ext@[j as int]) == alnum);
                }
                j += 1;
            }
            all_alnum && any_alpha
        },
    }
}

fn yaml_walk_exec(v: &Yaml, out: &mut Vec<String>)
    ensures
        str_views(final(out)@) == str_views(old(out)@) + yaml_walk(*v),
    decreases v,
{
    match v {
        Yaml::Str(s) => {
            if looks_like_path_exec(s.as_str()) {
                out.push(string_of(&trim_exec(&chars_of(s.as_str()))));
            }
        },
        Yaml::List(items) => {
            yaml_walk_list_exec(items, out);
        },
        Yaml::Mapping(m) => {
            yaml_walk_map_exec(m, out);
        },
        Yaml::Tagged(_, b) => {
            yaml_walk_exec(b, out);
        },
        _ => {
            proof {
                assert(str_views(out@) =~= str_views(out@) + Seq::<Seq<char>>::empty());
            }
        },
    }
}

fn yaml_walk_list_exec(items: &Vec<Yaml>, out: &mut Vec<String>)
    ensures
        str_views(final(out)@) == str_views(old(out)@) + yaml_walk_list(items@),
    decreases items@,
{
    let mut i: usize = 0;
    while i < items.len()
        invariant
            i <= items@.len(),
            str_views(out@) == str_views(old(out)@) + yaml_walk_list(items@.take(i as int)),
        decreases items.len() - i,
    {
        let ghost before = str_views(out@);
        proof {
            assert(items@.take(i + 1).drop_last() =~= items@.take(i as int));
        }
        yaml_walk_exec(&items[i], out);
        proof {
            assert(str_views(out@) =~= str_views(old(out)@) + yaml_walk_list(items@.take(i + 1)));
        }
        i += 1;
    }
    proof {
        assert(items@.take(items@.len() as int) =~= items@);
    }
}

fn yaml_walk_map_exec(m: &Vec<(Yaml, Yaml)>, out: &mut Vec<String>)
    ensures
        str_views(final(out)@) == str_views(old(out)@) + yaml_walk_map(m@),
    decreases m@,
{
    let mut i: usize = 0;
    while i < m.len()
        invariant
            i <= m@.len(),
            str_views(out@) == str_views(old(out)@) + yaml_walk_map(m@.take(i as int)),
        decreases m.len() - i,
    {
        proof {
            assert(m@.take(i + 1).drop_last() =~= m@.take(i as int));
        }
        yaml_walk_exec(&m[i].1, out);
        proof {
            assert(str_views(out@) =~= str_views(old(out)@) + yaml_walk_map(m@.take(i + 1)));
        }
        i += 1;
    }
    proof {
        assert(m@.take(m@.len() as int) =~= m@);
    }
}

/// Every string in a YAML document that could be the path of a file: values, never keys, with
/// an extension of letters and digits, and not a URL. `theme: [cosmo, custom.scss]` names
/// `custom.scss`; `cosmo`, being no file, is left for Quarto. Unreadable YAML names nothing.
pub fn yaml_paths(yaml: &str) -> (r: Vec<String>)
    ensures
        str_views(r@) == yaml_paths_spec(yaml@),
{
    let mut out: Vec<String> = Vec::new();
    match parse_yaml(yaml) {
        Some(v) => {
            yaml_walk_exec(&v, &mut out);
            proof {
                assert(str_views(out@) =~= yaml_walk(v));
            }
        },
        None => {
            proof {
                assert(str_views(out@) =~= Seq::<Seq<char>>::empty());
            }
        },
    }
    out
}

// ---------------------------------------------------------------------------------------------
// The server's blob store
// ---------------------------------------------------------------------------------------------

/// How `{:?}` writes a string: quoted, with its special characters escaped.
pub uninterp spec fn str_debug(s: Seq<char>) -> Seq<char>;

/// `format!("{s:?}")`, std's `Debug` for `str`: a function of the text alone.
#[verifier::external_body]
pub(crate) fn debug_quoted(s: &str) -> (r: String)
    ensures
        r@ == str_debug(s@),
{
    format!("{s:?}")
}

/// The message of an invalid hash.
pub open spec fn invalid_hash_message(hash: Seq<char>) -> Seq<char> {
    seq!['i', 'n', 'v', 'a', 'l', 'i', 'd', ' ', 'a', 't', 't', 'a', 'c', 'h', 'm', 'e', 'n', 't', ' ', 'h', 'a', 's', 'h', ' ']
        + str_debug(hash)
}

/// Server-side blob store: `<root>/<vault>/<hh>/<hash>`.
#[derive(Debug, Clone)]
pub struct AttachmentStore {
    root: String,
}

impl AttachmentStore {
    pub closed spec fn root_view(&self) -> Seq<char> {
        self.root@
    }

    pub fn new(root: String) -> (r: AttachmentStore)
        ensures
            r.root_view() == root@,
    {
        AttachmentStore { root }
    }

    /// Where the blob with `hash` of `vault` lives; a text that is no hash is refused.
    pub fn path_for(&self, vault: VaultId, hash: &str) -> (r: Result<String, Error>)
        ensures
            is_valid_hash_spec(hash@) ==> (r matches Ok(p) && p@ == join_path(
                join_path(join_path(self.root_view(), ulid_text(vault.0)), hash@.take(2)),
                hash@,
            )),
            !is_valid_hash_spec(hash@) ==> (r matches Err(Error::Sync(m)) && m@
                == invalid_hash_message(hash@)),
    {
        if !is_valid_hash(hash) {
            let q = debug_quoted(hash);
            let msg = join_strs("invalid attachment hash ", q.as_str());
            proof {
                reveal_strlit("invalid attachment hash ");
                assert(msg@ =~= invalid_hash_message(hash@));
            }
            return Err(Error::Sync(msg));
        }
        let h = chars_of(hash);
        let v = vault.to_string();
        let a = join_path_exec(&chars_of(self.root.as_str()), &chars_of(v.as_str()));
        let b = join_path_exec(&chars_of(a.as_str()), &slice(&h, 0, 2));
        Ok(join_path_exec(&chars_of(b.as_str()), &h))
    }

    pub fn root(&self) -> (r: &str)
        ensures
            r@ == self.root_view(),
    {
        self.root.as_str()
    }
}

/// How many files one note (or the vault's resources) may pull in, all hops together: a
/// stylesheet that imports itself in a circle, or a front matter naming half the vault, stops
/// there rather than walking on.
pub const MAX_DEPENDENCIES: usize = 256;

/// Where the dependency walk reads a file of the vault: its bytes, `None` when it cannot.
pub trait FileSource {
    fn read(&self, path: &str) -> Option<Vec<u8>>;
}

/// No text occurs twice.
pub open spec fn no_dup(s: Seq<Seq<char>>) -> bool {
    forall|i: int, j: int| 0 <= i < j < s.len() ==> #[trigger] s[i] != #[trigger] s[j]
}

/// `out` with `x` appended when it is a path `out` does not have yet.
pub open spec fn add_one(out: Seq<Seq<char>>, x: Option<Seq<char>>) -> Seq<Seq<char>> {
    match x {
        Some(p) => if out.contains(p) {
            out
        } else {
            out.push(p)
        },
        None => out,
    }
}

/// `out` with each path of `xs`, in order, that it does not have yet.
pub open spec fn add_new(out: Seq<Seq<char>>, xs: Seq<Option<Seq<char>>>) -> Seq<Seq<char>>
    decreases xs.len(),
{
    if xs.len() == 0 {
        out
    } else {
        add_one(add_new(out, xs.drop_last()), xs.last())
    }
}

/// Each target resolved against the vault's files.
pub open spec fn resolve_all(note: Seq<char>, ts: Seq<Seq<char>>, wiki: bool, files: Seq<Seq<char>>) -> Seq<
    Option<Seq<char>>,
> {
    ts.map_values(|t: Seq<char>| resolve_reference_spec(note, t, wiki, files))
}

/// The targets of a note's embedding wikilinks (`![[...]]`), in order.
pub open spec fn embed_targets(ws: Seq<WlView>) -> Seq<Seq<char>>
    decreases ws.len(),
{
    if ws.len() == 0 {
        seq![]
    } else if ws.last().embed {
        embed_targets(ws.drop_last()).push(ws.last().target)
    } else {
        embed_targets(ws.drop_last())
    }
}

/// The paths a note's front matter names.
pub open spec fn front_matter_targets(text: Seq<char>) -> Seq<Seq<char>> {
    match block_chars(text) {
        Some((b, a, e)) => yaml_paths_spec(text.subrange(b, a)),
        None => seq![],
    }
}

/// What a note names directly, each once, in the order first named: what it embeds, what it
/// links to, then what its front matter names, each resolved to a file of the vault.
pub open spec fn direct_dependencies(
    note: Seq<char>,
    text: Seq<char>,
    wikilinks: Seq<WlView>,
    links: Seq<Seq<char>>,
    files: Seq<Seq<char>>,
) -> Seq<Seq<char>> {
    let a = add_new(seq![], resolve_all(note, embed_targets(wikilinks), true, files));
    let b = add_new(a, resolve_all(note, links, false, files));
    add_new(b, resolve_all(note, front_matter_targets(text), false, files))
}

/// The first of the candidates, taken relative to `path`, that is a file of the vault.
pub open spec fn first_existing(path: Seq<char>, cs: Seq<Seq<char>>, files: Seq<Seq<char>>) -> Option<Seq<char>>
    decreases cs.len(),
{
    if cs.len() == 0 {
        None
    } else {
        match normalize_relative_spec(path, cs[0]) {
            Some(n) => if files.contains(n) {
                Some(n)
            } else {
                first_existing(path, cs.drop_first(), files)
            },
            None => first_existing(path, cs.drop_first(), files),
        }
    }
}

/// The paths among `xs`, in order.
pub open spec fn somes(xs: Seq<Option<Seq<char>>>) -> Seq<Seq<char>>
    decreases xs.len(),
{
    if xs.len() == 0 {
        seq![]
    } else {
        match xs.last() {
            Some(p) => somes(xs.drop_last()).push(p),
            None => somes(xs.drop_last()),
        }
    }
}

/// The files of the vault that the file at `path` names, given what reading it gave: a
/// stylesheet's imports, a YAML file's paths; nothing for other files or unreadable ones.
pub open spec fn named_by_spec(path: Seq<char>, bytes: Option<Seq<u8>>, files: Seq<Seq<char>>) -> Seq<Seq<char>> {
    let e = extension_spec(path);
    match bytes {
        None => seq![],
        Some(b) => if is_stylesheet_ext(e) {
            somes(
                stylesheet_imports_spec(utf8_lossy(b)).map_values(
                    |cs: Seq<Seq<char>>| first_existing(path, cs, files),
                ),
            )
        } else if is_yaml_ext(e) {
            somes(resolve_all(path, yaml_paths_spec(utf8_lossy(b)), false, files))
        } else {
            seq![]
        },
    }
}

/// `out` with each of `xs`, in order, that it does not have yet, while it holds fewer than
/// the most dependencies allowed.
pub open spec fn add_capped(out: Seq<Seq<char>>, xs: Seq<Seq<char>>) -> Seq<Seq<char>>
    decreases xs.len(),
{
    if xs.len() == 0 {
        out
    } else {
        let o = add_capped(out, xs.drop_last());
        if !o.contains(xs.last()) && o.len() < MAX_DEPENDENCIES {
            o.push(xs.last())
        } else {
            o
        }
    }
}

/// The most a walk from `n` paths may end with.
pub open spec fn walk_cap(n: int) -> int {
    if n > MAX_DEPENDENCIES {
        n
    } else {
        MAX_DEPENDENCIES as int
    }
}

/// `after` is `before` with paths of the vault appended, without repeating any, up to the cap.
pub open spec fn grown_from(before: Seq<Seq<char>>, after: Seq<Seq<char>>, files: Seq<Seq<char>>) -> bool {
    &&& before.len() <= after.len() <= walk_cap(before.len() as int)
    &&& after.take(before.len() as int) == before
    &&& forall|k: int| before.len() <= k < after.len() ==> files.contains(#[trigger] after[k])
    &&& no_dup(before) ==> no_dup(after)
}

proof fn lemma_add_new_no_dup(out: Seq<Seq<char>>, xs: Seq<Option<Seq<char>>>)
    requires
        no_dup(out),
    ensures
        no_dup(add_new(out, xs)),
        add_new(out, xs).len() >= out.len(),
        add_new(out, xs).take(out.len() as int) == out,
    decreases xs.len(),
{
    if xs.len() > 0 {
        lemma_add_new_no_dup(out, xs.drop_last());
        let o = add_new(out, xs.drop_last());
        match xs.last() {
            Some(p) => if !o.contains(p) {
                assert(o.push(p).take(out.len() as int) =~= o.take(out.len() as int));
                assert forall|i: int, j: int| 0 <= i < j < o.push(p).len() implies #[trigger] o.push(p)[i]
                    != #[trigger] o.push(p)[j] by {
                    if j == o.len() {
                        assert(o.contains(o[i]));
                    }
                }
            },
            None => {},
        }
    }
}

proof fn lemma_add_capped_grows(out: Seq<Seq<char>>, xs: Seq<Seq<char>>, files: Seq<Seq<char>>)
    requires
        forall|k: int| 0 <= k < xs.len() ==> files.contains(#[trigger] xs[k]),
    ensures
        grown_from(out, add_capped(out, xs), files),
    decreases xs.len(),
{
    if xs.len() == 0 {
        assert(out.take(out.len() as int) =~= out);
    } else {
        let o = add_capped(out, xs.drop_last());
        assert forall|k: int| 0 <= k < xs.drop_last().len() implies files.contains(#[trigger] xs.drop_last()[k]) by {
            assert(xs.drop_last()[k] == xs[k]);
        }
        lemma_add_capped_grows(out, xs.drop_last(), files);
        let p = xs.last();
        assert(files.contains(xs[xs.len() - 1]));
        if !o.contains(p) && o.len() < MAX_DEPENDENCIES {
            let n = o.push(p);
            assert(n.take(out.len() as int) =~= o.take(out.len() as int));
            assert forall|k: int| out.len() <= k < n.len() implies files.contains(#[trigger] n[k]) by {
                if k < o.len() {
                    assert(n[k] == o[k]);
                }
            }
            if no_dup(out) {
                assert forall|i: int, j: int| 0 <= i < j < n.len() implies #[trigger] n[i] != #[trigger] n[j] by {
                    if j == o.len() {
                        assert(o.contains(o[i]));
                    } else {
                        assert(n[i] == o[i] && n[j] == o[j]);
                    }
                }
            }
        }
    }
}

/// Appends each of `named` that `out` does not have yet, while `out` holds fewer than the
/// most dependencies allowed.
pub fn follow_add(out: &mut Vec<String>, named: &Vec<String>)
    ensures
        str_views(final(out)@) == add_capped(str_views(old(out)@), str_views(named@)),
{
    let mut i: usize = 0;
    proof {
        assert(str_views(named@).take(0) =~= Seq::<Seq<char>>::empty());
    }
    while i < named.len()
        invariant
            i <= named@.len(),
            str_views(out@) == add_capped(str_views(old(out)@), str_views(named@).take(i as int)),
        decreases named@.len() - i,
    {
        proof {
            assert(str_views(named@).take(i + 1).drop_last() =~= str_views(named@).take(i as int));
        }
        let p = chars_of(named[i].as_str());
        if !has_file(out.as_slice(), &p) && out.len() < MAX_DEPENDENCIES {
            out.push(named[i].as_str().to_owned());
            proof {
                assert(str_views(out@) =~= str_views(out@.drop_last()).push(named@[i as int]@));
            }
        }
        i += 1;
    }
    proof {
        assert(str_views(named@).take(named@.len() as int) =~= str_views(named@));
    }
}

/// The bytes read, as a value.
pub open spec fn bytes_view(b: Option<Vec<u8>>) -> Option<Seq<u8>> {
    match b {
        Some(v) => Some(v@),
        None => None,
    }
}

proof fn lemma_first_known_in(tries: Seq<Seq<char>>, files: Seq<Seq<char>>)
    ensures
        first_known(tries, files) matches Some(p) ==> files.contains(p),
    decreases tries.len(),
{
    if tries.len() > 0 && !files.contains(tries[0]) {
        lemma_first_known_in(tries.drop_first(), files);
    }
}

proof fn lemma_first_named_in(files: Seq<Seq<char>>, name: Seq<char>)
    ensures
        first_named(files, name) matches Some(p) ==> files.contains(p),
    decreases files.len(),
{
    if files.len() > 0 {
        if after_last(files[0], '/') != name {
            lemma_first_named_in(files.drop_first(), name);
            match first_named(files.drop_first(), name) {
                Some(p) => {
                    let k = choose|k: int| 0 <= k < files.drop_first().len() && files.drop_first()[k] == p;
                    assert(files[k + 1] == p);
                },
                None => {},
            }
        } else {
            assert(files[0] == files[0]);
        }
    }
}

/// What a link target resolves to is a file of the vault.
pub proof fn lemma_resolved_is_a_file(note: Seq<char>, t: Seq<char>, wiki: bool, files: Seq<Seq<char>>)
    ensures
        resolve_reference_spec(note, t, wiki, files) matches Some(p) ==> files.contains(p),
{
    lemma_first_known_in(reference_tries(note, target_path(t)), files);
    lemma_first_named_in(files, after_last(target_path(t), '/'));
}

proof fn lemma_first_existing_in(path: Seq<char>, cs: Seq<Seq<char>>, files: Seq<Seq<char>>)
    ensures
        first_existing(path, cs, files) matches Some(p) ==> files.contains(p),
    decreases cs.len(),
{
    if cs.len() > 0 {
        lemma_first_existing_in(path, cs.drop_first(), files);
    }
}

proof fn lemma_somes_in(xs: Seq<Option<Seq<char>>>, files: Seq<Seq<char>>)
    requires
        forall|j: int| 0 <= j < xs.len() ==> (#[trigger] xs[j] matches Some(p) ==> files.contains(p)),
    ensures
        forall|k: int| 0 <= k < somes(xs).len() ==> files.contains(#[trigger] somes(xs)[k]),
    decreases xs.len(),
{
    if xs.len() > 0 {
        assert forall|j: int| 0 <= j < xs.drop_last().len() implies (#[trigger] xs.drop_last()[j] matches Some(
            p,
        ) ==> files.contains(p)) by {
            assert(xs.drop_last()[j] == xs[j]);
        }
        lemma_somes_in(xs.drop_last(), files);
        assert(xs.last() == xs[xs.len() - 1]);
        let r = somes(xs.drop_last());
        match xs.last() {
            Some(p) => {
                assert(files.contains(p));
                assert forall|k: int| 0 <= k < r.push(p).len() implies files.contains(#[trigger] r.push(p)[k]) by {
                    if k < r.len() {
                        assert(r.push(p)[k] == r[k]);
                    }
                }
            },
            None => {},
        }
    }
}

/// Whatever a file names is a file of the vault.
pub proof fn lemma_named_are_files(path: Seq<char>, bytes: Option<Seq<u8>>, files: Seq<Seq<char>>)
    ensures
        forall|k: int|
            0 <= k < named_by_spec(path, bytes, files).len() ==> files.contains(
                #[trigger] named_by_spec(path, bytes, files)[k],
            ),
{
    if let Some(b) = bytes {
        let e = extension_spec(path);
        if is_stylesheet_ext(e) {
            let xs = stylesheet_imports_spec(utf8_lossy(b)).map_values(
                |cs: Seq<Seq<char>>| first_existing(path, cs, files),
            );
            assert forall|j: int| 0 <= j < xs.len() implies (#[trigger] xs[j] matches Some(p) ==> files.contains(
                p,
            )) by {
                lemma_first_existing_in(path, stylesheet_imports_spec(utf8_lossy(b))[j], files);
            }
            lemma_somes_in(xs, files);
        } else if is_yaml_ext(e) {
            let ts = yaml_paths_spec(utf8_lossy(b));
            let xs = resolve_all(path, ts, false, files);
            assert forall|j: int| 0 <= j < xs.len() implies (#[trigger] xs[j] matches Some(p) ==> files.contains(
                p,
            )) by {
                lemma_resolved_is_a_file(path, ts[j], false, files);
            }
            lemma_somes_in(xs, files);
        }
    }
}

/// The first of the candidates, taken relative to `path`, that is a file of the vault.
fn first_existing_exec(path: &str, cs: &Vec<String>, files: &[String]) -> (r: Option<String>)
    ensures
        opt_view(r) == first_existing(path@, str_views(cs@), str_views(files@)),
{
    let mut k: usize = 0;
    proof {
        assert(str_views(cs@).skip(0) =~= str_views(cs@));
    }
    while k < cs.len()
        invariant
            k <= cs@.len(),
            first_existing(path@, str_views(cs@), str_views(files@)) == first_existing(
                path@,
                str_views(cs@).skip(k as int),
                str_views(files@),
            ),
        decreases cs@.len() - k,
    {
        proof {
            assert(str_views(cs@).skip(k as int).drop_first() =~= str_views(cs@).skip(k + 1));
            assert(str_views(cs@).skip(k as int)[0] == cs@[k as int]@);
        }
        match Projection::normalize_relative(path, cs[k].as_str()) {
            Some(n) => {
                if has_file(files, &chars_of(n.as_str())) {
                    return Some(n);
                }
            },
            None => {},
        }
        k += 1;
    }
    proof {
        assert(str_views(cs@).skip(k as int) =~= Seq::<Seq<char>>::empty());
    }
    None
}

/// The files of the vault that the file at `path` names, given what reading it gave (see
/// `named_by_spec`).
pub fn named_by(path: &str, bytes: &Option<Vec<u8>>, files: &[String]) -> (r: Vec<String>)
    ensures
        str_views(r@) == named_by_spec(path@, bytes_view(*bytes), str_views(files@)),
{
    let e = extension(&chars_of(path));
    let mut out: Vec<String> = Vec::new();
    match bytes {
        None => {
            proof {
                assert(str_views(out@) =~= Seq::<Seq<char>>::empty());
            }
            out
        },
        Some(b) => {
            if is_stylesheet_ext_exec(&e) {
                let css = lossy_text(b.as_slice());
                let imports = stylesheet_imports(css.as_str());
                let ghost xs = stylesheet_imports_spec(utf8_lossy(b@)).map_values(
                    |cs: Seq<Seq<char>>| first_existing(path@, cs, str_views(files@)),
                );
                let mut i: usize = 0;
                proof {
                    assert(xs.take(0) =~= Seq::<Option<Seq<char>>>::empty());
                    assert(str_views(out@) =~= Seq::<Seq<char>>::empty());
                }
                while i < imports.len()
                    invariant
                        i <= imports@.len(),
                        nested_views(imports@) == stylesheet_imports_spec(utf8_lossy(b@)),
                        xs == stylesheet_imports_spec(utf8_lossy(b@)).map_values(
                            |cs: Seq<Seq<char>>| first_existing(path@, cs, str_views(files@)),
                        ),
                        str_views(out@) == somes(xs.take(i as int)),
                    decreases imports@.len() - i,
                {
                    proof {
                        assert(xs.take(i + 1).drop_last() =~= xs.take(i as int));
                        assert(nested_views(imports@)[i as int] == str_views(imports@[i as int]@));
                    }
                    let hit = first_existing_exec(path, &imports[i], files);
                    match hit {
                        Some(h) => {
                            out.push(h);
                            proof {
                                assert(str_views(out@) =~= str_views(out@.drop_last()).push(out@.last()@));
                            }
                        },
                        None => {},
                    }
                    i += 1;
                }
                proof {
                    assert(xs.take(imports@.len() as int) =~= xs);
                }
                out
            } else if is_yaml_ext_exec(&e) {
                let text = lossy_text(b.as_slice());
                let ts = yaml_paths(text.as_str());
                let ghost xs = resolve_all(path@, yaml_paths_spec(utf8_lossy(b@)), false, str_views(files@));
                let mut i: usize = 0;
                proof {
                    assert(xs.take(0) =~= Seq::<Option<Seq<char>>>::empty());
                    assert(str_views(out@) =~= Seq::<Seq<char>>::empty());
                }
                while i < ts.len()
                    invariant
                        i <= ts@.len(),
                        str_views(ts@) == yaml_paths_spec(utf8_lossy(b@)),
                        xs == resolve_all(path@, yaml_paths_spec(utf8_lossy(b@)), false, str_views(files@)),
                        str_views(out@) == somes(xs.take(i as int)),
                    decreases ts@.len() - i,
                {
                    proof {
                        assert(xs.take(i + 1).drop_last() =~= xs.take(i as int));
                        assert(str_views(ts@)[i as int] == ts@[i as int]@);
                    }
                    let hit = resolve_reference(path, ts[i].as_str(), false, files);
                    match hit {
                        Some(h) => {
                            out.push(h);
                            proof {
                                assert(str_views(out@) =~= str_views(out@.drop_last()).push(out@.last()@));
                            }
                        },
                        None => {},
                    }
                    i += 1;
                }
                proof {
                    assert(xs.take(ts@.len() as int) =~= xs);
                }
                out
            } else {
                proof {
                    assert(str_views(out@) =~= Seq::<Seq<char>>::empty());
                }
                out
            }
        },
    }
}

proof fn lemma_grown_trans(a: Seq<Seq<char>>, b: Seq<Seq<char>>, c: Seq<Seq<char>>, files: Seq<Seq<char>>)
    requires
        grown_from(a, b, files),
        grown_from(b, c, files),
    ensures
        grown_from(a, c, files),
{
    assert(c.take(a.len() as int) =~= c.take(b.len() as int).take(a.len() as int));
    assert forall|k: int| a.len() <= k < c.len() implies files.contains(#[trigger] c[k]) by {
        if k < b.len() {
            assert(c[k] == c.take(b.len() as int)[k]);
            assert(c[k] == b[k]);
        }
    }
}

/// Appends `x` when it is a path `out` does not have yet.
fn add_opt(out: &mut Vec<String>, x: Option<String>)
    ensures
        str_views(final(out)@) == add_one(str_views(old(out)@), opt_view(x)),
{
    match x {
        Some(p) => {
            if !has_file(out.as_slice(), &chars_of(p.as_str())) {
                out.push(p);
                proof {
                    assert(str_views(out@) =~= str_views(old(out)@).push(out@.last()@));
                }
            }
        },
        None => {},
    }
}

/// Walks `out` from the start, appending what each stylesheet or YAML file in it names (as
/// `src` reads it), each once, until there is nothing more or the most allowed.
/// The first `MAX_DEPENDENCIES` of `s`: the cap counts every hop together, the paths named
/// directly included.
pub open spec fn capped(s: Seq<Seq<char>>) -> Seq<Seq<char>> {
    if s.len() > MAX_DEPENDENCIES {
        s.take(MAX_DEPENDENCIES as int)
    } else {
        s
    }
}

/// Drops what is past the cap.
fn cap_list(out: &mut Vec<String>)
    ensures
        str_views(final(out)@) == capped(str_views(old(out)@)),
        no_dup(str_views(old(out)@)) ==> no_dup(str_views(final(out)@)),
        final(out)@.len() <= MAX_DEPENDENCIES,
{
    let ghost before = str_views(out@);
    if out.len() > MAX_DEPENDENCIES {
        out.truncate(MAX_DEPENDENCIES);
        proof {
            assert(str_views(out@) =~= before.take(MAX_DEPENDENCIES as int));
        }
    }
    proof {
        if no_dup(before) {
            assert forall|i: int, j: int| 0 <= i < j < str_views(out@).len() implies #[trigger] str_views(out@)[i]
                != #[trigger] str_views(out@)[j] by {
                assert(str_views(out@)[i] == before[i]);
                assert(str_views(out@)[j] == before[j]);
            }
        }
    }
}

/// One step of the walk over `out`: the path at `i`, read as `b`, adds what it names when it
/// is a stylesheet or a YAML file.
pub open spec fn walk_step(out: Seq<Seq<char>>, i: int, b: Option<Seq<u8>>, files: Seq<Seq<char>>) -> Seq<
    Seq<char>,
> {
    let e = extension_spec(out[i]);
    if is_stylesheet_ext(e) || is_yaml_ext(e) {
        add_capped(out, named_by_spec(out[i], b, files))
    } else {
        out
    }
}

/// The walk from `start` after `reads.len()` steps, step `k` reading `reads[k]`.
pub open spec fn walk_run(start: Seq<Seq<char>>, reads: Seq<Option<Seq<u8>>>, files: Seq<Seq<char>>) -> Seq<
    Seq<char>,
>
    decreases reads.len(),
{
    if reads.len() == 0 {
        start
    } else {
        walk_step(walk_run(start, reads.drop_last(), files), reads.len() - 1, reads.last(), files)
    }
}

/// Before step `k` the walk had a path at `k` and room for more.
pub open spec fn walk_goes_on(start: Seq<Seq<char>>, reads: Seq<Option<Seq<u8>>>, files: Seq<Seq<char>>, k: int) -> bool {
    k < walk_run(start, reads.take(k), files).len() < MAX_DEPENDENCIES
}

/// `end` is where the walk from `start` stops when its reads give `reads`: each step was
/// taken while a path was left to visit and there was room, and none is left after the last.
pub open spec fn walk_ends_at(
    start: Seq<Seq<char>>,
    reads: Seq<Option<Seq<u8>>>,
    files: Seq<Seq<char>>,
    end: Seq<Seq<char>>,
) -> bool {
    &&& end == walk_run(start, reads, files)
    &&& forall|k: int| 0 <= k < reads.len() ==> #[trigger] walk_goes_on(start, reads, files, k)
    &&& !(reads.len() < end.len() && end.len() < MAX_DEPENDENCIES)
}

fn follow<S: FileSource>(out: &mut Vec<String>, files: &[String], src: &S)
    ensures
        grown_from(str_views(old(out)@), str_views(final(out)@), str_views(files@)),
        exists|reads: Seq<Option<Seq<u8>>>|
            walk_ends_at(str_views(old(out)@), reads, str_views(files@), str_views(final(out)@)),
{
    let ghost start = str_views(out@);
    let ghost fs = str_views(files@);
    let ghost cap = walk_cap(out@.len() as int);
    let ghost mut reads: Seq<Option<Seq<u8>>> = Seq::empty();
    let mut i: usize = 0;
    proof {
        assert(start.take(start.len() as int) =~= start);
    }
    while i < out.len() && out.len() < MAX_DEPENDENCIES
        invariant
            i <= out@.len(),
            start == str_views(old(out)@),
            fs == str_views(files@),
            cap == walk_cap(start.len() as int),
            grown_from(start, str_views(out@), fs),
            reads.len() == i,
            str_views(out@) == walk_run(start, reads, fs),
            forall|k: int| 0 <= k < reads.len() ==> #[trigger] walk_goes_on(start, reads, fs, k),
        decreases cap - i,
    {
        let ghost before = reads;
        let ghost vi = str_views(out@);
        let path = out[i].as_str().to_owned();
        proof {
            assert(path@ == vi[i as int]);
        }
        let e = extension(&chars_of(path.as_str()));
        let ghost b: Option<Seq<u8>> = None;
        if is_stylesheet_ext_exec(&e) || is_yaml_ext_exec(&e) {
            let bytes = src.read(path.as_str());
            let named = named_by(path.as_str(), &bytes, files);
            proof {
                b = bytes_view(bytes);
                lemma_named_are_files(path@, bytes_view(bytes), fs);
            }
            follow_add(out, &named);
            proof {
                lemma_add_capped_grows(vi, str_views(named@), fs);
                lemma_grown_trans(start, vi, str_views(out@), fs);
            }
        }
        proof {
            reads = before.push(b);
            assert(reads.drop_last() =~= before);
            assert(before.take(i as int) =~= before);
            assert(reads.take(i as int) =~= before);
            assert(walk_goes_on(start, reads, fs, i as int));
            assert forall|k: int| 0 <= k < reads.len() implies #[trigger] walk_goes_on(start, reads, fs, k) by {
                if k < i {
                    assert(reads.take(k) =~= before.take(k));
                    assert(walk_goes_on(start, before, fs, k));
                }
            }
        }
        i += 1;
    }
    proof {
        assert(walk_ends_at(start, reads, fs, str_views(out@)));
    }
}

proof fn lemma_add_new_push(out: Seq<Seq<char>>, xs: Seq<Option<Seq<char>>>, x: Option<Seq<char>>)
    ensures
        add_new(out, xs.push(x)) == add_one(add_new(out, xs), x),
{
    assert(xs.push(x).drop_last() =~= xs);
}

/// Everything a note depends on, as vault paths, each once, in the order they are first
/// named: what its text embeds and links to and what its front matter names, then, followed
/// through, what those name in turn (a stylesheet's imports, a YAML file's paths, as `src`
/// reads them), up to the most allowed. `files` are the vault's files other than notes.
pub fn dependencies<S: FileSource>(note_path: &str, text: &str, ix: &NoteIndex, files: &[String], src: &S) -> (r: Vec<
    String,
>)
    ensures
        grown_from(
            capped(
                direct_dependencies(
                    note_path@,
                    text@,
                    wl_views(ix.wikilinks@),
                    crate::store::views(ix.links@),
                    str_views(files@),
                ),
            ),
            str_views(r@),
            str_views(files@),
        ),
        no_dup(str_views(r@)),
        r@.len() <= MAX_DEPENDENCIES,
        exists|reads: Seq<Option<Seq<u8>>>|
            walk_ends_at(
                capped(
                    direct_dependencies(
                        note_path@,
                        text@,
                        wl_views(ix.wikilinks@),
                        crate::store::views(ix.links@),
                        str_views(files@),
                    ),
                ),
                reads,
                str_views(files@),
                str_views(r@),
            ),
{
    let ghost fs = str_views(files@);
    let ghost ws = wl_views(ix.wikilinks@);
    let ghost ls = crate::store::views(ix.links@);
    let mut out: Vec<String> = Vec::new();
    let mut i: usize = 0;
    proof {
        assert(str_views(out@) =~= Seq::<Seq<char>>::empty());
        assert(ws.take(0) =~= Seq::<WlView>::empty());
        assert(resolve_all(note_path@, embed_targets(ws.take(0)), true, fs) =~= Seq::<Option<Seq<char>>>::empty());
    }
    while i < ix.wikilinks.len()
        invariant
            i <= ix.wikilinks@.len(),
            fs == str_views(files@),
            ws == wl_views(ix.wikilinks@),
            str_views(out@) == add_new(seq![], resolve_all(note_path@, embed_targets(ws.take(i as int)), true, fs)),
        decreases ix.wikilinks@.len() - i,
    {
        let ghost prev = embed_targets(ws.take(i as int));
        proof {
            assert(ws.take(i + 1).drop_last() =~= ws.take(i as int));
            assert(ws.take(i + 1).last() == wl_view(ix.wikilinks@[i as int]));
        }
        if ix.wikilinks[i].embed {
            let hit = resolve_reference(note_path, ix.wikilinks[i].target.as_str(), true, files);
            add_opt(&mut out, hit);
            proof {
                let t = ix.wikilinks@[i as int].target@;
                assert(resolve_all(note_path@, prev.push(t), true, fs) =~= resolve_all(note_path@, prev, true, fs).push(
                    resolve_reference_spec(note_path@, t, true, fs),
                ));
                lemma_add_new_push(seq![], resolve_all(note_path@, prev, true, fs), resolve_reference_spec(note_path@, t, true, fs));
            }
        }
        i += 1;
    }
    proof {
        assert(ws.take(ix.wikilinks@.len() as int) =~= ws);
    }
    let ghost a = str_views(out@);
    let mut j: usize = 0;
    proof {
        assert(resolve_all(note_path@, ls.take(0), false, fs) =~= Seq::<Option<Seq<char>>>::empty());
    }
    while j < ix.links.len()
        invariant
            j <= ix.links@.len(),
            fs == str_views(files@),
            ls == crate::store::views(ix.links@),
            str_views(out@) == add_new(a, resolve_all(note_path@, ls.take(j as int), false, fs)),
        decreases ix.links@.len() - j,
    {
        let hit = resolve_reference(note_path, ix.links[j].as_str(), false, files);
        add_opt(&mut out, hit);
        proof {
            let t = ix.links@[j as int]@;
            assert(ls.take(j + 1) =~= ls.take(j as int).push(t));
            assert(resolve_all(note_path@, ls.take(j + 1), false, fs) =~= resolve_all(note_path@, ls.take(j as int), false, fs).push(
                resolve_reference_spec(note_path@, t, false, fs),
            ));
            lemma_add_new_push(a, resolve_all(note_path@, ls.take(j as int), false, fs), resolve_reference_spec(note_path@, t, false, fs));
        }
        j += 1;
    }
    proof {
        assert(ls.take(ix.links@.len() as int) =~= ls);
    }
    let ghost b = str_views(out@);
    let tc = chars_of(text);
    let ts: Vec<String> = match block_chars_exec(&tc) {
        Some((bs, ae, _e)) => {
            proof {
                lemma_block_chars(tc@);
            }
            let y = string_of(&slice(&tc, bs, ae));
            yaml_paths(y.as_str())
        },
        None => Vec::new(),
    };
    proof {
        assert(str_views(ts@) =~= front_matter_targets(text@));
    }
    let mut k: usize = 0;
    proof {
        assert(resolve_all(note_path@, str_views(ts@).take(0), false, fs) =~= Seq::<Option<Seq<char>>>::empty());
    }
    while k < ts.len()
        invariant
            k <= ts@.len(),
            fs == str_views(files@),
            str_views(out@) == add_new(b, resolve_all(note_path@, str_views(ts@).take(k as int), false, fs)),
        decreases ts@.len() - k,
    {
        let hit = resolve_reference(note_path, ts[k].as_str(), false, files);
        add_opt(&mut out, hit);
        proof {
            let t = ts@[k as int]@;
            assert(str_views(ts@).take(k + 1) =~= str_views(ts@).take(k as int).push(t));
            assert(resolve_all(note_path@, str_views(ts@).take(k + 1), false, fs) =~= resolve_all(
                note_path@,
                str_views(ts@).take(k as int),
                false,
                fs,
            ).push(resolve_reference_spec(note_path@, t, false, fs)));
            lemma_add_new_push(b, resolve_all(note_path@, str_views(ts@).take(k as int), false, fs), resolve_reference_spec(note_path@, t, false, fs));
        }
        k += 1;
    }
    proof {
        assert(str_views(ts@).take(ts@.len() as int) =~= str_views(ts@));
        let e = resolve_all(note_path@, embed_targets(ws), true, fs);
        lemma_add_new_no_dup(seq![], e);
        lemma_add_new_no_dup(a, resolve_all(note_path@, ls, false, fs));
        lemma_add_new_no_dup(b, resolve_all(note_path@, front_matter_targets(text@), false, fs));
    }
    let ghost d = str_views(out@);
    proof {
        assert(d == direct_dependencies(note_path@, text@, ws, ls, fs));
    }
    cap_list(&mut out);
    follow(&mut out, files, src);
    out
}

/// The vault's files that are vault resources, in their order.
pub open spec fn resources_in(files: Seq<Seq<char>>) -> Seq<Seq<char>>
    decreases files.len(),
{
    if files.len() == 0 {
        seq![]
    } else if is_vault_resource_spec(files.last()) {
        resources_in(files.drop_last()).push(files.last())
    } else {
        resources_in(files.drop_last())
    }
}

/// The files that belong to the vault rather than to a note (see `is_vault_resource`), and,
/// followed through, what they name in turn, up to the most allowed.
pub fn vault_resources<S: FileSource>(files: &[String], src: &S) -> (r: Vec<String>)
    ensures
        grown_from(capped(resources_in(str_views(files@))), str_views(r@), str_views(files@)),
        r@.len() <= MAX_DEPENDENCIES,
        exists|reads: Seq<Option<Seq<u8>>>|
            walk_ends_at(capped(resources_in(str_views(files@))), reads, str_views(files@), str_views(r@)),
{
    let mut out: Vec<String> = Vec::new();
    let mut i: usize = 0;
    proof {
        assert(str_views(out@) =~= Seq::<Seq<char>>::empty());
        assert(str_views(files@).take(0) =~= Seq::<Seq<char>>::empty());
    }
    while i < files.len()
        invariant
            i <= files@.len(),
            str_views(out@) == resources_in(str_views(files@).take(i as int)),
        decreases files@.len() - i,
    {
        proof {
            assert(str_views(files@).take(i + 1).drop_last() =~= str_views(files@).take(i as int));
            assert(str_views(files@).take(i + 1).last() == files@[i as int]@);
        }
        if is_vault_resource(files[i].as_str()) {
            out.push(files[i].as_str().to_owned());
            proof {
                assert(str_views(out@) =~= str_views(out@.drop_last()).push(files@[i as int]@));
            }
        }
        i += 1;
    }
    proof {
        assert(str_views(files@).take(files@.len() as int) =~= str_views(files@));
    }
    cap_list(&mut out);
    follow(&mut out, files, src);
    out
}

/// The files of the vault that a note depends on (see `dependencies`), where `attachments`
/// are the vault's files other than notes; a note that does not parse is an error.
pub fn referenced<S: FileSource>(note_path: &str, text: &str, attachments: &[String], src: &S) -> (r: Result<
    Vec<String>,
    Error,
>)
    ensures
        match md_parse(text@) {
            Ok(t) => r matches Ok(v) && grown_from(
                capped(
                    direct_dependencies(
                        note_path@,
                        text@,
                        walked(t).wikilinks,
                        walked(t).links,
                        str_views(attachments@),
                    ),
                ),
                str_views(v@),
                str_views(attachments@),
            ) && no_dup(str_views(v@)) && v@.len() <= MAX_DEPENDENCIES && (exists|reads: Seq<Option<Seq<u8>>>|
                walk_ends_at(
                    capped(
                        direct_dependencies(
                            note_path@,
                            text@,
                            walked(t).wikilinks,
                            walked(t).links,
                            str_views(attachments@),
                        ),
                    ),
                    reads,
                    str_views(attachments@),
                    str_views(v@),
                )),
            Err(m) => r matches Err(Error::Markdown(e)) && e@ == m,
        },
{
    match crate::markdown::index(text) {
        Ok(ix) => Ok(dependencies(note_path, text, &ix, attachments, src)),
        Err(e) => Err(e),
    }
}

/// A list `dependencies` (or `referenced`) may answer when the walk starts from `start`: it
/// grows `start` within the cap, repeats nothing, and is where the walk ends for some reads.
pub open spec fn dependency_answer(start: Seq<Seq<char>>, files: Seq<Seq<char>>, r: Seq<Seq<char>>) -> bool {
    &&& grown_from(start, r, files)
    &&& no_dup(r)
    &&& r.len() <= MAX_DEPENDENCIES
    &&& exists|reads: Seq<Option<Seq<u8>>>| #[trigger] walk_ends_at(start, reads, files, r)
}

/// What `referenced` may answer for a note is what `dependencies` may answer over the note's
/// index, the attachments being the vault's files.
pub proof fn lemma_referenced_is_dependencies(
    note_path: Seq<char>,
    text: Seq<char>,
    ix: NoteIndex,
    attachments: Seq<Seq<char>>,
    r: Seq<Seq<char>>,
)
    requires
        md_parse(text) is Ok,
        crate::markdown::indexes(ix, md_parse(text)->Ok_0),
    ensures
        dependency_answer(
            capped(
                direct_dependencies(note_path, text, wl_views(ix.wikilinks@), crate::store::views(ix.links@), attachments),
            ),
            attachments,
            r,
        ) == dependency_answer(
            capped(
                direct_dependencies(
                    note_path,
                    text,
                    walked(md_parse(text)->Ok_0).wikilinks,
                    walked(md_parse(text)->Ok_0).links,
                    attachments,
                ),
            ),
            attachments,
            r,
        ),
{
}

/// Appends each of `more` that `files` does not have yet, in order.
pub fn append_new(files: &mut Vec<String>, more: Vec<String>)
    ensures
        str_views(final(files)@) == add_new(
            str_views(old(files)@),
            str_views(more@).map_values(|p: Seq<char>| Some(p)),
        ),
{
    let ghost xs = str_views(more@).map_values(|p: Seq<char>| Some(p));
    let mut i: usize = 0;
    proof {
        assert(xs.take(0) =~= Seq::<Option<Seq<char>>>::empty());
    }
    while i < more.len()
        invariant
            i <= more@.len(),
            xs == str_views(more@).map_values(|p: Seq<char>| Some(p)),
            str_views(files@) == add_new(str_views(old(files)@), xs.take(i as int)),
        decreases more@.len() - i,
    {
        proof {
            assert(xs.take(i + 1).drop_last() =~= xs.take(i as int));
            assert(xs.take(i + 1).last() == Some(more@[i as int]@));
        }
        add_opt(files, Some(more[i].as_str().to_owned()));
        i += 1;
    }
    proof {
        assert(xs.take(more@.len() as int) =~= xs);
    }
}

} // verus!
