//! What the note operations promise, proved over the specifications their contracts use:
//! rewriting references when vaults merge, tags in inline text, callout kinds on import, the
//! ordinal day of a daily note's name, and wikilinks after a rename.
use vstd::prelude::*;
use crate::merge::{rewrite_all, rewrite_one};
use crate::text::{after_last, is_at, replace, starts_with};

verus! {

broadcast use vstd::seq_lib::group_seq_properties;

/// `s` has no `c`.
pub open spec fn free_of(s: Seq<char>, c: char) -> bool {
    forall|i: int| 0 <= i < s.len() ==> s[i] != c
}

// ---- Rewriting references ---------------------------------------------------------------------

/// Rewrites apply one after the other: rewriting with `a` then `b` is rewriting with `a`,
/// then rewriting the result with `b`.
pub proof fn lemma_rewrites_compose(
    text: Seq<char>,
    a: Seq<(Seq<char>, Seq<char>)>,
    b: Seq<(Seq<char>, Seq<char>)>,
)
    ensures
        rewrite_all(text, a + b) == rewrite_all(rewrite_all(text, a), b),
    decreases a.len(),
{
    if a.len() == 0 {
        assert(a + b =~= b);
    } else {
        assert((a + b).drop_first() =~= a.drop_first() + b);
        assert((a + b)[0] == a[0]);
        lemma_rewrites_compose(rewrite_one(text, a[0].0, a[0].1), a.drop_first(), b);
    }
}

/// One rewrite is that rewrite; none leaves the text as it is.
pub proof fn lemma_rewrite_single(text: Seq<char>, from: Seq<char>, to: Seq<char>)
    ensures
        rewrite_all(text, seq![(from, to)]) == rewrite_one(text, from, to),
        rewrite_all(text, Seq::empty()) == text,
{
    assert(seq![(from, to)].drop_first() =~= Seq::<(Seq<char>, Seq<char>)>::empty());
    assert(rewrite_all(rewrite_one(text, from, to), Seq::empty()) == rewrite_one(text, from, to));
}

proof fn lemma_replace_skip_prefix(x: Seq<char>, r: Seq<char>, p: Seq<char>, q: Seq<char>)
    requires
        p.len() > 0,
        free_of(x, p[0]),
    ensures
        replace(x + r, p, q) == x + replace(r, p, q),
    decreases x.len(),
{
    if x.len() > 0 {
        let s = x + r;
        assert(!starts_with(s, p)) by {
            if starts_with(s, p) {
                assert(s.subrange(0, p.len() as int)[0] == s[0]);
            }
        }
        assert(s.drop_first() =~= x.drop_first() + r);
        assert(free_of(x.drop_first(), p[0])) by {
            assert forall|i: int| 0 <= i < x.drop_first().len() implies x.drop_first()[i] != p[0] by {
                assert(x.drop_first()[i] == x[i + 1]);
            }
        }
        lemma_replace_skip_prefix(x.drop_first(), r, p, q);
        assert(seq![s[0]] + (x.drop_first() + replace(r, p, q)) =~= x + replace(r, p, q));
    } else {
        assert(x + r =~= r);
    }
}

proof fn lemma_replace_none(x: Seq<char>, p: Seq<char>, q: Seq<char>)
    requires
        p.len() > 0,
        free_of(x, p[0]),
    ensures
        replace(x, p, q) == x,
{
    lemma_replace_skip_prefix(x, Seq::empty(), p, q);
    assert(x + Seq::<char>::empty() =~= x);
    assert(replace(Seq::<char>::empty(), p, q) == Seq::<char>::empty());
}

/// A link to an attachment that moves is pointed at its new path, and nothing else in the text
/// changes: in a text holding `](from)` once and no other brackets, `from` becomes `to`.
pub proof fn lemma_rewrite_points_link_at_new_path(
    x: Seq<char>,
    y: Seq<char>,
    from: Seq<char>,
    to: Seq<char>,
)
    requires
        from != to,
        free_of(x, ']') && free_of(x, '['),
        free_of(y, ']') && free_of(y, '['),
        free_of(from, ']') && free_of(from, '['),
        free_of(to, ']') && free_of(to, '['),
    ensures
        rewrite_all(x + seq![']', '('] + from + seq![')'] + y, seq![(from, to)]) == x + seq![']', '('] + to
            + seq![')'] + y,
{
    lemma_rewrite_single(x + seq![']', '('] + from + seq![')'] + y, from, to);
    let pf = seq![']', '('] + from + seq![')'];
    let pt = seq![']', '('] + to + seq![')'];
    let rest = pf + y;
    assert(x + seq![']', '('] + from + seq![')'] + y =~= x + rest);
    lemma_replace_skip_prefix(x, rest, pf, pt);
    assert(starts_with(rest, pf)) by {
        assert(rest.subrange(0, pf.len() as int) =~= pf);
    }
    assert(rest.skip(pf.len() as int) =~= y);
    assert(free_of(y, pf[0]));
    lemma_replace_none(y, pf, pt);
    let o1 = x + pt + y;
    assert(replace(x + rest, pf, pt) =~= o1);
    let fb = after_last(from, '/');
    let tb = after_last(to, '/');
    if fb != tb {
        assert(free_of(o1, '[')) by {
            assert forall|i: int| 0 <= i < o1.len() implies o1[i] != '[' by {
                if i < x.len() {
                } else if i < x.len() + 2 {
                } else if i < x.len() + 2 + to.len() {
                    assert(o1[i] == to[i - x.len() - 2]);
                } else if i < x.len() + 3 + to.len() {
                } else {
                    assert(o1[i] == y[i - x.len() - 3 - to.len()]);
                }
            }
        }
        let w1 = seq!['[', '['] + fb + seq![']', ']'];
        let w2 = seq!['[', '['] + fb + seq!['|'];
        lemma_replace_none(o1, w1, seq!['[', '['] + tb + seq![']', ']']);
        lemma_replace_none(o1, w2, seq!['[', '['] + tb + seq!['|']);
    }
}

/// `](p)`, the form a markdown link or image gives its target.
pub open spec fn link_to(p: Seq<char>) -> Seq<char> {
    seq![']', '('] + p + seq![')']
}

proof fn lemma_replace_link(x: Seq<char>, r: Seq<char>, from: Seq<char>, to: Seq<char>)
    requires
        free_of(x, ']'),
    ensures
        replace(x + link_to(from) + r, link_to(from), link_to(to)) == x + link_to(to) + replace(
            r,
            link_to(from),
            link_to(to),
        ),
{
    let pf = link_to(from);
    let rest = pf + r;
    assert(x + link_to(from) + r =~= x + rest);
    lemma_replace_skip_prefix(x, rest, pf, link_to(to));
    assert(starts_with(rest, pf)) by {
        assert(rest.subrange(0, pf.len() as int) =~= pf);
    }
    assert(rest.skip(pf.len() as int) =~= r);
    assert(x + (link_to(to) + replace(r, pf, link_to(to))) =~= x + link_to(to) + replace(r, pf, link_to(to)));
}

/// Another link is left alone by the rewrite of `from`.
proof fn lemma_replace_other_link(r: Seq<char>, f: Seq<char>, from: Seq<char>, to: Seq<char>)
    requires
        f != from,
        free_of(f, ']') && free_of(f, ')'),
        free_of(from, ')'),
    ensures
        replace(link_to(f) + r, link_to(from), link_to(to)) == link_to(f) + replace(r, link_to(from), link_to(to)),
{
    let s = link_to(f) + r;
    let pf = link_to(from);
    assert(!starts_with(s, pf)) by {
        if starts_with(s, pf) {
            let sub = s.subrange(0, pf.len() as int);
            assert(sub == pf);
            if from.len() < f.len() {
                assert(sub[2 + from.len() as int] == f[from.len() as int]);
                assert(pf[2 + from.len() as int] == ')');
            } else if from.len() > f.len() {
                assert(s[2 + f.len() as int] == ')');
                assert(sub[2 + f.len() as int] == s[2 + f.len() as int]);
                assert(pf[2 + f.len() as int] == from[f.len() as int]);
            } else {
                assert forall|k: int| 0 <= k < f.len() implies f[k] == from[k] by {
                    assert(sub[2 + k] == s[2 + k]);
                    assert(s[2 + k] == f[k]);
                    assert(pf[2 + k] == from[k]);
                }
                assert(f =~= from);
            }
        }
    }
    let head = seq!['('] + f + seq![')'];
    assert(s.drop_first() =~= head + r);
    assert(free_of(head, ']')) by {
        assert forall|i: int| 0 <= i < head.len() implies head[i] != ']' by {
            if 1 <= i < 1 + f.len() {
                assert(head[i] == f[i - 1]);
            }
        }
    }
    lemma_replace_skip_prefix(head, r, pf, link_to(to));
    assert(seq![s[0]] + (head + replace(r, pf, link_to(to))) =~= link_to(f) + replace(r, pf, link_to(to)));
}

proof fn lemma_replace_keeps_free(s: Seq<char>, p: Seq<char>, q: Seq<char>, c: char)
    requires
        free_of(s, c),
        free_of(q, c),
    ensures
        free_of(replace(s, p, q), c),
    decreases s.len(),
{
    if p.len() == 0 || s.len() == 0 {
    } else if starts_with(s, p) {
        let t = s.skip(p.len() as int);
        assert(free_of(t, c)) by {
            assert forall|i: int| 0 <= i < t.len() implies t[i] != c by {
                assert(t[i] == s[i + p.len()]);
            }
        }
        lemma_replace_keeps_free(t, p, q, c);
    } else {
        let t = s.drop_first();
        assert(free_of(t, c)) by {
            assert forall|i: int| 0 <= i < t.len() implies t[i] != c by {
                assert(t[i] == s[i + 1]);
            }
        }
        lemma_replace_keeps_free(t, p, q, c);
    }
}

/// Where the text has no `[`, a rewrite is only the rewrite of its links.
proof fn lemma_rewrite_links_only(o: Seq<char>, from: Seq<char>, to: Seq<char>)
    requires
        from != to,
        free_of(o, '['),
        free_of(to, '['),
    ensures
        rewrite_one(o, from, to) == replace(o, link_to(from), link_to(to)),
{
    let o1 = replace(o, link_to(from), link_to(to));
    assert(seq![']', '('] + from + seq![')'] =~= link_to(from));
    assert(seq![']', '('] + to + seq![')'] =~= link_to(to));
    assert(free_of(link_to(to), '[')) by {
        assert forall|i: int| 0 <= i < link_to(to).len() implies link_to(to)[i] != '[' by {
            if 2 <= i < 2 + to.len() {
                assert(link_to(to)[i] == to[i - 2]);
            }
        }
    }
    lemma_replace_keeps_free(o, link_to(from), link_to(to), '[');
    let fb = after_last(from, '/');
    let tb = after_last(to, '/');
    if fb != tb {
        lemma_replace_none(o1, seq!['[', '['] + fb + seq![']', ']'], seq!['[', '['] + tb + seq![']', ']']);
        lemma_replace_none(o1, seq!['[', '['] + fb + seq!['|'], seq!['[', '['] + tb + seq!['|']);
    }
}

/// A text of plain runs and links (no other brackets).
pub open spec fn plain_run(s: Seq<char>) -> bool {
    free_of(s, '[') && free_of(s, ']')
}

/// A target that can stand in a link without closing it early.
pub open spec fn plain_target(p: Seq<char>) -> bool {
    free_of(p, '[') && free_of(p, ']') && free_of(p, ')')
}

proof fn lemma_free_concat(a: Seq<char>, b: Seq<char>, c: char)
    requires
        free_of(a, c),
        free_of(b, c),
    ensures
        free_of(a + b, c),
{
    assert forall|i: int| 0 <= i < (a + b).len() implies (a + b)[i] != c by {
        if i < a.len() {
            assert((a + b)[i] == a[i]);
        } else {
            assert((a + b)[i] == b[i - a.len()]);
        }
    }
}

proof fn lemma_link_free(p: Seq<char>)
    requires
        plain_target(p),
    ensures
        free_of(link_to(p), '['),
{
    assert forall|i: int| 0 <= i < link_to(p).len() implies link_to(p)[i] != '[' by {
        if 2 <= i < 2 + p.len() {
            assert(link_to(p)[i] == p[i - 2]);
        }
    }
}

/// Every link to an attachment that moves is rewritten, not only the first.
pub proof fn lemma_rewrite_reaches_every_link(
    x: Seq<char>,
    y: Seq<char>,
    z: Seq<char>,
    from: Seq<char>,
    to: Seq<char>,
)
    requires
        from != to,
        plain_run(x) && plain_run(y) && plain_run(z),
        plain_target(from) && plain_target(to),
    ensures
        rewrite_all(x + link_to(from) + y + link_to(from) + z, seq![(from, to)]) == x + link_to(to) + y + link_to(
            to,
        ) + z,
{
    let text = x + link_to(from) + y + link_to(from) + z;
    lemma_rewrite_single(text, from, to);
    lemma_link_free(from);
    lemma_free_concat(x, link_to(from), '[');
    lemma_free_concat(x + link_to(from), y, '[');
    lemma_free_concat(x + link_to(from) + y, link_to(from), '[');
    lemma_free_concat(x + link_to(from) + y + link_to(from), z, '[');
    lemma_rewrite_links_only(text, from, to);
    assert(text =~= x + link_to(from) + (y + link_to(from) + z));
    lemma_replace_link(x, y + link_to(from) + z, from, to);
    lemma_replace_link(y, z, from, to);
    assert(y + link_to(from) + z =~= y + link_to(from) + z);
    lemma_replace_none(z, link_to(from), link_to(to));
    assert(x + link_to(to) + (y + link_to(to) + z) =~= x + link_to(to) + y + link_to(to) + z);
}

/// Every rewrite pair is applied: two attachments that move, each named once, both end up
/// pointing at their new paths.
pub proof fn lemma_rewrite_applies_every_pair(
    x: Seq<char>,
    y: Seq<char>,
    z: Seq<char>,
    f1: Seq<char>,
    t1: Seq<char>,
    f2: Seq<char>,
    t2: Seq<char>,
)
    requires
        f1 != t1 && f2 != t2 && f1 != f2 && t1 != f2,
        plain_run(x) && plain_run(y) && plain_run(z),
        plain_target(f1) && plain_target(t1) && plain_target(f2) && plain_target(t2),
    ensures
        rewrite_all(x + link_to(f1) + y + link_to(f2) + z, seq![(f1, t1), (f2, t2)]) == x + link_to(t1) + y
            + link_to(t2) + z,
{
    let text = x + link_to(f1) + y + link_to(f2) + z;
    assert(seq![(f1, t1), (f2, t2)] =~= seq![(f1, t1)] + seq![(f2, t2)]);
    lemma_rewrites_compose(text, seq![(f1, t1)], seq![(f2, t2)]);
    // The first pair.
    lemma_rewrite_single(text, f1, t1);
    lemma_link_free(f1);
    lemma_link_free(f2);
    lemma_link_free(t1);
    lemma_free_concat(x, link_to(f1), '[');
    lemma_free_concat(x + link_to(f1), y, '[');
    lemma_free_concat(x + link_to(f1) + y, link_to(f2), '[');
    lemma_free_concat(x + link_to(f1) + y + link_to(f2), z, '[');
    lemma_rewrite_links_only(text, f1, t1);
    assert(text =~= x + link_to(f1) + (y + link_to(f2) + z));
    lemma_replace_link(x, y + link_to(f2) + z, f1, t1);
    lemma_replace_skip_prefix(y, link_to(f2) + z, link_to(f1), link_to(t1));
    assert(y + link_to(f2) + z =~= y + (link_to(f2) + z));
    lemma_replace_other_link(z, f2, f1, t1);
    lemma_replace_none(z, link_to(f1), link_to(t1));
    let mid = x + link_to(t1) + y + link_to(f2) + z;
    assert(x + link_to(t1) + (y + (link_to(f2) + z)) =~= mid);
    // The second pair.
    lemma_rewrite_single(mid, f2, t2);
    lemma_free_concat(x, link_to(t1), '[');
    lemma_free_concat(x + link_to(t1), y, '[');
    lemma_free_concat(x + link_to(t1) + y, link_to(f2), '[');
    lemma_free_concat(x + link_to(t1) + y + link_to(f2), z, '[');
    lemma_rewrite_links_only(mid, f2, t2);
    assert(mid =~= x + (link_to(t1) + (y + link_to(f2) + z)));
    lemma_replace_skip_prefix(x, link_to(t1) + (y + link_to(f2) + z), link_to(f2), link_to(t2));
    lemma_replace_other_link(y + link_to(f2) + z, t1, f2, t2);
    lemma_replace_link(y, z, f2, t2);
    lemma_replace_none(z, link_to(f2), link_to(t2));
    assert(x + (link_to(t1) + (y + link_to(t2) + z)) =~= x + link_to(t1) + y + link_to(t2) + z);
}

proof fn lemma_replace_absent(s: Seq<char>, p: Seq<char>, q: Seq<char>, k: int)
    requires
        0 <= k < p.len(),
        free_of(s, p[k]),
    ensures
        replace(s, p, q) == s,
    decreases s.len(),
{
    if s.len() > 0 {
        assert(!starts_with(s, p)) by {
            if starts_with(s, p) {
                assert(s.subrange(0, p.len() as int)[k] == s[k]);
            }
        }
        let t = s.drop_first();
        assert(free_of(t, p[k])) by {
            assert forall|i: int| 0 <= i < t.len() implies t[i] != p[k] by {
                assert(t[i] == s[i + 1]);
            }
        }
        lemma_replace_absent(t, p, q, k);
        assert(seq![s[0]] + t =~= s);
    }
}

/// `[[name` followed by `end`: the start of a wikilink embed by a file's name.
pub open spec fn embed_of(name: Seq<char>, end: Seq<char>) -> Seq<char> {
    seq!['[', '['] + name + end
}

/// A file name that can stand in a wikilink: not empty, no brackets, `|`, `(` or `)`.
pub open spec fn plain_name(n: Seq<char>) -> bool {
    n.len() > 0 && free_of(n, '[') && free_of(n, ']') && free_of(n, '|') && free_of(n, '(') && free_of(n, ')')
}

proof fn lemma_embed_not_other(r: Seq<char>, a: Seq<char>, b: Seq<char>, e1: Seq<char>, e2: Seq<char>, q: Seq<char>)
    requires
        plain_name(a) && plain_name(b),
        e1 == seq![']', ']'] || e1 == seq!['|'],
        e2 == seq![']', ']'] || e2 == seq!['|'],
        a != b || e1 != e2,
    ensures
        replace(embed_of(a, e1) + r, embed_of(b, e2), q) == embed_of(a, e1) + replace(r, embed_of(b, e2), q),
{
    let s = embed_of(a, e1) + r;
    let p = embed_of(b, e2);
    assert(!starts_with(s, p)) by {
        if starts_with(s, p) {
            let sub = s.subrange(0, p.len() as int);
            assert(sub == p);
            if a.len() < b.len() {
                assert(sub[2 + a.len() as int] == s[2 + a.len() as int]);
                assert(s[2 + a.len() as int] == e1[0]);
                assert(p[2 + a.len() as int] == b[a.len() as int]);
            } else if a.len() > b.len() {
                assert(sub[2 + b.len() as int] == s[2 + b.len() as int]);
                assert(s[2 + b.len() as int] == a[b.len() as int]);
                assert(p[2 + b.len() as int] == e2[0]);
            } else {
                assert forall|k: int| 0 <= k < a.len() implies a[k] == b[k] by {
                    assert(sub[2 + k] == s[2 + k]);
                    assert(s[2 + k] == a[k]);
                    assert(p[2 + k] == b[k]);
                }
                assert(a =~= b);
                assert(sub[2 + a.len() as int] == s[2 + a.len() as int]);
                assert(s[2 + a.len() as int] == e1[0]);
                assert(p[2 + a.len() as int] == e2[0]);
                if e1[0] == e2[0] {
                    assert(e1 =~= e2);
                }
            }
        }
    }
    let t = s.drop_first();
    assert(!starts_with(t, p)) by {
        if starts_with(t, p) {
            assert(t.subrange(0, p.len() as int)[1] == t[1]);
            assert(t[1] == a[0]);
        }
    }
    let head = a + e1;
    let u = t.drop_first();
    assert(u =~= head + r);
    assert(free_of(head, '[')) by {
        assert forall|k: int| 0 <= k < head.len() implies head[k] != '[' by {
            if k < a.len() {
                assert(head[k] == a[k]);
            } else {
                assert(head[k] == e1[k - a.len()]);
            }
        }
    }
    lemma_replace_skip_prefix(head, r, p, q);
    assert(replace(s, p, q) == seq![s[0]] + replace(t, p, q));
    assert(replace(t, p, q) == seq![t[0]] + replace(u, p, q));
    assert(seq![s[0]] + (seq![t[0]] + (head + replace(r, p, q))) =~= embed_of(a, e1) + replace(r, p, q));
}

proof fn lemma_embeds_step1(x: Seq<char>, y: Seq<char>, z: Seq<char>, fb: Seq<char>, tb: Seq<char>)
    requires
        plain_name(fb) && plain_name(tb),
        free_of(x, '[') && free_of(y, '[') && free_of(z, '['),
    ensures
        replace(
            x + embed_of(fb, seq![']', ']']) + y + embed_of(fb, seq!['|']) + z,
            embed_of(fb, seq![']', ']']),
            embed_of(tb, seq![']', ']']),
        ) == x + embed_of(tb, seq![']', ']']) + y + embed_of(fb, seq!['|']) + z,
{
    let c2 = seq![']', ']'];
    let bar = seq!['|'];
    let w1 = embed_of(fb, c2);
    let q = embed_of(tb, c2);
    let r1 = y + embed_of(fb, bar) + z;
    assert(x + w1 + y + embed_of(fb, bar) + z =~= x + (w1 + r1));
    lemma_replace_skip_prefix(x, w1 + r1, w1, q);
    assert(starts_with(w1 + r1, w1)) by {
        assert((w1 + r1).subrange(0, w1.len() as int) =~= w1);
    }
    assert((w1 + r1).skip(w1.len() as int) =~= r1);
    assert(r1 =~= y + (embed_of(fb, bar) + z));
    lemma_replace_skip_prefix(y, embed_of(fb, bar) + z, w1, q);
    lemma_embed_not_other(z, fb, fb, bar, c2, q);
    lemma_replace_none(z, w1, q);
    assert(x + (q + (y + (embed_of(fb, bar) + z))) =~= x + q + y + embed_of(fb, bar) + z);
}

proof fn lemma_embeds_step2(x: Seq<char>, y: Seq<char>, z: Seq<char>, fb: Seq<char>, tb: Seq<char>)
    requires
        plain_name(fb) && plain_name(tb),
        free_of(x, '[') && free_of(y, '[') && free_of(z, '['),
    ensures
        replace(
            x + embed_of(tb, seq![']', ']']) + y + embed_of(fb, seq!['|']) + z,
            embed_of(fb, seq!['|']),
            embed_of(tb, seq!['|']),
        ) == x + embed_of(tb, seq![']', ']']) + y + embed_of(tb, seq!['|']) + z,
{
    let c2 = seq![']', ']'];
    let bar = seq!['|'];
    let w2 = embed_of(fb, bar);
    let q = embed_of(tb, bar);
    let r = y + w2 + z;
    assert(x + embed_of(tb, c2) + y + w2 + z =~= x + (embed_of(tb, c2) + r));
    lemma_replace_skip_prefix(x, embed_of(tb, c2) + r, w2, q);
    lemma_embed_not_other(r, tb, fb, c2, bar, q);
    assert(r =~= y + (w2 + z));
    lemma_replace_skip_prefix(y, w2 + z, w2, q);
    assert(starts_with(w2 + z, w2)) by {
        assert((w2 + z).subrange(0, w2.len() as int) =~= w2);
    }
    assert((w2 + z).skip(w2.len() as int) =~= z);
    lemma_replace_none(z, w2, q);
    assert(x + (embed_of(tb, c2) + (y + (q + z))) =~= x + embed_of(tb, c2) + y + q + z);
}

proof fn lemma_no_paren(x: Seq<char>, y: Seq<char>, z: Seq<char>, fb: Seq<char>)
    requires
        plain_name(fb),
        free_of(x, '(') && free_of(y, '(') && free_of(z, '('),
    ensures
        free_of(x + embed_of(fb, seq![']', ']']) + y + embed_of(fb, seq!['|']) + z, '('),
{
    let e1 = embed_of(fb, seq![']', ']']);
    let e2 = embed_of(fb, seq!['|']);
    assert(free_of(e1, '(')) by {
        assert forall|k: int| 0 <= k < e1.len() implies e1[k] != '(' by {
            if 2 <= k < 2 + fb.len() {
                assert(e1[k] == fb[k - 2]);
            }
        }
    }
    assert(free_of(e2, '(')) by {
        assert forall|k: int| 0 <= k < e2.len() implies e2[k] != '(' by {
            if 2 <= k < 2 + fb.len() {
                assert(e2[k] == fb[k - 2]);
            }
        }
    }
    lemma_free_concat(x, e1, '(');
    lemma_free_concat(x + e1, y, '(');
    lemma_free_concat(x + e1 + y, e2, '(');
    lemma_free_concat(x + e1 + y + e2, z, '(');
}

/// An attachment renamed on the way in is also renamed where a wikilink names it by its file
/// name, with or without a label: in a text holding `[[name]]` and `[[name|…` and no other
/// brackets or parentheses, both come to name the new file.
pub proof fn lemma_rewrite_renames_embeds(
    x: Seq<char>,
    y: Seq<char>,
    z: Seq<char>,
    from: Seq<char>,
    to: Seq<char>,
)
    requires
        from != to,
        after_last(from, '/') != after_last(to, '/'),
        plain_name(after_last(from, '/')) && plain_name(after_last(to, '/')),
        free_of(x, '[') && free_of(x, '('),
        free_of(y, '[') && free_of(y, '('),
        free_of(z, '[') && free_of(z, '('),
    ensures
        ({
            let fb = after_last(from, '/');
            let tb = after_last(to, '/');
            rewrite_all(x + embed_of(fb, seq![']', ']']) + y + embed_of(fb, seq!['|']) + z, seq![(from, to)]) == x
                + embed_of(tb, seq![']', ']']) + y + embed_of(tb, seq!['|']) + z
        }),
{
    let fb = after_last(from, '/');
    let tb = after_last(to, '/');
    let text = x + embed_of(fb, seq![']', ']']) + y + embed_of(fb, seq!['|']) + z;
    lemma_rewrite_single(text, from, to);
    lemma_no_paren(x, y, z, fb);
    let pl = seq![']', '('] + from + seq![')'];
    lemma_replace_absent(text, pl, seq![']', '('] + to + seq![')'], 1);
    lemma_embeds_step1(x, y, z, fb, tb);
    lemma_embeds_step2(x, y, z, fb, tb);
    assert(seq!['[', '['] + fb + seq![']', ']'] =~= embed_of(fb, seq![']', ']']));
    assert(seq!['[', '['] + tb + seq![']', ']'] =~= embed_of(tb, seq![']', ']']));
    assert(seq!['[', '['] + fb + seq!['|'] =~= embed_of(fb, seq!['|']));
    assert(seq!['[', '['] + tb + seq!['|'] =~= embed_of(tb, seq!['|']));
}

// ---- Tags ------------------------------------------------------------------------------------

/// Every character is alphanumeric.
pub open spec fn all_alphanumeric(s: Seq<char>) -> bool {
    forall|i: int| 0 <= i < s.len() ==> crate::markdown::alphanumeric(#[trigger] s[i])
}

proof fn lemma_tag_run_over(x: Seq<char>, r: Seq<char>)
    requires
        forall|i: int| 0 <= i < x.len() ==> crate::markdown::tag_char(#[trigger] x[i]),
    ensures
        crate::markdown::tag_run(x + r) == x.len() + crate::markdown::tag_run(r),
    decreases x.len(),
{
    if x.len() > 0 {
        assert((x + r).drop_first() =~= x.drop_first() + r);
        assert(crate::markdown::tag_char(x[0]));
        assert forall|i: int| 0 <= i < x.drop_first().len() implies crate::markdown::tag_char(
            #[trigger] x.drop_first()[i],
        ) by {
            assert(x.drop_first()[i] == x[i + 1]);
        }
        lemma_tag_run_over(x.drop_first(), r);
    } else {
        assert(x + r =~= r);
    }
}

/// A tag's body runs over letters, digits, `_`, `-` and `/`, so a nested tag `#a/b` is one
/// tag: inline text starting `#a/b` (`a` a word starting with a letter, `b` a word), followed
/// by the end of the text or by a character no tag holds (a space, a newline, punctuation),
/// yields the tag `a/b` first.
pub proof fn lemma_nested_tag_is_one_tag(a: Seq<char>, b: Seq<char>, r: Seq<char>)
    requires
        a.len() > 0,
        crate::markdown::alphabetic(a[0]),
        a[0] != '/',
        all_alphanumeric(a),
        all_alphanumeric(b),
        r.len() == 0 || !(crate::markdown::alphanumeric(r[0]) || r[0] == '_' || r[0] == '-' || r[0] == '/'),
    ensures
        crate::markdown::scan_from(seq!['#'] + a + seq!['/'] + b + r, 0).len() > 0,
        crate::markdown::scan_from(seq!['#'] + a + seq!['/'] + b + r, 0)[0] == crate::markdown::ScanItem::Tag(
            a + seq!['/'] + b,
        ),
{
    let t = seq!['#'] + a + seq!['/'] + b + r;
    let body = a + seq!['/'] + b;
    assert(crate::markdown::wiki_at(t, 0) is None);
    let rest = t.skip(1);
    assert(rest =~= body + r);
    assert forall|i: int| 0 <= i < body.len() implies crate::markdown::tag_char(#[trigger] body[i]) by {
        if i < a.len() {
            assert(body[i] == a[i]);
            assert(crate::markdown::alphanumeric(a[i]));
        } else if i > a.len() {
            assert(body[i] == b[i - a.len() - 1]);
            assert(crate::markdown::alphanumeric(b[i - a.len() - 1]));
        }
    }
    lemma_tag_run_over(body, r);
    assert(crate::markdown::tag_run(r) == 0);
    assert(rest.take(crate::markdown::tag_run(rest) as int) =~= body);
    assert(body[0] == a[0]);
    assert(crate::markdown::alphabetic(body[0]));
    assert(crate::markdown::tag_at(t, 0) == Some(body));
}

/// A `#` inside a word starts no tag (`a#b`, `C#`), and neither does one whose body holds no
/// letter (`#123`) or starts with `/`.
pub proof fn lemma_tag_needs_boundary_and_letter(t: Seq<char>, i: int)
    ensures
        0 < i < t.len() && crate::markdown::alphanumeric(t[i - 1]) ==> crate::markdown::tag_at(t, i) is None,
        ({
            let rest = t.skip(i + 1);
            let body = rest.take(crate::markdown::tag_run(rest) as int);
            (forall|k: int| 0 <= k < body.len() ==> !crate::markdown::alphabetic(#[trigger] body[k]))
                ==> crate::markdown::tag_at(t, i) is None
        }),
        ({
            let rest = t.skip(i + 1);
            let body = rest.take(crate::markdown::tag_run(rest) as int);
            body.len() > 0 && body[0] == '/' ==> crate::markdown::tag_at(t, i) is None
        }),
{
}

// ---- Callout kinds ---------------------------------------------------------------------------

/// The callout kinds Quarto has: note, tip, warning, caution, important.
pub open spec fn quarto_kinds() -> Set<Seq<char>> {
    set!["note"@, "tip"@, "warning"@, "caution"@, "important"@]
}

/// Obsidian's kinds that read as a tip.
pub open spec fn tip_like() -> Set<Seq<char>> {
    set!["tip"@, "hint"@, "success"@]
}

/// How an imported callout's kind is read: every kind becomes one of Quarto's five; a kind
/// Quarto has besides note is kept; tip, hint and success all become tip; anything Quarto does
/// not know, and that is not one of those, becomes note.
pub proof fn lemma_callout_kinds(k: Seq<char>)
    ensures
        quarto_kinds().contains(crate::import::map_kind(k)),
        tip_like().contains(k) ==> crate::import::map_kind(k) == "tip"@,
        quarto_kinds().contains(k) && k != "note"@ ==> crate::import::map_kind(k) == k,
        !quarto_kinds().contains(k) && !tip_like().contains(k) ==> crate::import::map_kind(k) == "note"@,
{
    reveal_strlit("note");
    reveal_strlit("tip");
    reveal_strlit("warning");
    reveal_strlit("caution");
    reveal_strlit("important");
    reveal_strlit("hint");
    reveal_strlit("success");
    assert("tip"@ =~= crate::import::kind_tip());
    assert("note"@ =~= crate::import::kind_note());
    assert("hint"@ =~= seq!['h', 'i', 'n', 't']);
    assert("success"@ =~= seq!['s', 'u', 'c', 'c', 'e', 's', 's']);
    assert("warning"@ =~= seq!['w', 'a', 'r', 'n', 'i', 'n', 'g']);
    assert("caution"@ =~= seq!['c', 'a', 'u', 't', 'i', 'o', 'n']);
    assert("important"@ =~= seq!['i', 'm', 'p', 'o', 'r', 't', 'a', 'n', 't']);
}

// ---- The ordinal day of a daily note's name ---------------------------------------------------

/// `Do` followed by `rest` writes the day, then `suffix`, then what `rest` writes.
pub open spec fn day_written(d: crate::daily::Date, rest: Seq<char>, suffix: Seq<char>) -> bool {
    crate::daily::format_date_spec(seq!['D', 'o'] + rest, d) == crate::numfmt::fmt_int(d.day as int, 0) + suffix
        + crate::daily::format_date_spec(rest, d)
}

proof fn lemma_do_token(rest: Seq<char>)
    ensures
        crate::daily::first_token(seq!['D', 'o'] + rest, 0) == Some(14int),
{
    let f = seq!['D', 'o'] + rest;
    assert(f[0] == 'D' && f[1] == 'o');
    assert forall|k: int| 0 <= k < 14 implies !starts_with(f, #[trigger] crate::daily::tokens()[k]) by {
        let tk = crate::daily::tokens()[k];
        if starts_with(f, tk) {
            assert(f.subrange(0, tk.len() as int) == tk);
            assert(tk.len() >= 2);
            assert(f.subrange(0, tk.len() as int)[0] == f[0]);
            assert(f.subrange(0, tk.len() as int)[1] == f[1]);
        }
    }
    assert(starts_with(f, crate::daily::tokens()[14])) by {
        assert(f.subrange(0, 2) =~= seq!['D', 'o']);
    }
    reveal_with_fuel(crate::daily::first_token, 16);
}

/// The day token `Do` writes the day with its English ordinal suffix: `st`, `nd`, `rd` after
/// a last digit 1, 2, 3, except in the teens (11th, 12th, 13th, 111th...), and `th` otherwise.
pub proof fn lemma_day_ordinal(d: crate::daily::Date, rest: Seq<char>)
    ensures
        (d.day / 10) % 10 == 1 ==> day_written(d, rest, "th"@),
        (d.day / 10) % 10 != 1 && d.day % 10 == 1 ==> day_written(d, rest, "st"@),
        (d.day / 10) % 10 != 1 && d.day % 10 == 2 ==> day_written(d, rest, "nd"@),
        (d.day / 10) % 10 != 1 && d.day % 10 == 3 ==> day_written(d, rest, "rd"@),
        d.day % 10 == 0 || d.day % 10 >= 4 ==> day_written(d, rest, "th"@),
{
    reveal_strlit("th");
    reveal_strlit("st");
    reveal_strlit("nd");
    reveal_strlit("rd");
    let f = seq!['D', 'o'] + rest;
    lemma_do_token(rest);
    assert(f.skip(0) =~= f);
    assert(f.skip(2) =~= rest);
    crate::daily::lemma_format_token_at_start(f, 14, d);
    reveal(crate::daily::token_text);
    let day = d.day as int;
    let m = day % 100;
    assert(m % 10 == day % 10 && m / 10 == (day / 10) % 10) by (nonlinear_arith)
        requires
            day >= 0,
            m == day % 100,
    ;
    assert(0 <= m < 100);
    assert(m / 10 == 1 <==> 10 <= m < 20) by (nonlinear_arith)
        requires
            0 <= m < 100,
    ;
    assert(seq!['t', 'h'] =~= "th"@);
    assert(seq!['s', 't'] =~= "st"@);
    assert(seq!['n', 'd'] =~= "nd"@);
    assert(seq!['r', 'd'] =~= "rd"@);
    let sfx = crate::daily::ordinal_suffix(day);
    if (d.day / 10) % 10 == 1 {
        assert(sfx == "th"@);
    }
    if (d.day / 10) % 10 != 1 && d.day % 10 == 1 {
        assert(sfx == "st"@);
    }
    if d.day % 10 == 0 || d.day % 10 >= 4 {
        assert(sfx == "th"@);
    }
}

// ---- Wikilinks after a rename ------------------------------------------------------------------

proof fn lemma_find_at(s: Seq<char>, p: Seq<char>, i: int, k: int)
    requires
        0 <= i <= k,
        is_at(s, p, k),
        forall|j: int| i <= j < k ==> !is_at(s, p, j),
    ensures
        crate::text::find_from(s, p, i) == Some(k),
    decreases k - i,
{
    if i < k {
        lemma_find_at(s, p, i + 1, k);
    }
}

proof fn lemma_find_none(s: Seq<char>, p: Seq<char>, i: int)
    requires
        0 <= i,
        p.len() > 0,
        forall|j: int| i <= j < s.len() ==> s[j] != p[0],
    ensures
        crate::text::find_from(s, p, i) is None,
    decreases s.len() + 1 - i,
{
    if i + p.len() <= s.len() {
        assert(!is_at(s, p, i)) by {
            if is_at(s, p, i) {
                assert(s.subrange(i, i + p.len())[0] == s[i]);
            }
        }
        lemma_find_none(s, p, i + 1);
    }
}

proof fn lemma_find_any_none(s: Seq<char>, i: int)
    requires
        0 <= i,
        free_of(s, '#') && free_of(s, '|'),
    ensures
        crate::text::find_any_from(s, seq!['#', '|'], i) is None,
    decreases s.len() - i,
{
    if i < s.len() {
        assert(!seq!['#', '|'].contains(s[i])) by {
            if seq!['#', '|'].contains(s[i]) {
                let k = choose|k: int| 0 <= k < 2 && seq!['#', '|'][k] == s[i];
                assert(k == 0 || k == 1);
            }
        }
        lemma_find_any_none(s, i + 1);
    }
}

/// `s` does not end with `p`.
pub open spec fn lacks_suffix(s: Seq<char>, p: Seq<char>) -> bool {
    !crate::text::ends_with(s, p)
}

proof fn lemma_stem_of(s: Seq<char>, ext: Seq<char>)
    requires
        ext == ".md"@ || ext == ".qmd"@,
        lacks_suffix(s, ".md"@),
        lacks_suffix(s, ".qmd"@),
    ensures
        crate::markdown::link_stem(s + ext) == s,
{
    reveal_strlit(".md");
    reveal_strlit(".qmd");
    let md = ".md"@;
    let qmd = ".qmd"@;
    let p = s + ext;
    assert(crate::text::trim_end_pat(s, md) == s);
    assert(crate::text::trim_end_pat(s, qmd) == s);
    if ext == md {
        assert(crate::text::ends_with(p, md)) by {
            assert(p.subrange(p.len() - 3, p.len() as int) =~= md);
        }
        assert(p.take(p.len() - md.len()) =~= s);
    } else {
        assert(!crate::text::ends_with(p, md)) by {
            if crate::text::ends_with(p, md) {
                assert(p.subrange(p.len() - 3, p.len() as int)[0] == p[p.len() - 3]);
                assert(p[p.len() - 3] == 'q');
            }
        }
        assert(crate::text::ends_with(p, qmd)) by {
            assert(p.subrange(p.len() - 4, p.len() as int) =~= qmd);
        }
        assert(p.take(p.len() - qmd.len()) =~= s);
    }
}

/// A name that can stand inside `[[...]]` as it is: no brackets, no `#` or `|`, no space or
/// other blank at its ends, and no `.md` or `.qmd` of its own at the end.
pub open spec fn plain_link_name(s: Seq<char>) -> bool {
    &&& s.len() > 0
    &&& free_of(s, '[') && free_of(s, ']') && free_of(s, '#') && free_of(s, '|')
    &&& crate::text::trim(s) == s
    &&& lacks_suffix(s, ".md"@) && lacks_suffix(s, ".qmd"@)
}

proof fn lemma_rewrite_from_plain(after: Seq<char>, old_path: Seq<char>, new_path: Seq<char>)
    requires
        free_of(after, '['),
    ensures
        crate::markdown::rewrite_from(after, old_path, new_path) == (after, false),
{
    reveal_strlit("[[");
    assert("[["@ =~= seq!['[', '[']);
    lemma_find_none(after, seq!['[', '['], 0);
}

proof fn lemma_link_target(stem: Seq<char>, new: Seq<char>, ext: Seq<char>)
    requires
        ext == ".md"@ || ext == ".qmd"@,
        plain_link_name(stem),
        plain_link_name(new),
    ensures
        crate::markdown::split_inner(stem) == (stem, Seq::<char>::empty()),
        crate::markdown::link_replacement(crate::text::trim(stem), stem + ext, new + ext) == Some(new),
{
    lemma_find_any_none(stem, 0);
    lemma_stem_of(stem, ext);
    lemma_stem_of(new, ext);
    reveal_strlit(".md");
    reveal_strlit(".qmd");
    assert(stem != stem + ext) by {
        assert((stem + ext).len() > stem.len());
    }
}

/// A link whose target the rename concerns is rewritten to the replacement, in text with no
/// other brackets.
#[verifier::rlimit(40)]
proof fn lemma_rename_link_core(
    x: Seq<char>,
    y: Seq<char>,
    target: Seq<char>,
    old_path: Seq<char>,
    new_path: Seq<char>,
    result: Seq<char>,
)
    requires
        free_of(x, '[') && free_of(y, '[') && free_of(y, ']'),
        target.len() > 0,
        free_of(target, '[') && free_of(target, ']') && free_of(target, '#') && free_of(target, '|'),
        crate::text::trim(target) == target,
        crate::markdown::link_replacement(target, old_path, new_path) == Some(result),
    ensures
        crate::markdown::rewrite_from(x + "[["@ + target + "]]"@ + y, old_path, new_path) == (x + "[["@ + result
            + "]]"@ + y, true),
{
    reveal_strlit("[[");
    reveal_strlit("]]");
    let op = seq!['[', '['];
    let cl = seq![']', ']'];
    assert("[["@ =~= op);
    assert("]]"@ =~= cl);
    let t = x + op + target + cl + y;
    assert(x + "[["@ + target + "]]"@ + y =~= t);
    assert(x + "[["@ + result + "]]"@ + y =~= x + op + result + cl + y);
    let i = x.len() as int;
    assert forall|j: int| 0 <= j < i implies !is_at(t, op, j) by {
        if is_at(t, op, j) {
            assert(t.subrange(j, j + 2)[0] == t[j]);
            assert(t[j] == x[j]);
        }
    }
    assert(is_at(t, op, i)) by {
        assert(t.subrange(i, i + 2) =~= op);
    }
    lemma_find_at(t, op, 0, i);
    let r2 = t.skip(i + 2);
    assert(r2 =~= target + cl + y);
    assert(t.take(i + 2) =~= x + op);
    let n = target.len() as int;
    assert forall|j: int| 0 <= j < n implies !is_at(r2, cl, j) by {
        if is_at(r2, cl, j) {
            assert(r2.subrange(j, j + 2)[0] == r2[j]);
            assert(r2[j] == target[j]);
        }
    }
    assert(is_at(r2, cl, n)) by {
        assert(r2.subrange(n, n + 2) =~= cl);
    }
    lemma_find_at(r2, cl, 0, n);
    assert(r2.take(n) =~= target);
    lemma_find_any_none(target, 0);
    assert(crate::markdown::split_inner(target) == (target, Seq::<char>::empty()));
    let after = r2.skip(n);
    assert(after =~= cl + y);
    assert(free_of(after, '[')) by {
        assert forall|j: int| 0 <= j < after.len() implies after[j] != '[' by {
            if j >= 2 {
                assert(after[j] == y[j - 2]);
            }
        }
    }
    lemma_rewrite_from_plain(after, old_path, new_path);
    assert(x + op + (result + Seq::<char>::empty()) + after =~= x + op + result + cl + y);
}

/// Renaming a note rewrites a link to it by its name without the extension, for Markdown and
/// Quarto notes alike: in text with no other brackets, `[[stem]]` for the note `stem.md` or
/// `stem.qmd` becomes `[[new]]` when the note becomes `new` with the same extension, and the
/// rename reports a change.
pub proof fn lemma_rename_rewrites_stem_link(
    x: Seq<char>,
    y: Seq<char>,
    stem: Seq<char>,
    new: Seq<char>,
    ext: Seq<char>,
)
    requires
        ext == ".md"@ || ext == ".qmd"@,
        free_of(x, '[') && free_of(y, '[') && free_of(y, ']'),
        plain_link_name(stem),
        plain_link_name(new),
    ensures
        crate::markdown::rewrite_from(x + "[["@ + stem + "]]"@ + y, stem + ext, new + ext) == (x + "[["@ + new
            + "]]"@ + y, true),
{
    lemma_link_target(stem, new, ext);
    lemma_rename_link_core(x, y, stem, stem + ext, new + ext, new);
}

/// A link that names the renamed note by its whole path, extension included, is rewritten to
/// the new name without the extension: `[[stem.qmd]]` becomes `[[new]]`.
pub proof fn lemma_rename_rewrites_full_path_link(
    x: Seq<char>,
    y: Seq<char>,
    stem: Seq<char>,
    new: Seq<char>,
    ext: Seq<char>,
)
    requires
        ext == ".md"@ || ext == ".qmd"@,
        free_of(x, '[') && free_of(y, '[') && free_of(y, ']'),
        plain_link_name(stem),
        !crate::text::is_ws(stem[0]),
        plain_link_name(new),
    ensures
        crate::markdown::rewrite_from(x + "[["@ + (stem + ext) + "]]"@ + y, stem + ext, new + ext) == (x + "[["@
            + new + "]]"@ + y, true),
{
    reveal_strlit(".md");
    reveal_strlit(".qmd");
    let p = stem + ext;
    lemma_stem_of(new, ext);
    assert(free_of(p, '[') && free_of(p, ']') && free_of(p, '#') && free_of(p, '|')) by {
        assert forall|k: int| 0 <= k < p.len() implies p[k] != '[' && p[k] != ']' && p[k] != '#' && p[k] != '|' by {
            if k < stem.len() {
                assert(p[k] == stem[k]);
            } else {
                assert(p[k] == ext[k - stem.len()]);
            }
        }
    }
    assert(crate::text::trim_start(p) == p) by {
        assert(p[0] == stem[0]);
    }
    assert(crate::text::trim_end(p) == p) by {
        assert(p.last() == 'd');
    }
    assert(crate::markdown::link_replacement(p, p, new + ext) == Some(new));
    lemma_rename_link_core(x, y, p, p, new + ext, new);
}

} // verus!
