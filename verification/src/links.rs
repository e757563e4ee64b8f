//! Links between files of the vault: a relative link written from one note, read back from
//! that note, names the file it was written for.
use vstd::prelude::*;
use crate::files::{common_len, relative_link_spec};
use crate::text::{join, split};

verus! {

broadcast use vstd::seq_lib::group_seq_properties;

/// `s` has no `c`.
pub open spec fn lacks(s: Seq<char>, c: char) -> bool {
    forall|i: int| 0 <= i < s.len() ==> s[i] != c
}

proof fn lemma_split_whole(a: Seq<char>, c: char)
    requires
        lacks(a, c),
    ensures
        split(a, c) == seq![a],
    decreases a.len(),
{
    if a.len() > 0 {
        lemma_split_whole(a.drop_last(), c);
        assert(a.drop_last().push(a.last()) =~= a);
        assert(seq![a.drop_last()].update(0, a) =~= seq![a]);
    } else {
        assert(a =~= Seq::<char>::empty());
    }
}

proof fn lemma_split_concat(a: Seq<char>, b: Seq<char>, c: char)
    ensures
        split(a + seq![c] + b, c) == split(a, c) + split(b, c),
    decreases b.len(),
{
    let s = a + seq![c] + b;
    if b.len() == 0 {
        assert(s.drop_last() =~= a);
        assert(b =~= Seq::<char>::empty());
        assert(split(a, c).push(Seq::<char>::empty()) =~= split(a, c) + seq![Seq::<char>::empty()]);
    } else {
        lemma_split_concat(a, b.drop_last(), c);
        assert(s.drop_last() =~= a + seq![c] + b.drop_last());
        let ra = split(a, c);
        let rb = split(b.drop_last(), c);
        crate::text::lemma_split_len(b.drop_last(), c);
        if b.last() == c {
            assert((ra + rb).push(Seq::<char>::empty()) =~= ra + rb.push(Seq::<char>::empty()));
        } else {
            let x = b.last();
            assert((ra + rb).update((ra + rb).len() - 1, (ra + rb).last().push(x)) =~= ra + rb.update(
                rb.len() - 1,
                rb.last().push(x),
            ));
        }
    }
}

proof fn lemma_split_join(ss: Seq<Seq<char>>, c: char)
    requires
        ss.len() >= 1,
        forall|i: int| 0 <= i < ss.len() ==> lacks(#[trigger] ss[i], c),
    ensures
        split(join(ss, seq![c]), c) == ss,
    decreases ss.len(),
{
    if ss.len() == 1 {
        assert(lacks(ss[0], c));
        lemma_split_whole(ss[0], c);
        assert(seq![ss[0]] =~= ss);
    } else {
        let init = ss.drop_last();
        assert forall|i: int| 0 <= i < init.len() implies lacks(#[trigger] init[i], c) by {
            assert(init[i] == ss[i]);
        }
        lemma_split_join(init, c);
        assert(lacks(ss[ss.len() - 1], c));
        lemma_split_concat(join(init, seq![c]), ss.last(), c);
        lemma_split_whole(ss.last(), c);
        assert(init + seq![ss.last()] =~= ss);
    }
}

proof fn lemma_join_split(s: Seq<char>, c: char)
    ensures
        join(split(s, c), seq![c]) == s,
    decreases s.len(),
{
    if s.len() > 0 {
        lemma_join_split(s.drop_last(), c);
        let r = split(s.drop_last(), c);
        crate::text::lemma_split_len(s.drop_last(), c);
        let x = s.last();
        if x == c {
            let r2 = r.push(Seq::<char>::empty());
            assert(r2.drop_last() =~= r);
            assert(join(r2, seq![c]) =~= s.drop_last() + seq![c] + Seq::<char>::empty());
            assert(s.drop_last() + seq![c] + Seq::<char>::empty() =~= s);
        } else {
            let r2 = r.update(r.len() - 1, r.last().push(x));
            if r.len() == 1 {
                assert(join(r2, seq![c]) == r2[0]);
                assert(r2[0] =~= s);
            } else {
                assert(r2.drop_last() =~= r.drop_last());
                assert(join(r2, seq![c]) =~= join(r.drop_last(), seq![c]) + seq![c] + r.last().push(x));
                assert(join(r, seq![c]) == join(r.drop_last(), seq![c]) + seq![c] + r.last());
                assert(join(r.drop_last(), seq![c]) + seq![c] + r.last().push(x) =~= join(r, seq![c]).push(x));
                assert(s.drop_last().push(x) =~= s);
            }
        }
    } else {
        assert(split(s, c) =~= seq![Seq::<char>::empty()]);
    }
}

/// The walk of `segs` from where `p` stands (see `walk_segs`).
pub open spec fn walk_on(p: Option<Seq<Seq<char>>>, segs: Seq<Seq<char>>) -> Option<Seq<Seq<char>>>
    decreases segs.len(),
{
    if segs.len() == 0 {
        p
    } else {
        match walk_on(p, segs.drop_last()) {
            Some(q) => crate::projection::seg_step(q, segs.last()),
            None => None,
        }
    }
}

/// A segment that names a folder or a file: not empty, not `.` or `..`, without `/`.
pub open spec fn plain_seg(s: Seq<char>) -> bool {
    s.len() > 0 && s != crate::projection::dot() && s != crate::projection::dotdot() && lacks(s, '/')
}

/// A vault-relative path of plain segments.
pub open spec fn plain_path(p: Seq<char>) -> bool {
    forall|i: int| 0 <= i < split(p, '/').len() ==> plain_seg(#[trigger] split(p, '/')[i])
}

proof fn lemma_walk_segs_on(segs: Seq<Seq<char>>)
    ensures
        crate::projection::walk_segs(segs) == walk_on(Some(Seq::empty()), segs),
    decreases segs.len(),
{
    if segs.len() > 0 {
        lemma_walk_segs_on(segs.drop_last());
    }
}

proof fn lemma_walk_on_concat(p: Option<Seq<Seq<char>>>, a: Seq<Seq<char>>, b: Seq<Seq<char>>)
    ensures
        walk_on(p, a + b) == walk_on(walk_on(p, a), b),
    decreases b.len(),
{
    if b.len() == 0 {
        assert(a + b =~= a);
    } else {
        lemma_walk_on_concat(p, a, b.drop_last());
        assert((a + b).drop_last() =~= a + b.drop_last());
        assert((a + b).last() == b.last());
    }
}

proof fn lemma_walk_on_plain(q: Seq<Seq<char>>, b: Seq<Seq<char>>)
    requires
        forall|i: int| 0 <= i < b.len() ==> plain_seg(#[trigger] b[i]),
    ensures
        walk_on(Some(q), b) == Some(q + b),
    decreases b.len(),
{
    if b.len() == 0 {
        assert(q + b =~= q);
    } else {
        let init = b.drop_last();
        assert forall|i: int| 0 <= i < init.len() implies plain_seg(#[trigger] init[i]) by {
            assert(init[i] == b[i]);
        }
        lemma_walk_on_plain(q, init);
        assert(plain_seg(b[b.len() - 1]));
        assert((q + init).push(b.last()) =~= q + b);
    }
}

proof fn lemma_walk_on_ups(q: Seq<Seq<char>>, k: nat)
    requires
        k <= q.len(),
    ensures
        walk_on(Some(q), Seq::new(k, |i: int| crate::projection::dotdot())) == Some(q.take(q.len() - k)),
    decreases k,
{
    let ups = Seq::new(k, |i: int| crate::projection::dotdot());
    if k == 0 {
        assert(q.take(q.len() as int) =~= q);
    } else {
        let fewer = Seq::new((k - 1) as nat, |i: int| crate::projection::dotdot());
        assert(ups.drop_last() =~= fewer);
        lemma_walk_on_ups(q, (k - 1) as nat);
        assert(q.take(q.len() - (k - 1)).drop_last() =~= q.take(q.len() - k));
        assert(crate::projection::dotdot().len() != crate::projection::dot().len());
    }
}

proof fn lemma_common_prefix(a: Seq<Seq<char>>, b: Seq<Seq<char>>)
    ensures
        common_len(a, b) <= a.len(),
        common_len(a, b) <= b.len(),
        a.take(common_len(a, b) as int) == b.take(common_len(a, b) as int),
    decreases a.len(),
{
    if a.len() == 0 || b.len() == 0 || a[0] != b[0] {
        assert(a.take(0) =~= b.take(0));
    } else {
        lemma_common_prefix(a.drop_first(), b.drop_first());
        let c = common_len(a, b) as int;
        assert(a.take(c) =~= seq![a[0]] + a.drop_first().take(c - 1));
        assert(b.take(c) =~= seq![b[0]] + b.drop_first().take(c - 1));
    }
}

proof fn lemma_rfind_last(j: Seq<char>, last: Seq<char>, end: int)
    requires
        lacks(last, '/'),
        j.len() < end <= j.len() + 1 + last.len() + 1,
    ensures
        crate::text::rfind_before(j + seq!['/'] + last, seq!['/'], end) == Some(j.len() as int),
    decreases end,
{
    let s = j + seq!['/'] + last;
    if end - 1 == j.len() {
        assert(s.subrange(j.len() as int, j.len() + 1int) =~= seq!['/']);
    } else {
        assert(!crate::text::is_at(s, seq!['/'], end - 1)) by {
            if end <= s.len() {
                assert(s[end - 1] == last[end - 1 - j.len() - 1]);
                assert(s.subrange(end - 1, end)[0] == s[end - 1]);
            }
        }
        lemma_rfind_last(j, last, end - 1);
    }
}

proof fn lemma_rfind_none(s: Seq<char>, end: int)
    requires
        lacks(s, '/'),
        end <= s.len() + 1,
    ensures
        crate::text::rfind_before(s, seq!['/'], end) is None,
    decreases end,
{
    if end > 0 {
        assert(!crate::text::is_at(s, seq!['/'], end - 1)) by {
            if 0 <= end - 1 && end <= s.len() {
                assert(s.subrange(end - 1, end)[0] == s[end - 1]);
            }
        }
        lemma_rfind_none(s, end - 1);
    }
}

proof fn lemma_lacks_join(ss: Seq<Seq<char>>, c: char, d: char)
    requires
        c != d,
        forall|i: int| 0 <= i < ss.len() ==> lacks(#[trigger] ss[i], d),
    ensures
        lacks(join(ss, seq![c]), d),
    decreases ss.len(),
{
    if ss.len() > 1 {
        let init = ss.drop_last();
        assert forall|i: int| 0 <= i < init.len() implies lacks(#[trigger] init[i], d) by {
            assert(init[i] == ss[i]);
        }
        lemma_lacks_join(init, c, d);
        assert(lacks(ss[ss.len() - 1], d));
    } else if ss.len() == 1 {
        assert(lacks(ss[0], d));
    }
}

proof fn lemma_join_first(ss: Seq<Seq<char>>, c: char)
    requires
        ss.len() >= 1,
        ss[0].len() > 0,
    ensures
        join(ss, seq![c]).len() > 0,
        join(ss, seq![c])[0] == ss[0][0],
    decreases ss.len(),
{
    if ss.len() > 1 {
        lemma_join_first(ss.drop_last(), c);
    }
}

/// A link written from the note at `note_path` to the file `to` (both vault-relative paths of
/// plain segments: none empty, `.` or `..`) and read back from that note names `to`.
pub proof fn lemma_relative_link_round_trip(note_path: Seq<char>, to: Seq<char>)
    requires
        plain_path(note_path),
        plain_path(to),
    ensures
        crate::projection::normalize_relative_spec(note_path, relative_link_spec(note_path, to)) == Some(to),
{
    let ps = split(note_path, '/');
    let from = ps.drop_last();
    let ts = split(to, '/');
    let dirs = ts.drop_last();
    crate::text::lemma_split_len(note_path, '/');
    crate::text::lemma_split_len(to, '/');
    let last = ts.last();
    assert(plain_seg(ts[ts.len() - 1]));
    let c = common_len(from, dirs);
    lemma_common_prefix(from, dirs);
    let k = (from.len() - c) as nat;
    let ups = Seq::new(k, |i: int| crate::projection::dotdot());
    let rest = dirs.skip(c as int);
    let segs = ups + rest + seq![last];
    let l = join(segs, seq!['/']);
    assert(relative_link_spec(note_path, to) == l);
    assert forall|i: int| 0 <= i < from.len() implies plain_seg(#[trigger] from[i]) by {
        assert(from[i] == ps[i]);
        assert(plain_seg(ps[i]));
    }
    assert forall|i: int| 0 <= i < rest.len() implies plain_seg(#[trigger] rest[i]) by {
        assert(rest[i] == ts[i + c]);
        assert(plain_seg(ts[i + c]));
    }
    assert forall|i: int| 0 <= i < segs.len() implies lacks(#[trigger] segs[i], '/') by {
        if i < k {
            assert(segs[i] == crate::projection::dotdot());
        } else if i < k + rest.len() {
            assert(segs[i] == rest[i - k]);
        } else {
            assert(segs[i] == last);
        }
    }
    // The link does not start at the root.
    assert(segs[0].len() > 0 && segs[0][0] != '/') by {
        if k > 0 {
            assert(segs[0] == crate::projection::dotdot());
        } else if rest.len() > 0 {
            assert(segs[0] == rest[0]);
        } else {
            assert(segs[0] == last);
        }
        assert(lacks(segs[0], '/'));
    }
    lemma_join_first(segs, '/');
    assert(!crate::text::starts_with(l, seq!['/'])) by {
        if crate::text::starts_with(l, seq!['/']) {
            assert(l.subrange(0, 1)[0] == l[0]);
        }
    }
    lemma_split_join(segs, '/');
    // The folder of the note, as a path, and its segments.
    lemma_join_split(note_path, '/');
    let base = crate::projection::parent_dir(note_path);
    let jf = join(from, seq!['/']);
    assert forall|i: int| 0 <= i < from.len() implies lacks(#[trigger] from[i], '/') by {
        assert(plain_seg(from[i]));
    }
    assert(lacks(ps[ps.len() - 1], '/')) by {
        assert(plain_seg(ps[ps.len() - 1]));
    }
    if ps.len() == 1 {
        assert(note_path == ps[0]);
        lemma_rfind_none(note_path, note_path.len() + 1int);
        assert(base.len() == 0);
        assert(from.len() == 0);
        assert(from + segs =~= segs);
        let joined = l;
        assert(split(joined, '/') == from + segs);
    } else {
        assert(note_path == jf + seq!['/'] + ps.last()) by {
            assert(ps.drop_last() == from);
        }
        lemma_rfind_last(jf, ps.last(), note_path.len() + 1int);
        assert(base == note_path.take(jf.len() as int));
        assert(base =~= jf);
        assert(plain_seg(from[0]));
        lemma_join_first(from, '/');
        assert(base.len() > 0);
        lemma_split_concat(jf, l, '/');
        lemma_split_join(from, '/');
        assert(split(base + seq!['/'] + l, '/') == from + segs);
    }
    // Walking the segments: down the note's folder, up out of what it does not share, down to
    // the file.
    lemma_walk_segs_on(from + segs);
    assert(from + segs =~= from + (ups + (rest + seq![last])));
    lemma_walk_on_concat(Some(Seq::empty()), from, ups + (rest + seq![last]));
    lemma_walk_on_plain(Seq::empty(), from);
    assert(Seq::<Seq<char>>::empty() + from =~= from);
    lemma_walk_on_concat(Some(from), ups, rest + seq![last]);
    lemma_walk_on_ups(from, k);
    let kept = from.take(from.len() - k);
    assert(kept == dirs.take(c as int));
    assert forall|i: int| 0 <= i < (rest + seq![last]).len() implies plain_seg(#[trigger] (rest + seq![last])[i]) by {
        if i < rest.len() {
            assert((rest + seq![last])[i] == rest[i]);
        } else {
            assert((rest + seq![last])[i] == last);
        }
    }
    lemma_walk_on_plain(kept, rest + seq![last]);
    assert(kept + (rest + seq![last]) =~= ts);
    lemma_join_split(to, '/');
}

} // verus!
