//! Ids that stay put: a note that has been given its id in front matter is left alone by the
//! next normalization, and reads back the id it was given.
use vstd::prelude::*;
use crate::frontmatter::{all_ids, block_chars, closing_fence, dedupe_spec, id_of_spec, id_value, is_fence_line, line_end, normalize_spec, opening, first_id};
use crate::text::{find_from, is_at, is_ws, lines, split_inclusive, starts_with, strip_end_set, strip_line_end, strip_prefix, strip_set, strip_start_set, strip_suffix, trim, trim_end, trim_start};

verus! {

broadcast use vstd::seq_lib::group_seq_properties;

/// `s` has no `c`.
pub open spec fn has_no(s: Seq<char>, c: char) -> bool {
    forall|i: int| 0 <= i < s.len() ==> s[i] != c
}

/// An id that can stand on an `id:` line as it is: on one line, and neither spaces nor quotes
/// at its ends.
pub open spec fn plain_id(id: Seq<char>) -> bool {
    &&& has_no(id, '\n')
    &&& has_no(id, '\r')
    &&& trim(id) == id
    &&& strip_set(id, seq!['"', '\'']) == id
}

/// The front matter `normalize` puts before a note that has none.
pub open spec fn id_header(id: Seq<char>) -> Seq<char> {
    seq!['-', '-', '-', '\n', 'i', 'd', ':', ' '] + id + seq!['\n', '-', '-', '-', '\n']
}

proof fn lemma_split_inclusive_one(s: Seq<char>)
    requires
        s.len() > 0,
        has_no(s.drop_last(), '\n'),
    ensures
        split_inclusive(s, '\n') == seq![s],
    decreases s.len(),
{
    if s.len() == 1 {
        assert(s.drop_last() =~= Seq::<char>::empty());
        assert(split_inclusive(s.drop_last(), '\n') == Seq::<Seq<char>>::empty());
        assert(seq![s.last()] =~= s);
    } else {
        let p = s.drop_last();
        assert(has_no(p.drop_last(), '\n')) by {
            assert forall|i: int| 0 <= i < p.drop_last().len() implies p.drop_last()[i] != '\n' by {
                assert(p.drop_last()[i] == p[i]);
            }
        }
        lemma_split_inclusive_one(p);
        assert(p.last() == s.drop_last()[p.len() - 1]);
        assert(p.last() != '\n');
        assert(split_inclusive(p, '\n').len() == 1);
        assert(p.push(s.last()) =~= s);
        assert(seq![p].update(0, s) =~= seq![s]);
    }
}

proof fn lemma_trim_start_space(x: Seq<char>)
    ensures
        trim_start(seq![' '] + x) == trim_start(x),
{
    assert((seq![' '] + x).drop_first() =~= x);
}

proof fn lemma_find_newline(s: Seq<char>, i: int, k: int)
    requires
        0 <= i <= k < s.len(),
        s[k] == '\n',
        forall|j: int| i <= j < k ==> s[j] != '\n',
    ensures
        find_from(s, seq!['\n'], i) == Some(k),
    decreases k - i,
{
    if i < k {
        assert(!is_at(s, seq!['\n'], i)) by {
            assert(s.subrange(i, i + 1)[0] == s[i]);
        }
        lemma_find_newline(s, i + 1, k);
    } else {
        assert(s.subrange(k, k + 1) =~= seq!['\n']);
    }
}

proof fn lemma_not_line_end(x: char)
    requires
        x != '\n' && x != '\r',
    ensures
        !seq!['\n', '\r'].contains(x),
{
    if seq!['\n', '\r'].contains(x) {
        let k = choose|k: int| 0 <= k < 2 && seq!['\n', '\r'][k] == x;
        assert(k == 0 || k == 1);
    }
}

proof fn lemma_strip_end_one(x: Seq<char>, c: char)
    requires
        x.len() > 0,
        x.last() != '\n' && x.last() != '\r',
        c == '\n',
    ensures
        strip_end_set(x.push(c), seq!['\n', '\r']) == x,
{
    assert(seq!['\n', '\r'][0] == c);
    assert(seq!['\n', '\r'].contains(x.push(c).last()));
    assert(x.push(c).drop_last() =~= x);
    lemma_not_line_end(x.last());
    assert(strip_end_set(x, seq!['\n', '\r']) == x);
    assert(strip_end_set(x.push(c), seq!['\n', '\r']) == strip_end_set(x.push(c).drop_last(), seq!['\n', '\r']));
}

/// The `id:` line of the header: one line, reading back the id.
proof fn lemma_id_line(id: Seq<char>)
    requires
        plain_id(id),
    ensures
        lines(seq!['i', 'd', ':', ' '] + id + seq!['\n']) == seq![seq!['i', 'd', ':', ' '] + id],
        id_value(seq!['i', 'd', ':', ' '] + id) == Some(id),
        !is_fence_line(seq!['i', 'd', ':', ' '] + id + seq!['\n']),
{
    let line = seq!['i', 'd', ':', ' '] + id + seq!['\n'];
    let l0 = seq!['i', 'd', ':', ' '] + id;
    let n = id.len();
    assert(line.drop_last() =~= l0);
    assert(l0.len() > 0 && l0.last() != '\n' && l0.last() != '\r') by {
        if n > 0 {
            assert(l0.last() == id[n - 1]);
        }
    }
    lemma_not_line_end(l0.last());
    assert(has_no(line.drop_last(), '\n')) by {
        assert forall|i: int| 0 <= i < line.drop_last().len() implies line.drop_last()[i] != '\n' by {
            if i >= 4 {
                assert(line.drop_last()[i] == id[i - 4]);
            }
        }
    }
    lemma_split_inclusive_one(line);
    assert(strip_suffix(line, seq!['\n']) == Some(l0)) by {
        assert(line.subrange(line.len() - 1, line.len() as int) =~= seq!['\n']);
        assert(line.take(line.len() - 1) =~= l0);
    }
    assert(!crate::text::ends_with(l0, seq!['\r'])) by {
        if crate::text::ends_with(l0, seq!['\r']) {
            assert(l0.subrange(l0.len() - 1, l0.len() as int)[0] == l0.last());
        }
    }
    assert(strip_line_end(line) == l0);
    assert(lines(line) =~= seq![l0]);
    assert(strip_prefix(l0, seq!['i', 'd', ':']) == Some(seq![' '] + id)) by {
        assert(l0.subrange(0, 3) =~= seq!['i', 'd', ':']);
        assert(l0.skip(3) =~= seq![' '] + id);
    }
    lemma_trim_start_space(id);
    assert(trim(seq![' '] + id) == id);
    assert(l0.push('\n') =~= line);
    lemma_strip_end_one(l0, '\n');
    assert(l0[0] == 'i');
}

/// Where the header's block lies in a note it heads.
proof fn lemma_header_block(t: Seq<char>, id: Seq<char>)
    requires
        plain_id(id),
    ensures
        block_chars(id_header(id) + t) == Some((4int, 9 + id.len() as int, 13 + id.len() as int)),
        (id_header(id) + t).subrange(4, 9 + id.len() as int) == seq!['i', 'd', ':', ' '] + id + seq!['\n'],
        (id_header(id) + t).skip(13 + id.len() as int) == t,
{
    let u = id_header(id) + t;
    let n: int = id.len() as int;
    let a: int = 9 + n;
    let line = seq!['i', 'd', ':', ' '] + id + seq!['\n'];
    assert(u.subrange(0, 4) =~= seq!['-', '-', '-', '\n']);
    assert(!starts_with(u, seq!['-', '-', '-', '\r', '\n'])) by {
        if starts_with(u, seq!['-', '-', '-', '\r', '\n']) {
            assert(u.subrange(0, 5)[3] == u[3]);
        }
    }
    assert(opening(u) == Some(4int));
    assert forall|j: int| 4 <= j < a - 1 implies u[j] != '\n' by {
        if j >= 8 {
            assert(u[j] == id[j - 8]);
        }
    }
    lemma_find_newline(u, 4, a - 1);
    assert(u.subrange(4, a) =~= line);
    lemma_id_line(id);
    lemma_find_newline(u, a, a + 3);
    assert(u.subrange(a, a + 4) =~= seq!['-', '-', '-', '\n']);
    assert(seq!['-', '-', '-'].push('\n') =~= seq!['-', '-', '-', '\n']);
    lemma_strip_end_one(seq!['-', '-', '-'], '\n');
    assert(closing_fence(u, a) == Some((a, a + 4)));
    assert(closing_fence(u, 4) == Some((a, a + 4)));
    assert(u.skip(a + 4) =~= t);
}

/// A note without front matter, given its id by `normalize`, reads back that id, and a second
/// `normalize` with the same id leaves it as it is.
#[verifier::rlimit(40)]
pub proof fn lemma_normalize_settles(t: Seq<char>, id: Seq<char>)
    requires
        block_chars(t) is None,
        plain_id(id),
    ensures
        normalize_spec(t, id) == Some(id_header(id) + t),
        id_of_spec(id_header(id) + t) == Some(id),
        normalize_spec(id_header(id) + t, id) is None,
{
    let u = id_header(id) + t;
    let l0 = seq!['i', 'd', ':', ' '] + id;
    assert(dedupe_spec(t) is None);
    assert(normalize_spec(t, id) =~= Some(u));
    lemma_header_block(t, id);
    lemma_id_line(id);
    assert(all_ids(seq![l0]) =~= seq![id]) by {
        assert(seq![l0].drop_last() =~= Seq::<Seq<char>>::empty());
        assert(all_ids(Seq::<Seq<char>>::empty()) == Seq::<Seq<char>>::empty());
        assert(seq![l0].last() == l0);
        assert(id_value(l0) == Some(id));
        assert(all_ids(seq![l0]) == all_ids(seq![l0].drop_last()).push(id));
    }
    assert(first_id(seq![l0]) == Some(id));
    let yaml = u.subrange(4, 9 + id.len() as int);
    assert(crate::frontmatter::drop_copies(t, yaml) == (t, false));
    assert(dedupe_spec(u) is None);
    assert(id_of_spec(u) == Some(id));
    assert(all_ids(lines(yaml)) =~= seq![id]);
}

} // verus!
