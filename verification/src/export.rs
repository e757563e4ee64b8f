//! Exporting a vault as a zip archive: which files go in, in which order, and what the export
//! reports. Writing the archive is the caller's.
use vstd::prelude::*;
use crate::numfmt::{fmt_int, fmt_u64};
use crate::remote::{lemma_text_lt_total, lemma_text_lt_trans, text_less, text_lt};
use crate::text::{chars_of, join_strs, string_of};

verus! {

/// What an export wrote.
#[derive(Debug, Clone, PartialEq, Eq)]
pub struct ExportReport {
    /// Files written into the archive.
    pub files: usize,
    /// Total uncompressed bytes.
    pub bytes: u64,
}

impl Default for ExportReport {
    fn default() -> (r: Self)
        ensures
            r.files == 0,
            r.bytes == 0,
    {
        ExportReport { files: 0, bytes: 0 }
    }
}

impl ExportReport {
    /// One more file of `n` bytes.
    pub fn record(&mut self, n: u64)
        requires
            old(self).files < usize::MAX,
            old(self).bytes + n <= u64::MAX,
        ensures
            final(self).files == old(self).files + 1,
            final(self).bytes == old(self).bytes + n,
    {
        self.files = self.files + 1;
        self.bytes = self.bytes + n;
    }

    /// `exported <n> file(s) (<bytes> bytes uncompressed)`.
    pub fn message(&self) -> (r: String)
        ensures
            r@ == "exported "@ + fmt_int(self.files as int, 0) + " file"@ + (if self.files == 1 {
                ""@
            } else {
                "s"@
            }) + " ("@ + fmt_int(self.bytes as int, 0) + " bytes uncompressed)"@,
    {
        let a = join_strs("exported ", string_of(&fmt_u64(self.files as u64)).as_str());
        let b = join_strs(a.as_str(), " file");
        let c = join_strs(
            b.as_str(),
            if self.files == 1 {
                ""
            } else {
                "s"
            },
        );
        let d = join_strs(join_strs(c.as_str(), " (").as_str(), string_of(&fmt_u64(self.bytes)).as_str());
        join_strs(d.as_str(), " bytes uncompressed)")
    }
}

/// Texts in strictly increasing order: sorted, each once.
pub open spec fn strictly_sorted(v: Seq<String>) -> bool {
    forall|i: int, j: int| 0 <= i < j < v.len() ==> text_lt(#[trigger] v[i]@, #[trigger] v[j]@)
}

/// The texts a sequence of strings holds, as a set.
pub open spec fn view_set(v: Seq<String>) -> Set<Seq<char>> {
    Set::new(|t: Seq<char>| exists|k: int| 0 <= k < v.len() && (#[trigger] v[k])@ == t)
}

proof fn lemma_view_set_push(v: Seq<String>, n: int)
    requires
        0 <= n < v.len(),
    ensures
        view_set(v.take(n + 1)) == view_set(v.take(n)).insert(v[n]@),
{
    let a = v.take(n + 1);
    let b = v.take(n);
    assert forall|t: Seq<char>| view_set(a).contains(t) <==> #[trigger] view_set(b).insert(v[n]@).contains(t) by {
        if view_set(a).contains(t) {
            let k = choose|k: int| 0 <= k < a.len() && (#[trigger] a[k])@ == t;
            if k < n {
                assert(b[k] == a[k]);
            }
        }
        if view_set(b).contains(t) {
            let k = choose|k: int| 0 <= k < b.len() && (#[trigger] b[k])@ == t;
            assert(a[k] == b[k]);
        }
        if t == v[n]@ {
            assert(a[n] == v[n]);
        }
    }
    assert(view_set(a) =~= view_set(b).insert(v[n]@));
}

proof fn lemma_insert_keeps_order(before: Seq<String>, after: Seq<String>, p: int, x: Seq<char>)
    requires
        0 <= p <= before.len(),
        strictly_sorted(before),
        after == before.insert(p, after[p]),
        after[p]@ == x,
        forall|k: int| 0 <= k < p ==> text_lt((#[trigger] before[k])@, x),
        forall|k: int| p <= k < before.len() ==> text_lt(x, (#[trigger] before[k])@),
    ensures
        strictly_sorted(after),
        view_set(after) == view_set(before).insert(x),
{
    assert forall|a: int, b: int| 0 <= a < b < after.len() implies text_lt(
        #[trigger] after[a]@,
        #[trigger] after[b]@,
    ) by {
        if b < p {
            assert(after[a] == before[a] && after[b] == before[b]);
        } else if b == p {
            assert(after[a] == before[a]);
        } else if a == p {
            assert(after[b] == before[b - 1]);
        } else if a < p {
            assert(after[a] == before[a] && after[b] == before[b - 1]);
        } else {
            assert(after[a] == before[a - 1] && after[b] == before[b - 1]);
        }
    }
    assert forall|t: Seq<char>| view_set(after).contains(t) <==> #[trigger] view_set(before).insert(x).contains(t) by {
        if view_set(after).contains(t) {
            let k = choose|k: int| 0 <= k < after.len() && (#[trigger] after[k])@ == t;
            if k < p {
                assert(after[k] == before[k]);
            } else if k > p {
                assert(after[k] == before[k - 1]);
            }
        }
        if view_set(before).contains(t) {
            let k = choose|k: int| 0 <= k < before.len() && (#[trigger] before[k])@ == t;
            if k < p {
                assert(after[k] == before[k]);
            } else {
                assert(after[k + 1] == before[k]);
            }
        }
    }
    assert(view_set(after) =~= view_set(before).insert(x));
}

/// Adds `s` to a strictly sorted vector unless a string with its text is there already.
fn insert_sorted(out: &mut Vec<String>, s: &str)
    requires
        strictly_sorted(old(out)@),
    ensures
        strictly_sorted(final(out)@),
        view_set(final(out)@) == view_set(old(out)@).insert(s@),
{
    let x = chars_of(s);
    let mut p: usize = 0;
    while p < out.len() && text_less(&chars_of(out[p].as_str()), &x)
        invariant
            p <= out@.len(),
            x@ == s@,
            forall|k: int| 0 <= k < p ==> text_lt((#[trigger] out@[k])@, x@),
        decreases out@.len() - p,
    {
        p += 1;
    }
    let ghost before = out@;
    if p < out.len() && crate::text::eq(&chars_of(out[p].as_str()), &x) {
        proof {
            assert(view_set(before).contains(s@));
            assert(view_set(before).insert(s@) =~= view_set(before));
        }
        return;
    }
    proof {
        assert forall|k: int| p <= k < before.len() implies text_lt(x@, (#[trigger] before[k])@) by {
            lemma_text_lt_total(before[p as int]@, x@);
            if k > p {
                lemma_text_lt_trans(x@, before[p as int]@, before[k]@);
            }
        }
    }
    out.insert(p, s.to_owned());
    proof {
        assert(out@ =~= before.insert(p as int, out@[p as int]));
        lemma_insert_keeps_order(before, out@, p as int, x@);
    }
}

/// The paths an archive holds, in its order: sorted, each once (`sort` then `dedup`).
pub fn archive_order(paths: Vec<String>) -> (r: Vec<String>)
    ensures
        strictly_sorted(r@),
        view_set(r@) == view_set(paths@),
{
    let mut out: Vec<String> = Vec::new();
    let mut i: usize = 0;
    proof {
        assert(view_set(out@) =~= view_set(paths@.take(0)));
    }
    while i < paths.len()
        invariant
            i <= paths@.len(),
            strictly_sorted(out@),
            view_set(out@) == view_set(paths@.take(i as int)),
        decreases paths@.len() - i,
    {
        insert_sorted(&mut out, paths[i].as_str());
        proof {
            lemma_view_set_push(paths@, i as int);
        }
        i += 1;
    }
    proof {
        assert(paths@.take(paths@.len() as int) =~= paths@);
    }
    out
}

} // verus!
