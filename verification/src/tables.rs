//! TOML documents as the library reads them: the tables `toml` parses, held as plain values,
//! and written back by `toml`.
use vstd::prelude::*;

verus! {

/// A TOML value. Floats and date-times are held as `toml` prints them.
#[derive(Debug, PartialEq, Eq)]
pub enum Toml {
    Str(String),
    Int(i64),
    Float(String),
    Bool(bool),
    Datetime(String),
    Array(Vec<Toml>),
    Table(Vec<(String, Toml)>),
}

#[verifier::external_type_specification]
#[verifier::external_body]
pub struct ExTomlValue(toml::Value);

/// A TOML value, by its texts.
pub enum TomlV {
    Str(Seq<char>),
    Int(i64),
    Float(Seq<char>),
    Bool(bool),
    Datetime(Seq<char>),
    Array(Seq<TomlV>),
    Table(Seq<(Seq<char>, TomlV)>),
}

pub open spec fn tv(t: Toml) -> TomlV
    decreases t,
{
    match t {
        Toml::Str(s) => TomlV::Str(s@),
        Toml::Int(i) => TomlV::Int(i),
        Toml::Float(f) => TomlV::Float(f@),
        Toml::Bool(b) => TomlV::Bool(b),
        Toml::Datetime(d) => TomlV::Datetime(d@),
        Toml::Array(items) => TomlV::Array(tv_list(items@)),
        Toml::Table(es) => TomlV::Table(tv_table(es@)),
    }
}

pub open spec fn tv_list(items: Seq<Toml>) -> Seq<TomlV>
    decreases items,
{
    if items.len() == 0 {
        seq![]
    } else {
        tv_list(items.drop_last()).push(tv(items.last()))
    }
}

pub open spec fn tv_table(es: Seq<(String, Toml)>) -> Seq<(Seq<char>, TomlV)>
    decreases es,
{
    if es.len() == 0 {
        seq![]
    } else {
        tv_table(es.drop_last()).push((es.last().0@, tv(es.last().1)))
    }
}

pub proof fn lemma_tv_table_index(es: Seq<(String, Toml)>)
    ensures
        tv_table(es).len() == es.len(),
        forall|i: int| 0 <= i < es.len() ==> #[trigger] tv_table(es)[i] == (es[i].0@, tv(es[i].1)),
    decreases es.len(),
{
    if es.len() > 0 {
        lemma_tv_table_index(es.drop_last());
    }
}

/// The table `toml` reads from a text, or `None` when the text is not a TOML document.
pub uninterp spec fn toml_document(text: Seq<char>) -> Option<Seq<(Seq<char>, TomlV)>>;

/// `text.parse::<toml::Table>()`, converted to entries. Claims only that the result is a
/// function of the text.
#[verifier::external_body]
pub fn parse_toml(text: &str) -> (r: Option<Vec<(String, Toml)>>)
    ensures
        match r {
            Some(es) => toml_document(text@) == Some(tv_table(es@)),
            None => toml_document(text@) is None,
        },
{
    text.parse::<toml::Table>().ok().map(|t| t.into_iter().map(|(k, v)| (k, toml_of(v))).collect())
}

/// The conversion of one `toml::Value`, variant by variant.
#[verifier::external_body]
fn toml_of(v: toml::Value) -> Toml {
    match v {
        toml::Value::String(s) => Toml::Str(s),
        toml::Value::Integer(i) => Toml::Int(i),
        toml::Value::Float(f) => Toml::Float(f.to_string()),
        toml::Value::Boolean(b) => Toml::Bool(b),
        toml::Value::Datetime(d) => Toml::Datetime(d.to_string()),
        toml::Value::Array(a) => Toml::Array(a.into_iter().map(toml_of).collect()),
        toml::Value::Table(t) => Toml::Table(t.into_iter().map(|(k, v)| (k, toml_of(v))).collect()),
    }
}

/// What `toml::to_string` writes for a table: its text, or the error's message.
pub uninterp spec fn toml_emit(es: Seq<(Seq<char>, TomlV)>) -> Result<Seq<char>, Seq<char>>;

/// `toml::to_string` of the table the entries make, converted back one value for one.
#[verifier::external_body]
pub fn emit_toml(es: &Vec<(String, Toml)>) -> (r: Result<String, String>)
    ensures
        match r {
            Ok(s) => toml_emit(tv_table(es@)) == Ok::<Seq<char>, Seq<char>>(s@),
            Err(m) => toml_emit(tv_table(es@)) == Err::<Seq<char>, Seq<char>>(m@),
        },
{
    let table: toml::Table = es.iter().map(|(k, v)| (k.clone(), value_of(v))).collect();
    toml::to_string(&table).map_err(|e| e.to_string())
}

/// A value as `toml` prints it back to a `toml::Value` (a string if it does not read back).
#[verifier::external_body]
fn reread(s: &String, float: bool) -> toml::Value {
    let v = if float { s.parse().map(toml::Value::Float).ok() } else { s.parse().map(toml::Value::Datetime).ok() };
    v.unwrap_or_else(|| toml::Value::String(s.clone()))
}

/// The conversion of one [`Toml`] back to a `toml::Value`, variant by variant.
#[verifier::external_body]
fn value_of(t: &Toml) -> toml::Value {
    match t {
        Toml::Str(s) => toml::Value::String(s.clone()),
        Toml::Int(i) => toml::Value::Integer(*i),
        Toml::Float(f) => reread(f, true),
        Toml::Bool(b) => toml::Value::Boolean(*b),
        Toml::Datetime(d) => reread(d, false),
        Toml::Array(a) => toml::Value::Array(a.iter().map(value_of).collect()),
        Toml::Table(es) => toml::Value::Table(es.iter().map(|(k, v)| (k.clone(), value_of(v))).collect()),
    }
}

/// The value of the entry named `k` (the last one, as a map keeps it).
pub open spec fn table_get(es: Seq<(Seq<char>, TomlV)>, k: Seq<char>) -> Option<TomlV>
    decreases es.len(),
{
    if es.len() == 0 {
        None
    } else if es.last().0 == k {
        Some(es.last().1)
    } else {
        table_get(es.drop_last(), k)
    }
}

/// `Value::get` with a key: a table's entry, `None` for anything else.
pub open spec fn toml_get(v: Option<TomlV>, k: Seq<char>) -> Option<TomlV> {
    match v {
        Some(TomlV::Table(es)) => table_get(es, k),
        _ => None,
    }
}

/// The position of the last entry named `k`.
pub fn table_index(es: &Vec<(String, Toml)>, k: &str) -> (r: Option<usize>)
    ensures
        match r {
            Some(i) => {
                &&& i < es@.len()
                &&& es@[i as int].0@ == k@
                &&& table_get(tv_table(es@), k@) == Some(tv(es@[i as int].1))
                &&& forall|j: int| i < j < es@.len() ==> (#[trigger] es@[j]).0@ != k@
            },
            None => table_get(tv_table(es@), k@) is None,
        },
{
    let mut i: usize = es.len();
    let ghost t = tv_table(es@);
    proof {
        lemma_tv_table_index(es@);
        assert(t.take(es@.len() as int) =~= t);
    }
    while i > 0
        invariant
            i <= es@.len(),
            t == tv_table(es@),
            t.len() == es@.len(),
            forall|j: int| 0 <= j < es@.len() ==> #[trigger] t[j] == (es@[j].0@, tv(es@[j].1)),
            table_get(t, k@) == table_get(t.take(i as int), k@),
            forall|j: int| i <= j < es@.len() ==> (#[trigger] es@[j]).0@ != k@,
        decreases i,
    {
        proof {
            assert(t.take(i as int).drop_last() =~= t.take(i - 1));
            assert(t.take(i as int).last() == t[i - 1]);
        }
        if crate::text::eq(&crate::text::chars_of(es[i - 1].0.as_str()), &crate::text::chars_of(k)) {
            return Some(i - 1);
        }
        i -= 1;
    }
    proof {
        assert(t.take(0) =~= Seq::<(Seq<char>, TomlV)>::empty());
    }
    None
}

/// The position of the last entry named `k`.
pub open spec fn table_pos(es: Seq<(Seq<char>, TomlV)>, k: Seq<char>) -> Option<int>
    decreases es.len(),
{
    if es.len() == 0 {
        None
    } else if es.last().0 == k {
        Some(es.len() - 1)
    } else {
        table_pos(es.drop_last(), k)
    }
}

/// `Table::insert`: the entry named `k` takes the value, or a new one is added.
pub open spec fn t_insert(es: Seq<(Seq<char>, TomlV)>, k: Seq<char>, v: TomlV) -> Seq<(Seq<char>, TomlV)> {
    match table_pos(es, k) {
        Some(i) => es.update(i, (k, v)),
        None => es.push((k, v)),
    }
}

/// `Table::remove`: no entry named `k` is left.
pub open spec fn t_remove(es: Seq<(Seq<char>, TomlV)>, k: Seq<char>) -> Seq<(Seq<char>, TomlV)>
    decreases es.len(),
{
    if es.len() == 0 {
        seq![]
    } else if es.last().0 == k {
        t_remove(es.drop_last(), k)
    } else {
        t_remove(es.drop_last(), k).push(es.last())
    }
}

/// `Table::insert`.
pub fn t_insert_exec(es: &mut Vec<(String, Toml)>, k: &str, v: Toml)
    ensures
        tv_table(final(es)@) == t_insert(tv_table(old(es)@), k@, tv(v)),
{
    proof {
        lemma_tv_table_index(es@);
        lemma_table_pos_get(tv_table(es@), k@);
    }
    match table_index(es, k) {
        Some(i) => {
            proof {
                lemma_table_pos_is_last(tv_table(es@), k@, i as int);
            }
            es.remove(i);
            es.insert(i, (k.to_owned(), v));
            proof {
                let want = t_insert(tv_table(old(es)@), k@, tv(v));
                lemma_tv_table_index(es@);
                assert(tv_table(es@) =~= want);
            }
        },
        None => {
            es.push((k.to_owned(), v));
            proof {
                assert(es@.drop_last() =~= old(es)@);
            }
        },
    }
}

pub proof fn lemma_table_pos_get(es: Seq<(Seq<char>, TomlV)>, k: Seq<char>)
    ensures
        table_pos(es, k) is None <==> table_get(es, k) is None,
        table_pos(es, k) matches Some(i) ==> 0 <= i < es.len() && es[i].0 == k && table_get(es, k) == Some(es[i].1),
    decreases es.len(),
{
    if es.len() > 0 && es.last().0 != k {
        lemma_table_pos_get(es.drop_last(), k);
    }
}

/// The last entry named `k` is at `i`.
pub proof fn lemma_table_pos_is_last(es: Seq<(Seq<char>, TomlV)>, k: Seq<char>, i: int)
    requires
        table_pos(es, k) is Some,
        0 <= i < es.len(),
        es[i].0 == k,
        forall|j: int| i < j < es.len() ==> (#[trigger] es[j]).0 != k,
    ensures
        table_pos(es, k) == Some(i),
    decreases es.len(),
{
    if i < es.len() - 1 {
        assert(es.last() == es[es.len() - 1]);
        assert forall|j: int| i < j < es.drop_last().len() implies (#[trigger] es.drop_last()[j]).0 != k by {
            assert(es.drop_last()[j] == es[j]);
        }
        lemma_table_pos_get(es.drop_last(), k);
        lemma_table_pos_is_last(es.drop_last(), k, i);
    }
}

/// `Table::remove`.
pub fn t_remove_exec(es: Vec<(String, Toml)>, k: &str) -> (r: Vec<(String, Toml)>)
    ensures
        tv_table(r@) == t_remove(tv_table(es@), k@),
{
    let ghost t = tv_table(es@);
    proof {
        lemma_tv_table_index(es@);
        assert(t.take(0) =~= Seq::<(Seq<char>, TomlV)>::empty());
    }
    let mut out: Vec<(String, Toml)> = Vec::new();
    let mut rest = es;
    let n = rest.len();
    let mut i: usize = 0;
    let ghost orig = rest@;
    proof {
        assert(rest@ =~= orig.skip(0));
        assert(tv_table(out@) =~= Seq::<(Seq<char>, TomlV)>::empty());
    }
    while i < n
        invariant
            i <= n == orig.len(),
            t == tv_table(orig),
            t.len() == orig.len(),
            forall|j: int| 0 <= j < orig.len() ==> #[trigger] t[j] == (orig[j].0@, tv(orig[j].1)),
            rest@ == orig.skip(i as int),
            tv_table(out@) == t_remove(t.take(i as int), k@),
        decreases n - i,
    {
        let e = rest.remove(0);
        proof {
            assert(e == orig[i as int]);
            assert(rest@ =~= orig.skip(i + 1));
            assert(t.take(i + 1).drop_last() =~= t.take(i as int));
            assert(t.take(i + 1).last() == t[i as int]);
        }
        if !crate::text::eq(&crate::text::chars_of(e.0.as_str()), &crate::text::chars_of(k)) {
            let ghost before = out@;
            out.push(e);
            proof {
                assert(out@.drop_last() =~= before);
            }
        }
        i += 1;
    }
    proof {
        assert(t.take(n as int) =~= t);
    }
    out
}

} // verus!
