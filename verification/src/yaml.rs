//! YAML documents as the library reads them: the tree `serde_yaml_ng` parses, held as plain
//! values.
use vstd::prelude::*;

verus! {

/// A YAML value.
#[derive(Debug, PartialEq, Eq)]
pub enum Yaml {
    Null,
    Bool(bool),
    /// A number, as the parser prints it.
    Number(String),
    Str(String),
    List(Vec<Yaml>),
    /// Key and value pairs, in the document's order.
    Mapping(Vec<(Yaml, Yaml)>),
    /// A `!tag`ged value.
    Tagged(String, Box<Yaml>),
}

#[verifier::external_type_specification]
#[verifier::external_body]
pub struct ExYamlValue(serde_yaml_ng::Value);

/// The tree `serde_yaml_ng` reads from a text, or `None` when the text is not YAML.
pub uninterp spec fn yaml_document(text: Seq<char>) -> Option<Yaml>;

/// The message `serde_yaml_ng` gives for a text that is not YAML.
pub uninterp spec fn yaml_error_text(text: Seq<char>) -> Seq<char>;

/// `serde_yaml_ng::from_str` into its `Value` tree, converted to a [`Yaml`]. Claims that the
/// result is a function of the text (the parser reads nothing else), and that every tag has a
/// name: a tag is written with its `!`.
#[verifier::external_body]
pub fn parse_yaml(text: &str) -> (r: Option<Yaml>)
    ensures
        r == yaml_document(text@),
        r matches Some(v) ==> tags_named(yv(v)),
{
    serde_yaml_ng::from_str::<serde_yaml_ng::Value>(text).ok().map(|v| yaml_of(&v))
}

/// `serde_yaml_ng::from_str`, as `parse_yaml`, with the error's message on failure.
#[verifier::external_body]
pub fn parse_yaml_or_error(text: &str) -> (r: Result<Yaml, String>)
    ensures
        match r {
            Ok(v) => yaml_document(text@) == Some(v) && tags_named(yv(v)),
            Err(m) => yaml_document(text@) is None && m@ == yaml_error_text(text@),
        },
{
    serde_yaml_ng::from_str::<serde_yaml_ng::Value>(text).map(|v| yaml_of(&v)).map_err(|e| e.to_string())
}

/// What `serde_yaml_ng::to_string` writes for a value: its text, or the error's message.
pub uninterp spec fn yaml_emit(v: YamlV) -> Result<Seq<char>, Seq<char>>;

/// `serde_yaml_ng::to_string` of the value, converted to a `Value` tree one node for one.
#[verifier::external_body]
pub fn emit_yaml(v: &Yaml) -> (r: Result<String, String>)
    requires
        tags_named(yv(*v)),
    ensures
        match r {
            Ok(s) => yaml_emit(yv(*v)) == Ok::<Seq<char>, Seq<char>>(s@),
            Err(m) => yaml_emit(yv(*v)) == Err::<Seq<char>, Seq<char>>(m@),
        },
{
    serde_yaml_ng::to_string(&value_of(v)).map_err(|e| e.to_string())
}

/// A number as the parser printed it, back to a `serde_yaml_ng::Value` (a string if it does
/// not read as a number).
#[verifier::external_body]
fn number_of(n: &String) -> serde_yaml_ng::Value {
    n.parse().map(serde_yaml_ng::Value::Number).unwrap_or_else(|_| serde_yaml_ng::Value::String(n.clone()))
}

/// The conversion of one [`Yaml`] node back to a `serde_yaml_ng::Value`, variant by variant.
#[verifier::external_body]
fn value_of(y: &Yaml) -> serde_yaml_ng::Value {
    match y {
        Yaml::Null => serde_yaml_ng::Value::Null,
        Yaml::Bool(b) => serde_yaml_ng::Value::Bool(*b),
        Yaml::Number(n) => number_of(n),
        Yaml::Str(s) => serde_yaml_ng::Value::String(s.clone()),
        Yaml::List(items) => serde_yaml_ng::Value::Sequence(items.iter().map(value_of).collect()),
        Yaml::Mapping(m) => serde_yaml_ng::Value::Mapping(m.iter().map(|(k, x)| (value_of(k), value_of(x))).collect()),
        Yaml::Tagged(t, b) => serde_yaml_ng::Value::Tagged(Box::new(serde_yaml_ng::value::TaggedValue {
            tag: serde_yaml_ng::value::Tag::new(t.clone()),
            value: value_of(b),
        })),
    }
}

/// The conversion of one `serde_yaml_ng::Value`, variant by variant.
#[verifier::external_body]
fn yaml_of(v: &serde_yaml_ng::Value) -> Yaml {
    match v {
        serde_yaml_ng::Value::Null => Yaml::Null,
        serde_yaml_ng::Value::Bool(b) => Yaml::Bool(*b),
        serde_yaml_ng::Value::Number(n) => Yaml::Number(n.to_string()),
        serde_yaml_ng::Value::String(s) => Yaml::Str(s.clone()),
        serde_yaml_ng::Value::Sequence(items) => Yaml::List(items.iter().map(yaml_of).collect()),
        serde_yaml_ng::Value::Mapping(m) => Yaml::Mapping(m.iter().map(|(k, x)| (yaml_of(k), yaml_of(x))).collect()),
        serde_yaml_ng::Value::Tagged(t) => Yaml::Tagged(t.tag.to_string(), Box::new(yaml_of(&t.value))),
    }
}

/// The value under its tags.
pub open spec fn untag(v: Yaml) -> Yaml
    decreases v,
{
    match v {
        Yaml::Tagged(_, b) => untag(*b),
        _ => v,
    }
}

/// The value of the first entry whose key is the string `k`.
pub open spec fn entry_get(es: Seq<(Yaml, Yaml)>, k: Seq<char>) -> Option<Yaml>
    decreases es.len(),
{
    if es.len() == 0 {
        None
    } else if es[0].0 matches Yaml::Str(s) && s@ == k {
        Some(es[0].1)
    } else {
        entry_get(es.drop_first(), k)
    }
}

/// `Value::get` with a string key: a mapping's entry, under any tags; `None` for anything else.
pub open spec fn yaml_get(v: Yaml, k: Seq<char>) -> Option<Yaml> {
    match untag(v) {
        Yaml::Mapping(es) => entry_get(es@, k),
        _ => None,
    }
}

/// `Value::as_str`: a string, under any tags.
pub open spec fn yaml_as_str(v: Yaml) -> Option<Seq<char>> {
    match untag(v) {
        Yaml::Str(s) => Some(s@),
        _ => None,
    }
}

/// The value under its tags.
pub fn untag_exec(v: &Yaml) -> (r: &Yaml)
    ensures
        *r == untag(*v),
    decreases v,
{
    match v {
        Yaml::Tagged(_, b) => untag_exec(b),
        _ => v,
    }
}

/// `Value::get` with a string key.
pub fn yaml_get_exec<'a>(v: &'a Yaml, k: &str) -> (r: Option<&'a Yaml>)
    ensures
        match r {
            Some(x) => yaml_get(*v, k@) == Some(*x),
            None => yaml_get(*v, k@) is None,
        },
{
    match untag_exec(v) {
        Yaml::Mapping(es) => {
            let mut i: usize = 0;
            proof {
                assert(es@.skip(0) =~= es@);
            }
            while i < es.len()
                invariant
                    i <= es@.len(),
                    untag(*v) == Yaml::Mapping(*es),
                    entry_get(es@, k@) == entry_get(es@.skip(i as int), k@),
                decreases es@.len() - i,
            {
                proof {
                    assert(es@.skip(i as int)[0] == es@[i as int]);
                    assert(es@.skip(i as int).drop_first() =~= es@.skip(i + 1));
                }
                match &es[i].0 {
                    Yaml::Str(s) => {
                        if crate::text::eq(&crate::text::chars_of(s.as_str()), &crate::text::chars_of(k)) {
                            proof {
                                assert(es@[i as int].0 == Yaml::Str(*s));
                                assert(entry_get(es@.skip(i as int), k@) == Some(es@[i as int].1));
                            }
                            return Some(&es[i].1);
                        }
                    },
                    _ => {},
                }
                i += 1;
            }
            proof {
                assert(es@.skip(i as int) =~= Seq::<(Yaml, Yaml)>::empty());
            }
            None
        },
        _ => None,
    }
}

/// `Value::as_str`.
pub fn yaml_as_str_exec(v: &Yaml) -> (r: Option<String>)
    ensures
        match r {
            Some(s) => yaml_as_str(*v) == Some(s@),
            None => yaml_as_str(*v) is None,
        },
{
    match untag_exec(v) {
        Yaml::Str(s) => Some(s.as_str().to_owned()),
        _ => None,
    }
}

/// A YAML value, by its texts.
pub enum YamlV {
    Null,
    Bool(bool),
    Number(Seq<char>),
    Str(Seq<char>),
    List(Seq<YamlV>),
    Mapping(Seq<(YamlV, YamlV)>),
    Tagged(Seq<char>, Box<YamlV>),
}

/// The value of a YAML tree.
pub open spec fn yv(y: Yaml) -> YamlV
    decreases y,
{
    match y {
        Yaml::Null => YamlV::Null,
        Yaml::Bool(b) => YamlV::Bool(b),
        Yaml::Number(n) => YamlV::Number(n@),
        Yaml::Str(s) => YamlV::Str(s@),
        Yaml::List(items) => YamlV::List(yv_list(items@)),
        Yaml::Mapping(es) => YamlV::Mapping(yv_map(es@)),
        Yaml::Tagged(t, b) => YamlV::Tagged(t@, Box::new(yv(*b))),
    }
}

pub open spec fn yv_list(items: Seq<Yaml>) -> Seq<YamlV>
    decreases items,
{
    if items.len() == 0 {
        seq![]
    } else {
        yv_list(items.drop_last()).push(yv(items.last()))
    }
}

pub open spec fn yv_map(es: Seq<(Yaml, Yaml)>) -> Seq<(YamlV, YamlV)>
    decreases es,
{
    if es.len() == 0 {
        seq![]
    } else {
        yv_map(es.drop_last()).push((yv(es.last().0), yv(es.last().1)))
    }
}

/// Every tag in the value has a name.
pub open spec fn tags_named(v: YamlV) -> bool
    decreases v,
{
    match v {
        YamlV::List(items) => tags_named_list(items),
        YamlV::Mapping(es) => tags_named_map(es),
        YamlV::Tagged(t, b) => t.len() > 0 && tags_named(*b),
        _ => true,
    }
}

pub open spec fn tags_named_list(items: Seq<YamlV>) -> bool
    decreases items,
{
    items.len() == 0 || (tags_named_list(items.drop_last()) && tags_named(items.last()))
}

pub open spec fn tags_named_map(es: Seq<(YamlV, YamlV)>) -> bool
    decreases es,
{
    es.len() == 0 || (tags_named_map(es.drop_last()) && tags_named(es.last().0) && tags_named(es.last().1))
}

/// A string, under any tags: what `Value::is_string` accepts.
pub open spec fn string_like(v: YamlV) -> bool
    decreases v,
{
    match v {
        YamlV::Str(_) => true,
        YamlV::Tagged(_, b) => string_like(*b),
        _ => false,
    }
}

/// The position of the first entry whose key is `k`.
pub open spec fn key_index(es: Seq<(YamlV, YamlV)>, k: YamlV) -> Option<int>
    decreases es.len(),
{
    if es.len() == 0 {
        None
    } else if es[0].0 == k {
        Some(0)
    } else {
        match key_index(es.drop_first(), k) {
            Some(i) => Some(i + 1),
            None => None,
        }
    }
}

/// `Mapping::insert`: a key already there keeps its place and takes the new value; a new key
/// goes last.
pub open spec fn im_insert(es: Seq<(YamlV, YamlV)>, k: YamlV, v: YamlV) -> Seq<(YamlV, YamlV)> {
    match key_index(es, k) {
        Some(i) => es.update(i, (es[i].0, v)),
        None => es.push((k, v)),
    }
}

/// `Mapping::remove` (a swap-remove): the last entry takes the removed one's place; with the
/// removed value.
pub open spec fn im_remove(es: Seq<(YamlV, YamlV)>, k: YamlV) -> (Seq<(YamlV, YamlV)>, Option<YamlV>) {
    match key_index(es, k) {
        Some(i) => (es.update(i, es.last()).drop_last(), Some(es[i].1)),
        None => (es, None),
    }
}

/// A mapping collected from pairs, each inserted in turn.
pub open spec fn from_pairs(ps: Seq<(YamlV, YamlV)>) -> Seq<(YamlV, YamlV)>
    decreases ps.len(),
{
    if ps.len() == 0 {
        seq![]
    } else {
        im_insert(from_pairs(ps.drop_last()), ps.last().0, ps.last().1)
    }
}

pub open spec fn opt_yv(o: Option<Yaml>) -> Option<YamlV> {
    match o {
        Some(y) => Some(yv(y)),
        None => None,
    }
}

pub proof fn lemma_yv_map_index(es: Seq<(Yaml, Yaml)>)
    ensures
        yv_map(es).len() == es.len(),
        forall|i: int| 0 <= i < es.len() ==> #[trigger] yv_map(es)[i] == (yv(es[i].0), yv(es[i].1)),
    decreases es.len(),
{
    if es.len() > 0 {
        lemma_yv_map_index(es.drop_last());
    }
}

/// Equal entries give equal values.
pub proof fn lemma_yv_map_ext(a: Seq<(Yaml, Yaml)>, b: Seq<(YamlV, YamlV)>)
    requires
        a.len() == b.len(),
        forall|i: int| 0 <= i < a.len() ==> #[trigger] b[i] == (yv(a[i].0), yv(a[i].1)),
    ensures
        yv_map(a) == b,
{
    lemma_yv_map_index(a);
    assert(yv_map(a) =~= b);
}

proof fn lemma_key_index_found(es: Seq<(YamlV, YamlV)>, k: YamlV, i: int)
    requires
        0 <= i < es.len(),
        es[i].0 == k,
        forall|j: int| 0 <= j < i ==> (#[trigger] es[j]).0 != k,
    ensures
        key_index(es, k) == Some(i),
    decreases i,
{
    if i > 0 {
        assert forall|j: int| 0 <= j < i - 1 implies (#[trigger] es.drop_first()[j]).0 != k by {
            assert(es.drop_first()[j] == es[j + 1]);
        }
        lemma_key_index_found(es.drop_first(), k, i - 1);
    }
}

proof fn lemma_key_index_absent(es: Seq<(YamlV, YamlV)>, k: YamlV)
    requires
        forall|j: int| 0 <= j < es.len() ==> (#[trigger] es[j]).0 != k,
    ensures
        key_index(es, k) is None,
    decreases es.len(),
{
    if es.len() > 0 {
        assert forall|j: int| 0 <= j < es.len() - 1 implies (#[trigger] es.drop_first()[j]).0 != k by {
            assert(es.drop_first()[j] == es[j + 1]);
        }
        lemma_key_index_absent(es.drop_first(), k);
    }
}

/// A key that is a string under any tags, compared with another value.
pub fn strlike_eq(a: &Yaml, b: &Yaml) -> (r: bool)
    requires
        string_like(yv(*b)),
    ensures
        r == (yv(*a) == yv(*b)),
    decreases b,
{
    match (a, b) {
        (Yaml::Str(x), Yaml::Str(y)) => crate::text::eq(&crate::text::chars_of(x.as_str()), &crate::text::chars_of(y.as_str())),
        (Yaml::Tagged(t1, a1), Yaml::Tagged(t2, b1)) => {
            if crate::text::eq(&crate::text::chars_of(t1.as_str()), &crate::text::chars_of(t2.as_str())) {
                strlike_eq(a1, b1)
            } else {
                false
            }
        },
        _ => false,
    }
}

/// The position of the first entry whose key is `k`.
pub fn key_index_exec(es: &Vec<(Yaml, Yaml)>, k: &Yaml) -> (r: Option<usize>)
    requires
        string_like(yv(*k)),
    ensures
        match r {
            Some(i) => key_index(yv_map(es@), yv(*k)) == Some(i as int) && i < es@.len(),
            None => key_index(yv_map(es@), yv(*k)) is None,
        },
{
    proof {
        lemma_yv_map_index(es@);
    }
    let mut i: usize = 0;
    while i < es.len()
        invariant
            i <= es@.len(),
            string_like(yv(*k)),
            yv_map(es@).len() == es@.len(),
            forall|j: int| 0 <= j < es@.len() ==> #[trigger] yv_map(es@)[j] == (yv(es@[j].0), yv(es@[j].1)),
            forall|j: int| 0 <= j < i ==> (#[trigger] yv_map(es@)[j]).0 != yv(*k),
        decreases es@.len() - i,
    {
        if strlike_eq(&es[i].0, k) {
            proof {
                lemma_key_index_found(yv_map(es@), yv(*k), i as int);
            }
            return Some(i);
        }
        i += 1;
    }
    proof {
        lemma_key_index_absent(yv_map(es@), yv(*k));
    }
    None
}

/// `Mapping::insert`.
pub fn im_insert_exec(es: &mut Vec<(Yaml, Yaml)>, k: Yaml, v: Yaml)
    requires
        string_like(yv(k)),
    ensures
        yv_map(final(es)@) == im_insert(yv_map(old(es)@), yv(k), yv(v)),
{
    proof {
        lemma_yv_map_index(es@);
    }
    match key_index_exec(es, &k) {
        Some(i) => {
            let (k0, _old) = es.remove(i);
            es.insert(i, (k0, v));
            proof {
                let want = im_insert(yv_map(old(es)@), yv(k), yv(v));
                assert(es@ =~= old(es)@.update(i as int, (old(es)@[i as int].0, v)));
                lemma_yv_map_ext(es@, want);
            }
        },
        None => {
            es.push((k, v));
            proof {
                assert(es@.drop_last() =~= old(es)@);
            }
        },
    }
}

/// `Mapping::remove`, a swap-remove.
pub fn im_remove_exec(es: &mut Vec<(Yaml, Yaml)>, k: &Yaml) -> (r: Option<Yaml>)
    requires
        string_like(yv(*k)),
    ensures
        (yv_map(final(es)@), opt_yv(r)) == im_remove(yv_map(old(es)@), yv(*k)),
{
    proof {
        lemma_yv_map_index(es@);
    }
    match key_index_exec(es, k) {
        Some(i) => {
            let (_k0, v) = es.swap_remove(i);
            proof {
                let want = im_remove(yv_map(old(es)@), yv(*k)).0;
                lemma_yv_map_ext(es@, want);
            }
            Some(v)
        },
        None => None,
    }
}

/// Every tag of every entry has a name.
pub proof fn lemma_tags_named_map(es: Seq<(YamlV, YamlV)>)
    ensures
        tags_named_map(es) <==> forall|i: int| 0 <= i < es.len() ==> tags_named((#[trigger] es[i]).0) && tags_named(es[i].1),
    decreases es.len(),
{
    if es.len() > 0 {
        lemma_tags_named_map(es.drop_last());
        if forall|i: int| 0 <= i < es.len() ==> tags_named((#[trigger] es[i]).0) && tags_named(es[i].1) {
            assert forall|i: int| 0 <= i < es.drop_last().len() implies tags_named((#[trigger] es.drop_last()[i]).0) && tags_named(es.drop_last()[i].1) by {
                assert(es.drop_last()[i] == es[i]);
            }
            assert(es.last() == es[es.len() - 1]);
        }
        if tags_named_map(es) {
            assert forall|i: int| 0 <= i < es.len() implies tags_named((#[trigger] es[i]).0) && tags_named(es[i].1) by {
                if i < es.len() - 1 {
                    assert(es.drop_last()[i] == es[i]);
                }
            }
        }
    }
}

/// Every tag of every item has a name.
pub proof fn lemma_tags_named_list(items: Seq<YamlV>)
    ensures
        tags_named_list(items) <==> forall|i: int| 0 <= i < items.len() ==> tags_named(#[trigger] items[i]),
    decreases items.len(),
{
    if items.len() > 0 {
        lemma_tags_named_list(items.drop_last());
        if forall|i: int| 0 <= i < items.len() ==> tags_named(#[trigger] items[i]) {
            assert forall|i: int| 0 <= i < items.drop_last().len() implies tags_named(#[trigger] items.drop_last()[i]) by {
                assert(items.drop_last()[i] == items[i]);
            }
            assert(items.last() == items[items.len() - 1]);
        }
        if tags_named_list(items) {
            assert forall|i: int| 0 <= i < items.len() implies tags_named(#[trigger] items[i]) by {
                if i < items.len() - 1 {
                    assert(items.drop_last()[i] == items[i]);
                }
            }
        }
    }
}

/// What `Value::is_string` says is what `as_str` finds.
pub proof fn lemma_string_like(y: Yaml)
    ensures
        string_like(yv(y)) == (yaml_as_str(y) is Some),
    decreases y,
{
    match y {
        Yaml::Tagged(_, b) => lemma_string_like(*b),
        _ => {},
    }
}

/// Inserting named keys and values keeps every tag named.
pub proof fn lemma_im_insert_named(es: Seq<(YamlV, YamlV)>, k: YamlV, v: YamlV)
    requires
        tags_named_map(es),
        tags_named(k),
        tags_named(v),
    ensures
        tags_named_map(im_insert(es, k, v)),
{
    lemma_tags_named_map(es);
    lemma_tags_named_map(im_insert(es, k, v));
    match key_index(es, k) {
        Some(i) => {
            lemma_key_index_bounds(es, k);
        },
        None => {},
    }
}

/// Removing keeps every tag named, and so is the removed value.
pub proof fn lemma_im_remove_named(es: Seq<(YamlV, YamlV)>, k: YamlV)
    requires
        tags_named_map(es),
    ensures
        tags_named_map(im_remove(es, k).0),
        im_remove(es, k).1 matches Some(v) ==> tags_named(v),
{
    lemma_tags_named_map(es);
    lemma_tags_named_map(im_remove(es, k).0);
    lemma_key_index_bounds(es, k);
    match key_index(es, k) {
        Some(i) => {
            let r = es.update(i, es.last()).drop_last();
            assert forall|j: int| 0 <= j < r.len() implies tags_named((#[trigger] r[j]).0) && tags_named(r[j].1) by {
                if j == i {
                    assert(r[j] == es[es.len() - 1]);
                } else {
                    assert(r[j] == es[j]);
                }
            }
        },
        None => {},
    }
}

pub proof fn lemma_key_index_bounds(es: Seq<(YamlV, YamlV)>, k: YamlV)
    ensures
        key_index(es, k) matches Some(i) ==> 0 <= i < es.len() && es[i].0 == k,
    decreases es.len(),
{
    if es.len() > 0 && es[0].0 != k {
        lemma_key_index_bounds(es.drop_first(), k);
    }
}

pub proof fn lemma_yv_list_index(items: Seq<Yaml>)
    ensures
        yv_list(items).len() == items.len(),
        forall|i: int| 0 <= i < items.len() ==> #[trigger] yv_list(items)[i] == yv(items[i]),
    decreases items.len(),
{
    if items.len() > 0 {
        lemma_yv_list_index(items.drop_last());
    }
}

} // verus!
