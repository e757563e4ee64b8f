//! JSON documents as the library reads them: the tree `serde_json` parses, held as plain
//! values.
use vstd::prelude::*;

verus! {

/// A JSON value.
#[derive(Debug, PartialEq, Eq)]
pub enum Json {
    Null,
    Bool(bool),
    /// A number, as the parser prints it.
    Number(String),
    Str(String),
    Array(Vec<Json>),
    /// Key and value pairs, in the order the parser's map keeps them.
    Object(Vec<(String, Json)>),
}

#[verifier::external_type_specification]
#[verifier::external_body]
pub struct ExJsonValue(serde_json::Value);

/// The tree `serde_json` reads from a text, or `None` when the text is not JSON.
pub uninterp spec fn json_document(text: Seq<char>) -> Option<Json>;

/// The message `serde_json` gives for a text that is not JSON.
pub uninterp spec fn json_error_text(text: Seq<char>) -> Seq<char>;

/// `serde_json::from_str` into its `Value` tree, converted to a [`Json`]; on failure the
/// error's message. Claims only that both are functions of the text.
#[verifier::external_body]
pub fn parse_json(text: &str) -> (r: Result<Json, String>)
    ensures
        match r {
            Ok(v) => json_document(text@) == Some(v),
            Err(m) => json_document(text@) is None && m@ == json_error_text(text@),
        },
{
    serde_json::from_str::<serde_json::Value>(text).map(|v| json_of(&v)).map_err(|e| e.to_string())
}

/// The conversion of one `serde_json::Value`, variant by variant.
#[verifier::external_body]
fn json_of(v: &serde_json::Value) -> Json {
    match v {
        serde_json::Value::Null => Json::Null,
        serde_json::Value::Bool(b) => Json::Bool(*b),
        serde_json::Value::Number(n) => Json::Number(n.to_string()),
        serde_json::Value::String(s) => Json::Str(s.clone()),
        serde_json::Value::Array(items) => Json::Array(items.iter().map(json_of).collect()),
        serde_json::Value::Object(m) => Json::Object(m.iter().map(|(k, x)| (k.clone(), json_of(x))).collect()),
    }
}

/// The value of `key` in an object's entries.
pub open spec fn entries_get(m: Seq<(String, Json)>, key: Seq<char>) -> Option<Json>
    decreases m.len(),
{
    if m.len() == 0 {
        None
    } else if m[0].0@ == key {
        Some(m[0].1)
    } else {
        entries_get(m.drop_first(), key)
    }
}

/// `Value::get` with a key: the member of an object, `None` for anything else.
pub open spec fn json_get(v: Json, key: Seq<char>) -> Option<Json> {
    match v {
        Json::Object(m) => entries_get(m@, key),
        _ => None,
    }
}

/// `Value::as_str` of an optional member.
pub open spec fn json_str(v: Option<Json>) -> Option<Seq<char>> {
    match v {
        Some(Json::Str(s)) => Some(s@),
        _ => None,
    }
}

/// The text of a string member of an object, copied.
pub fn get_str(v: &Json, key: &str) -> (r: Option<String>)
    ensures
        match r {
            Some(s) => json_str(json_get(*v, key@)) == Some(s@),
            None => json_str(json_get(*v, key@)) is None,
        },
{
    match v {
        Json::Object(m) => {
            let mut i: usize = 0;
            proof {
                assert(m@.skip(0) =~= m@);
            }
            while i < m.len()
                invariant
                    i <= m@.len(),
                    json_get(*v, key@) == entries_get(m@, key@),
                    entries_get(m@, key@) == entries_get(m@.skip(i as int), key@),
                decreases m.len() - i,
            {
                proof {
                    assert(m@.skip(i as int).drop_first() =~= m@.skip(i + 1));
                }
                if crate::text::eq(&crate::text::chars_of(m[i].0.as_str()), &crate::text::chars_of(key)) {
                    proof {
                        assert(m@.skip(i as int)[0] == m@[i as int]);
                        assert(entries_get(m@, key@) == Some(m@[i as int].1));
                        assert(json_get(*v, key@) == Some(m@[i as int].1));
                    }
                    let val = &m[i].1;
                    return match val {
                        Json::Str(s) => {
                            let r = s.as_str().to_owned();
                            proof {
                                assert(json_str(Some(*val)) == Some(s@));
                            }
                            Some(r)
                        },
                        _ => None,
                    };
                }
                i += 1;
            }
            None
        },
        _ => None,
    }
}

} // verus!
