//! JSON documents as the library reads them: strings, arrays and objects, with the other
//! values kept only by their kind. Parsing is done by `serde_json`.
use vstd::prelude::*;
use crate::text::str_eq;

verus! {

/// A JSON value. Numbers are kept without their value, which nothing here reads.
#[derive(Debug)]
pub enum JsonValue {
    Null,
    Bool(bool),
    Number,
    Str(String),
    Array(Vec<JsonValue>),
    Object(Vec<(String, JsonValue)>),
}

#[verifier::external_type_specification]
#[verifier::external_body]
pub struct ExJsonValue(serde_json::Value);

/// The document `serde_json::from_str` parses from a text, as a [`JsonValue`], or nothing
/// when the text is not JSON.
pub uninterp spec fn json_document(text: Seq<char>) -> Option<JsonValue>;

/// Converts a `serde_json::Value` into a [`JsonValue`], variant for variant, object
/// entries in the map's order.
#[verifier::external_body]
fn json_from_value(v: &serde_json::Value) -> JsonValue {
    match v {
        serde_json::Value::Null => JsonValue::Null,
        serde_json::Value::Bool(b) => JsonValue::Bool(*b),
        serde_json::Value::Number(_) => JsonValue::Number,
        serde_json::Value::String(s) => JsonValue::Str(s.clone()),
        serde_json::Value::Array(a) => JsonValue::Array(a.iter().map(json_from_value).collect()),
        serde_json::Value::Object(o) => JsonValue::Object(
            o.iter().map(|(k, x)| (k.clone(), json_from_value(x))).collect(),
        ),
    }
}

/// Calls `serde_json::from_str` to parse a `serde_json::Value`, converted to a
/// [`JsonValue`]; nothing when parsing fails.
#[verifier::external_body]
pub(crate) fn parse_json(text: &str) -> (doc: Option<JsonValue>)
    ensures
        doc == json_document(text@),
{
    match serde_json::from_str::<serde_json::Value>(text) {
        Ok(v) => Some(json_from_value(&v)),
        Err(_) => None,
    }
}

/// Position of the first entry with key `key`, or -1.
pub open spec fn entry_position(entries: Seq<(String, JsonValue)>, key: Seq<char>) -> int
    decreases entries.len(),
{
    if entries.len() == 0 {
        -1
    } else if entry_position(entries.drop_last(), key) >= 0 {
        entry_position(entries.drop_last(), key)
    } else if entries.last().0@ == key {
        entries.len() - 1
    } else {
        -1
    }
}

proof fn lemma_entry_position(entries: Seq<(String, JsonValue)>, key: Seq<char>)
    ensures
        -1 <= entry_position(entries, key) < entries.len(),
        entry_position(entries, key) >= 0 ==> entries[entry_position(entries, key)].0@ == key,
        entry_position(entries, key) >= 0 ==> forall|k: int|
            0 <= k < entry_position(entries, key) ==> #[trigger] entries[k].0@ != key,
        entry_position(entries, key) == -1 ==> forall|k: int|
            0 <= k < entries.len() ==> #[trigger] entries[k].0@ != key,
    decreases entries.len(),
{
    if entries.len() > 0 {
        let front = entries.drop_last();
        lemma_entry_position(front, key);
        assert forall|k: int| 0 <= k < front.len() implies #[trigger] entries[k] == front[k] by {}
    }
}

/// The value under `key` of an object, as `Value::get` gives it; nothing for a missing key
/// or a value that is not an object.
pub open spec fn json_field(v: JsonValue, key: Seq<char>) -> Option<JsonValue> {
    match v {
        JsonValue::Object(entries) => if entry_position(entries@, key) >= 0 {
            Some(entries@[entry_position(entries@, key)].1)
        } else {
            None
        },
        _ => None,
    }
}

/// The value under `key` of an object.
pub fn get_field<'a>(v: &'a JsonValue, key: &str) -> (r: Option<&'a JsonValue>)
    ensures
        match r {
            Some(x) => json_field(*v, key@) == Some(*x),
            None => json_field(*v, key@) is None,
        },
{
    match v {
        JsonValue::Object(entries) => {
            proof {
                lemma_entry_position(entries@, key@);
            }
            let mut i: usize = 0;
            while i < entries.len()
                invariant
                    i <= entries@.len(),
                    *v == JsonValue::Object(*entries),
                    forall|k: int| 0 <= k < i ==> #[trigger] entries@[k].0@ != key@,
                decreases entries.len() - i,
            {
                if str_eq(entries[i].0.as_str(), key) {
                    proof {
                        lemma_entry_position(entries@, key@);
                        let p = entry_position(entries@, key@);
                        assert(entries@[i as int].0@ == key@);
                        assert(p >= 0);
                        if p != i {
                            assert(entries@[p].0@ == key@);
                        }
                        assert(p == i);
                    }
                    return Some(&entries[i].1);
                }
                i = i + 1;
            }
            proof {
                lemma_entry_position(entries@, key@);
            }
            None
        },
        _ => None,
    }
}

/// The text of a JSON string value.
pub open spec fn json_str(v: Option<JsonValue>) -> Option<Seq<char>> {
    match v {
        Some(JsonValue::Str(s)) => Some(s@),
        _ => None,
    }
}

/// The texts of the string values of an array, in order; other values are passed over.
pub open spec fn json_strings(items: Seq<JsonValue>) -> Seq<Seq<char>>
    decreases items.len(),
{
    if items.len() == 0 {
        Seq::empty()
    } else {
        let rest = json_strings(items.drop_last());
        match items.last() {
            JsonValue::Str(s) => rest.push(s@),
            _ => rest,
        }
    }
}

/// The texts of a list of strings.
pub open spec fn texts(v: Seq<String>) -> Seq<Seq<char>> {
    v.map_values(|s: String| s@)
}

/// The string values of an array, in order.
pub fn string_items(items: &Vec<JsonValue>) -> (out: Vec<String>)
    ensures
        texts(out@) == json_strings(items@),
{
    let mut out: Vec<String> = Vec::new();
    let mut i: usize = 0;
    while i < items.len()
        invariant
            i <= items@.len(),
            texts(out@) == json_strings(items@.take(i as int)),
        decreases items.len() - i,
    {
        proof {
            assert(items@.take(i + 1).drop_last() =~= items@.take(i as int));
            assert(items@.take(i + 1).last() == items@[i as int]);
        }
        match &items[i] {
            JsonValue::Str(s) => {
                let ghost before = out@;
                out.push(s.clone());
                proof {
                    assert(texts(out@) =~= texts(before).push(s@));
                }
            },
            _ => {},
        }
        i = i + 1;
    }
    proof {
        assert(items@.take(items@.len() as int) =~= items@);
    }
    out
}

} // verus!
