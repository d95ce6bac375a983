//! A plain-data model of a parsed JSON document, as read by the call filters and the
//! subagent reply parser. Parsing itself is `serde_json`'s.

use vstd::prelude::*;
use crate::text::{is_substring, lowercase, to_lowercase, chars_of, seq_contains, str_eq};

verus! {

/// One parsed JSON value. Numbers keep `serde_json`'s rendering of them.
pub enum JsonValue {
    Null,
    Bool(bool),
    Number(String),
    Str(String),
    Array(Vec<JsonValue>),
    Object(Vec<JsonMember>),
}

/// One `"key": value` member of an object. `text` is the member value's compact JSON
/// rendering (`serde_json`'s `Value::to_string`).
pub struct JsonMember {
    pub key: String,
    pub value: JsonValue,
    pub text: String,
}

/// The document `serde_json::from_str::<serde_json::Value>` parses from `text`, in this
/// model (object members in `serde_json`'s map order); `None` when it rejects the text.
pub uninterp spec fn json_document(text: Seq<char>) -> Option<JsonValue>;

#[verifier::external_type_specification]
#[verifier::external_body]
pub struct ExJsonValue(serde_json::Value);

/// Converts `serde_json`'s tree into the model, one node for one node.
#[verifier::external_body]
fn model_of(v: &serde_json::Value) -> JsonValue {
    match v {
        serde_json::Value::Null => JsonValue::Null,
        serde_json::Value::Bool(b) => JsonValue::Bool(*b),
        serde_json::Value::Number(n) => JsonValue::Number(n.to_string()),
        serde_json::Value::String(s) => JsonValue::Str(s.clone()),
        serde_json::Value::Array(a) => JsonValue::Array(a.iter().map(model_of).collect()),
        serde_json::Value::Object(m) => JsonValue::Object(
            m.iter().map(|(k, c)| JsonMember { key: k.clone(), value: model_of(c), text: c.to_string() }).collect(),
        ),
    }
}

/// `serde_json::from_str::<serde_json::Value>`.
#[verifier::external_body]
pub(crate) fn parse_json(text: &str) -> (r: Option<JsonValue>)
    ensures
        r == json_document(text@),
{
    match serde_json::from_str::<serde_json::Value>(text) {
        Ok(v) => Some(model_of(&v)),
        Err(_) => None,
    }
}

/// The members of a JSON object text; `None` when the text is not a JSON object.
pub fn parse_object(text: &str) -> (r: Option<Vec<JsonMember>>)
    ensures
        r == match json_document(text@) {
            Some(JsonValue::Object(m)) => Some(m),
            _ => None,
        },
{
    match parse_json(text) {
        Some(JsonValue::Object(m)) => Some(m),
        _ => None,
    }
}

/// The text a member's value is matched by: a string's own characters, otherwise the
/// value's JSON rendering.
pub open spec fn member_value_text(m: JsonMember) -> Seq<char> {
    match m.value {
        JsonValue::Str(s) => s@,
        _ => m.text@,
    }
}

/// A member is a hit: its key is exactly `key` and its value text, lowercased, contains
/// `needle` (already lowercased).
pub open spec fn member_hit(m: JsonMember, key: Seq<char>, needle: Seq<char>) -> bool {
    m.key@ == key && is_substring(lowercase(member_value_text(m)), needle)
}

/// Somewhere in `v` (at any depth, inside objects and arrays) an object member is a hit.
pub open spec fn has_key_value(v: JsonValue, key: Seq<char>, needle: Seq<char>) -> bool
    decreases v, 0int,
{
    match v {
        JsonValue::Array(a) => values_have_key_value(a@, key, needle),
        JsonValue::Object(ms) => members_have_key_value(ms@, key, needle),
        _ => false,
    }
}

/// Some value of `vs` satisfies `has_key_value`.
pub open spec fn values_have_key_value(vs: Seq<JsonValue>, key: Seq<char>, needle: Seq<char>) -> bool
    decreases vs, vs.len(),
{
    if vs.len() == 0 {
        false
    } else {
        has_key_value(vs[0], key, needle) || values_have_key_value(
            vs.subrange(1, vs.len() as int),
            key,
            needle,
        )
    }
}

/// Some member of `ms` is a hit, or holds a hit inside its value.
pub open spec fn members_have_key_value(ms: Seq<JsonMember>, key: Seq<char>, needle: Seq<char>) -> bool
    decreases ms, ms.len(),
{
    if ms.len() == 0 {
        false
    } else {
        member_hit(ms[0], key, needle) || has_key_value(ms[0].value, key, needle)
            || members_have_key_value(ms.subrange(1, ms.len() as int), key, needle)
    }
}


proof fn lemma_values_step(vs: Seq<JsonValue>, i: int, key: Seq<char>, needle: Seq<char>)
    requires
        0 <= i < vs.len(),
    ensures
        values_have_key_value(vs.subrange(i, vs.len() as int), key, needle) == (has_key_value(
            vs[i],
            key,
            needle,
        ) || values_have_key_value(vs.subrange(i + 1, vs.len() as int), key, needle)),
{
    let t = vs.subrange(i, vs.len() as int);
    assert(t.subrange(1, t.len() as int) == vs.subrange(i + 1, vs.len() as int));
}

proof fn lemma_members_step(ms: Seq<JsonMember>, i: int, key: Seq<char>, needle: Seq<char>)
    requires
        0 <= i < ms.len(),
    ensures
        members_have_key_value(ms.subrange(i, ms.len() as int), key, needle) == (member_hit(
            ms[i],
            key,
            needle,
        ) || has_key_value(ms[i].value, key, needle) || members_have_key_value(
            ms.subrange(i + 1, ms.len() as int),
            key,
            needle,
        )),
{
    let t = ms.subrange(i, ms.len() as int);
    assert(t.subrange(1, t.len() as int) == ms.subrange(i + 1, ms.len() as int));
}

/// Is this member a hit for `key` / `needle` (needle already lowercased).
fn member_is_hit(m: &JsonMember, key: &str, needle: &Vec<char>) -> (r: bool)
    ensures
        r == member_hit(*m, key@, needle@),
{
    if !str_eq(m.key.as_str(), key) {
        return false;
    }
    let text = match &m.value {
        JsonValue::Str(s) => to_lowercase(s.as_str()),
        _ => to_lowercase(m.text.as_str()),
    };
    let hay = chars_of(text.as_str());
    seq_contains(&hay, needle)
}

/// Searches `v` at every depth for an object member that is a hit.
pub fn find_key_value(v: &JsonValue, key: &str, needle: &Vec<char>) -> (r: bool)
    ensures
        r == has_key_value(*v, key@, needle@),
    decreases v,
{
    match v {
        JsonValue::Array(a) => {
            let mut i: usize = 0;
            assert(a@.subrange(0, a@.len() as int) == a@);
            while i < a.len()
                invariant
                    i <= a@.len(),
                    has_key_value(*v, key@, needle@) == values_have_key_value(
                        a@.subrange(i as int, a@.len() as int),
                        key@,
                        needle@,
                    ),
                    *v == JsonValue::Array(*a),
                decreases a@.len() - i,
            {
                proof {
                    lemma_values_step(a@, i as int, key@, needle@);
                }
                if find_key_value(&a[i], key, needle) {
                    return true;
                }
                i = i + 1;
            }
            false
        },
        JsonValue::Object(ms) => {
            let mut i: usize = 0;
            assert(ms@.subrange(0, ms@.len() as int) == ms@);
            while i < ms.len()
                invariant
                    i <= ms@.len(),
                    has_key_value(*v, key@, needle@) == members_have_key_value(
                        ms@.subrange(i as int, ms@.len() as int),
                        key@,
                        needle@,
                    ),
                    *v == JsonValue::Object(*ms),
                decreases ms@.len() - i,
            {
                proof {
                    lemma_members_step(ms@, i as int, key@, needle@);
                }
                if member_is_hit(&ms[i], key, needle) {
                    return true;
                }
                if find_key_value(&ms[i].value, key, needle) {
                    return true;
                }
                i = i + 1;
            }
            false
        },
        _ => false,
    }
}

/// Parses `args` as JSON and reports whether some object member, at any depth, has the key
/// `key` (exact) and a value whose text contains `value` case-insensitively. Text that is
/// not JSON (for example a truncated payload) never matches.
pub fn args_key_value_matches(args: &str, key: &str, value: &str) -> (r: bool)
    ensures
        r == match json_document(args@) {
            Some(doc) => has_key_value(doc, key@, lowercase(value@)),
            None => false,
        },
{
    match parse_json(args) {
        None => false,
        Some(doc) => {
            let lv = to_lowercase(value);
            let needle = chars_of(lv.as_str());
            find_key_value(&doc, key, &needle)
        },
    }
}

/// A member of object `ms` whose key is `k` and whose value text, lowercased, contains the
/// lowercased `v` makes the object match the key/value filter `k` / `v`: the value is
/// compared without regard to case.
pub proof fn lemma_member_match_ignores_case(ms: Vec<JsonMember>, i: int, k: Seq<char>, v: Seq<char>)
    requires
        0 <= i < ms@.len(),
        ms@[i].key@ == k,
        is_substring(lowercase(member_value_text(ms@[i])), lowercase(v)),
    ensures
        has_key_value(JsonValue::Object(ms), k, lowercase(v)),
{
    lemma_members_found(ms@, i, k, lowercase(v));
}

proof fn lemma_members_found(ms: Seq<JsonMember>, i: int, k: Seq<char>, n: Seq<char>)
    requires
        0 <= i < ms.len(),
        ms[i].key@ == k,
        is_substring(lowercase(member_value_text(ms[i])), n),
    ensures
        members_have_key_value(ms, k, n),
    decreases i,
{
    if i > 0 {
        let rest = ms.subrange(1, ms.len() as int);
        assert(rest[i - 1] == ms[i]);
        lemma_members_found(rest, i - 1, k, n);
    }
}

/// A value holding no object or array.
pub open spec fn is_scalar(v: JsonValue) -> bool {
    !(v is Array) && !(v is Object)
}

/// Conversely, an object whose members all hold plain values matches the key/value filter
/// `k` / `n` only through a member whose key is `k` and whose value text, lowercased,
/// contains `n`.
pub proof fn lemma_flat_match_has_member(ms: Vec<JsonMember>, k: Seq<char>, n: Seq<char>)
    requires
        forall|j: int| 0 <= j < ms@.len() ==> is_scalar(#[trigger] ms@[j].value),
        has_key_value(JsonValue::Object(ms), k, n),
    ensures
        exists|i: int| 0 <= i < ms@.len() && (#[trigger] ms@[i]).key@ == k && is_substring(lowercase(member_value_text(ms@[i])), n),
{
    lemma_flat_members(ms@, k, n);
}

proof fn lemma_flat_members(ms: Seq<JsonMember>, k: Seq<char>, n: Seq<char>)
    requires
        forall|j: int| 0 <= j < ms.len() ==> is_scalar(#[trigger] ms[j].value),
        members_have_key_value(ms, k, n),
    ensures
        exists|i: int| 0 <= i < ms.len() && (#[trigger] ms[i]).key@ == k && is_substring(lowercase(member_value_text(ms[i])), n),
    decreases ms.len(),
{
    let rest = ms.subrange(1, ms.len() as int);
    if ms[0].key@ == k && is_substring(lowercase(member_value_text(ms[0])), n) {
    } else {
        assert(is_scalar(ms[0].value));
        assert(!has_key_value(ms[0].value, k, n));
        assert forall|j: int| 0 <= j < rest.len() implies is_scalar(#[trigger] rest[j].value) by {
            assert(rest[j] == ms[j + 1]);
        }
        lemma_flat_members(rest, k, n);
        let i = choose|i: int| 0 <= i < rest.len() && (#[trigger] rest[i]).key@ == k && is_substring(lowercase(member_value_text(rest[i])), n);
        assert(ms[i + 1] == rest[i]);
    }
}

} // verus!
