//! The JSON values of `serde_json`, as far as the library reads them.
use vstd::prelude::*;

verus! {

#[verifier::external_type_specification]
#[verifier::external_body]
pub struct ExJsonValue(serde_json::Value);

#[verifier::external_type_specification]
#[verifier::external_body]
pub struct ExJsonError(serde_json::Error);

/// One step into a JSON value: the member with a key, or the element at a
/// position.
pub enum JsonStep {
    Key(Seq<char>),
    At(nat),
}

/// What stands at one place of a JSON value: a leaf, or an array of so many
/// elements, or an object.
pub enum JsonLeaf {
    Null,
    Bool(bool),
    /// A number, with its value when it is an integer that fits in `u64`.
    Number(Option<u64>),
    Str(Seq<char>),
    Array(nat),
    Object,
}

/// The contents of a JSON value: what stands at each path of steps within
/// it, the value itself at the empty path.
pub type JsonContents = Map<Seq<JsonStep>, JsonLeaf>;

/// The contents of a `serde_json::Value`.
pub uninterp spec fn json_contents(v: serde_json::Value) -> Map<Seq<JsonStep>, JsonLeaf>;

/// What `serde_json::from_str::<Value>` reads from `text`: the contents of
/// the value, or nothing when the text is not one JSON value.
pub uninterp spec fn json_read(text: Seq<char>) -> Option<Map<Seq<JsonStep>, JsonLeaf>>;

/// Whether `serde_json` reads `text` as one JSON value.
pub open spec fn json_accepts(text: Seq<char>) -> bool {
    json_read(text) is Some
}

/// What stands at the top of some contents.
pub open spec fn top(c: JsonContents) -> JsonLeaf {
    if c.contains_key(Seq::empty()) {
        c[Seq::empty()]
    } else {
        JsonLeaf::Null
    }
}

/// The contents below the path `prefix`.
pub open spec fn below(c: JsonContents, prefix: Seq<JsonStep>) -> JsonContents {
    Map::new(|p: Seq<JsonStep>| c.contains_key(prefix + p), |p: Seq<JsonStep>| c[prefix + p])
}

/// The contents of a lone `null`.
pub open spec fn null_contents() -> JsonContents {
    map![Seq::<JsonStep>::empty() => JsonLeaf::Null]
}

/// The member `key` of an object (`value[key]`): its contents when the
/// value is an object that has the member, else those of `null`.
pub open spec fn member(c: JsonContents, key: Seq<char>) -> JsonContents {
    if top(c) is Object && c.contains_key(seq![JsonStep::Key(key)]) {
        below(c, seq![JsonStep::Key(key)])
    } else {
        null_contents()
    }
}

/// The text of a JSON string (`Value::as_str`).
pub open spec fn text_of(c: JsonContents) -> Option<Seq<char>> {
    match top(c) {
        JsonLeaf::Str(s) => Some(s),
        _ => None,
    }
}

/// The number of a JSON integer that fits in `u64` (`Value::as_u64`).
pub open spec fn u64_of(c: JsonContents) -> Option<u64> {
    match top(c) {
        JsonLeaf::Number(n) => n,
        _ => None,
    }
}

/// The contents of the first element of an array, when it is a non-empty
/// array.
pub open spec fn first_element(c: JsonContents) -> Option<JsonContents> {
    match top(c) {
        JsonLeaf::Array(n) => if n > 0 { Some(below(c, seq![JsonStep::At(0)])) } else { None },
        _ => None,
    }
}

/// `serde_json::from_str::<Value>`: the JSON value that `text` holds, or the
/// error that stopped the reading; the value's contents are what
/// `json_read` names for the text.
#[verifier::external_body]
pub(crate) fn json_parse(text: &str) -> (r: Result<serde_json::Value, serde_json::Error>)
    ensures
        r is Ok <==> json_read(text@) is Some,
        r matches Ok(v) ==> json_read(text@) == Some(json_contents(v)),
{
    serde_json::from_str::<serde_json::Value>(text)
}

/// The message of a `serde_json::Error` (its `Display` text). Nothing is
/// stated of the message.
#[verifier::external_body]
pub(crate) fn json_error_text(e: &serde_json::Error) -> String {
    format!("{}", e)
}

/// `&value[key]` (`Index<&str> for Value`): the member named `key` when
/// `value` is an object that has one, else `Value::Null`; it never panics.
#[verifier::external_body]
pub(crate) fn json_member<'a>(value: &'a serde_json::Value, key: &str) -> (r: &'a serde_json::Value)
    ensures
        json_contents(*r) == member(json_contents(*value), key@),
{
    &value[key]
}

/// `Value::as_str`: the text of a JSON string, `None` for any other value.
#[verifier::external_body]
pub(crate) fn json_text(value: &serde_json::Value) -> (r: Option<String>)
    ensures
        match r {
            Some(s) => text_of(json_contents(*value)) == Some(s@),
            None => text_of(json_contents(*value)) is None,
        },
{
    match value.as_str() {
        Some(s) => Some(s.to_string()),
        None => None,
    }
}

/// `Value::as_u64`: the number of a JSON integer that fits in `u64`, `None`
/// for any other value.
#[verifier::external_body]
pub(crate) fn json_u64(value: &serde_json::Value) -> (r: Option<u64>)
    ensures
        r == u64_of(json_contents(*value)),
{
    value.as_u64()
}

/// `Value::as_array`: the elements of a JSON array, `None` for any other
/// value; element `i` holds what stands below step `i`.
#[verifier::external_body]
pub(crate) fn json_elements(value: &serde_json::Value) -> (r: Option<&Vec<serde_json::Value>>)
    ensures
        r is Some <==> top(json_contents(*value)) is Array,
        r matches Some(a) ==> top(json_contents(*value)) == JsonLeaf::Array(a@.len())
            && forall|i: int| 0 <= i < a@.len() ==> #[trigger] json_contents(a@[i])
                == below(json_contents(*value), seq![JsonStep::At(i as nat)]),
{
    value.as_array()
}

/// What `serde_json::from_slice::<Vec<Value>>` reads from `bytes`: the
/// contents of the elements of the JSON array they hold, in order, or
/// nothing when they do not hold one.
pub uninterp spec fn json_list_read(bytes: Seq<u8>) -> Option<Seq<Map<Seq<JsonStep>, JsonLeaf>>>;

/// Whether `serde_json` reads the bytes as a JSON array of values.
pub open spec fn json_list_accepts(bytes: Seq<u8>) -> bool {
    json_list_read(bytes) is Some
}

/// The contents of a list of values.
pub open spec fn values_contents(vs: Seq<serde_json::Value>) -> Seq<JsonContents> {
    vs.map_values(|v: serde_json::Value| json_contents(v))
}

/// `serde_json::from_slice::<Vec<Value>>`: the values of the JSON array
/// that the bytes hold, whose contents `json_list_read` names, or the error
/// that stopped the reading.
#[verifier::external_body]
pub(crate) fn json_parse_list(bytes: &[u8]) -> (r: Result<Vec<serde_json::Value>, serde_json::Error>)
    ensures
        r is Ok <==> json_list_read(bytes@) is Some,
        r matches Ok(vs) ==> json_list_read(bytes@) == Some(values_contents(vs@)),
{
    serde_json::from_slice::<Vec<serde_json::Value>>(bytes)
}

} // verus!
