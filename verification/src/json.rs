//! JSON values, as `serde_json` reads, holds and writes them.
//!
//! Parsing and printing are `serde_json`'s own: what it reads out of a text and
//! what text it prints are named here, not spelled out.
use vstd::prelude::*;

verus! {

/// A JSON value.
///
/// A number is given by the text that `serde_json` prints for it, which tells
/// integers and fractions apart.
pub enum Json {
    Null,
    Bool(bool),
    Number(Seq<char>),
    Text(Seq<char>),
    Array(Seq<Json>),
    Object(Map<Seq<char>, Json>),
}

/// Arrays and objects are nested at most `depth` deep in `json`.
pub open spec fn nested_within(json: Json, depth: nat) -> bool
    decreases depth,
{
    match json {
        Json::Array(items) => depth > 0 && forall|i: int|
            0 <= i < items.len() ==> nested_within(#[trigger] items[i], (depth - 1) as nat),
        Json::Object(members) => depth > 0 && forall|key: Seq<char>| #[trigger]
            members.contains_key(key) ==> nested_within(members[key], (depth - 1) as nat),
        _ => true,
    }
}

/// Every number in `json`, up to `depth` levels down, is an integer.
pub open spec fn integral_within(json: Json, depth: nat) -> bool
    decreases depth,
{
    match json {
        Json::Number(text) => forall|i: int|
            0 <= i < text.len() ==> '0' <= #[trigger] text[i] <= '9' || text[i] == '-',
        Json::Array(items) => depth > 0 ==> forall|i: int|
            0 <= i < items.len() ==> integral_within(#[trigger] items[i], (depth - 1) as nat),
        Json::Object(members) => depth > 0 ==> forall|key: Seq<char>| #[trigger]
            members.contains_key(key) ==> integral_within(members[key], (depth - 1) as nat),
        _ => true,
    }
}

/// What is read of a value without looking into arrays and objects.
pub enum JsonValue {
    Null,
    Bool(bool),
    Number(String),
    Text(String),
    Array,
    Object,
}

impl JsonValue {
    /// This is what can be read of `json`.
    pub open spec fn outlines(self, json: Json) -> bool {
        match json {
            Json::Null => self is Null,
            Json::Bool(flag) => self == JsonValue::Bool(flag),
            Json::Number(text) => self matches JsonValue::Number(number) && number@ == text,
            Json::Text(text) => self matches JsonValue::Text(string) && string@ == text,
            Json::Array(_) => self is Array,
            Json::Object(_) => self is Object,
        }
    }
}

/// A value to be put into an object.
pub enum NewValue {
    Text(String),
    EmptyArray,
    Object(serde_json::Map<String, serde_json::Value>),
}

impl NewValue {
    pub open spec fn json(self) -> Json {
        match self {
            NewValue::Text(text) => Json::Text(text@),
            NewValue::EmptyArray => Json::Array(Seq::empty()),
            NewValue::Object(object) => Json::Object(members(object)),
        }
    }
}

/// `serde_json::Value`, which is only carried.
#[verifier::external_type_specification]
#[verifier::external_body]
pub struct ExternalValue(serde_json::Value);

/// `serde_json::Map`, the members of a JSON object.
#[verifier::external_type_specification]
#[verifier::external_body]
#[verifier::reject_recursive_types(K)]
#[verifier::reject_recursive_types(V)]
pub struct ExternalMap<K, V>(serde_json::Map<K, V>);

/// `serde_json::Error`, which is only carried.
#[verifier::external_type_specification]
#[verifier::external_body]
pub struct ExternalError(serde_json::Error);

/// The members that an object holds.
pub uninterp spec fn members(object: serde_json::Map<String, serde_json::Value>) -> Map<
    Seq<char>,
    Json,
>;

/// What `serde_json::from_slice` reads out of a text; `None` where it reports
/// an error.
pub uninterp spec fn json_of_text(text: Seq<u8>) -> Option<Json>;

/// What `serde_json::to_vec` prints for an object with the given members.
pub uninterp spec fn text_of_object(members: Map<Seq<char>, Json>) -> Seq<u8>;

/// Calls `serde_json::from_slice` for a `serde_json::Value` and keeps the value
/// where it is an object.
///
/// Claimed: what is read depends on the text alone, an object comes back with
/// the members that were read, and nothing comes back for a text that is no
/// JSON or is JSON of another kind. `serde_json` refuses a text in which more
/// than 127 arrays and objects are nested.
#[verifier::external_body]
pub(crate) fn parse_object(text: &[u8]) -> (object: Option<
    serde_json::Map<String, serde_json::Value>,
>)
    ensures
        match object {
            Some(o) => json_of_text(text@) == Some(Json::Object(members(o))) && nested_within(
                Json::Object(members(o)),
                127,
            ),
            None => !(json_of_text(text@) matches Some(Json::Object(_))),
        },
{
    match serde_json::from_slice::<serde_json::Value>(text) {
        Ok(serde_json::Value::Object(object)) => Some(object),
        _ => None,
    }
}

/// Calls `serde_json::Map::get`, and `serde_json::Number::to_string` for the
/// text of a number.
///
/// Claimed: a value comes back exactly where the object has a member of that
/// name, and it is the value of that member, arrays and objects without what
/// they hold.
#[verifier::external_body]
pub(crate) fn get_member(
    object: &serde_json::Map<String, serde_json::Value>,
    key: &str,
) -> (value: Option<JsonValue>)
    ensures
        match value {
            Some(v) => members(*object).contains_key(key@) && v.outlines(members(*object)[key@]),
            None => !members(*object).contains_key(key@),
        },
{
    match object.get(key) {
        None => None,
        Some(serde_json::Value::Null) => Some(JsonValue::Null),
        Some(serde_json::Value::Bool(flag)) => Some(JsonValue::Bool(*flag)),
        Some(serde_json::Value::Number(number)) => Some(JsonValue::Number(number.to_string())),
        Some(serde_json::Value::String(text)) => Some(JsonValue::Text(text.clone())),
        Some(serde_json::Value::Array(_)) => Some(JsonValue::Array),
        Some(serde_json::Value::Object(_)) => Some(JsonValue::Object),
    }
}

/// Calls `serde_json::Map::new`.
///
/// Claimed: the new object has no members.
#[verifier::external_body]
pub(crate) fn new_object() -> (object: serde_json::Map<String, serde_json::Value>)
    ensures
        members(object).is_empty(),
{
    serde_json::Map::new()
}

/// Calls `serde_json::Map::insert`.
///
/// Claimed: the object has the new member afterwards, in the place of one of
/// the same name, and its other members stay as they are.
#[verifier::external_body]
pub(crate) fn insert_member(
    object: &mut serde_json::Map<String, serde_json::Value>,
    key: String,
    value: NewValue,
)
    ensures
        members(*final(object)) == members(*old(object)).insert(key@, value.json()),
{
    object.insert(key, match value {
        NewValue::Text(text) => serde_json::Value::String(text),
        NewValue::EmptyArray => serde_json::Value::Array(Vec::new()),
        NewValue::Object(inner) => serde_json::Value::Object(inner),
    });
}

/// Calls `serde_json::to_vec` on the members of an object.
///
/// Claimed: printing succeeds, since every name is a string and every number is
/// finite; what is printed depends on the members alone, which `serde_json`
/// keeps in the order of their names; and reading it gives the same object
/// back. The last is claimed only where every number is an integer:
/// `serde_json` may read a fraction that it printed as a neighbouring one. The
/// printer calls itself for every level of nesting, so the depth is limited.
#[verifier::external_body]
pub(crate) fn object_text(
    object: &serde_json::Map<String, serde_json::Value>,
) -> (text: Result<Vec<u8>, serde_json::Error>)
    requires
        nested_within(Json::Object(members(*object)), 127),
    ensures
        text is Ok,
        text->Ok_0@ == text_of_object(members(*object)),
        integral_within(Json::Object(members(*object)), 127) ==> json_of_text(text->Ok_0@) == Some(
            Json::Object(members(*object)),
        ),
{
    serde_json::to_vec(object)
}

} // verus!
