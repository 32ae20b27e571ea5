//! JSON values: the model that contracts speak of, and the operations of `serde_json` that the
//! library builds on.

use serde_json::Value;
use vstd::prelude::*;

verus! {

/// A JSON number as `serde_json` keeps it: a nonnegative integer, a negative integer, or a finite
/// double, which stands here by its IEEE 754 bit pattern.
pub enum JsonNumber {
    PosInt(u64),
    NegInt(i64),
    Float(u64),
}

/// The contents of a `serde_json::Value`. An object has no order of its own.
pub enum Json {
    Null,
    Bool(bool),
    Number(JsonNumber),
    String(Seq<char>),
    Array(Seq<Json>),
    Object(Map<Seq<char>, Json>),
}

/// `serde_json::Value`.
#[verifier::external_type_specification]
#[verifier::external_body]
pub struct ExValue(serde_json::Value);

/// What a `serde_json::Value` holds.
pub uninterp spec fn json_of(value: serde_json::Value) -> Json;

/// The compact text of a JSON value.
pub uninterp spec fn json_text(json: Json) -> Seq<char>;

/// What each value of a sequence holds.
pub open spec fn jsons(values: Seq<serde_json::Value>) -> Seq<Json> {
    values.map_values(|value: serde_json::Value| json_of(value))
}

/// A nonnegative integer.
pub open spec fn json_u64(n: u64) -> Json {
    Json::Number(JsonNumber::PosInt(n))
}

/// What an optional value holds: null when it is absent.
pub open spec fn json_option(value: Option<serde_json::Value>) -> Json {
    match value {
        Some(v) => json_of(v),
        None => Json::Null,
    }
}

/// The members of an object. No other value has any.
pub open spec fn members(json: Json) -> Map<Seq<char>, Json> {
    match json {
        Json::Object(fields) => fields,
        _ => Map::empty(),
    }
}

/// The elements of an array. No other value has any.
pub open spec fn elements(json: Json) -> Seq<Json> {
    match json {
        Json::Array(items) => items,
        _ => Seq::empty(),
    }
}

/// The member `name`, or null where there is none.
pub open spec fn member_or_null(json: Json, name: Seq<char>) -> Json {
    if members(json).contains_key(name) {
        members(json)[name]
    } else {
        Json::Null
    }
}

/// The object that holds what `json` does, but `member` under `name`.
pub open spec fn with_member(json: Json, name: Seq<char>, member: Json) -> Json {
    Json::Object(members(json).insert(name, member))
}

/// Whether members can be written into the value: an object, or null, which counts as an empty
/// one.
pub open spec fn takes_members(json: Json) -> bool {
    json is Null || json is Object
}

/// `<Value as Clone>::clone`: the copy holds the same as the value.
pub assume_specification[ <serde_json::Value as Clone>::clone ](
    value: &serde_json::Value,
) -> (copy: serde_json::Value)
    ensures
        json_of(copy) == json_of(*value),
;

/// `Value::get` with a string: the member of that name; nothing where the value is not an object
/// or has no such member.
#[verifier::external_body]
pub(crate) fn get_member<'a>(value: &'a Value, name: &str) -> (member: Option<&'a Value>)
    ensures
        member is Some <==> members(json_of(*value)).contains_key(name@),
        member matches Some(m) ==> json_of(*m) == members(json_of(*value))[name@],
{
    value.get(name)
}

/// `Value::get` with a `usize`: the element at that place; nothing where the value is not an
/// array or is too short.
#[verifier::external_body]
pub(crate) fn get_element(value: &Value, index: usize) -> (element: Option<&Value>)
    ensures
        element is Some <==> index < elements(json_of(*value)).len(),
        element matches Some(e) ==> json_of(*e) == elements(json_of(*value))[index as int],
{
    value.get(index)
}

/// `IndexMut::index_mut` of `Value` with a string: the place of the member of that name. A null
/// value becomes an object, and a missing member is put in as null. On any other kind of value
/// the call panics.
#[verifier::external_body]
pub(crate) fn member_mut<'a>(value: &'a mut Value, name: &str) -> (member: &'a mut Value)
    requires
        takes_members(json_of(*old(value))),
    ensures
        json_of(*member) == member_or_null(json_of(*old(value)), name@),
        json_of(*final(value)) == with_member(json_of(*old(value)), name@, json_of(*final(member))),
{
    &mut value[name]
}

/// `Value::as_str`: the text of a string value; nothing for any other value.
#[verifier::external_body]
pub(crate) fn string_of(value: &Value) -> (text: Option<&str>)
    ensures
        text matches Some(t) ==> json_of(*value) == Json::String(t@),
        text is None ==> !(json_of(*value) is String),
{
    value.as_str()
}

/// `<Value as From<Map<String, Value>>>::from` on an empty map: the object without members.
#[verifier::external_body]
pub(crate) fn empty_object() -> (value: Value)
    ensures
        json_of(value) == Json::Object(Map::empty()),
{
    Value::from(serde_json::Map::new())
}

/// `<Value as From<String>>::from`: the string value with that text.
#[verifier::external_body]
pub(crate) fn string_value(text: String) -> (value: Value)
    ensures
        json_of(value) == Json::String(text@),
{
    Value::from(text)
}

/// `<Value as From<u64>>::from`: the number.
#[verifier::external_body]
pub(crate) fn u64_value(n: u64) -> (value: Value)
    ensures
        json_of(value) == json_u64(n),
{
    Value::from(n)
}

/// `<Value as From<bool>>::from`: the truth value.
#[verifier::external_body]
pub(crate) fn bool_value(b: bool) -> (value: Value)
    ensures
        json_of(value) == Json::Bool(b),
{
    Value::from(b)
}

/// `<Value as From<Option<Value>>>::from`: the value itself, or null where there is none.
#[verifier::external_body]
pub(crate) fn option_value(option: Option<Value>) -> (value: Value)
    ensures
        json_of(value) == json_option(option),
{
    Value::from(option)
}

/// `<Value as From<Vec<Value>>>::from`: the array of the values in their order.
#[verifier::external_body]
pub(crate) fn array_value(items: Vec<Value>) -> (value: Value)
    ensures
        json_of(value) == Json::Array(jsons(items@)),
{
    Value::from(items)
}

/// `<Value as ToString>::to_string`: the compact text of the value. It is a single line: the
/// formatter puts no white space between tokens, and a line feed in a string is escaped.
#[verifier::external_body]
pub(crate) fn value_text(value: &Value) -> (text: String)
    ensures
        text@ == json_text(json_of(*value)),
        !text@.contains('\n'),
{
    value.to_string()
}

/// Writes `member` under `name` into an object.
pub(crate) fn set_member(object: &mut Value, name: &str, member: Value)
    requires
        takes_members(json_of(*old(object))),
    ensures
        json_of(*final(object)) == with_member(json_of(*old(object)), name@, json_of(member)),
{
    *member_mut(object, name) = member;
}

/// An object has its members and no elements, an array has its elements and no members, and any
/// other value has neither.
pub proof fn law_members_and_elements(
    fields: Map<Seq<char>, Json>,
    items: Seq<Json>,
    text: Seq<char>,
    truth: bool,
    number: JsonNumber,
    name: Seq<char>,
)
    ensures
        members(Json::Object(fields)) == fields,
        elements(Json::Array(items)) == items,
        !members(Json::Array(items)).contains_key(name),
        !members(Json::String(text)).contains_key(name),
        !members(Json::Bool(truth)).contains_key(name),
        !members(Json::Number(number)).contains_key(name),
        !members(Json::Null).contains_key(name),
        elements(Json::Object(fields)).len() == 0,
        elements(Json::String(text)).len() == 0,
        elements(Json::Bool(truth)).len() == 0,
        elements(Json::Number(number)).len() == 0,
        elements(Json::Null).len() == 0,
        takes_members(Json::Object(fields)),
        takes_members(Json::Null),
        !takes_members(Json::Array(items)),
        !takes_members(Json::String(text)),
        !takes_members(Json::Bool(truth)),
        !takes_members(Json::Number(number)),
{
}

/// What is written under a name is what is found under it, and nothing else changes.
pub proof fn law_written_member_is_found(
    fields: Map<Seq<char>, Json>,
    name: Seq<char>,
    member: Json,
    other: Seq<char>,
)
    ensures
        with_member(Json::Object(fields), name, member) is Object,
        members(with_member(Json::Object(fields), name, member)).contains_key(name),
        members(with_member(Json::Object(fields), name, member))[name] == member,
        other != name ==> members(
            with_member(Json::Object(fields), name, member),
        ).contains_key(other) == fields.contains_key(other),
        other != name && fields.contains_key(other) ==> members(
            with_member(Json::Object(fields), name, member),
        )[other] == fields[other],
        with_member(Json::Null, name, member) == Json::Object(map![name => member]),
        fields.contains_key(name) ==> member_or_null(Json::Object(fields), name) == fields[name],
        !fields.contains_key(name) ==> member_or_null(Json::Object(fields), name) is Null,
        member_or_null(Json::Null, name) is Null,
{
    assert(Map::<Seq<char>, Json>::empty().insert(name, member) =~= map![name => member]);
}

/// Values in a sequence are taken one by one, a number by what it is, and a missing value as null.
pub proof fn law_values_one_by_one(values: Seq<serde_json::Value>, i: int, n: u64)
    requires
        0 <= i < values.len(),
    ensures
        jsons(values).len() == values.len(),
        jsons(values)[i] == json_of(values[i]),
        json_u64(n) == Json::Number(JsonNumber::PosInt(n)),
        json_option(Some(values[i])) == json_of(values[i]),
        json_option(None) is Null,
{
}

} // verus!
