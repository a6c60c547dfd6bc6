//! JSON values: what they hold, and the calls that read and change them.

use vstd::prelude::*;

verus! {

/// A JSON value as mathematics sees it.
///
/// `Int` is a number that is held as an integer, `Real` any other number, by the bits of its
/// double-precision value.
pub enum Json {
    Null,
    Bool(bool),
    Int(int),
    Real(u64),
    Text(Seq<char>),
    List(Seq<Json>),
    Object(Map<Seq<char>, Json>),
}

/// `serde_json::Value`, carried as an opaque value.
#[verifier::external_type_specification]
#[verifier::external_body]
pub struct ExJsonValue(serde_json::Value);

/// `serde_json::Map`, carried as an opaque collection.
#[verifier::external_type_specification]
#[verifier::external_body]
#[verifier::reject_recursive_types(K)]
#[verifier::reject_recursive_types(V)]
pub struct ExJsonMap<K, V>(serde_json::Map<K, V>);

/// What a `serde_json::Value` holds.
pub uninterp spec fn json_view(value: serde_json::Value) -> Json;

/// What the values of a list hold.
pub open spec fn json_views(values: Seq<serde_json::Value>) -> Seq<Json> {
    values.map_values(|value: serde_json::Value| json_view(value))
}

/// What a `serde_json::Map` holds, key by key.
pub uninterp spec fn object_entries(
    object: serde_json::Map<String, serde_json::Value>,
) -> Map<Seq<char>, Json>;

/// `serde_json::Value::get_mut` with a text index: the member of that name, where the value is
/// an object that has one, and `None` otherwise. What is written through the reference becomes
/// the new member; the other members stay.
#[verifier::external_body]
pub(crate) fn member_mut<'a>(value: &'a mut serde_json::Value, key: &str) -> (member: Option<
    &'a mut serde_json::Value,
>)
    ensures
        match json_view(*old(value)) {
            Json::Object(entries) => if entries.dom().contains(key@) {
                &&& member is Some
                &&& json_view(*member->0) == entries[key@]
                &&& json_view(*final(value)) == Json::Object(
                    entries.insert(key@, json_view(*final(member->0))),
                )
            } else {
                member is None && json_view(*final(value)) == json_view(*old(value))
            },
            _ => member is None && json_view(*final(value)) == json_view(*old(value)),
        },
{
    value.get_mut(key)
}

/// `serde_json::Value::as_object_mut`: the members of an object, `None` for any other value.
/// What is done to the members through the reference is done to the value.
#[verifier::external_body]
pub(crate) fn object_mut<'a>(value: &'a mut serde_json::Value) -> (object: Option<
    &'a mut serde_json::Map<String, serde_json::Value>,
>)
    ensures
        match json_view(*old(value)) {
            Json::Object(entries) => {
                &&& object is Some
                &&& object_entries(*object->0) == entries
                &&& json_view(*final(value)) == Json::Object(object_entries(*final(object->0)))
            },
            _ => object is None && json_view(*final(value)) == json_view(*old(value)),
        },
{
    value.as_object_mut()
}

/// `serde_json::Map::get_mut`: the member of that name, if there is one. What is written through
/// the reference becomes the new member; the other members stay.
#[verifier::external_body]
pub(crate) fn entry_mut<'a>(
    object: &'a mut serde_json::Map<String, serde_json::Value>,
    key: &str,
) -> (member: Option<&'a mut serde_json::Value>)
    ensures
        ({
            let entries = object_entries(*old(object));
            if entries.dom().contains(key@) {
                &&& member is Some
                &&& json_view(*member->0) == entries[key@]
                &&& object_entries(*final(object)) == entries.insert(
                    key@,
                    json_view(*final(member->0)),
                )
            } else {
                member is None && object_entries(*final(object)) == entries
            }
        }),
{
    object.get_mut(key)
}

/// `serde_json::Map::contains_key`: whether there is a member of that name.
#[verifier::external_body]
pub(crate) fn has_entry(
    object: &serde_json::Map<String, serde_json::Value>,
    key: &str,
) -> (found: bool)
    ensures
        found == object_entries(*object).dom().contains(key@),
{
    object.contains_key(key)
}

/// `serde_json::Map::insert`: the member of that name is `value` afterwards, whether or not there
/// was one before; the other members stay.
#[verifier::external_body]
pub(crate) fn put_entry(
    object: &mut serde_json::Map<String, serde_json::Value>,
    key: String,
    value: serde_json::Value,
)
    ensures
        object_entries(*final(object)) == object_entries(*old(object)).insert(
            key@,
            json_view(value),
        ),
{
    object.insert(key, value);
}

/// `serde_json::Map::new`: an object without members.
#[verifier::external_body]
pub(crate) fn new_object() -> (object: serde_json::Map<String, serde_json::Value>)
    ensures
        object_entries(object) == (Map::<Seq<char>, Json>::empty()),
{
    serde_json::Map::new()
}

/// `serde_json::Value::Object`: the object with these members.
#[verifier::external_body]
pub(crate) fn object_value(
    object: serde_json::Map<String, serde_json::Value>,
) -> (value: serde_json::Value)
    ensures
        json_view(value) == Json::Object(object_entries(object)),
{
    serde_json::Value::Object(object)
}

/// `serde_json::Value::Array`: the list of these values.
#[verifier::external_body]
pub(crate) fn list_value(values: Vec<serde_json::Value>) -> (value: serde_json::Value)
    ensures
        json_view(value) == Json::List(json_views(values@)),
{
    serde_json::Value::Array(values)
}

/// `serde_json::Value::String`: the text as a value.
#[verifier::external_body]
pub(crate) fn text_value(text: String) -> (value: serde_json::Value)
    ensures
        json_view(value) == Json::Text(text@),
{
    serde_json::Value::String(text)
}

/// `serde_json::Value::from` on an `i32`: the number as a value.
#[verifier::external_body]
pub(crate) fn int_value(number: i32) -> (value: serde_json::Value)
    ensures
        json_view(value) == Json::Int(number as int),
{
    serde_json::Value::from(number)
}

} // verus!
