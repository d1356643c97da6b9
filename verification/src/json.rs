//! JSON values as this library sees them.
//!
//! The values themselves are `serde_json`'s. Verus cannot look inside them, so
//! this module gives each one a mathematical model, [`Json`], and states for
//! every `serde_json` operation the library uses what it does to that model.
//! Nothing in this module is proved: each item below is an assumption about
//! `serde_json`, and everything else in the crate is proved from them.

use crate::text::ascending;
use vstd::prelude::*;

verus! {

/// `serde_json::Value`, opaque to the verifier.
#[verifier::external_type_specification]
#[verifier::external_body]
pub struct ExValue(serde_json::Value);

/// `serde_json::Number`, opaque to the verifier. The library never reads a
/// number; the type only stands in the model of a value.
#[verifier::external_type_specification]
#[verifier::external_body]
pub struct ExNumber(serde_json::Number);

/// `serde_json::Map`, opaque to the verifier.
#[verifier::external_type_specification]
#[verifier::external_body]
#[verifier::reject_recursive_types(K)]
#[verifier::reject_recursive_types(V)]
pub struct ExObject<K, V>(serde_json::Map<K, V>);

/// The members of a JSON object: member name to member value.
pub type Fields = Map<Seq<char>, Json>;

/// The mathematical model of a JSON value. One variant per variant of
/// `serde_json::Value`; an object is the mapping from its member names to the
/// models of its members, so the order of members is not part of the model.
pub enum Json {
    Null,
    Bool(bool),
    Number(serde_json::Number),
    Text(Seq<char>),
    List(Seq<Json>),
    Object(Fields),
}

/// The model of a `serde_json::Value`: what the value is, as far as the
/// operations below tell.
pub uninterp spec fn json_of(value: serde_json::Value) -> Json;

/// The members held by a `serde_json::Map`, as far as the operations below
/// tell.
pub uninterp spec fn fields_of(object: serde_json::Map<String, serde_json::Value>) -> Fields;

/// The names of a list of object members, in the order of the list.
pub open spec fn entry_names(entries: Seq<(&String, &serde_json::Value)>) -> Seq<Seq<char>> {
    entries.map_values(|entry: (&String, &serde_json::Value)| entry.0@)
}

/// Assumed of `Value::as_object`: it hands out the map of an object, and
/// `None` for every other kind of value.
pub assume_specification[ serde_json::Value::as_object ](
    value: &serde_json::Value,
) -> (object: Option<&serde_json::Map<String, serde_json::Value>>)
    ensures
        match json_of(*value) {
            Json::Object(fields) => object is Some && fields_of(*object.unwrap()) == fields,
            _ => object is None,
        },
;

/// Assumed of `Value::as_object_mut`: it lends out the map of an object, and
/// the value is afterwards the object with whatever members the borrower left
/// in the map. Every other kind of value yields `None` and stays as it was.
pub assume_specification[ serde_json::Value::as_object_mut ](
    value: &mut serde_json::Value,
) -> (object: Option<&mut serde_json::Map<String, serde_json::Value>>)
    ensures
        match json_of(*old(value)) {
            Json::Object(fields) => object is Some && fields_of(*object.unwrap()) == fields
                && json_of(*final(value)) == Json::Object(fields_of(*final(object.unwrap()))),
            _ => object is None && json_of(*final(value)) == json_of(*old(value)),
        },
;

/// Assumed of `Map::new`: it makes a map without members.
pub assume_specification[ serde_json::Map::<String, serde_json::Value>::new ]() -> (object:
    serde_json::Map<String, serde_json::Value>)
    ensures
        fields_of(object) == Fields::empty(),
;

/// Assumed of `Map::insert`: it sets one member, replacing a member of the
/// same name, and returns the value that member had before, if there was one.
pub assume_specification[ serde_json::Map::<String, serde_json::Value>::insert ](
    object: &mut serde_json::Map<String, serde_json::Value>,
    k: String,
    v: serde_json::Value,
) -> (previous: Option<serde_json::Value>)
    ensures
        fields_of(*final(object)) == fields_of(*old(object)).insert(k@, json_of(v)),
        match previous {
            Some(before) => fields_of(*old(object)).contains_key(k@) && json_of(before)
                == fields_of(*old(object))[k@],
            None => !fields_of(*old(object)).contains_key(k@),
        },
;

/// Assumed of `Value::clone`: the copy has the same model as the value.
pub assume_specification[ <serde_json::Value as Clone>::clone ](value: &serde_json::Value) -> (copy:
    serde_json::Value)
    ensures
        json_of(copy) == json_of(*value),
;

/// Assumed of `Map::get` with a string key: it finds the member of that name,
/// if the map has one.
#[verifier::external_body]
pub(crate) fn member<'a>(
    object: &'a serde_json::Map<String, serde_json::Value>,
    name: &str,
) -> (found: Option<&'a serde_json::Value>)
    ensures
        match found {
            Some(value) => fields_of(*object).contains_key(name@) && json_of(*value) == fields_of(
                *object,
            )[name@],
            None => !fields_of(*object).contains_key(name@),
        },
{
    object.get(name)
}

/// Assumed of `Map::entry` followed by `Entry::or_insert`: it lends out the
/// member of the given name, after setting it to `default` if the map had no
/// such member. The map is afterwards what it was, with that member as the
/// borrower left it.
#[verifier::external_body]
pub(crate) fn member_or_insert<'a>(
    object: &'a mut serde_json::Map<String, serde_json::Value>,
    name: String,
    default: serde_json::Value,
) -> (slot: &'a mut serde_json::Value)
    ensures
        json_of(*slot) == (if fields_of(*old(object)).contains_key(name@) {
            fields_of(*old(object))[name@]
        } else {
            json_of(default)
        }),
        fields_of(*final(object)) == fields_of(*old(object)).insert(name@, json_of(*final(slot))),
{
    object.entry(name).or_insert(default)
}

/// Assumed of `Map::iter`, collected: it yields every member once, in
/// ascending order of the names. Without `serde_json`'s `preserve_order`
/// feature, which this crate does not enable, the map is a
/// `BTreeMap<String, Value>`: it iterates in the order of `String`, which
/// compares byte by byte, and on UTF-8 that is the order of the code points.
#[verifier::external_body]
pub(crate) fn members<'a>(object: &'a serde_json::Map<String, serde_json::Value>) -> (entries: Vec<
    (&'a String, &'a serde_json::Value),
>)
    ensures
        ascending(entry_names(entries@)),
        entry_names(entries@).to_set() == fields_of(*object).dom(),
        forall|i: int|
            0 <= i < entries@.len() ==> fields_of(*object).contains_key(
                (#[trigger] entries@[i]).0@,
            ) && json_of(*entries@[i].1) == fields_of(*object)[entries@[i].0@],
{
    object.iter().collect()
}

/// Assumed of `Value::Object`: it is the object with the members of the map.
#[verifier::external_body]
pub(crate) fn object_value(object: serde_json::Map<String, serde_json::Value>) -> (value:
    serde_json::Value)
    ensures
        json_of(value) == Json::Object(fields_of(object)),
{
    serde_json::Value::Object(object)
}

/// Assumed of `Value::String`: it is the JSON string with the given text.
#[verifier::external_body]
pub(crate) fn text_value(text: String) -> (value: serde_json::Value)
    ensures
        json_of(value) == Json::Text(text@),
{
    serde_json::Value::String(text)
}

} // verus!
