//! The JSON document types that payloads and parameters are carried in.
//!
//! Values are opaque to proofs: the library moves them from frames to waiters without
//! looking inside. Of an object only its members are modelled, by two names: what it maps
//! each key to, and the order in which it hands its keys out.

use vstd::prelude::*;

verus! {

/// A JSON value.
#[verifier::external_type_specification]
#[verifier::external_body]
pub struct ExValue(serde_json::Value);

/// A JSON object.
#[verifier::external_type_specification]
#[verifier::external_body]
#[verifier::reject_recursive_types(K)]
#[verifier::reject_recursive_types(V)]
pub struct ExMap<K, V>(serde_json::Map<K, V>);

/// A decoded JSON value.
pub type JsonValue = serde_json::Value;

/// A decoded JSON object.
pub type JsonMap = serde_json::Map<String, serde_json::Value>;

/// The members of an object: the value stored under each key.
pub uninterp spec fn object_fields(object: serde_json::Map<String, serde_json::Value>) -> Map<
    Seq<char>,
    serde_json::Value,
>;

/// The keys of an object in the order in which it is iterated.
pub uninterp spec fn object_keys(object: serde_json::Map<String, serde_json::Value>) -> Seq<
    Seq<char>,
>;

/// `serde_json::Map::get`: the value stored under `key`, if the object has that key.
#[verifier::external_body]
pub(crate) fn object_get<'a>(object: &'a JsonMap, key: &str) -> (found: Option<&'a JsonValue>)
    ensures
        found == if object_fields(*object).contains_key(key@) {
            Some(&object_fields(*object)[key@])
        } else {
            None
        },
{
    object.get(key)
}

/// `serde_json::Map::iter`: the members of the object in iteration order. Every key that
/// is handed out is a key of the object, paired with the value stored under it; no key is
/// handed out twice, and every key of the object is handed out.
#[verifier::external_body]
pub(crate) fn object_entries<'a>(object: &'a JsonMap) -> (entries: Vec<(&'a str, &'a JsonValue)>)
    ensures
        entries@.len() == object_keys(*object).len(),
        forall|i: int|
            0 <= i < entries@.len() ==> {
                &&& (#[trigger] entries@[i]).0@ == object_keys(*object)[i]
                &&& object_fields(*object).contains_key(object_keys(*object)[i])
                &&& *entries@[i].1 == object_fields(*object)[object_keys(*object)[i]]
            },
        forall|i: int, j: int|
            0 <= i < j < entries@.len() ==> (#[trigger] entries@[i]).0@ != (#[trigger] entries@[j]).0@,
        forall|key: Seq<char>|
            #[trigger] object_fields(*object).contains_key(key) ==> exists|i: int|
                0 <= i < entries@.len() && (#[trigger] entries@[i]).0@ == key,
{
    object.iter().map(|(key, value)| (key.as_str(), value)).collect()
}

} // verus!
