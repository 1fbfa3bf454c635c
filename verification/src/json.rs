//! The attribute payload of a delimiter is JSON. Parsing it is the business
//! of `serde_json`; the library only needs to know whether the payload is a
//! JSON object (any other payload degrades to absent attributes).

use vstd::prelude::*;

verus! {

#[verifier::external_type_specification]
#[verifier::external_body]
#[verifier::reject_recursive_types(K)]
#[verifier::reject_recursive_types(V)]
pub struct ExJsonMap<K, V>(serde_json::Map<K, V>);

#[verifier::external_type_specification]
#[verifier::external_body]
pub struct ExJsonValue(serde_json::Value);

/// Whether `serde_json::from_str` accepts a text as a JSON object (its
/// grammar plus its recursion-depth limit). The verdict depends on the
/// text alone; this names it.
pub uninterp spec fn is_json_object(s: Seq<char>) -> bool;

/// Relies on `serde_json::from_str`: parses the text as JSON and returns
/// the key-to-value map exactly when the call accepts the text as a JSON
/// object; any parse error or non-object value yields `None`.
#[verifier::external_body]
pub(crate) fn parse_json_object(s: &str) -> (r: Option<
    serde_json::Map<String, serde_json::Value>,
>)
    ensures
        r is Some <==> is_json_object(s@),
{
    match serde_json::from_str::<serde_json::Value>(s) {
        Ok(serde_json::Value::Object(m)) => Some(m),
        _ => None,
    }
}

} // verus!
