use vstd::prelude::*;
use crate::errors::FuzzyError;

verus! {

#[verifier::external_type_specification]
#[verifier::external_body]
pub struct ExValue(serde_json::Value);

/// The optional integer field named `key` of the JSON payload `v`: `Some`
/// exactly when the field is present and representable as an i64. The field
/// set of a JSON value is fixed by the value itself, so this is a function of
/// the payload and the key alone.
pub uninterp spec fn json_i64_field(v: serde_json::Value, key: Seq<char>) -> Option<i64>;

/// Relies on serde_json::Value::get and serde_json::Value::as_i64: looks up
/// the field `key` of the payload and reads it as an i64; both are pure
/// lookups on the in-memory JSON value, so the result depends on the payload
/// and the key alone.
#[verifier::external_body]
fn get_i64_field(v: &serde_json::Value, key: &str) -> (r: Option<i64>)
    ensures
        r == json_i64_field(*v, key@),
{
    match v.get(key) {
        Some(field) => field.as_i64(),
        None => None,
    }
}

/// Extracts the fuzzy parameter pair from a request payload: the integer
/// fields `valueA` and `valueB`, each truncated to the i32 range the
/// pipeline works in. A payload that lacks either field, or carries
/// something other than an integer there, is rejected as malformed.
pub fn parse_a_and_b(json_node: &serde_json::Value) -> (r: Result<(i32, i32), FuzzyError>)
    ensures
        (match (json_i64_field(*json_node, "valueA"@), json_i64_field(*json_node, "valueB"@)) {
            (Some(a), Some(b)) => r == Ok::<(i32, i32), FuzzyError>((a as i32, b as i32)),
            _ => r == Err::<(i32, i32), FuzzyError>(FuzzyError::MalformedInput),
        }),
{
    let a = get_i64_field(json_node, "valueA");
    let b = get_i64_field(json_node, "valueB");
    match (a, b) {
        (Some(a_value), Some(b_value)) => Ok(
            (
                #[verifier::truncate]
                (a_value as i32),
                #[verifier::truncate]
                (b_value as i32),
            ),
        ),
        _ => Err(FuzzyError::MalformedInput),
    }
}

} // verus!
