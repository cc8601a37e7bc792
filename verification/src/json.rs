//! JSON values as `serde_json` holds them.
//!
//! A value is described by its nodes: what stands at each path of keys below
//! it. The empty path is the value itself.

use crate::text_set;
use serde_json::Value;
use vstd::prelude::*;
use vstd::string::*;

verus! {

/// `serde_json::Value`: any JSON value.
#[verifier::external_type_specification]
#[verifier::external_body]
pub struct ExValue(Value);

/// What a value is.
pub enum JsonKind {
    Object,
    Other,
}

/// What stands at each path of object keys below a value.
pub uninterp spec fn value_nodes(value: Value) -> Map<Seq<Seq<char>>, JsonKind>;

/// What `serde_json::from_str::<Value>` makes of a text: what stands at each
/// path of the value, or the message of the error.
pub uninterp spec fn parsed_value(text: Seq<char>) -> Result<
    Map<Seq<Seq<char>>, JsonKind>,
    Seq<char>,
>;

/// The nodes of the member under the key.
pub open spec fn member(
    nodes: Map<Seq<Seq<char>>, JsonKind>,
    key: Seq<char>,
) -> Map<Seq<Seq<char>>, JsonKind> {
    Map::new(
        |path: Seq<Seq<char>>| nodes.contains_key(seq![key] + path),
        |path: Seq<Seq<char>>| nodes[seq![key] + path],
    )
}

/// There is a member under the key.
pub open spec fn has_member(nodes: Map<Seq<Seq<char>>, JsonKind>, key: Seq<char>) -> bool {
    nodes.contains_key(seq![key])
}

/// The value is an object.
pub open spec fn is_object(nodes: Map<Seq<Seq<char>>, JsonKind>) -> bool {
    nodes.contains_key(Seq::empty()) && nodes[Seq::empty()] is Object
}

/// The keys of the members.
pub open spec fn member_keys(nodes: Map<Seq<Seq<char>>, JsonKind>) -> Set<Seq<char>> {
    Set::new(|key: Seq<char>| has_member(nodes, key))
}

/// `serde_json::from_str::<Value>`: the value that the text denotes, or the
/// message of the error. Which of them depends on the text alone.
#[verifier::external_body]
pub(crate) fn parse_value(text: &str) -> (result: Result<Value, String>)
    ensures
        match result {
            Ok(value) => parsed_value(text@) == Ok::<
                Map<Seq<Seq<char>>, JsonKind>,
                Seq<char>,
            >(value_nodes(value)),
            Err(message) => parsed_value(text@) == Err::<
                Map<Seq<Seq<char>>, JsonKind>,
                Seq<char>,
            >(message@),
        },
{
    serde_json::from_str::<Value>(text).map_err(|error| error.to_string())
}

/// `Value::get` by a text: the member of an object under the key. A value that
/// is no object has no members.
#[verifier::external_body]
pub(crate) fn value_member<'a>(value: &'a Value, key: &str) -> (found: Option<&'a Value>)
    ensures
        match found {
            Some(child) => has_member(value_nodes(*value), key@) && value_nodes(*child) == member(
                value_nodes(*value),
                key@,
            ),
            None => !has_member(value_nodes(*value), key@),
        },
{
    value.get(key)
}

/// `Value::as_object`, and the keys of the `serde_json::Map` that it gives: each
/// key once, in no stated order.
#[verifier::external_body]
pub(crate) fn object_keys(value: &Value) -> (keys: Option<Vec<String>>)
    ensures
        match keys {
            Some(list) => is_object(value_nodes(*value)) && text_set::all_different(list@)
                && text_set::text_set(list@) == member_keys(value_nodes(*value)),
            None => !is_object(value_nodes(*value)),
        },
{
    value.as_object().map(|members| members.keys().cloned().collect())
}

} // verus!
