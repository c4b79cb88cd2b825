use vstd::prelude::*;
use crate::workflow::WorkflowData;
use crate::registry::{TriggerExecutor, FunctionExecutor};

verus! {

pub uninterp spec fn with_field(item: serde_json::Value, key: Seq<char>, value: serde_json::Value) -> serde_json::Value;

pub uninterp spec fn json_bool(b: bool) -> serde_json::Value;

pub uninterp spec fn json_string(s: Seq<char>) -> serde_json::Value;

/// Relies on serde_json's `Value::as_object_mut` and `Map::insert`: an object
/// gets `key` set to `value`; any other value comes back as it was.
#[verifier::external_body]
fn set_field(item: serde_json::Value, key: &str, value: serde_json::Value) -> (r: serde_json::Value)
    ensures
        r == with_field(item, key@, value),
{
    let mut item = item;
    if let Some(map) = item.as_object_mut() {
        map.insert(key.to_string(), value);
    }
    item
}

/// Relies on serde_json's `Value::Bool` constructor.
#[verifier::external_body]
fn bool_value(b: bool) -> (r: serde_json::Value)
    ensures
        r == json_bool(b),
{
    serde_json::Value::Bool(b)
}

/// Relies on serde_json's `Value::String` constructor.
#[verifier::external_body]
fn string_value(s: &str) -> (r: serde_json::Value)
    ensures
        r == json_string(s@),
{
    serde_json::Value::String(s.to_string())
}

/// The time stamp that the function executor writes on each object.
pub open spec fn processed_stamp() -> Seq<char> {
    "2024-01-01T00:00:00Z"@
}

/// An item as the function executor leaves it: an object is marked as
/// processed, with a time stamp; any other value is unchanged.
pub open spec fn processed_item(v: serde_json::Value) -> serde_json::Value {
    with_field(with_field(v, "processed"@, json_bool(true)), "processed_at"@, json_string(processed_stamp()))
}

impl TriggerExecutor {
    /// A trigger starts a run: its output holds no items.
    pub fn execute(&self, parameters: &serde_yaml::Value, input: WorkflowData) -> (r: WorkflowData)
        ensures
            r.items@.len() == 0,
    {
        WorkflowData::new()
    }
}

impl FunctionExecutor {
    /// Marks each input item as processed, keeping the items' order.
    pub fn execute(&self, parameters: &serde_yaml::Value, input: WorkflowData) -> (r: WorkflowData)
        ensures
            r.items@ == input.items@.map_values(|v: serde_json::Value| processed_item(v)),
    {
        let mut items: Vec<serde_json::Value> = Vec::new();
        let mut i: usize = 0;
        while i < input.items.len()
            invariant
                i <= input.items@.len(),
                items@ == input.items@.take(i as int).map_values(|v: serde_json::Value| processed_item(v)),
            decreases input.items@.len() - i,
        {
            let item = input.items[i].clone();
            let marked = set_field(item, "processed", bool_value(true));
            let stamped = set_field(marked, "processed_at", string_value("2024-01-01T00:00:00Z"));
            items.push(stamped);
            proof {
                assert(input.items@.take(i as int + 1) == input.items@.take(i as int).push(input.items@[i as int]));
                assert(items@ =~= input.items@.take(i as int + 1).map_values(|v: serde_json::Value| processed_item(v)));
            }
            i = i + 1;
        }
        assert(input.items@.take(input.items@.len() as int) == input.items@);
        WorkflowData { items }
    }
}

} // verus!
