use vstd::prelude::*;

verus! {

/// The semi-structured values that flow between nodes.
#[verifier::external_type_specification]
#[verifier::external_body]
pub struct ExJsonValue(serde_json::Value);

/// The open parameter mapping that each executor reads.
#[verifier::external_type_specification]
#[verifier::external_body]
pub struct ExYamlValue(serde_yaml::Value);

/// Relies on serde_json's derived `Clone` for `Value`: the copy is the same value.
pub assume_specification[ <serde_json::Value as Clone>::clone ](v: &serde_json::Value) -> (r: serde_json::Value)
    ensures
        r == *v,
;

/// One unit of work in a workflow.
pub struct Node {
    pub id: u32,
    pub name: String,
    pub node_type: String,
    pub parameters: serde_yaml::Value,
}

/// One outgoing link of a connection group.
pub struct Connection {
    pub to: u32,
}

/// The links declared under one source key, in declaration order.
pub struct ConnectionGroup {
    pub source: String,
    pub targets: Vec<Connection>,
}

/// Nodes in declaration order, and connection groups in declaration order.
pub struct Workflow {
    pub nodes: Vec<Node>,
    pub connections: Vec<ConnectionGroup>,
}

/// The ordered payload handed from node to node.
pub struct WorkflowData {
    pub items: Vec<serde_json::Value>,
}

impl WorkflowData {
    pub fn new() -> (r: WorkflowData)
        ensures
            r.items@.len() == 0,
    {
        WorkflowData { items: Vec::new() }
    }

    /// The input of a node that has no predecessor.
    pub fn clear() -> (r: WorkflowData)
        ensures
            r.items@.len() == 0,
    {
        WorkflowData { items: Vec::new() }
    }

    /// Appends a copy of every item of `other`, in order.
    pub fn extend_from(&mut self, other: &WorkflowData)
        ensures
            final(self).items@ == old(self).items@ + other.items@,
    {
        let mut i: usize = 0;
        while i < other.items.len()
            invariant
                i <= other.items@.len(),
                self.items@ == old(self).items@ + other.items@.take(i as int),
            decreases other.items@.len() - i,
        {
            let item = other.items[i].clone();
            self.items.push(item);
            assert(other.items@.take(i as int + 1) == other.items@.take(i as int).push(other.items@[i as int]));
            i = i + 1;
        }
        assert(other.items@.take(other.items@.len() as int) == other.items@);
    }
}

} // verus!
