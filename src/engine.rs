use vstd::prelude::*;
use crate::workflow::WorkflowData;
use crate::flow::{FlowGraph, GraphModel, acyclic, has_cycle, is_topological, scheduled};
use crate::registry::{NodeRegistry, Executor, lookup};

verus! {

pub open spec fn outputs_view(outputs: Seq<WorkflowData>) -> Seq<Seq<serde_json::Value>> {
    outputs.map_values(|d: WorkflowData| d.items@)
}

/// The outputs of the predecessors of `v` among the first `k` nodes,
/// concatenated in declaration order.
pub open spec fn merged_input(
    g: GraphModel,
    outs: Seq<Seq<serde_json::Value>>,
    v: int,
    k: int,
) -> Seq<serde_json::Value>
    decreases k,
{
    if k <= 0 {
        Seq::empty()
    } else {
        merged_input(g, outs, v, k - 1) + if g.edge(k - 1, v) {
            outs[k - 1]
        } else {
            Seq::empty()
        }
    }
}

/// The input of node `v`: its predecessors' outputs, in declaration order.
pub open spec fn node_input(g: GraphModel, outs: Seq<Seq<serde_json::Value>>, v: int) -> Seq<serde_json::Value> {
    merged_input(g, outs, v, g.n())
}

proof fn lemma_no_edges_below(g: GraphModel, outs: Seq<Seq<serde_json::Value>>, v: int, k: int)
    requires
        forall|u: int| 0 <= u < k ==> !g.edge(u, v),
    ensures
        merged_input(g, outs, v, k) == Seq::<serde_json::Value>::empty(),
    decreases k,
{
    if k > 0 {
        lemma_no_edges_below(g, outs, v, k - 1);
        assert(merged_input(g, outs, v, k) =~= Seq::<serde_json::Value>::empty());
    }
}

/// A node without predecessors receives no items.
pub proof fn lemma_source_node_input(g: GraphModel, outs: Seq<Seq<serde_json::Value>>, v: int)
    requires
        forall|u: int| !#[trigger] g.edge(u, v),
    ensures
        node_input(g, outs, v) == Seq::<serde_json::Value>::empty(),
{
    lemma_no_edges_below(g, outs, v, g.n());
}

proof fn lemma_two_edges_below(g: GraphModel, outs: Seq<Seq<serde_json::Value>>, a: int, b: int, c: int, k: int)
    requires
        0 <= a < b,
        g.edge(a, c),
        g.edge(b, c),
        forall|u: int| #[trigger] g.edge(u, c) ==> u == a || u == b,
        0 <= k,
    ensures
        merged_input(g, outs, c, k) == (if a < k { outs[a] } else { Seq::empty() }) + (if b < k {
            outs[b]
        } else {
            Seq::empty()
        }),
    decreases k,
{
    if k > 0 {
        lemma_two_edges_below(g, outs, a, b, c, k - 1);
        let e = Seq::<serde_json::Value>::empty();
        if k - 1 == a {
            assert(merged_input(g, outs, c, k) =~= outs[a]);
        } else if k - 1 == b {
            assert(merged_input(g, outs, c, k) =~= outs[a] + outs[b]);
        } else {
            assert(!g.edge(k - 1, c));
            assert(merged_input(g, outs, c, k) =~= merged_input(g, outs, c, k - 1) + e);
            assert((if a < k { outs[a] } else { e }) == (if a < k - 1 { outs[a] } else { e }));
        }
    }
}

/// Fan-in: a node whose only predecessors are `a` and `b`, with `a` declared
/// before `b`, receives the items of `a` followed by the items of `b`.
pub proof fn lemma_fan_in_input(g: GraphModel, outs: Seq<Seq<serde_json::Value>>, a: int, b: int, c: int)
    requires
        0 <= a < b < g.n(),
        g.edge(a, c),
        g.edge(b, c),
        forall|u: int| #[trigger] g.edge(u, c) ==> u == a || u == b,
    ensures
        node_input(g, outs, c) == outs[a] + outs[b],
{
    lemma_two_edges_below(g, outs, a, b, c, g.n());
}

/// The input of node `v`: the recorded outputs of its predecessors,
/// concatenated in declaration order; empty for a node without predecessors.
pub fn collect_input_data(graph: &FlowGraph, v: usize, outputs: &Vec<WorkflowData>) -> (r: WorkflowData)
    requires
        graph.wf(),
        v < graph@.n(),
        outputs@.len() == graph@.n(),
    ensures
        r.items@ == node_input(graph@, outputs_view(outputs@), v as int),
{
    let n = graph.node_count();
    let mut merged = WorkflowData::clear();
    let mut u: usize = 0;
    while u < n
        invariant
            graph.wf(),
            n == graph@.n(),
            v < n,
            outputs@.len() == n,
            u <= n,
            merged.items@ == merged_input(graph@, outputs_view(outputs@), v as int, u as int),
        decreases n - u,
    {
        if graph.has_edge(u, v) {
            merged.extend_from(&outputs[u]);
        }
        u = u + 1;
    }
    merged
}

/// Why a run stopped before its end.
pub enum RunError {
    Cycle,
    UnsupportedType(String),
    Execution { node_id: u32, cause: String },
}

/// What the caller does next.
pub enum Step {
    /// Run node `node` with `executor` on `input`, then hand its output to `record`.
    Execute { node: usize, executor: Executor, input: WorkflowData },
    /// Every node ran; this is the output of the last one in order.
    Finished(WorkflowData),
    Failed(RunError),
}

/// A run in progress: the nodes before `position` in the execution order
/// have run and their outputs are recorded.
pub struct Run {
    graph: FlowGraph,
    order: Vec<usize>,
    outputs: Vec<WorkflowData>,
    position: usize,
}

impl Run {
    pub closed spec fn graph_view(&self) -> GraphModel {
        self.graph@
    }

    pub closed spec fn order_view(&self) -> Seq<usize> {
        self.order@
    }

    pub closed spec fn recorded(&self) -> Seq<Seq<serde_json::Value>> {
        outputs_view(self.outputs@)
    }

    pub closed spec fn pos(&self) -> int {
        self.position as int
    }

    pub closed spec fn wf(&self) -> bool {
        &&& self.graph.wf()
        &&& is_topological(self.graph@, self.order@)
        &&& scheduled(self.graph@, self.order@)
        &&& self.outputs@.len() == self.graph@.n()
        &&& self.position <= self.order@.len()
    }

    /// Starts a run of `graph`; a graph with a cycle is refused before any node runs.
    pub fn start(graph: FlowGraph) -> (r: Result<Run, RunError>)
        requires
            graph.wf(),
        ensures
            r is Err <==> !acyclic(graph@),
            r is Err <==> has_cycle(graph@),
            r matches Err(e) ==> e is Cycle,
            r matches Ok(run) ==> {
                &&& run.wf()
                &&& run.graph_view() == graph@
                &&& is_topological(graph@, run.order_view())
                &&& scheduled(graph@, run.order_view())
                &&& run.pos() == 0
                &&& run.recorded().len() == graph@.n()
                &&& forall|v: int| 0 <= v < graph@.n() ==> #[trigger] run.recorded()[v].len() == 0
            },
    {
        if !graph.is_valid() {
            return Err(RunError::Cycle);
        }
        let order = graph.get_execution_order();
        let n = graph.node_count();
        let mut outputs: Vec<WorkflowData> = Vec::new();
        let mut i: usize = 0;
        while i < n
            invariant
                i <= n,
                outputs@.len() == i,
                forall|k: int| 0 <= k < i ==> #[trigger] outputs@[k].items@.len() == 0,
            decreases n - i,
        {
            outputs.push(WorkflowData::new());
            i = i + 1;
        }
        Ok(Run { graph, order, outputs, position: 0 })
    }

    /// The node that runs next, when some node has not run yet.
    pub open spec fn current(&self) -> int {
        self.order_view()[self.pos()] as int
    }

    /// Decides the next step. When every node has run, the output of the
    /// last node in order is the result (no items for an empty workflow).
    /// Otherwise the next node in order runs on its merged input, unless no
    /// executor is registered for its type, which stops the run.
    pub fn next_step(&self, registry: &NodeRegistry) -> (r: Step)
        requires
            self.wf(),
        ensures
            self.pos() == self.order_view().len() ==> (r matches Step::Finished(d) && d.items@ == if self.order_view().len() == 0 {
                Seq::<serde_json::Value>::empty()
            } else {
                self.recorded()[self.order_view().last() as int]
            }),
            self.pos() < self.order_view().len() && lookup(registry@, self.graph_view().types[self.current()]) is None
                ==> (r matches Step::Failed(RunError::UnsupportedType(t)) && t@ == self.graph_view().types[self.current()]),
            self.pos() < self.order_view().len() && lookup(registry@, self.graph_view().types[self.current()]) is Some
                ==> (r matches Step::Execute { node, executor, input } && node == self.current()
                    && Some(executor) == lookup(registry@, self.graph_view().types[self.current()])
                    && input.items@ == node_input(self.graph_view(), self.recorded(), self.current())),
    {
        if self.position == self.order.len() {
            let mut result = WorkflowData::new();
            if self.order.len() > 0 {
                let last = self.order[self.order.len() - 1];
                result.extend_from(&self.outputs[last]);
            }
            return Step::Finished(result);
        }
        let v = self.order[self.position];
        let node_type = self.graph.node_type(v);
        match registry.create_executor(node_type.as_str()) {
            None => Step::Failed(RunError::UnsupportedType(node_type.clone())),
            Some(executor) => {
                let input = collect_input_data(&self.graph, v, &self.outputs);
                Step::Execute { node: v, executor, input }
            },
        }
    }

    /// Records the output of the node that just ran and moves on.
    pub fn record(&mut self, output: WorkflowData)
        requires
            old(self).wf(),
            old(self).pos() < old(self).order_view().len(),
        ensures
            final(self).wf(),
            final(self).graph_view() == old(self).graph_view(),
            final(self).order_view() == old(self).order_view(),
            final(self).pos() == old(self).pos() + 1,
            final(self).recorded() == old(self).recorded().update(old(self).current(), output.items@),
    {
        let p = self.position;
        let len = self.order.len();
        assert(p < len);
        let v = self.order[p];
        self.outputs.set(v, output);
        self.position = p + 1;
        proof {
            assert(self.recorded() =~= old(self).recorded().update(old(self).current(), output.items@));
        }
    }

    /// The error that ends the run when the executor of the current node fails.
    pub fn execution_failed(&self, cause: String) -> (r: RunError)
        requires
            self.wf(),
            self.pos() < self.order_view().len(),
        ensures
            r == (RunError::Execution { node_id: self.graph_view().ids[self.current()], cause }),
    {
        let v = self.order[self.position];
        RunError::Execution { node_id: self.graph.node_id(v), cause }
    }

    /// The number of nodes that have run.
    pub fn position(&self) -> (r: usize)
        ensures
            r == self.pos(),
    {
        self.position
    }
}

} // verus!
