use flowengine::engine::{collect_input_data, Run, RunError, Step};
use flowengine::flow::FlowGraph;
use flowengine::registry::{
    try_register, Executor, FunctionExecutor, FunctionFactory, NodeRegistry, TriggerExecutor, TriggerFactory,
};
use flowengine::settings::{PluginSettings, Settings};
use flowengine::workflow::{Connection, ConnectionGroup, Node, Workflow, WorkflowData};
use serde_json::Value;

fn node(id: u32, node_type: &str) -> Node {
    Node {
        id,
        name: format!("node {}", id),
        node_type: node_type.to_string(),
        parameters: serde_yaml::Value::Null,
    }
}

fn group(source: &str, targets: &[u32]) -> ConnectionGroup {
    ConnectionGroup {
        source: source.to_string(),
        targets: targets.iter().map(|&to| Connection { to }).collect(),
    }
}

fn data(items: &[i64]) -> WorkflowData {
    WorkflowData { items: items.iter().map(|&i| Value::from(i)).collect() }
}

fn graph_of(w: &Workflow) -> FlowGraph {
    let mut g = FlowGraph::new();
    assert!(g.build_graph(w).is_ok());
    g
}

fn full_registry() -> NodeRegistry {
    let settings = Settings {
        plugin_settings: vec![PluginSettings { name: "js_engine".to_string(), enabled: true }],
    };
    let mut r = NodeRegistry::new();
    try_register(&mut r, &settings, TriggerFactory);
    try_register(&mut r, &settings, FunctionFactory);
    r
}

fn expect_execute(step: Step) -> (usize, Executor, WorkflowData) {
    match step {
        Step::Execute { node, executor, input } => (node, executor, input),
        _ => panic!("expected a node to run"),
    }
}

#[test]
fn linear_chain_passes_output_along() {
    let w = Workflow {
        nodes: vec![node(1, "trigger"), node(2, "http"), node(3, "function")],
        connections: vec![group("1", &[2]), group("2", &[3])],
    };
    let g = graph_of(&w);
    let outputs = vec![data(&[]), data(&[10, 11]), data(&[])];
    assert!(collect_input_data(&g, 0, &outputs).items.is_empty());
    assert_eq!(collect_input_data(&g, 1, &outputs).items, outputs[0].items);
    assert_eq!(collect_input_data(&g, 2, &outputs).items, vec![Value::from(10), Value::from(11)]);
}

#[test]
fn fan_in_merges_in_declaration_order() {
    let w = Workflow {
        nodes: vec![node(1, "trigger"), node(2, "trigger"), node(3, "function")],
        connections: vec![group("2", &[3]), group("1", &[3])],
    };
    let registry = full_registry();
    let mut run = match Run::start(graph_of(&w)) {
        Ok(run) => run,
        Err(_) => panic!("graph is acyclic"),
    };
    let (n, e, input) = expect_execute(run.next_step(&registry));
    assert_eq!(n, 0);
    assert!(e == Executor::Trigger(TriggerExecutor));
    assert!(input.items.is_empty());
    run.record(data(&[1]));
    let (n, _, input) = expect_execute(run.next_step(&registry));
    assert_eq!(n, 1);
    assert!(input.items.is_empty());
    run.record(data(&[2, 3]));
    let (n, e, input) = expect_execute(run.next_step(&registry));
    assert_eq!(n, 2);
    assert!(e == Executor::Function(FunctionExecutor));
    assert_eq!(input.items, vec![Value::from(1), Value::from(2), Value::from(3)]);
    run.record(data(&[4]));
    match run.next_step(&registry) {
        Step::Finished(d) => assert_eq!(d.items, vec![Value::from(4)]),
        _ => panic!("expected the run to finish"),
    }
}

#[test]
fn cycle_stops_before_any_node() {
    let w = Workflow {
        nodes: vec![node(1, "trigger"), node(2, "function")],
        connections: vec![group("1", &[2]), group("2", &[1])],
    };
    assert!(matches!(Run::start(graph_of(&w)), Err(RunError::Cycle)));
}

#[test]
fn missing_executor_stops_at_its_node() {
    let w = Workflow {
        nodes: vec![node(1, "trigger"), node(2, "database"), node(3, "function")],
        connections: vec![group("1", &[2]), group("2", &[3])],
    };
    let registry = full_registry();
    let mut run = match Run::start(graph_of(&w)) {
        Ok(run) => run,
        Err(_) => panic!("graph is acyclic"),
    };
    let (n, _, _) = expect_execute(run.next_step(&registry));
    assert_eq!(n, 0);
    run.record(data(&[1]));
    assert_eq!(run.position(), 1);
    match run.next_step(&registry) {
        Step::Failed(RunError::UnsupportedType(t)) => assert_eq!(t, "database"),
        _ => panic!("expected an unsupported type"),
    }
    assert_eq!(run.position(), 1);
}

#[test]
fn executor_failure_names_the_node() {
    let w = Workflow {
        nodes: vec![node(7, "trigger"), node(8, "function")],
        connections: vec![group("7", &[8])],
    };
    let registry = full_registry();
    let mut run = match Run::start(graph_of(&w)) {
        Ok(run) => run,
        Err(_) => panic!("graph is acyclic"),
    };
    let _ = expect_execute(run.next_step(&registry));
    run.record(data(&[1]));
    match run.execution_failed("boom".to_string()) {
        RunError::Execution { node_id, cause } => {
            assert_eq!(node_id, 8);
            assert_eq!(cause, "boom");
        }
        _ => panic!("expected an execution error"),
    }
}

#[test]
fn empty_workflow_finishes_with_no_items() {
    let w = Workflow { nodes: vec![], connections: vec![] };
    let run = match Run::start(graph_of(&w)) {
        Ok(run) => run,
        Err(_) => panic!("graph is acyclic"),
    };
    match run.next_step(&full_registry()) {
        Step::Finished(d) => assert!(d.items.is_empty()),
        _ => panic!("expected the run to finish"),
    }
}

#[test]
fn result_is_the_last_node_in_order() {
    let w = Workflow {
        nodes: vec![node(2, "function"), node(1, "trigger")],
        connections: vec![group("1", &[2])],
    };
    let registry = full_registry();
    let mut run = match Run::start(graph_of(&w)) {
        Ok(run) => run,
        Err(_) => panic!("graph is acyclic"),
    };
    let (n, _, _) = expect_execute(run.next_step(&registry));
    assert_eq!(n, 1);
    run.record(data(&[5]));
    let (n, _, input) = expect_execute(run.next_step(&registry));
    assert_eq!(n, 0);
    assert_eq!(input.items, vec![Value::from(5)]);
    run.record(data(&[6, 7]));
    match run.next_step(&registry) {
        Step::Finished(d) => assert_eq!(d.items, vec![Value::from(6), Value::from(7)]),
        _ => panic!("expected the run to finish"),
    }
}

#[test]
fn trigger_output_is_empty() {
    let out = TriggerExecutor.execute(&serde_yaml::Value::Null, data(&[1, 2]));
    assert!(out.items.is_empty());
}

#[test]
fn function_marks_objects_only() {
    let mut obj = serde_json::Map::new();
    obj.insert("id".to_string(), Value::from(1));
    let input = WorkflowData { items: vec![Value::Object(obj), Value::from(3)] };
    let out = FunctionExecutor.execute(&serde_yaml::Value::Null, input);
    assert_eq!(out.items.len(), 2);
    let first = out.items[0].as_object().unwrap();
    assert_eq!(first.get("id"), Some(&Value::from(1)));
    assert_eq!(first.get("processed"), Some(&Value::Bool(true)));
    assert_eq!(first.get("processed_at"), Some(&Value::String("2024-01-01T00:00:00Z".to_string())));
    assert_eq!(out.items[1], Value::from(3));
}

#[test]
fn extend_from_appends_in_order() {
    let mut a = data(&[1]);
    a.extend_from(&data(&[2, 3]));
    assert_eq!(a.items, vec![Value::from(1), Value::from(2), Value::from(3)]);
    assert!(WorkflowData::clear().items.is_empty());
}
