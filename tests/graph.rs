use flowengine::flow::{ConfigError, FlowGraph};
use flowengine::workflow::{Connection, ConnectionGroup, Node, Workflow};

fn node(id: u32, node_type: &str) -> Node {
    Node {
        id,
        name: format!("node {}", id),
        node_type: node_type.to_string(),
        parameters: serde_yaml::Value::Null,
    }
}

fn group(source: &str, targets: &[u32]) -> ConnectionGroup {
    ConnectionGroup {
        source: source.to_string(),
        targets: targets.iter().map(|&to| Connection { to }).collect(),
    }
}

fn built(w: &Workflow) -> FlowGraph {
    let mut g = FlowGraph::new();
    assert!(g.build_graph(w).is_ok());
    g
}

fn ids_in_order(w: &Workflow, order: &[usize]) -> Vec<u32> {
    order.iter().map(|&i| w.nodes[i].id).collect()
}

#[test]
fn linear_chain_runs_in_order() {
    let w = Workflow {
        nodes: vec![node(1, "trigger"), node(2, "http"), node(3, "function")],
        connections: vec![group("1", &[2]), group("2", &[3])],
    };
    let g = built(&w);
    assert!(g.is_valid());
    assert_eq!(ids_in_order(&w, &g.get_execution_order()), vec![1, 2, 3]);
}

#[test]
fn chain_declared_backwards_is_still_ordered() {
    let w = Workflow {
        nodes: vec![node(3, "function"), node(2, "http"), node(1, "trigger")],
        connections: vec![group("1", &[2]), group("2", &[3])],
    };
    let g = built(&w);
    assert!(g.is_valid());
    assert_eq!(ids_in_order(&w, &g.get_execution_order()), vec![1, 2, 3]);
}

#[test]
fn independent_nodes_keep_declaration_order() {
    let w = Workflow {
        nodes: vec![node(3, "trigger"), node(1, "trigger"), node(2, "trigger")],
        connections: vec![],
    };
    let g = built(&w);
    assert_eq!(g.get_execution_order(), vec![0, 1, 2]);
}

#[test]
fn every_edge_goes_forward() {
    let w = Workflow {
        nodes: vec![node(1, "a"), node(2, "b"), node(3, "c"), node(4, "d"), node(5, "e")],
        connections: vec![group("4", &[1, 3]), group("5", &[4]), group("3", &[2]), group("1", &[2])],
    };
    let g = built(&w);
    assert!(g.is_valid());
    let order = g.get_execution_order();
    assert_eq!(ids_in_order(&w, &order), vec![5, 4, 1, 3, 2]);
    let pos = |i: usize| order.iter().position(|&x| x == i).unwrap();
    for u in 0..5 {
        for v in 0..5 {
            if g.has_edge(u, v) {
                assert!(pos(u) < pos(v));
            }
        }
    }
}

#[test]
fn two_builds_give_the_same_order() {
    let w = Workflow {
        nodes: vec![node(1, "trigger"), node(2, "trigger"), node(3, "function"), node(4, "function")],
        connections: vec![group("2", &[4, 3]), group("1", &[3])],
    };
    let a = built(&w);
    let b = built(&w);
    assert_eq!(a.get_execution_order(), b.get_execution_order());
    assert_eq!(a.get_execution_order(), vec![0, 1, 2, 3]);
}

#[test]
fn two_node_cycle_is_invalid() {
    let w = Workflow {
        nodes: vec![node(1, "trigger"), node(2, "function")],
        connections: vec![group("1", &[2]), group("2", &[1])],
    };
    let g = built(&w);
    assert!(!g.is_valid());
}

#[test]
fn self_loop_is_invalid() {
    let w = Workflow {
        nodes: vec![node(1, "trigger")],
        connections: vec![group("1", &[1])],
    };
    let g = built(&w);
    assert!(!g.is_valid());
}

#[test]
fn cycle_behind_a_source_is_invalid() {
    let w = Workflow {
        nodes: vec![node(1, "trigger"), node(2, "a"), node(3, "b"), node(4, "c")],
        connections: vec![group("1", &[2]), group("2", &[3]), group("3", &[4]), group("4", &[2])],
    };
    assert!(!built(&w).is_valid());
}

#[test]
fn empty_workflow_is_valid() {
    let w = Workflow { nodes: vec![], connections: vec![] };
    let g = built(&w);
    assert!(g.is_valid());
    assert_eq!(g.node_count(), 0);
    assert!(g.get_execution_order().is_empty());
}

#[test]
fn duplicate_ids_are_refused() {
    let w = Workflow {
        nodes: vec![node(1, "trigger"), node(2, "http"), node(1, "function")],
        connections: vec![],
    };
    let mut g = FlowGraph::new();
    assert!(matches!(g.build_graph(&w), Err(ConfigError::DuplicateNodeId(1))));
    assert_eq!(g.node_count(), 0);
}

#[test]
fn non_numeric_key_is_refused() {
    let w = Workflow {
        nodes: vec![node(1, "trigger"), node(2, "http")],
        connections: vec![group("1", &[2]), group("one", &[2])],
    };
    let mut g = FlowGraph::new();
    match g.build_graph(&w) {
        Err(ConfigError::BadSourceKey(k)) => assert_eq!(k, "one"),
        _ => panic!("expected a bad key"),
    }
}

#[test]
fn key_that_overflows_is_refused() {
    let w = Workflow {
        nodes: vec![node(1, "trigger")],
        connections: vec![group("4294967296", &[1])],
    };
    let mut g = FlowGraph::new();
    assert!(matches!(g.build_graph(&w), Err(ConfigError::BadSourceKey(_))));
}

#[test]
fn unknown_source_is_refused() {
    let w = Workflow {
        nodes: vec![node(1, "trigger"), node(2, "http")],
        connections: vec![group("9", &[2])],
    };
    let mut g = FlowGraph::new();
    assert!(matches!(g.build_graph(&w), Err(ConfigError::UnknownSource(9))));
}

#[test]
fn signed_and_padded_keys_are_read() {
    let w = Workflow {
        nodes: vec![node(1, "trigger"), node(2, "http"), node(3, "function")],
        connections: vec![group("+1", &[2]), group("002", &[3])],
    };
    let g = built(&w);
    assert!(g.has_edge(0, 1));
    assert!(g.has_edge(1, 2));
    assert!(!g.has_edge(0, 2));
}

#[test]
fn links_to_unknown_targets_are_dropped() {
    let w = Workflow {
        nodes: vec![node(1, "trigger"), node(2, "http")],
        connections: vec![group("1", &[7, 2])],
    };
    let g = built(&w);
    assert!(g.has_edge(0, 1));
    assert!(!g.has_edge(1, 0));
    assert!(g.is_valid());
}

#[test]
fn node_types_follow_declaration() {
    let w = Workflow {
        nodes: vec![node(5, "trigger"), node(6, "database")],
        connections: vec![],
    };
    let g = built(&w);
    assert_eq!(g.node_type(0), "trigger");
    assert_eq!(g.node_type(1), "database");
}
