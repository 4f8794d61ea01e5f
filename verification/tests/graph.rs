//! The graph and its names.

use p4_gcl::gcl::{GclAssignment, GclCommand, GclNode, GclNodeRange, GclPredicate, NodeIndex};
use p4_gcl::graph::GclGraph;
use p4_gcl::text::tag;

fn node(name: &str) -> GclNode {
    GclNode { name: name.to_string(), commands: vec![] }
}

fn range(start: u32, end: u32) -> GclNodeRange {
    GclNodeRange { start: NodeIndex { index: start }, end: NodeIndex { index: end } }
}

#[test]
fn a_new_graph_is_empty() {
    let graph = GclGraph::new();
    assert_eq!(graph.store().node_count(), 0);
    assert_eq!(graph.store().edge_count(), 0);
    assert_eq!(graph.get_function(0), None);
}

#[test]
fn numerals_are_decimal() {
    assert_eq!(tag("var__", 0), "var__0");
    assert_eq!(tag("var__", 9), "var__9");
    assert_eq!(tag("var__", 10), "var__10");
    assert_eq!(tag("", 907), "907");
    assert_eq!(tag("n", 18446744073709551615), "n18446744073709551615");
}

#[test]
fn names_are_numbered_in_order() {
    let mut graph = GclGraph::new();
    assert_eq!(graph.create_name("expr"), "expr__0");
    assert_eq!(graph.create_name("expr"), "expr__1");
    assert_eq!(graph.create_name("bug"), "bug__2");
}

#[test]
fn created_names_never_meet() {
    let mut graph = GclGraph::new();
    let mut names: Vec<String> = Vec::new();
    for i in 0..30 {
        // A base that looks like a numbered name itself.
        let base = if i % 2 == 0 { "a" } else { "a__1" };
        names.push(graph.create_name(base));
    }
    for i in 0..names.len() {
        for j in 0..i {
            assert_ne!(names[i], names[j]);
        }
    }
}

#[test]
fn nodes_get_the_next_index() {
    let mut graph = GclGraph::new();
    assert_eq!(graph.add_node(node("a")), NodeIndex { index: 0 });
    assert_eq!(graph.add_node(node("b")), NodeIndex { index: 1 });
    assert_eq!(graph.add_node(node("a")), NodeIndex { index: 2 });
    let names: Vec<String> = graph.store().node_weights().map(|n| n.name.clone()).collect();
    assert_eq!(names, ["a", "b", "a"]);
}

#[test]
fn edges_are_kept_in_order_and_parallel() {
    let mut graph = GclGraph::new();
    let a = graph.add_node(node("a"));
    let b = graph.add_node(node("b"));
    graph.add_edge(a, b, GclPredicate::default());
    graph.add_edge(a, b, GclPredicate::Var("x".to_string()));
    graph.add_edge(b, b, GclPredicate::Bool(false));
    let edges: Vec<(usize, usize, &GclPredicate)> = graph
        .store()
        .raw_edges()
        .iter()
        .map(|e| (e.source().index(), e.target().index(), &e.weight))
        .collect();
    assert_eq!(
        edges,
        [
            (0, 1, &GclPredicate::Bool(true)),
            (0, 1, &GclPredicate::Var("x".to_string())),
            (1, 1, &GclPredicate::Bool(false)),
        ]
    );
}

#[test]
fn a_node_is_changed_in_place() {
    let mut graph = GclGraph::new();
    let a = graph.add_node(node("a"));
    let b = graph.add_node(node("b"));
    graph.node_weight_mut(b).unwrap().name = "c".to_string();
    graph.node_weight_mut(a).unwrap().commands = vec![GclCommand::Bug];
    let nodes: Vec<&GclNode> = graph.store().node_weights().collect();
    assert_eq!(nodes[0].name, "a");
    assert_eq!(nodes[0].commands, [GclCommand::Bug]);
    assert_eq!(nodes[1], &node("c"));
}

#[test]
fn a_missing_node_cannot_be_changed() {
    let mut graph = GclGraph::new();
    assert!(graph.node_weight_mut(NodeIndex { index: 0 }).is_none());
    graph.add_node(node("a"));
    assert!(graph.node_weight_mut(NodeIndex { index: 0 }).is_some());
    assert!(graph.node_weight_mut(NodeIndex { index: 1 }).is_none());
    assert_eq!(graph.store().node_count(), 1);
}

#[test]
fn the_last_registration_of_a_function_counts() {
    let mut graph = GclGraph::new();
    for name in ["a", "b", "c"] {
        graph.add_node(node(name));
    }
    graph.register_function(7, range(0, 1));
    graph.register_function(8, range(1, 1));
    assert_eq!(graph.get_function(7), Some(range(0, 1)));
    graph.register_function(7, range(2, 0));
    assert_eq!(graph.get_function(7), Some(range(2, 0)));
    assert_eq!(graph.get_function(8), Some(range(1, 1)));
    assert_eq!(graph.get_function(9), None);
}

#[test]
fn the_default_predicate_always_holds() {
    assert_eq!(GclPredicate::default(), GclPredicate::Bool(true));
}

#[test]
fn a_cloned_predicate_is_the_same() {
    let var = GclPredicate::StringVar("target".to_string());
    let text = GclPredicate::String("end__3".to_string());
    let pred = GclPredicate::Negation(Box::new(GclPredicate::Equality(
        Box::new(var),
        Box::new(text),
    )));
    assert_eq!(pred.clone(), pred);
    let assignment = GclAssignment { name: "x".to_string(), pred: pred.clone() };
    assert_eq!(assignment.pred, pred);
}
