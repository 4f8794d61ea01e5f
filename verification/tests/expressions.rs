//! What expressions are translated into.

use p4_gcl::ir::{IrExpr, IrExprData, IrFunctionCall, IrType};
use p4_gcl::gcl::{GclAssignment, GclCommand, GclNode, GclNodeRange, GclPredicate, NodeIndex};
use p4_gcl::graph::GclGraph;
use p4_gcl::metadata::ProgramMetadata;
use p4_gcl::to_gcl::ToGcl;
use std::collections::HashMap;

fn metadata() -> ProgramMetadata {
    let mut type_names = HashMap::new();
    type_names.insert(1, "V1Switch".to_string());
    type_names.insert(2, "MyPackage".to_string());
    ProgramMetadata { type_names }
}

fn expr(data: IrExprData) -> IrExpr {
    IrExpr { ty: IrType::Bool, data }
}

fn boolean(value: bool) -> IrExpr {
    expr(IrExprData::Bool(value))
}

fn set(name: &str, pred: GclPredicate) -> GclCommand {
    GclCommand::Assignment(GclAssignment { name: name.to_string(), pred })
}

fn set_bool(name: &str, value: bool) -> GclCommand {
    set(name, GclPredicate::Bool(value))
}

fn var(name: &str) -> GclPredicate {
    GclPredicate::Var(name.to_string())
}

fn not(pred: GclPredicate) -> GclPredicate {
    GclPredicate::Negation(Box::new(pred))
}

fn always() -> GclPredicate {
    GclPredicate::Bool(true)
}

fn node(name: &str, commands: Vec<GclCommand>) -> GclNode {
    GclNode { name: name.to_string(), commands }
}

fn range(start: u32, end: u32) -> GclNodeRange {
    GclNodeRange { start: NodeIndex { index: start }, end: NodeIndex { index: end } }
}

fn check(graph: &GclGraph, nodes: Vec<GclNode>, edges: Vec<(usize, usize, GclPredicate)>) {
    let found: Vec<&GclNode> = graph.store().node_weights().collect();
    assert_eq!(found, nodes.iter().collect::<Vec<&GclNode>>());
    let found: Vec<(usize, usize, &GclPredicate)> = graph
        .store()
        .raw_edges()
        .iter()
        .map(|e| (e.source().index(), e.target().index(), &e.weight))
        .collect();
    let expected: Vec<(usize, usize, &GclPredicate)> =
        edges.iter().map(|(from, to, pred)| (*from, *to, pred)).collect();
    assert_eq!(found, expected);
}

fn graph_with_function() -> GclGraph {
    let mut graph = GclGraph::new();
    graph.add_node(node("f_start", vec![]));
    graph.add_node(node("f_end", vec![]));
    graph.register_function(7, range(0, 1));
    graph
}

fn returns_to(target: &str) -> GclPredicate {
    GclPredicate::Equality(
        Box::new(GclPredicate::StringVar("func_ret_target__7".to_string())),
        Box::new(GclPredicate::String(target.to_string())),
    )
}

#[test]
fn a_literal_is_assigned_to_a_new_variable() {
    let mut graph = GclGraph::new();
    let (pred, nodes) = boolean(true).to_gcl(&mut graph, &metadata());
    assert_eq!(pred, var("expr__0"));
    assert_eq!(nodes, range(0, 0));
    check(&graph, vec![node("expr__0", vec![set_bool("expr__0", true)])], vec![]);

    let (pred, nodes) = boolean(false).to_gcl(&mut graph, &metadata());
    assert_eq!(pred, var("expr__1"));
    assert_eq!(nodes, range(1, 1));
    check(
        &graph,
        vec![
            node("expr__0", vec![set_bool("expr__0", true)]),
            node("expr__1", vec![set_bool("expr__1", false)]),
        ],
        vec![],
    );
}

#[test]
fn a_variable_is_checked_for_a_value() {
    let mut graph = GclGraph::new();
    let (pred, nodes) = expr(IrExprData::Var(5)).to_gcl(&mut graph, &metadata());
    assert_eq!(pred, var("expr__0"));
    assert_eq!(nodes, range(2, 0));
    check(
        &graph,
        vec![
            node("expr__0", vec![set("expr__0", var("var__5"))]),
            node("bug__1", vec![GclCommand::Bug]),
            node("assert__2", vec![]),
        ],
        vec![(2, 0, var("has_value__5")), (2, 1, not(var("has_value__5")))],
    );
}

#[test]
fn a_conjunction_goes_right_when_the_left_holds() {
    let mut graph = GclGraph::new();
    let and = expr(IrExprData::And(Box::new(boolean(true)), Box::new(boolean(false))));
    let (pred, nodes) = and.to_gcl(&mut graph, &metadata());
    assert_eq!(pred, var("expr__2"));
    assert_eq!(nodes, range(0, 4));
    check(
        &graph,
        vec![
            node("expr__0", vec![set_bool("expr__0", true)]),
            node("expr__1", vec![set_bool("expr__1", false)]),
            node("add_expr_true__3", vec![set_bool("expr__2", true)]),
            node("add_expr_false__4", vec![set_bool("expr__2", false)]),
            node("add_expr_end__5", vec![]),
        ],
        vec![
            (0, 1, var("expr__0")),
            (0, 3, not(var("expr__0"))),
            (1, 2, var("expr__1")),
            (1, 3, not(var("expr__1"))),
            (2, 4, always()),
            (3, 4, always()),
        ],
    );
}

#[test]
fn a_disjunction_goes_right_when_the_left_does_not_hold() {
    let mut graph = GclGraph::new();
    let or = expr(IrExprData::Or(Box::new(boolean(true)), Box::new(boolean(false))));
    let (pred, nodes) = or.to_gcl(&mut graph, &metadata());
    assert_eq!(pred, var("expr__2"));
    assert_eq!(nodes, range(0, 4));
    check(
        &graph,
        vec![
            node("expr__0", vec![set_bool("expr__0", true)]),
            node("expr__1", vec![set_bool("expr__1", false)]),
            node("or_expr_true__3", vec![set_bool("expr__2", true)]),
            node("or_expr_false__4", vec![set_bool("expr__2", false)]),
            node("or_expr_end__5", vec![]),
        ],
        vec![
            (0, 1, not(var("expr__0"))),
            (0, 2, var("expr__0")),
            (1, 2, var("expr__1")),
            (1, 3, not(var("expr__1"))),
            (2, 4, always()),
            (3, 4, always()),
        ],
    );
}

#[test]
fn short_circuit_logic_is_the_conjunction_or_the_disjunction() {
    for is_and in [true, false] {
        let mut direct = GclGraph::new();
        let (pred, nodes) = IrExpr::short_circuit_logic(
            &mut direct,
            &metadata(),
            &boolean(false),
            &boolean(true),
            is_and,
        );
        let mut graph = GclGraph::new();
        let left = Box::new(boolean(false));
        let right = Box::new(boolean(true));
        let whole = expr(if is_and {
            IrExprData::And(left, right)
        } else {
            IrExprData::Or(left, right)
        });
        assert_eq!(whole.to_gcl(&mut graph, &metadata()), (pred, nodes));
        let names = |g: &GclGraph| -> Vec<String> {
            g.store().node_weights().map(|n| n.name.clone()).collect()
        };
        assert_eq!(names(&graph), names(&direct));
    }
}

#[test]
fn a_negation_follows_its_operand() {
    let mut graph = GclGraph::new();
    let negation = expr(IrExprData::Negation(Box::new(boolean(true))));
    let (pred, nodes) = negation.to_gcl(&mut graph, &metadata());
    assert_eq!(pred, var("expr__1"));
    assert_eq!(nodes, range(0, 1));
    check(
        &graph,
        vec![
            node("expr__0", vec![set_bool("expr__0", true)]),
            node("expr__1", vec![set("expr__1", not(var("expr__0")))]),
        ],
        vec![(0, 1, always())],
    );
}

#[test]
fn a_call_notes_where_to_return_to() {
    let mut graph = graph_with_function();
    let call = IrFunctionCall { target: 7, arguments: vec![] };
    assert_eq!(call.to_gcl(&mut graph, &metadata()), range(2, 3));
    check(
        &graph,
        vec![
            node("f_start", vec![]),
            node("f_end", vec![]),
            node(
                "func_call_start__0",
                vec![set(
                    "func_ret_target__7",
                    GclPredicate::String("func_call_end__1".to_string()),
                )],
            ),
            node("func_call_end__1", vec![]),
        ],
        vec![(2, 0, always()), (1, 3, returns_to("func_call_end__1"))],
    );
}

#[test]
fn the_arguments_of_a_call_are_left_alone() {
    let mut with = graph_with_function();
    let mut without = graph_with_function();
    let call = IrFunctionCall { target: 7, arguments: vec![boolean(true)] };
    call.to_gcl(&mut with, &metadata());
    IrFunctionCall { target: 7, arguments: vec![] }.to_gcl(&mut without, &metadata());
    assert_eq!(with.store().node_count(), without.store().node_count());
    assert_eq!(with.store().edge_count(), without.store().edge_count());
}

#[test]
fn a_call_in_an_expression_has_the_returned_value() {
    let mut graph = graph_with_function();
    let call = expr(IrExprData::FunctionCall(IrFunctionCall { target: 7, arguments: vec![] }));
    let (pred, nodes) = call.to_gcl(&mut graph, &metadata());
    assert_eq!(pred, var("expr__2"));
    assert_eq!(nodes, range(2, 4));
    check(
        &graph,
        vec![
            node("f_start", vec![]),
            node("f_end", vec![]),
            node(
                "func_call_start__0",
                vec![set(
                    "func_ret_target__7",
                    GclPredicate::String("func_call_end__1".to_string()),
                )],
            ),
            node("func_call_end__1", vec![]),
            node("expr_func__3", vec![set("expr__2", var("ret"))]),
        ],
        vec![
            (2, 0, always()),
            (1, 3, returns_to("func_call_end__1")),
            (3, 4, always()),
        ],
    );
}
