//! What actions, control blocks and programs are translated into.

use p4_gcl::ir::{
    IrActionDecl, IrBlockStatement, IrControlDecl, IrControlLocalDecl, IrDeclaration, IrExpr,
    IrExprData, IrFunctionCall, IrInstantiation, IrProgram, IrStatement, IrStatementOrDecl,
    IrStructType, IrTableDecl, IrType, IrVariableDecl,
};
use p4_gcl::gcl::{GclAssignment, GclCommand, GclNode, GclNodeRange, GclPredicate, NodeIndex};
use p4_gcl::graph::GclGraph;
use p4_gcl::metadata::ProgramMetadata;
use p4_gcl::to_gcl::ToGcl;
use std::collections::HashMap;

fn metadata() -> ProgramMetadata {
    let mut type_names = HashMap::new();
    type_names.insert(1, "V1Switch".to_string());
    type_names.insert(2, "MyPackage".to_string());
    ProgramMetadata { type_names }
}

fn expr(data: IrExprData) -> IrExpr {
    IrExpr { ty: IrType::Bool, data }
}

fn boolean(value: bool) -> IrExpr {
    expr(IrExprData::Bool(value))
}

fn set(name: &str, pred: GclPredicate) -> GclCommand {
    GclCommand::Assignment(GclAssignment { name: name.to_string(), pred })
}

fn set_bool(name: &str, value: bool) -> GclCommand {
    set(name, GclPredicate::Bool(value))
}

fn var(name: &str) -> GclPredicate {
    GclPredicate::Var(name.to_string())
}

fn always() -> GclPredicate {
    GclPredicate::Bool(true)
}

fn node(name: &str, commands: Vec<GclCommand>) -> GclNode {
    GclNode { name: name.to_string(), commands }
}

fn range(start: u32, end: u32) -> GclNodeRange {
    GclNodeRange { start: NodeIndex { index: start }, end: NodeIndex { index: end } }
}

fn check(graph: &GclGraph, nodes: Vec<GclNode>, edges: Vec<(usize, usize, GclPredicate)>) {
    let found: Vec<&GclNode> = graph.store().node_weights().collect();
    assert_eq!(found, nodes.iter().collect::<Vec<&GclNode>>());
    let found: Vec<(usize, usize, &GclPredicate)> = graph
        .store()
        .raw_edges()
        .iter()
        .map(|e| (e.source().index(), e.target().index(), &e.weight))
        .collect();
    let expected: Vec<(usize, usize, &GclPredicate)> =
        edges.iter().map(|(from, to, pred)| (*from, *to, pred)).collect();
    assert_eq!(found, expected);
}

fn decl(id: u64, is_const: bool, value: Option<IrExpr>) -> IrVariableDecl {
    IrVariableDecl { id, ty: IrType::Bool, is_const, value }
}

fn instantiation(id: u64, ty: IrType) -> IrInstantiation {
    IrInstantiation { id, ty }
}

fn package(id: u64) -> IrType {
    IrType::Struct(IrStructType { id })
}

fn main_decl() -> IrDeclaration {
    IrDeclaration::Instantiation(instantiation(8, package(1)))
}

fn empty_control() -> IrDeclaration {
    IrDeclaration::Control(IrControlDecl {
        local_decls: vec![],
        apply_body: IrBlockStatement(vec![]),
    })
}

fn call(target: u64) -> IrStatementOrDecl {
    IrStatementOrDecl::Statement(IrStatement::FunctionCall(IrFunctionCall {
        target,
        arguments: vec![],
    }))
}

fn action(id: u64, body: Vec<IrStatementOrDecl>) -> IrActionDecl {
    IrActionDecl { id, body: IrBlockStatement(body) }
}

fn names(graph: &GclGraph) -> Vec<String> {
    graph.store().node_weights().map(|n| n.name.clone()).collect()
}

#[test]
fn an_action_returns_true() {
    let mut graph = GclGraph::new();
    assert_eq!(action(7, vec![]).to_gcl(&mut graph, &metadata()), range(1, 0));
    check(
        &graph,
        vec![
            node("block_stmt_body__0", vec![]),
            node("action__7", vec![set_bool("ret", true)]),
        ],
        vec![(1, 0, always())],
    );
    // The control block registers it.
    assert_eq!(graph.get_function(7), None);
}

#[test]
fn a_control_block_is_its_declarations_and_its_body() {
    let mut graph = GclGraph::new();
    let control = IrControlDecl {
        local_decls: vec![
            IrControlLocalDecl::Variable(decl(3, false, None)),
            IrControlLocalDecl::Instantiation(instantiation(5, IrType::Bool)),
            IrControlLocalDecl::Table(IrTableDecl { id: 9 }),
            IrControlLocalDecl::Action(action(7, vec![])),
        ],
        apply_body: IrBlockStatement(vec![call(7)]),
    };
    assert_eq!(control.to_gcl(&mut graph, &metadata()), range(2, 4));
    assert_eq!(graph.get_function(7), Some(range(1, 0)));
    check(
        &graph,
        vec![
            node("block_stmt_body__0", vec![]),
            node("action__7", vec![set_bool("ret", true)]),
            node(
                "control__todo",
                vec![set_bool("has_value__3", false), set_bool("declared_var__3", true)],
            ),
            node(
                "func_call_start__2",
                vec![set(
                    "func_ret_target__7",
                    GclPredicate::String("func_call_end__3".to_string()),
                )],
            ),
            node("func_call_end__3", vec![]),
            node("block_stmt_body__4", vec![set_bool("has_value__5", true)]),
        ],
        vec![
            (1, 0, always()),
            (3, 1, always()),
            (
                0,
                4,
                GclPredicate::Equality(
                    Box::new(GclPredicate::StringVar("func_ret_target__7".to_string())),
                    Box::new(GclPredicate::String("func_call_end__3".to_string())),
                ),
            ),
            (2, 5, always()),
            (5, 3, always()),
        ],
    );
}

#[test]
fn a_later_action_can_call_an_earlier_one() {
    let mut graph = GclGraph::new();
    let control = IrControlDecl {
        local_decls: vec![
            IrControlLocalDecl::Action(action(1, vec![])),
            IrControlLocalDecl::Action(action(2, vec![call(1)])),
        ],
        apply_body: IrBlockStatement(vec![]),
    };
    assert_eq!(control.to_gcl(&mut graph, &metadata()), range(5, 5));
    assert_eq!(graph.get_function(1), Some(range(1, 0)));
    assert_eq!(graph.get_function(2), Some(range(4, 3)));
    assert_eq!(
        names(&graph),
        [
            "block_stmt_body__0",
            "action__1",
            "func_call_start__1",
            "func_call_end__2",
            "action__2",
            "control__todo",
        ]
    );
}

#[test]
fn an_action_declared_again_replaces_the_earlier_one() {
    let mut graph = GclGraph::new();
    let control = IrControlDecl {
        local_decls: vec![
            IrControlLocalDecl::Action(action(1, vec![])),
            IrControlLocalDecl::Action(action(1, vec![])),
        ],
        apply_body: IrBlockStatement(vec![]),
    };
    control.to_gcl(&mut graph, &metadata());
    assert_eq!(graph.get_function(1), Some(range(3, 2)));
}

#[test]
fn a_program_starts_at_its_start_node() {
    let mut graph = GclGraph::new();
    let program = IrProgram {
        declarations: vec![
            IrDeclaration::Constant(decl(3, true, Some(boolean(true)))),
            IrDeclaration::Instantiation(instantiation(6, package(2))),
            empty_control(),
            IrDeclaration::Constant(decl(4, true, Some(expr(IrExprData::Bool(false))))),
            main_decl(),
        ],
    };
    assert!(program.has_switch_main(&metadata()));
    assert_eq!(program.to_gcl(&mut graph, &metadata()), NodeIndex { index: 0 });
    check(
        &graph,
        vec![
            node("start", vec![set_bool("has_value__6", true), set_bool("has_value__8", true)]),
            node("expr__1", vec![set_bool("expr__1", true)]),
            node(
                "var_decl__3__0",
                vec![set_bool("has_value__3", true), set("var__3", var("expr__1"))],
            ),
            node("control__todo", vec![]),
            node("expr__4", vec![set_bool("expr__4", false)]),
            node(
                "var_decl__4__3",
                vec![set_bool("has_value__4", true), set("var__4", var("expr__4"))],
            ),
        ],
        vec![
            (1, 2, always()),
            (0, 1, always()),
            (4, 5, always()),
            (2, 4, always()),
            (0, 3, always()),
        ],
    );
}

#[test]
fn the_last_control_block_is_entered() {
    let mut graph = GclGraph::new();
    let program = IrProgram { declarations: vec![empty_control(), empty_control(), main_decl()] };
    assert_eq!(program.to_gcl(&mut graph, &metadata()), NodeIndex { index: 0 });
    check(
        &graph,
        vec![
            node("start", vec![set_bool("has_value__8", true)]),
            node("control__todo", vec![]),
            node("control__todo", vec![]),
        ],
        vec![(0, 2, always())],
    );
}

#[test]
fn a_program_without_control_blocks_is_its_start_node() {
    let mut graph = GclGraph::new();
    let program = IrProgram { declarations: vec![main_decl()] };
    assert_eq!(program.to_gcl(&mut graph, &metadata()), NodeIndex { index: 0 });
    check(&graph, vec![node("start", vec![set_bool("has_value__8", true)])], vec![]);
}

#[test]
fn a_second_program_comes_behind_the_first() {
    let mut graph = GclGraph::new();
    let program = IrProgram { declarations: vec![empty_control(), main_decl()] };
    assert_eq!(program.to_gcl(&mut graph, &metadata()), NodeIndex { index: 0 });
    let nodes: Vec<String> = names(&graph);
    assert_eq!(program.to_gcl(&mut graph, &metadata()), NodeIndex { index: 2 });
    assert_eq!(names(&graph)[..2], nodes[..]);
    assert_eq!(names(&graph), ["start", "control__todo", "start", "control__todo"]);
    let edges: Vec<(usize, usize)> = graph
        .store()
        .raw_edges()
        .iter()
        .map(|e| (e.source().index(), e.target().index()))
        .collect();
    assert_eq!(edges, [(0, 1), (2, 3)]);
}

#[test]
fn the_main_declaration_comes_last() {
    let program = IrProgram { declarations: vec![] };
    assert!(!program.has_switch_main(&metadata()));
    let program = IrProgram { declarations: vec![empty_control()] };
    assert!(!program.has_switch_main(&metadata()));
    let program = IrProgram { declarations: vec![main_decl(), empty_control()] };
    assert!(!program.has_switch_main(&metadata()));
    let program = IrProgram { declarations: vec![empty_control(), main_decl()] };
    assert!(program.has_switch_main(&metadata()));
}

#[test]
fn the_main_declaration_is_a_switch() {
    let with = |ty: IrType| -> IrProgram {
        IrProgram { declarations: vec![IrDeclaration::Instantiation(instantiation(8, ty))] }
    };
    assert!(with(package(1)).has_switch_main(&metadata()));
    // Another package, a type without a name, and no package at all.
    assert!(!with(package(2)).has_switch_main(&metadata()));
    assert!(!with(package(3)).has_switch_main(&metadata()));
    assert!(!with(IrType::Bool).has_switch_main(&metadata()));
}
