//! What statements and blocks are translated into.

use either::Either;
use p4_gcl::ir::{
    IrAssignment, IrBlockStatement, IrExpr, IrExprData, IrFunctionCall, IrIfStatement,
    IrInstantiation, IrStatement, IrStatementOrDecl, IrType, IrVariableDecl,
};
use p4_gcl::gcl::{GclAssignment, GclCommand, GclNode, GclNodeRange, GclPredicate, NodeIndex};
use p4_gcl::graph::GclGraph;
use p4_gcl::metadata::ProgramMetadata;
use p4_gcl::to_gcl::ToGcl;
use std::collections::HashMap;

fn metadata() -> ProgramMetadata {
    let mut type_names = HashMap::new();
    type_names.insert(1, "V1Switch".to_string());
    type_names.insert(2, "MyPackage".to_string());
    ProgramMetadata { type_names }
}

fn expr(data: IrExprData) -> IrExpr {
    IrExpr { ty: IrType::Bool, data }
}

fn boolean(value: bool) -> IrExpr {
    expr(IrExprData::Bool(value))
}

fn set(name: &str, pred: GclPredicate) -> GclCommand {
    GclCommand::Assignment(GclAssignment { name: name.to_string(), pred })
}

fn set_bool(name: &str, value: bool) -> GclCommand {
    set(name, GclPredicate::Bool(value))
}

fn var(name: &str) -> GclPredicate {
    GclPredicate::Var(name.to_string())
}

fn not(pred: GclPredicate) -> GclPredicate {
    GclPredicate::Negation(Box::new(pred))
}

fn always() -> GclPredicate {
    GclPredicate::Bool(true)
}

fn node(name: &str, commands: Vec<GclCommand>) -> GclNode {
    GclNode { name: name.to_string(), commands }
}

fn range(start: u32, end: u32) -> GclNodeRange {
    GclNodeRange { start: NodeIndex { index: start }, end: NodeIndex { index: end } }
}

fn check(graph: &GclGraph, nodes: Vec<GclNode>, edges: Vec<(usize, usize, GclPredicate)>) {
    let found: Vec<&GclNode> = graph.store().node_weights().collect();
    assert_eq!(found, nodes.iter().collect::<Vec<&GclNode>>());
    let found: Vec<(usize, usize, &GclPredicate)> = graph
        .store()
        .raw_edges()
        .iter()
        .map(|e| (e.source().index(), e.target().index(), &e.weight))
        .collect();
    let expected: Vec<(usize, usize, &GclPredicate)> =
        edges.iter().map(|(from, to, pred)| (*from, *to, pred)).collect();
    assert_eq!(found, expected);
}

fn decl(id: u64, is_const: bool, value: Option<IrExpr>) -> IrVariableDecl {
    IrVariableDecl { id, ty: IrType::Bool, is_const, value }
}

fn instantiation(id: u64) -> IrInstantiation {
    IrInstantiation { id, ty: IrType::Bool }
}

fn empty_block() -> Box<IrStatement> {
    Box::new(IrStatement::Block(IrBlockStatement(vec![])))
}

#[test]
fn an_instantiation_is_a_command() {
    let mut graph = GclGraph::new();
    let command = instantiation(12).to_gcl(&mut graph, &metadata());
    assert_eq!(command, set_bool("has_value__12", true));
    check(&graph, vec![], vec![]);
}

#[test]
fn a_variable_without_a_value_is_declared() {
    let mut graph = GclGraph::new();
    let nodes = decl(3, false, None).to_gcl(&mut graph, &metadata());
    assert_eq!(nodes, range(0, 0));
    check(
        &graph,
        vec![node(
            "var_decl__3__0",
            vec![set_bool("has_value__3", false), set_bool("declared_var__3", true)],
        )],
        vec![],
    );
}

#[test]
fn a_variable_with_a_value_gets_it() {
    let mut graph = GclGraph::new();
    let nodes = decl(3, false, Some(boolean(true))).to_gcl(&mut graph, &metadata());
    assert_eq!(nodes, range(0, 1));
    check(
        &graph,
        vec![
            node("expr__1", vec![set_bool("expr__1", true)]),
            node(
                "var_decl__3__0",
                vec![
                    set_bool("has_value__3", true),
                    set_bool("declared_var__3", true),
                    set("var__3", var("expr__1")),
                ],
            ),
        ],
        vec![(0, 1, always())],
    );
}

#[test]
fn a_constant_cannot_be_assigned_to() {
    let mut graph = GclGraph::new();
    let nodes = decl(3, true, Some(boolean(true))).to_gcl(&mut graph, &metadata());
    assert_eq!(nodes, range(0, 1));
    check(
        &graph,
        vec![
            node("expr__1", vec![set_bool("expr__1", true)]),
            node(
                "var_decl__3__0",
                vec![set_bool("has_value__3", true), set("var__3", var("expr__1"))],
            ),
        ],
        vec![(0, 1, always())],
    );
}

#[test]
fn a_constant_without_a_value_has_none() {
    let mut graph = GclGraph::new();
    let nodes = decl(3, true, None).to_gcl(&mut graph, &metadata());
    assert_eq!(nodes, range(0, 0));
    check(
        &graph,
        vec![node("var_decl__3__0", vec![set_bool("has_value__3", false)])],
        vec![],
    );
}

#[test]
fn an_assignment_checks_for_a_declaration() {
    let mut graph = GclGraph::new();
    let assignment = IrAssignment { var: 4, value: boolean(true) };
    assert_eq!(assignment.to_gcl(&mut graph, &metadata()), range(3, 1));
    check(
        &graph,
        vec![
            node("expr__0", vec![set_bool("expr__0", true)]),
            node(
                "assignment__4__1",
                vec![set_bool("has_value__4", true), set("var__4", var("expr__0"))],
            ),
            node("bug__2", vec![GclCommand::Bug]),
            node("assert__3", vec![]),
        ],
        vec![
            (0, 1, always()),
            (3, 0, var("declared_var__4")),
            (3, 2, not(var("declared_var__4"))),
        ],
    );
}

#[test]
fn a_conditional_without_else_may_skip_its_branch() {
    let mut graph = GclGraph::new();
    let statement = IrIfStatement {
        condition: boolean(true),
        then_case: empty_block(),
        else_case: None,
    };
    assert_eq!(statement.to_gcl(&mut graph, &metadata()), range(1, 0));
    check(
        &graph,
        vec![
            node("if_end__0", vec![]),
            node("expr__1", vec![set_bool("expr__1", true)]),
            node("block_stmt_body__2", vec![]),
        ],
        vec![(1, 2, var("expr__1")), (1, 0, not(var("expr__1"))), (2, 0, always())],
    );
}

#[test]
fn a_conditional_joins_its_branches() {
    let mut graph = GclGraph::new();
    let statement = IrIfStatement {
        condition: boolean(false),
        then_case: empty_block(),
        else_case: Some(empty_block()),
    };
    assert_eq!(statement.to_gcl(&mut graph, &metadata()), range(1, 0));
    check(
        &graph,
        vec![
            node("if_end__0", vec![]),
            node("expr__1", vec![set_bool("expr__1", false)]),
            node("block_stmt_body__2", vec![]),
            node("block_stmt_body__3", vec![]),
        ],
        vec![
            (1, 2, var("expr__1")),
            (1, 3, not(var("expr__1"))),
            (2, 0, always()),
            (3, 0, always()),
        ],
    );
}

#[test]
fn an_empty_block_is_one_node() {
    let mut graph = GclGraph::new();
    assert_eq!(IrBlockStatement(vec![]).to_gcl(&mut graph, &metadata()), range(0, 0));
    check(&graph, vec![node("block_stmt_body__0", vec![])], vec![]);
}

#[test]
fn a_block_of_instantiations_is_one_node() {
    let mut graph = GclGraph::new();
    let block = IrBlockStatement(vec![
        IrStatementOrDecl::Instantiation(instantiation(1)),
        IrStatementOrDecl::Instantiation(instantiation(2)),
    ]);
    assert_eq!(block.to_gcl(&mut graph, &metadata()), range(0, 0));
    check(
        &graph,
        vec![node(
            "block_stmt_body__0",
            vec![set_bool("has_value__1", true), set_bool("has_value__2", true)],
        )],
        vec![],
    );
}

#[test]
fn the_elements_of_a_block_are_chained() {
    let mut graph = GclGraph::new();
    let block = IrBlockStatement(vec![
        IrStatementOrDecl::VariableDecl(decl(1, true, None)),
        IrStatementOrDecl::VariableDecl(decl(2, true, None)),
    ]);
    assert_eq!(block.to_gcl(&mut graph, &metadata()), range(0, 1));
    check(
        &graph,
        vec![
            node("var_decl__1__0", vec![set_bool("has_value__1", false)]),
            node("var_decl__2__1", vec![set_bool("has_value__2", false)]),
        ],
        vec![(0, 1, always())],
    );
}

#[test]
fn the_commands_of_a_block_keep_their_place() {
    let mut graph = GclGraph::new();
    let block = IrBlockStatement(vec![
        IrStatementOrDecl::Instantiation(instantiation(1)),
        IrStatementOrDecl::Instantiation(instantiation(2)),
        IrStatementOrDecl::VariableDecl(decl(3, true, None)),
        IrStatementOrDecl::Instantiation(instantiation(4)),
    ]);
    assert_eq!(block.to_gcl(&mut graph, &metadata()), range(1, 2));
    check(
        &graph,
        vec![
            node("var_decl__3__0", vec![set_bool("has_value__3", false)]),
            node(
                "block_stmt_body__1",
                vec![set_bool("has_value__1", true), set_bool("has_value__2", true)],
            ),
            node("block_stmt_body__2", vec![set_bool("has_value__4", true)]),
        ],
        vec![(1, 0, always()), (0, 2, always())],
    );
}

#[test]
fn an_element_is_a_command_or_nodes() {
    let mut graph = GclGraph::new();
    let element = IrStatementOrDecl::Instantiation(instantiation(1));
    assert_eq!(
        element.to_gcl(&mut graph, &metadata()),
        Either::Left(set_bool("has_value__1", true))
    );
    let element = IrStatementOrDecl::VariableDecl(decl(2, true, None));
    assert_eq!(element.to_gcl(&mut graph, &metadata()), Either::Right(range(0, 0)));
    let element = IrStatementOrDecl::Statement(*empty_block());
    assert_eq!(element.to_gcl(&mut graph, &metadata()), Either::Right(range(1, 1)));
}

#[test]
fn a_statement_is_what_it_holds() {
    let mut graph = GclGraph::new();
    assert_eq!(empty_block().to_gcl(&mut graph, &metadata()), range(0, 0));
    graph.register_function(7, range(0, 0));
    let call = IrStatement::FunctionCall(IrFunctionCall { target: 7, arguments: vec![] });
    assert_eq!(call.to_gcl(&mut graph, &metadata()), range(1, 2));
    let assignment = IrStatement::Assignment(IrAssignment { var: 4, value: boolean(true) });
    assert_eq!(assignment.to_gcl(&mut graph, &metadata()), range(6, 4));
    let conditional = IrStatement::If(IrIfStatement {
        condition: expr(IrExprData::Bool(true)),
        then_case: empty_block(),
        else_case: None,
    });
    assert_eq!(conditional.to_gcl(&mut graph, &metadata()), range(8, 7));
}
