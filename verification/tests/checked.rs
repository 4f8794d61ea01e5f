//! Programs of which nothing is known.

use p4_gcl::gcl::{GclNode, GclNodeRange, GclPredicate, NodeIndex};
use p4_gcl::graph::{GclGraph, Room};
use p4_gcl::ir::{
    IrActionDecl, IrAssignment, IrBlockStatement, IrControlDecl, IrControlLocalDecl,
    IrDeclaration, IrExpr, IrExprData, IrFunctionCall, IrIfStatement, IrInstantiation, IrProgram,
    IrStatement, IrStatementOrDecl, IrStructType, IrTableDecl, IrType, IrVariableDecl,
};
use p4_gcl::metadata::ProgramMetadata;
use p4_gcl::to_gcl::ToGcl;
use std::collections::HashMap;

fn metadata() -> ProgramMetadata {
    let mut type_names = HashMap::new();
    type_names.insert(1, "V1Switch".to_string());
    ProgramMetadata { type_names }
}

fn expr(data: IrExprData) -> IrExpr {
    IrExpr { ty: IrType::Bool, data }
}

fn function_call(target: u64) -> IrFunctionCall {
    IrFunctionCall { target, arguments: vec![] }
}

fn call_expr(target: u64) -> IrExpr {
    expr(IrExprData::FunctionCall(function_call(target)))
}

fn call(target: u64) -> IrStatementOrDecl {
    IrStatementOrDecl::Statement(IrStatement::FunctionCall(function_call(target)))
}

fn variable(value: Option<IrExpr>) -> IrVariableDecl {
    IrVariableDecl { id: 3, ty: IrType::Bool, is_const: false, value }
}

fn action(id: u64, body: Vec<IrStatementOrDecl>) -> IrControlLocalDecl {
    IrControlLocalDecl::Action(IrActionDecl { id, body: IrBlockStatement(body) })
}

fn control(
    local_decls: Vec<IrControlLocalDecl>,
    body: Vec<IrStatementOrDecl>,
) -> IrDeclaration {
    IrDeclaration::Control(IrControlDecl { local_decls, apply_body: IrBlockStatement(body) })
}

fn program(mut declarations: Vec<IrDeclaration>) -> IrProgram {
    let ty = IrType::Struct(IrStructType { id: 1 });
    declarations.push(IrDeclaration::Instantiation(IrInstantiation { id: 8, ty }));
    IrProgram { declarations }
}

fn names(graph: &GclGraph) -> Vec<String> {
    graph.store().node_weights().map(|n| n.name.clone()).collect()
}

fn is_accepted(program: &IrProgram) -> bool {
    let mut graph = GclGraph::new();
    let start = program.try_to_gcl(&mut graph, &metadata());
    if start.is_none() {
        assert_eq!(graph.store().node_count(), 0);
        assert_eq!(graph.store().edge_count(), 0);
        assert_eq!(graph.create_name("n"), "n__0");
    }
    start.is_some()
}

fn node(name: &str) -> GclNode {
    GclNode { name: name.to_string(), commands: vec![] }
}

fn range(start: u32, end: u32) -> GclNodeRange {
    GclNodeRange { start: NodeIndex { index: start }, end: NodeIndex { index: end } }
}

#[test]
fn an_accepted_program_is_translated() {
    let accepted = || {
        program(vec![
            IrDeclaration::Constant(variable(Some(expr(IrExprData::Bool(true))))),
            control(
                vec![
                    action(1, vec![]),
                    action(2, vec![call(1)]),
                    IrControlLocalDecl::Variable(variable(Some(call_expr(2)))),
                    IrControlLocalDecl::Table(IrTableDecl { id: 9 }),
                ],
                vec![call(2)],
            ),
        ])
    };
    let mut checked = GclGraph::new();
    let mut plain = GclGraph::new();
    let start = accepted().try_to_gcl(&mut checked, &metadata());
    assert_eq!(start, Some(NodeIndex { index: 0 }));
    assert_eq!(accepted().to_gcl(&mut plain, &metadata()), NodeIndex { index: 0 });
    assert_eq!(names(&checked), names(&plain));
    assert_eq!(checked.store().edge_count(), plain.store().edge_count());
    assert_eq!(checked.get_function(2), plain.get_function(2));

    // Behind what is there already.
    let count = checked.store().node_count() as u32;
    let start = accepted().try_to_gcl(&mut checked, &metadata());
    assert_eq!(start, Some(NodeIndex { index: count }));
}

#[test]
fn a_program_without_a_switch_is_refused() {
    assert!(!is_accepted(&IrProgram { declarations: vec![] }));
    assert!(!is_accepted(&IrProgram { declarations: vec![control(vec![], vec![])] }));
    let ty = IrType::Struct(IrStructType { id: 2 });
    let main = IrDeclaration::Instantiation(IrInstantiation { id: 8, ty });
    assert!(!is_accepted(&IrProgram { declarations: vec![main] }));
    assert!(is_accepted(&program(vec![])));
}

#[test]
fn an_unknown_call_is_refused_wherever_it_is() {
    let bad = || call_expr(7);
    let good = || expr(IrExprData::Bool(true));
    let statement = |s: IrStatement| IrStatementOrDecl::Statement(s);
    let assign = |value: IrExpr| statement(IrStatement::Assignment(IrAssignment { var: 3, value }));
    let block = |elements: Vec<IrStatementOrDecl>| IrStatement::Block(IrBlockStatement(elements));
    let conditional = |condition: IrExpr, in_then: bool, in_else: bool| {
        let branch = |is_bad: bool| {
            Box::new(block(if is_bad { vec![call(7)] } else { vec![] }))
        };
        statement(IrStatement::If(IrIfStatement {
            condition,
            then_case: branch(in_then),
            else_case: Some(branch(in_else)),
        }))
    };
    let elements = vec![
        call(7),
        assign(bad()),
        assign(expr(IrExprData::And(Box::new(good()), Box::new(bad())))),
        assign(expr(IrExprData::Or(Box::new(bad()), Box::new(good())))),
        assign(expr(IrExprData::Negation(Box::new(bad())))),
        conditional(bad(), false, false),
        conditional(good(), true, false),
        conditional(good(), false, true),
        statement(block(vec![call(7)])),
        IrStatementOrDecl::VariableDecl(variable(Some(bad()))),
    ];
    for element in elements {
        assert!(!is_accepted(&program(vec![control(vec![], vec![element])])));
    }
    assert!(is_accepted(&program(vec![control(
        vec![],
        vec![conditional(good(), false, false), assign(good())],
    )])));
    assert!(!is_accepted(&program(vec![IrDeclaration::Constant(variable(Some(bad())))])));
    let local = IrControlLocalDecl::Variable(variable(Some(bad())));
    assert!(!is_accepted(&program(vec![control(vec![local], vec![])])));
    assert!(!is_accepted(&program(vec![control(vec![action(1, vec![call(7)])], vec![])])));
}

#[test]
fn calls_among_the_arguments_of_a_call_do_not_count() {
    let mut outer = function_call(1);
    outer.arguments.push(call_expr(7));
    let element = IrStatementOrDecl::Statement(IrStatement::FunctionCall(outer));
    assert!(is_accepted(&program(vec![control(vec![action(1, vec![])], vec![element])])));
}

#[test]
fn actions_are_known_from_their_declaration_on() {
    // Not yet, and not by itself.
    let early = control(vec![action(1, vec![call(2)]), action(2, vec![])], vec![]);
    assert!(!is_accepted(&program(vec![early])));
    assert!(!is_accepted(&program(vec![control(vec![action(1, vec![call(1)])], vec![])])));
    // In a later control block, and in a variable that stands before the action.
    let first = control(vec![action(1, vec![])], vec![]);
    let second = control(vec![action(2, vec![call(1)])], vec![call(1), call(2)]);
    assert!(is_accepted(&program(vec![first, second])));
    let local = IrControlLocalDecl::Variable(variable(Some(call_expr(1))));
    assert!(is_accepted(&program(vec![control(vec![local, action(1, vec![])], vec![])])));
    // In the graph already.
    let mut graph = GclGraph::new();
    graph.add_node(node("f"));
    graph.register_function(7, range(0, 0));
    let caller = program(vec![control(vec![], vec![call(7)])]);
    assert_eq!(caller.try_to_gcl(&mut graph, &metadata()), Some(NodeIndex { index: 1 }));
}

#[test]
fn a_function_outside_the_graph_is_noticed() {
    let mut graph = GclGraph::new();
    graph.add_node(node("a"));
    assert!(graph.is_well_formed());
    graph.register_function(7, range(0, 1));
    assert!(!graph.is_well_formed());
    assert_eq!(program(vec![]).try_to_gcl(&mut graph, &metadata()), None);
    assert_eq!(names(&graph), ["a"]);
    graph.register_function(8, range(0, 0));
    assert!(!graph.is_well_formed());
    graph.register_function(7, range(0, 0));
    assert!(graph.is_well_formed());
    assert_eq!(
        program(vec![]).try_to_gcl(&mut graph, &metadata()),
        Some(NodeIndex { index: 1 })
    );
}

#[test]
fn edges_are_looked_at_by_their_ends() {
    let mut graph = GclGraph::new();
    let a = graph.add_node(node("a"));
    // More edges than nodes.
    for _ in 0..5 {
        graph.add_edge(a, a, GclPredicate::default());
    }
    assert!(graph.is_well_formed());
}

fn room(nodes: u64, edges: u64, names: u64) -> Option<Room> {
    Some(Room {
        nodes: 4294967295 - nodes,
        edges: 4294967295 - edges,
        names: 18446744073709551615 - names,
    })
}

#[test]
fn room_goes_with_nodes_edges_and_names() {
    let mut graph = GclGraph::new();
    assert_eq!(graph.room(), room(0, 0, 0));
    let a = graph.add_node(node("a"));
    graph.add_node(node("b"));
    assert_eq!(graph.room(), room(2, 0, 0));
    for _ in 0..3 {
        graph.add_edge(a, a, GclPredicate::default());
    }
    assert_eq!(graph.room(), room(2, 3, 0));
    graph.create_name("n");
    assert_eq!(graph.room(), room(2, 3, 1));
}

#[test]
fn a_program_takes_as_much_room_as_it_says() {
    // One node, no edge and no name of its own for the main declaration.
    let mut graph = GclGraph::new();
    assert!(program(vec![]).try_to_gcl(&mut graph, &metadata()).is_some());
    assert_eq!(graph.room(), room(1, 0, 0));

    // A control block with an empty body is a node, a name and the edge from the start node.
    let mut graph = GclGraph::new();
    assert!(program(vec![control(vec![], vec![])]).try_to_gcl(&mut graph, &metadata()).is_some());
    assert_eq!(graph.room(), room(2, 1, 1));

    // The constant: literal and declaration, with an edge between them and one to them.
    let mut graph = GclGraph::new();
    let constant = IrDeclaration::Constant(variable(Some(expr(IrExprData::Bool(true)))));
    assert!(program(vec![constant]).try_to_gcl(&mut graph, &metadata()).is_some());
    assert_eq!(graph.room(), room(3, 2, 2));

    // A conjunction that calls, a conditional, pending commands, an action.
    let instantiation = || {
        IrStatementOrDecl::Instantiation(IrInstantiation { id: 4, ty: IrType::Bool })
    };
    let value = expr(IrExprData::And(Box::new(call_expr(1)), Box::new(expr(IrExprData::Var(3)))));
    let conditional = IrStatementOrDecl::Statement(IrStatement::If(IrIfStatement {
        condition: expr(IrExprData::Negation(Box::new(expr(IrExprData::Bool(true))))),
        then_case: Box::new(IrStatement::Block(IrBlockStatement(vec![]))),
        else_case: None,
    }));
    let assignment =
        IrStatementOrDecl::Statement(IrStatement::Assignment(IrAssignment { var: 3, value }));
    let body = vec![instantiation(), assignment, conditional, instantiation()];
    let mut graph = GclGraph::new();
    let whole = program(vec![control(vec![action(1, vec![])], body)]);
    assert!(whole.try_to_gcl(&mut graph, &metadata()).is_some());
    // Start 1, action 2, assignment 12, conditional 4, two nodes of commands.
    // Edges: action 1, assignment 14, conditional 4, three between the parts, one from the start.
    // Names: action 1, assignment 14, conditional 4, and the two nodes of commands.
    assert_eq!(graph.room(), room(21, 23, 21));
}
