//! Runs of translated programs.

use p4_gcl::gcl::{GclCommand, GclNodeRange, GclPredicate, NodeIndex};
use p4_gcl::graph::GclGraph;
use p4_gcl::ir::{
    IrActionDecl, IrAssignment, IrBlockStatement, IrControlDecl, IrControlLocalDecl,
    IrDeclaration, IrExpr, IrExprData, IrFunctionCall, IrIfStatement, IrInstantiation, IrProgram,
    IrStatement, IrStatementOrDecl, IrStructType, IrType, IrVariableDecl,
};
use p4_gcl::metadata::ProgramMetadata;
use p4_gcl::to_gcl::ToGcl;
use std::collections::HashMap;

#[derive(Clone, Debug, PartialEq)]
enum Value {
    Bool(bool),
    Text(String),
}

type Env = HashMap<String, Value>;

#[derive(Debug, PartialEq)]
enum Outcome {
    Done(Env),
    Bug,
}

fn eval(pred: &GclPredicate, env: &Env) -> Value {
    match pred {
        GclPredicate::Bool(b) => Value::Bool(*b),
        GclPredicate::Var(name) | GclPredicate::StringVar(name) => {
            env.get(name).cloned().unwrap_or(Value::Bool(false))
        }
        GclPredicate::String(text) => Value::Text(text.clone()),
        GclPredicate::Negation(inner) => Value::Bool(eval(inner, env) != Value::Bool(true)),
        GclPredicate::Equality(left, right) => Value::Bool(eval(left, env) == eval(right, env)),
    }
}

/// The nodes to which a run can go on.
fn targets(graph: &GclGraph, index: usize, env: &Env) -> Vec<usize> {
    graph
        .store()
        .raw_edges()
        .iter()
        .filter(|e| e.source().index() == index && eval(&e.weight, env) == Value::Bool(true))
        .map(|e| e.target().index())
        .collect()
}

/// Runs the graph from the start of the range to its end. There must be no choice on the way.
fn run(graph: &GclGraph, range: GclNodeRange, env: Env) -> Outcome {
    let nodes: Vec<_> = graph.store().node_weights().collect();
    let end = range.end.index as usize;
    let mut env = env;
    let mut here = range.start.index as usize;
    for _ in 0..1000 {
        for command in &nodes[here].commands {
            match command {
                GclCommand::Assignment(assignment) => {
                    let value = eval(&assignment.pred, &env);
                    env.insert(assignment.name.clone(), value);
                }
                GclCommand::Bug => return Outcome::Bug,
            }
        }
        if here == end {
            assert_eq!(targets(graph, here, &env), Vec::<usize>::new());
            return Outcome::Done(env);
        }
        let next = targets(graph, here, &env);
        assert_eq!(next.len(), 1, "at {}", nodes[here].name);
        here = next[0];
    }
    panic!("the run does not end");
}

fn metadata() -> ProgramMetadata {
    let mut type_names = HashMap::new();
    type_names.insert(1, "V1Switch".to_string());
    ProgramMetadata { type_names }
}

fn expr(data: IrExprData) -> IrExpr {
    IrExpr { ty: IrType::Bool, data }
}

fn boolean(value: bool) -> IrExpr {
    expr(IrExprData::Bool(value))
}

fn read(id: u64) -> IrExpr {
    expr(IrExprData::Var(id))
}

fn and(left: IrExpr, right: IrExpr) -> IrExpr {
    expr(IrExprData::And(Box::new(left), Box::new(right)))
}

fn or(left: IrExpr, right: IrExpr) -> IrExpr {
    expr(IrExprData::Or(Box::new(left), Box::new(right)))
}

fn negation(inner: IrExpr) -> IrExpr {
    expr(IrExprData::Negation(Box::new(inner)))
}

fn decl(id: u64, is_const: bool, value: Option<IrExpr>) -> IrVariableDecl {
    IrVariableDecl { id, ty: IrType::Bool, is_const, value }
}

fn variable(id: u64, value: Option<IrExpr>) -> IrStatementOrDecl {
    IrStatementOrDecl::VariableDecl(decl(id, false, value))
}

fn assign(var: u64, value: IrExpr) -> IrStatementOrDecl {
    IrStatementOrDecl::Statement(IrStatement::Assignment(IrAssignment { var, value }))
}

fn call(target: u64) -> IrStatementOrDecl {
    IrStatementOrDecl::Statement(IrStatement::FunctionCall(IrFunctionCall {
        target,
        arguments: vec![],
    }))
}

fn action(id: u64, body: Vec<IrStatementOrDecl>) -> IrControlLocalDecl {
    IrControlLocalDecl::Action(IrActionDecl { id, body: IrBlockStatement(body) })
}

fn main_decl() -> IrDeclaration {
    let ty = IrType::Struct(IrStructType { id: 1 });
    IrDeclaration::Instantiation(IrInstantiation { id: 8, ty })
}

/// The value of an expression; nothing, where it goes wrong.
fn value_of(e: &IrExpr, env: Env) -> Option<Value> {
    let mut graph = GclGraph::new();
    let (pred, range) = e.to_gcl(&mut graph, &metadata());
    match run(&graph, range, env) {
        Outcome::Done(after) => Some(eval(&pred, &after)),
        Outcome::Bug => None,
    }
}

fn run_block(elements: Vec<IrStatementOrDecl>) -> Outcome {
    let mut graph = GclGraph::new();
    let range = IrBlockStatement(elements).to_gcl(&mut graph, &metadata());
    run(&graph, range, Env::new())
}

fn holds(outcome: &Outcome, name: &str) -> bool {
    match outcome {
        Outcome::Done(env) => env.get(name) == Some(&Value::Bool(true)),
        Outcome::Bug => panic!("a bug"),
    }
}

#[test]
fn expressions_have_their_values() {
    for a in [true, false] {
        assert_eq!(value_of(&boolean(a), Env::new()), Some(Value::Bool(a)));
        assert_eq!(value_of(&negation(boolean(a)), Env::new()), Some(Value::Bool(!a)));
        for b in [true, false] {
            let left = Some(Value::Bool(a && b));
            assert_eq!(value_of(&and(boolean(a), boolean(b)), Env::new()), left);
            let right = Some(Value::Bool(a || b));
            assert_eq!(value_of(&or(boolean(a), boolean(b)), Env::new()), right);
        }
    }
}

#[test]
fn nested_expressions_have_their_values() {
    // !(a && !b) || (b && a)
    for a in [true, false] {
        for b in [true, false] {
            let left = negation(and(boolean(a), negation(boolean(b))));
            let whole = or(left, and(boolean(b), boolean(a)));
            let expected = !(a && !b) || (b && a);
            assert_eq!(value_of(&whole, Env::new()), Some(Value::Bool(expected)));
        }
    }
}

#[test]
fn a_variable_without_a_value_is_a_bug() {
    assert_eq!(value_of(&read(5), Env::new()), None);
    let mut env = Env::new();
    env.insert("has_value__5".to_string(), Value::Bool(true));
    env.insert("var__5".to_string(), Value::Bool(true));
    assert_eq!(value_of(&read(5), env), Some(Value::Bool(true)));
}

#[test]
fn what_is_skipped_cannot_go_wrong() {
    assert_eq!(value_of(&and(boolean(false), read(5)), Env::new()), Some(Value::Bool(false)));
    assert_eq!(value_of(&or(boolean(true), read(5)), Env::new()), Some(Value::Bool(true)));
    assert_eq!(value_of(&and(boolean(true), read(5)), Env::new()), None);
    assert_eq!(value_of(&or(boolean(false), read(5)), Env::new()), None);
    assert_eq!(value_of(&and(read(5), boolean(false)), Env::new()), None);
}

#[test]
fn assignments_need_a_declaration() {
    assert_eq!(run_block(vec![assign(1, boolean(true))]), Outcome::Bug);
    let outcome = run_block(vec![variable(1, None), assign(1, boolean(true))]);
    assert!(holds(&outcome, "var__1"));
    let constant = IrStatementOrDecl::VariableDecl(decl(1, true, Some(boolean(false))));
    assert_eq!(run_block(vec![constant, assign(1, boolean(true))]), Outcome::Bug);
}

#[test]
fn a_declaration_takes_the_value_away() {
    let copy = || assign(2, read(1));
    let outcome = run_block(vec![
        variable(2, None),
        variable(1, Some(boolean(true))),
        copy(),
    ]);
    assert!(holds(&outcome, "var__2"));
    let elements = vec![
        variable(2, None),
        variable(1, Some(boolean(true))),
        variable(1, None),
        copy(),
    ];
    assert_eq!(run_block(elements), Outcome::Bug);
}

#[test]
fn conditionals_take_one_branch() {
    for condition in [true, false] {
        for with_else in [true, false] {
            let branch = |value: bool| -> Box<IrStatement> {
                Box::new(IrStatement::Block(IrBlockStatement(vec![assign(1, boolean(value))])))
            };
            let outcome = run_block(vec![
                variable(1, Some(boolean(false))),
                IrStatementOrDecl::Statement(IrStatement::If(IrIfStatement {
                    condition: boolean(condition),
                    then_case: branch(true),
                    else_case: if with_else { Some(branch(false)) } else { None },
                })),
                variable(2, Some(read(1))),
            ]);
            assert_eq!(holds(&outcome, "var__1"), condition);
            assert_eq!(holds(&outcome, "var__2"), condition);
        }
    }
}

#[test]
fn an_instantiation_can_be_read() {
    let instantiation = IrInstantiation { id: 1, ty: IrType::Bool };
    let outcome = run_block(vec![
        IrStatementOrDecl::Instantiation(instantiation),
        variable(2, Some(read(1))),
    ]);
    assert!(holds(&outcome, "has_value__2"));
}

#[test]
fn a_function_returns_to_its_caller() {
    let mut graph = GclGraph::new();
    let control = IrControlDecl {
        local_decls: vec![
            IrControlLocalDecl::Variable(decl(1, false, Some(boolean(false)))),
            IrControlLocalDecl::Variable(decl(2, false, Some(boolean(false)))),
            action(10, vec![assign(1, negation(read(1)))]),
            action(11, vec![call(10), assign(2, read(1)), call(10)]),
        ],
        apply_body: IrBlockStatement(vec![call(11), call(10)]),
    };
    let range = control.to_gcl(&mut graph, &metadata());
    let outcome = run(&graph, range, Env::new());
    // Three times negated; read in between after the first time.
    assert!(holds(&outcome, "var__1"));
    assert!(holds(&outcome, "var__2"));
    assert!(holds(&outcome, "ret"));
}

#[test]
fn a_call_in_an_expression_is_true() {
    let mut graph = GclGraph::new();
    let value = expr(IrExprData::FunctionCall(IrFunctionCall { target: 10, arguments: vec![] }));
    let control = IrControlDecl {
        local_decls: vec![
            IrControlLocalDecl::Variable(decl(1, false, None)),
            action(10, vec![]),
        ],
        apply_body: IrBlockStatement(vec![assign(1, value)]),
    };
    let range = control.to_gcl(&mut graph, &metadata());
    assert!(holds(&run(&graph, range, Env::new()), "var__1"));
}

#[test]
fn constants_are_declared_in_order() {
    let mut graph = GclGraph::new();
    let program = IrProgram {
        declarations: vec![
            IrDeclaration::Constant(decl(1, true, Some(boolean(true)))),
            IrDeclaration::Constant(decl(2, true, Some(negation(read(1))))),
            main_decl(),
        ],
    };
    let start = program.to_gcl(&mut graph, &metadata());
    let end = NodeIndex { index: graph.store().node_count() as u32 - 1 };
    let outcome = run(&graph, GclNodeRange { start, end }, Env::new());
    assert!(holds(&outcome, "var__1"));
    assert!(!holds(&outcome, "var__2"));
    assert!(holds(&outcome, "has_value__2"));
    assert!(holds(&outcome, "has_value__8"));
}

#[test]
fn the_last_control_block_runs() {
    let control = |value: bool| -> IrDeclaration {
        IrDeclaration::Control(IrControlDecl {
            local_decls: vec![IrControlLocalDecl::Variable(decl(1, false, Some(boolean(value))))],
            apply_body: IrBlockStatement(vec![]),
        })
    };
    let mut graph = GclGraph::new();
    let program = IrProgram { declarations: vec![control(false), control(true), main_decl()] };
    let start = program.to_gcl(&mut graph, &metadata());
    let end = NodeIndex { index: graph.store().node_count() as u32 - 1 };
    let outcome = run(&graph, GclNodeRange { start, end }, Env::new());
    assert!(holds(&outcome, "var__1"));
    assert!(holds(&outcome, "has_value__8"));
}

#[test]
fn constants_and_a_control_block_leave_a_choice() {
    let mut graph = GclGraph::new();
    let program = IrProgram {
        declarations: vec![
            IrDeclaration::Constant(decl(1, true, None)),
            IrDeclaration::Control(IrControlDecl {
                local_decls: vec![],
                apply_body: IrBlockStatement(vec![]),
            }),
            main_decl(),
        ],
    };
    let start = program.to_gcl(&mut graph, &metadata());
    assert_eq!(targets(&graph, start.index as usize, &Env::new()), [1, 2]);
}

#[test]
fn a_translation_only_adds() {
    let mut graph = GclGraph::new();
    let block = || IrBlockStatement(vec![variable(1, Some(boolean(true))), assign(1, read(1))]);
    block().to_gcl(&mut graph, &metadata());
    let names: Vec<String> = graph.store().node_weights().map(|n| n.name.clone()).collect();
    let edges: Vec<(usize, usize)> = graph
        .store()
        .raw_edges()
        .iter()
        .map(|e| (e.source().index(), e.target().index()))
        .collect();
    let range = block().to_gcl(&mut graph, &metadata());
    for (i, node) in graph.store().node_weights().enumerate() {
        assert!(i >= names.len() || node.name == names[i]);
    }
    for (i, edge) in graph.store().raw_edges().iter().enumerate() {
        let ends = (edge.source().index(), edge.target().index());
        if i < edges.len() {
            assert_eq!(ends, edges[i]);
        } else {
            // The new part does not touch the old one.
            assert!(ends.0 >= names.len() && ends.1 >= names.len());
        }
    }
    assert!(range.start.index as usize >= names.len());
    assert_eq!(graph.store().node_count(), 2 * names.len());
    assert_eq!(graph.store().edge_count(), 2 * edges.len());
}

#[test]
fn the_graph_grows_in_proportion() {
    let grown = |n: usize| -> (usize, usize) {
        let mut graph = GclGraph::new();
        let mut elements = vec![variable(1, None)];
        for _ in 0..n {
            elements.push(assign(1, boolean(true)));
        }
        IrBlockStatement(elements).to_gcl(&mut graph, &metadata());
        (graph.store().node_count(), graph.store().edge_count())
    };
    // Each assignment is four nodes, three edges of its own and one that leads to it.
    assert_eq!(grown(0), (1, 0));
    assert_eq!(grown(1), (5, 4));
    assert_eq!(grown(50), (201, 200));
}

#[test]
fn a_block_in_two_parts_is_two_blocks() {
    let xs = || vec![variable(1, Some(boolean(true))), assign(1, negation(read(1)))];
    let ys = || {
        let instantiation = IrInstantiation { id: 5, ty: IrType::Bool };
        vec![IrStatementOrDecl::Instantiation(instantiation), variable(2, Some(read(1)))]
    };
    let mut whole = GclGraph::new();
    let mut elements = xs();
    elements.extend(ys());
    let range = IrBlockStatement(elements).to_gcl(&mut whole, &metadata());
    let mut parts = GclGraph::new();
    let first = IrBlockStatement(xs()).to_gcl(&mut parts, &metadata());
    let second = IrBlockStatement(ys()).to_gcl(&mut parts, &metadata());

    assert_eq!(range, GclNodeRange { start: first.start, end: second.end });
    let nodes = |g: &GclGraph| -> Vec<String> {
        g.store().node_weights().map(|n| format!("{:?}", n)).collect()
    };
    assert_eq!(nodes(&whole), nodes(&parts));
    let edges = |g: &GclGraph| -> Vec<(usize, usize, String)> {
        let mut all: Vec<(usize, usize, String)> = g
            .store()
            .raw_edges()
            .iter()
            .map(|e| (e.source().index(), e.target().index(), format!("{:?}", e.weight)))
            .collect();
        all.sort();
        all
    };
    parts.add_edge(first.end, second.start, GclPredicate::default());
    assert_eq!(edges(&whole), edges(&parts));
}

#[test]
fn a_block_that_ends_in_an_instantiation_shares_its_node() {
    let instantiation = |id: u64| {
        IrStatementOrDecl::Instantiation(IrInstantiation { id, ty: IrType::Bool })
    };
    let mut whole = GclGraph::new();
    IrBlockStatement(vec![instantiation(1), instantiation(2)]).to_gcl(&mut whole, &metadata());
    let mut parts = GclGraph::new();
    IrBlockStatement(vec![instantiation(1)]).to_gcl(&mut parts, &metadata());
    IrBlockStatement(vec![instantiation(2)]).to_gcl(&mut parts, &metadata());
    assert_eq!(whole.store().node_count(), 1);
    assert_eq!(parts.store().node_count(), 2);
}

#[test]
fn an_expression_without_calls_needs_no_tidy_graph() {
    // A function that leaves a choice at its end.
    let mut graph = GclGraph::new();
    let nodes: Vec<NodeIndex> = (0..3)
        .map(|i| {
            let name = format!("n{}", i);
            graph.add_node(p4_gcl::gcl::GclNode { name, commands: vec![] })
        })
        .collect();
    graph.add_edge(nodes[0], nodes[1], GclPredicate::default());
    graph.add_edge(nodes[0], nodes[2], GclPredicate::default());
    graph.register_function(7, GclNodeRange { start: nodes[0], end: nodes[0] });
    assert_eq!(targets(&graph, 0, &Env::new()), [1, 2]);

    let e = or(and(boolean(false), read(5)), negation(read(6)));
    let (pred, range) = e.to_gcl(&mut graph, &metadata());
    assert_eq!(run(&graph, range, Env::new()), Outcome::Bug);
    let mut env = Env::new();
    env.insert("has_value__6".to_string(), Value::Bool(true));
    // What is not a truth value counts as false.
    env.insert("var__6".to_string(), Value::Text("text".to_string()));
    match run(&graph, range, env) {
        Outcome::Done(after) => assert_eq!(eval(&pred, &after), Value::Bool(true)),
        Outcome::Bug => panic!("a bug"),
    }
}

#[test]
fn an_action_declared_again_cannot_return_through_the_earlier_one() {
    let mut graph = GclGraph::new();
    let control = IrControlDecl {
        local_decls: vec![action(1, vec![]), action(1, vec![call(1)])],
        apply_body: IrBlockStatement(vec![call(1)]),
    };
    let range = control.to_gcl(&mut graph, &metadata());
    // The inner call has overwritten the return target of the outer one.
    let inner_end = graph.get_function(1).unwrap().end.index as usize;
    let mut env = Env::new();
    let inner = "func_call_end__2".to_string();
    env.insert("func_ret_target__1".to_string(), Value::Text(inner));
    assert_eq!(targets(&graph, inner_end, &env), Vec::<usize>::new());
    assert_ne!(inner_end, range.end.index as usize);
}
