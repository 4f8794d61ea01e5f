//! How the nodes of each construct are joined.
//!
//! Of each construct a law lists the nodes and edges that it puts behind those of its parts, in
//! order.

use vstd::prelude::*;

use crate::gcl::{CommandView, EdgeView, NodeView, PredicateView, RangeView};
use crate::graph::GraphView;
use crate::ir::{
    IrActionDecl, IrAssignment, IrControlDecl, IrControlLocalDecl, IrDeclaration, IrExpr,
    IrExprData, IrIfStatement, IrProgram, IrStatement, IrStatementOrDecl, IrVariableDecl,
};
use crate::numbers::{lemma_control_lists, listed};
use crate::registered::{lemma_start_commands, start_commands};
use crate::shapes::numbered;
use crate::text::decimal;
use crate::translation::{
    action_gcl, actions_gcl, assignment_gcl, block_gcl, block_state, call_gcl, control_elements,
    control_gcl, element_gcl, expr_gcl, if_end_gcl, if_gcl, program_gcl, program_state,
    statement_gcl, var_decl_commands, var_decl_gcl, BlockState,
};

verus! {

/// The node with these commands, whose name is made of `base` and `k`.
pub open spec fn listed_node(base: Seq<char>, k: nat, commands: Seq<CommandView>) -> NodeView {
    NodeView { name: numbered(base, k), commands }
}

/// The edge from `from` to `to`, which may be taken where `pred` is true.
pub open spec fn when(from: int, to: int, pred: PredicateView) -> EdgeView {
    EdgeView { from, to, pred }
}

/// The edge from `from` to `to`, which may be taken where `pred` is false.
pub open spec fn unless(from: int, to: int, pred: PredicateView) -> EdgeView {
    EdgeView { from, to, pred: PredicateView::Negation(Box::new(pred)) }
}

/// The edge from `from` to `to`, which may always be taken.
pub open spec fn then_to(from: int, to: int) -> EdgeView {
    EdgeView { from, to, pred: PredicateView::Bool(true) }
}

/// The assignment of `pred` to the variable `name`.
pub open spec fn gives(name: Seq<char>, pred: PredicateView) -> CommandView {
    CommandView::Assignment(name, pred)
}

/// Whether `later` is `g` with `nodes` and `edges` behind its own and `names` more names.
pub open spec fn has_added(
    g: GraphView,
    later: GraphView,
    nodes: Seq<NodeView>,
    edges: Seq<EdgeView>,
    names: nat,
) -> bool {
    &&& later.nodes == g.nodes + nodes
    &&& later.edges == g.edges + edges
    &&& later.names == g.names + names
    &&& later.functions == g.functions
}

/// A literal is one node, which gives the variable of its own name that value.
pub proof fn lemma_literal_wired(expr: IrExpr, g: GraphView)
    requires
        expr.data is Bool,
    ensures
        ({
            let b = PredicateView::Bool(expr.data->Bool_0);
            let part = expr_gcl(expr, g);
            let name = numbered("expr"@, g.names);
            let n = g.nodes.len() as int;
            &&& has_added(
                g,
                part.graph,
                seq![listed_node("expr"@, g.names, seq![gives(name, b)])],
                seq![],
                1,
            )
            &&& part.pred == PredicateView::Var(name)
            &&& part.range == (RangeView { start: n, end: n })
        }),
{
}

/// A variable is read only where it has a value: a check leads to the node that reads it, or else
/// to a bug.
pub proof fn lemma_variable_wired(expr: IrExpr, g: GraphView)
    requires
        expr.data is Var,
    ensures
        ({
            let id = expr.data->Var_0;
            let has_value = PredicateView::Var("has_value__"@ + decimal(id as nat));
            let value = PredicateView::Var("var__"@ + decimal(id as nat));
            let part = expr_gcl(expr, g);
            let name = numbered("expr"@, g.names);
            let n = g.nodes.len() as int;
            &&& has_added(
                g,
                part.graph,
                seq![
                    listed_node("expr"@, g.names, seq![gives(name, value)]),
                    listed_node("bug"@, g.names + 1, seq![CommandView::Bug]),
                    listed_node("assert"@, g.names + 2, seq![]),
                ],
                seq![when(n + 2, n, has_value), unless(n + 2, n + 1, has_value)],
                3,
            )
            &&& part.pred == PredicateView::Var(name)
            &&& part.range == (RangeView { start: n + 2, end: n })
        }),
{
    let part = expr_gcl(expr, g);
    let id = expr.data->Var_0;
    let has_value = PredicateView::Var("has_value__"@ + decimal(id as nat));
    let value = PredicateView::Var("var__"@ + decimal(id as nat));
    let name = numbered("expr"@, g.names);
    let n = g.nodes.len() as int;
    assert(part.graph.nodes =~= g.nodes + seq![
        listed_node("expr"@, g.names, seq![gives(name, value)]),
        listed_node("bug"@, g.names + 1, seq![CommandView::Bug]),
        listed_node("assert"@, g.names + 2, seq![]),
    ]);
    assert(part.graph.edges =~= g.edges + seq![
        when(n + 2, n, has_value),
        unless(n + 2, n + 1, has_value),
    ]);
}

/// A negation is the inner expression and then one node, which gives the variable of its own name
/// the opposite of the inner value.
pub proof fn lemma_negation_wired(expr: IrExpr, g: GraphView)
    requires
        expr.data is Negation,
    ensures
        ({
            let inner = expr_gcl(*expr.data->Negation_0, g);
            let part = expr_gcl(expr, g);
            let name = numbered("expr"@, inner.graph.names);
            let n = inner.graph.nodes.len() as int;
            let value = PredicateView::Negation(Box::new(inner.pred));
            &&& has_added(
                inner.graph,
                part.graph,
                seq![listed_node("expr"@, inner.graph.names, seq![gives(name, value)])],
                seq![then_to(inner.range.end, n)],
                1,
            )
            &&& part.pred == PredicateView::Var(name)
            &&& part.range == (RangeView { start: inner.range.start, end: n })
        }),
{
}

/// A conjunction is its left operand, then its right operand, and then three nodes: one for true,
/// one for false, and the end. The right operand is entered only where the left one is true.
pub proof fn lemma_and_wired(expr: IrExpr, g: GraphView)
    requires
        expr.data is And,
    ensures
        ({
            let left = expr_gcl(*expr.data->And_0, g);
            let right = expr_gcl(*expr.data->And_1, left.graph);
            let part = expr_gcl(expr, g);
            let k = right.graph.names;
            let name = numbered("expr"@, k);
            let n = right.graph.nodes.len() as int;
            &&& has_added(
                right.graph,
                part.graph,
                seq![
                    listed_node(
                        "add_expr_true"@,
                        k + 1,
                        seq![gives(name, PredicateView::Bool(true))],
                    ),
                    listed_node(
                        "add_expr_false"@,
                        k + 2,
                        seq![gives(name, PredicateView::Bool(false))],
                    ),
                    listed_node("add_expr_end"@, k + 3, seq![]),
                ],
                seq![
                    when(left.range.end, right.range.start, left.pred),
                    unless(left.range.end, n + 1, left.pred),
                    when(right.range.end, n, right.pred),
                    unless(right.range.end, n + 1, right.pred),
                    then_to(n, n + 2),
                    then_to(n + 1, n + 2),
                ],
                4,
            )
            &&& part.pred == PredicateView::Var(name)
            &&& part.range == (RangeView { start: left.range.start, end: n + 2 })
        }),
{
}

/// A disjunction is its left operand, then its right operand, and then three nodes: one for true,
/// one for false, and the end. The right operand is entered only where the left one is false.
pub proof fn lemma_or_wired(expr: IrExpr, g: GraphView)
    requires
        expr.data is Or,
    ensures
        ({
            let left = expr_gcl(*expr.data->Or_0, g);
            let right = expr_gcl(*expr.data->Or_1, left.graph);
            let part = expr_gcl(expr, g);
            let k = right.graph.names;
            let name = numbered("expr"@, k);
            let n = right.graph.nodes.len() as int;
            &&& has_added(
                right.graph,
                part.graph,
                seq![
                    listed_node(
                        "or_expr_true"@,
                        k + 1,
                        seq![gives(name, PredicateView::Bool(true))],
                    ),
                    listed_node(
                        "or_expr_false"@,
                        k + 2,
                        seq![gives(name, PredicateView::Bool(false))],
                    ),
                    listed_node("or_expr_end"@, k + 3, seq![]),
                ],
                seq![
                    unless(left.range.end, right.range.start, left.pred),
                    when(left.range.end, n, left.pred),
                    when(right.range.end, n, right.pred),
                    unless(right.range.end, n + 1, right.pred),
                    then_to(n, n + 2),
                    then_to(n + 1, n + 2),
                ],
                4,
            )
            &&& part.pred == PredicateView::Var(name)
            &&& part.range == (RangeView { start: left.range.start, end: n + 2 })
        }),
{
}

/// A call in an expression is the call and then one node, which reads what the function returned.
pub proof fn lemma_call_value_wired(expr: IrExpr, g: GraphView)
    requires
        expr.data is FunctionCall,
    ensures
        ({
            let call = call_gcl(expr.data->FunctionCall_0, g);
            let part = expr_gcl(expr, g);
            let k = call.graph.names;
            let name = numbered("expr"@, k);
            let n = call.graph.nodes.len() as int;
            &&& has_added(
                call.graph,
                part.graph,
                seq![
                    listed_node(
                        "expr_func"@,
                        k + 1,
                        seq![gives(name, PredicateView::Var("ret"@))],
                    ),
                ],
                seq![then_to(call.range.end, n)],
                2,
            )
            &&& part.pred == PredicateView::Var(name)
            &&& part.range == (RangeView { start: call.range.start, end: n })
        }),
{
}

/// The commands of a declaration in order: whether it has a value, that it may be assigned to
/// unless it is a constant, and its value if it has one.
pub open spec fn declaring(decl: IrVariableDecl, value: Option<PredicateView>) -> Seq<CommandView> {
    let has_value = "has_value__"@ + decimal(decl.id as nat);
    let declared = "declared_var__"@ + decimal(decl.id as nat);
    let name = "var__"@ + decimal(decl.id as nat);
    match (decl.is_const, value) {
        (true, None) => seq![gives(has_value, PredicateView::Bool(false))],
        (false, None) => seq![
            gives(has_value, PredicateView::Bool(false)),
            gives(declared, PredicateView::Bool(true)),
        ],
        (true, Some(pred)) => seq![
            gives(has_value, PredicateView::Bool(true)),
            gives(name, pred),
        ],
        (false, Some(pred)) => seq![
            gives(has_value, PredicateView::Bool(true)),
            gives(declared, PredicateView::Bool(true)),
            gives(name, pred),
        ],
    }
}

/// A declaration is its value, if it has one, and then one node; the name of that node is created
/// before the names of the value.
pub proof fn lemma_declaration_wired(decl: IrVariableDecl, g: GraphView)
    ensures
        ({
            let part = var_decl_gcl(decl, g);
            let tag = "var_decl__"@ + decimal(decl.id as nat);
            let named = GraphView { names: g.names + 1, ..g };
            match decl.value {
                Some(value) => {
                    let inner = expr_gcl(value, named);
                    let n = inner.graph.nodes.len() as int;
                    &&& has_added(
                        inner.graph,
                        part.graph,
                        seq![listed_node(tag, g.names, declaring(decl, Some(inner.pred)))],
                        seq![then_to(inner.range.end, n)],
                        0,
                    )
                    &&& part.range == (RangeView { start: inner.range.start, end: n })
                },
                None => {
                    let n = g.nodes.len() as int;
                    &&& has_added(
                        g,
                        part.graph,
                        seq![listed_node(tag, g.names, declaring(decl, None))],
                        seq![],
                        1,
                    )
                    &&& part.range == (RangeView { start: n, end: n })
                },
            }
        }),
{
    let named = GraphView { names: g.names + 1, ..g };
    let grown = g.grow(seq![], seq![], 1);
    assert(grown.nodes =~= g.nodes);
    assert(grown.edges =~= g.edges);
    assert(grown == named);
    match decl.value {
        Some(value) => {
            let inner = expr_gcl(value, named);
            assert(var_decl_commands(decl, Some(inner.pred)) =~= declaring(decl, Some(inner.pred)));
        },
        None => {
            assert(var_decl_commands(decl, None) =~= declaring(decl, None));
        },
    }
}

/// An assignment is its value, then the node that assigns, a bug and a check. It is entered by
/// the check: where the variable has been declared the value comes next, or else the bug.
pub proof fn lemma_assignment_wired(assignment: IrAssignment, g: GraphView)
    ensures
        ({
            let id = assignment.var;
            let declared = PredicateView::Var("declared_var__"@ + decimal(id as nat));
            let inner = expr_gcl(assignment.value, g);
            let part = assignment_gcl(assignment, g);
            let k = inner.graph.names;
            let n = inner.graph.nodes.len() as int;
            &&& has_added(
                inner.graph,
                part.graph,
                seq![
                    listed_node(
                        "assignment__"@ + decimal(id as nat),
                        k,
                        seq![
                            gives(
                                "has_value__"@ + decimal(id as nat),
                                PredicateView::Bool(true),
                            ),
                            gives("var__"@ + decimal(id as nat), inner.pred),
                        ],
                    ),
                    listed_node("bug"@, k + 1, seq![CommandView::Bug]),
                    listed_node("assert"@, k + 2, seq![]),
                ],
                seq![
                    then_to(inner.range.end, n),
                    when(n + 2, inner.range.start, declared),
                    unless(n + 2, n + 1, declared),
                ],
                3,
            )
            &&& part.range == (RangeView { start: n + 2, end: n })
        }),
{
    let id = assignment.var;
    let declared = PredicateView::Var("declared_var__"@ + decimal(id as nat));
    let inner = expr_gcl(assignment.value, g);
    let part = assignment_gcl(assignment, g);
    let k = inner.graph.names;
    let n = inner.graph.nodes.len() as int;
    assert(part.graph.nodes =~= inner.graph.nodes + seq![
        listed_node(
            "assignment__"@ + decimal(id as nat),
            k,
            seq![
                gives("has_value__"@ + decimal(id as nat), PredicateView::Bool(true)),
                gives("var__"@ + decimal(id as nat), inner.pred),
            ],
        ),
        listed_node("bug"@, k + 1, seq![CommandView::Bug]),
        listed_node("assert"@, k + 2, seq![]),
    ]);
    assert(part.graph.edges =~= inner.graph.edges + seq![
        then_to(inner.range.end, n),
        when(n + 2, inner.range.start, declared),
        unless(n + 2, n + 1, declared),
    ]);
}

/// A conditional is its end, then its condition, then its branches, and edges: from the condition
/// to the branch that its value chooses, and from each branch to the end. Without an else branch
/// the condition leads to the end itself.
pub proof fn lemma_conditional_wired(statement: IrIfStatement, g: GraphView)
    ensures
        ({
            let n = g.nodes.len() as int;
            let end = GraphView {
                nodes: g.nodes.push(listed_node("if_end"@, g.names, seq![])),
                names: g.names + 1,
                ..g
            };
            let cond = expr_gcl(statement.condition, end);
            let yes = statement_gcl(*statement.then_case, cond.graph);
            let part = if_gcl(statement, g);
            &&& part.range == (RangeView { start: cond.range.start, end: n })
            &&& match statement.else_case {
                Some(else_case) => {
                    let no = statement_gcl(*else_case, yes.graph);
                    has_added(
                        no.graph,
                        part.graph,
                        seq![],
                        seq![
                            when(cond.range.end, yes.range.start, cond.pred),
                            unless(cond.range.end, no.range.start, cond.pred),
                            then_to(yes.range.end, n),
                            then_to(no.range.end, n),
                        ],
                        0,
                    )
                },
                None => has_added(
                    yes.graph,
                    part.graph,
                    seq![],
                    seq![
                        when(cond.range.end, yes.range.start, cond.pred),
                        unless(cond.range.end, n, cond.pred),
                        then_to(yes.range.end, n),
                    ],
                    0,
                ),
            }
        }),
{
    let end = GraphView {
        nodes: g.nodes.push(listed_node("if_end"@, g.names, seq![])),
        names: g.names + 1,
        ..g
    };
    let started = if_end_gcl(g);
    assert(started.nodes =~= end.nodes);
    assert(started.edges =~= end.edges);
    assert(started == end);
}

/// A statement is what it consists of, with nothing around it.
pub proof fn lemma_statement_wired(statement: IrStatement, g: GraphView)
    ensures
        statement_gcl(statement, g) == match statement {
            IrStatement::Block(block) => block_gcl(block.0@, g),
            IrStatement::If(conditional) => if_gcl(conditional, g),
            IrStatement::Assignment(assignment) => assignment_gcl(assignment, g),
            IrStatement::FunctionCall(call) => call_gcl(call, g),
        },
{
}

/// The local declarations of a control block are looked at in order, and only an action adds to
/// the graph: it is translated, and registered under its own number.
pub proof fn lemma_actions_wired(decls: Seq<IrControlLocalDecl>, k: nat, g: GraphView)
    requires
        k < decls.len(),
    ensures
        actions_gcl(decls, 0, g) == g,
        ({
            let before = actions_gcl(decls, k, g);
            let after = actions_gcl(decls, k + 1, g);
            match decls[k as int] {
                IrControlLocalDecl::Action(action) => {
                    let part = action_gcl(action, before);
                    &&& after.nodes == part.graph.nodes
                    &&& after.edges == part.graph.edges
                    &&& after.names == part.graph.names
                    &&& after.functions == before.functions.insert(action.id, part.range)
                },
                _ => after == before,
            }
        }),
{
    if let IrControlLocalDecl::Action(action) = decls[k as int] {
        lemma_action_functions(action, actions_gcl(decls, k, g));
    }
}

/// An action leaves the functions as they are.
proof fn lemma_action_functions(action: IrActionDecl, g: GraphView)
    ensures
        action_gcl(action, g).graph.functions == g.functions,
{
    lemma_block_functions(action.body.0@, g);
}

/// An expression leaves the functions as they are.
proof fn lemma_expr_functions(expr: IrExpr, g: GraphView)
    ensures
        expr_gcl(expr, g).graph.functions == g.functions,
    decreases expr,
{
    match expr.data {
        IrExprData::And(left, right) => {
            lemma_expr_functions(*left, g);
            lemma_expr_functions(*right, expr_gcl(*left, g).graph);
        },
        IrExprData::Or(left, right) => {
            lemma_expr_functions(*left, g);
            lemma_expr_functions(*right, expr_gcl(*left, g).graph);
        },
        IrExprData::Negation(inner) => lemma_expr_functions(*inner, g),
        _ => {},
    }
}

/// A declaration leaves the functions as they are.
proof fn lemma_var_decl_functions(decl: IrVariableDecl, g: GraphView)
    ensures
        var_decl_gcl(decl, g).graph.functions == g.functions,
{
    if let Some(value) = decl.value {
        lemma_expr_functions(value, g.grow(seq![], seq![], 1));
    }
}

/// A statement leaves the functions as they are.
pub proof fn lemma_statement_functions(statement: IrStatement, g: GraphView)
    ensures
        statement_gcl(statement, g).graph.functions == g.functions,
    decreases statement, 0nat,
{
    match statement {
        IrStatement::Block(block) => lemma_block_functions(block.0@, g),
        IrStatement::If(conditional) => lemma_if_functions(conditional, g),
        IrStatement::Assignment(assignment) => lemma_expr_functions(assignment.value, g),
        IrStatement::FunctionCall(_) => {},
    }
}

/// A conditional leaves the functions as they are.
proof fn lemma_if_functions(statement: IrIfStatement, g: GraphView)
    ensures
        if_gcl(statement, g).graph.functions == g.functions,
    decreases statement, 0nat,
{
    let cond = expr_gcl(statement.condition, if_end_gcl(g));
    lemma_expr_functions(statement.condition, if_end_gcl(g));
    lemma_statement_functions(*statement.then_case, cond.graph);
    if let Some(else_case) = statement.else_case {
        lemma_statement_functions(
            *else_case,
            statement_gcl(*statement.then_case, cond.graph).graph,
        );
    }
}

/// The first elements of a block leave the functions as they are.
proof fn lemma_block_state_functions(elements: Seq<IrStatementOrDecl>, k: nat, g: GraphView)
    requires
        k <= elements.len(),
    ensures
        block_state(elements, k, g).graph.functions == g.functions,
    decreases elements, k,
{
    if k > 0 {
        let j = (k - 1) as nat;
        let state = block_state(elements, j, g);
        lemma_block_state_functions(elements, j, g);
        reveal(BlockState::absorb);
        let (later, output) = element_gcl(elements[k - 1], state.graph);
        assert(later.functions == g.functions) by {
            match elements[k - 1] {
                IrStatementOrDecl::Statement(statement) => {
                    lemma_statement_functions(statement, state.graph);
                },
                IrStatementOrDecl::VariableDecl(decl) => {
                    lemma_var_decl_functions(decl, state.graph);
                },
                IrStatementOrDecl::Instantiation(_) => {},
            }
        }
        assert(block_state(elements, k, g) == BlockState { graph: later, ..state }.absorb(output));
    }
}

/// A block leaves the functions as they are.
pub proof fn lemma_block_functions(elements: Seq<IrStatementOrDecl>, g: GraphView)
    ensures
        block_gcl(elements, g).graph.functions == g.functions,
    decreases elements, elements.len() + 1,
{
    lemma_block_state_functions(elements, elements.len(), g);
    reveal(BlockState::finish);
}

/// A control block is its actions, and then one block: its variables and instantiations in order,
/// and the whole of its apply block behind them. Only the name of the first node of that block is
/// another.
pub proof fn lemma_control_wired(control: IrControlDecl, g: GraphView)
    ensures
        ({
            let decls = control.local_decls@;
            let called = actions_gcl(decls, decls.len(), g);
            let block = block_gcl(listed(decls, decls.len()) + control.apply_body.0@, called);
            let part = control_gcl(control, g);
            let first = block.graph.nodes[block.range.start];
            &&& part.range == block.range
            &&& part.graph.nodes == block.graph.nodes.update(
                block.range.start,
                NodeView { name: "control__todo"@, commands: first.commands },
            )
            &&& part.graph.edges == block.graph.edges
            &&& part.graph.names == block.graph.names
            &&& part.graph.functions == called.functions
        }),
{
    let decls = control.local_decls@;
    lemma_control_lists(control);
    lemma_block_functions(
        control_elements(control),
        actions_gcl(decls, decls.len(), g),
    );
}

/// The end of the chain of constants after the first `k` declarations of a program: the last node
/// of the last constant, or the start node if there is none.
pub open spec fn chain_end(decls: Seq<IrDeclaration>, k: nat, g: GraphView) -> int
    decreases k,
{
    if k == 0 || k > decls.len() {
        g.nodes.len() as int
    } else {
        match decls[k - 1] {
            IrDeclaration::Constant(constant) => var_decl_gcl(
                constant,
                program_state(decls, (k - 1) as nat, g).graph,
            ).range.end,
            _ => chain_end(decls, (k - 1) as nat, g),
        }
    }
}

/// The first node of the last control block among the first `k` declarations of a program.
pub open spec fn last_entry(decls: Seq<IrDeclaration>, k: nat, g: GraphView) -> Option<int>
    decreases k,
{
    if k == 0 || k > decls.len() {
        None
    } else {
        match decls[k - 1] {
            IrDeclaration::Control(control) => Some(
                control_gcl(control, program_state(decls, (k - 1) as nat, g).graph).range.start,
            ),
            _ => last_entry(decls, (k - 1) as nat, g),
        }
    }
}

/// The chain and the control block that a program keeps in mind.
proof fn lemma_kept_in_mind(decls: Seq<IrDeclaration>, k: nat, g: GraphView)
    requires
        k <= decls.len(),
    ensures
        program_state(decls, k, g).end == chain_end(decls, k, g),
        program_state(decls, k, g).control == last_entry(decls, k, g),
    decreases k,
{
    if k > 0 {
        lemma_kept_in_mind(decls, (k - 1) as nat, g);
    }
}

/// The declarations of a program are translated in order, each into the graph that the one before
/// it has left, and the first into the graph with a node `start`. A constant is put behind the
/// chain of constants; a control block is joined to nothing yet; an instantiation adds nothing.
pub proof fn lemma_declarations_wired(decls: Seq<IrDeclaration>, k: nat, g: GraphView)
    requires
        k < decls.len(),
    ensures
        has_added(
            g,
            program_state(decls, 0, g).graph,
            seq![(NodeView { name: "start"@, commands: seq![] })],
            seq![],
            0,
        ),
        ({
            let before = program_state(decls, k, g).graph;
            let after = program_state(decls, k + 1, g).graph;
            match decls[k as int] {
                IrDeclaration::Constant(constant) => {
                    let part = var_decl_gcl(constant, before);
                    has_added(
                        part.graph,
                        after,
                        seq![],
                        seq![then_to(chain_end(decls, k, g), part.range.start)],
                        0,
                    )
                },
                IrDeclaration::Control(control) => after == control_gcl(control, before).graph,
                IrDeclaration::Instantiation(_) => after == before,
            }
        }),
{
    lemma_kept_in_mind(decls, k, g);
}

/// A program is its declarations, and then the start node gets the commands of the
/// instantiations, and an edge that always leads from it to the last control block, if there is
/// one.
pub proof fn lemma_program_wired(program: IrProgram, g: GraphView)
    ensures
        ({
            let decls = program.declarations@;
            let n = g.nodes.len() as int;
            let before = program_state(decls, decls.len(), g).graph;
            let later = program_gcl(program, g);
            &&& later.nodes == before.nodes.update(
                n,
                NodeView {
                    name: before.nodes[n].name,
                    commands: start_commands(decls, decls.len()),
                },
            )
            &&& later.edges == before.edges + match last_entry(decls, decls.len(), g) {
                Some(entry) => seq![then_to(n, entry)],
                None => seq![],
            }
            &&& later.names == before.names
            &&& later.functions == before.functions
        }),
{
    let decls = program.declarations@;
    let before = program_state(decls, decls.len(), g).graph;
    let later = program_gcl(program, g);
    lemma_kept_in_mind(decls, decls.len(), g);
    lemma_start_commands(decls, decls.len(), g);
    if last_entry(decls, decls.len(), g) is None {
        assert(later.edges =~= before.edges + Seq::<EdgeView>::empty());
    } else {
        assert(later.nodes =~= before.nodes.update(
            g.nodes.len() as int,
            NodeView {
                name: before.nodes[g.nodes.len() as int].name,
                commands: start_commands(decls, decls.len()),
            },
        ));
    }
}

} // verus!
