//! What a translation adds does not depend on the edges that are there already.
//!
//! So a block in two parts is the two blocks, one behind the other.

use either::Either;
use vstd::prelude::*;
use vstd::seq_lib::{lemma_multiset_commutative, to_multiset_build};

use crate::gcl::{CommandView, EdgeView, NodeView, PredicateView, RangeView};
use crate::graph::GraphView;
use crate::ir::{
    FunctionId, IrAssignment, IrExpr, IrExprData, IrFunctionCall, IrIfStatement, IrStatement,
    IrStatementOrDecl, IrVariableDecl,
};
use crate::text::{decimal, tagged};
use crate::translation::{
    always, assert_gcl, assign, assign_bool, assignment_gcl, block_gcl, block_state, branch_edges,
    call_gcl, declared_var, edge, element_gcl, expr_calls, expr_gcl, has_value_var, if_end_gcl,
    if_gcl, instantiation_gcl, negated, node, return_var, short_circuit_gcl, single_assignment_gcl,
    statement_gcl, value_var, var_decl_commands, var_decl_gcl, BlockState, Part, ValuePart,
};

verus! {

// ---------------------------------------------------------------------------------------
// Other edges, other functions
// ---------------------------------------------------------------------------------------
/// The graph with `edges` before its own, and with other functions.
pub open spec fn placed(
    g: GraphView,
    edges: Seq<EdgeView>,
    functions: Map<FunctionId, RangeView>,
) -> GraphView {
    GraphView { edges: edges + g.edges, functions, ..g }
}

/// The graph with `edges` before its own.
pub open spec fn behind(g: GraphView, edges: Seq<EdgeView>) -> GraphView {
    placed(g, edges, g.functions)
}

/// It does not matter whether a graph grows before or after it is placed.
proof fn lemma_grow_placed(
    g: GraphView,
    edges: Seq<EdgeView>,
    functions: Map<FunctionId, RangeView>,
    nodes: Seq<NodeView>,
    added: Seq<EdgeView>,
    names: nat,
)
    ensures
        placed(g, edges, functions).grow(nodes, added, names) == placed(
            g.grow(nodes, added, names),
            edges,
            functions,
        ),
{
    assert(placed(g, edges, functions).grow(nodes, added, names).edges =~= placed(
        g.grow(nodes, added, names),
        edges,
        functions,
    ).edges);
}

/// Whether an expression adds the same to a graph and to the graph when it is placed.
#[verifier::opaque]
pub open spec fn is_placed(
    expr: IrExpr,
    g: GraphView,
    edges: Seq<EdgeView>,
    functions: Map<FunctionId, RangeView>,
) -> bool {
    let part = expr_gcl(expr, g);
    let other = expr_gcl(expr, placed(g, edges, functions));
    &&& other.graph == placed(part.graph, edges, functions)
    &&& other.pred == part.pred
    &&& other.range == part.range
    &&& part.graph.functions == g.functions
}

/// A literal or a variable.
proof fn lemma_leaf_placed(
    expr: IrExpr,
    g: GraphView,
    edges: Seq<EdgeView>,
    functions: Map<FunctionId, RangeView>,
)
    requires
        expr.data is Bool || expr.data is Var,
    ensures
        is_placed(expr, g, edges, functions),
{
    reveal(is_placed);
    let name = g.fresh("expr"@, 0);
    let value = match expr.data {
        IrExprData::Var(id) => PredicateView::Var(value_var(id)),
        IrExprData::Bool(b) => PredicateView::Bool(b),
        _ => PredicateView::Bool(true),
    };
    let noted = single_assignment_gcl(value, g);
    let added = seq![node(name, seq![assign(name, value)])];
    lemma_grow_placed(g, edges, functions, added, seq![], 1);
    assert(single_assignment_gcl(value, placed(g, edges, functions)) == placed(
        noted,
        edges,
        functions,
    ));
    if let IrExprData::Var(id) = expr.data {
        let has_value = PredicateView::Var(has_value_var(id));
        lemma_assert_placed(has_value, g.nodes.len() as int, noted, edges, functions);
    }
}

/// A negation behind its operand.
proof fn lemma_negation_placed(
    expr: IrExpr,
    inner: IrExpr,
    g: GraphView,
    edges: Seq<EdgeView>,
    functions: Map<FunctionId, RangeView>,
)
    requires
        expr.data == IrExprData::Negation(Box::new(inner)),
        is_placed(inner, g, edges, functions),
    ensures
        is_placed(expr, g, edges, functions),
{
    reveal(is_placed);
    let first = expr_gcl(inner, g);
    let result = first.graph.fresh("expr"@, 0);
    let nodes = seq![node(result, seq![assign(result, negated(first.pred))])];
    let added = seq![always(first.range.end, first.graph.nodes.len() as int)];
    lemma_grow_placed(first.graph, edges, functions, nodes, added, 1);
    assert(expr_gcl(expr, g).graph == first.graph.grow(nodes, added, 1));
    assert(expr_gcl(expr, placed(g, edges, functions)).graph == placed(
        first.graph,
        edges,
        functions,
    ).grow(nodes, added, 1));
}

/// A call with its value.
proof fn lemma_call_expr_placed(
    expr: IrExpr,
    call: IrFunctionCall,
    g: GraphView,
    edges: Seq<EdgeView>,
    functions: Map<FunctionId, RangeView>,
)
    requires
        expr.data == IrExprData::FunctionCall(call),
        functions[call.target] == g.functions[call.target],
    ensures
        is_placed(expr, g, edges, functions),
{
    reveal(is_placed);
    lemma_call_placed(call, g, edges, functions);
    let first = call_gcl(call, g);
    let result = first.graph.fresh("expr"@, 0);
    let nodes = seq![
        node(
            first.graph.fresh("expr_func"@, 1),
            seq![assign(result, PredicateView::Var(return_var()))],
        ),
    ];
    let added = seq![always(first.range.end, first.graph.nodes.len() as int)];
    lemma_grow_placed(first.graph, edges, functions, nodes, added, 2);
    assert(expr_gcl(expr, g).graph == first.graph.grow(nodes, added, 2));
    assert(expr_gcl(expr, placed(g, edges, functions)).graph == placed(
        first.graph,
        edges,
        functions,
    ).grow(nodes, added, 2));
}

/// A conjunction or disjunction behind its operands.
proof fn lemma_short_circuit_placed(
    left: ValuePart,
    right: ValuePart,
    edges: Seq<EdgeView>,
    functions: Map<FunctionId, RangeView>,
    is_and: bool,
)
    ensures
        ({
            let part = short_circuit_gcl(left, right, is_and);
            let other = short_circuit_gcl(
                ValuePart { graph: placed(left.graph, edges, functions), ..left },
                ValuePart { graph: placed(right.graph, edges, functions), ..right },
                is_and,
            );
            &&& other.graph == placed(part.graph, edges, functions)
            &&& other.pred == part.pred
            &&& other.range == part.range
            &&& part.graph.functions == right.graph.functions
        }),
{
    let later = short_circuit_gcl(left, right, is_and).graph;
    let other = short_circuit_gcl(
        ValuePart { graph: placed(left.graph, edges, functions), ..left },
        ValuePart { graph: placed(right.graph, edges, functions), ..right },
        is_and,
    ).graph;
    assert(other.nodes =~= later.nodes);
    assert(other.edges =~= edges + later.edges);
}

/// A conjunction or disjunction with its operands.
proof fn lemma_operands_placed(
    expr: IrExpr,
    left: IrExpr,
    right: IrExpr,
    g: GraphView,
    edges: Seq<EdgeView>,
    functions: Map<FunctionId, RangeView>,
    is_and: bool,
)
    requires
        expr.data == (if is_and {
            IrExprData::And(Box::new(left), Box::new(right))
        } else {
            IrExprData::Or(Box::new(left), Box::new(right))
        }),
        is_placed(left, g, edges, functions),
        is_placed(right, expr_gcl(left, g).graph, edges, functions),
    ensures
        is_placed(expr, g, edges, functions),
{
    reveal(is_placed);
    let left_part = expr_gcl(left, g);
    let right_part = expr_gcl(right, left_part.graph);
    let other_left = expr_gcl(left, placed(g, edges, functions));
    let other_right = expr_gcl(right, other_left.graph);
    lemma_short_circuit_placed(left_part, right_part, edges, functions, is_and);
    assert(expr_gcl(expr, g) == short_circuit_gcl(left_part, right_part, is_and));
    assert(expr_gcl(expr, placed(g, edges, functions)) == short_circuit_gcl(
        other_left,
        other_right,
        is_and,
    ));
}

/// An expression adds the same whatever edges are there, and whatever functions are there
/// that it does not call.
pub proof fn lemma_expr_placed(
    expr: IrExpr,
    g: GraphView,
    edges: Seq<EdgeView>,
    functions: Map<FunctionId, RangeView>,
)
    requires
        forall|id: FunctionId| #[trigger]
            expr_calls(expr).contains(id) ==> functions[id] == g.functions[id],
    ensures
        is_placed(expr, g, edges, functions),
    decreases expr,
{
    match expr.data {
        IrExprData::And(left, right) => {
            assert forall|id: FunctionId| #[trigger]
                expr_calls(*left).contains(id) implies functions[id] == g.functions[id] by {
                assert(expr_calls(expr).contains(id));
            }
            assert forall|id: FunctionId| #[trigger]
                expr_calls(*right).contains(id) implies functions[id] == g.functions[id] by {
                assert(expr_calls(expr).contains(id));
            }
            lemma_expr_placed(*left, g, edges, functions);
            assert(expr_gcl(*left, g).graph.functions == g.functions) by {
                reveal(is_placed);
            }
            lemma_expr_placed(*right, expr_gcl(*left, g).graph, edges, functions);
            lemma_operands_placed(expr, *left, *right, g, edges, functions, true);
        },
        IrExprData::Or(left, right) => {
            assert forall|id: FunctionId| #[trigger]
                expr_calls(*left).contains(id) implies functions[id] == g.functions[id] by {
                assert(expr_calls(expr).contains(id));
            }
            assert forall|id: FunctionId| #[trigger]
                expr_calls(*right).contains(id) implies functions[id] == g.functions[id] by {
                assert(expr_calls(expr).contains(id));
            }
            lemma_expr_placed(*left, g, edges, functions);
            assert(expr_gcl(*left, g).graph.functions == g.functions) by {
                reveal(is_placed);
            }
            lemma_expr_placed(*right, expr_gcl(*left, g).graph, edges, functions);
            lemma_operands_placed(expr, *left, *right, g, edges, functions, false);
        },
        IrExprData::Negation(inner) => {
            assert(expr_calls(*inner) == expr_calls(expr));
            lemma_expr_placed(*inner, g, edges, functions);
            lemma_negation_placed(expr, *inner, g, edges, functions);
        },
        IrExprData::FunctionCall(call) => {
            assert(expr_calls(expr).contains(call.target));
            lemma_call_expr_placed(expr, call, g, edges, functions);
        },
        _ => {
            lemma_leaf_placed(expr, g, edges, functions);
        },
    }
}

/// A check in front of a node.
proof fn lemma_assert_placed(
    pred: PredicateView,
    next: int,
    g: GraphView,
    edges: Seq<EdgeView>,
    functions: Map<FunctionId, RangeView>,
)
    ensures
        assert_gcl(pred, next, placed(g, edges, functions)) == placed(
            assert_gcl(pred, next, g),
            edges,
            functions,
        ),
{
    let n = g.nodes.len() as int;
    lemma_grow_placed(
        g,
        edges,
        functions,
        seq![
            node(g.fresh("bug"@, 0), seq![CommandView::Bug]),
            node(g.fresh("assert"@, 1), seq![]),
        ],
        seq![edge(n + 1, next, pred), edge(n + 1, n, negated(pred))],
        2,
    );
}

/// A call.
proof fn lemma_call_placed(
    call: IrFunctionCall,
    g: GraphView,
    edges: Seq<EdgeView>,
    functions: Map<FunctionId, RangeView>,
)
    requires
        functions[call.target] == g.functions[call.target],
    ensures
        call_gcl(call, placed(g, edges, functions)).graph == placed(
            call_gcl(call, g).graph,
            edges,
            functions,
        ),
        call_gcl(call, placed(g, edges, functions)).range == call_gcl(call, g).range,
{
    let later = call_gcl(call, g).graph;
    let nodes = later.nodes.subrange(g.nodes.len() as int, later.nodes.len() as int);
    let added = later.edges.subrange(g.edges.len() as int, later.edges.len() as int);
    assert(later.nodes =~= g.nodes + nodes);
    assert(later.edges =~= g.edges + added);
    lemma_grow_placed(g, edges, functions, nodes, added, 2);
    let other = call_gcl(call, placed(g, edges, functions)).graph;
    assert(other.nodes =~= placed(g, edges, functions).nodes + nodes);
    assert(other.edges =~= placed(g, edges, functions).edges + added);
}

// ---------------------------------------------------------------------------------------
// Other edges
// ---------------------------------------------------------------------------------------
/// Whether two parts are the same but for the edges that were there before them.
pub open spec fn is_behind(other: Part, part: Part, edges: Seq<EdgeView>) -> bool {
    other.graph == behind(part.graph, edges) && other.range == part.range
}

/// It does not matter whether a graph grows before or after it comes behind other edges.
proof fn lemma_grow_behind(
    g: GraphView,
    edges: Seq<EdgeView>,
    nodes: Seq<NodeView>,
    added: Seq<EdgeView>,
    names: nat,
)
    ensures
        behind(g, edges).grow(nodes, added, names) == behind(g.grow(nodes, added, names), edges),
{
    lemma_grow_placed(g, edges, g.functions, nodes, added, names);
}

/// An expression.
proof fn lemma_expr_behind(expr: IrExpr, g: GraphView, edges: Seq<EdgeView>)
    ensures
        ({
            let part = expr_gcl(expr, g);
            let other = expr_gcl(expr, behind(g, edges));
            &&& other.graph == behind(part.graph, edges)
            &&& other.pred == part.pred
            &&& other.range == part.range
        }),
{
    lemma_expr_placed(expr, g, edges, g.functions);
    reveal(is_placed);
}

/// A declaration.
proof fn lemma_var_decl_behind(decl: IrVariableDecl, g: GraphView, edges: Seq<EdgeView>)
    ensures
        is_behind(var_decl_gcl(decl, behind(g, edges)), var_decl_gcl(decl, g), edges),
{
    let named = g.grow(seq![], seq![], 1);
    let name = g.fresh(tagged("var_decl__"@, decl.id as nat), 0);
    lemma_grow_behind(g, edges, seq![], seq![], 1);
    match decl.value {
        Some(value) => {
            lemma_expr_behind(value, named, edges);
            let part = expr_gcl(value, named);
            lemma_grow_behind(
                part.graph,
                edges,
                seq![node(name, var_decl_commands(decl, Some(part.pred)))],
                seq![always(part.range.end, part.graph.nodes.len() as int)],
                0,
            );
        },
        None => {
            lemma_grow_behind(
                named,
                edges,
                seq![node(name, var_decl_commands(decl, None))],
                seq![],
                0,
            );
        },
    }
}

/// An assignment.
proof fn lemma_assignment_behind(assignment: IrAssignment, g: GraphView, edges: Seq<EdgeView>)
    ensures
        is_behind(
            assignment_gcl(assignment, behind(g, edges)),
            assignment_gcl(assignment, g),
            edges,
        ),
{
    lemma_expr_behind(assignment.value, g, edges);
    let part = expr_gcl(assignment.value, g);
    let nodes = seq![
        node(
            part.graph.fresh(tagged("assignment__"@, assignment.var as nat), 0),
            seq![
                assign_bool(has_value_var(assignment.var), true),
                assign(value_var(assignment.var), part.pred),
            ],
        ),
    ];
    let added = seq![always(part.range.end, part.graph.nodes.len() as int)];
    let assigned = part.graph.grow(nodes, added, 1);
    lemma_grow_behind(part.graph, edges, nodes, added, 1);
    lemma_assert_placed(
        PredicateView::Var(declared_var(assignment.var)),
        part.range.start,
        assigned,
        edges,
        assigned.functions,
    );
}

/// A conditional.
proof fn lemma_if_behind(statement: IrIfStatement, g: GraphView, edges: Seq<EdgeView>)
    ensures
        is_behind(if_gcl(statement, behind(g, edges)), if_gcl(statement, g), edges),
    decreases statement, 0nat,
{
    let end = g.nodes.len() as int;
    lemma_grow_behind(g, edges, seq![node(g.fresh("if_end"@, 0), seq![])], seq![], 1);
    lemma_expr_behind(statement.condition, if_end_gcl(g), edges);
    let cond = expr_gcl(statement.condition, if_end_gcl(g));
    lemma_statement_behind(*statement.then_case, cond.graph, edges);
    let then_part = statement_gcl(*statement.then_case, cond.graph);
    let (last, else_range) = match statement.else_case {
        Some(else_case) => {
            lemma_statement_behind(*else_case, then_part.graph, edges);
            let part = statement_gcl(*else_case, then_part.graph);
            (part.graph, Some(part.range))
        },
        None => (then_part.graph, None),
    };
    let added = branch_edges(cond.range, cond.pred, then_part.range, else_range, end);
    lemma_grow_behind(last, edges, seq![], added, 0);
}

/// A statement.
proof fn lemma_statement_behind(statement: IrStatement, g: GraphView, edges: Seq<EdgeView>)
    ensures
        is_behind(statement_gcl(statement, behind(g, edges)), statement_gcl(statement, g), edges),
    decreases statement, 0nat,
{
    match statement {
        IrStatement::Block(block) => {
            lemma_block_behind(block.0@, g, edges);
        },
        IrStatement::If(if_statement) => {
            lemma_if_behind(if_statement, g, edges);
        },
        IrStatement::Assignment(assignment) => {
            lemma_assignment_behind(assignment, g, edges);
        },
        IrStatement::FunctionCall(call) => {
            lemma_call_placed(call, g, edges, g.functions);
        },
    }
}

/// An element of a block adds the same whatever edges are there.
pub proof fn lemma_element_behind(element: IrStatementOrDecl, g: GraphView, edges: Seq<EdgeView>)
    ensures
        element_gcl(element, behind(g, edges)).0 == behind(element_gcl(element, g).0, edges),
        element_gcl(element, behind(g, edges)).1 == element_gcl(element, g).1,
    decreases element, 0nat,
{
    match element {
        IrStatementOrDecl::Statement(statement) => {
            lemma_statement_behind(statement, g, edges);
        },
        IrStatementOrDecl::VariableDecl(decl) => {
            lemma_var_decl_behind(decl, g, edges);
        },
        IrStatementOrDecl::Instantiation(_) => {},
    }
}

/// The block so far with `edges` before its own.
spec fn state_behind(state: BlockState, edges: Seq<EdgeView>) -> BlockState {
    BlockState { graph: behind(state.graph, edges), ..state }
}

proof fn lemma_chain_behind(state: BlockState, next: RangeView, edges: Seq<EdgeView>)
    ensures
        state_behind(state, edges).chain(next) == state_behind(state.chain(next), edges),
{
    if let Some(range) = state.range {
        let link = EdgeView { from: range.end, to: next.start, pred: PredicateView::Bool(true) };
        lemma_grow_behind(state.graph, edges, seq![], seq![link], 0);
    }
}

proof fn lemma_flush_behind(state: BlockState, edges: Seq<EdgeView>)
    ensures
        state_behind(state, edges).flush() == state_behind(state.flush(), edges),
{
    let n = state.graph.nodes.len() as int;
    let added = seq![node(state.graph.fresh("block_stmt_body"@, 0), state.pending)];
    let held = BlockState {
        graph: state.graph.grow(added, seq![], 1),
        pending: seq![],
        range: state.range,
    };
    lemma_grow_behind(state.graph, edges, added, seq![], 1);
    lemma_chain_behind(held, RangeView { start: n, end: n }, edges);
}

proof fn lemma_absorb_behind(
    state: BlockState,
    output: Either<CommandView, RangeView>,
    edges: Seq<EdgeView>,
)
    ensures
        state_behind(state, edges).absorb(output) == state_behind(state.absorb(output), edges),
{
    reveal(BlockState::absorb);
    if let Either::Right(range) = output {
        if state.pending.len() == 0 {
            lemma_chain_behind(state, range, edges);
        } else {
            lemma_flush_behind(state, edges);
            lemma_chain_behind(state.flush(), range, edges);
        }
    }
}

/// The first elements of a block.
proof fn lemma_block_state_behind(
    elements: Seq<IrStatementOrDecl>,
    k: nat,
    g: GraphView,
    edges: Seq<EdgeView>,
)
    requires
        k <= elements.len(),
    ensures
        block_state(elements, k, behind(g, edges)) == state_behind(
            block_state(elements, k, g),
            edges,
        ),
    decreases elements, k,
{
    if k > 0 {
        let j = (k - 1) as nat;
        let state = block_state(elements, j, g);
        lemma_block_state_behind(elements, j, g, edges);
        lemma_element_behind(elements[k - 1], state.graph, edges);
        let (later, output) = element_gcl(elements[k - 1], state.graph);
        lemma_absorb_behind(BlockState { graph: later, ..state }, output, edges);
    }
}

/// A block adds the same whatever edges are there.
pub proof fn lemma_block_behind(
    elements: Seq<IrStatementOrDecl>,
    g: GraphView,
    edges: Seq<EdgeView>,
)
    ensures
        is_behind(block_gcl(elements, behind(g, edges)), block_gcl(elements, g), edges),
    decreases elements, elements.len() + 1,
{
    let state = block_state(elements, elements.len(), g);
    lemma_block_state_behind(elements, elements.len(), g, edges);
    reveal(BlockState::finish);
    lemma_flush_behind(state, edges);
}

// ---------------------------------------------------------------------------------------
// A block in two parts
// ---------------------------------------------------------------------------------------
/// Whether `whole` are the edges of `parts`, in some order, and `bridge`, if there is one.
spec fn edges_joined(
    whole: Seq<EdgeView>,
    parts: Seq<EdgeView>,
    bridge: Option<EdgeView>,
) -> bool {
    whole.to_multiset() == match bridge {
        Some(edge) => parts.to_multiset().insert(edge),
        None => parts.to_multiset(),
    }
}

/// The same edges may be added.
proof fn lemma_edges_joined_add(
    whole: Seq<EdgeView>,
    parts: Seq<EdgeView>,
    bridge: Option<EdgeView>,
    added: Seq<EdgeView>,
)
    requires
        edges_joined(whole, parts, bridge),
    ensures
        edges_joined(whole + added, parts + added, bridge),
{
    lemma_multiset_commutative(whole, added);
    lemma_multiset_commutative(parts, added);
    if let Some(edge) = bridge {
        assert(parts.to_multiset().insert(edge).add(added.to_multiset())
            =~= parts.to_multiset().add(added.to_multiset()).insert(edge));
    }
}

/// The bridge may be added.
proof fn lemma_edges_joined_bridge(
    whole: Seq<EdgeView>,
    parts: Seq<EdgeView>,
    bridge: EdgeView,
)
    requires
        edges_joined(whole, parts, None),
    ensures
        edges_joined(whole + seq![bridge], parts + seq![], Some(bridge)),
{
    assert(whole + seq![bridge] =~= whole.push(bridge));
    assert(parts + seq![] =~= parts);
    to_multiset_build(whole, bridge);
}

/// Whether `whole` is a block of which `first` has been translated and then what `second` is the
/// translation of: the same but for the edge that joins the two.
spec fn is_joined(whole: BlockState, second: BlockState, first: RangeView) -> bool {
    &&& whole.graph.nodes == second.graph.nodes
    &&& whole.graph.names == second.graph.names
    &&& whole.graph.functions == second.graph.functions
    &&& whole.pending == second.pending
    &&& match second.range {
        Some(range) => {
            &&& whole.range == Some(RangeView { start: first.start, end: range.end })
            &&& edges_joined(
                whole.graph.edges,
                second.graph.edges,
                Some(always(first.end, range.start)),
            )
        },
        None => {
            &&& whole.range == Some(first)
            &&& edges_joined(whole.graph.edges, second.graph.edges, None)
        },
    }
}

proof fn lemma_chain_joined(
    whole: BlockState,
    second: BlockState,
    first: RangeView,
    next: RangeView,
)
    requires
        is_joined(whole, second, first),
    ensures
        is_joined(whole.chain(next), second.chain(next), first),
{
    let link = always(whole.range->0.end, next.start);
    let edges = whole.graph.edges;
    let parts = second.graph.edges;
    assert(whole.chain(next).graph.nodes =~= second.chain(next).graph.nodes);
    match second.range {
        Some(range) => {
            let bridge = Some(always(first.end, range.start));
            lemma_edges_joined_add(edges, parts, bridge, seq![link]);
        },
        None => {
            lemma_edges_joined_bridge(edges, parts, link);
            assert(parts + seq![] =~= parts);
        },
    }
}

proof fn lemma_flush_joined(whole: BlockState, second: BlockState, first: RangeView)
    requires
        is_joined(whole, second, first),
    ensures
        is_joined(whole.flush(), second.flush(), first),
{
    let n = whole.graph.nodes.len() as int;
    let added = seq![node(whole.graph.fresh("block_stmt_body"@, 0), whole.pending)];
    let whole_held = BlockState {
        graph: whole.graph.grow(added, seq![], 1),
        pending: seq![],
        range: whole.range,
    };
    let second_held = BlockState {
        graph: second.graph.grow(added, seq![], 1),
        pending: seq![],
        range: second.range,
    };
    let bridge = match second.range {
        Some(range) => Some(always(first.end, range.start)),
        None => None,
    };
    lemma_edges_joined_add(whole.graph.edges, second.graph.edges, bridge, seq![]);
    lemma_chain_joined(whole_held, second_held, first, RangeView { start: n, end: n });
}

proof fn lemma_absorb_joined(
    whole: BlockState,
    second: BlockState,
    first: RangeView,
    output: Either<CommandView, RangeView>,
)
    requires
        is_joined(whole, second, first),
    ensures
        is_joined(whole.absorb(output), second.absorb(output), first),
        second.absorb(output).pending.len() > 0 || second.absorb(output).range is Some,
{
    reveal(BlockState::absorb);
    if let Either::Right(range) = output {
        if whole.pending.len() == 0 {
            lemma_chain_joined(whole, second, first, range);
        } else {
            lemma_flush_joined(whole, second, first);
            lemma_chain_joined(whole.flush(), second.flush(), first, range);
        }
    }
}

/// The element adds the same to both.
proof fn lemma_element_joined(
    element: IrStatementOrDecl,
    whole: BlockState,
    second: BlockState,
    first: RangeView,
)
    requires
        is_joined(whole, second, first),
    ensures
        element_gcl(element, whole.graph).1 == element_gcl(element, second.graph).1,
        is_joined(
            BlockState { graph: element_gcl(element, whole.graph).0, ..whole },
            BlockState { graph: element_gcl(element, second.graph).0, ..second },
            first,
        ),
{
    let bare = GraphView { edges: seq![], ..whole.graph };
    let added = element_gcl(element, bare).0.edges;
    assert(behind(bare, whole.graph.edges).edges =~= whole.graph.edges);
    assert(behind(bare, second.graph.edges).edges =~= second.graph.edges);
    lemma_element_behind(element, bare, whole.graph.edges);
    lemma_element_behind(element, bare, second.graph.edges);
    let bridge = match second.range {
        Some(range) => Some(always(first.end, range.start)),
        None => None,
    };
    lemma_edges_joined_add(whole.graph.edges, second.graph.edges, bridge, added);
}

/// The first elements of a block are all that counts for them.
proof fn lemma_block_state_prefix(
    xs: Seq<IrStatementOrDecl>,
    ys: Seq<IrStatementOrDecl>,
    k: nat,
    g: GraphView,
)
    requires
        k <= xs.len(),
    ensures
        block_state(xs + ys, k, g) == block_state(xs, k, g),
    decreases k,
{
    if k > 0 {
        lemma_block_state_prefix(xs, ys, (k - 1) as nat, g);
        assert((xs + ys)[k - 1] == xs[k - 1]);
    }
}

/// The elements of the second part, when the first part has nothing pending.
proof fn lemma_block_state_joined(
    xs: Seq<IrStatementOrDecl>,
    ys: Seq<IrStatementOrDecl>,
    k: nat,
    g: GraphView,
)
    requires
        k <= ys.len(),
        block_state(xs, xs.len(), g).pending.len() == 0,
        block_state(xs, xs.len(), g).range is Some,
    ensures
        ({
            let first = block_state(xs, xs.len(), g);
            let second = block_state(ys, k, first.graph);
            &&& is_joined(block_state(xs + ys, xs.len() + k, g), second, first.range->0)
            &&& k > 0 ==> second.pending.len() > 0 || second.range is Some
        }),
    decreases k,
{
    let first = block_state(xs, xs.len(), g);
    if k == 0 {
        lemma_block_state_prefix(xs, ys, xs.len(), g);
        assert(first.pending =~= seq![]);
    } else {
        let j = (k - 1) as nat;
        let element = ys[k - 1];
        let second = block_state(ys, j, first.graph);
        let whole = block_state(xs + ys, xs.len() + j, g);
        lemma_block_state_joined(xs, ys, j, g);
        assert((xs + ys)[(xs.len() + j) as int] == element);
        lemma_element_joined(element, whole, second, first.range->0);
        let (whole_later, output) = element_gcl(element, whole.graph);
        let (second_later, _) = element_gcl(element, second.graph);
        lemma_absorb_joined(
            BlockState { graph: whole_later, ..whole },
            BlockState { graph: second_later, ..second },
            first.range->0,
            output,
        );
    }
}

/// A block in two parts is the two blocks, one behind the other: the nodes are the same, and the
/// edges are those of the two blocks and one more, which always leads from the first to the
/// second. This is when neither part is empty and the first does not end in an instantiation,
/// whose command would go into a node of the second.
pub proof fn lemma_block_joined(
    xs: Seq<IrStatementOrDecl>,
    ys: Seq<IrStatementOrDecl>,
    g: GraphView,
)
    requires
        xs.len() > 0,
        ys.len() > 0,
        !(xs.last() is Instantiation),
    ensures
        ({
            let whole = block_gcl(xs + ys, g);
            let first = block_gcl(xs, g);
            let second = block_gcl(ys, first.graph);
            &&& whole.range == (RangeView { start: first.range.start, end: second.range.end })
            &&& whole.graph.nodes == second.graph.nodes
            &&& whole.graph.names == second.graph.names
            &&& whole.graph.functions == second.graph.functions
            &&& whole.graph.edges.to_multiset() == second.graph.edges.to_multiset().insert(
                always(first.range.end, second.range.start),
            )
        }),
{
    let first = block_state(xs, xs.len(), g);
    assert(first.pending.len() == 0 && first.range is Some) by {
        reveal(BlockState::absorb);
        let state = block_state(xs, (xs.len() - 1) as nat, g);
        let (_, output) = element_gcl(xs.last(), state.graph);
        assert(output is Right);
    }
    let second = block_state(ys, ys.len(), first.graph);
    let whole = block_state(xs + ys, xs.len() + ys.len(), g);
    lemma_block_state_joined(xs, ys, ys.len(), g);
    reveal(BlockState::finish);
    if second.pending.len() > 0 {
        lemma_flush_joined(whole, second, first.range->0);
    }
}

// ---------------------------------------------------------------------------------------
// Groups of instantiations
// ---------------------------------------------------------------------------------------
/// The commands of instantiations: each says that it has a value.
pub open spec fn group_commands(elements: Seq<IrStatementOrDecl>) -> Seq<CommandView> {
    Seq::new(
        elements.len(),
        |i: int|
            CommandView::Assignment(
                "has_value__"@ + decimal(elements[i]->Instantiation_0.id as nat),
                PredicateView::Bool(true),
            ),
    )
}

/// Instantiations alone only have their commands pending.
proof fn lemma_group_pending(elements: Seq<IrStatementOrDecl>, k: nat, g: GraphView)
    requires
        k <= elements.len(),
        forall|i: int| 0 <= i < k ==> (#[trigger] elements[i]) is Instantiation,
    ensures
        block_state(elements, k, g) == (BlockState {
            graph: g,
            pending: group_commands(elements.take(k as int)),
            range: None,
        }),
    decreases k,
{
    if k == 0 {
        assert(group_commands(elements.take(0)) =~= seq![]);
    } else {
        let j = (k - 1) as nat;
        lemma_group_pending(elements, j, g);
        assert(elements[k - 1] is Instantiation);
        reveal(BlockState::absorb);
        let state = block_state(elements, j, g);
        let (later, output) = element_gcl(elements[k - 1], g);
        assert(later == g);
        assert(block_state(elements, k, g) == BlockState { graph: later, ..state }.absorb(output));
        assert(group_commands(elements.take(k as int)) =~= group_commands(
            elements.take(j as int),
        ).push(instantiation_gcl(elements[k - 1]->Instantiation_0)));
    }
}

/// A block of instantiations, be it empty, is one node with their commands in order.
pub proof fn lemma_group_alone(elements: Seq<IrStatementOrDecl>, g: GraphView)
    requires
        forall|i: int| 0 <= i < elements.len() ==> (#[trigger] elements[i]) is Instantiation,
    ensures
        ({
            let part = block_gcl(elements, g);
            let n = g.nodes.len() as int;
            &&& part.range == (RangeView { start: n, end: n })
            &&& part.graph.nodes == g.nodes.push(
                NodeView {
                    name: "block_stmt_body"@ + "__"@ + decimal(g.names),
                    commands: group_commands(elements),
                },
            )
            &&& part.graph.edges == g.edges
            &&& part.graph.names == g.names + 1
            &&& part.graph.functions == g.functions
        }),
{
    lemma_group_pending(elements, elements.len(), g);
    assert(elements.take(elements.len() as int) =~= elements);
    reveal(BlockState::finish);
    let part = block_gcl(elements, g);
    assert(part.graph.nodes =~= g.nodes.push(
        NodeView {
            name: "block_stmt_body"@ + "__"@ + decimal(g.names),
            commands: group_commands(elements),
        },
    ));
    assert(part.graph.edges =~= g.edges);
}

/// A block of instantiations and then one statement or declaration: behind what the element adds
/// there is one node with the commands in order, and an edge that always leads from it to the
/// element.
pub proof fn lemma_group_before(
    elements: Seq<IrStatementOrDecl>,
    element: IrStatementOrDecl,
    g: GraphView,
)
    requires
        elements.len() > 0,
        forall|i: int| 0 <= i < elements.len() ==> (#[trigger] elements[i]) is Instantiation,
        !(element is Instantiation),
    ensures
        ({
            let part = block_gcl(elements.push(element), g);
            let single = match element {
                IrStatementOrDecl::Statement(statement) => statement_gcl(statement, g),
                IrStatementOrDecl::VariableDecl(decl) => var_decl_gcl(decl, g),
                IrStatementOrDecl::Instantiation(_) => Part {
                    graph: g,
                    range: RangeView { start: 0, end: 0 },
                },
            };
            let n = single.graph.nodes.len() as int;
            &&& part.range == (RangeView { start: n, end: single.range.end })
            &&& part.graph.nodes == single.graph.nodes.push(
                NodeView {
                    name: "block_stmt_body"@ + "__"@ + decimal(single.graph.names),
                    commands: group_commands(elements),
                },
            )
            &&& part.graph.edges == single.graph.edges.push(
                EdgeView { from: n, to: single.range.start, pred: PredicateView::Bool(true) },
            )
            &&& part.graph.names == single.graph.names + 1
            &&& part.graph.functions == single.graph.functions
        }),
{
    let whole = elements.push(element);
    let k = elements.len();
    assert forall|i: int| 0 <= i < k implies (#[trigger] whole[i]) is Instantiation by {
        assert(elements[i] is Instantiation);
    }
    lemma_group_pending(whole, k, g);
    assert(whole.take(k as int) =~= elements);
    let state = block_state(whole, k, g);
    let (later, output) = element_gcl(element, g);
    let last = BlockState { graph: later, ..state }.absorb(output);
    assert(whole[k as int] == element);
    assert(block_state(whole, k + 1, g) == last);
    reveal(BlockState::absorb);
    reveal(BlockState::finish);
    let part = block_gcl(whole, g);
    assert(part.graph.nodes =~= later.nodes.push(
        NodeView {
            name: "block_stmt_body"@ + "__"@ + decimal(later.names),
            commands: group_commands(elements),
        },
    ));
    match output {
        Either::Right(next) => {
            assert(part.graph.edges =~= later.edges.push(
                EdgeView {
                    from: later.nodes.len() as int,
                    to: next.start,
                    pred: PredicateView::Bool(true),
                },
            ));
        },
        Either::Left(_) => {},
    }
}

/// A block of one statement or declaration is what the element is.
pub proof fn lemma_single_element(element: IrStatementOrDecl, g: GraphView)
    requires
        !(element is Instantiation),
    ensures
        block_gcl(seq![element], g) == match element {
            IrStatementOrDecl::Statement(statement) => statement_gcl(statement, g),
            IrStatementOrDecl::VariableDecl(decl) => var_decl_gcl(decl, g),
            IrStatementOrDecl::Instantiation(_) => block_gcl(seq![element], g),
        },
{
    reveal(BlockState::absorb);
    reveal(BlockState::finish);
    let elements = seq![element];
    let state = block_state(elements, 0, g);
    let (later, output) = element_gcl(element, g);
    assert(elements[0] == element);
    assert(block_state(elements, 1, g) == BlockState { graph: later, ..state }.absorb(output));
}

/// A block that does not end in an instantiation has nothing pending.
proof fn lemma_state_settled(xs: Seq<IrStatementOrDecl>, g: GraphView)
    requires
        xs.len() > 0,
        !(xs.last() is Instantiation),
    ensures
        ({
            let state = block_state(xs, xs.len(), g);
            let part = block_gcl(xs, g);
            &&& state.pending == Seq::<CommandView>::empty()
            &&& state.range == Some(part.range)
            &&& state.graph == part.graph
        }),
{
    reveal(BlockState::absorb);
    reveal(BlockState::finish);
    let state = block_state(xs, (xs.len() - 1) as nat, g);
    let (_, output) = element_gcl(xs.last(), state.graph);
    assert(output is Right);
    assert(block_state(xs, xs.len(), g).pending =~= Seq::<CommandView>::empty());
}

/// Instantiations behind such a block only have their commands pending.
proof fn lemma_group_pending_behind(
    xs: Seq<IrStatementOrDecl>,
    group: Seq<IrStatementOrDecl>,
    rest: Seq<IrStatementOrDecl>,
    k: nat,
    g: GraphView,
)
    requires
        xs.len() > 0,
        !(xs.last() is Instantiation),
        k <= group.len(),
        forall|i: int| 0 <= i < group.len() ==> (#[trigger] group[i]) is Instantiation,
    ensures
        block_state(xs + group + rest, xs.len() + k, g) == (BlockState {
            graph: block_gcl(xs, g).graph,
            pending: group_commands(group.take(k as int)),
            range: Some(block_gcl(xs, g).range),
        }),
    decreases k,
{
    let whole = xs + group + rest;
    if k == 0 {
        assert(whole =~= xs + (group + rest));
        lemma_block_state_prefix(xs, group + rest, xs.len(), g);
        lemma_state_settled(xs, g);
        assert(group_commands(group.take(0)) =~= seq![]);
    } else {
        let j = (k - 1) as nat;
        lemma_group_pending_behind(xs, group, rest, j, g);
        assert(group[k - 1] is Instantiation);
        assert(whole[(xs.len() + j) as int] == group[k - 1]);
        reveal(BlockState::absorb);
        let state = block_state(whole, xs.len() + j, g);
        let (later, output) = element_gcl(group[k - 1], state.graph);
        assert(later == state.graph);
        assert(block_state(whole, xs.len() + k, g) == BlockState { graph: later, ..state }.absorb(
            output,
        ));
        assert(group_commands(group.take(k as int)) =~= group_commands(
            group.take(j as int),
        ).push(instantiation_gcl(group[k - 1]->Instantiation_0)));
    }
}

/// A block and then instantiations: one node with their commands in order, and an edge that
/// always leads to it from the block.
pub proof fn lemma_group_behind(
    xs: Seq<IrStatementOrDecl>,
    group: Seq<IrStatementOrDecl>,
    g: GraphView,
)
    requires
        xs.len() > 0,
        !(xs.last() is Instantiation),
        group.len() > 0,
        forall|i: int| 0 <= i < group.len() ==> (#[trigger] group[i]) is Instantiation,
    ensures
        ({
            let part = block_gcl(xs + group, g);
            let first = block_gcl(xs, g);
            let n = first.graph.nodes.len() as int;
            &&& part.range == (RangeView { start: first.range.start, end: n })
            &&& part.graph.nodes == first.graph.nodes.push(
                NodeView {
                    name: "block_stmt_body"@ + "__"@ + decimal(first.graph.names),
                    commands: group_commands(group),
                },
            )
            &&& part.graph.edges == first.graph.edges.push(
                EdgeView { from: first.range.end, to: n, pred: PredicateView::Bool(true) },
            )
            &&& part.graph.names == first.graph.names + 1
        }),
{
    let whole = xs + group;
    let first = block_gcl(xs, g);
    let n = first.graph.nodes.len() as int;
    let part = block_gcl(whole, g);
    assert(xs + group + seq![] =~= whole);
    lemma_group_pending_behind(xs, group, seq![], group.len(), g);
    assert(group.take(group.len() as int) =~= group);
    reveal(BlockState::finish);
    assert(part.graph.nodes =~= first.graph.nodes.push(
        NodeView {
            name: "block_stmt_body"@ + "__"@ + decimal(first.graph.names),
            commands: group_commands(group),
        },
    ));
    assert(part.graph.edges =~= first.graph.edges.push(
        EdgeView { from: first.range.end, to: n, pred: PredicateView::Bool(true) },
    ));
}

/// A block and then one more statement or declaration: an edge always leads from the one to the
/// other. Instantiations between the two are one node with their commands in order, and the way
/// leads through it.
pub proof fn lemma_element_after(
    xs: Seq<IrStatementOrDecl>,
    group: Seq<IrStatementOrDecl>,
    element: IrStatementOrDecl,
    g: GraphView,
)
    requires
        xs.len() > 0,
        !(xs.last() is Instantiation),
        forall|i: int| 0 <= i < group.len() ==> (#[trigger] group[i]) is Instantiation,
        !(element is Instantiation),
    ensures
        ({
            let part = block_gcl((xs + group).push(element), g);
            let first = block_gcl(xs, g);
            let single = match element {
                IrStatementOrDecl::Statement(statement) => statement_gcl(statement, first.graph),
                IrStatementOrDecl::VariableDecl(decl) => var_decl_gcl(decl, first.graph),
                IrStatementOrDecl::Instantiation(_) => first,
            };
            let n = single.graph.nodes.len() as int;
            &&& part.range == (RangeView { start: first.range.start, end: single.range.end })
            &&& if group.len() == 0 {
                &&& part.graph.nodes == single.graph.nodes
                &&& part.graph.edges == single.graph.edges.push(
                    EdgeView {
                        from: first.range.end,
                        to: single.range.start,
                        pred: PredicateView::Bool(true),
                    },
                )
                &&& part.graph.names == single.graph.names
            } else {
                &&& part.graph.nodes == single.graph.nodes.push(
                    NodeView {
                        name: "block_stmt_body"@ + "__"@ + decimal(single.graph.names),
                        commands: group_commands(group),
                    },
                )
                &&& part.graph.edges == single.graph.edges.push(
                    EdgeView { from: first.range.end, to: n, pred: PredicateView::Bool(true) },
                ).push(
                    EdgeView { from: n, to: single.range.start, pred: PredicateView::Bool(true) },
                )
                &&& part.graph.names == single.graph.names + 1
            }
        }),
{
    let whole = (xs + group).push(element);
    let first = block_gcl(xs, g);
    let part = block_gcl(whole, g);
    let k = xs.len() + group.len();
    assert(xs + group + seq![element] =~= whole);
    lemma_group_pending_behind(xs, group, seq![element], group.len(), g);
    assert(group.take(group.len() as int) =~= group);
    let state = block_state(whole, k, g);
    let (later, output) = element_gcl(element, first.graph);
    assert(whole[k as int] == element);
    assert(block_state(whole, k + 1, g) == BlockState { graph: later, ..state }.absorb(output));
    reveal(BlockState::absorb);
    reveal(BlockState::finish);
    match output {
        Either::Right(next) => {
            let n = later.nodes.len() as int;
            if group.len() == 0 {
                assert(part.graph.nodes =~= later.nodes);
                assert(part.graph.edges =~= later.edges.push(
                    EdgeView {
                        from: first.range.end,
                        to: next.start,
                        pred: PredicateView::Bool(true),
                    },
                ));
            } else {
                assert(part.graph.nodes =~= later.nodes.push(
                    NodeView {
                        name: "block_stmt_body"@ + "__"@ + decimal(later.names),
                        commands: group_commands(group),
                    },
                ));
                assert(part.graph.edges =~= later.edges.push(
                    EdgeView { from: first.range.end, to: n, pred: PredicateView::Bool(true) },
                ).push(
                    EdgeView { from: n, to: next.start, pred: PredicateView::Bool(true) },
                ));
            }
        },
        Either::Left(_) => {},
    }
}

} // verus!
