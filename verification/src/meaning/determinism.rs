//! A run of a translated program never has a choice.

use either::Either;
use vstd::prelude::*;

use crate::gcl::{CommandView, EdgeView, NodeView, PredicateView, RangeView};
use crate::graph::{created_name, lemma_created_names_differ, GraphView};
use crate::growth::{
    lemma_absorb_extends, lemma_action_extends, lemma_actions_grow, lemma_append_extends,
    lemma_assert_extends, lemma_call_extends, lemma_chain_extends, lemma_flush_extends,
    lemma_grow_wf, lemma_grows_refl, lemma_grows_trans, lemma_if_extends, lemma_register_wf,
    lemma_replace_wf, lemma_short_circuit_extends,
};
use crate::ir::{
    FunctionId, IrActionDecl, IrAssignment, IrControlDecl, IrControlLocalDecl, IrExpr, IrExprData,
    IrFunctionCall, IrIfStatement, IrStatement, IrStatementOrDecl, IrVariableDecl,
};
use crate::meaning::runs::{
    completes, eval, goes_wrong, holds, reaches, reaches_in, run_node, steps, takes_edge, Env,
    State, Value,
};
use crate::text::tagged;
use crate::translation::{
    action_gcl, actions_calls_known, actions_gcl, always, assert_gcl, assign, assign_bool,
    assignment_gcl, block_calls, block_gcl, block_state, branch_edges, branch_gcl, call_gcl,
    control_calls_known, control_elements, control_gcl, declared_var, edge, element_calls,
    element_gcl, expr_calls, expr_gcl, has_value_var, if_calls, if_end_gcl, if_gcl,
    local_calls_known, negated, node, return_target_var, return_var, short_circuit_gcl,
    single_assignment_gcl, statement_calls, statement_gcl, value_var, var_decl_calls,
    var_decl_commands, var_decl_gcl, BlockState, Part, ValuePart,
};

verus! {

// ---------------------------------------------------------------------------------------
// Graphs without a choice
// ---------------------------------------------------------------------------------------
/// Whether two predicates are never true at the same time.
pub open spec fn exclusive(p: PredicateView, q: PredicateView) -> bool {
    forall|env: Env| !(#[trigger] holds(p, env) && #[trigger] holds(q, env))
}

/// Whether at most one edge of each node can be taken.
#[verifier::opaque]
pub open spec fn deterministic(g: GraphView) -> bool {
    forall|i: int, j: int|
        0 <= i < g.edges.len() && 0 <= j < g.edges.len() && i != j && (#[trigger] g.edges[i]).from
            == (#[trigger] g.edges[j]).from ==> exclusive(g.edges[i].pred, g.edges[j].pred)
}

/// The predicate under which the function `id` returns to the node with the `n`-th name.
pub open spec fn return_pred(id: FunctionId, n: nat) -> PredicateView {
    PredicateView::Equality(
        Box::new(PredicateView::StringVar(return_target_var(id))),
        Box::new(PredicateView::String(created_name("func_call_end"@, n))),
    )
}

/// Whether `pred` lets the function `id` return to a node of the graph.
pub open spec fn is_return(g: GraphView, id: FunctionId, pred: PredicateView) -> bool {
    exists|n: nat| n < g.names && pred == #[trigger] return_pred(id, n)
}

/// Whether the functions of the graph have ends of their own, from which they only return.
#[verifier::opaque]
pub open spec fn functions_return(g: GraphView) -> bool {
    &&& forall|id: FunctionId, i: int|
        #[trigger] g.functions.dom().contains(id) && 0 <= i < g.edges.len() && (
        #[trigger] g.edges[i]).from == g.functions[id].end ==> is_return(g, id, g.edges[i].pred)
    &&& forall|a: FunctionId, b: FunctionId|
        #[trigger] g.functions.dom().contains(a) && #[trigger] g.functions.dom().contains(b) && a
            != b ==> g.functions[a].end != g.functions[b].end
}

/// Whether `index` is the last node of a function.
pub open spec fn is_function_end(g: GraphView, index: int) -> bool {
    exists|id: FunctionId| #[trigger]
        g.functions.dom().contains(id) && g.functions[id].end == index
}

/// Whether `index` is the first node of a function.
pub open spec fn is_function_start(g: GraphView, index: int) -> bool {
    exists|id: FunctionId| #[trigger]
        g.functions.dom().contains(id) && g.functions[id].start == index
}

/// Whether the edges that `later` has more than `g` join new nodes, but for the edges by which
/// the functions of `g` are entered and left.
#[verifier::opaque]
pub open spec fn confined(g: GraphView, later: GraphView) -> bool {
    forall|i: int|
        g.edges.len() <= i < later.edges.len() ==> {
            &&& (#[trigger] later.edges[i]).from >= g.nodes.len() || is_function_end(
                g,
                later.edges[i].from,
            )
            &&& later.edges[i].to >= g.nodes.len() || is_function_start(g, later.edges[i].to)
        }
}

/// Whether no edge leads on from `index`.
#[verifier::opaque]
pub open spec fn dead_end(g: GraphView, index: int) -> bool {
    forall|i: int| 0 <= i < g.edges.len() ==> (#[trigger] g.edges[i]).from != index
}

/// A graph in which a run has no choice, and the functions only return.
pub open spec fn tidy(g: GraphView) -> bool {
    g.wf() && deterministic(g) && functions_return(g)
}

/// `later` is `g` with a new part between the ends of `range`, which gives a run no choice that
/// it did not have, meddles with nothing and does not lead on.
pub open spec fn neat(g: GraphView, later: GraphView, range: RangeView) -> bool {
    &&& g.extended_by(later, range)
    &&& tidy(g) ==> tidy(later)
    &&& confined(g, later)
    &&& dead_end(later, range.end)
}

/// A predicate and its negation.
pub proof fn lemma_negation_exclusive(pred: PredicateView)
    ensures
        exclusive(pred, negated(pred)),
        exclusive(negated(pred), pred),
{
}

/// Whether edges may be added from `index`: none leads on yet, and it is not for a function to
/// return from.
pub open spec fn is_free(g: GraphView, index: int) -> bool {
    index >= g.nodes.len() || (dead_end(g, index) && !is_function_end(g, index))
}

/// Edges may be added from free nodes, where they exclude each other.
pub proof fn lemma_tidy_grow(g: GraphView, nodes: Seq<NodeView>, edges: Seq<EdgeView>, names: nat)
    requires
        g.wf(),
        forall|j: int|
            0 <= j < edges.len() ==> is_free(g, (#[trigger] edges[j]).from) && 0 <= edges[j].from
                < g.nodes.len() + nodes.len() && 0 <= edges[j].to < g.nodes.len() + nodes.len(),
        forall|i: int, j: int|
            0 <= i < edges.len() && 0 <= j < edges.len() && i != j && (#[trigger] edges[i]).from
                == (#[trigger] edges[j]).from ==> exclusive(edges[i].pred, edges[j].pred),
    ensures
        g.grow(nodes, edges, names).wf(),
        tidy(g) ==> tidy(g.grow(nodes, edges, names)),
{
    let later = g.grow(nodes, edges, names);
    let e = g.edges.len() as int;
    lemma_grow_wf(g, nodes, edges, names);
    if tidy(g) {
        reveal(deterministic);
        reveal(functions_return);
        reveal(dead_end);
        assert forall|i: int, j: int|
            0 <= i < later.edges.len() && 0 <= j < later.edges.len() && i != j && (
            #[trigger] later.edges[i]).from == (#[trigger] later.edges[j]).from implies exclusive(
            later.edges[i].pred,
            later.edges[j].pred,
        ) by {
            if i < e && j < e {
                assert(later.edges[i] == g.edges[i] && later.edges[j] == g.edges[j]);
            } else if i >= e && j >= e {
                assert(later.edges[i] == edges[i - e] && later.edges[j] == edges[j - e]);
            } else {
                let (o, k) = if i < e {
                    (i, j - e)
                } else {
                    (j, i - e)
                };
                assert(later.edges[o] == g.edges[o]);
                assert(later.edges[e + k] == edges[k]);
                assert(is_free(g, edges[k].from));
                assert(g.has_node(g.edges[o].from)) by {
                    reveal(GraphView::wf);
                }
            }
        }
        assert forall|id: FunctionId, i: int|
            #[trigger] later.functions.dom().contains(id) && 0 <= i < later.edges.len() && (
            #[trigger] later.edges[i]).from == later.functions[id].end implies is_return(
            later,
            id,
            later.edges[i].pred,
        ) by {
            assert(g.functions.dom().contains(id));
            if i < e {
                assert(later.edges[i] == g.edges[i]);
                let n = choose|n: nat|
                    n < g.names && g.edges[i].pred == #[trigger] return_pred(id, n);
                assert(n < later.names && later.edges[i].pred == return_pred(id, n));
            } else {
                assert(later.edges[i] == edges[i - e]);
                assert(is_free(g, edges[i - e].from));
                assert(g.has_range(g.functions[id])) by {
                    reveal(GraphView::wf);
                }
            }
        }
    }
}

/// Edges between new nodes are confined.
pub proof fn lemma_confined_grow(
    g: GraphView,
    mid: GraphView,
    nodes: Seq<NodeView>,
    edges: Seq<EdgeView>,
    names: nat,
)
    requires
        confined(g, mid),
        forall|j: int|
            0 <= j < edges.len() ==> (#[trigger] edges[j]).from >= g.nodes.len() && edges[j].to
                >= g.nodes.len(),
    ensures
        confined(g, mid.grow(nodes, edges, names)),
{
    reveal(confined);
    let later = mid.grow(nodes, edges, names);
    let e = mid.edges.len() as int;
    assert forall|i: int| g.edges.len() <= i < later.edges.len() implies {
        &&& (#[trigger] later.edges[i]).from >= g.nodes.len() || is_function_end(
            g,
            later.edges[i].from,
        )
        &&& later.edges[i].to >= g.nodes.len() || is_function_start(g, later.edges[i].to)
    } by {
        if i < e {
            assert(later.edges[i] == mid.edges[i]);
        } else {
            assert(later.edges[i] == edges[i - e]);
        }
    }
}

/// No edges at all are confined.
pub proof fn lemma_confined_refl(g: GraphView, later: GraphView)
    requires
        later.edges == g.edges,
    ensures
        confined(g, later),
{
    reveal(confined);
}

/// What is confined twice is confined.
pub proof fn lemma_confined_trans(g: GraphView, mid: GraphView, later: GraphView)
    requires
        confined(g, mid),
        confined(mid, later),
        g.grows_into(mid),
        mid.grows_into(later),
        mid.functions == g.functions,
    ensures
        confined(g, later),
{
    reveal(confined);
    assert forall|i: int| g.edges.len() <= i < later.edges.len() implies {
        &&& (#[trigger] later.edges[i]).from >= g.nodes.len() || is_function_end(
            g,
            later.edges[i].from,
        )
        &&& later.edges[i].to >= g.nodes.len() || is_function_start(g, later.edges[i].to)
    } by {
        if i < mid.edges.len() {
            assert(later.edges[i] == mid.edges[i]) by {
                reveal(GraphView::is_kept_by);
            }
        } else {
            if is_function_end(mid, later.edges[i].from) {
                assert(is_function_end(g, later.edges[i].from));
            }
            if is_function_start(mid, later.edges[i].to) {
                assert(is_function_start(g, later.edges[i].to));
            }
        }
    }
}

/// A new node is not the end of a function.
pub proof fn lemma_new_is_no_end(g: GraphView, later: GraphView, index: int)
    requires
        g.wf(),
        later.functions == g.functions,
        index >= g.nodes.len(),
    ensures
        !is_function_end(later, index),
{
    reveal(GraphView::wf);
    if is_function_end(later, index) {
        let id = choose|id: FunctionId| #[trigger]
            later.functions.dom().contains(id) && later.functions[id].end == index;
        assert(g.functions.dom().contains(id));
        assert(g.has_range(g.functions[id]));
    }
}

/// A dead end stays one where further parts are confined.
pub proof fn lemma_dead_end_kept(g: GraphView, mid: GraphView, later: GraphView, index: int)
    requires
        g.wf(),
        mid.functions == g.functions,
        g.nodes.len() <= index < mid.nodes.len(),
        dead_end(mid, index),
        mid.grows_into(later),
        confined(mid, later),
    ensures
        dead_end(later, index),
{
    lemma_new_is_no_end(g, mid, index);
    reveal(dead_end);
    reveal(confined);
    assert forall|i: int| 0 <= i < later.edges.len() implies (#[trigger] later.edges[i]).from
        != index by {
        if i < mid.edges.len() {
            assert(later.edges[i] == mid.edges[i]) by {
                reveal(GraphView::is_kept_by);
            }
        }
    }
}

/// A node from which no edge is added stays a dead end.
pub proof fn lemma_dead_end_grow(
    g: GraphView,
    nodes: Seq<NodeView>,
    edges: Seq<EdgeView>,
    names: nat,
    index: int,
)
    requires
        g.wf(),
        index >= g.nodes.len() || dead_end(g, index),
        forall|j: int| 0 <= j < edges.len() ==> (#[trigger] edges[j]).from != index,
    ensures
        dead_end(g.grow(nodes, edges, names), index),
{
    reveal(dead_end);
    let later = g.grow(nodes, edges, names);
    let e = g.edges.len() as int;
    assert forall|i: int| 0 <= i < later.edges.len() implies (#[trigger] later.edges[i]).from
        != index by {
        if i < e {
            assert(later.edges[i] == g.edges[i]);
            assert(g.has_node(g.edges[i].from)) by {
                reveal(GraphView::wf);
            }
        } else {
            assert(later.edges[i] == edges[i - e]);
        }
    }
}

// ---------------------------------------------------------------------------------------
// Expressions
// ---------------------------------------------------------------------------------------
/// A check in front of a part.
pub proof fn lemma_assert_neat(pred: PredicateView, g: GraphView, mid: GraphView, range: RangeView)
    requires
        g.wf(),
        neat(g, mid, range),
    ensures
        neat(
            g,
            assert_gcl(pred, range.start, mid),
            RangeView { start: mid.nodes.len() as int + 1, end: range.end },
        ),
{
    let n = mid.nodes.len() as int;
    let nodes = seq![
        node(mid.fresh("bug"@, 0), seq![CommandView::Bug]),
        node(mid.fresh("assert"@, 1), seq![]),
    ];
    let edges = seq![edge(n + 1, range.start, pred), edge(n + 1, n, negated(pred))];
    lemma_assert_extends(pred, range.start, mid);
    lemma_grows_trans(g, mid, assert_gcl(pred, range.start, mid));
    lemma_negation_exclusive(pred);
    lemma_tidy_grow(mid, nodes, edges, 2);
    lemma_confined_grow(g, mid, nodes, edges, 2);
    lemma_dead_end_grow(mid, nodes, edges, 2, range.end);
}

/// A part with a node behind it.
pub proof fn lemma_append_neat(g: GraphView, part: Part, added: NodeView, names: nat)
    requires
        g.wf(),
        neat(g, part.graph, part.range),
    ensures
        ({
            let n = part.graph.nodes.len() as int;
            neat(
                g,
                part.graph.grow(seq![added], seq![always(part.range.end, n)], names),
                RangeView { start: part.range.start, end: n },
            )
        }),
{
    let n = part.graph.nodes.len() as int;
    let edges = seq![always(part.range.end, n)];
    lemma_append_extends(g, part, added, names);
    lemma_new_is_no_end(g, part.graph, part.range.end);
    lemma_tidy_grow(part.graph, seq![added], edges, names);
    lemma_confined_grow(g, part.graph, seq![added], edges, names);
    lemma_dead_end_grow(part.graph, seq![added], edges, names, n);
}

/// A single node.
pub proof fn lemma_single_neat(g: GraphView, added: NodeView, names: nat)
    requires
        g.wf(),
    ensures
        ({
            let n = g.nodes.len() as int;
            neat(g, g.grow(seq![added], seq![], names), RangeView { start: n, end: n })
        }),
{
    let n = g.nodes.len() as int;
    lemma_grow_wf(g, seq![added], seq![], names);
    lemma_tidy_grow(g, seq![added], seq![], names);
    lemma_confined_refl(g, g);
    lemma_confined_grow(g, g, seq![added], seq![], names);
    lemma_dead_end_grow(g, seq![added], seq![], names, n);
}

/// A conjunction or disjunction behind its operands.
pub proof fn lemma_short_circuit_neat(
    g: GraphView,
    left: ValuePart,
    right: ValuePart,
    is_and: bool,
)
    requires
        g.wf(),
        neat(g, left.graph, left.range),
        neat(left.graph, right.graph, right.range),
    ensures
        ({
            let part = short_circuit_gcl(left, right, is_and);
            neat(g, part.graph, part.range)
        }),
{
    let part = short_circuit_gcl(left, right, is_and);
    let later = part.graph;
    let mid = right.graph;
    let n = mid.nodes.len() as int;
    let nodes = later.nodes.subrange(n, later.nodes.len() as int);
    let edges = later.edges.subrange(mid.edges.len() as int, later.edges.len() as int);
    assert(later.nodes =~= mid.nodes + nodes);
    assert(later.edges =~= mid.edges + edges);
    lemma_short_circuit_extends(g, left, right, is_and);
    lemma_grows_trans(g, left.graph, mid);
    lemma_dead_end_kept(g, left.graph, mid, left.range.end);
    lemma_new_is_no_end(g, mid, left.range.end);
    lemma_new_is_no_end(g, mid, right.range.end);
    lemma_confined_trans(g, left.graph, mid);
    lemma_negation_exclusive(left.pred);
    lemma_negation_exclusive(right.pred);
    lemma_tidy_grow(mid, nodes, edges, 4);
    lemma_confined_grow(g, mid, nodes, edges, 4);
    lemma_dead_end_grow(mid, nodes, edges, 4, n + 2);
}

/// Different names of nodes to return to exclude each other.
proof fn lemma_returns_exclusive(id: FunctionId, m: nat, n: nat)
    requires
        m != n,
    ensures
        exclusive(return_pred(id, m), return_pred(id, n)),
{
    let a = created_name("func_call_end"@, m);
    let b = created_name("func_call_end"@, n);
    assert(a != b) by {
        if a == b {
            lemma_created_names_differ("func_call_end"@, m, "func_call_end"@, n);
        }
    }
    assert forall|env: Env| !(#[trigger] holds(return_pred(id, m), env) && #[trigger] holds(
        return_pred(id, n),
        env,
    )) by {
        let target = PredicateView::StringVar(return_target_var(id));
        assert(eval(PredicateView::String(a), env) == Value::Text(a));
        assert(eval(PredicateView::String(b), env) == Value::Text(b));
        assert(holds(return_pred(id, m), env) ==> eval(target, env) == Value::Text(a));
        assert(holds(return_pred(id, n), env) ==> eval(target, env) == Value::Text(b));
    }
}

/// A call of a registered function.
pub proof fn lemma_call_neat(call: IrFunctionCall, g: GraphView)
    requires
        g.wf(),
        g.functions.dom().contains(call.target),
    ensures
        neat(g, call_gcl(call, g).graph, call_gcl(call, g).range),
{
    let id = call.target;
    let part = call_gcl(call, g);
    let later = part.graph;
    let f = g.functions[id];
    let n = g.nodes.len() as int;
    let e = g.edges.len() as int;
    let k = g.names + 1;
    lemma_call_extends(call, g);
    assert(later.edges[e] == always(n, f.start));
    assert(later.edges[e + 1] == edge(f.end, n + 1, return_pred(id, k)));
    assert(g.has_range(f)) by {
        reveal(GraphView::wf);
    }
    if tidy(g) {
        assert(deterministic(later)) by {
            reveal(deterministic);
            assert forall|i: int, j: int|
                0 <= i < later.edges.len() && 0 <= j < later.edges.len() && i != j && (
                #[trigger] later.edges[i]).from == (
                #[trigger] later.edges[j]).from implies exclusive(
                later.edges[i].pred,
                later.edges[j].pred,
            ) by {
                if i < e {
                    assert(later.edges[i] == g.edges[i]);
                    assert(g.has_node(g.edges[i].from)) by {
                        reveal(GraphView::wf);
                    }
                }
                if j < e {
                    assert(later.edges[j] == g.edges[j]);
                    assert(g.has_node(g.edges[j].from)) by {
                        reveal(GraphView::wf);
                    }
                }
                if i < e && j == e + 1 {
                    lemma_return_exclusive_with_others(g, id, i);
                }
                if j < e && i == e + 1 {
                    lemma_return_exclusive_with_others(g, id, j);
                }
            }
        }
        assert(functions_return(later)) by {
            reveal(functions_return);
            assert forall|other: FunctionId, i: int|
                #[trigger] later.functions.dom().contains(other) && 0 <= i < later.edges.len() && (
                #[trigger] later.edges[i]).from == later.functions[other].end implies is_return(
                later,
                other,
                later.edges[i].pred,
            ) by {
                assert(g.functions.dom().contains(other));
                assert(g.has_range(g.functions[other])) by {
                    reveal(GraphView::wf);
                }
                if i < e {
                    assert(later.edges[i] == g.edges[i]);
                    let m = choose|m: nat|
                        m < g.names && g.edges[i].pred == #[trigger] return_pred(other, m);
                    assert(m < later.names && later.edges[i].pred == return_pred(other, m));
                } else {
                    assert(i == e + 1);
                    assert(g.functions.dom().contains(id));
                    assert(other == id);
                    assert(k < later.names && later.edges[i].pred == return_pred(id, k));
                }
            }
        }
    }
    assert(confined(g, later)) by {
        reveal(confined);
        assert(is_function_start(g, f.start));
        assert(is_function_end(g, f.end));
    }
    assert(dead_end(later, n + 1)) by {
        reveal(dead_end);
        assert forall|i: int| 0 <= i < later.edges.len() implies (#[trigger] later.edges[i]).from
            != n + 1 by {
            if i < e {
                assert(later.edges[i] == g.edges[i]);
                assert(g.has_node(g.edges[i].from)) by {
                    reveal(GraphView::wf);
                }
            }
        }
    }
}

/// The edge by which a function returns to a new node excludes those by which it returned so
/// far.
proof fn lemma_return_exclusive_with_others(g: GraphView, id: FunctionId, i: int)
    requires
        tidy(g),
        g.functions.dom().contains(id),
        0 <= i < g.edges.len(),
    ensures
        g.edges[i].from == g.functions[id].end ==> exclusive(
            g.edges[i].pred,
            return_pred(id, g.names + 1),
        ) && exclusive(return_pred(id, g.names + 1), g.edges[i].pred),
{
    if g.edges[i].from == g.functions[id].end {
        assert(is_return(g, id, g.edges[i].pred)) by {
            reveal(functions_return);
        }
        let m = choose|m: nat| m < g.names && g.edges[i].pred == #[trigger] return_pred(id, m);
        lemma_returns_exclusive(id, m, g.names + 1);
        lemma_returns_exclusive(id, g.names + 1, m);
    }
}

/// The translation of an expression gives a run no choice.
pub proof fn lemma_expr_neat(expr: IrExpr, g: GraphView)
    requires
        g.wf(),
        expr_calls(expr).subset_of(g.functions.dom()),
    ensures
        neat(g, expr_gcl(expr, g).graph, expr_gcl(expr, g).range),
    decreases expr,
{
    let n = g.nodes.len() as int;
    let name = g.fresh("expr"@, 0);
    match expr.data {
        IrExprData::Bool(b) => {
            lemma_single_neat(g, node(name, seq![assign_bool(name, b)]), 1);
        },
        IrExprData::Var(id) => {
            let value = PredicateView::Var(value_var(id));
            lemma_single_neat(g, node(name, seq![assign(name, value)]), 1);
            lemma_assert_neat(
                PredicateView::Var(has_value_var(id)),
                g,
                single_assignment_gcl(value, g),
                RangeView { start: n, end: n },
            );
        },
        IrExprData::And(left, right) => {
            let left_part = expr_gcl(*left, g);
            lemma_expr_neat(*left, g);
            lemma_expr_neat(*right, left_part.graph);
            lemma_short_circuit_neat(g, left_part, expr_gcl(*right, left_part.graph), true);
        },
        IrExprData::Or(left, right) => {
            let left_part = expr_gcl(*left, g);
            lemma_expr_neat(*left, g);
            lemma_expr_neat(*right, left_part.graph);
            lemma_short_circuit_neat(g, left_part, expr_gcl(*right, left_part.graph), false);
        },
        IrExprData::Negation(inner) => {
            lemma_expr_neat(*inner, g);
            let part = expr_gcl(*inner, g);
            let result = part.graph.fresh("expr"@, 0);
            lemma_append_neat(
                g,
                Part { graph: part.graph, range: part.range },
                node(result, seq![assign(result, negated(part.pred))]),
                1,
            );
        },
        IrExprData::FunctionCall(call) => {
            assert(expr_calls(expr).contains(call.target));
            lemma_call_neat(call, g);
            let part = call_gcl(call, g);
            let result = part.graph.fresh("expr"@, 0);
            lemma_append_neat(
                g,
                part,
                node(
                    part.graph.fresh("expr_func"@, 1),
                    seq![assign(result, PredicateView::Var(return_var()))],
                ),
                2,
            );
        },
    }
}

// ---------------------------------------------------------------------------------------
// Statements
// ---------------------------------------------------------------------------------------
/// A part of a graph that differs in its name counter only.
proof fn lemma_neat_named(g: GraphView, named: GraphView, later: GraphView, range: RangeView)
    requires
        g.wf(),
        named == g.grow(seq![], seq![], 1),
        neat(named, later, range),
    ensures
        neat(g, later, range),
{
    lemma_tidy_grow(g, seq![], seq![], 1);
    lemma_grow_wf(g, seq![], seq![], 1);
    lemma_grows_trans(g, named, later);
    assert(named.edges =~= g.edges);
    lemma_confined_refl(g, named);
    lemma_confined_trans(g, named, later);
}

/// The translation of a declaration gives a run no choice.
pub proof fn lemma_var_decl_neat(decl: IrVariableDecl, g: GraphView)
    requires
        g.wf(),
        var_decl_calls(decl).subset_of(g.functions.dom()),
    ensures
        neat(g, var_decl_gcl(decl, g).graph, var_decl_gcl(decl, g).range),
{
    let part = var_decl_gcl(decl, g);
    let named = g.grow(seq![], seq![], 1);
    let name = g.fresh(tagged("var_decl__"@, decl.id as nat), 0);
    lemma_tidy_grow(g, seq![], seq![], 1);
    match decl.value {
        Some(value) => {
            lemma_expr_neat(value, named);
            let value_part = expr_gcl(value, named);
            lemma_append_neat(
                named,
                Part { graph: value_part.graph, range: value_part.range },
                node(name, var_decl_commands(decl, Some(value_part.pred))),
                0,
            );
        },
        None => {
            lemma_single_neat(named, node(name, var_decl_commands(decl, None)), 0);
        },
    }
    lemma_neat_named(g, named, part.graph, part.range);
}

/// The translation of an assignment gives a run no choice.
pub proof fn lemma_assignment_neat(assignment: IrAssignment, g: GraphView)
    requires
        g.wf(),
        expr_calls(assignment.value).subset_of(g.functions.dom()),
    ensures
        neat(g, assignment_gcl(assignment, g).graph, assignment_gcl(assignment, g).range),
{
    let part = expr_gcl(assignment.value, g);
    let base = Part { graph: part.graph, range: part.range };
    lemma_expr_neat(assignment.value, g);
    let added = node(
        part.graph.fresh(tagged("assignment__"@, assignment.var as nat), 0),
        seq![
            assign_bool(has_value_var(assignment.var), true),
            assign(value_var(assignment.var), part.pred),
        ],
    );
    let n = part.graph.nodes.len() as int;
    lemma_append_neat(g, base, added, 1);
    lemma_assert_neat(
        PredicateView::Var(declared_var(assignment.var)),
        g,
        part.graph.grow(seq![added], seq![always(part.range.end, n)], 1),
        RangeView { start: part.range.start, end: n },
    );
}

/// A conditional behind its condition and its branches.
pub proof fn lemma_branch_neat(
    g: GraphView,
    cond: ValuePart,
    then_part: Part,
    else_part: Option<Part>,
)
    requires
        g.wf(),
        neat(if_end_gcl(g), cond.graph, cond.range),
        neat(cond.graph, then_part.graph, then_part.range),
        else_part matches Some(part) ==> neat(then_part.graph, part.graph, part.range),
    ensures
        ({
            let part = branch_gcl(cond, then_part, else_part, g.nodes.len() as int);
            &&& tidy(g) ==> tidy(part.graph)
            &&& confined(g, part.graph)
            &&& dead_end(part.graph, part.range.end)
        }),
{
    let end = g.nodes.len() as int;
    let ended = if_end_gcl(g);
    let part = branch_gcl(cond, then_part, else_part, end);
    let end_node = node(g.fresh("if_end"@, 0), seq![]);
    lemma_single_neat(g, end_node, 1);

    lemma_grows_trans(g, ended, cond.graph);
    lemma_confined_trans(g, ended, cond.graph);
    lemma_dead_end_kept(g, ended, cond.graph, end);

    lemma_grows_trans(g, cond.graph, then_part.graph);
    lemma_confined_trans(g, cond.graph, then_part.graph);
    lemma_dead_end_kept(g, cond.graph, then_part.graph, end);
    lemma_dead_end_kept(g, cond.graph, then_part.graph, cond.range.end);

    let mid = match else_part {
        Some(last) => {
            lemma_grows_trans(g, then_part.graph, last.graph);
            lemma_confined_trans(g, then_part.graph, last.graph);
            lemma_dead_end_kept(g, then_part.graph, last.graph, end);
            lemma_dead_end_kept(g, then_part.graph, last.graph, cond.range.end);
            lemma_dead_end_kept(g, then_part.graph, last.graph, then_part.range.end);
            lemma_new_is_no_end(g, last.graph, last.range.end);
            last.graph
        },
        None => then_part.graph,
    };
    lemma_new_is_no_end(g, mid, cond.range.end);
    lemma_new_is_no_end(g, mid, then_part.range.end);
    let else_range = match else_part {
        Some(last) => Some(last.range),
        None => None,
    };
    let edges = branch_edges(cond.range, cond.pred, then_part.range, else_range, end);
    lemma_negation_exclusive(cond.pred);
    lemma_tidy_grow(mid, seq![], edges, 0);
    lemma_confined_grow(g, mid, seq![], edges, 0);
    lemma_dead_end_grow(mid, seq![], edges, 0, end);
}

/// Whether a block so far gives a run no choice.
pub open spec fn block_neat(g: GraphView, state: BlockState) -> bool {
    &&& state.extends(g)
    &&& tidy(g) ==> tidy(state.graph)
    &&& confined(g, state.graph)
    &&& state.range matches Some(range) ==> dead_end(state.graph, range.end)
}

/// A part is put behind a block.
proof fn lemma_chain_neat(g: GraphView, state: BlockState, next: RangeView)
    requires
        g.wf(),
        block_neat(g, state),
        g.extended_by(state.graph, next),
        dead_end(state.graph, next.end),
        state.range matches Some(range) ==> range.end != next.end,
    ensures
        block_neat(g, state.chain(next)),
        state.chain(next).range matches Some(range) && range.end == next.end,
{
    lemma_chain_extends(g, state, next);
    if let Some(range) = state.range {
        let edges = seq![always(range.end, next.start)];
        lemma_new_is_no_end(g, state.graph, range.end);
        lemma_tidy_grow(state.graph, seq![], edges, 0);
        lemma_confined_grow(g, state.graph, seq![], edges, 0);
        lemma_dead_end_grow(state.graph, seq![], edges, 0, next.end);
    }
}

/// The pending commands get a node.
proof fn lemma_flush_neat(g: GraphView, state: BlockState)
    requires
        g.wf(),
        block_neat(g, state),
    ensures
        block_neat(g, state.flush()),
        state.flush().range matches Some(range) && range.end == state.graph.nodes.len(),
{
    let n = state.graph.nodes.len() as int;
    let added = node(state.graph.fresh("block_stmt_body"@, 0), state.pending);
    let grown = state.graph.grow(seq![added], seq![], 1);
    let held = BlockState { graph: grown, pending: seq![], range: state.range };
    lemma_single_neat(state.graph, added, 1);
    lemma_grows_trans(g, state.graph, grown);
    lemma_confined_trans(g, state.graph, grown);
    if let Some(range) = state.range {
        lemma_dead_end_kept(g, state.graph, grown, range.end);
    }
    lemma_chain_neat(g, held, RangeView { start: n, end: n });
}

/// A block takes up an element.
proof fn lemma_absorb_neat(
    g: GraphView,
    state: BlockState,
    later: GraphView,
    output: Either<CommandView, RangeView>,
)
    requires
        g.wf(),
        block_neat(g, state),
        output is Left ==> later == state.graph,
        output matches Either::Right(range) ==> neat(state.graph, later, range),
    ensures
        block_neat(g, (BlockState { graph: later, ..state }).absorb(output)),
{
    lemma_absorb_extends(g, state, later, output);
    reveal(BlockState::absorb);
    if let Either::Right(range) = output {
        let moved = BlockState { graph: later, ..state };
        lemma_grows_trans(g, state.graph, later);
        lemma_confined_trans(g, state.graph, later);
        if let Some(so_far) = state.range {
            lemma_dead_end_kept(g, state.graph, later, so_far.end);
        }
        if state.pending.len() == 0 {
            lemma_chain_neat(g, moved, range);
        } else {
            let flushed = moved.flush();
            lemma_flush_neat(g, moved);
            lemma_flush_extends(g, moved);
            assert(dead_end(flushed.graph, range.end)) by {
                let n = later.nodes.len() as int;
                let added = node(later.fresh("block_stmt_body"@, 0), state.pending);
                let grown = later.grow(seq![added], seq![], 1);
                lemma_dead_end_grow(later, seq![added], seq![], 1, range.end);
                if let Some(so_far) = state.range {
                    lemma_grow_wf(later, seq![added], seq![], 1);
                    lemma_dead_end_grow(
                        grown,
                        seq![],
                        seq![always(so_far.end, n)],
                        0,
                        range.end,
                    );
                }
            }
            lemma_chain_neat(g, flushed, range);
        }
    }
}

/// A block comes to its end.
proof fn lemma_finish_neat(g: GraphView, state: BlockState)
    requires
        g.wf(),
        block_neat(g, state),
    ensures
        block_neat(g, state.finish()),
        state.finish().range is Some,
{
    reveal(BlockState::finish);
    if !(state.pending.len() == 0 && state.range is Some) {
        lemma_flush_neat(g, state);
    }
}

/// The translation of a conditional gives a run no choice.
pub proof fn lemma_if_neat(statement: IrIfStatement, g: GraphView)
    requires
        g.wf(),
        if_calls(statement).subset_of(g.functions.dom()),
    ensures
        neat(g, if_gcl(statement, g).graph, if_gcl(statement, g).range),
    decreases statement, 0nat,
{
    let ended = if_end_gcl(g);
    let cond = expr_gcl(statement.condition, ended);
    lemma_single_neat(g, node(g.fresh("if_end"@, 0), seq![]), 1);
    lemma_expr_neat(statement.condition, ended);
    let then_part = statement_gcl(*statement.then_case, cond.graph);
    lemma_statement_neat(*statement.then_case, cond.graph);
    let else_part = match statement.else_case {
        Some(else_case) => {
            lemma_statement_neat(*else_case, then_part.graph);
            Some(statement_gcl(*else_case, then_part.graph))
        },
        None => None,
    };
    lemma_branch_neat(g, cond, then_part, else_part);
    lemma_if_extends(statement, g);
}

/// The translation of a statement gives a run no choice.
pub proof fn lemma_statement_neat(statement: IrStatement, g: GraphView)
    requires
        g.wf(),
        statement_calls(statement).subset_of(g.functions.dom()),
    ensures
        neat(g, statement_gcl(statement, g).graph, statement_gcl(statement, g).range),
    decreases statement, 0nat,
{
    match statement {
        IrStatement::Block(block) => {
            lemma_block_neat(block.0@, g);
        },
        IrStatement::If(if_statement) => {
            lemma_if_neat(if_statement, g);
        },
        IrStatement::Assignment(assignment) => {
            lemma_assignment_neat(assignment, g);
        },
        IrStatement::FunctionCall(call) => {
            assert(statement_calls(statement).contains(call.target));
            lemma_call_neat(call, g);
        },
    }
}

/// The translation of an element of a block gives a run no choice.
pub proof fn lemma_element_neat(element: IrStatementOrDecl, g: GraphView)
    requires
        g.wf(),
        element_calls(element).subset_of(g.functions.dom()),
    ensures
        ({
            let (graph, output) = element_gcl(element, g);
            &&& output is Left ==> graph == g
            &&& output matches Either::Right(range) ==> neat(g, graph, range)
        }),
    decreases element, 0nat,
{
    match element {
        IrStatementOrDecl::Statement(statement) => {
            lemma_statement_neat(statement, g);
        },
        IrStatementOrDecl::VariableDecl(decl) => {
            lemma_var_decl_neat(decl, g);
        },
        IrStatementOrDecl::Instantiation(_) => {},
    }
}

/// The first elements of a block give a run no choice.
pub proof fn lemma_block_state_neat(elements: Seq<IrStatementOrDecl>, k: nat, g: GraphView)
    requires
        g.wf(),
        k <= elements.len(),
        block_calls(elements, k).subset_of(g.functions.dom()),
    ensures
        block_neat(g, block_state(elements, k, g)),
    decreases elements, k,
{
    if k == 0 {
        lemma_grows_refl(g, g);
        lemma_confined_refl(g, g);
    } else {
        let j = (k - 1) as nat;
        lemma_block_state_neat(elements, j, g);
        let state = block_state(elements, j, g);
        lemma_element_neat(elements[k - 1], state.graph);
        let (graph, output) = element_gcl(elements[k - 1], state.graph);
        lemma_absorb_neat(g, state, graph, output);
    }
}

/// The translation of a block gives a run no choice.
pub proof fn lemma_block_neat(elements: Seq<IrStatementOrDecl>, g: GraphView)
    requires
        g.wf(),
        block_calls(elements, elements.len()).subset_of(g.functions.dom()),
    ensures
        neat(g, block_gcl(elements, g).graph, block_gcl(elements, g).range),
    decreases elements, elements.len() + 1,
{
    lemma_block_state_neat(elements, elements.len(), g);
    lemma_finish_neat(g, block_state(elements, elements.len(), g));
}

// ---------------------------------------------------------------------------------------
// Declarations
// ---------------------------------------------------------------------------------------
/// The translation of an action gives a run no choice.
pub proof fn lemma_action_neat(action: IrActionDecl, g: GraphView)
    requires
        g.wf(),
        block_calls(action.body.0@, action.body.0@.len()).subset_of(g.functions.dom()),
    ensures
        neat(g, action_gcl(action, g).graph, action_gcl(action, g).range),
{
    let body = block_gcl(action.body.0@, g);
    let n = body.graph.nodes.len() as int;
    let added = node(
        tagged("action__"@, action.id as nat),
        seq![assign_bool(return_var(), true)],
    );
    let edges = seq![always(n, body.range.start)];
    lemma_block_neat(action.body.0@, g);
    lemma_action_extends(action, g);
    lemma_tidy_grow(body.graph, seq![added], edges, 0);
    lemma_confined_grow(g, body.graph, seq![added], edges, 0);
    lemma_dead_end_grow(body.graph, seq![added], edges, 0, body.range.end);
}

/// A new part is registered as a function.
proof fn lemma_register_tidy(g: GraphView, later: GraphView, id: FunctionId, range: RangeView)
    requires
        g.wf(),
        neat(g, later, range),
    ensures
        tidy(g) ==> tidy(GraphView { functions: later.functions.insert(id, range), ..later }),
{
    let registered = GraphView { functions: later.functions.insert(id, range), ..later };
    lemma_register_wf(later, id, range);
    lemma_new_is_no_end(g, later, range.end);
    if tidy(g) {
        reveal(deterministic);
        reveal(functions_return);
        reveal(dead_end);
        assert forall|other: FunctionId, i: int|
            #[trigger] registered.functions.dom().contains(other) && 0 <= i < registered.edges.len()
                && (#[trigger] registered.edges[i]).from
                == registered.functions[other].end implies is_return(
            registered,
            other,
            registered.edges[i].pred,
        ) by {
            assert(later.edges[i].from != range.end);
            assert(later.functions.dom().contains(other));
            let n = choose|n: nat|
                n < later.names && later.edges[i].pred == #[trigger] return_pred(other, n);
            assert(n < registered.names && registered.edges[i].pred == return_pred(other, n));
        }
        assert forall|a: FunctionId, b: FunctionId|
            #[trigger] registered.functions.dom().contains(a)
                && #[trigger] registered.functions.dom().contains(b) && a
                != b implies registered.functions[a].end != registered.functions[b].end by {
            if a != id {
                assert(later.functions.dom().contains(a));
            }
            if b != id {
                assert(later.functions.dom().contains(b));
            }
        }
    }
}

/// The translation of the actions of a control block gives a run no choice.
pub proof fn lemma_actions_tidy(decls: Seq<IrControlLocalDecl>, k: nat, g: GraphView)
    requires
        g.wf(),
        k <= decls.len(),
        actions_calls_known(decls, g.functions.dom()),
    ensures
        tidy(g) ==> tidy(actions_gcl(decls, k, g)),
    decreases k,
{
    if k > 0 {
        let before = actions_gcl(decls, (k - 1) as nat, g);
        lemma_actions_tidy(decls, (k - 1) as nat, g);
        lemma_actions_grow(decls, (k - 1) as nat, g);
        assert(local_calls_known(decls, k - 1, g.functions.dom()));
        if let IrControlLocalDecl::Action(action) = decls[k - 1] {
            lemma_action_neat(action, before);
            let part = action_gcl(action, before);
            lemma_register_tidy(before, part.graph, action.id, part.range);
        }
    }
}

/// A node may be replaced.
pub proof fn lemma_replace_tidy(g: GraphView, index: int, added: NodeView)
    requires
        g.wf(),
        g.has_node(index),
    ensures
        tidy(g) ==> tidy(GraphView { nodes: g.nodes.update(index, added), ..g }),
{
    let later = GraphView { nodes: g.nodes.update(index, added), ..g };
    lemma_replace_wf(g, index, added);
    if tidy(g) {
        assert(deterministic(later)) by {
            reveal(deterministic);
        }
        assert(functions_return(later)) by {
            reveal(functions_return);
            assert forall|id: FunctionId, i: int|
                #[trigger] later.functions.dom().contains(id) && 0 <= i < later.edges.len() && (
                #[trigger] later.edges[i]).from == later.functions[id].end implies is_return(
                later,
                id,
                later.edges[i].pred,
            ) by {
                assert(g.functions.dom().contains(id));
                let n = choose|n: nat|
                    n < g.names && g.edges[i].pred == #[trigger] return_pred(id, n);
                assert(n < later.names && later.edges[i].pred == return_pred(id, n));
            }
        }
    }
}

/// The translation of a control block gives a run no choice, and does not lead on.
pub proof fn lemma_control_tidy(control: IrControlDecl, g: GraphView)
    requires
        g.wf(),
        control_calls_known(control, g.functions.dom()),
    ensures
        tidy(g) ==> tidy(control_gcl(control, g).graph),
        dead_end(control_gcl(control, g).graph, control_gcl(control, g).range.end),
{
    let decls = control.local_decls@;
    let elements = control_elements(control);
    let called = actions_gcl(decls, decls.len(), g);
    let block = block_gcl(elements, called);
    let start = block.range.start;
    lemma_actions_tidy(decls, decls.len(), g);
    lemma_actions_grow(decls, decls.len(), g);
    lemma_block_neat(elements, called);
    lemma_replace_tidy(
        block.graph,
        start,
        NodeView { name: "control__todo"@, ..block.graph.nodes[start] },
    );
    assert(dead_end(control_gcl(control, g).graph, block.range.end)) by {
        reveal(dead_end);
    }
}

// ---------------------------------------------------------------------------------------
// One run
// ---------------------------------------------------------------------------------------
/// A run goes on in one way only.
pub proof fn lemma_steps_unique(g: GraphView, a: State, b: State, c: State)
    requires
        deterministic(g),
        steps(g, a, b),
        steps(g, a, c),
    ensures
        b == c,
{
    let i = choose|i: int| #[trigger] takes_edge(g, i, a, b);
    let j = choose|j: int| #[trigger] takes_edge(g, j, a, c);
    if i != j {
        assert(exclusive(g.edges[i].pred, g.edges[j].pred)) by {
            reveal(deterministic);
        }
    }
}

/// A run does not go on from a dead end, nor from a bug.
pub proof fn lemma_no_step(g: GraphView, a: State, b: State)
    requires
        dead_end(g, a.node) || run_node(g, a) is None,
    ensures
        !steps(g, a, b),
{
    reveal(dead_end);
    if steps(g, a, b) {
        let i = choose|i: int| #[trigger] takes_edge(g, i, a, b);
        assert(g.edges[i].from == a.node);
    }
}

/// Two states in which a run from `a` cannot go on are the same.
proof fn lemma_last_unique(g: GraphView, a: State, b: State, c: State, m: nat, n: nat)
    requires
        deterministic(g),
        reaches_in(g, a, b, m),
        reaches_in(g, a, c, n),
        dead_end(g, b.node) || run_node(g, b) is None,
        dead_end(g, c.node) || run_node(g, c) is None,
    ensures
        b == c,
    decreases m,
{
    if m == 0 {
        if n > 0 {
            let mid = choose|mid: State| #[trigger]
                steps(g, a, mid) && reaches_in(g, mid, c, (n - 1) as nat);
            lemma_no_step(g, a, mid);
        }
    } else {
        let mid = choose|mid: State| #[trigger]
            steps(g, a, mid) && reaches_in(g, mid, b, (m - 1) as nat);
        if n == 0 {
            lemma_no_step(g, a, mid);
        } else {
            let other = choose|other: State| #[trigger]
                steps(g, a, other) && reaches_in(g, other, c, (n - 1) as nat);
            lemma_steps_unique(g, a, mid, other);
            lemma_last_unique(g, mid, b, c, (m - 1) as nat, (n - 1) as nat);
        }
    }
}

/// A part that gives a run no choice and does not lead on has one outcome only: the run cannot
/// leave it with other variables, nor go wrong.
pub proof fn lemma_outcome_unique(
    g: GraphView,
    range: RangeView,
    before: Env,
    after: Env,
    other: Env,
)
    requires
        deterministic(g),
        dead_end(g, range.end),
        completes(g, range, before, after),
    ensures
        completes(g, range, before, other) ==> other == after,
        !goes_wrong(g, State { node: range.start, env: before }),
{
    reveal(completes);
    reveal(goes_wrong);
    reveal(reaches);
    let start = State { node: range.start, env: before };
    let env = choose|env: Env|
        {
            &&& #[trigger] reaches(g, start, State { node: range.end, env })
            &&& g.has_node(range.end)
            &&& run_node(g, State { node: range.end, env }) == Some(after)
        };
    let end = State { node: range.end, env };
    let m = choose|m: nat| #[trigger] reaches_in(g, start, end, m);
    if completes(g, range, before, other) {
        let env2 = choose|env2: Env|
            {
                &&& #[trigger] reaches(g, start, State { node: range.end, env: env2 })
                &&& g.has_node(range.end)
                &&& run_node(g, State { node: range.end, env: env2 }) == Some(other)
            };
        let end2 = State { node: range.end, env: env2 };
        let n = choose|n: nat| #[trigger] reaches_in(g, start, end2, n);
        lemma_last_unique(g, start, end, end2, m, n);
    }
    if goes_wrong(g, start) {
        let bug = choose|bug: State|
            {
                &&& #[trigger] reaches(g, start, bug)
                &&& g.has_node(bug.node)
                &&& run_node(g, bug) is None
            };
        let n = choose|n: nat| #[trigger] reaches_in(g, start, bug, n);
        lemma_last_unique(g, start, end, bug, m, n);
    }
}

} // verus!
