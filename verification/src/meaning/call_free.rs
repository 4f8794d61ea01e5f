//! Expressions without calls.
//!
//! They need nothing of the graph they are translated into, but that it is well-formed.

use vstd::prelude::*;

use crate::gcl::{CommandView, EdgeView, NodeView, PredicateView, RangeView};
use crate::graph::GraphView;
use crate::ir::{FunctionId, IrExpr, IrExprData, VariableId};
use crate::meaning::determinism::{
    confined, dead_end, deterministic, functions_return, lemma_expr_neat, lemma_outcome_unique,
    lemma_steps_unique, tidy,
};
use crate::meaning::names::{lemma_agrees_at, lemma_held_vars};
use crate::meaning::outcomes::lemma_expr_outcome;
use crate::meaning::runs::{
    completes, eval, goes_wrong, is_true, lemma_run_few, reaches, reaches_in, run_commands,
    run_node, steps, takes_edge, Env, State, Value,
};
use crate::meaning::source::{agrees, eval_expr, held_vars, implements, no_actions, Actions, Vars};
use crate::placement::{is_placed, lemma_expr_placed, placed};
use crate::translation::{
    always, assert_gcl, assign, edge, expr_calls, expr_gcl, has_value_var, negated, node,
    short_circuit_gcl, single_assignment_gcl, value_var, ValuePart,
};

verus! {

// ---------------------------------------------------------------------------------------
// What an expression without calls means
// ---------------------------------------------------------------------------------------
/// The value of an expression without calls, where the variables of the graph hold `env`;
/// nothing, where a variable is read that has no value. Operands are looked at from left to
/// right: the right one of a conjunction only where the left one is true, the right one of a
/// disjunction only where the left one is not.
pub open spec fn short_circuit_value(expr: IrExpr, env: Env) -> Option<Value>
    decreases expr,
{
    match expr.data {
        IrExprData::Bool(b) => Some(Value::Bool(b)),
        IrExprData::Var(id) => if is_true(env[has_value_var(id)]) {
            Some(env[value_var(id)])
        } else {
            None
        },
        IrExprData::And(left, right) => match short_circuit_value(*left, env) {
            None => None,
            Some(value) => if is_true(value) {
                match short_circuit_value(*right, env) {
                    None => None,
                    Some(decision) => Some(Value::Bool(is_true(decision))),
                }
            } else {
                Some(Value::Bool(false))
            },
        },
        IrExprData::Or(left, right) => match short_circuit_value(*left, env) {
            None => None,
            Some(value) => if is_true(value) {
                Some(Value::Bool(true))
            } else {
                match short_circuit_value(*right, env) {
                    None => None,
                    Some(decision) => Some(Value::Bool(is_true(decision))),
                }
            },
        },
        IrExprData::Negation(inner) => match short_circuit_value(*inner, env) {
            None => None,
            Some(value) => Some(Value::Bool(!is_true(value))),
        },
        IrExprData::FunctionCall(_) => None,
    }
}

/// The variables of an expression.
pub open spec fn expr_vars(expr: IrExpr) -> Set<VariableId>
    decreases expr,
{
    match expr.data {
        IrExprData::Var(id) => set![id],
        IrExprData::And(left, right) => expr_vars(*left).union(expr_vars(*right)),
        IrExprData::Or(left, right) => expr_vars(*left).union(expr_vars(*right)),
        IrExprData::Negation(inner) => expr_vars(*inner),
        _ => Set::empty(),
    }
}

/// The value of an expression without calls, when all its variables have values.
pub open spec fn plain_value(expr: IrExpr, env: Env) -> Value
    decreases expr,
{
    match expr.data {
        IrExprData::Bool(b) => Value::Bool(b),
        IrExprData::Var(id) => env[value_var(id)],
        IrExprData::And(left, right) => Value::Bool(
            is_true(plain_value(*left, env)) && is_true(plain_value(*right, env)),
        ),
        IrExprData::Or(left, right) => Value::Bool(
            is_true(plain_value(*left, env)) || is_true(plain_value(*right, env)),
        ),
        IrExprData::Negation(inner) => Value::Bool(!is_true(plain_value(*inner, env))),
        IrExprData::FunctionCall(_) => Value::Bool(true),
    }
}

/// Where all variables have values, an expression without calls has its plain value: short
/// circuits make no difference.
pub proof fn lemma_plain_value(expr: IrExpr, env: Env)
    requires
        expr_calls(expr) == Set::<FunctionId>::empty(),
        forall|id: VariableId| #[trigger]
            expr_vars(expr).contains(id) ==> is_true(env[has_value_var(id)]),
    ensures
        short_circuit_value(expr, env) == Some(plain_value(expr, env)),
    decreases expr,
{
    match expr.data {
        IrExprData::Var(id) => {
            assert(expr_vars(expr).contains(id));
        },
        IrExprData::And(left, right) => {
            lemma_operands_call_free(expr, *left, *right);
            lemma_plain_value(*left, env);
            lemma_plain_value(*right, env);
        },
        IrExprData::Or(left, right) => {
            lemma_operands_call_free(expr, *left, *right);
            lemma_plain_value(*left, env);
            lemma_plain_value(*right, env);
        },
        IrExprData::Negation(inner) => {
            assert(expr_calls(*inner) == expr_calls(expr));
            assert(expr_vars(*inner) == expr_vars(expr));
            lemma_plain_value(*inner, env);
        },
        IrExprData::FunctionCall(call) => {
            assert(expr_calls(expr).contains(call.target));
        },
        _ => {},
    }
}

/// The operands of an expression without calls have none, and its variables are theirs.
proof fn lemma_operands_call_free(expr: IrExpr, left: IrExpr, right: IrExpr)
    requires
        expr.data == IrExprData::And(Box::new(left), Box::new(right)) || expr.data
            == IrExprData::Or(Box::new(left), Box::new(right)),
        expr_calls(expr) == Set::<FunctionId>::empty(),
    ensures
        expr_calls(left) == Set::<FunctionId>::empty(),
        expr_calls(right) == Set::<FunctionId>::empty(),
        forall|id: VariableId| #[trigger]
            expr_vars(left).contains(id) ==> expr_vars(expr).contains(id),
        forall|id: VariableId| #[trigger]
            expr_vars(right).contains(id) ==> expr_vars(expr).contains(id),
{
    assert(expr_calls(expr) == expr_calls(left).union(expr_calls(right)));
    assert forall|id: FunctionId| !expr_calls(left).contains(id) by {
        assert(!expr_calls(expr).contains(id));
    }
    assert forall|id: FunctionId| !expr_calls(right).contains(id) by {
        assert(!expr_calls(expr).contains(id));
    }
    assert(expr_calls(left) =~= Set::<FunctionId>::empty());
    assert(expr_calls(right) =~= Set::<FunctionId>::empty());
}

/// An expression without calls has the same value in the program.
proof fn lemma_call_free_value(expr: IrExpr, env: Env, vars: Vars, actions: Actions)
    requires
        expr_calls(expr) == Set::<FunctionId>::empty(),
        agrees(env, vars),
    ensures
        eval_expr(expr, vars, actions) == match short_circuit_value(expr, env) {
            Some(value) => Some((value, vars)),
            None => None,
        },
    decreases expr,
{
    match expr.data {
        IrExprData::Var(id) => {
            lemma_agrees_at(env, vars, id);
        },
        IrExprData::And(left, right) => {
            lemma_operands_call_free(expr, *left, *right);
            lemma_call_free_value(*left, env, vars, actions);
            lemma_call_free_value(*right, env, vars, actions);
        },
        IrExprData::Or(left, right) => {
            lemma_operands_call_free(expr, *left, *right);
            lemma_call_free_value(*left, env, vars, actions);
            lemma_call_free_value(*right, env, vars, actions);
        },
        IrExprData::Negation(inner) => {
            assert(expr_calls(*inner) == expr_calls(expr));
            lemma_call_free_value(*inner, env, vars, actions);
        },
        IrExprData::FunctionCall(call) => {
            assert(expr_calls(expr).contains(call.target));
        },
        _ => {},
    }
}

// ---------------------------------------------------------------------------------------
// Bugs
// ---------------------------------------------------------------------------------------
/// Whether commands are a bug alone, or only assignments.
pub open spec fn is_bug_or_assigns(commands: Seq<CommandView>) -> bool {
    ||| commands == seq![CommandView::Bug]
    ||| forall|i: int| 0 <= i < commands.len() ==> (#[trigger] commands[i]) is Assignment
}

/// Assignments are not a bug.
proof fn lemma_assigns_run(commands: Seq<CommandView>, env: Env)
    requires
        forall|i: int| 0 <= i < commands.len() ==> (#[trigger] commands[i]) is Assignment,
    ensures
        run_commands(commands, env) is Some,
    decreases commands.len(),
{
    if commands.len() > 0 {
        assert forall|i: int| 0 <= i < commands.drop_last().len() implies (
        #[trigger] commands.drop_last()[i]) is Assignment by {
            assert(commands.drop_last()[i] == commands[i]);
        }
        lemma_assigns_run(commands.drop_last(), env);
        assert(commands[commands.len() - 1] is Assignment);
    }
}

/// Whether each node from `first` on is a bug, or makes only assignments.
#[verifier::opaque]
pub open spec fn has_plain_bugs(g: GraphView, first: int) -> bool {
    forall|i: int|
        0 <= i < g.nodes.len() && first <= i ==> is_bug_or_assigns(
            (#[trigger] g.nodes[i]).commands,
        )
}

/// More such nodes may be added.
proof fn lemma_plain_bugs_grow(
    g: GraphView,
    first: int,
    nodes: Seq<NodeView>,
    edges: Seq<EdgeView>,
    names: nat,
)
    requires
        has_plain_bugs(g, first),
        forall|j: int|
            0 <= j < nodes.len() ==> is_bug_or_assigns((#[trigger] nodes[j]).commands),
    ensures
        has_plain_bugs(g.grow(nodes, edges, names), first),
{
    reveal(has_plain_bugs);
    let later = g.grow(nodes, edges, names);
    assert forall|i: int| 0 <= i < later.nodes.len() && first <= i implies is_bug_or_assigns(
        (#[trigger] later.nodes[i]).commands,
    ) by {
        if i < g.nodes.len() {
            assert(later.nodes[i] == g.nodes[i]);
        } else {
            assert(later.nodes[i] == nodes[i - g.nodes.len()]);
        }
    }
}

/// A check in front of a node.
proof fn lemma_assert_plain_bugs(pred: PredicateView, next: int, g: GraphView, first: int)
    requires
        has_plain_bugs(g, first),
    ensures
        has_plain_bugs(assert_gcl(pred, next, g), first),
{
    let n = g.nodes.len() as int;
    lemma_plain_bugs_grow(
        g,
        first,
        seq![
            node(g.fresh("bug"@, 0), seq![CommandView::Bug]),
            node(g.fresh("assert"@, 1), seq![]),
        ],
        seq![edge(n + 1, next, pred), edge(n + 1, n, negated(pred))],
        2,
    );
}

/// A conjunction or disjunction behind its operands.
proof fn lemma_short_circuit_plain_bugs(
    left: ValuePart,
    right: ValuePart,
    is_and: bool,
    first: int,
)
    requires
        has_plain_bugs(right.graph, first),
    ensures
        has_plain_bugs(short_circuit_gcl(left, right, is_and).graph, first),
{
    let later = short_circuit_gcl(left, right, is_and).graph;
    let g = right.graph;
    let nodes = later.nodes.subrange(g.nodes.len() as int, later.nodes.len() as int);
    let edges = later.edges.subrange(g.edges.len() as int, later.edges.len() as int);
    assert(later.nodes =~= g.nodes + nodes);
    assert(later.edges =~= g.edges + edges);
    lemma_plain_bugs_grow(g, first, nodes, edges, 4);
}

/// The nodes of an expression are bugs, or make only assignments.
proof fn lemma_expr_plain_bugs(expr: IrExpr, g: GraphView, first: int)
    requires
        has_plain_bugs(g, first),
        expr_calls(expr) == Set::<FunctionId>::empty(),
    ensures
        has_plain_bugs(expr_gcl(expr, g).graph, first),
    decreases expr,
{
    let name = g.fresh("expr"@, 0);
    match expr.data {
        IrExprData::Bool(b) => {
            let added = node(name, seq![assign(name, PredicateView::Bool(b))]);
            lemma_plain_bugs_grow(g, first, seq![added], seq![], 1);
        },
        IrExprData::Var(id) => {
            let value = PredicateView::Var(value_var(id));
            let added = node(name, seq![assign(name, value)]);
            lemma_plain_bugs_grow(g, first, seq![added], seq![], 1);
            lemma_assert_plain_bugs(
                PredicateView::Var(has_value_var(id)),
                g.nodes.len() as int,
                single_assignment_gcl(value, g),
                first,
            );
        },
        IrExprData::And(left, right) => {
            let left_part = expr_gcl(*left, g);
            lemma_operands_call_free(expr, *left, *right);
            lemma_expr_plain_bugs(*left, g, first);
            lemma_expr_plain_bugs(*right, left_part.graph, first);
            lemma_short_circuit_plain_bugs(
                left_part,
                expr_gcl(*right, left_part.graph),
                true,
                first,
            );
        },
        IrExprData::Or(left, right) => {
            let left_part = expr_gcl(*left, g);
            lemma_operands_call_free(expr, *left, *right);
            lemma_expr_plain_bugs(*left, g, first);
            lemma_expr_plain_bugs(*right, left_part.graph, first);
            lemma_short_circuit_plain_bugs(
                left_part,
                expr_gcl(*right, left_part.graph),
                false,
                first,
            );
        },
        IrExprData::Negation(inner) => {
            assert(expr_calls(*inner) == expr_calls(expr));
            lemma_expr_plain_bugs(*inner, g, first);
            let part = expr_gcl(*inner, g);
            let result = part.graph.fresh("expr"@, 0);
            let added = node(result, seq![assign(result, negated(part.pred))]);
            let link = always(part.range.end, part.graph.nodes.len() as int);
            lemma_plain_bugs_grow(part.graph, first, seq![added], seq![link], 1);
        },
        IrExprData::FunctionCall(call) => {
            assert(expr_calls(expr).contains(call.target));
        },
    }
}

// ---------------------------------------------------------------------------------------
// Runs in a part of a graph
// ---------------------------------------------------------------------------------------
/// Whether the edges of `g` from `first` on stay there.
spec fn stays_from(g: GraphView, first: int) -> bool {
    forall|i: int|
        0 <= i < g.edges.len() && (#[trigger] g.edges[i]).from >= first ==> g.edges[i].to >= first
}

/// In a graph that is placed behind edges between other nodes, a run goes on as in the graph
/// alone.
proof fn lemma_steps_placed(
    g: GraphView,
    edges: Seq<EdgeView>,
    functions: Map<FunctionId, RangeView>,
    first: int,
    a: State,
    b: State,
)
    requires
        forall|i: int| 0 <= i < edges.len() ==> (#[trigger] edges[i]).from < first,
        stays_from(g, first),
        a.node >= first,
    ensures
        steps(placed(g, edges, functions), a, b) <==> steps(g, a, b),
        steps(g, a, b) ==> b.node >= first,
{
    let later = placed(g, edges, functions);
    let e = edges.len() as int;
    if steps(later, a, b) {
        let i = choose|i: int| #[trigger] takes_edge(later, i, a, b);
        if i < e {
            assert(later.edges[i] == edges[i]);
        } else {
            assert(later.edges[i] == g.edges[i - e]);
            assert(takes_edge(g, i - e, a, b));
        }
    }
    if steps(g, a, b) {
        let i = choose|i: int| #[trigger] takes_edge(g, i, a, b);
        assert(later.edges[i + e] == g.edges[i]);
        assert(takes_edge(later, i + e, a, b));
    }
}

proof fn lemma_reaches_in_placed(
    g: GraphView,
    edges: Seq<EdgeView>,
    functions: Map<FunctionId, RangeView>,
    first: int,
    a: State,
    b: State,
    n: nat,
)
    requires
        forall|i: int| 0 <= i < edges.len() ==> (#[trigger] edges[i]).from < first,
        stays_from(g, first),
        a.node >= first,
    ensures
        reaches_in(placed(g, edges, functions), a, b, n) <==> reaches_in(g, a, b, n),
        reaches_in(g, a, b, n) ==> b.node >= first,
    decreases n,
{
    let later = placed(g, edges, functions);
    if n > 0 {
        let m = (n - 1) as nat;
        if reaches_in(later, a, b, n) {
            let mid = choose|mid: State| #[trigger] steps(later, a, mid) && reaches_in(
                later,
                mid,
                b,
                m,
            );
            lemma_steps_placed(g, edges, functions, first, a, mid);
            lemma_reaches_in_placed(g, edges, functions, first, mid, b, m);
            assert(steps(g, a, mid));
        }
        if reaches_in(g, a, b, n) {
            let mid = choose|mid: State| #[trigger] steps(g, a, mid) && reaches_in(g, mid, b, m);
            lemma_steps_placed(g, edges, functions, first, a, mid);
            lemma_reaches_in_placed(g, edges, functions, first, mid, b, m);
            assert(steps(later, a, mid));
        }
    }
}

proof fn lemma_reaches_placed(
    g: GraphView,
    edges: Seq<EdgeView>,
    functions: Map<FunctionId, RangeView>,
    first: int,
    a: State,
    b: State,
)
    requires
        forall|i: int| 0 <= i < edges.len() ==> (#[trigger] edges[i]).from < first,
        stays_from(g, first),
        a.node >= first,
    ensures
        reaches(placed(g, edges, functions), a, b) <==> reaches(g, a, b),
        reaches(g, a, b) ==> b.node >= first,
{
    reveal(reaches);
    let later = placed(g, edges, functions);
    if reaches(later, a, b) {
        let n = choose|n: nat| #[trigger] reaches_in(later, a, b, n);
        lemma_reaches_in_placed(g, edges, functions, first, a, b, n);
        assert(reaches_in(g, a, b, n));
    }
    if reaches(g, a, b) {
        let n = choose|n: nat| #[trigger] reaches_in(g, a, b, n);
        lemma_reaches_in_placed(g, edges, functions, first, a, b, n);
        assert(reaches_in(later, a, b, n));
    }
}

// ---------------------------------------------------------------------------------------
// Outcomes
// ---------------------------------------------------------------------------------------
/// Whether there is one run only from `start`.
pub open spec fn has_one_run(g: GraphView, start: State) -> bool {
    forall|a: State, b: State, c: State|
        #![trigger reaches(g, start, a), steps(g, a, b), steps(g, a, c)]
        reaches(g, start, a) && steps(g, a, b) && steps(g, a, c) ==> b == c
}

/// Whether a run from `start` comes to a node that is nothing but a bug.
pub open spec fn ends_in_bug(g: GraphView, start: State) -> bool {
    exists|bug: State|
        {
            &&& #[trigger] reaches(g, start, bug)
            &&& g.has_node(bug.node)
            &&& g.nodes[bug.node].commands == seq![CommandView::Bug]
        }
}

/// The graph without its edges and functions.
spec fn bare(g: GraphView) -> GraphView {
    GraphView { edges: seq![], functions: Map::empty(), ..g }
}

/// The translation of an expression without calls, into any well-formed graph and whatever the
/// variables hold. There is one run only. It comes to a bug exactly where the expression reads a
/// variable without a value; otherwise it leaves the new nodes by their end, where the predicate
/// has the value of the expression and the variables of the program are as they were.
pub proof fn lemma_call_free_outcome(expr: IrExpr, g: GraphView, before: Env)
    requires
        g.wf(),
        expr_calls(expr) == Set::<FunctionId>::empty(),
    ensures
        ({
            let part = expr_gcl(expr, g);
            let start = State { node: part.range.start, env: before };
            let value = short_circuit_value(expr, before);
            &&& has_one_run(part.graph, start)
            &&& dead_end(part.graph, part.range.end)
            &&& ends_in_bug(part.graph, start) <==> value is None
            &&& goes_wrong(part.graph, start) <==> value is None
            &&& (exists|after: Env| #[trigger]
                completes(part.graph, part.range, before, after)) <==> value is Some
            &&& forall|after: Env| #[trigger]
                completes(part.graph, part.range, before, after) ==> {
                    &&& value == Some(eval(part.pred, after))
                    &&& agrees(after, held_vars(before))
                }
            &&& forall|after: Env, other: Env|
                #![trigger completes(part.graph, part.range, before, after),
                    completes(part.graph, part.range, before, other)]
                completes(part.graph, part.range, before, after) && completes(
                    part.graph,
                    part.range,
                    before,
                    other,
                ) ==> after == other
        }),
{
    let h = bare(g);
    let n = g.nodes.len() as int;
    let alone = expr_gcl(expr, h);
    let part = expr_gcl(expr, g);
    let range = part.range;
    let vars = held_vars(before);
    let start = State { node: range.start, env: before };
    let value = short_circuit_value(expr, before);
    let actions = no_actions();
    assert(tidy(h) && implements(h, actions)) by {
        reveal(GraphView::wf);
        reveal(deterministic);
        reveal(functions_return);
        reveal(implements);
    }
    assert(placed(h, g.edges, g.functions).edges =~= g.edges);
    lemma_expr_placed(expr, h, g.edges, g.functions);
    assert(part.graph == placed(alone.graph, g.edges, g.functions) && part.pred == alone.pred
        && range == alone.range) by {
        reveal(is_placed);
    }
    lemma_held_vars(before);
    lemma_call_free_value(expr, before, vars, actions);
    lemma_expr_outcome(expr, h, actions, before, vars);
    lemma_expr_neat(expr, h);
    assert(stays_from(alone.graph, n)) by {
        reveal(confined);
    }
    assert forall|i: int| 0 <= i < g.edges.len() implies (#[trigger] g.edges[i]).from < n by {
        reveal(GraphView::wf);
        assert(g.has_node(g.edges[i].from));
    }
    assert forall|b: State| reaches(part.graph, start, b) <==> #[trigger] reaches(
        alone.graph,
        start,
        b,
    ) by {
        lemma_reaches_placed(alone.graph, g.edges, g.functions, n, start, b);
    }
    assert forall|b: State| #[trigger] reaches(part.graph, start, b) implies reaches(
        alone.graph,
        start,
        b,
    ) && b.node >= n by {
        lemma_reaches_placed(alone.graph, g.edges, g.functions, n, start, b);
    }
    assert(has_one_run(part.graph, start)) by {
        assert forall|a: State, b: State, c: State|
            #![trigger reaches(part.graph, start, a), steps(part.graph, a, b), steps(
                part.graph,
                a,
                c,
            )]
            reaches(part.graph, start, a) && steps(part.graph, a, b) && steps(
                part.graph,
                a,
                c,
            ) implies b == c by {
            lemma_steps_placed(alone.graph, g.edges, g.functions, n, a, b);
            lemma_steps_placed(alone.graph, g.edges, g.functions, n, a, c);
            lemma_steps_unique(alone.graph, a, b, c);
        }
    }
    assert(dead_end(part.graph, range.end)) by {
        lemma_expr_neat(expr, g);
    }
    assert forall|after: Env| completes(part.graph, range, before, after)
        <==> #[trigger] completes(alone.graph, range, before, after) by {
        lemma_completes_alone(alone.graph, part.graph, range, before, after);
    }
    assert forall|after: Env| #[trigger] completes(part.graph, range, before, after) implies {
        &&& completes(alone.graph, range, before, after)
        &&& value == Some(eval(part.pred, after))
        &&& agrees(after, vars)
    } by {
        lemma_completes_alone(alone.graph, part.graph, range, before, after);
    }
    assert forall|after: Env, other: Env|
        #![trigger completes(part.graph, range, before, after), completes(
            part.graph,
            range,
            before,
            other,
        )]
        completes(part.graph, range, before, after) && completes(
            part.graph,
            range,
            before,
            other,
        ) implies after == other by {
        lemma_outcome_unique(alone.graph, range, before, after, other);
    }
    assert(goes_wrong(part.graph, start) <==> goes_wrong(alone.graph, start)) by {
        reveal(goes_wrong);
    }
    lemma_bugs_are_plain(expr, g, start);
}

/// The translation of an expression without calls whose variables all have values, into any
/// well-formed graph: there is one run only, which leaves the new nodes by their end, and there
/// the predicate has the value of the expression.
pub proof fn lemma_call_free_plain(expr: IrExpr, g: GraphView, before: Env)
    requires
        g.wf(),
        expr_calls(expr) == Set::<FunctionId>::empty(),
        forall|id: VariableId| #[trigger]
            expr_vars(expr).contains(id) ==> is_true(before[has_value_var(id)]),
    ensures
        ({
            let part = expr_gcl(expr, g);
            let start = State { node: part.range.start, env: before };
            &&& has_one_run(part.graph, start)
            &&& dead_end(part.graph, part.range.end)
            &&& !goes_wrong(part.graph, start)
            &&& exists|after: Env| #[trigger] completes(part.graph, part.range, before, after)
            &&& forall|after: Env| #[trigger]
                completes(part.graph, part.range, before, after) ==> eval(part.pred, after)
                    == plain_value(expr, before)
        }),
{
    lemma_plain_value(expr, before);
    lemma_call_free_outcome(expr, g, before);
}

/// A range is left in two graphs alike, when they have the same nodes and the same runs.
proof fn lemma_completes_alone(
    g: GraphView,
    later: GraphView,
    range: RangeView,
    before: Env,
    after: Env,
)
    requires
        later.nodes == g.nodes,
        forall|b: State|
            reaches(later, State { node: range.start, env: before }, b) <==> #[trigger] reaches(
                g,
                State { node: range.start, env: before },
                b,
            ),
        forall|b: State| #[trigger]
            reaches(later, State { node: range.start, env: before }, b) ==> reaches(
                g,
                State { node: range.start, env: before },
                b,
            ),
    ensures
        completes(later, range, before, after) <==> completes(g, range, before, after),
{
    reveal(completes);
}

/// A run from a new node of an expression comes to a bug where it comes to a node that is nothing
/// else.
proof fn lemma_bugs_are_plain(expr: IrExpr, g: GraphView, start: State)
    requires
        expr_calls(expr) == Set::<FunctionId>::empty(),
        forall|b: State| #[trigger]
            reaches(expr_gcl(expr, g).graph, start, b) ==> b.node >= g.nodes.len(),
    ensures
        ends_in_bug(expr_gcl(expr, g).graph, start) <==> goes_wrong(
            expr_gcl(expr, g).graph,
            start,
        ),
{
    let later = expr_gcl(expr, g).graph;
    let n = g.nodes.len() as int;
    assert(has_plain_bugs(g, n)) by {
        reveal(has_plain_bugs);
    }
    lemma_expr_plain_bugs(expr, g, n);
    reveal(goes_wrong);
    reveal(has_plain_bugs);
    if goes_wrong(later, start) {
        let bug = choose|bug: State|
            {
                &&& #[trigger] reaches(later, start, bug)
                &&& later.has_node(bug.node)
                &&& run_node(later, bug) is None
            };
        let commands = later.nodes[bug.node].commands;
        if commands != seq![CommandView::Bug] {
            lemma_assigns_run(commands, bug.env);
        }
    }
    if ends_in_bug(later, start) {
        let bug = choose|bug: State|
            {
                &&& #[trigger] reaches(later, start, bug)
                &&& later.has_node(bug.node)
                &&& later.nodes[bug.node].commands == seq![CommandView::Bug]
            };
        lemma_run_few(CommandView::Bug, CommandView::Bug, CommandView::Bug, bug.env);
    }
}

} // verus!
