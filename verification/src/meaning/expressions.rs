//! The translation of an expression computes its value.

use vstd::prelude::*;

use crate::gcl::{CommandView, NodeView, PredicateView, RangeView};
use crate::graph::GraphView;
use crate::growth::{
    lemma_call_extends, lemma_expr_extends, lemma_grow_wf, lemma_short_circuit_extends,
};
use crate::ir::{FunctionId, IrExpr, IrExprData, IrFunctionCall};
use crate::meaning::names::{
    lemma_agrees_at, lemma_agrees_other, lemma_ends_refl, lemma_ends_scratch, lemma_ends_trans,
    lemma_name_kinds, lemma_targets_set,
};
use crate::meaning::runs::{
    completes, eval, goes_wrong, holds, is_true, keeps_code, lemma_completes_after,
    lemma_completes_intro, lemma_completes_kept, lemma_completes_then, lemma_grows_keeps_code,
    lemma_reaches_edge, lemma_reaches_refl, lemma_reaches_trans, lemma_run_few, lemma_wrong_after,
    lemma_wrong_intro, lemma_wrong_kept, reaches, run_commands, takes_edge, Env, State, Value,
};
use crate::meaning::source::{
    agrees, computes, does, ends_with, eval_expr, implements, performs, same_targets, Actions, Vars,
};
use crate::to_gcl::expressions::expr_size;
use crate::translation::{
    always, assert_gcl, assign, assign_bool, call_gcl, expr_calls, expr_gcl, has_value_var, negated,
    node, return_target_var, return_var, short_circuit_gcl, single_assignment_gcl, value_var, Part,
    ValuePart,
};

verus! {

/// What a part of the graph computes, it computes in every graph that keeps the code.
pub proof fn lemma_computes_kept(
    g: GraphView,
    later: GraphView,
    range: RangeView,
    pred: PredicateView,
    before: Env,
    end: Option<(Value, Vars)>,
    calls: Set<FunctionId>,
)
    requires
        keeps_code(g, later),
        computes(g, range, pred, before, end, calls),
    ensures
        computes(later, range, pred, before, end, calls),
{
    match end {
        Some((value, vars)) => {
            let after = choose|after: Env|
                {
                    &&& #[trigger] completes(g, range, before, after)
                    &&& ends_with(before, after, vars, calls)
                    &&& eval(pred, after) == value
                };
            lemma_completes_kept(g, later, range, before, after);
        },
        None => {
            lemma_wrong_kept(g, later, State { node: range.start, env: before });
        },
    }
}

/// What a part of the graph does, it does in every graph that keeps the code.
pub proof fn lemma_does_kept(
    g: GraphView,
    later: GraphView,
    range: RangeView,
    before: Env,
    end: Option<Vars>,
    calls: Set<FunctionId>,
)
    requires
        keeps_code(g, later),
        does(g, range, before, end, calls),
    ensures
        does(later, range, before, end, calls),
{
    match end {
        Some(vars) => {
            let after = choose|after: Env| #[trigger]
                completes(g, range, before, after) && ends_with(before, after, vars, calls);
            lemma_completes_kept(g, later, range, before, after);
        },
        None => {
            lemma_wrong_kept(g, later, State { node: range.start, env: before });
        },
    }
}

/// A function does what it did in every graph that keeps the code.
pub proof fn lemma_performs_kept(
    g: GraphView,
    later: GraphView,
    id: FunctionId,
    before: Env,
    vars: Vars,
    actions: Actions,
)
    requires
        keeps_code(g, later),
        later.functions[id] == g.functions[id],
        performs(g, id, before, vars, actions),
    ensures
        performs(later, id, before, vars, actions),
{
    match (actions.call)(id, vars) {
        Some(end) => {
            let after = choose|after: Env|
                {
                    &&& #[trigger] completes(g, g.functions[id], before, after)
                    &&& ends_with(before, after, end, (actions.callees)(id))
                    &&& is_true(after[return_var()])
                };
            lemma_completes_kept(g, later, g.functions[id], before, after);
        },
        None => {
            lemma_wrong_kept(g, later, State { node: g.functions[id].start, env: before });
        },
    }
}

/// The functions do what they did in every graph that keeps the code.
pub proof fn lemma_implements_kept(g: GraphView, later: GraphView, actions: Actions)
    requires
        keeps_code(g, later),
        later.functions == g.functions,
        implements(g, actions),
    ensures
        implements(later, actions),
{
    reveal(implements);
    assert forall|id: FunctionId| #[trigger] later.functions.dom().contains(id) implies {
        &&& !(actions.callees)(id).contains(id)
        &&& forall|before: Env, vars: Vars| #[trigger]
            agrees(before, vars) ==> performs(later, id, before, vars, actions)
    } by {
        assert(g.functions.dom().contains(id));
        assert forall|before: Env, vars: Vars| #[trigger] agrees(before, vars) implies performs(
            later,
            id,
            before,
            vars,
            actions,
        ) by {
            assert(performs(g, id, before, vars, actions));
            lemma_performs_kept(g, later, id, before, vars, actions);
        }
    }
}

/// A call does what the action means, and then the result is `true`.
pub proof fn lemma_call_correct(
    call: IrFunctionCall,
    g: GraphView,
    actions: Actions,
    before: Env,
    vars: Vars,
)
    requires
        g.wf(),
        g.functions.dom().contains(call.target),
        implements(g, actions),
        agrees(before, vars),
    ensures
        ({
            let part = call_gcl(call, g);
            let calls = actions.all_callees(set![call.target]);
            match (actions.call)(call.target, vars) {
                Some(end) => exists|after: Env|
                    {
                        &&& #[trigger] completes(part.graph, part.range, before, after)
                        &&& ends_with(before, after, end, calls)
                        &&& is_true(after[return_var()])
                    },
                None => goes_wrong(
                    part.graph,
                    State { node: part.range.start, env: before },
                ),
            }
        }),
{
    let part = call_gcl(call, g);
    let later = part.graph;
    let id = call.target;
    let f = g.functions[id];
    let n = g.nodes.len() as int;
    let e = g.edges.len() as int;
    let calls = actions.all_callees(set![id]);
    lemma_call_extends(call, g);
    lemma_grows_keeps_code(g, later);

    let end_name = g.fresh("func_call_end"@, 1);
    let target = return_target_var(id);
    let note = assign(target, PredicateView::String(end_name));
    let noted = before.insert(target, Value::Text(end_name));
    lemma_run_few(note, note, note, before);
    assert(later.nodes[n].commands == seq![note]);
    let start = State { node: n, env: before };
    let entered = State { node: f.start, env: noted };
    assert(takes_edge(later, e, start, entered));
    lemma_reaches_edge(later, e, start, entered);

    lemma_name_kinds();
    lemma_agrees_other(before, vars, target, Value::Text(end_name));
    lemma_targets_set(before, id, Value::Text(end_name));
    assert(ends_with(before, noted, vars, set![id]));
    assert(!(actions.callees)(id).contains(id) && performs(g, id, noted, vars, actions)) by {
        reveal(implements);
    }
    match (actions.call)(id, vars) {
        Some(end) => {
            let after = choose|after: Env|
                {
                    &&& #[trigger] completes(g, f, noted, after)
                    &&& ends_with(noted, after, end, (actions.callees)(id))
                    &&& is_true(after[return_var()])
                };
            lemma_completes_kept(g, later, f, noted, after);
            lemma_completes_after(later, n, before, f, noted, after);
            assert(after[target] == noted[target]) by {
                reveal(same_targets);
            }
            let back = later.edges[e + 1];
            assert(eval(PredicateView::StringVar(target), after) == Value::Text(end_name));
            assert(eval(PredicateView::String(end_name), after) == Value::Text(end_name));
            assert(holds(back.pred, after));
            lemma_completes_then(later, RangeView { start: n, end: f.end }, before, after, e + 1);
            lemma_run_few(note, note, note, after);
            assert(later.nodes[n + 1].commands == Seq::<CommandView>::empty());
            lemma_completes_intro(later, part.range, before, after, after);
            assert(set![id].subset_of(calls));
            assert((actions.callees)(id).subset_of(calls)) by {
                assert(set![id].contains(id));
            }
            lemma_ends_trans(
                before,
                noted,
                after,
                vars,
                end,
                set![id],
                (actions.callees)(id),
                calls,
            );
        },
        None => {
            lemma_wrong_kept(g, later, entered);
            lemma_wrong_after(later, start, entered);
        },
    }
}

/// Where a conjunction or disjunction has been decided, the decision is noted.
proof fn lemma_result_noted(
    left: ValuePart,
    right: ValuePart,
    is_and: bool,
    before: Env,
    env: Env,
    decision: bool,
)
    requires
        ({
            let part = short_circuit_gcl(left, right, is_and);
            let n = right.graph.nodes.len() as int;
            reaches(
                part.graph,
                State { node: left.range.start, env: before },
                State {
                    node: if decision {
                        n
                    } else {
                        n + 1
                    },
                    env,
                },
            )
        }),
    ensures
        ({
            let part = short_circuit_gcl(left, right, is_and);
            let name = right.graph.fresh("expr"@, 0);
            completes(
                part.graph,
                part.range,
                before,
                env.insert(name, Value::Bool(decision)),
            )
        }),
{
    let part = short_circuit_gcl(left, right, is_and);
    let later = part.graph;
    let n = right.graph.nodes.len() as int;
    let e = right.graph.edges.len() as int;
    let name = right.graph.fresh("expr"@, 0);
    let note = assign_bool(name, decision);
    let (at, i) = if decision {
        (n, e + 4)
    } else {
        (n + 1, e + 5)
    };
    let start = State { node: left.range.start, env: before };
    let decided = State { node: at, env };
    let noted = env.insert(name, Value::Bool(decision));
    let end = State { node: n + 2, env: noted };
    lemma_run_few(note, note, note, env);
    assert(later.nodes[at].commands == seq![note]);
    assert(takes_edge(later, i, decided, end));
    lemma_reaches_edge(later, i, decided, end);
    lemma_reaches_trans(later, start, decided, end);
    lemma_run_few(note, note, note, noted);
    assert(later.nodes[n + 2].commands == Seq::<CommandView>::empty());
    lemma_completes_intro(later, part.range, before, noted, noted);
}

/// The value of a conjunction (`is_and`) or disjunction, by the values of its operands.
pub open spec fn combine(
    left: Option<(Value, Vars)>,
    right: Option<(Value, Vars)>,
    is_and: bool,
) -> Option<(Value, Vars)> {
    match left {
        None => None,
        Some((value, mid)) => if is_true(value) == is_and {
            match right {
                None => None,
                Some((decision, after)) => Some((Value::Bool(is_true(decision)), after)),
            }
        } else {
            Some((Value::Bool(!is_and), mid))
        },
    }
}

/// A conjunction or disjunction computes its value where its operands do.
proof fn lemma_short_circuit_correct(
    left: ValuePart,
    right: ValuePart,
    is_and: bool,
    before: Env,
    left_end: Option<(Value, Vars)>,
    right_end: Option<(Value, Vars)>,
    calls: Set<FunctionId>,
)
    requires
        ({
            let later = short_circuit_gcl(left, right, is_and).graph;
            &&& right.graph.wf()
            &&& right.graph.has_range(left.range)
            &&& right.graph.has_range(right.range)
            &&& computes(later, left.range, left.pred, before, left_end, calls)
            &&& forall|env: Env| #[trigger]
                agrees(env, (left_end->0).1) ==> computes(
                    later,
                    right.range,
                    right.pred,
                    env,
                    right_end,
                    calls,
                )
        }),
    ensures
        ({
            let part = short_circuit_gcl(left, right, is_and);
            computes(
                part.graph,
                part.range,
                part.pred,
                before,
                combine(left_end, right_end, is_and),
                calls,
            )
        }),
{
    let part = short_circuit_gcl(left, right, is_and);
    let later = part.graph;
    let e = right.graph.edges.len() as int;
    let k = right.graph.names;
    let name = right.graph.fresh("expr"@, 0);
    let start = State { node: left.range.start, env: before };
    if let Some((value, mid_vars)) = left_end {
        let mid = choose|mid: Env|
            {
                &&& #[trigger] completes(later, left.range, before, mid)
                &&& ends_with(before, mid, mid_vars, calls)
                &&& eval(left.pred, mid) == value
            };
        if is_true(value) == is_and {
            assert(later.edges[e].from == left.range.end);
            assert(holds(later.edges[e].pred, mid));
            lemma_completes_then(later, left.range, before, mid, e);
            let entered = State { node: right.range.start, env: mid };
            assert(computes(later, right.range, right.pred, mid, right_end, calls));
            match right_end {
                Some((last, end_vars)) => {
                    let env = choose|env: Env|
                        {
                            &&& #[trigger] completes(later, right.range, mid, env)
                            &&& ends_with(mid, env, end_vars, calls)
                            &&& eval(right.pred, env) == last
                        };
                    let decision = is_true(last);
                    lemma_completes_after(later, left.range.start, before, right.range, mid, env);
                    let through = RangeView { start: left.range.start, end: right.range.end };
                    let i = if decision {
                        e + 2
                    } else {
                        e + 3
                    };
                    assert(later.edges[i].from == right.range.end);
                    assert(holds(later.edges[i].pred, env));
                    lemma_completes_then(later, through, before, env, i);
                    lemma_result_noted(left, right, is_and, before, env, decision);
                    lemma_ends_trans(before, mid, env, mid_vars, end_vars, calls, calls, calls);
                    lemma_ends_scratch(before, env, end_vars, calls, k, Value::Bool(decision));
                    let after = env.insert(name, Value::Bool(decision));
                    assert(eval(part.pred, after) == Value::Bool(decision));
                },
                None => {
                    lemma_wrong_after(later, start, entered);
                },
            }
        } else {
            assert(later.edges[e + 1].from == left.range.end);
            assert(holds(later.edges[e + 1].pred, mid));
            lemma_completes_then(later, left.range, before, mid, e + 1);
            lemma_result_noted(left, right, is_and, before, mid, !is_and);
            lemma_ends_scratch(before, mid, mid_vars, calls, k, Value::Bool(!is_and));
            let after = mid.insert(name, Value::Bool(!is_and));
            assert(eval(part.pred, after) == Value::Bool(!is_and));
        }
    }
}

/// More calls have more callees.
pub proof fn lemma_callees_monotone(
    actions: Actions,
    calls: Set<FunctionId>,
    more: Set<FunctionId>,
)
    requires
        calls.subset_of(more),
    ensures
        actions.all_callees(calls).subset_of(actions.all_callees(more)),
{
    assert forall|id: FunctionId|
        actions.all_callees(calls).contains(id) implies #[trigger] actions.all_callees(
        more,
    ).contains(id) by {
        if !calls.contains(id) {
            let f = choose|f: FunctionId| #[trigger]
                calls.contains(f) && (actions.callees)(f).contains(id);
            assert(more.contains(f) && (actions.callees)(f).contains(id));
        }
    }
}

/// More return targets may have changed.
pub proof fn lemma_ends_widen(
    before: Env,
    after: Env,
    vars: Vars,
    calls: Set<FunctionId>,
    more: Set<FunctionId>,
)
    requires
        ends_with(before, after, vars, calls),
        calls.subset_of(more),
    ensures
        ends_with(before, after, vars, more),
{
    reveal(same_targets);
}

/// More actions may have been called.
pub proof fn lemma_computes_widen(
    g: GraphView,
    range: RangeView,
    pred: PredicateView,
    before: Env,
    end: Option<(Value, Vars)>,
    calls: Set<FunctionId>,
    more: Set<FunctionId>,
)
    requires
        computes(g, range, pred, before, end, calls),
        calls.subset_of(more),
    ensures
        computes(g, range, pred, before, end, more),
{
    if let Some((value, vars)) = end {
        let after = choose|after: Env|
            {
                &&& #[trigger] completes(g, range, before, after)
                &&& ends_with(before, after, vars, calls)
                &&& eval(pred, after) == value
            };
        lemma_ends_widen(before, after, vars, calls, more);
    }
}

/// A check goes on to the next node where the predicate is true, and goes wrong where it is
/// not.
pub proof fn lemma_assert_correct(pred: PredicateView, next: int, g: GraphView, env: Env)
    requires
        g.wf(),
        g.has_node(next),
    ensures
        ({
            let later = assert_gcl(pred, next, g);
            let check = State { node: g.nodes.len() as int + 1, env };
            &&& holds(pred, env) ==> reaches(later, check, State { node: next, env })
            &&& !holds(pred, env) ==> goes_wrong(later, check)
        }),
{
    let later = assert_gcl(pred, next, g);
    let n = g.nodes.len() as int;
    let e = g.edges.len() as int;
    let check = State { node: n + 1, env };
    lemma_run_few(CommandView::Bug, CommandView::Bug, CommandView::Bug, env);
    assert(later.nodes[n + 1].commands == Seq::<CommandView>::empty());
    if holds(pred, env) {
        let passed = State { node: next, env };
        assert(takes_edge(later, e, check, passed));
        lemma_reaches_edge(later, e, check, passed);
    } else {
        let bug = State { node: n, env };
        assert(holds(negated(pred), env));
        assert(takes_edge(later, e + 1, check, bug));
        lemma_reaches_edge(later, e + 1, check, bug);
        assert(later.nodes[n].commands == seq![CommandView::Bug]);
        lemma_wrong_intro(later, check, bug);
    }
}

/// A part with a node behind it runs the commands of the node at the end.
pub proof fn lemma_append_correct(
    part: Part,
    added: NodeView,
    names: nat,
    before: Env,
    env: Env,
    after: Env,
)
    requires
        part.graph.has_range(part.range),
        completes(part.graph, part.range, before, env),
        run_commands(added.commands, env) == Some(after),
    ensures
        ({
            let n = part.graph.nodes.len() as int;
            completes(
                part.graph.grow(seq![added], seq![always(part.range.end, n)], names),
                RangeView { start: part.range.start, end: n },
                before,
                after,
            )
        }),
{
    let n = part.graph.nodes.len() as int;
    let e = part.graph.edges.len() as int;
    let later = part.graph.grow(seq![added], seq![always(part.range.end, n)], names);
    assert(keeps_code(part.graph, later)) by {
        reveal(keeps_code);
    }
    lemma_completes_kept(part.graph, later, part.range, before, env);
    assert(later.edges[e] == always(part.range.end, n));
    lemma_completes_then(later, part.range, before, env, e);
    assert(later.nodes[n] == added);
    lemma_completes_intro(
        later,
        RangeView { start: part.range.start, end: n },
        before,
        env,
        after,
    );
}

/// A part with a node behind it goes wrong where the part does.
pub proof fn lemma_append_wrong(part: Part, added: NodeView, names: nat, before: Env)
    requires
        goes_wrong(part.graph, State { node: part.range.start, env: before }),
    ensures
        ({
            let n = part.graph.nodes.len() as int;
            goes_wrong(
                part.graph.grow(seq![added], seq![always(part.range.end, n)], names),
                State { node: part.range.start, env: before },
            )
        }),
{
    let n = part.graph.nodes.len() as int;
    let later = part.graph.grow(seq![added], seq![always(part.range.end, n)], names);
    assert(keeps_code(part.graph, later)) by {
        reveal(keeps_code);
    }
    lemma_wrong_kept(part.graph, later, State { node: part.range.start, env: before });
}

/// The translation of an expression computes its value: where the expression means something,
/// a run enters the new part and leaves it, and then the predicate holds the value and the
/// program's variables are what they should be; where the expression goes wrong, the run comes
/// to a bug. Nothing else is assumed of the graph but that its functions do what the actions
/// mean.
pub proof fn lemma_expr_correct(
    expr: IrExpr,
    g: GraphView,
    actions: Actions,
    before: Env,
    vars: Vars,
)
    requires
        g.wf(),
        expr_calls(expr).subset_of(g.functions.dom()),
        implements(g, actions),
        agrees(before, vars),
    ensures
        ({
            let part = expr_gcl(expr, g);
            computes(
                part.graph,
                part.range,
                part.pred,
                before,
                eval_expr(expr, vars, actions),
                actions.all_callees(expr_calls(expr)),
            )
        }),
    decreases expr_size(expr),
{
    let part = expr_gcl(expr, g);
    let n = g.nodes.len() as int;
    let calls = actions.all_callees(expr_calls(expr));
    match expr.data {
        IrExprData::Bool(b) => {
            let name = g.fresh("expr"@, 0);
            let set = assign_bool(name, b);
            let after = before.insert(name, Value::Bool(b));
            lemma_run_few(set, set, set, before);
            lemma_reaches_refl(part.graph, State { node: n, env: before });
            assert(part.graph.nodes[n].commands == seq![set]);
            lemma_completes_intro(part.graph, part.range, before, before, after);
            lemma_ends_refl(before, vars, calls);
            lemma_ends_scratch(before, before, vars, calls, g.names, Value::Bool(b));
            assert(eval(part.pred, after) == Value::Bool(b));
        },
        IrExprData::Var(id) => {
            let name = g.fresh("expr"@, 0);
            let value = PredicateView::Var(value_var(id));
            let has_value = PredicateView::Var(has_value_var(id));
            let assigned = single_assignment_gcl(value, g);
            let set = assign(name, value);
            lemma_grow_wf(g, seq![node(name, seq![set])], seq![], 1);
            lemma_assert_correct(has_value, n, assigned, before);
            lemma_agrees_at(before, vars, id);
            assert(eval(has_value, before) == before[has_value_var(id)]);
            assert(part.range.start == assigned.nodes.len() + 1);
            if vars.defined.contains(id) {
                let after = before.insert(name, before[value_var(id)]);
                lemma_run_few(set, set, set, before);
                assert(part.graph.nodes[n].commands == seq![set]);
                lemma_completes_intro(part.graph, part.range, before, before, after);
                lemma_ends_refl(before, vars, calls);
                lemma_ends_scratch(before, before, vars, calls, g.names, before[value_var(id)]);
                assert(eval(part.pred, after) == vars.values[id]);
            }
        },
        IrExprData::And(left, right) => {
            lemma_operands_correct(*left, *right, true, g, actions, before, vars, calls);
        },
        IrExprData::Or(left, right) => {
            lemma_operands_correct(*left, *right, false, g, actions, before, vars, calls);
        },
        IrExprData::Negation(inner) => {
            lemma_expr_correct(*inner, g, actions, before, vars);
            lemma_expr_extends(*inner, g);
            let inner_part = expr_gcl(*inner, g);
            let name = inner_part.graph.fresh("expr"@, 0);
            let set = assign(name, negated(inner_part.pred));
            let added = node(name, seq![set]);
            let base = Part { graph: inner_part.graph, range: inner_part.range };
            match eval_expr(*inner, vars, actions) {
                Some((value, end_vars)) => {
                    let env = choose|env: Env|
                        {
                            &&& #[trigger] completes(
                                inner_part.graph,
                                inner_part.range,
                                before,
                                env,
                            )
                            &&& ends_with(before, env, end_vars, calls)
                            &&& eval(inner_part.pred, env) == value
                        };
                    let result = Value::Bool(!is_true(value));
                    let after = env.insert(name, result);
                    lemma_run_few(set, set, set, env);
                    lemma_append_correct(base, added, 1, before, env, after);
                    lemma_ends_scratch(
                        before,
                        env,
                        end_vars,
                        calls,
                        inner_part.graph.names,
                        result,
                    );
                    assert(eval(part.pred, after) == result);
                },
                None => {
                    lemma_append_wrong(base, added, 1, before);
                },
            }
        },
        IrExprData::FunctionCall(call) => {
            assert(expr_calls(expr).contains(call.target));
            lemma_call_correct(call, g, actions, before, vars);
            lemma_call_extends(call, g);
            let base = call_gcl(call, g);
            let name = base.graph.fresh("expr"@, 0);
            let set = assign(name, PredicateView::Var(return_var()));
            let added = node(base.graph.fresh("expr_func"@, 1), seq![set]);
            match (actions.call)(call.target, vars) {
                Some(end_vars) => {
                    let env = choose|env: Env|
                        {
                            &&& #[trigger] completes(base.graph, base.range, before, env)
                            &&& ends_with(before, env, end_vars, calls)
                            &&& is_true(env[return_var()])
                        };
                    let after = env.insert(name, Value::Bool(true));
                    lemma_run_few(set, set, set, env);
                    lemma_append_correct(base, added, 2, before, env, after);
                    lemma_ends_scratch(
                        before,
                        env,
                        end_vars,
                        calls,
                        base.graph.names,
                        Value::Bool(true),
                    );
                    assert(eval(part.pred, after) == Value::Bool(true));
                },
                None => {
                    lemma_append_wrong(base, added, 2, before);
                },
            }
        },
    }
}

/// A conjunction or disjunction computes its value.
proof fn lemma_operands_correct(
    left: IrExpr,
    right: IrExpr,
    is_and: bool,
    g: GraphView,
    actions: Actions,
    before: Env,
    vars: Vars,
    calls: Set<FunctionId>,
)
    requires
        g.wf(),
        expr_calls(left).subset_of(g.functions.dom()),
        expr_calls(right).subset_of(g.functions.dom()),
        implements(g, actions),
        agrees(before, vars),
        calls == actions.all_callees(expr_calls(left).union(expr_calls(right))),
    ensures
        ({
            let left_part = expr_gcl(left, g);
            let right_part = expr_gcl(right, left_part.graph);
            let part = short_circuit_gcl(left_part, right_part, is_and);
            let left_end = eval_expr(left, vars, actions);
            let right_end = eval_expr(right, (left_end->0).1, actions);
            computes(
                part.graph,
                part.range,
                part.pred,
                before,
                combine(left_end, right_end, is_and),
                calls,
            )
        }),
    decreases expr_size(left) + expr_size(right),
{
    let left_part = expr_gcl(left, g);
    let right_part = expr_gcl(right, left_part.graph);
    let later = short_circuit_gcl(left_part, right_part, is_and).graph;
    let left_end = eval_expr(left, vars, actions);
    let mid_vars = (left_end->0).1;
    let right_end = eval_expr(right, mid_vars, actions);
    lemma_expr_extends(left, g);
    lemma_expr_extends(right, left_part.graph);
    lemma_short_circuit_extends(g, left_part, right_part, is_and);
    assert(keeps_code(right_part.graph, later)) by {
        reveal(keeps_code);
    }
    assert(keeps_code(left_part.graph, later)) by {
        lemma_grows_keeps_code(left_part.graph, right_part.graph);
        reveal(keeps_code);
    }
    lemma_expr_correct(left, g, actions, before, vars);
    let left_calls = actions.all_callees(expr_calls(left));
    let right_calls = actions.all_callees(expr_calls(right));
    lemma_callees_monotone(actions, expr_calls(left), expr_calls(left).union(expr_calls(right)));
    lemma_callees_monotone(actions, expr_calls(right), expr_calls(left).union(expr_calls(right)));
    lemma_computes_kept(
        left_part.graph,
        later,
        left_part.range,
        left_part.pred,
        before,
        left_end,
        left_calls,
    );
    lemma_computes_widen(
        later,
        left_part.range,
        left_part.pred,
        before,
        left_end,
        left_calls,
        calls,
    );
    lemma_grows_keeps_code(g, left_part.graph);
    lemma_implements_kept(g, left_part.graph, actions);
    assert forall|env: Env| #[trigger] agrees(env, mid_vars) implies computes(
        later,
        right_part.range,
        right_part.pred,
        env,
        right_end,
        calls,
    ) by {
        lemma_expr_correct(right, left_part.graph, actions, env, mid_vars);
        lemma_computes_kept(
            right_part.graph,
            later,
            right_part.range,
            right_part.pred,
            env,
            right_end,
            right_calls,
        );
        lemma_computes_widen(
            later,
            right_part.range,
            right_part.pred,
            env,
            right_end,
            right_calls,
            calls,
        );
    }
    lemma_short_circuit_correct(
        left_part,
        right_part,
        is_and,
        before,
        left_end,
        right_end,
        calls,
    );
}

} // verus!
