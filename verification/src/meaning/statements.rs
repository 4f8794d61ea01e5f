//! The translation of a statement does what the statement means.

use either::Either;
use vstd::prelude::*;

use crate::gcl::{CommandView, PredicateView, RangeView};
use crate::graph::{created_name, GraphView};
use crate::growth::{
    lemma_absorb_extends, lemma_append_extends, lemma_assert_extends, lemma_block_state_extends,
    lemma_element_extends, lemma_expr_extends, lemma_finish_extends, lemma_grow_wf,
    lemma_grows_refl, lemma_statement_extends,
};
use crate::ir::{
    FunctionId, IrAssignment, IrExpr, IrExprData, IrIfStatement, IrStatement, IrStatementOrDecl,
    IrVariableDecl,
};
use crate::meaning::expressions::{
    lemma_append_correct, lemma_append_wrong, lemma_assert_correct, lemma_call_correct,
    lemma_callees_monotone, lemma_computes_kept, lemma_computes_widen, lemma_does_kept,
    lemma_ends_widen, lemma_expr_correct, lemma_implements_kept,
};
use crate::meaning::names::{
    is_program_name, lemma_agrees_at, lemma_ends_declare, lemma_ends_define, lemma_ends_refl,
    lemma_ends_trans, lemma_ends_value, lemma_name_kinds,
};
use crate::meaning::runs::{
    completes, eval, goes_wrong, holds, is_true, keeps_code, lemma_completes_after,
    lemma_completes_intro, lemma_completes_kept, lemma_completes_then, lemma_grows_keeps_code,
    lemma_keeps_code_trans, lemma_reaches_refl, lemma_run_few, lemma_run_push, lemma_wrong_after,
    lemma_wrong_kept, reaches, run_command, run_commands, Env, State, Value,
};
use crate::meaning::source::{
    agrees, computes, does, ends_with, eval_expr, implements, run_assignment, run_element,
    run_elements, run_if, run_statement, run_var_decl, Actions, Vars,
};
use crate::text::tagged;
use crate::translation::{
    always, assign, assign_bool, assignment_gcl, block_calls, block_gcl, block_state, branch_gcl,
    call_gcl, declared_var, edge, element_calls, element_gcl, expr_calls, expr_gcl, has_value_var,
    if_calls, if_end_gcl, if_gcl, negated, node, statement_calls, statement_gcl, value_var,
    var_decl_calls, var_decl_commands, var_decl_gcl, BlockState, Part, ValuePart,
};

verus! {

/// The value of an expression is left in a scratch variable.
pub proof fn lemma_expr_pred(expr: IrExpr, g: GraphView)
    ensures
        exists|n: nat|
            expr_gcl(expr, g).pred == PredicateView::Var(#[trigger] created_name("expr"@, n)),
{
    match expr.data {
        IrExprData::Bool(_) => {
            let name = created_name("expr"@, g.names + 0);
            assert(expr_gcl(expr, g).pred == PredicateView::Var(name));
        },
        IrExprData::Var(_) => {
            let name = created_name("expr"@, g.names + 0);
            assert(expr_gcl(expr, g).pred == PredicateView::Var(name));
        },
        IrExprData::And(left, right) => {
            let last = expr_gcl(*right, expr_gcl(*left, g).graph).graph;
            assert(expr_gcl(expr, g).pred == PredicateView::Var(
                created_name("expr"@, last.names + 0),
            ));
        },
        IrExprData::Or(left, right) => {
            let last = expr_gcl(*right, expr_gcl(*left, g).graph).graph;
            assert(expr_gcl(expr, g).pred == PredicateView::Var(
                created_name("expr"@, last.names + 0),
            ));
        },
        IrExprData::Negation(inner) => {
            let last = expr_gcl(*inner, g).graph;
            assert(expr_gcl(expr, g).pred == PredicateView::Var(
                created_name("expr"@, last.names + 0),
            ));
        },
        IrExprData::FunctionCall(call) => {
            let last = call_gcl(call, g).graph;
            assert(expr_gcl(expr, g).pred == PredicateView::Var(
                created_name("expr"@, last.names + 0),
            ));
        },
    }
}

/// A scratch variable keeps its value where another variable is assigned to.
proof fn lemma_scratch_kept(pred: PredicateView, env: Env, name: Seq<char>, value: Value)
    requires
        exists|n: nat| pred == PredicateView::Var(#[trigger] created_name("expr"@, n)),
        is_program_name(name),
    ensures
        eval(pred, env.insert(name, value)) == eval(pred, env),
{
    lemma_name_kinds();
}

/// More actions may have been called.
pub proof fn lemma_does_widen(
    g: GraphView,
    range: RangeView,
    before: Env,
    end: Option<Vars>,
    calls: Set<FunctionId>,
    more: Set<FunctionId>,
)
    requires
        does(g, range, before, end, calls),
        calls.subset_of(more),
    ensures
        does(g, range, before, end, more),
{
    if let Some(vars) = end {
        let after = choose|after: Env| #[trigger]
            completes(g, range, before, after) && ends_with(before, after, vars, calls);
        lemma_ends_widen(before, after, vars, calls, more);
    }
}

/// The commands of a declaration with a value.
proof fn lemma_var_decl_commands(
    decl: IrVariableDecl,
    pred: PredicateView,
    before: Env,
    env: Env,
    value: Value,
    vars: Vars,
    calls: Set<FunctionId>,
)
    requires
        exists|n: nat| pred == PredicateView::Var(#[trigger] created_name("expr"@, n)),
        ends_with(before, env, vars, calls),
        eval(pred, env) == value,
    ensures
        exists|after: Env|
            run_commands(var_decl_commands(decl, Some(pred)), env) == Some(after)
                && #[trigger] ends_with(
                before,
                after,
                vars.with_declared(decl).with_value(decl.id, value),
                calls,
            ),
{
    lemma_name_kinds();
    let first = assign_bool(has_value_var(decl.id), true);
    let second = assign_bool(declared_var(decl.id), true);
    let third = assign(value_var(decl.id), pred);
    let env1 = env.insert(has_value_var(decl.id), Value::Bool(true));
    let vars1 = Vars { defined: vars.defined.insert(decl.id), ..vars };
    lemma_ends_define(before, env, vars, calls, decl.id, true);
    lemma_scratch_kept(pred, env, has_value_var(decl.id), Value::Bool(true));
    if decl.is_const {
        assert(var_decl_commands(decl, Some(pred)) =~= seq![first, third]);
        lemma_run_few(first, third, third, env);
        lemma_ends_value(before, env1, vars1, calls, decl.id, value);
        let after = env1.insert(value_var(decl.id), value);
        let end = vars.with_declared(decl).with_value(decl.id, value);
        assert(ends_with(before, after, end, calls));
    } else {
        let env2 = env1.insert(declared_var(decl.id), Value::Bool(true));
        let vars2 = Vars { declared: vars1.declared.insert(decl.id), ..vars1 };
        assert(var_decl_commands(decl, Some(pred)) =~= seq![first, second, third]);
        lemma_run_few(first, second, third, env);
        lemma_ends_declare(before, env1, vars1, calls, decl.id);
        lemma_scratch_kept(pred, env1, declared_var(decl.id), Value::Bool(true));
        lemma_ends_value(before, env2, vars2, calls, decl.id, value);
        let after = env2.insert(value_var(decl.id), value);
        let end = vars.with_declared(decl).with_value(decl.id, value);
        assert(ends_with(before, after, end, calls));
    }
}

/// The translation of a declaration does what the declaration means.
pub proof fn lemma_var_decl_correct(
    decl: IrVariableDecl,
    g: GraphView,
    actions: Actions,
    before: Env,
    vars: Vars,
)
    requires
        g.wf(),
        var_decl_calls(decl).subset_of(g.functions.dom()),
        implements(g, actions),
        agrees(before, vars),
    ensures
        ({
            let part = var_decl_gcl(decl, g);
            does(
                part.graph,
                part.range,
                before,
                run_var_decl(decl, vars, actions),
                actions.all_callees(var_decl_calls(decl)),
            )
        }),
{
    let part = var_decl_gcl(decl, g);
    let calls = actions.all_callees(var_decl_calls(decl));
    let named = g.grow(seq![], seq![], 1);
    let name = g.fresh(tagged("var_decl__"@, decl.id as nat), 0);
    lemma_grow_wf(g, seq![], seq![], 1);
    lemma_grows_keeps_code(g, named);
    lemma_implements_kept(g, named, actions);
    match decl.value {
        Some(value) => {
            lemma_expr_correct(value, named, actions, before, vars);
            lemma_expr_extends(value, named);
            lemma_expr_pred(value, named);
            let value_part = expr_gcl(value, named);
            let base = Part { graph: value_part.graph, range: value_part.range };
            let added = node(name, var_decl_commands(decl, Some(value_part.pred)));
            match eval_expr(value, vars, actions) {
                Some((v, end_vars)) => {
                    let env = choose|env: Env|
                        {
                            &&& #[trigger] completes(base.graph, base.range, before, env)
                            &&& ends_with(before, env, end_vars, calls)
                            &&& eval(value_part.pred, env) == v
                        };
                    lemma_var_decl_commands(
                        decl,
                        value_part.pred,
                        before,
                        env,
                        v,
                        end_vars,
                        calls,
                    );
                    let end = run_var_decl(decl, vars, actions)->0;
                    let after = choose|after: Env|
                        run_commands(added.commands, env) == Some(after) && #[trigger] ends_with(
                            before,
                            after,
                            end,
                            calls,
                        );
                    lemma_append_correct(base, added, 0, before, env, after);
                },
                None => {
                    lemma_append_wrong(base, added, 0, before);
                },
            }
        },
        None => {
            let n = g.nodes.len() as int;
            let first = assign_bool(has_value_var(decl.id), false);
            let second = assign_bool(declared_var(decl.id), true);
            let env1 = before.insert(has_value_var(decl.id), Value::Bool(false));
            let vars1 = Vars { defined: vars.defined.remove(decl.id), ..vars };
            lemma_ends_refl(before, vars, calls);
            lemma_ends_define(before, before, vars, calls, decl.id, false);
            lemma_run_few(first, second, second, before);
            lemma_reaches_refl(part.graph, State { node: n, env: before });
            assert(part.graph.nodes[n].commands == var_decl_commands(decl, None));
            if decl.is_const {
                assert(var_decl_commands(decl, None) =~= seq![first]);
                lemma_completes_intro(part.graph, part.range, before, before, env1);
            } else {
                assert(var_decl_commands(decl, None) =~= seq![first, second]);
                lemma_ends_declare(before, env1, vars1, calls, decl.id);
                let after = env1.insert(declared_var(decl.id), Value::Bool(true));
                lemma_completes_intro(part.graph, part.range, before, before, after);
            }
        },
    }
}

/// The translation of an assignment does what the assignment means.
pub proof fn lemma_assignment_correct(
    assignment: IrAssignment,
    g: GraphView,
    actions: Actions,
    before: Env,
    vars: Vars,
)
    requires
        g.wf(),
        expr_calls(assignment.value).subset_of(g.functions.dom()),
        implements(g, actions),
        agrees(before, vars),
    ensures
        ({
            let part = assignment_gcl(assignment, g);
            does(
                part.graph,
                part.range,
                before,
                run_assignment(assignment, vars, actions),
                actions.all_callees(expr_calls(assignment.value)),
            )
        }),
{
    let id = assignment.var;
    let calls = actions.all_callees(expr_calls(assignment.value));
    let value_part = expr_gcl(assignment.value, g);
    let base = Part { graph: value_part.graph, range: value_part.range };
    let first = assign_bool(has_value_var(id), true);
    let second = assign(value_var(id), value_part.pred);
    let added = node(
        base.graph.fresh(tagged("assignment__"@, id as nat), 0),
        seq![first, second],
    );
    let n = base.graph.nodes.len() as int;
    let assigned = base.graph.grow(seq![added], seq![always(base.range.end, n)], 1);
    let later = assignment_gcl(assignment, g).graph;
    let declared = PredicateView::Var(declared_var(id));
    let check = State { node: n + 2, env: before };
    lemma_expr_extends(assignment.value, g);
    lemma_append_extends(g, base, added, 1);
    lemma_assert_extends(declared, base.range.start, assigned);
    lemma_assert_correct(declared, base.range.start, assigned, before);
    lemma_grows_keeps_code(assigned, later);
    lemma_agrees_at(before, vars, id);
    assert(eval(declared, before) == before[declared_var(id)]);
    if vars.declared.contains(id) {
        lemma_expr_correct(assignment.value, g, actions, before, vars);
        lemma_expr_pred(assignment.value, g);
        match eval_expr(assignment.value, vars, actions) {
            Some((v, end_vars)) => {
                let env = choose|env: Env|
                    {
                        &&& #[trigger] completes(base.graph, base.range, before, env)
                        &&& ends_with(before, env, end_vars, calls)
                        &&& eval(value_part.pred, env) == v
                    };
                let env1 = env.insert(has_value_var(id), Value::Bool(true));
                let vars1 = Vars { defined: end_vars.defined.insert(id), ..end_vars };
                let after = env1.insert(value_var(id), v);
                lemma_name_kinds();
                lemma_scratch_kept(value_part.pred, env, has_value_var(id), Value::Bool(true));
                lemma_run_few(first, second, second, env);
                lemma_append_correct(base, added, 1, before, env, after);
                lemma_ends_define(before, env, end_vars, calls, id, true);
                lemma_ends_value(before, env1, vars1, calls, id, v);
                let through = RangeView { start: base.range.start, end: n };
                lemma_completes_kept(assigned, later, through, before, after);
                lemma_completes_after(later, n + 2, before, through, before, after);
            },
            None => {
                lemma_append_wrong(base, added, 1, before);
                let entered = State { node: base.range.start, env: before };
                lemma_wrong_kept(assigned, later, entered);
                lemma_wrong_after(later, check, entered);
            },
        }
    }
}

/// What a conditional means, by what its condition and its branches mean.
pub open spec fn branch(
    cond: Option<(Value, Vars)>,
    then_end: Option<Vars>,
    else_end: Option<Vars>,
) -> Option<Vars> {
    match cond {
        None => None,
        Some((value, _)) => if is_true(value) {
            then_end
        } else {
            else_end
        },
    }
}

/// A run that has come to a branch goes through it to the end of the conditional.
proof fn lemma_branch_taken(
    g: GraphView,
    start: int,
    taken: RangeView,
    end: int,
    i: int,
    before: Env,
    mid: Env,
    mid_vars: Vars,
    result: Option<Vars>,
    calls: Set<FunctionId>,
)
    requires
        reaches(
            g,
            State { node: start, env: before },
            State { node: taken.start, env: mid },
        ),
        ends_with(before, mid, mid_vars, calls),
        does(g, taken, mid, result, calls),
        0 <= i < g.edges.len(),
        g.edges[i] == always(taken.end, end),
        g.has_node(end),
        g.nodes[end].commands == Seq::<CommandView>::empty(),
    ensures
        does(g, RangeView { start, end }, before, result, calls),
{
    match result {
        Some(end_vars) => {
            let after = choose|after: Env| #[trigger]
                completes(g, taken, mid, after) && ends_with(mid, after, end_vars, calls);
            lemma_completes_after(g, start, before, taken, mid, after);
            lemma_completes_then(g, RangeView { start, end: taken.end }, before, after, i);
            lemma_completes_intro(g, RangeView { start, end }, before, after, after);
            lemma_ends_trans(before, mid, after, mid_vars, end_vars, calls, calls, calls);
        },
        None => {
            lemma_wrong_after(
                g,
                State { node: start, env: before },
                State { node: taken.start, env: mid },
            );
        },
    }
}

/// A conditional does what it means where its condition and its branches do.
proof fn lemma_branch_correct(
    cond: ValuePart,
    then_part: Part,
    else_part: Option<Part>,
    end: int,
    before: Env,
    cond_end: Option<(Value, Vars)>,
    then_end: Option<Vars>,
    else_end: Option<Vars>,
    calls: Set<FunctionId>,
)
    requires
        ({
            let later = branch_gcl(cond, then_part, else_part, end).graph;
            &&& later.has_node(end)
            &&& later.nodes[end].commands == Seq::<CommandView>::empty()
            &&& computes(later, cond.range, cond.pred, before, cond_end, calls)
            &&& forall|env: Env| #[trigger]
                agrees(env, (cond_end->0).1) ==> does(
                    later,
                    then_part.range,
                    env,
                    then_end,
                    calls,
                )
            &&& match else_part {
                Some(part) => forall|env: Env| #[trigger]
                    agrees(env, (cond_end->0).1) ==> does(later, part.range, env, else_end, calls),
                None => else_end == Some((cond_end->0).1),
            }
        }),
    ensures
        ({
            let part = branch_gcl(cond, then_part, else_part, end);
            does(part.graph, part.range, before, branch(cond_end, then_end, else_end), calls)
        }),
{
    let part = branch_gcl(cond, then_part, else_part, end);
    let later = part.graph;
    let start = cond.range.start;
    let e = match else_part {
        Some(last) => last.graph.edges.len() as int,
        None => then_part.graph.edges.len() as int,
    };
    if let Some((value, mid_vars)) = cond_end {
        let mid = choose|mid: Env|
            {
                &&& #[trigger] completes(later, cond.range, before, mid)
                &&& ends_with(before, mid, mid_vars, calls)
                &&& eval(cond.pred, mid) == value
            };
        if is_true(value) {
            assert(later.edges[e] == edge(cond.range.end, then_part.range.start, cond.pred));
            lemma_completes_then(later, cond.range, before, mid, e);
            assert(later.edges[e + 2] == always(then_part.range.end, end));
            lemma_branch_taken(
                later,
                start,
                then_part.range,
                end,
                e + 2,
                before,
                mid,
                mid_vars,
                then_end,
                calls,
            );
        } else {
            assert(later.edges[e + 1].from == cond.range.end);
            assert(later.edges[e + 1].pred == negated(cond.pred));
            assert(holds(later.edges[e + 1].pred, mid));
            lemma_completes_then(later, cond.range, before, mid, e + 1);
            match else_part {
                Some(last) => {
                    assert(later.edges[e + 3] == always(last.range.end, end));
                    lemma_branch_taken(
                        later,
                        start,
                        last.range,
                        end,
                        e + 3,
                        before,
                        mid,
                        mid_vars,
                        else_end,
                        calls,
                    );
                },
                None => {
                    lemma_completes_intro(later, part.range, before, mid, mid);
                },
            }
        }
    }
}

// ---------------------------------------------------------------------------------------
// Blocks
// ---------------------------------------------------------------------------------------
/// Whether a run can go through the nodes of a block so far, and `env` are the variables then.
pub open spec fn ran(state: BlockState, before: Env, env: Env) -> bool {
    match state.range {
        Some(range) => completes(state.graph, range, before, env),
        None => env == before,
    }
}

/// Whether a block so far, with its pending commands, does what its elements mean.
pub open spec fn block_does(
    state: BlockState,
    before: Env,
    end: Option<Vars>,
    calls: Set<FunctionId>,
) -> bool {
    match end {
        Some(vars) => exists|env: Env|
            {
                &&& #[trigger] ran(state, before, env)
                &&& run_commands(state.pending, env) matches Some(after) && ends_with(
                    before,
                    after,
                    vars,
                    calls,
                )
            },
        None => state.range matches Some(range) && goes_wrong(
            state.graph,
            State { node: range.start, env: before },
        ),
    }
}

/// A run goes on to the part that is put behind a block.
proof fn lemma_chain_ran(
    state: BlockState,
    next: RangeView,
    before: Env,
    env: Env,
    after: Env,
)
    requires
        ran(state, before, env),
        completes(state.graph, next, env, after),
    ensures
        ran(state.chain(next), before, after),
{
    if let Some(range) = state.range {
        let later = state.chain(next).graph;
        let e = state.graph.edges.len() as int;
        assert(keeps_code(state.graph, later)) by {
            reveal(keeps_code);
        }
        lemma_completes_kept(state.graph, later, range, before, env);
        lemma_completes_kept(state.graph, later, next, env, after);
        assert(later.edges[e] == always(range.end, next.start));
        lemma_completes_then(later, range, before, env, e);
        lemma_completes_after(later, range.start, before, next, env, after);
    }
}

/// A block goes wrong where the part that is put behind it does.
proof fn lemma_chain_wrong(state: BlockState, next: RangeView, before: Env, env: Env)
    requires
        ran(state, before, env),
        goes_wrong(state.graph, State { node: next.start, env }),
    ensures
        state.chain(next).range matches Some(range) && goes_wrong(
            state.chain(next).graph,
            State { node: range.start, env: before },
        ),
{
    if let Some(range) = state.range {
        let later = state.chain(next).graph;
        let e = state.graph.edges.len() as int;
        assert(keeps_code(state.graph, later)) by {
            reveal(keeps_code);
        }
        lemma_completes_kept(state.graph, later, range, before, env);
        lemma_wrong_kept(state.graph, later, State { node: next.start, env });
        assert(later.edges[e] == always(range.end, next.start));
        lemma_completes_then(later, range, before, env, e);
        lemma_wrong_after(
            later,
            State { node: range.start, env: before },
            State { node: next.start, env },
        );
    }
}

/// The node that gets the pending commands runs them.
proof fn lemma_flush_ran(state: BlockState, before: Env, env: Env, after: Env)
    requires
        ran(state, before, env),
        run_commands(state.pending, env) == Some(after),
    ensures
        ran(state.flush(), before, after),
{
    let n = state.graph.nodes.len() as int;
    let added = node(state.graph.fresh("block_stmt_body"@, 0), state.pending);
    let grown = state.graph.grow(seq![added], seq![], 1);
    let held = BlockState { graph: grown, pending: seq![], range: state.range };
    assert(keeps_code(state.graph, grown)) by {
        reveal(keeps_code);
    }
    if let Some(range) = state.range {
        lemma_completes_kept(state.graph, grown, range, before, env);
    }
    lemma_reaches_refl(grown, State { node: n, env });
    assert(grown.nodes[n] == added);
    lemma_completes_intro(grown, RangeView { start: n, end: n }, env, env, after);
    lemma_chain_ran(held, RangeView { start: n, end: n }, before, env, after);
}

/// A block that has gone wrong stays wrong, and is entered where it was.
proof fn lemma_absorb_wrong(
    state: BlockState,
    later: GraphView,
    output: Either<CommandView, RangeView>,
    before: Env,
)
    requires
        state.graph.grows_into(later),
        state.range matches Some(range) && goes_wrong(
            state.graph,
            State { node: range.start, env: before },
        ),
        later.grows_into((BlockState { graph: later, ..state }).absorb(output).graph),
    ensures
        (BlockState { graph: later, ..state }).absorb(output).range matches Some(range)
            && goes_wrong(
            (BlockState { graph: later, ..state }).absorb(output).graph,
            State { node: range.start, env: before },
        ),
{
    let moved = BlockState { graph: later, ..state };
    let start = State { node: (state.range->0).start, env: before };
    lemma_grows_keeps_code(state.graph, later);
    lemma_wrong_kept(state.graph, later, start);
    lemma_grows_keeps_code(later, moved.absorb(output).graph);
    lemma_wrong_kept(later, moved.absorb(output).graph, start);
    reveal(BlockState::absorb);
}

/// A block takes up an element that is a command.
proof fn lemma_absorb_command(
    state: BlockState,
    command: CommandView,
    before: Env,
    env: Env,
    mid: Env,
    after: Env,
)
    requires
        ran(state, before, env),
        run_commands(state.pending, env) == Some(mid),
        run_command(command, mid) == Some(after),
    ensures
        ran(state.absorb(Either::Left(command)), before, env),
        run_commands(state.absorb(Either::Left(command)).pending, env) == Some(after),
{
    reveal(BlockState::absorb);
    lemma_run_push(state.pending, command, env);
}

/// A block takes up an element with nodes of its own.
proof fn lemma_absorb_part(
    state: BlockState,
    range: RangeView,
    before: Env,
    env: Env,
    mid: Env,
    end: Option<Vars>,
    calls: Set<FunctionId>,
    mid_vars: Vars,
)
    requires
        ran(state, before, env),
        run_commands(state.pending, env) == Some(mid),
        ends_with(before, mid, mid_vars, calls),
        does(state.graph, range, mid, end, calls),
    ensures
        block_does(state.absorb(Either::Right(range)), before, end, calls),
{
    reveal(BlockState::absorb);
    lemma_run_few(CommandView::Bug, CommandView::Bug, CommandView::Bug, mid);
    let flushed = if state.pending.len() == 0 {
        assert(state.pending =~= seq![]);
        lemma_run_few(CommandView::Bug, CommandView::Bug, CommandView::Bug, env);
        state
    } else {
        lemma_flush_ran(state, before, env, mid);
        let later = state.flush().graph;
        assert(keeps_code(state.graph, later)) by {
            reveal(keeps_code);
        }
        lemma_does_kept(state.graph, later, range, mid, end, calls);
        state.flush()
    };
    let result = state.absorb(Either::Right(range));
    assert(result == flushed.chain(range));
    match end {
        Some(end_vars) => {
            let after = choose|after: Env| #[trigger]
                completes(flushed.graph, range, mid, after) && ends_with(
                    mid,
                    after,
                    end_vars,
                    calls,
                );
            lemma_chain_ran(flushed, range, before, mid, after);
            assert(result.pending =~= seq![]);
            lemma_run_few(CommandView::Bug, CommandView::Bug, CommandView::Bug, after);
            lemma_ends_trans(before, mid, after, mid_vars, end_vars, calls, calls, calls);
            assert(ran(result, before, after));
        },
        None => {
            lemma_chain_wrong(flushed, range, before, mid);
        },
    }
}

// ---------------------------------------------------------------------------------------
// Statements
// ---------------------------------------------------------------------------------------
/// The translation of a conditional does what the conditional means.
pub proof fn lemma_if_correct(
    statement: IrIfStatement,
    g: GraphView,
    actions: Actions,
    before: Env,
    vars: Vars,
)
    requires
        g.wf(),
        if_calls(statement).subset_of(g.functions.dom()),
        implements(g, actions),
        agrees(before, vars),
    ensures
        ({
            let part = if_gcl(statement, g);
            does(
                part.graph,
                part.range,
                before,
                run_if(statement, vars, actions),
                actions.all_callees(if_calls(statement)),
            )
        }),
    decreases statement, 0nat,
{
    let calls = actions.all_callees(if_calls(statement));
    let end = g.nodes.len() as int;
    let ended = if_end_gcl(g);
    let cond = expr_gcl(statement.condition, ended);
    let then_part = statement_gcl(*statement.then_case, cond.graph);
    let else_part = match statement.else_case {
        Some(else_case) => Some(statement_gcl(*else_case, then_part.graph)),
        None => None,
    };
    let later = if_gcl(statement, g).graph;
    let end_node = node(g.fresh("if_end"@, 0), seq![]);
    lemma_grow_wf(g, seq![end_node], seq![], 1);
    lemma_expr_extends(statement.condition, ended);
    lemma_statement_extends(*statement.then_case, cond.graph);
    lemma_grows_keeps_code(g, ended);
    lemma_implements_kept(g, ended, actions);
    lemma_grows_keeps_code(ended, cond.graph);
    lemma_implements_kept(ended, cond.graph, actions);
    lemma_grows_keeps_code(cond.graph, then_part.graph);
    lemma_implements_kept(cond.graph, then_part.graph, actions);
    if let Some(else_case) = statement.else_case {
        lemma_statement_extends(*else_case, then_part.graph);
        lemma_grows_keeps_code(then_part.graph, else_part->0.graph);
    }
    lemma_branch_kept(ended, cond, then_part, else_part, end);
    assert(later.nodes[end].commands == Seq::<CommandView>::empty()) by {
        reveal(keeps_code);
        assert(ended.nodes[end] == end_node);
    }
    assert(later.has_node(end)) by {
        reveal(keeps_code);
    }

    let cond_end = eval_expr(statement.condition, vars, actions);
    let mid_vars = (cond_end->0).1;
    let cond_calls = actions.all_callees(expr_calls(statement.condition));
    lemma_callees_monotone(actions, expr_calls(statement.condition), if_calls(statement));
    lemma_expr_correct(statement.condition, ended, actions, before, vars);
    lemma_computes_kept(cond.graph, later, cond.range, cond.pred, before, cond_end, cond_calls);
    lemma_computes_widen(later, cond.range, cond.pred, before, cond_end, cond_calls, calls);

    let then_end = run_statement(*statement.then_case, mid_vars, actions);
    let then_calls = actions.all_callees(statement_calls(*statement.then_case));
    lemma_callees_monotone(actions, statement_calls(*statement.then_case), if_calls(statement));
    assert forall|env: Env| #[trigger] agrees(env, mid_vars) implies does(
        later,
        then_part.range,
        env,
        then_end,
        calls,
    ) by {
        lemma_statement_correct(*statement.then_case, cond.graph, actions, env, mid_vars);
        lemma_does_kept(then_part.graph, later, then_part.range, env, then_end, then_calls);
        lemma_does_widen(later, then_part.range, env, then_end, then_calls, calls);
    }

    let else_end = match statement.else_case {
        Some(else_case) => run_statement(*else_case, mid_vars, actions),
        None => Some(mid_vars),
    };
    if let Some(else_case) = statement.else_case {
        let last = else_part->0;
        let else_calls = actions.all_callees(statement_calls(*else_case));
        lemma_callees_monotone(actions, statement_calls(*else_case), if_calls(statement));
        assert forall|env: Env| #[trigger] agrees(env, mid_vars) implies does(
            later,
            last.range,
            env,
            else_end,
            calls,
        ) by {
            lemma_statement_correct(*else_case, then_part.graph, actions, env, mid_vars);
            lemma_does_kept(last.graph, later, last.range, env, else_end, else_calls);
            lemma_does_widen(later, last.range, env, else_end, else_calls, calls);
        }
    }
    lemma_branch_correct(
        cond,
        then_part,
        else_part,
        end,
        before,
        cond_end,
        then_end,
        else_end,
        calls,
    );
}

/// A conditional keeps the code of its condition and its branches.
proof fn lemma_branch_kept(
    ended: GraphView,
    cond: ValuePart,
    then_part: Part,
    else_part: Option<Part>,
    end: int,
)
    requires
        keeps_code(ended, cond.graph),
        keeps_code(cond.graph, then_part.graph),
        else_part matches Some(last) ==> keeps_code(then_part.graph, last.graph),
    ensures
        ({
            let later = branch_gcl(cond, then_part, else_part, end).graph;
            &&& keeps_code(ended, later)
            &&& keeps_code(cond.graph, later)
            &&& keeps_code(then_part.graph, later)
            &&& else_part matches Some(last) ==> keeps_code(last.graph, later)
        }),
{
    let later = branch_gcl(cond, then_part, else_part, end).graph;
    match else_part {
        Some(last) => {
            assert(keeps_code(last.graph, later)) by {
                reveal(keeps_code);
            }
            lemma_keeps_code_trans(then_part.graph, last.graph, later);
        },
        None => {
            assert(keeps_code(then_part.graph, later)) by {
                reveal(keeps_code);
            }
        },
    }
    lemma_keeps_code_trans(cond.graph, then_part.graph, later);
    lemma_keeps_code_trans(ended, cond.graph, later);
}

/// The translation of a statement does what the statement means: where the statement ends, a
/// run enters the new part and leaves it, and then the program's variables are what they
/// should be; where the statement goes wrong, the run comes to a bug.
pub proof fn lemma_statement_correct(
    statement: IrStatement,
    g: GraphView,
    actions: Actions,
    before: Env,
    vars: Vars,
)
    requires
        g.wf(),
        statement_calls(statement).subset_of(g.functions.dom()),
        implements(g, actions),
        agrees(before, vars),
    ensures
        ({
            let part = statement_gcl(statement, g);
            does(
                part.graph,
                part.range,
                before,
                run_statement(statement, vars, actions),
                actions.all_callees(statement_calls(statement)),
            )
        }),
    decreases statement, 0nat,
{
    match statement {
        IrStatement::Block(block) => {
            lemma_block_correct(block.0@, g, actions, before, vars);
        },
        IrStatement::If(if_statement) => {
            lemma_if_correct(if_statement, g, actions, before, vars);
        },
        IrStatement::Assignment(assignment) => {
            lemma_assignment_correct(assignment, g, actions, before, vars);
        },
        IrStatement::FunctionCall(call) => {
            assert(statement_calls(statement).contains(call.target));
            lemma_call_correct(call, g, actions, before, vars);
        },
    }
}

/// The translation of an element of a block does what the element means, as a command or with
/// nodes of its own.
pub proof fn lemma_element_correct(
    element: IrStatementOrDecl,
    g: GraphView,
    actions: Actions,
    before: Env,
    vars: Vars,
)
    requires
        g.wf(),
        element_calls(element).subset_of(g.functions.dom()),
        implements(g, actions),
        agrees(before, vars),
    ensures
        ({
            let (graph, output) = element_gcl(element, g);
            let end = run_element(element, vars, actions);
            let calls = actions.all_callees(element_calls(element));
            match output {
                Either::Left(command) => {
                    &&& end is Some
                    &&& run_command(command, before) matches Some(after) && ends_with(
                        before,
                        after,
                        end->0,
                        calls,
                    )
                },
                Either::Right(range) => does(graph, range, before, end, calls),
            }
        }),
    decreases element, 0nat,
{
    match element {
        IrStatementOrDecl::Statement(statement) => {
            lemma_statement_correct(statement, g, actions, before, vars);
        },
        IrStatementOrDecl::VariableDecl(decl) => {
            lemma_var_decl_correct(decl, g, actions, before, vars);
        },
        IrStatementOrDecl::Instantiation(instantiation) => {
            let calls = actions.all_callees(element_calls(element));
            lemma_ends_refl(before, vars, calls);
            lemma_ends_define(before, before, vars, calls, instantiation.id, true);
        },
    }
}

/// The first elements of a block do what they mean.
pub proof fn lemma_block_state_correct(
    elements: Seq<IrStatementOrDecl>,
    k: nat,
    g: GraphView,
    actions: Actions,
    before: Env,
    vars: Vars,
    calls: Set<FunctionId>,
)
    requires
        g.wf(),
        k <= elements.len(),
        block_calls(elements, k).subset_of(g.functions.dom()),
        actions.all_callees(block_calls(elements, k)).subset_of(calls),
        implements(g, actions),
        agrees(before, vars),
    ensures
        block_does(
            block_state(elements, k, g),
            before,
            run_elements(elements, k, vars, actions),
            calls,
        ),
    decreases elements, k,
{
    if k == 0 {
        let start = BlockState::start(g);
        lemma_run_few(CommandView::Bug, CommandView::Bug, CommandView::Bug, before);
        lemma_ends_refl(before, vars, calls);
        assert(ran(start, before, before));
    } else {
        let j = (k - 1) as nat;
        let element = elements[k - 1];
        let state = block_state(elements, j, g);
        let element_all = actions.all_callees(element_calls(element));
        lemma_callees_monotone(actions, block_calls(elements, j), block_calls(elements, k));
        lemma_callees_monotone(actions, element_calls(element), block_calls(elements, k));
        lemma_block_state_correct(elements, j, g, actions, before, vars, calls);
        lemma_block_state_extends(elements, j, g);
        lemma_grows_keeps_code(g, state.graph);
        lemma_implements_kept(g, state.graph, actions);
        lemma_element_extends(element, state.graph);
        let (later, output) = element_gcl(element, state.graph);
        lemma_absorb_extends(g, state, later, output);
        let moved = BlockState { graph: later, ..state };
        match run_elements(elements, j, vars, actions) {
            Some(mid_vars) => {
                let env = choose|env: Env|
                    {
                        &&& #[trigger] ran(state, before, env)
                        &&& run_commands(state.pending, env) matches Some(after) && ends_with(
                            before,
                            after,
                            mid_vars,
                            calls,
                        )
                    };
                let mid = run_commands(state.pending, env)->0;
                let end = run_element(element, mid_vars, actions);
                lemma_element_correct(element, state.graph, actions, mid, mid_vars);
                match output {
                    Either::Left(command) => {
                        let after = run_command(command, mid)->0;
                        lemma_absorb_command(state, command, before, env, mid, after);
                        lemma_ends_widen(mid, after, end->0, element_all, calls);
                        lemma_ends_trans(
                            before,
                            mid,
                            after,
                            mid_vars,
                            end->0,
                            calls,
                            calls,
                            calls,
                        );
                        assert(ran(moved.absorb(output), before, env));
                    },
                    Either::Right(range) => {
                        lemma_grows_keeps_code(state.graph, later);
                        if let Some(so_far) = state.range {
                            lemma_completes_kept(state.graph, later, so_far, before, env);
                        }
                        assert(ran(moved, before, env));
                        lemma_does_widen(later, range, mid, end, element_all, calls);
                        lemma_absorb_part(
                            moved,
                            range,
                            before,
                            env,
                            mid,
                            end,
                            calls,
                            mid_vars,
                        );
                    },
                }
            },
            None => {
                lemma_grows_refl(state.graph, state.graph);
                lemma_absorb_wrong(state, later, output, before);
            },
        }
    }
}

/// The translation of a block does what its elements mean, one after the other.
pub proof fn lemma_block_correct(
    elements: Seq<IrStatementOrDecl>,
    g: GraphView,
    actions: Actions,
    before: Env,
    vars: Vars,
)
    requires
        g.wf(),
        block_calls(elements, elements.len()).subset_of(g.functions.dom()),
        implements(g, actions),
        agrees(before, vars),
    ensures
        ({
            let part = block_gcl(elements, g);
            does(
                part.graph,
                part.range,
                before,
                run_elements(elements, elements.len(), vars, actions),
                actions.all_callees(block_calls(elements, elements.len())),
            )
        }),
    decreases elements, elements.len() + 1,
{
    let calls = actions.all_callees(block_calls(elements, elements.len()));
    let state = block_state(elements, elements.len(), g);
    let part = block_gcl(elements, g);
    lemma_block_state_correct(elements, elements.len(), g, actions, before, vars, calls);
    lemma_block_state_extends(elements, elements.len(), g);
    lemma_finish_extends(g, state);
    lemma_grows_keeps_code(state.graph, part.graph);
    match run_elements(elements, elements.len(), vars, actions) {
        Some(end_vars) => {
            let env = choose|env: Env|
                {
                    &&& #[trigger] ran(state, before, env)
                    &&& run_commands(state.pending, env) matches Some(after) && ends_with(
                        before,
                        after,
                        end_vars,
                        calls,
                    )
                };
            let after = run_commands(state.pending, env)->0;
            reveal(BlockState::finish);
            if state.pending.len() == 0 && state.range is Some {
                assert(state.pending =~= seq![]);
                lemma_run_few(CommandView::Bug, CommandView::Bug, CommandView::Bug, env);
            } else {
                lemma_flush_ran(state, before, env, after);
            }
            assert(completes(part.graph, part.range, before, after));
        },
        None => {
            reveal(BlockState::finish);
            let range = state.range->0;
            lemma_wrong_kept(
                state.graph,
                part.graph,
                State { node: range.start, env: before },
            );
        },
    }
}

} // verus!
