//! A translated program does nothing but what the program means.

use vstd::prelude::*;

use crate::gcl::RangeView;
use crate::graph::GraphView;
use crate::ir::{FunctionId, IrControlDecl, IrExpr, IrProgram, IrStatement};
use crate::meaning::declarations::{lemma_control_correct, no_recursion};
use crate::meaning::determinism::{
    dead_end, deterministic, functions_return, lemma_control_tidy, lemma_expr_neat, lemma_no_step,
    lemma_outcome_unique, lemma_statement_neat, lemma_steps_unique, tidy,
};
use crate::meaning::expressions::lemma_expr_correct;
use crate::meaning::programs::{
    any_actions, control_range, declare_controls, instantiate, is_last_control,
    lemma_program_correct, lemma_program_tidy, program_not_recursive, run_constants,
};
use crate::meaning::runs::{
    completes, eval, goes_wrong, reaches, reaches_in, run_node, steps, Env, State,
};
use crate::meaning::source::{
    agrees, declare_actions, does, ends_with, eval_expr, implements, run_control, run_statement,
    Actions, Vars,
};
use crate::meaning::statements::lemma_statement_correct;
use crate::translation::{
    block_calls, control_calls_known, control_elements, control_gcl, expr_calls, expr_gcl,
    has_constant, has_control, program_calls_known, program_gcl, program_state, statement_calls,
    statement_gcl,
};

verus! {

/// Whether a run from `start` can come to a node after which it cannot go on, with the variables
/// `after`.
pub open spec fn stops(g: GraphView, start: State, after: Env) -> bool {
    exists|last: State|
        {
            &&& #[trigger] reaches(g, start, last)
            &&& g.has_node(last.node)
            &&& run_node(g, last) == Some(after)
            &&& forall|next: State| !(#[trigger] steps(g, last, next))
        }
}

/// Whether a part of the graph has no outcome but what a part of the program means, from `before`
/// on: it goes wrong where the program does and only there, and where a run leaves the part, the
/// program's variables are as they are in the program. A run that cannot go on has left the part.
pub open spec fn only_does(
    g: GraphView,
    range: RangeView,
    before: Env,
    end: Option<Vars>,
) -> bool {
    &&& goes_wrong(g, State { node: range.start, env: before }) <==> end is None
    &&& (exists|after: Env| #[trigger] completes(g, range, before, after)) <==> end is Some
    &&& forall|after: Env| #[trigger]
        completes(g, range, before, after) ==> end is Some && agrees(after, end->0)
    &&& forall|after: Env| #[trigger]
        stops(g, State { node: range.start, env: before }, after) ==> completes(
            g,
            range,
            before,
            after,
        )
}

/// Two states in which a run from `a` cannot go on are the same.
pub proof fn lemma_last_same(g: GraphView, a: State, b: State, c: State, m: nat, n: nat)
    requires
        deterministic(g),
        reaches_in(g, a, b, m),
        reaches_in(g, a, c, n),
        forall|next: State| !(#[trigger] steps(g, b, next)),
        forall|next: State| !(#[trigger] steps(g, c, next)),
    ensures
        b == c,
    decreases m,
{
    if m == 0 {
        if n > 0 {
            let mid = choose|mid: State| #[trigger]
                steps(g, a, mid) && reaches_in(g, mid, c, (n - 1) as nat);
            assert(steps(g, b, mid));
        }
    } else {
        let mid = choose|mid: State| #[trigger]
            steps(g, a, mid) && reaches_in(g, mid, b, (m - 1) as nat);
        if n == 0 {
            assert(steps(g, c, mid));
        } else {
            let other = choose|other: State| #[trigger]
                steps(g, a, other) && reaches_in(g, other, c, (n - 1) as nat);
            lemma_steps_unique(g, a, mid, other);
            lemma_last_same(g, mid, b, c, (m - 1) as nat, (n - 1) as nat);
        }
    }
}

/// Where a run can leave a part or go wrong, it cannot stop anywhere else.
pub proof fn lemma_stops_at_end(
    g: GraphView,
    range: RangeView,
    before: Env,
    end: Option<Vars>,
    calls: Set<FunctionId>,
    after: Env,
)
    requires
        deterministic(g),
        dead_end(g, range.end),
        does(g, range, before, end, calls),
        stops(g, State { node: range.start, env: before }, after),
    ensures
        completes(g, range, before, after),
{
    let start = State { node: range.start, env: before };
    let last = choose|last: State|
        {
            &&& #[trigger] reaches(g, start, last)
            &&& g.has_node(last.node)
            &&& run_node(g, last) == Some(after)
            &&& forall|next: State| !(#[trigger] steps(g, last, next))
        };
    reveal(reaches);
    let n = choose|n: nat| #[trigger] reaches_in(g, start, last, n);
    if let Some(vars) = end {
        let known = choose|known: Env| #[trigger]
            completes(g, range, before, known) && ends_with(before, known, vars, calls);
        reveal(completes);
        let env = choose|env: Env|
            {
                &&& #[trigger] reaches(g, start, State { node: range.end, env })
                &&& g.has_node(range.end)
                &&& run_node(g, State { node: range.end, env }) == Some(known)
            };
        let left = State { node: range.end, env };
        let m = choose|m: nat| #[trigger] reaches_in(g, start, left, m);
        assert forall|next: State| !(#[trigger] steps(g, left, next)) by {
            lemma_no_step(g, left, next);
        }
        lemma_last_same(g, start, left, last, m, n);
    } else {
        reveal(goes_wrong);
        let bug = choose|bug: State|
            {
                &&& #[trigger] reaches(g, start, bug)
                &&& g.has_node(bug.node)
                &&& run_node(g, bug) is None
            };
        let m = choose|m: nat| #[trigger] reaches_in(g, start, bug, m);
        assert forall|next: State| !(#[trigger] steps(g, bug, next)) by {
            lemma_no_step(g, bug, next);
        }
        lemma_last_same(g, start, bug, last, m, n);
    }
}

/// What a part of the graph does is all that it does, when a run has no choice.
pub proof fn lemma_only_does(
    g: GraphView,
    range: RangeView,
    before: Env,
    end: Option<Vars>,
    calls: Set<FunctionId>,
)
    requires
        deterministic(g),
        dead_end(g, range.end),
        does(g, range, before, end, calls),
    ensures
        only_does(g, range, before, end),
{
    assert forall|after: Env| #[trigger]
        stops(g, State { node: range.start, env: before }, after) implies completes(
        g,
        range,
        before,
        after,
    ) by {
        lemma_stops_at_end(g, range, before, end, calls, after);
    }
    if let Some(vars) = end {
        let known = choose|after: Env| #[trigger]
            completes(g, range, before, after) && ends_with(before, after, vars, calls);
        lemma_outcome_unique(g, range, before, known, known);
        assert forall|after: Env| #[trigger] completes(g, range, before, after) implies agrees(
            after,
            vars,
        ) by {
            lemma_outcome_unique(g, range, before, known, after);
        }
    } else {
        assert forall|after: Env| !#[trigger] completes(g, range, before, after) by {
            if completes(g, range, before, after) {
                lemma_outcome_unique(g, range, before, after, after);
            }
        }
    }
}

/// The laws on tidy graphs hold of a new graph and what is translated into it: a new graph is
/// tidy, and it has no function that could do anything but what an action means.
pub proof fn lemma_empty_tidy(actions: Actions)
    ensures
        tidy(GraphView::empty()),
        implements(GraphView::empty(), actions),
{
    reveal(GraphView::wf);
    reveal(deterministic);
    reveal(functions_return);
    reveal(implements);
}

/// The translation of an expression has no outcome but what the expression means: it goes wrong
/// where the expression does and only there, and otherwise the predicate has the value of the
/// expression.
pub proof fn lemma_expr_outcome(
    expr: IrExpr,
    g: GraphView,
    actions: Actions,
    before: Env,
    vars: Vars,
)
    requires
        tidy(g),
        expr_calls(expr).subset_of(g.functions.dom()),
        implements(g, actions),
        agrees(before, vars),
    ensures
        ({
            let part = expr_gcl(expr, g);
            let end = eval_expr(expr, vars, actions);
            &&& only_does(
                part.graph,
                part.range,
                before,
                match end {
                    Some((_, end_vars)) => Some(end_vars),
                    None => None,
                },
            )
            &&& forall|after: Env| #[trigger]
                completes(part.graph, part.range, before, after) ==> eval(part.pred, after) == (
                end->0).0
        }),
{
    let part = expr_gcl(expr, g);
    let end = eval_expr(expr, vars, actions);
    let calls = actions.all_callees(expr_calls(expr));
    lemma_expr_correct(expr, g, actions, before, vars);
    lemma_expr_neat(expr, g);
    match end {
        Some((value, end_vars)) => {
            let known = choose|after: Env|
                {
                    &&& #[trigger] completes(part.graph, part.range, before, after)
                    &&& ends_with(before, after, end_vars, calls)
                    &&& eval(part.pred, after) == value
                };
            lemma_only_does(part.graph, part.range, before, Some(end_vars), calls);
            assert forall|after: Env| #[trigger]
                completes(part.graph, part.range, before, after) implies eval(part.pred, after)
                == value by {
                lemma_outcome_unique(part.graph, part.range, before, known, after);
            }
        },
        None => {
            lemma_only_does(part.graph, part.range, before, None, calls);
        },
    }
}

/// The translation of a statement has no outcome but what the statement means.
pub proof fn lemma_statement_outcome(
    statement: IrStatement,
    g: GraphView,
    actions: Actions,
    before: Env,
    vars: Vars,
)
    requires
        tidy(g),
        statement_calls(statement).subset_of(g.functions.dom()),
        implements(g, actions),
        agrees(before, vars),
    ensures
        only_does(
            statement_gcl(statement, g).graph,
            statement_gcl(statement, g).range,
            before,
            run_statement(statement, vars, actions),
        ),
{
    let part = statement_gcl(statement, g);
    lemma_statement_correct(statement, g, actions, before, vars);
    lemma_statement_neat(statement, g);
    lemma_only_does(
        part.graph,
        part.range,
        before,
        run_statement(statement, vars, actions),
        actions.all_callees(statement_calls(statement)),
    );
}

/// The translation of a control block has no outcome but what the control block means.
pub proof fn lemma_control_outcome(
    control: IrControlDecl,
    g: GraphView,
    actions: Actions,
    before: Env,
    vars: Vars,
)
    requires
        tidy(g),
        control_calls_known(control, g.functions.dom()),
        no_recursion(control.local_decls@, actions),
        implements(g, actions),
        agrees(before, vars),
    ensures
        only_does(
            control_gcl(control, g).graph,
            control_gcl(control, g).range,
            before,
            run_control(control, vars, actions),
        ),
{
    let part = control_gcl(control, g);
    let decls = control.local_decls@;
    let elements = control_elements(control);
    let declared = declare_actions(decls, decls.len(), actions);
    lemma_control_correct(control, g, actions, before, vars);
    lemma_control_tidy(control, g);
    lemma_only_does(
        part.graph,
        part.range,
        before,
        run_control(control, vars, actions),
        declared.all_callees(block_calls(elements, elements.len())),
    );
}

/// From the start node of a program without constants, the last control block runs, and there is
/// no other outcome.
pub proof fn lemma_program_control_outcome(
    program: IrProgram,
    g: GraphView,
    actions: Actions,
    before: Env,
    vars: Vars,
    i: int,
)
    requires
        tidy(g),
        program_calls_known(program, g.functions.dom()),
        program_not_recursive(program, actions),
        implements(g, actions),
        agrees(before, vars),
        !has_constant(program.declarations@, program.declarations@.len()),
        is_last_control(program.declarations@, i),
    ensures
        ({
            let decls = program.declarations@;
            only_does(
                program_gcl(program, g),
                RangeView {
                    start: g.nodes.len() as int,
                    end: control_range(decls, i, g).end,
                },
                before,
                run_control(
                    decls[i]->Control_0,
                    instantiate(decls, decls.len(), vars),
                    declare_controls(decls, i as nat, actions),
                ),
            )
        }),
{
    let decls = program.declarations@;
    lemma_program_correct(program, g, actions, before, vars);
    lemma_program_tidy(program, g);
    lemma_only_does(
        program_gcl(program, g),
        RangeView { start: g.nodes.len() as int, end: control_range(decls, i, g).end },
        before,
        run_control(
            decls[i]->Control_0,
            instantiate(decls, decls.len(), vars),
            declare_controls(decls, i as nat, actions),
        ),
        any_actions(),
    );
}

/// From the start node of a program without control blocks, the constants are declared, and there
/// is no other outcome.
pub proof fn lemma_program_constants_outcome(
    program: IrProgram,
    g: GraphView,
    actions: Actions,
    before: Env,
    vars: Vars,
)
    requires
        tidy(g),
        program_calls_known(program, g.functions.dom()),
        program_not_recursive(program, actions),
        implements(g, actions),
        agrees(before, vars),
        !has_control(program.declarations@, program.declarations@.len()),
    ensures
        ({
            let decls = program.declarations@;
            only_does(
                program_gcl(program, g),
                RangeView {
                    start: g.nodes.len() as int,
                    end: program_state(decls, decls.len(), g).end,
                },
                before,
                run_constants(decls, decls.len(), instantiate(decls, decls.len(), vars), actions),
            )
        }),
{
    let decls = program.declarations@;
    lemma_program_correct(program, g, actions, before, vars);
    lemma_program_tidy(program, g);
    lemma_only_does(
        program_gcl(program, g),
        RangeView {
            start: g.nodes.len() as int,
            end: program_state(decls, decls.len(), g).end,
        },
        before,
        run_constants(decls, decls.len(), instantiate(decls, decls.len(), vars), actions),
        any_actions(),
    );
}

} // verus!
