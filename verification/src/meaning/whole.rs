//! All that a translated program can do.
//!
//! From the start node a run either declares the constants or runs the last control block. It
//! does nothing else.

use vstd::prelude::*;

use crate::gcl::{CommandView, NodeIndex, NodeView, RangeView};
use crate::graph::GraphView;
use crate::growth::{
    lemma_control_grows, lemma_program_state_extends, lemma_program_steps, lemma_var_decl_extends,
};
use crate::ir::{FunctionId, IrDeclaration, IrProgram};
use crate::meaning::declarations::lemma_control_correct;
use crate::meaning::determinism::{
    dead_end, deterministic, lemma_no_step, lemma_replace_tidy, lemma_steps_unique, tidy,
};
use crate::meaning::distinct::{has_distinct_program_actions, lemma_distinct_program_not_recursive};
use crate::meaning::expressions::{lemma_does_kept, lemma_implements_kept};
use crate::meaning::names::lemma_held_vars;
use crate::meaning::outcomes::{lemma_empty_tidy, lemma_only_does, stops};
use crate::meaning::programs::{
    any_actions, control_range, decl_not_recursive, declare_controls, instantiate, is_apart,
    is_last_control, lemma_constants_correct, lemma_control_loose, lemma_instantiations_correct,
    lemma_last_control, lemma_last_control_loose, lemma_program_correct, lemma_program_ready,
    lemma_program_state_tidy, lemma_refilled_does, lemma_refilled_does_elsewhere,
    lemma_refilled_reaches_in, program_not_recursive, run_constants,
};
use crate::meaning::runs::{
    completes, goes_wrong, is_true, keeps_code, lemma_grows_keeps_code, lemma_wrong_intro, reaches,
    reaches_in, run_commands, run_node, steps, takes_edge, Env, State,
};
use crate::meaning::source::{
    agrees, declare_actions, does, ends_with, held_vars, implements, no_actions, performs,
    run_control, Actions, Vars,
};
use crate::meaning::statements::lemma_does_widen;
use crate::to_gcl::ToGcl;
use crate::translation::{
    always, block_calls, control_elements, decl_calls_known, program_calls_known, program_gcl,
    program_state, refilled, return_var,
};

verus! {

/// What the constants of a program mean, once its instantiations have been made.
pub open spec fn constants_end(program: IrProgram, vars: Vars, actions: Actions) -> Option<Vars> {
    let decls = program.declarations@;
    run_constants(decls, decls.len(), instantiate(decls, decls.len(), vars), actions)
}

/// What the control block `i` of a program means, once the instantiations of the program have
/// been made.
pub open spec fn control_end(
    program: IrProgram,
    i: int,
    vars: Vars,
    actions: Actions,
) -> Option<Vars> {
    let decls = program.declarations@;
    run_control(
        decls[i]->Control_0,
        instantiate(decls, decls.len(), vars),
        declare_controls(decls, i as nat, actions),
    )
}

/// Where there is a control block, there is a last one.
proof fn lemma_last_control_exists(decls: Seq<IrDeclaration>, i: int, k: nat)
    requires
        0 <= i < k <= decls.len(),
        decls[i] is Control,
        forall|j: int| k <= j < decls.len() ==> !(#[trigger] decls[j] is Control),
    ensures
        exists|l: int| #[trigger] is_last_control(decls, l),
    decreases k,
{
    if decls[k - 1] is Control {
        assert(is_last_control(decls, k - 1));
    } else {
        lemma_last_control_exists(decls, i, (k - 1) as nat);
    }
}

/// There is one last control block only.
pub proof fn lemma_last_control_unique(decls: Seq<IrDeclaration>, i: int, j: int)
    requires
        is_last_control(decls, i),
        is_last_control(decls, j),
    ensures
        i == j,
{
    if i < j {
        assert(!(decls[j] is Control));
    }
    if j < i {
        assert(!(decls[i] is Control));
    }
}

/// The node that is entered from the start node is that of the last control block.
proof fn lemma_control_entered(program: IrProgram, k: nat, g: GraphView)
    requires
        k <= program.declarations@.len(),
    ensures
        program_state(program.declarations@, k, g).control is Some <==> exists|i: int|
            0 <= i < k && #[trigger] program.declarations@[i] is Control,
    decreases k,
{
    let decls = program.declarations@;
    if k > 0 {
        let j = (k - 1) as nat;
        lemma_control_entered(program, j, g);
        if decls[k - 1] is Control {
            assert(decls[k - 1] is Control);
        } else if exists|i: int| 0 <= i < k && #[trigger] decls[i] is Control {
            let i = choose|i: int| 0 <= i < k && #[trigger] decls[i] is Control;
            assert(0 <= i < j && decls[i] is Control);
        } else {
            assert(!(exists|i: int| 0 <= i < j && #[trigger] decls[i] is Control)) by {
                if exists|i: int| 0 <= i < j && #[trigger] decls[i] is Control {
                    let i = choose|i: int| 0 <= i < j && #[trigger] decls[i] is Control;
                    assert(0 <= i < k && decls[i] is Control);
                }
            }
        }
    }
}

// ---------------------------------------------------------------------------------------
// Runs after the start node
// ---------------------------------------------------------------------------------------
/// Elsewhere a run goes on as if the start node led to nothing more.
proof fn lemma_steps_linked(g: GraphView, start: int, to: int, a: State, b: State)
    requires
        is_apart(g, start),
        a.node != start,
    ensures
        steps(g.link(start, to), a, b) <==> steps(g, a, b),
        steps(g, a, b) ==> b.node != start,
{
    let later = g.link(start, to);
    let e = g.edges.len() as int;
    if steps(later, a, b) {
        let i = choose|i: int| #[trigger] takes_edge(later, i, a, b);
        if i < e {
            assert(later.edges[i] == g.edges[i]);
            assert(takes_edge(g, i, a, b));
        } else {
            assert(later.edges[i] == always(start, to));
        }
    }
    if steps(g, a, b) {
        let i = choose|i: int| #[trigger] takes_edge(g, i, a, b);
        assert(later.edges[i] == g.edges[i]);
        assert(takes_edge(later, i, a, b));
        reveal(is_apart);
        assert(g.edges[i].to != start);
    }
}

proof fn lemma_reaches_in_linked(g: GraphView, start: int, to: int, a: State, b: State, n: nat)
    requires
        is_apart(g, start),
        a.node != start,
    ensures
        reaches_in(g.link(start, to), a, b, n) <==> reaches_in(g, a, b, n),
        reaches_in(g, a, b, n) ==> b.node != start,
    decreases n,
{
    let later = g.link(start, to);
    if n > 0 {
        let m = (n - 1) as nat;
        if reaches_in(later, a, b, n) {
            let mid = choose|mid: State| #[trigger] steps(later, a, mid) && reaches_in(
                later,
                mid,
                b,
                m,
            );
            lemma_steps_linked(g, start, to, a, mid);
            lemma_reaches_in_linked(g, start, to, mid, b, m);
            assert(steps(g, a, mid));
        }
        if reaches_in(g, a, b, n) {
            let mid = choose|mid: State| #[trigger] steps(g, a, mid) && reaches_in(g, mid, b, m);
            lemma_steps_linked(g, start, to, a, mid);
            lemma_reaches_in_linked(g, start, to, mid, b, m);
            assert(steps(later, a, mid));
        }
    }
}

/// A run from the start node goes where it went before, or enters the new target.
proof fn lemma_reaches_linked(
    g: GraphView,
    start: int,
    to: int,
    before: Env,
    ready: Env,
    b: State,
)
    requires
        is_apart(g, start),
        g.has_node(start),
        to != start,
        run_node(g, State { node: start, env: before }) == Some(ready),
        reaches(g.link(start, to), State { node: start, env: before }, b),
    ensures
        ({
            ||| b == (State { node: start, env: before })
            ||| b.node != start && reaches(g, State { node: start, env: before }, b)
            ||| b.node != start && reaches(g, State { node: to, env: ready }, b)
        }),
{
    let later = g.link(start, to);
    let a = State { node: start, env: before };
    let e = g.edges.len() as int;
    reveal(reaches);
    let n = choose|n: nat| #[trigger] reaches_in(later, a, b, n);
    if n > 0 {
        let m = (n - 1) as nat;
        let mid = choose|mid: State| #[trigger] steps(later, a, mid) && reaches_in(
            later,
            mid,
            b,
            m,
        );
        let i = choose|i: int| #[trigger] takes_edge(later, i, a, mid);
        if i < e {
            assert(later.edges[i] == g.edges[i]);
            assert(takes_edge(g, i, a, mid));
            assert(steps(g, a, mid));
            assert(mid.node != start) by {
                reveal(is_apart);
                assert(g.edges[i].to != start);
            }
            lemma_reaches_in_linked(g, start, to, mid, b, m);
            assert(reaches_in(g, a, b, n));
        } else {
            assert(later.edges[i] == always(start, to));
            assert(mid == (State { node: to, env: ready }));
            lemma_reaches_in_linked(g, start, to, mid, b, m);
            assert(reaches_in(g, mid, b, m));
        }
    }
}

// ---------------------------------------------------------------------------------------
// The law
// ---------------------------------------------------------------------------------------
/// What is known of a program without the edge to its last control block.
proof fn lemma_filled(
    program: IrProgram,
    g: GraphView,
    actions: Actions,
    before: Env,
    vars: Vars,
) -> (ready: Env)
    requires
        tidy(g),
        program_calls_known(program, g.functions.dom()),
        program_not_recursive(program, actions),
        implements(g, actions),
        agrees(before, vars),
    ensures
        ({
            let decls = program.declarations@;
            let start = g.nodes.len() as int;
            let state = program_state(decls, decls.len(), g);
            let filled = refilled(state.graph, start, state.commands);
            &&& filled.has_node(start)
            &&& filled.has_node(state.end)
            &&& deterministic(filled)
            &&& is_apart(filled, start)
            &&& dead_end(filled, state.end)
            &&& state.end == start <==> !(exists|d: int|
                0 <= d < decls.len() && #[trigger] decls[d] is Constant)
            &&& run_node(filled, State { node: start, env: before }) == Some(ready)
            &&& agrees(ready, instantiate(decls, decls.len(), vars))
            &&& does(
                filled,
                RangeView { start, end: state.end },
                before,
                constants_end(program, vars, actions),
                any_actions(),
            )
            &&& state.control is Some <==> exists|i: int| #[trigger] is_last_control(decls, i)
            &&& forall|i: int| #[trigger]
                is_last_control(decls, i) ==> {
                    let range = control_range(decls, i, g);
                    &&& state.control == Some(range.start)
                    &&& range.start != start
                    &&& range.end != start
                    &&& filled.has_node(range.start)
                    &&& dead_end(filled, range.end)
                    &&& does(
                        filled,
                        range,
                        ready,
                        control_end(program, i, vars, actions),
                        any_actions(),
                    )
                }
        }),
{
    let decls = program.declarations@;
    let start = g.nodes.len() as int;
    let state = program_state(decls, decls.len(), g);
    let filled = refilled(state.graph, start, state.commands);
    let later = instantiate(decls, decls.len(), vars);
    lemma_program_ready(program, decls.len(), g, actions);
    lemma_program_state_extends(program, decls.len(), g);
    lemma_program_state_tidy(program, decls.len(), g);
    lemma_replace_tidy(
        state.graph,
        start,
        NodeView { commands: state.commands, ..state.graph.nodes[start] },
    );
    lemma_instantiations_correct(decls, decls.len(), g, before, vars);
    let ready = run_commands(state.commands, before)->0;
    assert(is_apart(filled, start)) by {
        reveal(is_apart);
    }
    assert(dead_end(filled, state.end)) by {
        reveal(dead_end);
    }
    lemma_constants_correct(program, decls.len(), g, actions, ready, later);
    lemma_refilled_does(
        state.graph,
        start,
        state.commands,
        state.end,
        before,
        ready,
        later,
        constants_end(program, vars, actions),
        any_actions(),
    );
    lemma_constants_end(program, decls.len(), g);
    lemma_control_entered(program, decls.len(), g);
    if state.control is Some {
        let i = choose|i: int| 0 <= i < decls.len() && #[trigger] decls[i] is Control;
        lemma_last_control_exists(decls, i, decls.len());
    }
    assert forall|i: int| #[trigger] is_last_control(decls, i) implies {
        let range = control_range(decls, i, g);
        &&& state.control == Some(range.start)
        &&& range.start != start
        &&& range.end != start
        &&& filled.has_node(range.start)
        &&& dead_end(filled, range.end)
        &&& does(filled, range, ready, control_end(program, i, vars, actions), any_actions())
    } by {
        assert(decls[i] is Control);
        lemma_control_filled(program, g, actions, ready, later, i);
    }
    ready
}

/// The last control block of a program without the edge to it.
proof fn lemma_control_filled(
    program: IrProgram,
    g: GraphView,
    actions: Actions,
    ready: Env,
    later: Vars,
    i: int,
)
    requires
        g.wf(),
        program_calls_known(program, g.functions.dom()),
        program_not_recursive(program, actions),
        implements(g, actions),
        agrees(ready, later),
        is_last_control(program.declarations@, i),
    ensures
        ({
            let decls = program.declarations@;
            let start = g.nodes.len() as int;
            let state = program_state(decls, decls.len(), g);
            let filled = refilled(state.graph, start, state.commands);
            let range = control_range(decls, i, g);
            &&& state.control == Some(range.start)
            &&& range.start != start
            &&& range.end != start
            &&& filled.has_node(range.start)
            &&& dead_end(filled, range.end)
            &&& does(
                filled,
                range,
                ready,
                run_control(
                    decls[i]->Control_0,
                    later,
                    declare_controls(decls, i as nat, actions),
                ),
                any_actions(),
            )
        }),
{
    let decls = program.declarations@;
    let start = g.nodes.len() as int;
    let state = program_state(decls, decls.len(), g);
    let filled = refilled(state.graph, start, state.commands);
    let first = program_state(decls, i as nat, g);
    let next = program_state(decls, (i + 1) as nat, g);
    let known = declare_controls(decls, i as nat, actions);
    let control = decls[i]->Control_0;
    let range = control_range(decls, i, g);
    let end = run_control(control, later, known);
    lemma_program_ready(program, i as nat, g, actions);
    lemma_program_ready(program, decls.len(), g, actions);
    lemma_program_state_extends(program, i as nat, g);
    lemma_program_state_extends(program, decls.len(), g);
    lemma_program_steps(program, (i + 1) as nat, g);
    lemma_last_control(program, decls.len(), g, i);
    lemma_last_control_loose(program, decls.len(), g, i);
    assert(decl_calls_known(decls, i, g.functions.dom()));
    assert(decl_not_recursive(decls, i, actions));
    lemma_control_correct(control, first.graph, known, ready, later);
    lemma_control_grows(control, first.graph);
    lemma_control_loose(control, first.graph);
    let elements = control_elements(control);
    let declared = declare_actions(control.local_decls@, control.local_decls@.len(), known);
    lemma_does_widen(
        next.graph,
        range,
        ready,
        end,
        declared.all_callees(block_calls(elements, elements.len())),
        any_actions(),
    );
    lemma_grows_keeps_code(next.graph, state.graph);
    lemma_does_kept(next.graph, state.graph, range, ready, end, any_actions());
    lemma_refilled_does_elsewhere(state.graph, start, state.commands, range, ready, end);
    assert(dead_end(filled, range.end)) by {
        reveal(dead_end);
    }
}

/// The constants end at the start node where there are none.
proof fn lemma_constants_end(program: IrProgram, k: nat, g: GraphView)
    requires
        g.wf(),
        k <= program.declarations@.len(),
        program_calls_known(program, g.functions.dom()),
    ensures
        program_state(program.declarations@, k, g).end == g.nodes.len() <==> !(exists|d: int|
            0 <= d < k && #[trigger] program.declarations@[d] is Constant),
    decreases k,
{
    let decls = program.declarations@;
    if k > 0 {
        let j = (k - 1) as nat;
        let state = program_state(decls, j, g);
        lemma_constants_end(program, j, g);
        lemma_program_state_extends(program, j, g);
        assert(decl_calls_known(decls, k - 1, g.functions.dom()));
        if let IrDeclaration::Constant(constant) = decls[k - 1] {
            lemma_var_decl_extends(constant, state.graph);
            assert(decls[k - 1] is Constant);
        } else if exists|d: int| 0 <= d < k && #[trigger] decls[d] is Constant {
            let d = choose|d: int| 0 <= d < k && #[trigger] decls[d] is Constant;
            assert(0 <= d < j && decls[d] is Constant);
        } else if exists|d: int| 0 <= d < j && #[trigger] decls[d] is Constant {
            let d = choose|d: int| 0 <= d < j && #[trigger] decls[d] is Constant;
            assert(0 <= d < k && decls[d] is Constant);
        }
    }
}

/// Whether a run that has stopped with `after` has declared the constants of a program.
pub open spec fn declares_constants(
    program: IrProgram,
    vars: Vars,
    actions: Actions,
    after: Env,
) -> bool {
    constants_end(program, vars, actions) matches Some(end) && agrees(after, end)
}

/// Whether a run that has stopped with `after` has run the control block `i` of a program.
pub open spec fn runs_control(
    program: IrProgram,
    i: int,
    vars: Vars,
    actions: Actions,
    after: Env,
) -> bool {
    control_end(program, i, vars, actions) matches Some(end) && agrees(after, end)
}

/// A run elsewhere stops or goes wrong alike with and without the edge from the start node.
proof fn lemma_alone_linked(g: GraphView, start: int, to: int, last: State)
    requires
        is_apart(g, start),
        last.node != start,
    ensures
        run_node(g.link(start, to), last) == run_node(g, last),
        g.link(start, to).has_node(last.node) == g.has_node(last.node),
        (forall|next: State| !(#[trigger] steps(g.link(start, to), last, next))) <==> (forall|
            next: State,
        | !(#[trigger] steps(g, last, next))),
{
    let later = g.link(start, to);
    assert(later.nodes =~= g.nodes);
    assert forall|next: State| (#[trigger] steps(later, last, next)) <==> steps(g, last, next) by {
        lemma_steps_linked(g, start, to, last, next);
    }
    if forall|next: State| !(#[trigger] steps(later, last, next)) {
        assert forall|next: State| !(#[trigger] steps(g, last, next)) by {
            assert(!steps(later, last, next));
        }
    }
    if forall|next: State| !(#[trigger] steps(g, last, next)) {
        assert forall|next: State| !(#[trigger] steps(later, last, next)) by {
            assert(!steps(g, last, next));
        }
    }
}

/// Where a part goes wrong alone, so does what it means.
proof fn lemma_wrong_alone(
    g: GraphView,
    range: RangeView,
    before: Env,
    end: Option<Vars>,
    bug: State,
)
    requires
        deterministic(g),
        dead_end(g, range.end),
        does(g, range, before, end, any_actions()),
        reaches(g, State { node: range.start, env: before }, bug),
        g.has_node(bug.node),
        run_node(g, bug) is None,
    ensures
        end is None,
{
    lemma_wrong_intro(g, State { node: range.start, env: before }, bug);
    lemma_only_does(g, range, before, end, any_actions());
}

/// Where a part stops alone, it has done what it means.
proof fn lemma_stops_alone(
    g: GraphView,
    range: RangeView,
    before: Env,
    end: Option<Vars>,
    last: State,
    after: Env,
)
    requires
        deterministic(g),
        dead_end(g, range.end),
        does(g, range, before, end, any_actions()),
        reaches(g, State { node: range.start, env: before }, last),
        g.has_node(last.node),
        run_node(g, last) == Some(after),
        forall|next: State| !(#[trigger] steps(g, last, next)),
    ensures
        end matches Some(vars) && agrees(after, vars),
{
    assert(stops(g, State { node: range.start, env: before }, after));
    lemma_only_does(g, range, before, end, any_actions());
}

/// Where a part can be left at a dead end, a run can stop.
proof fn lemma_does_stops(g: GraphView, range: RangeView, before: Env, vars: Vars)
    requires
        dead_end(g, range.end),
        does(g, range, before, Some(vars), any_actions()),
    ensures
        exists|after: Env| #[trigger]
            stops(g, State { node: range.start, env: before }, after) && agrees(after, vars),
{
    let start = State { node: range.start, env: before };
    let after = choose|after: Env| #[trigger]
        completes(g, range, before, after) && ends_with(before, after, vars, any_actions());
    reveal(completes);
    let env = choose|env: Env|
        {
            &&& #[trigger] reaches(g, start, State { node: range.end, env })
            &&& g.has_node(range.end)
            &&& run_node(g, State { node: range.end, env }) == Some(after)
        };
    let last = State { node: range.end, env };
    assert forall|next: State| !(#[trigger] steps(g, last, next)) by {
        lemma_no_step(g, last, next);
    }
    assert(reaches(g, start, last));
    assert(stops(g, start, after));
}

/// What a run from the start node comes to.
proof fn lemma_program_reaches(
    program: IrProgram,
    g: GraphView,
    actions: Actions,
    before: Env,
    vars: Vars,
    last: State,
)
    requires
        tidy(g),
        program_calls_known(program, g.functions.dom()),
        program_not_recursive(program, actions),
        implements(g, actions),
        agrees(before, vars),
        reaches(
            program_gcl(program, g),
            State { node: g.nodes.len() as int, env: before },
            last,
        ),
    ensures
        ({
            let decls = program.declarations@;
            let later = program_gcl(program, g);
            &&& later.has_node(last.node) && run_node(later, last) is None
                ==> constants_end(program, vars, actions) is None || exists|i: int| #[trigger]
                is_last_control(decls, i) && control_end(program, i, vars, actions) is None
            &&& later.has_node(last.node) && run_node(later, last) is Some && (forall|next: State|
                !(#[trigger] steps(later, last, next))) ==> {
                let after = run_node(later, last)->0;
                ||| declares_constants(program, vars, actions, after) && ((exists|d: int|
                    0 <= d < decls.len() && #[trigger] decls[d] is Constant) || !(exists|i: int|
                     #[trigger]
                    is_last_control(decls, i)))
                ||| exists|i: int| #[trigger]
                    is_last_control(decls, i) && runs_control(program, i, vars, actions, after)
            }
            &&& last.node != g.nodes.len() ==> forall|b: State, c: State|
                #![trigger steps(later, last, b), steps(later, last, c)]
                steps(later, last, b) && steps(later, last, c) ==> b == c
        }),
{
    let decls = program.declarations@;
    let later = program_gcl(program, g);
    let start = g.nodes.len() as int;
    let first = State { node: start, env: before };
    let state = program_state(decls, decls.len(), g);
    let filled = refilled(state.graph, start, state.commands);
    let ready = lemma_filled(program, g, actions, before, vars);
    let constants = RangeView { start, end: state.end };
    let end = constants_end(program, vars, actions);
    match state.control {
        Some(control) => {
            let i = choose|i: int| #[trigger] is_last_control(decls, i);
            let range = control_range(decls, i, g);
            let control_does = control_end(program, i, vars, actions);
            lemma_reaches_linked(filled, start, control, before, ready, last);
            if last.node != start {
                lemma_alone_linked(filled, start, control, last);
                assert forall|b: State, c: State|
                    #![trigger steps(later, last, b), steps(later, last, c)]
                    steps(later, last, b) && steps(later, last, c) implies b == c by {
                    lemma_steps_linked(filled, start, control, last, b);
                    lemma_steps_linked(filled, start, control, last, c);
                    lemma_steps_unique(filled, last, b, c);
                }
            }
            if last == first {
                let e = filled.edges.len() as int;
                assert(later.nodes =~= filled.nodes);
                assert(later.edges[e] == always(start, control));
                let next = State { node: control, env: ready };
                assert(takes_edge(later, e, first, next));
                assert(steps(later, first, next));
            } else if reaches(filled, first, last) {
                if state.end == start {
                    lemma_nowhere(filled, first, last);
                }
                if filled.has_node(last.node) {
                    if run_node(filled, last) is None {
                        lemma_wrong_alone(filled, constants, before, end, last);
                    } else if forall|next: State| !(#[trigger] steps(filled, last, next)) {
                        let after = run_node(filled, last)->0;
                        lemma_stops_alone(filled, constants, before, end, last, after);
                    }
                }
            } else {
                assert(reaches(filled, State { node: control, env: ready }, last));
                if filled.has_node(last.node) {
                    if run_node(filled, last) is None {
                        lemma_wrong_alone(filled, range, ready, control_does, last);
                    } else if forall|next: State| !(#[trigger] steps(filled, last, next)) {
                        let after = run_node(filled, last)->0;
                        lemma_stops_alone(filled, range, ready, control_does, last, after);
                        assert(runs_control(program, i, vars, actions, after));
                    }
                }
            }
        },
        None => {
            assert forall|b: State, c: State|
                #![trigger steps(later, last, b), steps(later, last, c)]
                steps(later, last, b) && steps(later, last, c) implies b == c by {
                lemma_steps_unique(filled, last, b, c);
            }
            if filled.has_node(last.node) {
                if run_node(filled, last) is None {
                    lemma_wrong_alone(filled, constants, before, end, last);
                } else if forall|next: State| !(#[trigger] steps(filled, last, next)) {
                    let after = run_node(filled, last)->0;
                    lemma_stops_alone(filled, constants, before, end, last, after);
                }
            }
        },
    }
}

/// A run does not leave a dead end.
proof fn lemma_nowhere(g: GraphView, a: State, b: State)
    requires
        dead_end(g, a.node),
        reaches(g, a, b),
    ensures
        a == b,
{
    reveal(reaches);
    let n = choose|n: nat| #[trigger] reaches_in(g, a, b, n);
    if n > 0 {
        let mid = choose|mid: State| #[trigger]
            steps(g, a, mid) && reaches_in(g, mid, b, (n - 1) as nat);
        lemma_no_step(g, a, mid);
    }
}

/// Whether a graph does from `node` on what a program means, and nothing else.
///
/// - A run can go wrong where the constants go wrong or the last control block does, and only
///   there.
/// - A run that stops has declared the constants, or has run the last control block. Without
///   constants it is the control block, if there is one; without control blocks it is the
/// constants.
/// - Both can happen, where the program has both and they do not go wrong.
/// - Once the start node has been left, there is no choice any more.
pub open spec fn does_program(
    later: GraphView,
    node: int,
    program: IrProgram,
    actions: Actions,
    before: Env,
    vars: Vars,
) -> bool {
    let decls = program.declarations@;
    let start = State { node: node, env: before };
    let has_constants = exists|d: int|
        0 <= d < decls.len() && #[trigger] decls[d] is Constant;
    let has_controls = exists|d: int|
        0 <= d < decls.len() && #[trigger] decls[d] is Control;
    &&& goes_wrong(later, start) <==> constants_end(program, vars, actions) is None
        || exists|i: int| #[trigger]
        is_last_control(decls, i) && control_end(program, i, vars, actions) is None
    &&& forall|after: Env| #[trigger]
        stops(later, start, after) ==> {
            ||| declares_constants(program, vars, actions, after) && (has_constants
                || !has_controls)
            ||| exists|i: int| #[trigger]
                is_last_control(decls, i) && runs_control(program, i, vars, actions, after)
        }
    &&& (has_constants || !has_controls) && constants_end(program, vars, actions) is Some
        ==> exists|after: Env| #[trigger]
        stops(later, start, after) && declares_constants(program, vars, actions, after)
    &&& forall|i: int| #[trigger]
        is_last_control(decls, i) && control_end(program, i, vars, actions) is Some
            ==> exists|after: Env| #[trigger]
            stops(later, start, after) && runs_control(program, i, vars, actions, after)
    &&& forall|a: State, b: State, c: State|
        #![trigger reaches(later, start, a), steps(later, a, b), steps(later, a, c)]
        reaches(later, start, a) && a.node != node && steps(later, a, b) && steps(
            later,
            a,
            c,
        ) ==> b == c
}

/// The translation of a program does what the program means and nothing else, from the node that
/// it gives on.
pub proof fn lemma_program_outcomes(
    program: IrProgram,
    g: GraphView,
    later: GraphView,
    output: NodeIndex,
    actions: Actions,
    before: Env,
    vars: Vars,
)
    requires
        tidy(g),
        program_calls_known(program, g.functions.dom()),
        program_not_recursive(program, actions),
        implements(g, actions),
        agrees(before, vars),
        program.translates(g, later, output),
    ensures
        does_program(later, output@, program, actions, before, vars),
{
    let decls = program.declarations@;
    let n = g.nodes.len() as int;
    let start = State { node: n, env: before };
    let state = program_state(decls, decls.len(), g);
    let filled = refilled(state.graph, n, state.commands);
    let ready = lemma_filled(program, g, actions, before, vars);
    let end = constants_end(program, vars, actions);
    lemma_program_correct(program, g, actions, before, vars);
    lemma_has_control(decls);
    if let Some(control) = state.control {
        assert(later.edges =~= filled.edges.push(always(n, control)));
        assert(later.nodes =~= filled.nodes);
    }
    if goes_wrong(later, start) {
        reveal(goes_wrong);
        let bug = choose|bug: State|
            {
                &&& #[trigger] reaches(later, start, bug)
                &&& later.has_node(bug.node)
                &&& run_node(later, bug) is None
            };
        lemma_program_reaches(program, g, actions, before, vars, bug);
    }
    assert forall|after: Env| #[trigger] stops(later, start, after) implies {
        ||| declares_constants(program, vars, actions, after) && ((exists|d: int|
            0 <= d < decls.len() && #[trigger] decls[d] is Constant) || !(exists|d: int|
            0 <= d < decls.len() && #[trigger] decls[d] is Control))
        ||| exists|i: int| #[trigger]
            is_last_control(decls, i) && runs_control(program, i, vars, actions, after)
    } by {
        let last = choose|last: State|
            {
                &&& #[trigger] reaches(later, start, last)
                &&& later.has_node(last.node)
                &&& run_node(later, last) == Some(after)
                &&& forall|next: State| !(#[trigger] steps(later, last, next))
            };
        lemma_program_reaches(program, g, actions, before, vars, last);
    }
    if ((exists|d: int| 0 <= d < decls.len() && #[trigger] decls[d] is Constant) || !(exists|d: int|
        0 <= d < decls.len() && #[trigger] decls[d] is Control)) && end is Some {
        assert(dead_end(later, state.end)) by {
            reveal(dead_end);
        }
        lemma_does_stops(later, RangeView { start: n, end: state.end }, before, end->0);
        let after = choose|after: Env| #[trigger]
            stops(later, start, after) && agrees(after, end->0);
        assert(declares_constants(program, vars, actions, after));
    }
    assert forall|i: int| #[trigger]
        is_last_control(decls, i) && control_end(program, i, vars, actions) is Some implies exists|
        after: Env,
    | #[trigger] stops(later, start, after) && runs_control(program, i, vars, actions, after) by {
        let range = control_range(decls, i, g);
        let control_vars = control_end(program, i, vars, actions)->0;
        assert(dead_end(later, range.end)) by {
            reveal(dead_end);
        }
        lemma_does_stops(later, RangeView { start: n, end: range.end }, before, control_vars);
        let after = choose|after: Env| #[trigger]
            stops(later, start, after) && agrees(after, control_vars);
        assert(runs_control(program, i, vars, actions, after));
    }
    assert forall|a: State, b: State, c: State|
        #![trigger reaches(later, start, a), steps(later, a, b), steps(later, a, c)]
        reaches(later, start, a) && a.node != n && steps(later, a, b) && steps(
            later,
            a,
            c,
        ) implies b == c by {
        lemma_program_reaches(program, g, actions, before, vars, a);
    }
}

/// Where there is a control block, there is a last one, and the other way round.
proof fn lemma_has_control(decls: Seq<IrDeclaration>)
    ensures
        (exists|d: int| 0 <= d < decls.len() && #[trigger] decls[d] is Control) <==> (exists|
            i: int,
        | #[trigger] is_last_control(decls, i)),
{
    if exists|d: int| 0 <= d < decls.len() && #[trigger] decls[d] is Control {
        let d = choose|d: int| 0 <= d < decls.len() && #[trigger] decls[d] is Control;
        lemma_last_control_exists(decls, d, decls.len());
    }
    if exists|i: int| #[trigger] is_last_control(decls, i) {
        let i = choose|i: int| #[trigger] is_last_control(decls, i);
        assert(0 <= i < decls.len() && decls[i] is Control);
    }
}

/// The translation of a program into a new graph does what the program means and nothing else,
/// whatever the variables hold: when its calls are known and its actions have numbers of their
/// own.
pub proof fn lemma_new_program_outcomes(
    program: IrProgram,
    later: GraphView,
    output: NodeIndex,
    before: Env,
)
    requires
        program_calls_known(program, GraphView::empty().functions.dom()),
        has_distinct_program_actions(program.declarations@, Set::empty()),
        program.translates(GraphView::empty(), later, output),
    ensures
        does_program(later, output@, program, no_actions(), before, held_vars(before)),
{
    let g = GraphView::empty();
    assert(g.functions.dom() =~= Set::empty());
    lemma_distinct_program_not_recursive(program, g.functions.dom(), no_actions());
    lemma_empty_tidy(no_actions());
    lemma_held_vars(before);
    lemma_program_outcomes(program, g, later, output, no_actions(), before, held_vars(before));
}

/// A function does not pass the start node, so it does what it did when the start node gets
/// commands.
proof fn lemma_performs_refilled(
    g: GraphView,
    start: int,
    commands: Seq<CommandView>,
    id: FunctionId,
    before: Env,
    vars: Vars,
    actions: Actions,
)
    requires
        is_apart(g, start),
        g.has_node(start),
        g.functions.dom().contains(id),
        performs(g, id, before, vars, actions),
    ensures
        performs(refilled(g, start, commands), id, before, vars, actions),
{
    let later = refilled(g, start, commands);
    let range = g.functions[id];
    let a = State { node: range.start, env: before };
    assert(range.start != start) by {
        reveal(is_apart);
    }
    match (actions.call)(id, vars) {
        Some(end) => {
            let after = choose|after: Env|
                {
                    &&& #[trigger] completes(g, g.functions[id], before, after)
                    &&& ends_with(before, after, end, (actions.callees)(id))
                    &&& is_true(after[return_var()])
                };
            reveal(completes);
            let env = choose|env: Env|
                {
                    &&& #[trigger] reaches(g, a, State { node: range.end, env })
                    &&& g.has_node(range.end)
                    &&& run_node(g, State { node: range.end, env }) == Some(after)
                };
            let last = State { node: range.end, env };
            reveal(reaches);
            let n = choose|n: nat| #[trigger] reaches_in(g, a, last, n);
            lemma_refilled_reaches_in(g, start, commands, a, last, n);
            assert(reaches(later, a, last));
            assert(run_node(later, last) == Some(after));
            assert(completes(later, later.functions[id], before, after));
        },
        None => {
            reveal(goes_wrong);
            let bug = choose|bug: State|
                {
                    &&& #[trigger] reaches(g, a, bug)
                    &&& g.has_node(bug.node)
                    &&& run_node(g, bug) is None
                };
            reveal(reaches);
            let n = choose|n: nat| #[trigger] reaches_in(g, a, bug, n);
            lemma_refilled_reaches_in(g, start, commands, a, bug, n);
            assert(reaches(later, a, bug));
        },
    }
}

/// Once a program has been translated, the functions of the graph do what the actions mean, those
/// of the program and those before.
pub proof fn lemma_program_implements(
    program: IrProgram,
    g: GraphView,
    later: GraphView,
    output: NodeIndex,
    actions: Actions,
)
    requires
        g.wf(),
        program_calls_known(program, g.functions.dom()),
        program_not_recursive(program, actions),
        implements(g, actions),
        program.translates(g, later, output),
    ensures
        implements(
            later,
            declare_controls(program.declarations@, program.declarations@.len(), actions),
        ),
{
    let decls = program.declarations@;
    let start = g.nodes.len() as int;
    let state = program_state(decls, decls.len(), g);
    let filled = refilled(state.graph, start, state.commands);
    let known = declare_controls(decls, decls.len(), actions);
    lemma_program_ready(program, decls.len(), g, actions);
    assert(implements(filled, known)) by {
        reveal(implements);
        assert forall|id: FunctionId| #[trigger] filled.functions.dom().contains(id) implies {
            &&& !(known.callees)(id).contains(id)
            &&& forall|before: Env, vars: Vars| #[trigger]
                agrees(before, vars) ==> performs(filled, id, before, vars, known)
        } by {
            assert(state.graph.functions.dom().contains(id));
            assert forall|before: Env, vars: Vars| #[trigger]
                agrees(before, vars) implies performs(filled, id, before, vars, known) by {
                lemma_performs_refilled(
                    state.graph,
                    start,
                    state.commands,
                    id,
                    before,
                    vars,
                    known,
                );
            }
        }
    }
    assert(keeps_code(filled, later)) by {
        reveal(keeps_code);
    }
    lemma_implements_kept(filled, later, known);
}

} // verus!
