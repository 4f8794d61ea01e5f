//! The translation of a program does what the program means.

use vstd::prelude::*;

use crate::gcl::{CommandView, NodeView, RangeView};
use crate::graph::GraphView;
use crate::growth::{
    lemma_actions_grow, lemma_block_extends, lemma_control_grows, lemma_grow_wf, lemma_grows_trans,
    lemma_program_state_extends, lemma_program_steps, lemma_var_decl_extends,
};
use crate::ir::{FunctionId, IrControlDecl, IrControlLocalDecl, IrDeclaration, IrProgram};
use crate::meaning::declarations::{lemma_control_correct, lemma_control_implements, no_recursion};
use crate::meaning::determinism::{
    confined, dead_end, is_function_end, is_function_start, lemma_action_neat, lemma_actions_tidy,
    lemma_block_neat, lemma_confined_refl, lemma_control_tidy, lemma_dead_end_grow,
    lemma_new_is_no_end, lemma_replace_tidy, lemma_single_neat, lemma_tidy_grow,
    lemma_var_decl_neat, tidy,
};
use crate::meaning::expressions::{lemma_does_kept, lemma_implements_kept};
use crate::meaning::names::{lemma_ends_define, lemma_ends_refl, lemma_ends_trans};
use crate::meaning::runs::{
    completes, goes_wrong, keeps_code, lemma_completes_after, lemma_completes_intro,
    lemma_completes_kept, lemma_completes_then, lemma_grows_keeps_code, lemma_reaches_refl,
    lemma_run_few, lemma_run_push, lemma_wrong_after, reaches, reaches_in, run_commands, run_node,
    steps, takes_edge, Env, State,
};
use crate::meaning::source::{
    agrees, declare_actions, does, ends_with, implements, run_control, run_var_decl, Actions, Vars,
};
use crate::meaning::statements::{lemma_does_widen, lemma_var_decl_correct};
use crate::translation::{
    action_gcl, actions_calls_known, actions_gcl, always, block_calls, block_gcl,
    control_calls_known, control_elements, control_gcl, decl_calls_known, has_constant, has_control,
    instantiation_gcl, local_calls_known, node, program_calls_known, program_gcl, program_state,
    refilled, var_decl_calls, var_decl_gcl,
};

verus! {

// ---------------------------------------------------------------------------------------
// What a program means
// ---------------------------------------------------------------------------------------
/// The variables after the first `k` declarations have been looked at for instantiations.
pub open spec fn instantiate(decls: Seq<IrDeclaration>, k: nat, vars: Vars) -> Vars
    decreases k,
{
    if k == 0 || k > decls.len() {
        vars
    } else {
        let before = instantiate(decls, (k - 1) as nat, vars);
        match decls[k - 1] {
            IrDeclaration::Instantiation(instantiation) => Vars {
                defined: before.defined.insert(instantiation.id),
                ..before
            },
            _ => before,
        }
    }
}

/// The actions after the first `k` declarations.
pub open spec fn declare_controls(decls: Seq<IrDeclaration>, k: nat, actions: Actions) -> Actions
    decreases k,
{
    if k == 0 || k > decls.len() {
        actions
    } else {
        let before = declare_controls(decls, (k - 1) as nat, actions);
        match decls[k - 1] {
            IrDeclaration::Control(control) => declare_actions(
                control.local_decls@,
                control.local_decls@.len(),
                before,
            ),
            _ => before,
        }
    }
}

/// The variables after the constants among the first `k` declarations.
pub open spec fn run_constants(
    decls: Seq<IrDeclaration>,
    k: nat,
    vars: Vars,
    actions: Actions,
) -> Option<Vars>
    decreases k,
{
    if k == 0 || k > decls.len() {
        Some(vars)
    } else {
        let j = (k - 1) as nat;
        match run_constants(decls, j, vars, actions) {
            None => None,
            Some(before) => match decls[k - 1] {
                IrDeclaration::Constant(constant) => run_var_decl(
                    constant,
                    before,
                    declare_controls(decls, j, actions),
                ),
                _ => Some(before),
            },
        }
    }
}

/// Whether no action of the control block `i`, if it is one, calls itself.
pub open spec fn decl_not_recursive(
    decls: Seq<IrDeclaration>,
    i: int,
    actions: Actions,
) -> bool {
    match decls[i] {
        IrDeclaration::Control(control) => no_recursion(
            control.local_decls@,
            declare_controls(decls, i as nat, actions),
        ),
        _ => true,
    }
}

/// Whether no action of a program calls itself, be it through others.
pub open spec fn program_not_recursive(program: IrProgram, actions: Actions) -> bool {
    forall|i: int|
        0 <= i < program.declarations@.len() ==> #[trigger] decl_not_recursive(
            program.declarations@,
            i,
            actions,
        )
}

/// Whether `i` is the last control block of a program.
pub open spec fn is_last_control(decls: Seq<IrDeclaration>, i: int) -> bool {
    &&& 0 <= i < decls.len()
    &&& decls[i] is Control
    &&& forall|j: int| i < j < decls.len() ==> !(#[trigger] decls[j] is Control)
}

// ---------------------------------------------------------------------------------------
// Control blocks leave other nodes alone
// ---------------------------------------------------------------------------------------
/// Whether each function of `later` is one of `g`, or has new ends.
#[verifier::opaque]
pub open spec fn functions_new(g: GraphView, later: GraphView) -> bool {
    forall|id: FunctionId| #[trigger]
        later.functions.dom().contains(id) ==> {
            ||| g.functions.dom().contains(id) && later.functions[id] == g.functions[id]
            ||| later.functions[id].start >= g.nodes.len() && later.functions[id].end
                >= g.nodes.len()
        }
}

/// What is confined twice is confined, when functions have been added in between.
proof fn lemma_confined_through(g: GraphView, mid: GraphView, later: GraphView)
    requires
        confined(g, mid),
        functions_new(g, mid),
        confined(mid, later),
        g.grows_into(mid),
        mid.grows_into(later),
    ensures
        confined(g, later),
{
    reveal(confined);
    reveal(functions_new);
    assert forall|i: int| g.edges.len() <= i < later.edges.len() implies {
        &&& (#[trigger] later.edges[i]).from >= g.nodes.len() || is_function_end(
            g,
            later.edges[i].from,
        )
        &&& later.edges[i].to >= g.nodes.len() || is_function_start(g, later.edges[i].to)
    } by {
        if i < mid.edges.len() {
            assert(later.edges[i] == mid.edges[i]) by {
                reveal(GraphView::is_kept_by);
            }
        } else {
            if is_function_end(mid, later.edges[i].from) {
                let id = choose|id: FunctionId| #[trigger]
                    mid.functions.dom().contains(id) && mid.functions[id].end
                        == later.edges[i].from;
                assert(mid.functions.dom().contains(id));
            }
            if is_function_start(mid, later.edges[i].to) {
                let id = choose|id: FunctionId| #[trigger]
                    mid.functions.dom().contains(id) && mid.functions[id].start
                        == later.edges[i].to;
                assert(mid.functions.dom().contains(id));
            }
        }
    }
}

/// The actions of a control block are confined.
proof fn lemma_actions_confined(decls: Seq<IrControlLocalDecl>, k: nat, g: GraphView)
    requires
        g.wf(),
        k <= decls.len(),
        actions_calls_known(decls, g.functions.dom()),
    ensures
        confined(g, actions_gcl(decls, k, g)),
        functions_new(g, actions_gcl(decls, k, g)),
    decreases k,
{
    if k == 0 {
        lemma_confined_refl(g, g);
        reveal(functions_new);
    } else {
        let before = actions_gcl(decls, (k - 1) as nat, g);
        let later = actions_gcl(decls, k, g);
        lemma_actions_confined(decls, (k - 1) as nat, g);
        lemma_actions_tidy(decls, (k - 1) as nat, g);
        lemma_actions_grow(decls, (k - 1) as nat, g);
        assert(local_calls_known(decls, k - 1, g.functions.dom()));
        if let IrControlLocalDecl::Action(action) = decls[k - 1] {
            lemma_action_neat(action, before);
            let part = action_gcl(action, before);
            lemma_confined_through(g, before, part.graph);
            lemma_grows_trans(g, before, part.graph);
            assert(confined(g, later)) by {
                reveal(confined);
            }
            assert(functions_new(g, later)) by {
                reveal(functions_new);
                assert forall|id: FunctionId| #[trigger]
                    later.functions.dom().contains(id) implies {
                    ||| g.functions.dom().contains(id) && later.functions[id] == g.functions[id]
                    ||| later.functions[id].start >= g.nodes.len() && later.functions[id].end
                        >= g.nodes.len()
                } by {
                    if id != action.id {
                        assert(before.functions.dom().contains(id));
                    }
                }
            }
        }
    }
}

/// A control block is confined.
pub proof fn lemma_control_confined(control: IrControlDecl, g: GraphView)
    requires
        g.wf(),
        control_calls_known(control, g.functions.dom()),
    ensures
        confined(g, control_gcl(control, g).graph),
        functions_new(g, control_gcl(control, g).graph),
{
    let decls = control.local_decls@;
    let elements = control_elements(control);
    let called = actions_gcl(decls, decls.len(), g);
    let block = block_gcl(elements, called);
    lemma_actions_confined(decls, decls.len(), g);
    lemma_actions_tidy(decls, decls.len(), g);
    lemma_actions_grow(decls, decls.len(), g);
    lemma_block_neat(elements, called);
    lemma_confined_through(g, called, block.graph);
    assert(confined(g, control_gcl(control, g).graph)) by {
        reveal(confined);
    }
    assert(functions_new(g, control_gcl(control, g).graph)) by {
        reveal(functions_new);
    }
}

// ---------------------------------------------------------------------------------------
// The start node
// ---------------------------------------------------------------------------------------
/// Whether no edge leads to `index`, and no function starts there or ends there.
#[verifier::opaque]
pub open spec fn is_apart(g: GraphView, index: int) -> bool {
    &&& forall|i: int| 0 <= i < g.edges.len() ==> (#[trigger] g.edges[i]).to != index
    &&& forall|id: FunctionId| #[trigger]
        g.functions.dom().contains(id) ==> g.functions[id].start != index && g.functions[id].end
            != index
}

/// A node stays apart where further parts are confined.
proof fn lemma_apart_kept(g: GraphView, later: GraphView, index: int)
    requires
        is_apart(g, index),
        0 <= index < g.nodes.len(),
        g.grows_into(later),
        confined(g, later),
        functions_new(g, later),
    ensures
        is_apart(later, index),
{
    reveal(is_apart);
    reveal(confined);
    reveal(functions_new);
    assert forall|i: int| 0 <= i < later.edges.len() implies (#[trigger] later.edges[i]).to
        != index by {
        if i < g.edges.len() {
            assert(later.edges[i] == g.edges[i]) by {
                reveal(GraphView::is_kept_by);
            }
        }
    }
}

/// A dead end stays one where further parts are confined, when no function ends there.
proof fn lemma_apart_dead_end_kept(g: GraphView, later: GraphView, index: int)
    requires
        dead_end(g, index),
        !is_function_end(g, index),
        0 <= index < g.nodes.len(),
        g.grows_into(later),
        confined(g, later),
    ensures
        dead_end(later, index),
{
    reveal(dead_end);
    reveal(confined);
    assert forall|i: int| 0 <= i < later.edges.len() implies (#[trigger] later.edges[i]).from
        != index by {
        if i < g.edges.len() {
            assert(later.edges[i] == g.edges[i]) by {
                reveal(GraphView::is_kept_by);
            }
        }
    }
}

pub proof fn lemma_refilled_reaches_in(
    g: GraphView,
    start: int,
    commands: Seq<CommandView>,
    a: State,
    b: State,
    n: nat,
)
    requires
        is_apart(g, start),
        g.has_node(start),
        a.node != start,
        reaches_in(g, a, b, n),
    ensures
        reaches_in(refilled(g, start, commands), a, b, n),
        b.node != start,
    decreases n,
{
    let later = refilled(g, start, commands);
    if n > 0 {
        let mid = choose|mid: State| #[trigger]
            steps(g, a, mid) && reaches_in(g, mid, b, (n - 1) as nat);
        let i = choose|i: int| #[trigger] takes_edge(g, i, a, mid);
        assert(mid.node != start) by {
            reveal(is_apart);
            assert(g.edges[i].to != start);
        }
        lemma_refilled_reaches_in(g, start, commands, mid, b, (n - 1) as nat);
        assert(takes_edge(later, i, a, mid));
        assert(steps(later, a, mid));
    }
}

/// A run from the start node, when the node gets commands: it goes on as it would have gone on
/// from the variables after the commands.
proof fn lemma_refilled_reaches(
    g: GraphView,
    start: int,
    commands: Seq<CommandView>,
    before: Env,
    ready: Env,
    b: State,
)
    requires
        is_apart(g, start),
        g.has_node(start),
        g.nodes[start].commands == Seq::<CommandView>::empty(),
        run_commands(commands, before) == Some(ready),
        reaches(g, State { node: start, env: ready }, b),
        b.node != start,
    ensures
        reaches(refilled(g, start, commands), State { node: start, env: before }, b),
{
    let later = refilled(g, start, commands);
    let a = State { node: start, env: ready };
    reveal(reaches);
    let n = choose|n: nat| #[trigger] reaches_in(g, a, b, n);
    assert(n > 0);
    let mid = choose|mid: State| #[trigger]
        steps(g, a, mid) && reaches_in(g, mid, b, (n - 1) as nat);
    let i = choose|i: int| #[trigger] takes_edge(g, i, a, mid);
    assert(mid.node != start) by {
        reveal(is_apart);
        assert(g.edges[i].to != start);
    }
    lemma_refilled_reaches_in(g, start, commands, mid, b, (n - 1) as nat);
    lemma_run_few(CommandView::Bug, CommandView::Bug, CommandView::Bug, ready);
    assert(mid.env == ready);
    let first = State { node: start, env: before };
    assert(takes_edge(later, i, first, mid));
    assert(steps(later, first, mid));
    assert(reaches_in(later, first, b, n));
}

/// What is done from the start node on, when the node gets commands.
pub proof fn lemma_refilled_does(
    g: GraphView,
    start: int,
    commands: Seq<CommandView>,
    end: int,
    before: Env,
    ready: Env,
    vars: Vars,
    result: Option<Vars>,
    calls: Set<FunctionId>,
)
    requires
        is_apart(g, start),
        g.has_node(start),
        g.nodes[start].commands == Seq::<CommandView>::empty(),
        run_commands(commands, before) == Some(ready),
        ends_with(before, ready, vars, calls),
        does(g, RangeView { start, end }, ready, result, calls),
    ensures
        does(refilled(g, start, commands), RangeView { start, end }, before, result, calls),
{
    let later = refilled(g, start, commands);
    let range = RangeView { start, end };
    let a = State { node: start, env: ready };
    let first = State { node: start, env: before };
    lemma_run_few(CommandView::Bug, CommandView::Bug, CommandView::Bug, ready);
    match result {
        Some(end_vars) => {
            let after = choose|after: Env| #[trigger]
                completes(g, range, ready, after) && ends_with(ready, after, end_vars, calls);
            lemma_ends_trans(before, ready, after, vars, end_vars, calls, calls, calls);
            reveal(completes);
            let env = choose|env: Env|
                {
                    &&& #[trigger] reaches(g, a, State { node: end, env })
                    &&& g.has_node(end)
                    &&& run_node(g, State { node: end, env }) == Some(after)
                };
            let last = State { node: end, env };
            if end == start {
                lemma_start_stays(g, start, ready, last);
                lemma_reaches_refl(later, first);
                assert(run_node(later, first) == Some(after));
            } else {
                lemma_refilled_reaches(g, start, commands, before, ready, last);
                assert(run_node(later, last) == Some(after));
            }
            assert(completes(later, range, before, after));
        },
        None => {
            reveal(goes_wrong);
            let bug = choose|bug: State|
                {
                    &&& #[trigger] reaches(g, a, bug)
                    &&& g.has_node(bug.node)
                    &&& run_node(g, bug) is None
                };
            if bug.node == start {
                lemma_start_stays(g, start, ready, bug);
            } else {
                lemma_refilled_reaches(g, start, commands, before, ready, bug);
            }
        },
    }
}

/// A run does not come back to a node that is apart.
proof fn lemma_start_stays(g: GraphView, start: int, env: Env, b: State)
    requires
        is_apart(g, start),
        g.has_node(start),
        reaches(g, State { node: start, env }, b),
        b.node == start,
    ensures
        b == (State { node: start, env }),
{
    let a = State { node: start, env };
    reveal(reaches);
    let n = choose|n: nat| #[trigger] reaches_in(g, a, b, n);
    if n > 0 {
        let mid = choose|mid: State| #[trigger]
            steps(g, a, mid) && reaches_in(g, mid, b, (n - 1) as nat);
        let i = choose|i: int| #[trigger] takes_edge(g, i, a, mid);
        assert(mid.node != start) by {
            reveal(is_apart);
            assert(g.edges[i].to != start);
        }
        lemma_refilled_reaches_in(g, start, Seq::empty(), mid, b, (n - 1) as nat);
    }
}

// ---------------------------------------------------------------------------------------
// Programs do what they mean
// ---------------------------------------------------------------------------------------
/// Any actions.
pub open spec fn any_actions() -> Set<FunctionId> {
    Set::full()
}

/// A part does what it means behind another part.
proof fn lemma_link_does(
    g: GraphView,
    first: RangeView,
    next: RangeView,
    before: Env,
    mid: Env,
    vars: Vars,
    end: Option<Vars>,
)
    requires
        completes(g, first, before, mid),
        ends_with(before, mid, vars, any_actions()),
        does(g, next, mid, end, any_actions()),
    ensures
        does(
            g.link(first.end, next.start),
            RangeView { start: first.start, end: next.end },
            before,
            end,
            any_actions(),
        ),
{
    let later = g.link(first.end, next.start);
    let e = g.edges.len() as int;
    assert(keeps_code(g, later)) by {
        reveal(keeps_code);
    }
    assert(later.edges[e] == always(first.end, next.start));
    lemma_completes_kept(g, later, first, before, mid);
    lemma_does_kept(g, later, next, mid, end, any_actions());
    lemma_completes_then(later, first, before, mid, e);
    match end {
        Some(end_vars) => {
            let after = choose|after: Env| #[trigger]
                completes(later, next, mid, after) && ends_with(
                    mid,
                    after,
                    end_vars,
                    any_actions(),
                );
            lemma_completes_after(later, first.start, before, next, mid, after);
            lemma_ends_trans(
                before,
                mid,
                after,
                vars,
                end_vars,
                any_actions(),
                any_actions(),
                any_actions(),
            );
        },
        None => {
            lemma_wrong_after(
                later,
                State { node: first.start, env: before },
                State { node: next.start, env: mid },
            );
        },
    }
}

/// The commands of the instantiations do what the instantiations mean.
pub proof fn lemma_instantiations_correct(
    decls: Seq<IrDeclaration>,
    k: nat,
    g: GraphView,
    before: Env,
    vars: Vars,
)
    requires
        k <= decls.len(),
        agrees(before, vars),
    ensures
        run_commands(program_state(decls, k, g).commands, before) matches Some(after)
            && ends_with(before, after, instantiate(decls, k, vars), any_actions()),
    decreases k,
{
    if k == 0 {
        lemma_run_few(CommandView::Bug, CommandView::Bug, CommandView::Bug, before);
        lemma_ends_refl(before, vars, any_actions());
    } else {
        let j = (k - 1) as nat;
        lemma_instantiations_correct(decls, j, g, before, vars);
        let state = program_state(decls, j, g);
        if let IrDeclaration::Instantiation(instantiation) = decls[k - 1] {
            let mid = run_commands(state.commands, before)->0;
            lemma_run_push(state.commands, instantiation_gcl(instantiation), before);
            lemma_ends_define(
                before,
                mid,
                instantiate(decls, j, vars),
                any_actions(),
                instantiation.id,
                true,
            );
        }
    }
}

/// The start node stays apart while the declarations are translated.
pub proof fn lemma_start_apart(program: IrProgram, k: nat, g: GraphView)
    requires
        g.wf(),
        k <= program.declarations@.len(),
        program_calls_known(program, g.functions.dom()),
    ensures
        is_apart(program_state(program.declarations@, k, g).graph, g.nodes.len() as int),
    decreases k,
{
    let decls = program.declarations@;
    let start = g.nodes.len() as int;
    let later = program_state(decls, k, g).graph;
    if k == 0 {
        reveal(is_apart);
        reveal(GraphView::wf);
        assert(later.edges =~= g.edges);
        assert forall|i: int| 0 <= i < later.edges.len() implies (#[trigger] later.edges[i]).to
            != start by {
            assert(g.has_node(g.edges[i].to));
        }
        assert forall|id: FunctionId| #[trigger] later.functions.dom().contains(id) implies {
            later.functions[id].start != start && later.functions[id].end != start
        } by {
            assert(g.functions.dom().contains(id));
            assert(g.has_range(g.functions[id]));
        }
    } else {
        let j = (k - 1) as nat;
        let state = program_state(decls, j, g);
        lemma_start_apart(program, j, g);
        lemma_program_state_extends(program, j, g);
        assert(decl_calls_known(decls, k - 1, g.functions.dom()));
        match decls[k - 1] {
            IrDeclaration::Constant(constant) => {
                let part = var_decl_gcl(constant, state.graph);
                lemma_var_decl_neat(constant, state.graph);
                assert(functions_new(state.graph, part.graph)) by {
                    reveal(functions_new);
                }
                lemma_apart_kept(state.graph, part.graph, start);
                assert(is_apart(later, start)) by {
                    reveal(is_apart);
                    let e = part.graph.edges.len() as int;
                    assert forall|i: int| 0 <= i < later.edges.len() implies (
                    #[trigger] later.edges[i]).to != start by {
                        if i < e {
                            assert(later.edges[i] == part.graph.edges[i]);
                        } else {
                            assert(later.edges[i] == always(state.end, part.range.start));
                        }
                    }
                }
            },
            IrDeclaration::Control(control) => {
                lemma_program_state_extends(program, k, g);
                lemma_control_confined(control, state.graph);
                lemma_apart_kept(state.graph, later, start);
            },
            IrDeclaration::Instantiation(_) => {},
        }
    }
}

/// What holds of a program so far: the start node is still empty and apart, and the functions of
/// the graph do what the actions mean.
pub open spec fn program_ready(
    decls: Seq<IrDeclaration>,
    k: nat,
    g: GraphView,
    actions: Actions,
) -> bool {
    let state = program_state(decls, k, g);
    let start = g.nodes.len() as int;
    &&& state.graph.wf()
    &&& implements(state.graph, declare_controls(decls, k, actions))
    &&& is_apart(state.graph, start)
    &&& state.graph.has_node(start)
    &&& state.graph.nodes[start].commands == Seq::<CommandView>::empty()
}

pub proof fn lemma_program_ready(program: IrProgram, k: nat, g: GraphView, actions: Actions)
    requires
        g.wf(),
        k <= program.declarations@.len(),
        program_calls_known(program, g.functions.dom()),
        program_not_recursive(program, actions),
        implements(g, actions),
    ensures
        program_ready(program.declarations@, k, g, actions),
    decreases k,
{
    let decls = program.declarations@;
    let start = g.nodes.len() as int;
    let later = program_state(decls, k, g).graph;
    lemma_program_state_extends(program, k, g);
    lemma_start_apart(program, k, g);
    if k == 0 {
        lemma_grow_wf(g, seq![node("start"@, seq![])], seq![], 0);
        lemma_grows_keeps_code(g, later);
        lemma_implements_kept(g, later, actions);
    } else {
        let j = (k - 1) as nat;
        let state = program_state(decls, j, g);
        let known = declare_controls(decls, j, actions);
        lemma_program_ready(program, j, g, actions);
        lemma_program_state_extends(program, j, g);
        assert(decl_calls_known(decls, k - 1, g.functions.dom()));
        assert(decl_not_recursive(decls, k - 1, actions));
        assert(later.nodes[start].commands == state.graph.nodes[start].commands) by {
            reveal(GraphView::is_kept_by);
        }
        match decls[k - 1] {
            IrDeclaration::Constant(constant) => {
                lemma_var_decl_neat(constant, state.graph);
                lemma_grows_keeps_code(state.graph, later);
                lemma_implements_kept(state.graph, later, known);
            },
            IrDeclaration::Control(control) => {
                lemma_control_implements(control, state.graph, known);
            },
            IrDeclaration::Instantiation(_) => {},
        }
    }
}

/// The chain of constants does what the constants mean.
pub proof fn lemma_constants_correct(
    program: IrProgram,
    k: nat,
    g: GraphView,
    actions: Actions,
    before: Env,
    vars: Vars,
)
    requires
        g.wf(),
        k <= program.declarations@.len(),
        program_calls_known(program, g.functions.dom()),
        program_not_recursive(program, actions),
        implements(g, actions),
        agrees(before, vars),
    ensures
        ({
            let state = program_state(program.declarations@, k, g);
            does(
                state.graph,
                RangeView { start: g.nodes.len() as int, end: state.end },
                before,
                run_constants(program.declarations@, k, vars, actions),
                any_actions(),
            )
        }),
    decreases k,
{
    let decls = program.declarations@;
    let start = g.nodes.len() as int;
    let later = program_state(decls, k, g).graph;
    lemma_program_ready(program, k, g, actions);
    if k == 0 {
        let here = State { node: start, env: before };
        lemma_run_few(CommandView::Bug, CommandView::Bug, CommandView::Bug, before);
        lemma_ends_refl(before, vars, any_actions());
        lemma_reaches_refl(later, here);
        lemma_completes_intro(later, RangeView { start, end: start }, before, before, before);
    } else {
        let j = (k - 1) as nat;
        let state = program_state(decls, j, g);
        let known = declare_controls(decls, j, actions);
        let first = RangeView { start, end: state.end };
        let result = run_constants(decls, j, vars, actions);
        lemma_constants_correct(program, j, g, actions, before, vars);
        lemma_program_ready(program, j, g, actions);
        lemma_program_state_extends(program, j, g);
        lemma_program_state_extends(program, k, g);
        lemma_grows_keeps_code(state.graph, later);
        lemma_does_kept(state.graph, later, first, before, result, any_actions());
        assert(decl_calls_known(decls, k - 1, g.functions.dom()));
        if let IrDeclaration::Constant(constant) = decls[k - 1] {
            if let Some(mid_vars) = result {
                let part = var_decl_gcl(constant, state.graph);
                let end = run_var_decl(constant, mid_vars, known);
                let mid = choose|mid: Env| #[trigger]
                    completes(state.graph, first, before, mid) && ends_with(
                        before,
                        mid,
                        mid_vars,
                        any_actions(),
                    );
                lemma_var_decl_correct(constant, state.graph, known, mid, mid_vars);
                lemma_does_widen(
                    part.graph,
                    part.range,
                    mid,
                    end,
                    known.all_callees(var_decl_calls(constant)),
                    any_actions(),
                );
                lemma_var_decl_extends(constant, state.graph);
                lemma_grows_keeps_code(state.graph, part.graph);
                lemma_completes_kept(state.graph, part.graph, first, before, mid);
                lemma_link_does(part.graph, first, part.range, before, mid, mid_vars, end);
            }
        }
    }
}

/// The last control block stays what it is while the rest of the program is translated.
pub proof fn lemma_last_control(program: IrProgram, k: nat, g: GraphView, i: int)
    requires
        is_last_control(program.declarations@, i),
        i < k <= program.declarations@.len(),
    ensures
        program_state(program.declarations@, k, g).control == program_state(
            program.declarations@,
            (i + 1) as nat,
            g,
        ).control,
    decreases k,
{
    if k > i + 1 {
        assert(!(program.declarations@[k - 1] is Control));
        lemma_last_control(program, (k - 1) as nat, g, i);
    }
}

/// The translation of a program does what the program means. From the start node on, the
/// constants are declared in order; and from the start node on, the last control block runs. The
/// instantiations come before either. This is without actions that call themselves: the graph has
/// one return target for each action.
pub proof fn lemma_program_correct(
    program: IrProgram,
    g: GraphView,
    actions: Actions,
    before: Env,
    vars: Vars,
)
    requires
        g.wf(),
        program_calls_known(program, g.functions.dom()),
        program_not_recursive(program, actions),
        implements(g, actions),
        agrees(before, vars),
    ensures
        ({
            let decls = program.declarations@;
            let later = program_gcl(program, g);
            let start = g.nodes.len() as int;
            let ready = instantiate(decls, decls.len(), vars);
            &&& does(
                later,
                RangeView { start, end: program_state(decls, decls.len(), g).end },
                before,
                run_constants(decls, decls.len(), ready, actions),
                any_actions(),
            )
            &&& forall|i: int| #[trigger]
                is_last_control(decls, i) ==> does(
                    later,
                    RangeView { start, end: control_range(decls, i, g).end },
                    before,
                    run_control(
                        decls[i]->Control_0,
                        ready,
                        declare_controls(decls, i as nat, actions),
                    ),
                    any_actions(),
                )
        }),
{
    let decls = program.declarations@;
    let later = program_gcl(program, g);
    let start = g.nodes.len() as int;
    let ready = instantiate(decls, decls.len(), vars);
    let state = program_state(decls, decls.len(), g);
    let filled = refilled(state.graph, start, state.commands);
    let constants = RangeView { start, end: state.end };
    lemma_program_ready(program, decls.len(), g, actions);
    lemma_instantiations_correct(decls, decls.len(), g, before, vars);
    let env = run_commands(state.commands, before)->0;
    lemma_constants_correct(program, decls.len(), g, actions, env, ready);
    let result = run_constants(decls, decls.len(), ready, actions);
    lemma_refilled_does(
        state.graph,
        start,
        state.commands,
        state.end,
        before,
        env,
        ready,
        result,
        any_actions(),
    );
    assert(keeps_code(filled, later)) by {
        reveal(keeps_code);
    }
    lemma_does_kept(filled, later, constants, before, result, any_actions());
    assert forall|i: int| #[trigger] is_last_control(decls, i) implies does(
        later,
        RangeView { start, end: control_range(decls, i, g).end },
        before,
        run_control(decls[i]->Control_0, ready, declare_controls(decls, i as nat, actions)),
        any_actions(),
    ) by {
        lemma_program_control_correct(program, g, actions, before, vars, env, i);
    }
}

/// Where the control block `i` of a program has been put.
pub open spec fn control_range(decls: Seq<IrDeclaration>, i: int, g: GraphView) -> RangeView {
    control_gcl(decls[i]->Control_0, program_state(decls, i as nat, g).graph).range
}

/// From the start node on, the last control block runs.
proof fn lemma_program_control_correct(
    program: IrProgram,
    g: GraphView,
    actions: Actions,
    before: Env,
    vars: Vars,
    env: Env,
    i: int,
)
    requires
        g.wf(),
        program_calls_known(program, g.functions.dom()),
        program_not_recursive(program, actions),
        implements(g, actions),
        is_last_control(program.declarations@, i),
        run_commands(
            program_state(program.declarations@, program.declarations@.len(), g).commands,
            before,
        ) == Some(env),
        ends_with(
            before,
            env,
            instantiate(program.declarations@, program.declarations@.len(), vars),
            any_actions(),
        ),
    ensures
        does(
            program_gcl(program, g),
            RangeView {
                start: g.nodes.len() as int,
                end: control_range(program.declarations@, i, g).end,
            },
            before,
            run_control(
                program.declarations@[i]->Control_0,
                instantiate(program.declarations@, program.declarations@.len(), vars),
                declare_controls(program.declarations@, i as nat, actions),
            ),
            any_actions(),
        ),
{
    let decls = program.declarations@;
    let start = g.nodes.len() as int;
    let ready = instantiate(decls, decls.len(), vars);
    let state = program_state(decls, decls.len(), g);
    let filled = refilled(state.graph, start, state.commands);
    let first = program_state(decls, i as nat, g);
    let next = program_state(decls, (i + 1) as nat, g);
    let known = declare_controls(decls, i as nat, actions);
    let control = decls[i]->Control_0;
    let range = control_range(decls, i, g);
    let end = run_control(control, ready, known);
    lemma_program_ready(program, i as nat, g, actions);
    lemma_program_ready(program, decls.len(), g, actions);
    lemma_program_state_extends(program, i as nat, g);
    lemma_program_steps(program, (i + 1) as nat, g);
    lemma_last_control(program, decls.len(), g, i);
    assert(decl_calls_known(decls, i, g.functions.dom()));
    assert(decl_not_recursive(decls, i, actions));
    lemma_control_correct(control, first.graph, known, env, ready);
    let elements = control_elements(control);
    let declared = declare_actions(control.local_decls@, control.local_decls@.len(), known);
    lemma_does_widen(
        next.graph,
        range,
        env,
        end,
        declared.all_callees(block_calls(elements, elements.len())),
        any_actions(),
    );
    lemma_grows_keeps_code(next.graph, state.graph);
    lemma_does_kept(next.graph, state.graph, range, env, end, any_actions());
    lemma_control_grows(control, first.graph);
    lemma_refilled_does_elsewhere(state.graph, start, state.commands, range, env, end);
    let here = State { node: start, env: before };
    lemma_reaches_refl(filled, here);
    lemma_completes_intro(filled, RangeView { start, end: start }, before, before, env);
    lemma_link_does(
        filled,
        RangeView { start, end: start },
        range,
        before,
        env,
        ready,
        end,
    );
}

/// What is done elsewhere is done when the start node gets commands.
pub proof fn lemma_refilled_does_elsewhere(
    g: GraphView,
    start: int,
    commands: Seq<CommandView>,
    range: RangeView,
    before: Env,
    result: Option<Vars>,
)
    requires
        is_apart(g, start),
        g.has_node(start),
        range.start != start,
        does(g, range, before, result, any_actions()),
    ensures
        does(refilled(g, start, commands), range, before, result, any_actions()),
{
    let later = refilled(g, start, commands);
    let a = State { node: range.start, env: before };
    match result {
        Some(vars) => {
            let after = choose|after: Env| #[trigger]
                completes(g, range, before, after) && ends_with(before, after, vars, any_actions());
            reveal(completes);
            let env = choose|env: Env|
                {
                    &&& #[trigger] reaches(g, a, State { node: range.end, env })
                    &&& g.has_node(range.end)
                    &&& run_node(g, State { node: range.end, env }) == Some(after)
                };
            let last = State { node: range.end, env };
            reveal(reaches);
            let n = choose|n: nat| #[trigger] reaches_in(g, a, last, n);
            lemma_refilled_reaches_in(g, start, commands, a, last, n);
            assert(reaches(later, a, last));
            assert(run_node(later, last) == Some(after));
            assert(completes(later, range, before, after));
        },
        None => {
            reveal(goes_wrong);
            let bug = choose|bug: State|
                {
                    &&& #[trigger] reaches(g, a, bug)
                    &&& g.has_node(bug.node)
                    &&& run_node(g, bug) is None
                };
            reveal(reaches);
            let n = choose|n: nat| #[trigger] reaches_in(g, a, bug, n);
            lemma_refilled_reaches_in(g, start, commands, a, bug, n);
            assert(reaches(later, a, bug));
        },
    }
}

// ---------------------------------------------------------------------------------------
// Programs give a run no choice
// ---------------------------------------------------------------------------------------
/// Whether a node may be led on from where further parts are confined: no edge leads on yet, and
/// no function ends there.
pub open spec fn is_loose(g: GraphView, index: int) -> bool {
    &&& 0 <= index < g.nodes.len()
    &&& dead_end(g, index)
    &&& !is_function_end(g, index)
}

/// A loose node stays loose where further parts are confined.
proof fn lemma_loose_kept(g: GraphView, later: GraphView, index: int)
    requires
        is_loose(g, index),
        g.grows_into(later),
        confined(g, later),
        functions_new(g, later),
    ensures
        is_loose(later, index),
{
    assert(g.nodes.len() <= later.nodes.len()) by {
        reveal(GraphView::is_kept_by);
    }
    lemma_apart_dead_end_kept(g, later, index);
    reveal(functions_new);
    if is_function_end(later, index) {
        let id = choose|id: FunctionId| #[trigger]
            later.functions.dom().contains(id) && later.functions[id].end == index;
        assert(later.functions.dom().contains(id));
        assert(is_function_end(g, index));
    }
}

/// The first declarations of a program give a run no choice, and do not lead on.
pub proof fn lemma_program_state_tidy(program: IrProgram, k: nat, g: GraphView)
    requires
        g.wf(),
        k <= program.declarations@.len(),
        program_calls_known(program, g.functions.dom()),
    ensures
        ({
            let decls = program.declarations@;
            let state = program_state(decls, k, g);
            &&& tidy(g) ==> tidy(state.graph)
            &&& is_loose(state.graph, state.end)
            &&& !has_constant(decls, k) ==> state.end == g.nodes.len()
            &&& !has_control(decls, k) ==> state.control is None
        }),
    decreases k,
{
    let decls = program.declarations@;
    let later = program_state(decls, k, g).graph;
    lemma_program_state_extends(program, k, g);
    if k == 0 {
        let start = node("start"@, seq![]);
        lemma_single_neat(g, start, 0);
        lemma_new_is_no_end(g, later, g.nodes.len() as int);
    } else {
        let j = (k - 1) as nat;
        let state = program_state(decls, j, g);
        lemma_program_state_tidy(program, j, g);
        lemma_program_state_extends(program, j, g);
        assert(decl_calls_known(decls, k - 1, g.functions.dom()));
        assert(has_constant(decls, j) ==> has_constant(decls, k));
        assert(has_control(decls, j) ==> has_control(decls, k));
        match decls[k - 1] {
            IrDeclaration::Constant(constant) => {
                let part = var_decl_gcl(constant, state.graph);
                let edges = seq![always(state.end, part.range.start)];
                lemma_var_decl_neat(constant, state.graph);
                lemma_apart_dead_end_kept(state.graph, part.graph, state.end);
                lemma_tidy_grow(part.graph, seq![], edges, 0);
                lemma_dead_end_grow(part.graph, seq![], edges, 0, part.range.end);
                lemma_new_is_no_end(state.graph, later, part.range.end);
                assert(decls[k - 1] is Constant);
            },
            IrDeclaration::Control(control) => {
                lemma_control_tidy(control, state.graph);
                lemma_control_confined(control, state.graph);
                lemma_loose_kept(state.graph, later, state.end);
                assert(decls[k - 1] is Control);
            },
            IrDeclaration::Instantiation(_) => {},
        }
    }
}

/// The end of a control block does not lead on.
pub proof fn lemma_control_loose(control: IrControlDecl, g: GraphView)
    requires
        g.wf(),
        control_calls_known(control, g.functions.dom()),
    ensures
        is_loose(control_gcl(control, g).graph, control_gcl(control, g).range.end),
        control_gcl(control, g).range.end >= g.nodes.len(),
{
    let decls = control.local_decls@;
    let elements = control_elements(control);
    let called = actions_gcl(decls, decls.len(), g);
    let block = block_gcl(elements, called);
    lemma_control_tidy(control, g);
    lemma_control_grows(control, g);
    lemma_actions_grow(decls, decls.len(), g);
    lemma_block_extends(elements, called);
    lemma_new_is_no_end(called, control_gcl(control, g).graph, block.range.end);
    assert(called.nodes.len() >= g.nodes.len()) by {
        reveal(GraphView::is_kept_by);
    }
}

/// The end of the last control block does not lead on while the rest of the program is
/// translated.
pub proof fn lemma_last_control_loose(program: IrProgram, k: nat, g: GraphView, i: int)
    requires
        g.wf(),
        program_calls_known(program, g.functions.dom()),
        is_last_control(program.declarations@, i),
        i < k <= program.declarations@.len(),
    ensures
        ({
            let decls = program.declarations@;
            let state = program_state(decls, k, g);
            is_loose(state.graph, control_range(decls, i, g).end) && state.end != control_range(
                decls,
                i,
                g,
            ).end
        }),
    decreases k,
{
    let decls = program.declarations@;
    let j = (k - 1) as nat;
    let state = program_state(decls, j, g);
    let later = program_state(decls, k, g).graph;
    let end = control_range(decls, i, g).end;
    lemma_program_state_extends(program, j, g);
    lemma_program_state_extends(program, k, g);
    assert(decl_calls_known(decls, k - 1, g.functions.dom()));
    if k == i + 1 {
        lemma_control_loose(decls[i]->Control_0, state.graph);
    } else {
        assert(!(decls[k - 1] is Control));
        lemma_last_control_loose(program, j, g, i);
        if let IrDeclaration::Constant(constant) = decls[k - 1] {
            let part = var_decl_gcl(constant, state.graph);
            let edges = seq![always(state.end, part.range.start)];
            lemma_var_decl_neat(constant, state.graph);
            assert(functions_new(state.graph, part.graph)) by {
                reveal(functions_new);
            }
            lemma_loose_kept(state.graph, part.graph, end);
            lemma_dead_end_grow(part.graph, seq![], edges, 0, end);
            assert(is_function_end(later, end) ==> is_function_end(part.graph, end));
        }
    }
}

/// The translation of a program gives a run no choice, when the program has no constants or no
/// control block; and neither the end of the constants nor that of the control block leads on.
/// With both, a run can go either way from the start node.
pub proof fn lemma_program_tidy(program: IrProgram, g: GraphView)
    requires
        tidy(g),
        program_calls_known(program, g.functions.dom()),
        !has_constant(program.declarations@, program.declarations@.len()) || !has_control(
            program.declarations@,
            program.declarations@.len(),
        ),
    ensures
        ({
            let decls = program.declarations@;
            let later = program_gcl(program, g);
            &&& tidy(later)
            &&& !has_control(decls, decls.len()) ==> dead_end(
                later,
                program_state(decls, decls.len(), g).end,
            )
            &&& forall|i: int| #[trigger]
                is_last_control(decls, i) ==> dead_end(later, control_range(decls, i, g).end)
        }),
{
    let decls = program.declarations@;
    let later = program_gcl(program, g);
    let start = g.nodes.len() as int;
    let state = program_state(decls, decls.len(), g);
    let added = NodeView { commands: state.commands, ..state.graph.nodes[start] };
    let filled = refilled(state.graph, start, state.commands);
    lemma_program_state_extends(program, decls.len(), g);
    lemma_program_state_tidy(program, decls.len(), g);
    lemma_replace_tidy(state.graph, start, added);
    assert(dead_end(filled, state.end)) by {
        reveal(dead_end);
    }
    if let Some(control) = state.control {
        let edges = seq![always(start, control)];
        assert(is_function_end(filled, start) ==> is_function_end(state.graph, start));
        lemma_tidy_grow(filled, seq![], edges, 0);
    }
    assert forall|i: int| #[trigger] is_last_control(decls, i) implies dead_end(
        later,
        control_range(decls, i, g).end,
    ) by {
        let end = control_range(decls, i, g).end;
        lemma_last_control_loose(program, decls.len(), g, i);
        assert(decls[i] is Control);
        assert(dead_end(filled, end)) by {
            reveal(dead_end);
        }
        if let Some(control) = state.control {
            lemma_dead_end_grow(filled, seq![], seq![always(start, control)], 0, end);
        }
    }
}

} // verus!
