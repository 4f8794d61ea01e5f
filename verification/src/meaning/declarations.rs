//! The translation of actions and control blocks does what they mean.

use vstd::prelude::*;

use crate::graph::GraphView;
use crate::growth::{lemma_action_extends, lemma_actions_grow, lemma_block_extends};
use crate::ir::{FunctionId, IrActionDecl, IrControlDecl, IrControlLocalDecl, IrStatementOrDecl};
use crate::meaning::expressions::{lemma_does_kept, lemma_implements_kept, lemma_performs_kept};
use crate::meaning::names::{
    lemma_agrees_other, lemma_ends_refl, lemma_ends_trans, lemma_name_kinds, lemma_targets_other,
};
use crate::meaning::runs::{
    completes, goes_wrong, is_true, keeps_code, lemma_completes_after, lemma_completes_kept,
    lemma_grows_keeps_code, lemma_keeps_code_trans, lemma_reaches_edge, lemma_run_few,
    lemma_wrong_after, lemma_wrong_kept, takes_edge, Env, State, Value,
};
use crate::meaning::source::{
    agrees, declare_actions, does, ends_with, implements, performs, run_control, run_element,
    run_elements, run_locals, Actions, Vars,
};
use crate::meaning::statements::lemma_block_correct;
use crate::translation::{
    action_gcl, actions_calls_known, actions_gcl, assign_bool, block_calls, block_gcl,
    control_calls_known, control_elements, control_gcl, local_calls_known, local_elements, renamed,
    return_var,
};

verus! {

/// The translation of an action does what its body means, and then the result is `true`.
pub proof fn lemma_action_correct(
    action: IrActionDecl,
    g: GraphView,
    actions: Actions,
    before: Env,
    vars: Vars,
)
    requires
        g.wf(),
        block_calls(action.body.0@, action.body.0@.len()).subset_of(g.functions.dom()),
        implements(g, actions),
        agrees(before, vars),
    ensures
        ({
            let body = action.body.0@;
            let part = action_gcl(action, g);
            let calls = actions.all_callees(block_calls(body, body.len()));
            match run_elements(body, body.len(), vars, actions) {
                Some(end) => exists|after: Env|
                    {
                        &&& #[trigger] completes(part.graph, part.range, before, after)
                        &&& ends_with(before, after, end, calls)
                        &&& is_true(after[return_var()])
                    },
                None => goes_wrong(
                    part.graph,
                    State { node: part.range.start, env: before },
                ),
            }
        }),
{
    let elements = action.body.0@;
    let body = block_gcl(elements, g);
    let part = action_gcl(action, g);
    let later = part.graph;
    let n = body.graph.nodes.len() as int;
    let e = body.graph.edges.len() as int;
    let calls = actions.all_callees(block_calls(elements, elements.len()));
    lemma_action_extends(action, g);
    lemma_block_extends(elements, g);
    lemma_grows_keeps_code(body.graph, later);

    let set = assign_bool(return_var(), true);
    let entered = before.insert(return_var(), Value::Bool(true));
    let start = State { node: n, env: before };
    let next = State { node: body.range.start, env: entered };
    lemma_run_few(set, set, set, before);
    assert(later.nodes[n].commands == seq![set]);
    assert(takes_edge(later, e, start, next));
    lemma_reaches_edge(later, e, start, next);

    lemma_name_kinds();
    lemma_agrees_other(before, vars, return_var(), Value::Bool(true));
    lemma_ends_refl(before, vars, calls);
    lemma_targets_other(before, before, calls, return_var(), Value::Bool(true));
    assert(ends_with(before, entered, vars, calls));
    lemma_block_correct(elements, g, actions, entered, vars);
    match run_elements(elements, elements.len(), vars, actions) {
        Some(end) => {
            let after = choose|after: Env| #[trigger]
                completes(body.graph, body.range, entered, after) && ends_with(
                    entered,
                    after,
                    end,
                    calls,
                );
            lemma_completes_kept(body.graph, later, body.range, entered, after);
            lemma_completes_after(later, n, before, body.range, entered, after);
            lemma_ends_trans(before, entered, after, vars, end, calls, calls, calls);
        },
        None => {
            lemma_wrong_kept(body.graph, later, next);
            lemma_wrong_after(later, start, next);
        },
    }
}

/// Whether the local declaration `i`, if it is an action, does not call itself, be it through
/// others.
pub open spec fn is_not_recursive(
    decls: Seq<IrControlLocalDecl>,
    i: int,
    actions: Actions,
) -> bool {
    match decls[i] {
        IrControlLocalDecl::Action(action) => {
            let body = action.body.0@;
            let known = declare_actions(decls, i as nat, actions);
            !known.all_callees(block_calls(body, body.len())).contains(action.id)
        },
        _ => true,
    }
}

/// Whether no action among the local declarations calls itself, be it through others.
pub open spec fn no_recursion(decls: Seq<IrControlLocalDecl>, actions: Actions) -> bool {
    forall|i: int| 0 <= i < decls.len() ==> #[trigger] is_not_recursive(decls, i, actions)
}

/// Once an action has been registered, the functions of the graph do what the actions mean.
proof fn lemma_register_correct(action: IrActionDecl, g: GraphView, actions: Actions)
    requires
        g.wf(),
        block_calls(action.body.0@, action.body.0@.len()).subset_of(g.functions.dom()),
        implements(g, actions),
        !actions.all_callees(
            block_calls(action.body.0@, action.body.0@.len()),
        ).contains(action.id),
    ensures
        ({
            let part = action_gcl(action, g);
            let later = GraphView {
                functions: part.graph.functions.insert(action.id, part.range),
                ..part.graph
            };
            implements(later, actions.declare(action))
        }),
{
    let part = action_gcl(action, g);
    let later = GraphView {
        functions: part.graph.functions.insert(action.id, part.range),
        ..part.graph
    };
    let declared = actions.declare(action);
    lemma_action_extends(action, g);
    lemma_grows_keeps_code(g, part.graph);
    assert(keeps_code(part.graph, later)) by {
        reveal(keeps_code);
    }
    lemma_keeps_code_trans(g, part.graph, later);
    reveal(implements);
    assert forall|id: FunctionId| #[trigger] later.functions.dom().contains(id) implies {
        &&& !(declared.callees)(id).contains(id)
        &&& forall|before: Env, vars: Vars| #[trigger]
            agrees(before, vars) ==> performs(later, id, before, vars, declared)
    } by {
        assert forall|before: Env, vars: Vars| #[trigger] agrees(before, vars) implies performs(
            later,
            id,
            before,
            vars,
            declared,
        ) by {
            if id == action.id {
                lemma_action_correct(action, g, actions, before, vars);
                let body = action.body.0@;
                let calls = actions.all_callees(block_calls(body, body.len()));
                match run_elements(body, body.len(), vars, actions) {
                    Some(end) => {
                        let after = choose|after: Env|
                            {
                                &&& #[trigger] completes(part.graph, part.range, before, after)
                                &&& ends_with(before, after, end, calls)
                                &&& is_true(after[return_var()])
                            };
                        lemma_completes_kept(part.graph, later, part.range, before, after);
                    },
                    None => {
                        lemma_wrong_kept(
                            part.graph,
                            later,
                            State { node: part.range.start, env: before },
                        );
                    },
                }
            } else {
                assert(g.functions.dom().contains(id));
                assert(performs(g, id, before, vars, actions));
                lemma_performs_kept(g, later, id, before, vars, actions);
            }
        }
        if id != action.id {
            assert(g.functions.dom().contains(id));
        }
    }
}

/// Once the actions of a control block have been translated, the functions of the graph do
/// what the actions mean.
pub proof fn lemma_actions_correct(
    decls: Seq<IrControlLocalDecl>,
    k: nat,
    g: GraphView,
    actions: Actions,
)
    requires
        g.wf(),
        k <= decls.len(),
        actions_calls_known(decls, g.functions.dom()),
        no_recursion(decls, actions),
        implements(g, actions),
    ensures
        implements(actions_gcl(decls, k, g), declare_actions(decls, k, actions)),
    decreases k,
{
    if k > 0 {
        let j = (k - 1) as nat;
        lemma_actions_correct(decls, j, g, actions);
        lemma_actions_grow(decls, j, g);
        assert(local_calls_known(decls, k - 1, g.functions.dom()));
        assert(is_not_recursive(decls, k - 1, actions));
        if let IrControlLocalDecl::Action(action) = decls[k - 1] {
            lemma_register_correct(
                action,
                actions_gcl(decls, j, g),
                declare_actions(decls, j, actions),
            );
        }
    }
}

/// Another name for a node changes nothing.
pub proof fn lemma_renamed_keeps_code(g: GraphView, index: int, name: Seq<char>)
    requires
        g.has_node(index),
    ensures
        keeps_code(g, renamed(g, index, name)),
{
    reveal(keeps_code);
}

/// Once a control block has been translated, the functions of the graph do what the actions mean,
/// its own and those before.
pub proof fn lemma_control_implements(control: IrControlDecl, g: GraphView, actions: Actions)
    requires
        g.wf(),
        control_calls_known(control, g.functions.dom()),
        no_recursion(control.local_decls@, actions),
        implements(g, actions),
    ensures
        implements(
            control_gcl(control, g).graph,
            declare_actions(control.local_decls@, control.local_decls@.len(), actions),
        ),
{
    let decls = control.local_decls@;
    let elements = control_elements(control);
    let declared = declare_actions(decls, decls.len(), actions);
    let called = actions_gcl(decls, decls.len(), g);
    let block = block_gcl(elements, called);
    let part = control_gcl(control, g);
    lemma_actions_grow(decls, decls.len(), g);
    lemma_actions_correct(decls, decls.len(), g, actions);
    lemma_block_extends(elements, called);
    lemma_grows_keeps_code(called, block.graph);
    lemma_renamed_keeps_code(block.graph, block.range.start, "control__todo"@);
    lemma_keeps_code_trans(called, block.graph, part.graph);
    lemma_implements_kept(called, part.graph, declared);
}

/// The first elements run alike whatever follows.
proof fn lemma_run_prefix(
    xs: Seq<IrStatementOrDecl>,
    ys: Seq<IrStatementOrDecl>,
    k: nat,
    vars: Vars,
    actions: Actions,
)
    requires
        k <= xs.len(),
    ensures
        run_elements(xs + ys, k, vars, actions) == run_elements(xs, k, vars, actions),
    decreases k,
{
    if k > 0 {
        lemma_run_prefix(xs, ys, (k - 1) as nat, vars, actions);
        assert((xs + ys)[k - 1] == xs[k - 1]);
    }
}

/// Elements in two parts run one part after the other.
proof fn lemma_run_add(
    xs: Seq<IrStatementOrDecl>,
    ys: Seq<IrStatementOrDecl>,
    k: nat,
    vars: Vars,
    actions: Actions,
)
    requires
        k <= ys.len(),
    ensures
        run_elements(xs + ys, xs.len() + k, vars, actions) == match run_elements(
            xs,
            xs.len(),
            vars,
            actions,
        ) {
            None => None,
            Some(mid) => run_elements(ys, k, mid, actions),
        },
    decreases k,
{
    if k == 0 {
        lemma_run_prefix(xs, ys, xs.len(), vars, actions);
    } else {
        lemma_run_add(xs, ys, (k - 1) as nat, vars, actions);
        assert((xs + ys)[xs.len() + k - 1] == ys[k - 1]);
    }
}

/// One more element runs after the others.
proof fn lemma_run_one_more(
    xs: Seq<IrStatementOrDecl>,
    added: IrStatementOrDecl,
    vars: Vars,
    actions: Actions,
)
    ensures
        run_elements(xs.push(added), xs.len() + 1, vars, actions) == match run_elements(
            xs,
            xs.len(),
            vars,
            actions,
        ) {
            None => None,
            Some(mid) => run_element(added, mid, actions),
        },
{
    assert(xs.push(added) =~= xs + seq![added]);
    lemma_run_prefix(xs, seq![added], xs.len(), vars, actions);
    assert((xs + seq![added])[xs.len() as int] == added);
}

/// What the local declarations put in front of the apply block means what they mean.
proof fn lemma_run_locals(
    decls: Seq<IrControlLocalDecl>,
    k: nat,
    vars: Vars,
    actions: Actions,
)
    requires
        k <= decls.len(),
    ensures
        run_elements(local_elements(decls, k), local_elements(decls, k).len(), vars, actions)
            == run_locals(decls, k, vars, actions),
    decreases k,
{
    if k > 0 {
        let before = local_elements(decls, (k - 1) as nat);
        lemma_run_locals(decls, (k - 1) as nat, vars, actions);
        match decls[k - 1] {
            IrControlLocalDecl::Variable(decl) => {
                lemma_run_one_more(before, IrStatementOrDecl::VariableDecl(decl), vars, actions);
            },
            IrControlLocalDecl::Instantiation(instantiation) => {
                lemma_run_one_more(
                    before,
                    IrStatementOrDecl::Instantiation(instantiation),
                    vars,
                    actions,
                );
            },
            _ => {},
        }
    }
}

/// The elements of a control block mean what the control block means.
proof fn lemma_run_control(control: IrControlDecl, vars: Vars, actions: Actions)
    ensures
        ({
            let decls = control.local_decls@;
            let elements = control_elements(control);
            run_elements(
                elements,
                elements.len(),
                vars,
                declare_actions(decls, decls.len(), actions),
            ) == run_control(control, vars, actions)
        }),
{
    let decls = control.local_decls@;
    let body = control.apply_body.0@;
    let known = declare_actions(decls, decls.len(), actions);
    lemma_run_locals(decls, decls.len(), vars, known);
    lemma_run_add(local_elements(decls, decls.len()), body, body.len(), vars, known);
}

/// The translation of a control block does what the control block means, and afterwards the
/// functions of the graph do what the actions mean, its own and those before. This is without
/// actions that call themselves: the graph has one return target for each action.
pub proof fn lemma_control_correct(
    control: IrControlDecl,
    g: GraphView,
    actions: Actions,
    before: Env,
    vars: Vars,
)
    requires
        g.wf(),
        control_calls_known(control, g.functions.dom()),
        no_recursion(control.local_decls@, actions),
        implements(g, actions),
        agrees(before, vars),
    ensures
        ({
            let part = control_gcl(control, g);
            let decls = control.local_decls@;
            let elements = control_elements(control);
            let declared = declare_actions(decls, decls.len(), actions);
            &&& implements(part.graph, declared)
            &&& does(
                part.graph,
                part.range,
                before,
                run_control(control, vars, actions),
                declared.all_callees(block_calls(elements, elements.len())),
            )
        }),
{
    let decls = control.local_decls@;
    let elements = control_elements(control);
    let declared = declare_actions(decls, decls.len(), actions);
    let called = actions_gcl(decls, decls.len(), g);
    let block = block_gcl(elements, called);
    let part = control_gcl(control, g);
    lemma_actions_grow(decls, decls.len(), g);
    lemma_actions_correct(decls, decls.len(), g, actions);
    lemma_block_extends(elements, called);
    lemma_block_correct(elements, called, declared, before, vars);
    lemma_run_control(control, vars, actions);
    lemma_renamed_keeps_code(block.graph, block.range.start, "control__todo"@);
    lemma_control_implements(control, g, actions);
    lemma_does_kept(
        block.graph,
        part.graph,
        block.range,
        before,
        run_control(control, vars, actions),
        declared.all_callees(block_calls(elements, elements.len())),
    );
}

} // verus!
