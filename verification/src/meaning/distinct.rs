//! Actions with numbers of their own do not call themselves.
//!
//! An action can only call what has been declared before it. So where no two actions have the
//! same number, there is no recursion, and the laws on control blocks and programs hold.

use vstd::prelude::*;

use crate::calls::{local_action, program_action};
use crate::gcl::RangeView;
use crate::graph::GraphView;
use crate::ir::{FunctionId, IrControlDecl, IrControlLocalDecl, IrDeclaration, IrProgram};
use crate::meaning::declarations::{is_not_recursive, no_recursion};
use crate::meaning::names::lemma_held_vars;
use crate::meaning::outcomes::{
    lemma_control_outcome, lemma_empty_tidy, lemma_program_constants_outcome,
    lemma_program_control_outcome, only_does,
};
use crate::meaning::programs::{
    control_range, decl_not_recursive, declare_controls, instantiate, is_last_control,
    program_not_recursive, run_constants,
};
use crate::meaning::runs::Env;
use crate::meaning::source::{declare_actions, held_vars, no_actions, run_control, Actions};
use crate::translation::{
    actions_calls_known, block_calls, control_calls_known, control_gcl, decl_calls_known,
    has_constant, has_control, known_after_decls, known_after_locals, local_calls_known,
    program_calls_known, program_gcl, program_state,
};

verus! {

/// Whether the actions of a control block have numbers of their own, none of which is in `known`.
pub open spec fn has_distinct_actions(
    decls: Seq<IrControlLocalDecl>,
    known: Set<FunctionId>,
) -> bool {
    &&& forall|i: int, j: int|
        0 <= i < j < decls.len() && #[trigger] local_action(decls, i) is Some ==> local_action(
            decls,
            i,
        ) != #[trigger] local_action(decls, j)
    &&& forall|i: int|
        0 <= i < decls.len() && #[trigger] local_action(decls, i) is Some ==> !known.contains(
            local_action(decls, i)->0,
        )
}

/// Whether the actions of a program have numbers of their own, none of which is in `known`.
pub open spec fn has_distinct_program_actions(
    decls: Seq<IrDeclaration>,
    known: Set<FunctionId>,
) -> bool {
    &&& forall|d: int, i: int, e: int, j: int|
        0 <= d < decls.len() && 0 <= e < decls.len() && (d != e || i != j)
            && #[trigger] program_action(decls, d, i) is Some ==> program_action(decls, d, i)
            != #[trigger] program_action(decls, e, j)
    &&& forall|d: int, i: int|
        0 <= d < decls.len() && #[trigger] program_action(decls, d, i) is Some ==> !known.contains(
            program_action(decls, d, i)->0,
        )
}

/// Whether the actions of `known` call none but those of `known`.
pub open spec fn is_closed(actions: Actions, known: Set<FunctionId>) -> bool {
    forall|id: FunctionId| #[trigger]
        known.contains(id) ==> (actions.callees)(id).subset_of(known)
}

/// What is called within a closed set stays in it.
proof fn lemma_all_callees_closed(
    actions: Actions,
    calls: Set<FunctionId>,
    known: Set<FunctionId>,
)
    requires
        is_closed(actions, known),
        calls.subset_of(known),
    ensures
        actions.all_callees(calls).subset_of(known),
{
    assert forall|id: FunctionId| #[trigger]
        actions.all_callees(calls).contains(id) implies known.contains(id) by {
        if !calls.contains(id) {
            let f = choose|f: FunctionId| #[trigger]
                calls.contains(f) && (actions.callees)(f).contains(id);
            assert(known.contains(f));
        }
    }
}

/// The actions of a control block, with those that were known, call none but each other.
proof fn lemma_locals_closed(
    decls: Seq<IrControlLocalDecl>,
    k: nat,
    known: Set<FunctionId>,
    actions: Actions,
)
    requires
        k <= decls.len(),
        is_closed(actions, known),
        actions_calls_known(decls, known),
    ensures
        is_closed(declare_actions(decls, k, actions), known_after_locals(decls, k, known)),
    decreases k,
{
    if k > 0 {
        let j = (k - 1) as nat;
        lemma_locals_closed(decls, j, known, actions);
        assert(local_calls_known(decls, k - 1, known));
        if let IrControlLocalDecl::Action(action) = decls[k - 1] {
            let before = declare_actions(decls, j, actions);
            let after = declare_actions(decls, k, actions);
            let so_far = known_after_locals(decls, j, known);
            let body = action.body.0@;
            lemma_all_callees_closed(before, block_calls(body, body.len()), so_far);
            assert forall|id: FunctionId| #[trigger]
                so_far.insert(action.id).contains(id) implies (after.callees)(id).subset_of(
                so_far.insert(action.id),
            ) by {
                if id != action.id {
                    assert(so_far.contains(id));
                }
            }
        }
    }
}

/// What is known after local declarations was known, or has been declared by one of them.
proof fn lemma_known_after_locals(
    decls: Seq<IrControlLocalDecl>,
    k: nat,
    known: Set<FunctionId>,
    id: FunctionId,
)
    requires
        k <= decls.len(),
        known_after_locals(decls, k, known).contains(id),
    ensures
        known.contains(id) || exists|i: int|
            0 <= i < k && #[trigger] local_action(decls, i) == Some(id),
    decreases k,
{
    if k > 0 {
        let j = (k - 1) as nat;
        if known_after_locals(decls, j, known).contains(id) {
            lemma_known_after_locals(decls, j, known, id);
        } else {
            assert(local_action(decls, k - 1) == Some(id));
        }
    }
}

/// Where the actions of a control block have numbers of their own, none calls itself. `known` are
/// the actions that are there before; in a new graph there are none.
pub proof fn lemma_distinct_not_recursive(
    control: IrControlDecl,
    known: Set<FunctionId>,
    actions: Actions,
)
    requires
        control_calls_known(control, known),
        has_distinct_actions(control.local_decls@, known),
        is_closed(actions, known),
    ensures
        no_recursion(control.local_decls@, actions),
{
    let decls = control.local_decls@;
    assert forall|i: int| 0 <= i < decls.len() implies #[trigger] is_not_recursive(
        decls,
        i,
        actions,
    ) by {
        if let IrControlLocalDecl::Action(action) = decls[i] {
            let body = action.body.0@;
            let so_far = known_after_locals(decls, i as nat, known);
            lemma_locals_closed(decls, i as nat, known, actions);
            assert(local_calls_known(decls, i, known));
            lemma_all_callees_closed(
                declare_actions(decls, i as nat, actions),
                block_calls(body, body.len()),
                so_far,
            );
            assert(local_action(decls, i) == Some(action.id));
            if so_far.contains(action.id) {
                lemma_known_after_locals(decls, i as nat, known, action.id);
                let j = choose|j: int|
                    0 <= j < i && #[trigger] local_action(decls, j) == Some(action.id);
                assert(local_action(decls, j) != local_action(decls, i));
            }
        }
    }
}

/// The actions of a program, with those that were known, call none but each other.
proof fn lemma_decls_closed(
    program: IrProgram,
    k: nat,
    known: Set<FunctionId>,
    actions: Actions,
)
    requires
        k <= program.declarations@.len(),
        is_closed(actions, known),
        program_calls_known(program, known),
    ensures
        is_closed(
            declare_controls(program.declarations@, k, actions),
            known_after_decls(program.declarations@, k, known),
        ),
    decreases k,
{
    let decls = program.declarations@;
    if k > 0 {
        let j = (k - 1) as nat;
        lemma_decls_closed(program, j, known, actions);
        assert(decl_calls_known(decls, k - 1, known));
        if let IrDeclaration::Control(control) = decls[k - 1] {
            lemma_locals_closed(
                control.local_decls@,
                control.local_decls@.len(),
                known_after_decls(decls, j, known),
                declare_controls(decls, j, actions),
            );
        }
    }
}

/// What is known after declarations was known, or has been declared by one of them.
proof fn lemma_known_after_decls(
    decls: Seq<IrDeclaration>,
    k: nat,
    known: Set<FunctionId>,
    id: FunctionId,
)
    requires
        k <= decls.len(),
        known_after_decls(decls, k, known).contains(id),
    ensures
        known.contains(id) || exists|d: int, i: int|
            0 <= d < k && #[trigger] program_action(decls, d, i) == Some(id),
    decreases k,
{
    if k > 0 {
        let j = (k - 1) as nat;
        let so_far = known_after_decls(decls, j, known);
        if so_far.contains(id) {
            lemma_known_after_decls(decls, j, known, id);
        } else if let IrDeclaration::Control(control) = decls[k - 1] {
            let locals = control.local_decls@;
            lemma_known_after_locals(locals, locals.len(), so_far, id);
            let i = choose|i: int|
                0 <= i < locals.len() && #[trigger] local_action(locals, i) == Some(id);
            assert(program_action(decls, k - 1, i) == Some(id));
        }
    }
}

/// Where the actions of a program have numbers of their own, none calls itself. `known` are the
/// actions that are there before; in a new graph there are none.
pub proof fn lemma_distinct_program_not_recursive(
    program: IrProgram,
    known: Set<FunctionId>,
    actions: Actions,
)
    requires
        program_calls_known(program, known),
        has_distinct_program_actions(program.declarations@, known),
        is_closed(actions, known),
    ensures
        program_not_recursive(program, actions),
{
    let decls = program.declarations@;
    assert forall|d: int| 0 <= d < decls.len() implies #[trigger] decl_not_recursive(
        decls,
        d,
        actions,
    ) by {
        if let IrDeclaration::Control(control) = decls[d] {
            let locals = control.local_decls@;
            let so_far = known_after_decls(decls, d as nat, known);
            assert(decl_calls_known(decls, d, known));
            lemma_decls_closed(program, d as nat, known, actions);
            assert forall|i: int, j: int|
                0 <= i < j < locals.len() && #[trigger] local_action(
                    locals,
                    i,
                ) is Some implies local_action(locals, i) != #[trigger] local_action(
                locals,
                j,
            ) by {
                assert(program_action(decls, d, i) == local_action(locals, i));
                assert(program_action(decls, d, j) == local_action(locals, j));
            }
            assert forall|i: int|
                0 <= i < locals.len() && #[trigger] local_action(
                    locals,
                    i,
                ) is Some implies !so_far.contains(local_action(locals, i)->0) by {
                let id = local_action(locals, i)->0;
                assert(program_action(decls, d, i) == Some(id));
                if so_far.contains(id) {
                    lemma_known_after_decls(decls, d as nat, known, id);
                    let (e, j) = choose|e: int, j: int|
                        0 <= e < d && #[trigger] program_action(decls, e, j) == Some(id);
                    assert(program_action(decls, d, i) != program_action(decls, e, j));
                }
            }
            lemma_distinct_not_recursive(
                control,
                so_far,
                declare_controls(decls, d as nat, actions),
            );
        }
    }
}

/// A control block whose calls are known and whose actions have numbers of their own, in a new
/// graph: it has no outcome but what it means, whatever the variables hold.
pub proof fn lemma_new_control_outcome(control: IrControlDecl, before: Env)
    requires
        control_calls_known(control, GraphView::empty().functions.dom()),
        has_distinct_actions(control.local_decls@, Set::empty()),
    ensures
        only_does(
            control_gcl(control, GraphView::empty()).graph,
            control_gcl(control, GraphView::empty()).range,
            before,
            run_control(control, held_vars(before), no_actions()),
        ),
{
    let g = GraphView::empty();
    assert(g.functions.dom() =~= Set::empty());
    lemma_distinct_not_recursive(control, g.functions.dom(), no_actions());
    lemma_empty_tidy(no_actions());
    lemma_held_vars(before);
    lemma_control_outcome(control, g, no_actions(), before, held_vars(before));
}

/// A program whose calls are known and whose actions have numbers of their own, in a new graph.
/// Without constants, the last control block runs from the start node; without control blocks,
/// the constants are declared. There is no other outcome, whatever the variables hold.
pub proof fn lemma_new_program_outcome(program: IrProgram, before: Env)
    requires
        program_calls_known(program, GraphView::empty().functions.dom()),
        has_distinct_program_actions(program.declarations@, Set::empty()),
    ensures
        ({
            let decls = program.declarations@;
            let g = GraphView::empty();
            let later = program_gcl(program, g);
            let ready = instantiate(decls, decls.len(), held_vars(before));
            &&& !has_constant(decls, decls.len()) ==> forall|i: int| #[trigger]
                is_last_control(decls, i) ==> only_does(
                    later,
                    RangeView { start: 0, end: control_range(decls, i, g).end },
                    before,
                    run_control(
                        decls[i]->Control_0,
                        ready,
                        declare_controls(decls, i as nat, no_actions()),
                    ),
                )
            &&& !has_control(decls, decls.len()) ==> only_does(
                later,
                RangeView { start: 0, end: program_state(decls, decls.len(), g).end },
                before,
                run_constants(decls, decls.len(), ready, no_actions()),
            )
        }),
{
    let decls = program.declarations@;
    let g = GraphView::empty();
    assert(g.functions.dom() =~= Set::empty());
    lemma_distinct_program_not_recursive(program, g.functions.dom(), no_actions());
    lemma_empty_tidy(no_actions());
    lemma_held_vars(before);
    let vars = held_vars(before);
    if !has_constant(decls, decls.len()) {
        assert forall|i: int| #[trigger] is_last_control(decls, i) implies only_does(
            program_gcl(program, g),
            RangeView { start: 0, end: control_range(decls, i, g).end },
            before,
            run_control(
                decls[i]->Control_0,
                instantiate(decls, decls.len(), vars),
                declare_controls(decls, i as nat, no_actions()),
            ),
        ) by {
            lemma_program_control_outcome(program, g, no_actions(), before, vars, i);
        }
    }
    if !has_control(decls, decls.len()) {
        lemma_program_constants_outcome(program, g, no_actions(), before, vars);
    }
}

} // verus!
