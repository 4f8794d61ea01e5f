//! The functions of a graph, and the nodes by which a program and its parts are entered.

use vstd::prelude::*;

use crate::calls::{can_call, lemma_decls_known, local_action};
use crate::gcl::{
    CommandView, EdgeView, GclNodeRange, NodeIndex, NodeView, PredicateView, RangeView,
};
use crate::graph::GraphView;
use crate::growth::{
    lemma_action_extends, lemma_actions_grow, lemma_block_extends, lemma_program_grows,
    lemma_program_state_extends,
};
use crate::ir::{
    FunctionId, IrActionDecl, IrControlDecl, IrControlLocalDecl, IrDeclaration, IrFunctionCall,
    IrProgram,
};
use crate::meaning::programs::{is_apart, lemma_start_apart};
use crate::text::decimal;
use crate::to_gcl::ToGcl;
use crate::translation::{
    action_gcl, actions_calls_known, actions_gcl, block_calls, block_gcl, control_calls_known,
    control_elements, control_gcl, local_calls_known, node, program_calls_known, program_state,
    refilled,
};

verus! {

/// The action of the local declaration `i` of a control block, if it is one.
pub open spec fn is_action(decls: Seq<IrControlLocalDecl>, i: int, id: FunctionId) -> bool {
    0 <= i < decls.len() && local_action(decls, i) == Some(id)
}

/// Whether `range` is entered by the node of the action `id`: it has the name of the action,
/// notes that the action returns true, and leads on to one node in every case.
pub open spec fn is_action_range(g: GraphView, range: RangeView, id: FunctionId) -> bool {
    &&& 0 <= range.start < g.nodes.len()
    &&& 0 <= range.end < g.nodes.len()
    &&& g.nodes[range.start].name == "action__"@ + decimal(id as nat)
    &&& g.nodes[range.start].commands == seq![
        CommandView::Assignment("ret"@, PredicateView::Bool(true)),
    ]
}

/// The translation of an action is entered by the last of the new nodes, from which the only edge
/// always leads to its body.
pub proof fn lemma_action_entered(action: IrActionDecl, g: GraphView)
    requires
        g.wf(),
        block_calls(action.body.0@, action.body.0@.len()).subset_of(g.functions.dom()),
    ensures
        ({
            let body = block_gcl(action.body.0@, g);
            let part = action_gcl(action, g);
            &&& is_action_range(part.graph, part.range, action.id)
            &&& part.range.start == body.graph.nodes.len()
            &&& part.range.end == body.range.end
            &&& part.graph.nodes.len() == body.graph.nodes.len() + 1
            &&& part.graph.nodes.take(body.graph.nodes.len() as int) == body.graph.nodes
            &&& part.graph.edges == body.graph.edges.push(
                EdgeView {
                    from: part.range.start,
                    to: body.range.start,
                    pred: PredicateView::Bool(true),
                },
            )
            &&& part.graph.names == body.graph.names
        }),
{
    let body = block_gcl(action.body.0@, g);
    let part = action_gcl(action, g);
    lemma_block_extends(action.body.0@, g);
    assert(part.graph.nodes.take(body.graph.nodes.len() as int) =~= body.graph.nodes);
    assert(part.graph.edges =~= body.graph.edges.push(
        EdgeView {
            from: part.range.start,
            to: body.range.start,
            pred: PredicateView::Bool(true),
        },
    ));
}

/// A call is wired to its function, whatever the function is: from the first new node one can
/// always go on to where the function starts, and from where the function ends to the last new
/// node if that is the return target; the first node makes it so. There are no other new nodes
/// and edges.
pub proof fn lemma_call_wired(
    call: IrFunctionCall,
    g: GraphView,
    later: GraphView,
    range: GclNodeRange,
)
    requires
        g.functions.dom().contains(call.target),
        call.translates(g, later, range),
    ensures
        ({
            let function = g.functions[call.target];
            let target = "func_ret_target__"@ + decimal(call.target as nat);
            let first = later.nodes[range@.start];
            let last = later.nodes[range@.end];
            let e = g.edges.len() as int;
            &&& range@.start == g.nodes.len()
            &&& range@.end == g.nodes.len() + 1
            &&& later.nodes.len() == g.nodes.len() + 2
            &&& later.nodes.take(g.nodes.len() as int) == g.nodes
            &&& later.functions == g.functions
            &&& first.commands == seq![
                CommandView::Assignment(target, PredicateView::String(last.name)),
            ]
            &&& last.commands == Seq::<CommandView>::empty()
            &&& later.edges.len() == e + 2
            &&& later.edges.take(e) == g.edges
            &&& later.edges[e] == (EdgeView {
                from: range@.start,
                to: function.start,
                pred: PredicateView::Bool(true),
            })
            &&& later.edges[e + 1].from == function.end
            &&& later.edges[e + 1].to == range@.end
            &&& later.edges[e + 1].pred == PredicateView::Equality(
                Box::new(PredicateView::StringVar(target)),
                Box::new(PredicateView::String(last.name)),
            )
        }),
{
    let e = g.edges.len() as int;
    assert(later.nodes.take(g.nodes.len() as int) =~= g.nodes);
    assert(later.edges.take(e) =~= g.edges);
    assert(later.nodes[range@.end].commands =~= Seq::<CommandView>::empty());
}

/// The functions after the first local declarations.
proof fn lemma_actions_registered(decls: Seq<IrControlLocalDecl>, k: nat, g: GraphView)
    requires
        g.wf(),
        k <= decls.len(),
        actions_calls_known(decls, g.functions.dom()),
    ensures
        ({
            let later = actions_gcl(decls, k, g);
            &&& forall|id: FunctionId| #[trigger]
                later.functions.dom().contains(id) <==> g.functions.dom().contains(id) || exists|
                    i: int,
                |
                    i < k && #[trigger] is_action(decls, i, id)
            &&& forall|id: FunctionId| #[trigger]
                g.functions.dom().contains(id) && !(exists|i: int|
                    i < k && #[trigger] is_action(decls, i, id)) ==> later.functions[id]
                    == g.functions[id]
            &&& forall|i: int, id: FunctionId|
                i < k && #[trigger] is_action(decls, i, id) ==> {
                    &&& is_action_range(later, later.functions[id], id)
                    &&& later.functions[id].start >= g.nodes.len()
                    &&& later.functions[id].end >= g.nodes.len()
                    &&& later.functions[id].start >= actions_gcl(decls, i as nat, g).nodes.len()
                }
        }),
    decreases k,
{
    let later = actions_gcl(decls, k, g);
    if k > 0 {
        let j = (k - 1) as nat;
        let before = actions_gcl(decls, j, g);
        lemma_actions_registered(decls, j, g);
        lemma_actions_grow(decls, j, g);
        lemma_actions_grow(decls, k, g);
        assert(local_calls_known(decls, k - 1, g.functions.dom()));
        assert(g.nodes.len() <= before.nodes.len()) by {
            reveal(GraphView::is_kept_by);
        }
        if let IrControlLocalDecl::Action(action) = decls[k - 1] {
            let part = action_gcl(action, before);
            lemma_action_entered(action, before);
            lemma_action_extends(action, before);
            assert(is_action(decls, k - 1, action.id));
            assert forall|id: FunctionId| #[trigger]
                later.functions.dom().contains(id) <==> g.functions.dom().contains(id) || exists|
                    i: int,
                |
                    i < k && #[trigger] is_action(decls, i, id) by {
                if exists|i: int| i < j && #[trigger] is_action(decls, i, id) {
                    let i = choose|i: int| i < j && #[trigger] is_action(decls, i, id);
                    assert(i < k && is_action(decls, i, id));
                }
                if exists|i: int| i < k && #[trigger] is_action(decls, i, id) {
                    let i = choose|i: int| i < k && #[trigger] is_action(decls, i, id);
                    if i < j {
                        assert(i < j && is_action(decls, i, id));
                    }
                }
                assert(before.functions.dom().contains(id) <==> g.functions.dom().contains(id)
                    || exists|i: int| i < j && #[trigger] is_action(decls, i, id));
            }
            assert forall|id: FunctionId| #[trigger]
                g.functions.dom().contains(id) && !(exists|i: int|
                    i < k && #[trigger] is_action(decls, i, id)) implies later.functions[id]
                == g.functions[id] by {
                if exists|i: int| i < j && #[trigger] is_action(decls, i, id) {
                    let i = choose|i: int| i < j && #[trigger] is_action(decls, i, id);
                    assert(i < k && is_action(decls, i, id));
                }
                assert(id != action.id) by {
                    if id == action.id {
                        assert(k - 1 < k && is_action(decls, k - 1, id));
                    }
                }
            }
            assert forall|i: int, id: FunctionId|
                i < k && #[trigger] is_action(decls, i, id) implies {
                &&& is_action_range(later, later.functions[id], id)
                &&& later.functions[id].start >= g.nodes.len()
                &&& later.functions[id].end >= g.nodes.len()
                &&& later.functions[id].start >= actions_gcl(decls, i as nat, g).nodes.len()
            } by {
                if id == action.id {
                    lemma_actions_nodes(decls, i as nat, j, g);
                } else {
                    assert(i < j);
                    let range = before.functions[id];
                    assert(is_action_range(before, range, id));
                    assert(part.graph.nodes[range.start] == before.nodes[range.start]) by {
                        reveal(GraphView::is_kept_by);
                    }
                    assert(before.nodes.len() <= part.graph.nodes.len()) by {
                        reveal(GraphView::is_kept_by);
                    }
                }
            }
        } else {
            assert forall|id: FunctionId| #[trigger]
                later.functions.dom().contains(id) <==> g.functions.dom().contains(id) || exists|
                    i: int,
                |
                    i < k && #[trigger] is_action(decls, i, id) by {
                if exists|i: int| i < j && #[trigger] is_action(decls, i, id) {
                    let i = choose|i: int| i < j && #[trigger] is_action(decls, i, id);
                    assert(i < k && is_action(decls, i, id));
                }
                if exists|i: int| i < k && #[trigger] is_action(decls, i, id) {
                    let i = choose|i: int| i < k && #[trigger] is_action(decls, i, id);
                    assert(i < j && is_action(decls, i, id));
                }
            }
            assert forall|id: FunctionId| #[trigger]
                g.functions.dom().contains(id) && !(exists|i: int|
                    i < k && #[trigger] is_action(decls, i, id)) implies later.functions[id]
                == g.functions[id] by {
                if exists|i: int| i < j && #[trigger] is_action(decls, i, id) {
                    let i = choose|i: int| i < j && #[trigger] is_action(decls, i, id);
                    assert(i < k && is_action(decls, i, id));
                }
            }
        }
    }
}

/// Later actions have more nodes before them.
proof fn lemma_actions_nodes(decls: Seq<IrControlLocalDecl>, i: nat, k: nat, g: GraphView)
    requires
        g.wf(),
        i <= k <= decls.len(),
        actions_calls_known(decls, g.functions.dom()),
    ensures
        actions_gcl(decls, i, g).nodes.len() <= actions_gcl(decls, k, g).nodes.len(),
    decreases k,
{
    if i < k {
        let before = actions_gcl(decls, (k - 1) as nat, g);
        lemma_actions_nodes(decls, i, (k - 1) as nat, g);
        lemma_actions_grow(decls, (k - 1) as nat, g);
        assert(local_calls_known(decls, k - 1, g.functions.dom()));
        if let IrControlLocalDecl::Action(action) = decls[k - 1] {
            lemma_action_extends(action, before);
            reveal(GraphView::is_kept_by);
        }
    }
}

/// The functions of a graph after a control block are those that were there and its actions. An
/// action is entered by a new node of its own; it is the last one of its number, behind all that
/// was translated before it. The other functions stay as they were. The control block is entered
/// by a new node with the name `control__todo`.
pub proof fn lemma_control_registered(control: IrControlDecl, g: GraphView)
    requires
        g.wf(),
        control_calls_known(control, g.functions.dom()),
    ensures
        ({
            let decls = control.local_decls@;
            let part = control_gcl(control, g);
            let later = part.graph;
            &&& forall|id: FunctionId| #[trigger]
                later.functions.dom().contains(id) <==> g.functions.dom().contains(id) || exists|
                    i: int,
                | #[trigger]
                    is_action(decls, i, id)
            &&& forall|id: FunctionId| #[trigger]
                g.functions.dom().contains(id) && !(exists|i: int| #[trigger]
                    is_action(decls, i, id)) ==> later.functions[id] == g.functions[id]
            &&& forall|i: int, id: FunctionId| #[trigger]
                is_action(decls, i, id) ==> {
                    &&& is_action_range(later, later.functions[id], id)
                    &&& later.functions[id].start >= g.nodes.len()
                    &&& later.functions[id].end >= g.nodes.len()
                    &&& later.functions[id].start >= actions_gcl(decls, i as nat, g).nodes.len()
                }
            &&& g.nodes.len() <= part.range.start < later.nodes.len()
            &&& g.nodes.len() <= part.range.end < later.nodes.len()
            &&& later.nodes[part.range.start].name == "control__todo"@
        }),
{
    let decls = control.local_decls@;
    let elements = control_elements(control);
    let called = actions_gcl(decls, decls.len(), g);
    let block = block_gcl(elements, called);
    let part = control_gcl(control, g);
    let later = part.graph;
    lemma_actions_registered(decls, decls.len(), g);
    lemma_actions_grow(decls, decls.len(), g);
    lemma_block_extends(elements, called);
    assert(g.nodes.len() <= called.nodes.len() <= block.graph.nodes.len()) by {
        reveal(GraphView::is_kept_by);
    }
    assert(later.functions == called.functions);
    assert forall|id: FunctionId| #[trigger]
        later.functions.dom().contains(id) <==> g.functions.dom().contains(id) || exists|i: int|
         #[trigger]
            is_action(decls, i, id) by {
        if exists|i: int| #[trigger] is_action(decls, i, id) {
            let i = choose|i: int| #[trigger] is_action(decls, i, id);
            assert(i < decls.len() && is_action(decls, i, id));
        }
    }
    assert forall|i: int, id: FunctionId| #[trigger] is_action(decls, i, id) implies {
        &&& is_action_range(later, later.functions[id], id)
        &&& later.functions[id].start >= g.nodes.len()
        &&& later.functions[id].end >= g.nodes.len()
        &&& later.functions[id].start >= actions_gcl(decls, i as nat, g).nodes.len()
    } by {
        assert(i < decls.len() && is_action(decls, i, id));
        let range = called.functions[id];
        assert(is_action_range(called, range, id));
        assert(block.graph.nodes[range.start] == called.nodes[range.start]) by {
            reveal(GraphView::is_kept_by);
        }
        assert(block.range.start >= called.nodes.len());
    }
}

/// The commands of the instantiations among the first `k` declarations of a program, in order.
pub open spec fn start_commands(decls: Seq<IrDeclaration>, k: nat) -> Seq<CommandView>
    decreases k,
{
    if k == 0 || k > decls.len() {
        Seq::empty()
    } else {
        start_commands(decls, (k - 1) as nat) + match decls[k - 1] {
            IrDeclaration::Instantiation(instantiation) => seq![
                CommandView::Assignment(
                    "has_value__"@ + decimal(instantiation.id as nat),
                    PredicateView::Bool(true),
                ),
            ],
            _ => Seq::empty(),
        }
    }
}

/// The start node gets the commands of the instantiations.
pub proof fn lemma_start_commands(decls: Seq<IrDeclaration>, k: nat, g: GraphView)
    requires
        k <= decls.len(),
    ensures
        program_state(decls, k, g).commands == start_commands(decls, k),
    decreases k,
{
    assert(program_state(decls, k, g).commands =~= start_commands(decls, k)) by {
        if k > 0 {
            lemma_start_commands(decls, (k - 1) as nat, g);
        }
    }
}

/// The first of the new nodes of a program has the name `start` and the commands of all
/// instantiations of the program, in order. No edge leads to it, and it is not the node of a
/// function. The nodes, edges and functions that were there stay.
pub proof fn lemma_program_entered(
    program: IrProgram,
    g: GraphView,
    later: GraphView,
    output: NodeIndex,
)
    requires
        g.wf(),
        program_calls_known(program, g.functions.dom()),
        program.translates(g, later, output),
    ensures
        output@ == g.nodes.len(),
        later.nodes.len() > output@,
        later.nodes[output@] == (NodeView {
            name: "start"@,
            commands: start_commands(program.declarations@, program.declarations@.len()),
        }),
        later.nodes.take(g.nodes.len() as int) == g.nodes,
        later.edges.len() >= g.edges.len(),
        later.edges.take(g.edges.len() as int) == g.edges,
        forall|i: int| 0 <= i < later.edges.len() ==> (#[trigger] later.edges[i]).to != output@,
        forall|id: FunctionId| #[trigger]
            later.functions.dom().contains(id) ==> later.functions[id].start != output@
                && later.functions[id].end != output@,
        forall|id: FunctionId| #[trigger]
            later.functions.dom().contains(id) <==> can_call(
                program.declarations@,
                program.declarations@.len() as int,
                0,
                g.functions.dom(),
                id,
            ),
{
    let decls = program.declarations@;
    let n = g.nodes.len() as int;
    let state = program_state(decls, decls.len(), g);
    let filled = refilled(state.graph, n, state.commands);
    lemma_program_grows(program, g);
    lemma_program_state_extends(program, decls.len(), g);
    lemma_start_commands(decls, decls.len(), g);
    lemma_start_name(program, decls.len(), g);
    lemma_start_apart(program, decls.len(), g);
    assert(later.nodes.take(n) =~= g.nodes && later.edges.take(g.edges.len() as int) =~= g.edges
        && later.edges.len() >= g.edges.len()) by {
        reveal(GraphView::is_kept_by);
    }
    reveal(is_apart);
    assert forall|i: int| 0 <= i < later.edges.len() implies (#[trigger] later.edges[i]).to
        != n by {
        if i < filled.edges.len() {
            assert(later.edges[i] == state.graph.edges[i]);
        }
    }
    assert forall|id: FunctionId| #[trigger] later.functions.dom().contains(id) implies {
        later.functions[id].start != n && later.functions[id].end != n
    } by {
        assert(state.graph.functions.dom().contains(id));
    }
    assert forall|id: FunctionId| #[trigger] later.functions.dom().contains(id) <==> can_call(
        decls,
        decls.len() as int,
        0,
        g.functions.dom(),
        id,
    ) by {
        lemma_decls_known(decls, decls.len(), g.functions.dom(), id);
    }
}

/// The start node keeps its name.
proof fn lemma_start_name(program: IrProgram, k: nat, g: GraphView)
    requires
        g.wf(),
        k <= program.declarations@.len(),
        program_calls_known(program, g.functions.dom()),
    ensures
        program_state(program.declarations@, k, g).graph.nodes[g.nodes.len() as int].name
            == "start"@,
    decreases k,
{
    let n = g.nodes.len() as int;
    if k > 0 {
        let before = program_state(program.declarations@, (k - 1) as nat, g).graph;
        lemma_start_name(program, (k - 1) as nat, g);
        lemma_program_state_extends(program, (k - 1) as nat, g);
        lemma_program_state_extends(program, k, g);
        reveal(GraphView::is_kept_by);
        assert(program_state(program.declarations@, k, g).graph.nodes[n] == before.nodes[n]);
    } else {
        assert(program_state(program.declarations@, 0, g).graph.nodes[n] == node(
            "start"@,
            seq![],
        ));
    }
}

} // verus!
