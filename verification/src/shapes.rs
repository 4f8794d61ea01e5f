//! The nodes and edges that a graph is made of.
//!
//! A node tells by its name what it is for, and it holds the commands of that purpose and no
//! others. Likewise an edge is guarded by a value, by a check or by a return target, or not at
//! all.

use either::Either;
use vstd::prelude::*;

use crate::gcl::{CommandView, EdgeView, NodeIndex, NodeView, PredicateView, RangeView};
use crate::graph::GraphView;
use crate::growth::{lemma_actions_grow, lemma_block_extends, lemma_program_state_extends};
use crate::ir::{
    FunctionId, IrActionDecl, IrAssignment, IrControlDecl, IrControlLocalDecl, IrDeclaration,
    IrExpr, IrExprData, IrFunctionCall, IrIfStatement, IrInstantiation, IrProgram, IrStatement,
    IrStatementOrDecl, IrVariableDecl, VariableId,
};
use crate::text::{decimal, tagged};
use crate::to_gcl::ToGcl;
use crate::translation::{
    action_gcl, actions_gcl, always, assert_gcl, assign, assign_bool, assignment_gcl, block_gcl,
    block_state, branch_edges, branch_gcl, call_gcl, control_calls_known, control_elements,
    control_gcl, decl_calls_known, declared_var, edge, element_gcl, expr_gcl, has_value_var,
    if_end_gcl, if_gcl, instantiation_gcl, negated, node, program_calls_known, program_state,
    return_target_var, return_var, short_circuit_gcl, single_assignment_gcl, statement_gcl,
    value_var, var_decl_commands, var_decl_gcl, BlockState, Part, ValuePart,
};

verus! {

// ---------------------------------------------------------------------------------------
// Names and values
// ---------------------------------------------------------------------------------------
/// The name that is made of `base` and a number.
pub open spec fn numbered(base: Seq<char>, k: nat) -> Seq<char> {
    base + "__"@ + decimal(k)
}

/// Whether `name` is made of `base` and a number from `lo` up to `hi`.
pub open spec fn is_made(name: Seq<char>, base: Seq<char>, lo: nat, hi: nat) -> bool {
    exists|k: nat| lo <= k < hi && name == #[trigger] numbered(base, k)
}

/// Whether `pred` is the variable of an expression.
pub open spec fn is_value(pred: PredicateView, lo: nat, hi: nat) -> bool {
    pred is Var && is_made(pred->Var_0, "expr"@, lo, hi)
}

/// The command that gives the variable `name` the value `b`.
pub open spec fn sets(command: CommandView, name: Seq<char>, b: bool) -> bool {
    command == CommandView::Assignment(name, PredicateView::Bool(b))
}

/// Whether `command` notes that some variable has a value.
pub open spec fn notes_value(command: CommandView) -> bool {
    exists|id: VariableId|
        #![trigger decimal(id as nat)]
        sets(command, "has_value__"@ + decimal(id as nat), true)
}

// ---------------------------------------------------------------------------------------
// Nodes
// ---------------------------------------------------------------------------------------
/// A bug, and a check that may lead to it.
pub open spec fn is_check_node(node: NodeView, lo: nat, hi: nat) -> bool {
    ||| is_made(node.name, "bug"@, lo, hi) && node.commands == seq![CommandView::Bug]
    ||| is_made(node.name, "assert"@, lo, hi) && node.commands.len() == 0
}

/// A node in which ways meet.
pub open spec fn is_end_node(node: NodeView, lo: nat, hi: nat) -> bool {
    &&& node.commands.len() == 0
    &&& {
        ||| is_made(node.name, "add_expr_end"@, lo, hi)
        ||| is_made(node.name, "or_expr_end"@, lo, hi)
        ||| is_made(node.name, "if_end"@, lo, hi)
        ||| is_made(node.name, "func_call_end"@, lo, hi)
    }
}

/// A node that gives the variable of its own name a value: a literal, the value of a variable, or
/// the opposite of another expression.
pub open spec fn is_expr_node(node: NodeView, lo: nat, hi: nat) -> bool {
    &&& is_made(node.name, "expr"@, lo, hi)
    &&& node.commands.len() == 1
    &&& node.commands[0] is Assignment
    &&& node.commands[0]->Assignment_0 == node.name
    &&& match node.commands[0]->Assignment_1 {
        PredicateView::Bool(_) => true,
        PredicateView::Var(name) => exists|id: VariableId|
            #![trigger decimal(id as nat)]
            name == "var__"@ + decimal(id as nat),
        PredicateView::Negation(inner) => is_value(*inner, lo, hi),
        _ => false,
    }
}

/// A node that notes how a conjunction or a disjunction came out.
pub open spec fn is_outcome_node(node: NodeView, lo: nat, hi: nat) -> bool {
    &&& node.commands.len() == 1
    &&& node.commands[0] is Assignment
    &&& is_made(node.commands[0]->Assignment_0, "expr"@, lo, hi)
    &&& {
        ||| {
            &&& is_made(node.name, "add_expr_true"@, lo, hi) || is_made(
                node.name,
                "or_expr_true"@,
                lo,
                hi,
            )
            &&& node.commands[0]->Assignment_1 == PredicateView::Bool(true)
        }
        ||| {
            &&& is_made(node.name, "add_expr_false"@, lo, hi) || is_made(
                node.name,
                "or_expr_false"@,
                lo,
                hi,
            )
            &&& node.commands[0]->Assignment_1 == PredicateView::Bool(false)
        }
        ||| {
            &&& is_made(node.name, "expr_func"@, lo, hi)
            &&& node.commands[0]->Assignment_1 == PredicateView::Var("ret"@)
        }
    }
}

/// A node that notes where a function shall return to.
pub open spec fn is_call_node(node: NodeView, lo: nat, hi: nat) -> bool {
    &&& is_made(node.name, "func_call_start"@, lo, hi)
    &&& node.commands.len() == 1
    &&& node.commands[0] is Assignment
    &&& exists|id: FunctionId|
        #![trigger decimal(id as nat)]
        node.commands[0]->Assignment_0 == "func_ret_target__"@ + decimal(id as nat)
    &&& node.commands[0]->Assignment_1 is String
    &&& is_made((node.commands[0]->Assignment_1)->String_0, "func_call_end"@, lo, hi)
}

/// The commands of a declaration of `id`: whether it has a value, that it has been declared if it
/// may be assigned to, and its value if it has one.
pub open spec fn are_declaring(
    commands: Seq<CommandView>,
    id: VariableId,
    lo: nat,
    hi: nat,
) -> bool {
    let has_value = "has_value__"@ + decimal(id as nat);
    let declared = "declared_var__"@ + decimal(id as nat);
    let value = "var__"@ + decimal(id as nat);
    let n = commands.len() as int;
    ||| n == 1 && sets(commands[0], has_value, false)
    ||| n == 2 && sets(commands[0], has_value, false) && sets(commands[1], declared, true)
    ||| {
        &&& n == 2 || (n == 3 && sets(commands[1], declared, true))
        &&& sets(commands[0], has_value, true)
        &&& commands[n - 1] is Assignment
        &&& commands[n - 1]->Assignment_0 == value
        &&& is_value(commands[n - 1]->Assignment_1, lo, hi)
    }
}

/// A node that declares the variable in its name.
pub open spec fn is_declaration_node(node: NodeView, lo: nat, hi: nat) -> bool {
    exists|id: VariableId|
        #![trigger decimal(id as nat)]
        {
            &&& is_made(node.name, "var_decl__"@ + decimal(id as nat), lo, hi)
            &&& are_declaring(node.commands, id, lo, hi)
        }
}

/// A node that assigns to the variable in its name.
pub open spec fn is_assignment_node(node: NodeView, lo: nat, hi: nat) -> bool {
    exists|id: VariableId|
        #![trigger decimal(id as nat)]
        {
            &&& is_made(node.name, "assignment__"@ + decimal(id as nat), lo, hi)
            &&& node.commands.len() == 2
            &&& sets(node.commands[0], "has_value__"@ + decimal(id as nat), true)
            &&& node.commands[1] is Assignment
            &&& node.commands[1]->Assignment_0 == "var__"@ + decimal(id as nat)
            &&& is_value(node.commands[1]->Assignment_1, lo, hi)
        }
}

/// A node of instantiations.
pub open spec fn is_group_node(node: NodeView, lo: nat, hi: nat) -> bool {
    &&& is_made(node.name, "block_stmt_body"@, lo, hi)
    &&& forall|i: int| 0 <= i < node.commands.len() ==> notes_value(#[trigger] node.commands[i])
}

/// The first node of an action.
pub open spec fn is_action_node(node: NodeView) -> bool {
    &&& exists|id: FunctionId|
        #![trigger decimal(id as nat)]
        node.name == "action__"@ + decimal(id as nat)
    &&& node.commands.len() == 1
    &&& sets(node.commands[0], "ret"@, true)
}

/// Whether a node is of one of these kinds, where the numbers of names go from `lo` up to `hi`.
#[verifier::opaque]
pub open spec fn is_shaped(node: NodeView, lo: nat, hi: nat) -> bool {
    ||| is_check_node(node, lo, hi)
    ||| is_end_node(node, lo, hi)
    ||| is_expr_node(node, lo, hi)
    ||| is_outcome_node(node, lo, hi)
    ||| is_call_node(node, lo, hi)
    ||| is_declaration_node(node, lo, hi)
    ||| is_assignment_node(node, lo, hi)
    ||| is_group_node(node, lo, hi)
    ||| is_action_node(node)
}

// ---------------------------------------------------------------------------------------
// Edges
// ---------------------------------------------------------------------------------------
/// Whether `pred` tells the value of an expression, or whether a variable has a value or has been
/// declared.
pub open spec fn is_test(pred: PredicateView, lo: nat, hi: nat) -> bool {
    ||| is_value(pred, lo, hi)
    ||| exists|id: VariableId|
        #![trigger decimal(id as nat)]
        pred == PredicateView::Var("has_value__"@ + decimal(id as nat)) || pred
            == PredicateView::Var("declared_var__"@ + decimal(id as nat))
}

/// Whether `pred` may guard an edge: always true, a test, the opposite of a test, or a comparison
/// of the return target of a function with the end of a call.
#[verifier::opaque]
pub open spec fn is_guard(pred: PredicateView, lo: nat, hi: nat) -> bool {
    ||| pred == PredicateView::Bool(true)
    ||| is_test(pred, lo, hi)
    ||| pred is Negation && is_test(*pred->Negation_0, lo, hi)
    ||| {
        &&& pred is Equality
        &&& *pred->Equality_0 is StringVar
        &&& exists|id: FunctionId|
            #![trigger decimal(id as nat)]
            (*pred->Equality_0)->StringVar_0 == "func_ret_target__"@ + decimal(id as nat)
        &&& *pred->Equality_1 is String
        &&& is_made((*pred->Equality_1)->String_0, "func_call_end"@, lo, hi)
    }
}

// ---------------------------------------------------------------------------------------
// Graphs
// ---------------------------------------------------------------------------------------
/// Whether `later` has what `g` has, and each of its further nodes and edges is of one of the
/// kinds above, with names that were created since.
#[verifier::opaque]
pub open spec fn shaped_since(g: GraphView, later: GraphView) -> bool {
    &&& g.nodes.len() <= later.nodes.len()
    &&& g.edges.len() <= later.edges.len()
    &&& g.names <= later.names
    &&& forall|i: int|
        g.nodes.len() <= i < later.nodes.len() ==> is_shaped(
            #[trigger] later.nodes[i],
            g.names,
            later.names,
        )
    &&& forall|i: int|
        g.edges.len() <= i < later.edges.len() ==> is_guard(
            (#[trigger] later.edges[i]).pred,
            g.names,
            later.names,
        )
}

/// Every graph is so since itself.
pub proof fn lemma_shaped_self(g: GraphView)
    ensures
        shaped_since(g, g),
{
    reveal(shaped_since);
}

/// More names leave values values.
proof fn lemma_value_later(pred: PredicateView, lo: nat, hi: nat, more: nat)
    requires
        is_value(pred, lo, hi),
        hi <= more,
    ensures
        is_value(pred, lo, more),
{
}

/// More names leave nodes of their kinds.
proof fn lemma_node_later(node: NodeView, lo: nat, hi: nat, more: nat)
    requires
        is_shaped(node, lo, hi),
        hi <= more,
    ensures
        is_shaped(node, lo, more),
{
    reveal(is_shaped);
    if is_declaration_node(node, lo, hi) {
        let id = choose|id: VariableId|
            #![trigger decimal(id as nat)]
            {
                &&& is_made(node.name, "var_decl__"@ + decimal(id as nat), lo, hi)
                &&& are_declaring(node.commands, id, lo, hi)
            };
        assert(is_made(node.name, "var_decl__"@ + decimal(id as nat), lo, more));
        assert(are_declaring(node.commands, id, lo, more));
        assert(is_declaration_node(node, lo, more));
    } else if is_assignment_node(node, lo, hi) {
        let id = choose|id: VariableId|
            #![trigger decimal(id as nat)]
            {
                &&& is_made(node.name, "assignment__"@ + decimal(id as nat), lo, hi)
                &&& node.commands.len() == 2
                &&& sets(node.commands[0], "has_value__"@ + decimal(id as nat), true)
                &&& node.commands[1] is Assignment
                &&& node.commands[1]->Assignment_0 == "var__"@ + decimal(id as nat)
                &&& is_value(node.commands[1]->Assignment_1, lo, hi)
            };
        assert(is_made(node.name, "assignment__"@ + decimal(id as nat), lo, more));
        assert(is_assignment_node(node, lo, more));
    }
}

/// More names leave guards guards.
proof fn lemma_guard_later(pred: PredicateView, lo: nat, hi: nat, more: nat)
    requires
        is_guard(pred, lo, hi),
        hi <= more,
    ensures
        is_guard(pred, lo, more),
{
    reveal(is_guard);
}

/// More nodes and edges of these kinds may be added.
proof fn lemma_shaped_grow(
    base: GraphView,
    g: GraphView,
    nodes: Seq<NodeView>,
    edges: Seq<EdgeView>,
    names: nat,
)
    requires
        shaped_since(base, g),
        forall|i: int|
            0 <= i < nodes.len() ==> is_shaped(
                #[trigger] nodes[i],
                base.names,
                g.names + names,
            ),
        forall|i: int|
            0 <= i < edges.len() ==> is_guard(
                (#[trigger] edges[i]).pred,
                base.names,
                g.names + names,
            ),
    ensures
        shaped_since(base, g.grow(nodes, edges, names)),
{
    reveal(shaped_since);
    let later = g.grow(nodes, edges, names);
    assert forall|i: int| base.nodes.len() <= i < later.nodes.len() implies is_shaped(
        #[trigger] later.nodes[i],
        base.names,
        later.names,
    ) by {
        if i < g.nodes.len() {
            assert(later.nodes[i] == g.nodes[i]);
            lemma_node_later(g.nodes[i], base.names, g.names, later.names);
        } else {
            assert(later.nodes[i] == nodes[i - g.nodes.len()]);
        }
    }
    assert forall|i: int| base.edges.len() <= i < later.edges.len() implies is_guard(
        (#[trigger] later.edges[i]).pred,
        base.names,
        later.names,
    ) by {
        if i < g.edges.len() {
            assert(later.edges[i] == g.edges[i]);
            lemma_guard_later(g.edges[i].pred, base.names, g.names, later.names);
        } else {
            assert(later.edges[i] == edges[i - g.edges.len()]);
        }
    }
}

// ---------------------------------------------------------------------------------------
// Expressions
// ---------------------------------------------------------------------------------------
/// A name that `g` creates next is made of its base and a number.
proof fn lemma_fresh_made(g: GraphView, base: Seq<char>, k: nat, lo: nat, hi: nat)
    requires
        lo <= g.names,
        g.names + k < hi,
    ensures
        is_made(g.fresh(base, k), base, lo, hi),
{
    assert(g.fresh(base, k) == numbered(base, g.names + k));
}

/// A check in front of a node.
proof fn lemma_assert_shapes(base: GraphView, pred: PredicateView, next: int, g: GraphView)
    requires
        shaped_since(base, g),
        is_test(pred, base.names, g.names),
    ensures
        shaped_since(base, assert_gcl(pred, next, g)),
{
    let n = g.nodes.len() as int;
    let lo = base.names;
    let hi = g.names + 2;
    let nodes = seq![
        node(g.fresh("bug"@, 0), seq![CommandView::Bug]),
        node(g.fresh("assert"@, 1), seq![]),
    ];
    let edges = seq![edge(n + 1, next, pred), edge(n + 1, n, negated(pred))];
    assert(lo <= g.names) by {
        reveal(shaped_since);
    }
    assert(is_shaped(nodes[0], lo, hi) && is_shaped(nodes[1], lo, hi)) by {
        reveal(is_shaped);
        lemma_fresh_made(g, "bug"@, 0, lo, hi);
        lemma_fresh_made(g, "assert"@, 1, lo, hi);
    }
    assert(is_guard(edges[0].pred, lo, hi) && is_guard(edges[1].pred, lo, hi)) by {
        reveal(is_guard);
    }
    lemma_shaped_grow(base, g, nodes, edges, 2);
}

/// One more node, which gives the variable of its own name a value.
proof fn lemma_expr_node_shapes(
    base: GraphView,
    g: GraphView,
    value: PredicateView,
    edges: Seq<EdgeView>,
)
    requires
        shaped_since(base, g),
        ({
            ||| value is Bool
            ||| exists|id: VariableId|
                #![trigger decimal(id as nat)]
                value == PredicateView::Var("var__"@ + decimal(id as nat))
            ||| value is Negation && is_value(*value->Negation_0, base.names, g.names)
        }),
        forall|i: int|
            0 <= i < edges.len() ==> (#[trigger] edges[i]).pred == PredicateView::Bool(true),
    ensures
        ({
            let name = g.fresh("expr"@, 0);
            let later = g.grow(seq![node(name, seq![assign(name, value)])], edges, 1);
            &&& shaped_since(base, later)
            &&& is_value(PredicateView::Var(name), base.names, later.names)
        }),
{
    let name = g.fresh("expr"@, 0);
    let added = node(name, seq![assign(name, value)]);
    let lo = base.names;
    let hi = g.names + 1;
    assert(lo <= g.names) by {
        reveal(shaped_since);
    }
    lemma_fresh_made(g, "expr"@, 0, lo, hi);
    assert(is_shaped(added, lo, hi)) by {
        reveal(is_shaped);
        assert(is_expr_node(added, lo, hi));
    }
    assert forall|i: int| 0 <= i < edges.len() implies is_guard(
        (#[trigger] edges[i]).pred,
        lo,
        hi,
    ) by {
        reveal(is_guard);
    }
    lemma_shaped_grow(base, g, seq![added], edges, 1);
}

/// A conjunction or a disjunction.
proof fn lemma_short_circuit_shapes(
    base: GraphView,
    left: ValuePart,
    right: ValuePart,
    is_and: bool,
)
    requires
        shaped_since(base, right.graph),
        is_value(left.pred, base.names, right.graph.names),
        is_value(right.pred, base.names, right.graph.names),
    ensures
        shaped_since(base, short_circuit_gcl(left, right, is_and).graph),
        is_value(
            short_circuit_gcl(left, right, is_and).pred,
            base.names,
            short_circuit_gcl(left, right, is_and).graph.names,
        ),
{
    let g = right.graph;
    let n = g.nodes.len() as int;
    let part = short_circuit_gcl(left, right, is_and);
    let lo = base.names;
    let hi = g.names + 4;
    let nodes = part.graph.nodes.skip(n);
    let edges = part.graph.edges.skip(g.edges.len() as int);
    assert(part.graph.nodes =~= g.nodes + nodes);
    assert(part.graph.edges =~= g.edges + edges);
    assert(lo <= g.names) by {
        reveal(shaped_since);
    }
    lemma_fresh_made(g, "expr"@, 0, lo, hi);
    assert forall|i: int| 0 <= i < nodes.len() implies is_shaped(
        #[trigger] nodes[i],
        lo,
        hi,
    ) by {
        reveal(is_shaped);
        lemma_fresh_made(g, "add_expr_true"@, 1, lo, hi);
        lemma_fresh_made(g, "add_expr_false"@, 2, lo, hi);
        lemma_fresh_made(g, "add_expr_end"@, 3, lo, hi);
        lemma_fresh_made(g, "or_expr_true"@, 1, lo, hi);
        lemma_fresh_made(g, "or_expr_false"@, 2, lo, hi);
        lemma_fresh_made(g, "or_expr_end"@, 3, lo, hi);
        if i < 2 {
            assert(is_outcome_node(nodes[i], lo, hi));
        } else {
            assert(is_end_node(nodes[i], lo, hi));
        }
    }
    assert forall|i: int| 0 <= i < edges.len() implies is_guard(
        (#[trigger] edges[i]).pred,
        lo,
        hi,
    ) by {
        reveal(is_guard);
        lemma_value_later(left.pred, lo, g.names, hi);
        lemma_value_later(right.pred, lo, g.names, hi);
    }
    lemma_shaped_grow(base, g, nodes, edges, 4);
    assert(part.graph == g.grow(nodes, edges, 4));
}

/// The nodes and edges of a call.
pub proof fn lemma_call_shapes(base: GraphView, call: IrFunctionCall, g: GraphView)
    requires
        shaped_since(base, g),
    ensures
        shaped_since(base, call_gcl(call, g).graph),
{
    let part = call_gcl(call, g);
    let lo = base.names;
    let hi = g.names + 2;
    let nodes = part.graph.nodes.skip(g.nodes.len() as int);
    let edges = part.graph.edges.skip(g.edges.len() as int);
    assert(part.graph.nodes =~= g.nodes + nodes);
    assert(part.graph.edges =~= g.edges + edges);
    assert(lo <= g.names) by {
        reveal(shaped_since);
    }
    lemma_fresh_made(g, "func_call_start"@, 0, lo, hi);
    lemma_fresh_made(g, "func_call_end"@, 1, lo, hi);
    let target = "func_ret_target__"@ + decimal(call.target as nat);
    assert(return_target_var(call.target) == target);
    assert forall|i: int| 0 <= i < nodes.len() implies is_shaped(
        #[trigger] nodes[i],
        lo,
        hi,
    ) by {
        reveal(is_shaped);
        if i == 0 {
            assert(is_call_node(nodes[i], lo, hi));
        } else {
            assert(is_end_node(nodes[i], lo, hi));
        }
    }
    assert forall|i: int| 0 <= i < edges.len() implies is_guard(
        (#[trigger] edges[i]).pred,
        lo,
        hi,
    ) by {
        reveal(is_guard);
    }
    lemma_shaped_grow(base, g, nodes, edges, 2);
    assert(part.graph == g.grow(nodes, edges, 2));
}

/// The nodes and edges of an expression; its value is the variable of an expression.
pub proof fn lemma_expr_shapes(base: GraphView, expr: IrExpr, g: GraphView)
    requires
        shaped_since(base, g),
    ensures
        shaped_since(base, expr_gcl(expr, g).graph),
        is_value(expr_gcl(expr, g).pred, base.names, expr_gcl(expr, g).graph.names),
    decreases expr, 0nat,
{
    let lo = base.names;
    match expr.data {
        IrExprData::Bool(b) => {
            lemma_expr_node_shapes(base, g, PredicateView::Bool(b), seq![]);
        },
        IrExprData::Var(id) => {
            let value = PredicateView::Var(value_var(id));
            assert(value == PredicateView::Var("var__"@ + decimal(id as nat)));
            lemma_expr_node_shapes(base, g, value, seq![]);
            let mid = single_assignment_gcl(value, g);
            let test = PredicateView::Var(has_value_var(id));
            assert(test == PredicateView::Var("has_value__"@ + decimal(id as nat)));
            lemma_assert_shapes(base, test, g.nodes.len() as int, mid);
            lemma_value_later(
                PredicateView::Var(g.fresh("expr"@, 0)),
                lo,
                mid.names,
                mid.names + 2,
            );
        },
        IrExprData::And(left, right) => {
            let left_part = expr_gcl(*left, g);
            let right_part = expr_gcl(*right, left_part.graph);
            lemma_expr_shapes(base, *left, g);
            lemma_expr_shapes(base, *right, left_part.graph);
            lemma_expr_names(*right, left_part.graph);
            lemma_value_later(left_part.pred, lo, left_part.graph.names, right_part.graph.names);
            lemma_short_circuit_shapes(base, left_part, right_part, true);
        },
        IrExprData::Or(left, right) => {
            let left_part = expr_gcl(*left, g);
            let right_part = expr_gcl(*right, left_part.graph);
            lemma_expr_shapes(base, *left, g);
            lemma_expr_shapes(base, *right, left_part.graph);
            lemma_expr_names(*right, left_part.graph);
            lemma_value_later(left_part.pred, lo, left_part.graph.names, right_part.graph.names);
            lemma_short_circuit_shapes(base, left_part, right_part, false);
        },
        IrExprData::Negation(inner) => {
            let part = expr_gcl(*inner, g);
            let m = part.graph.nodes.len() as int;
            lemma_expr_shapes(base, *inner, g);
            lemma_expr_node_shapes(
                base,
                part.graph,
                negated(part.pred),
                seq![always(part.range.end, m)],
            );
        },
        IrExprData::FunctionCall(call) => {
            let part = call_gcl(call, g);
            let m = part.graph.nodes.len() as int;
            let hi = part.graph.names + 2;
            let name = part.graph.fresh("expr"@, 0);
            let added = node(
                part.graph.fresh("expr_func"@, 1),
                seq![assign(name, PredicateView::Var(return_var()))],
            );
            let link = always(part.range.end, m);
            lemma_call_shapes(base, call, g);
            assert(lo <= part.graph.names) by {
                reveal(shaped_since);
            }
            lemma_fresh_made(part.graph, "expr"@, 0, lo, hi);
            lemma_fresh_made(part.graph, "expr_func"@, 1, lo, hi);
            assert(is_shaped(added, lo, hi)) by {
                reveal(is_shaped);
                assert(is_outcome_node(added, lo, hi));
            }
            assert(is_guard(link.pred, lo, hi)) by {
                reveal(is_guard);
            }
            lemma_shaped_grow(base, part.graph, seq![added], seq![link], 2);
        },
    }
}

/// An expression only adds to the names.
proof fn lemma_expr_names(expr: IrExpr, g: GraphView)
    ensures
        g.names <= expr_gcl(expr, g).graph.names,
    decreases expr, 1nat,
{
    lemma_shaped_self(g);
    lemma_expr_shapes(g, expr, g);
    reveal(shaped_since);
}

// ---------------------------------------------------------------------------------------
// Statements
// ---------------------------------------------------------------------------------------
/// The nodes and edges of a declaration.
pub proof fn lemma_var_decl_shapes(base: GraphView, decl: IrVariableDecl, g: GraphView)
    requires
        shaped_since(base, g),
    ensures
        shaped_since(base, var_decl_gcl(decl, g).graph),
{
    let lo = base.names;
    let tag = "var_decl__"@ + decimal(decl.id as nat);
    let name = g.fresh(tag, 0);
    let named = g.grow(seq![], seq![], 1);
    assert(lo <= g.names) by {
        reveal(shaped_since);
    }
    lemma_shaped_grow(base, g, seq![], seq![], 1);
    assert(tagged("var_decl__"@, decl.id as nat) == tag);
    match decl.value {
        Some(value) => {
            let part = expr_gcl(value, named);
            let n = part.graph.nodes.len() as int;
            let hi = part.graph.names;
            let added = node(name, var_decl_commands(decl, Some(part.pred)));
            let link = always(part.range.end, n);
            lemma_expr_shapes(base, value, named);
            lemma_expr_names(value, named);
            lemma_fresh_made(g, tag, 0, lo, hi);
            assert(is_shaped(added, lo, hi)) by {
                reveal(is_shaped);
                assert(are_declaring(added.commands, decl.id, lo, hi));
                assert(is_declaration_node(added, lo, hi));
            }
            assert(is_guard(link.pred, lo, hi)) by {
                reveal(is_guard);
            }
            lemma_shaped_grow(base, part.graph, seq![added], seq![link], 0);
        },
        None => {
            let hi = named.names;
            let added = node(name, var_decl_commands(decl, None));
            lemma_fresh_made(g, tag, 0, lo, hi);
            assert(is_shaped(added, lo, hi)) by {
                reveal(is_shaped);
                assert(are_declaring(added.commands, decl.id, lo, hi));
                assert(is_declaration_node(added, lo, hi));
            }
            lemma_shaped_grow(base, named, seq![added], seq![], 0);
        },
    }
}

/// The nodes and edges of an assignment.
pub proof fn lemma_assignment_shapes(base: GraphView, assignment: IrAssignment, g: GraphView)
    requires
        shaped_since(base, g),
    ensures
        shaped_since(base, assignment_gcl(assignment, g).graph),
{
    let id = assignment.var;
    let lo = base.names;
    let tag = "assignment__"@ + decimal(id as nat);
    let part = expr_gcl(assignment.value, g);
    let n = part.graph.nodes.len() as int;
    let hi = part.graph.names + 1;
    let added = node(
        part.graph.fresh(tag, 0),
        seq![assign_bool(has_value_var(id), true), assign(value_var(id), part.pred)],
    );
    let link = always(part.range.end, n);
    lemma_expr_shapes(base, assignment.value, g);
    assert(lo <= part.graph.names) by {
        reveal(shaped_since);
    }
    assert(tagged("assignment__"@, id as nat) == tag);
    lemma_fresh_made(part.graph, tag, 0, lo, hi);
    lemma_value_later(part.pred, lo, part.graph.names, hi);
    assert(is_shaped(added, lo, hi)) by {
        reveal(is_shaped);
        assert(is_assignment_node(added, lo, hi));
    }
    assert(is_guard(link.pred, lo, hi)) by {
        reveal(is_guard);
    }
    lemma_shaped_grow(base, part.graph, seq![added], seq![link], 1);
    let assigned = part.graph.grow(seq![added], seq![link], 1);
    let test = PredicateView::Var(declared_var(id));
    assert(test == PredicateView::Var("declared_var__"@ + decimal(id as nat)));
    lemma_assert_shapes(base, test, part.range.start, assigned);
}

/// A command of an instantiation is one that notes a value.
proof fn lemma_instantiation_notes(instantiation: IrInstantiation)
    ensures
        notes_value(instantiation_gcl(instantiation)),
{
    let name = "has_value__"@ + decimal(instantiation.id as nat);
    assert(sets(instantiation_gcl(instantiation), name, true));
}

/// What holds of a block so far.
spec fn block_shaped(base: GraphView, state: BlockState) -> bool {
    &&& shaped_since(base, state.graph)
    &&& forall|i: int| 0 <= i < state.pending.len() ==> notes_value(#[trigger] state.pending[i])
}

/// A part that is chained adds at most an edge.
proof fn lemma_chain_shapes(base: GraphView, state: BlockState, next: RangeView)
    requires
        block_shaped(base, state),
    ensures
        block_shaped(base, state.chain(next)),
{
    if let Some(range) = state.range {
        let link = always(range.end, next.start);
        assert(is_guard(link.pred, base.names, state.graph.names)) by {
            reveal(is_guard);
        }
        lemma_shaped_grow(base, state.graph, seq![], seq![link], 0);
    }
}

/// Pending commands become one node.
proof fn lemma_flush_shapes(base: GraphView, state: BlockState)
    requires
        block_shaped(base, state),
    ensures
        block_shaped(base, state.flush()),
{
    let g = state.graph;
    let n = g.nodes.len() as int;
    let lo = base.names;
    let hi = g.names + 1;
    let added = node(g.fresh("block_stmt_body"@, 0), state.pending);
    assert(lo <= g.names) by {
        reveal(shaped_since);
    }
    lemma_fresh_made(g, "block_stmt_body"@, 0, lo, hi);
    assert(is_shaped(added, lo, hi)) by {
        reveal(is_shaped);
        assert(is_group_node(added, lo, hi));
    }
    lemma_shaped_grow(base, g, seq![added], seq![], 1);
    lemma_chain_shapes(
        base,
        BlockState {
            graph: g.grow(seq![added], seq![], 1),
            pending: seq![],
            range: state.range,
        },
        RangeView { start: n, end: n },
    );
}

/// The nodes and edges of a conditional.
pub proof fn lemma_if_shapes(base: GraphView, statement: IrIfStatement, g: GraphView)
    requires
        shaped_since(base, g),
    ensures
        shaped_since(base, if_gcl(statement, g).graph),
    decreases statement, 0nat,
{
    let lo = base.names;
    let started = if_end_gcl(g);
    let added = node(g.fresh("if_end"@, 0), seq![]);
    assert(lo <= g.names) by {
        reveal(shaped_since);
    }
    lemma_fresh_made(g, "if_end"@, 0, lo, g.names + 1);
    assert(is_shaped(added, lo, g.names + 1)) by {
        reveal(is_shaped);
        assert(is_end_node(added, lo, g.names + 1));
    }
    lemma_shaped_grow(base, g, seq![added], seq![], 1);
    let cond = expr_gcl(statement.condition, started);
    lemma_expr_shapes(base, statement.condition, started);
    let then_part = statement_gcl(*statement.then_case, cond.graph);
    lemma_statement_shapes(base, *statement.then_case, cond.graph);
    lemma_statement_names(*statement.then_case, cond.graph);
    lemma_value_later(cond.pred, lo, cond.graph.names, then_part.graph.names);
    let end = g.nodes.len() as int;
    match statement.else_case {
        Some(else_case) => {
            let else_part = statement_gcl(*else_case, then_part.graph);
            lemma_statement_shapes(base, *else_case, then_part.graph);
            lemma_statement_names(*else_case, then_part.graph);
            lemma_value_later(cond.pred, lo, then_part.graph.names, else_part.graph.names);
            lemma_branch_shapes(base, cond, then_part, Some(else_part), end);
        },
        None => {
            lemma_branch_shapes(base, cond, then_part, None, end);
        },
    }
}

/// The edges of a conditional.
proof fn lemma_branch_shapes(
    base: GraphView,
    cond: ValuePart,
    then_part: Part,
    else_part: Option<Part>,
    end: int,
)
    requires
        ({
            let g = match else_part {
                Some(part) => part.graph,
                None => then_part.graph,
            };
            shaped_since(base, g) && is_value(cond.pred, base.names, g.names)
        }),
    ensures
        shaped_since(base, branch_gcl(cond, then_part, else_part, end).graph),
{
    let (g, else_range) = match else_part {
        Some(part) => (part.graph, Some(part.range)),
        None => (then_part.graph, None),
    };
    let edges = branch_edges(cond.range, cond.pred, then_part.range, else_range, end);
    assert forall|i: int| 0 <= i < edges.len() implies is_guard(
        (#[trigger] edges[i]).pred,
        base.names,
        g.names,
    ) by {
        reveal(is_guard);
    }
    lemma_shaped_grow(base, g, seq![], edges, 0);
}

/// The nodes and edges of a statement.
pub proof fn lemma_statement_shapes(base: GraphView, statement: IrStatement, g: GraphView)
    requires
        shaped_since(base, g),
    ensures
        shaped_since(base, statement_gcl(statement, g).graph),
    decreases statement, 0nat,
{
    match statement {
        IrStatement::Block(block) => lemma_block_shapes(base, block.0@, g),
        IrStatement::If(if_statement) => lemma_if_shapes(base, if_statement, g),
        IrStatement::Assignment(assignment) => lemma_assignment_shapes(base, assignment, g),
        IrStatement::FunctionCall(call) => lemma_call_shapes(base, call, g),
    }
}

/// A statement only adds to the names.
proof fn lemma_statement_names(statement: IrStatement, g: GraphView)
    ensures
        g.names <= statement_gcl(statement, g).graph.names,
    decreases statement, 1nat,
{
    lemma_shaped_self(g);
    lemma_statement_shapes(g, statement, g);
    reveal(shaped_since);
}

/// The first elements of a block.
proof fn lemma_block_state_shapes(
    base: GraphView,
    elements: Seq<IrStatementOrDecl>,
    k: nat,
    g: GraphView,
)
    requires
        shaped_since(base, g),
        k <= elements.len(),
    ensures
        block_shaped(base, block_state(elements, k, g)),
    decreases elements, k,
{
    if k > 0 {
        let j = (k - 1) as nat;
        let state = block_state(elements, j, g);
        let element = elements[k - 1];
        lemma_block_state_shapes(base, elements, j, g);
        let (later, output) = element_gcl(element, state.graph);
        let grown = BlockState { graph: later, ..state };
        reveal(BlockState::absorb);
        match element {
            IrStatementOrDecl::Statement(statement) => {
                lemma_statement_shapes(base, statement, state.graph);
                let range = statement_gcl(statement, state.graph).range;
                assert(output == Either::<CommandView, RangeView>::Right(range));
                assert(block_shaped(base, grown));
                lemma_flush_shapes(base, grown);
                lemma_chain_shapes(base, grown, range);
                lemma_chain_shapes(base, grown.flush(), range);
            },
            IrStatementOrDecl::VariableDecl(decl) => {
                lemma_var_decl_shapes(base, decl, state.graph);
                let range = var_decl_gcl(decl, state.graph).range;
                assert(output == Either::<CommandView, RangeView>::Right(range));
                assert(block_shaped(base, grown));
                lemma_flush_shapes(base, grown);
                lemma_chain_shapes(base, grown, range);
                lemma_chain_shapes(base, grown.flush(), range);
            },
            IrStatementOrDecl::Instantiation(instantiation) => {
                lemma_instantiation_notes(instantiation);
            },
        }
    }
}

/// The nodes and edges of a block.
pub proof fn lemma_block_shapes(base: GraphView, elements: Seq<IrStatementOrDecl>, g: GraphView)
    requires
        shaped_since(base, g),
    ensures
        shaped_since(base, block_gcl(elements, g).graph),
    decreases elements, elements.len() + 1,
{
    lemma_block_state_shapes(base, elements, elements.len(), g);
    lemma_flush_shapes(base, block_state(elements, elements.len(), g));
    reveal(BlockState::finish);
}

// ---------------------------------------------------------------------------------------
// Declarations
// ---------------------------------------------------------------------------------------
/// The nodes and edges of an action.
pub proof fn lemma_action_shapes(base: GraphView, action: IrActionDecl, g: GraphView)
    requires
        shaped_since(base, g),
    ensures
        shaped_since(base, action_gcl(action, g).graph),
{
    let body = block_gcl(action.body.0@, g);
    let n = body.graph.nodes.len() as int;
    let name = "action__"@ + decimal(action.id as nat);
    let added = node(name, seq![assign_bool(return_var(), true)]);
    let link = always(n, body.range.start);
    lemma_block_shapes(base, action.body.0@, g);
    assert(tagged("action__"@, action.id as nat) == name);
    assert(is_shaped(added, base.names, body.graph.names)) by {
        reveal(is_shaped);
        assert(is_action_node(added));
    }
    assert(is_guard(link.pred, base.names, body.graph.names)) by {
        reveal(is_guard);
    }
    lemma_shaped_grow(base, body.graph, seq![added], seq![link], 0);
}

/// The nodes and edges of the actions of a control block.
proof fn lemma_actions_shapes(
    base: GraphView,
    decls: Seq<IrControlLocalDecl>,
    k: nat,
    g: GraphView,
)
    requires
        shaped_since(base, g),
        k <= decls.len(),
    ensures
        shaped_since(base, actions_gcl(decls, k, g)),
    decreases k,
{
    if k > 0 {
        let before = actions_gcl(decls, (k - 1) as nat, g);
        lemma_actions_shapes(base, decls, (k - 1) as nat, g);
        if let IrControlLocalDecl::Action(action) = decls[k - 1] {
            lemma_action_shapes(base, action, before);
            reveal(shaped_since);
        }
    }
}

/// Whether a node is of one of the kinds above but for its name, which says that a control block
/// is entered there.
pub open spec fn is_control_node(node: NodeView, lo: nat, hi: nat) -> bool {
    &&& node.name == "control__todo"@
    &&& exists|other: NodeView| #[trigger]
        is_shaped(other, lo, hi) && other.commands == node.commands
}

/// The nodes and edges of a control block: but for the node by which it is entered they are of
/// the kinds above, and that one has another name.
pub proof fn lemma_control_shapes(control: IrControlDecl, g: GraphView)
    requires
        g.wf(),
        control_calls_known(control, g.functions.dom()),
    ensures
        ({
            let part = control_gcl(control, g);
            let later = part.graph;
            &&& g.names <= later.names
            &&& forall|i: int|
                g.nodes.len() <= i < later.nodes.len() && i != part.range.start ==> is_shaped(
                    #[trigger] later.nodes[i],
                    g.names,
                    later.names,
                )
            &&& is_control_node(later.nodes[part.range.start], g.names, later.names)
            &&& forall|i: int|
                g.edges.len() <= i < later.edges.len() ==> is_guard(
                    (#[trigger] later.edges[i]).pred,
                    g.names,
                    later.names,
                )
        }),
{
    let decls = control.local_decls@;
    let elements = control_elements(control);
    let called = actions_gcl(decls, decls.len(), g);
    let block = block_gcl(elements, called);
    let part = control_gcl(control, g);
    lemma_shaped_self(g);
    lemma_actions_shapes(g, decls, decls.len(), g);
    lemma_block_shapes(g, elements, called);
    lemma_actions_grow(decls, decls.len(), g);
    lemma_block_extends(elements, called);
    reveal(shaped_since);
    let start = part.range.start;
    assert(g.nodes.len() <= start < block.graph.nodes.len()) by {
        reveal(GraphView::is_kept_by);
    }
    assert forall|i: int|
        g.nodes.len() <= i < part.graph.nodes.len() && i != start implies is_shaped(
        #[trigger] part.graph.nodes[i],
        g.names,
        part.graph.names,
    ) by {
        assert(part.graph.nodes[i] == block.graph.nodes[i]);
    }
    let first = block.graph.nodes[start];
    assert(is_shaped(first, g.names, part.graph.names));
    assert(first.commands == part.graph.nodes[start].commands);
}

/// Whether a node of a program is of one of the kinds above, or a control block is entered there.
pub open spec fn is_program_node(node: NodeView, lo: nat, hi: nat) -> bool {
    is_shaped(node, lo, hi) || is_control_node(node, lo, hi)
}

/// What holds of a program so far, but for its start node.
spec fn program_shaped(g: GraphView, later: GraphView) -> bool {
    &&& g.names <= later.names
    &&& forall|i: int|
        g.nodes.len() < i < later.nodes.len() ==> is_program_node(
            #[trigger] later.nodes[i],
            g.names,
            later.names,
        )
    &&& forall|i: int|
        g.edges.len() <= i < later.edges.len() ==> is_guard(
            (#[trigger] later.edges[i]).pred,
            g.names,
            later.names,
        )
}

/// Names that were created later were created since.
proof fn lemma_node_earlier(node: NodeView, less: nat, lo: nat, hi: nat)
    requires
        is_shaped(node, lo, hi),
        less <= lo,
    ensures
        is_shaped(node, less, hi),
{
    reveal(is_shaped);
    if is_declaration_node(node, lo, hi) {
        let id = choose|id: VariableId|
            #![trigger decimal(id as nat)]
            {
                &&& is_made(node.name, "var_decl__"@ + decimal(id as nat), lo, hi)
                &&& are_declaring(node.commands, id, lo, hi)
            };
        assert(is_made(node.name, "var_decl__"@ + decimal(id as nat), less, hi));
        assert(are_declaring(node.commands, id, less, hi));
        assert(is_declaration_node(node, less, hi));
    } else if is_assignment_node(node, lo, hi) {
        let id = choose|id: VariableId|
            #![trigger decimal(id as nat)]
            {
                &&& is_made(node.name, "assignment__"@ + decimal(id as nat), lo, hi)
                &&& node.commands.len() == 2
                &&& sets(node.commands[0], "has_value__"@ + decimal(id as nat), true)
                &&& node.commands[1] is Assignment
                &&& node.commands[1]->Assignment_0 == "var__"@ + decimal(id as nat)
                &&& is_value(node.commands[1]->Assignment_1, lo, hi)
            };
        assert(is_made(node.name, "assignment__"@ + decimal(id as nat), less, hi));
        assert(is_assignment_node(node, less, hi));
    }
}

/// The same of guards.
proof fn lemma_guard_earlier(pred: PredicateView, less: nat, lo: nat, hi: nat)
    requires
        is_guard(pred, lo, hi),
        less <= lo,
    ensures
        is_guard(pred, less, hi),
{
    reveal(is_guard);
}

/// A node of a program stays one when more names are created.
proof fn lemma_program_node_later(node: NodeView, less: nat, lo: nat, hi: nat, more: nat)
    requires
        is_program_node(node, lo, hi),
        less <= lo,
        hi <= more,
    ensures
        is_program_node(node, less, more),
{
    if is_shaped(node, lo, hi) {
        lemma_node_later(node, lo, hi, more);
        lemma_node_earlier(node, less, lo, more);
    } else {
        let other = choose|other: NodeView| #[trigger]
            is_shaped(other, lo, hi) && other.commands == node.commands;
        lemma_node_later(other, lo, hi, more);
        lemma_node_earlier(other, less, lo, more);
        assert(is_control_node(node, less, more));
    }
}

/// Parts that follow one another.
proof fn lemma_program_shaped_next(g: GraphView, mid: GraphView, later: GraphView)
    requires
        program_shaped(g, mid),
        g.nodes.len() < mid.nodes.len(),
        g.edges.len() <= mid.edges.len(),
        mid.grows_into(later),
        mid.names <= later.names,
        forall|i: int|
            mid.nodes.len() <= i < later.nodes.len() ==> is_program_node(
                #[trigger] later.nodes[i],
                mid.names,
                later.names,
            ),
        forall|i: int|
            mid.edges.len() <= i < later.edges.len() ==> is_guard(
                (#[trigger] later.edges[i]).pred,
                mid.names,
                later.names,
            ),
    ensures
        program_shaped(g, later),
{
    reveal(GraphView::is_kept_by);
    assert forall|i: int| g.nodes.len() < i < later.nodes.len() implies is_program_node(
        #[trigger] later.nodes[i],
        g.names,
        later.names,
    ) by {
        if i < mid.nodes.len() {
            assert(later.nodes[i] == mid.nodes[i]);
            lemma_program_node_later(mid.nodes[i], g.names, g.names, mid.names, later.names);
        } else {
            lemma_program_node_later(
                later.nodes[i],
                g.names,
                mid.names,
                later.names,
                later.names,
            );
        }
    }
    assert forall|i: int| g.edges.len() <= i < later.edges.len() implies is_guard(
        (#[trigger] later.edges[i]).pred,
        g.names,
        later.names,
    ) by {
        if i < mid.edges.len() {
            assert(later.edges[i] == mid.edges[i]);
            lemma_guard_later(mid.edges[i].pred, g.names, mid.names, later.names);
        } else {
            lemma_guard_earlier(later.edges[i].pred, g.names, mid.names, later.names);
        }
    }
}

/// The first declarations of a program.
proof fn lemma_program_state_shapes(program: IrProgram, k: nat, g: GraphView)
    requires
        g.wf(),
        k <= program.declarations@.len(),
        program_calls_known(program, g.functions.dom()),
    ensures
        program_shaped(g, program_state(program.declarations@, k, g).graph),
    decreases k,
{
    let decls = program.declarations@;
    if k > 0 {
        let j = (k - 1) as nat;
        let state = program_state(decls, j, g);
        let later = program_state(decls, k, g).graph;
        lemma_program_state_shapes(program, j, g);
        lemma_program_state_extends(program, j, g);
        lemma_program_state_extends(program, k, g);
        assert(decl_calls_known(decls, k - 1, g.functions.dom()));
        assert(g.edges.len() <= state.graph.edges.len()) by {
            reveal(GraphView::is_kept_by);
        }
        match decls[k - 1] {
            IrDeclaration::Constant(constant) => {
                let part = var_decl_gcl(constant, state.graph);
                let link = always(state.end, part.range.start);
                lemma_shaped_self(state.graph);
                lemma_var_decl_shapes(state.graph, constant, state.graph);
                assert(is_guard(link.pred, state.graph.names, part.graph.names)) by {
                    reveal(is_guard);
                }
                lemma_shaped_grow(state.graph, part.graph, seq![], seq![link], 0);
                reveal(shaped_since);
                lemma_program_shaped_next(g, state.graph, later);
            },
            IrDeclaration::Control(control) => {
                lemma_control_shapes(control, state.graph);
                lemma_program_shaped_next(g, state.graph, later);
            },
            IrDeclaration::Instantiation(_) => {},
        }
    }
}

/// The nodes and edges of a program: behind its start node, which has the name `start` and notes
/// the values of instantiations, there are only nodes of the kinds above and nodes by which a
/// control block is entered.
pub proof fn lemma_program_shapes(
    program: IrProgram,
    g: GraphView,
    later: GraphView,
    output: NodeIndex,
)
    requires
        g.wf(),
        program_calls_known(program, g.functions.dom()),
        program.translates(g, later, output),
    ensures
        g.names <= later.names,
        forall|i: int|
            output@ < i < later.nodes.len() ==> is_program_node(
                #[trigger] later.nodes[i],
                g.names,
                later.names,
            ),
        forall|i: int|
            g.edges.len() <= i < later.edges.len() ==> is_guard(
                (#[trigger] later.edges[i]).pred,
                g.names,
                later.names,
            ),
{
    let decls = program.declarations@;
    let state = program_state(decls, decls.len(), g);
    lemma_program_state_shapes(program, decls.len(), g);
    lemma_program_state_extends(program, decls.len(), g);
    assert forall|i: int| output@ < i < later.nodes.len() implies is_program_node(
        #[trigger] later.nodes[i],
        g.names,
        later.names,
    ) by {
        assert(later.nodes[i] == state.graph.nodes[i]);
    }
    assert forall|i: int| g.edges.len() <= i < later.edges.len() implies is_guard(
        (#[trigger] later.edges[i]).pred,
        g.names,
        later.names,
    ) by {
        reveal(is_guard);
        if i < state.graph.edges.len() {
            assert(later.edges[i] == state.graph.edges[i]);
        }
    }
}

} // verus!
