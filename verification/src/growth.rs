//! A translation only adds to the graph.

use either::Either;
use vstd::prelude::*;

use crate::gcl::{CommandView, EdgeView, NodeView, PredicateView, RangeView};
use crate::graph::GraphView;
use crate::ir::{
    FunctionId, IrActionDecl, IrAssignment, IrControlDecl, IrControlLocalDecl, IrDeclaration,
    IrExpr, IrExprData, IrFunctionCall, IrIfStatement, IrProgram, IrStatement, IrStatementOrDecl,
    IrVariableDecl,
};
use crate::text::tagged;
use crate::translation::{
    action_gcl, actions_calls_known, actions_gcl, always, assert_gcl, assign, assign_bool,
    assignment_gcl, block_calls, block_gcl, block_state, branch_gcl, call_gcl, control_calls_known,
    control_elements, control_gcl, decl_calls_known, declared_var, edge, element_calls, element_gcl,
    expr_calls, expr_gcl, has_value_var, if_calls, if_end_gcl, if_gcl, known_after_decls,
    known_after_locals, local_calls_known, local_elements, negated, node, program_calls_known,
    program_gcl, program_state, return_var, short_circuit_gcl, single_assignment_gcl,
    statement_calls, statement_gcl, value_var, var_decl_calls, var_decl_commands, var_decl_gcl,
    BlockState, Part, ProgramState, ValuePart,
};

verus! {

impl GraphView {
    /// The nodes and the edges of this graph come first in `later`, unchanged.
    #[verifier::opaque]
    pub open spec fn is_kept_by(self, later: GraphView) -> bool {
        &&& forall|i: int|
            0 <= i < self.nodes.len() ==> #[trigger] later.nodes[i] == self.nodes[i]
        &&& forall|i: int|
            0 <= i < self.edges.len() ==> #[trigger] later.edges[i] == self.edges[i]
    }

    /// `later` has the nodes and the edges of this graph, unchanged and in front of its
    /// others, and has created no fewer names.
    pub open spec fn grows_into(self, later: GraphView) -> bool {
        &&& self.nodes.len() <= later.nodes.len()
        &&& self.edges.len() <= later.edges.len()
        &&& self.names <= later.names
        &&& self.is_kept_by(later)
    }

    /// `later` is this graph with a new part that is entered and left by the ends of `range`.
    pub open spec fn extended_by(self, later: GraphView, range: RangeView) -> bool {
        &&& self.grows_into(later)
        &&& later.functions == self.functions
        &&& later.wf()
        &&& self.nodes.len() <= range.start < later.nodes.len()
        &&& self.nodes.len() <= range.end < later.nodes.len()
    }
}

/// A graph grows into itself, and into a graph that differs in its functions only.
pub proof fn lemma_grows_refl(g: GraphView, later: GraphView)
    requires
        later.nodes == g.nodes,
        later.edges == g.edges,
        later.names == g.names,
    ensures
        g.grows_into(later),
{
    reveal(GraphView::is_kept_by);
}

/// Growth in two steps is growth.
pub proof fn lemma_grows_trans(a: GraphView, b: GraphView, c: GraphView)
    requires
        a.grows_into(b),
        b.grows_into(c),
    ensures
        a.grows_into(c),
{
    reveal(GraphView::is_kept_by);
    assert forall|i: int| 0 <= i < a.nodes.len() implies #[trigger] c.nodes[i] == a.nodes[i] by {
        assert(b.nodes[i] == a.nodes[i]);
    }
    assert forall|i: int| 0 <= i < a.edges.len() implies #[trigger] c.edges[i] == a.edges[i] by {
        assert(b.edges[i] == a.edges[i]);
    }
}

/// A graph that has been grown by edges between its nodes.
pub proof fn lemma_grow_wf(g: GraphView, nodes: Seq<NodeView>, edges: Seq<EdgeView>, names: nat)
    requires
        g.wf(),
        forall|i: int|
            0 <= i < edges.len() ==> 0 <= (#[trigger] edges[i]).from < g.nodes.len() + nodes.len()
                && 0 <= edges[i].to < g.nodes.len() + nodes.len(),
    ensures
        g.grows_into(g.grow(nodes, edges, names)),
        g.grow(nodes, edges, names).wf(),
{
    reveal(GraphView::wf);
    reveal(GraphView::is_kept_by);
    let later = g.grow(nodes, edges, names);
    assert forall|i: int| 0 <= i < later.edges.len() implies later.has_node(
        (#[trigger] later.edges[i]).from,
    ) && later.has_node(later.edges[i].to) by {
        if i < g.edges.len() {
            assert(later.edges[i] == g.edges[i]);
        } else {
            assert(later.edges[i] == edges[i - g.edges.len()]);
        }
    }
}

/// A check in front of a node.
pub proof fn lemma_assert_extends(pred: PredicateView, next: int, g: GraphView)
    requires
        g.wf(),
        g.has_node(next),
    ensures
        ({
            let n = g.nodes.len() as int;
            g.extended_by(assert_gcl(pred, next, g), RangeView { start: n + 1, end: n + 1 })
        }),
{
    let n = g.nodes.len() as int;
    lemma_grow_wf(
        g,
        seq![
            node(g.fresh("bug"@, 0), seq![CommandView::Bug]),
            node(g.fresh("assert"@, 1), seq![]),
        ],
        seq![edge(n + 1, next, pred), edge(n + 1, n, negated(pred))],
        2,
    );
}

/// A conjunction or disjunction behind its operands.
pub proof fn lemma_short_circuit_extends(
    g: GraphView,
    left: ValuePart,
    right: ValuePart,
    is_and: bool,
)
    requires
        g.extended_by(left.graph, left.range),
        left.graph.extended_by(right.graph, right.range),
    ensures
        g.extended_by(
            short_circuit_gcl(left, right, is_and).graph,
            short_circuit_gcl(left, right, is_and).range,
        ),
{
    let later = short_circuit_gcl(left, right, is_and).graph;
    let mid = right.graph;
    let nodes = later.nodes.subrange(mid.nodes.len() as int, later.nodes.len() as int);
    let edges = later.edges.subrange(mid.edges.len() as int, later.edges.len() as int);
    assert(later.nodes =~= mid.nodes + nodes);
    assert(later.edges =~= mid.edges + edges);
    lemma_grow_wf(mid, nodes, edges, 4);
    lemma_grows_trans(g, left.graph, mid);
    lemma_grows_trans(g, mid, later);
}

/// A call of a registered function.
pub proof fn lemma_call_extends(call: IrFunctionCall, g: GraphView)
    requires
        g.wf(),
        g.functions.dom().contains(call.target),
    ensures
        g.extended_by(call_gcl(call, g).graph, call_gcl(call, g).range),
{
    reveal(GraphView::wf);
    let later = call_gcl(call, g).graph;
    let nodes = later.nodes.subrange(g.nodes.len() as int, later.nodes.len() as int);
    let edges = later.edges.subrange(g.edges.len() as int, later.edges.len() as int);
    assert(later.nodes =~= g.nodes + nodes);
    assert(later.edges =~= g.edges + edges);
    lemma_grow_wf(g, nodes, edges, 2);
}

/// A part with a node behind it.
pub proof fn lemma_append_extends(
    g: GraphView,
    part: Part,
    added: NodeView,
    names: nat,
)
    requires
        g.extended_by(part.graph, part.range),
    ensures
        ({
            let n = part.graph.nodes.len() as int;
            g.extended_by(
                part.graph.grow(seq![added], seq![always(part.range.end, n)], names),
                RangeView { start: part.range.start, end: n },
            )
        }),
{
    let n = part.graph.nodes.len() as int;
    let later = part.graph.grow(seq![added], seq![always(part.range.end, n)], names);
    lemma_grow_wf(part.graph, seq![added], seq![always(part.range.end, n)], names);
    lemma_grows_trans(g, part.graph, later);
}

/// An expression whose calls find their functions is a new part of the graph.
pub proof fn lemma_expr_extends(expr: IrExpr, g: GraphView)
    requires
        g.wf(),
        expr_calls(expr).subset_of(g.functions.dom()),
    ensures
        g.extended_by(expr_gcl(expr, g).graph, expr_gcl(expr, g).range),
    decreases expr,
{
    let n = g.nodes.len() as int;
    match expr.data {
        IrExprData::Bool(b) => {
            let name = g.fresh("expr"@, 0);
            lemma_grow_wf(g, seq![node(name, seq![assign_bool(name, b)])], seq![], 1);
        },
        IrExprData::Var(id) => {
            let name = g.fresh("expr"@, 0);
            let value = PredicateView::Var(value_var(id));
            let assigned = single_assignment_gcl(value, g);
            lemma_grow_wf(g, seq![node(name, seq![assign(name, value)])], seq![], 1);
            lemma_assert_extends(PredicateView::Var(has_value_var(id)), n, assigned);
            lemma_grows_trans(g, assigned, expr_gcl(expr, g).graph);
        },
        IrExprData::And(left, right) => {
            let left_part = expr_gcl(*left, g);
            lemma_expr_extends(*left, g);
            lemma_expr_extends(*right, left_part.graph);
            lemma_short_circuit_extends(g, left_part, expr_gcl(*right, left_part.graph), true);
        },
        IrExprData::Or(left, right) => {
            let left_part = expr_gcl(*left, g);
            lemma_expr_extends(*left, g);
            lemma_expr_extends(*right, left_part.graph);
            lemma_short_circuit_extends(g, left_part, expr_gcl(*right, left_part.graph), false);
        },
        IrExprData::Negation(inner) => {
            lemma_expr_extends(*inner, g);
            let part = expr_gcl(*inner, g);
            let name = part.graph.fresh("expr"@, 0);
            lemma_append_extends(
                g,
                Part { graph: part.graph, range: part.range },
                node(name, seq![assign(name, negated(part.pred))]),
                1,
            );
        },
        IrExprData::FunctionCall(call) => {
            assert(expr_calls(expr).contains(call.target));
            lemma_call_extends(call, g);
            let part = call_gcl(call, g);
            let name = part.graph.fresh("expr"@, 0);
            lemma_append_extends(
                g,
                part,
                node(
                    part.graph.fresh("expr_func"@, 1),
                    seq![assign(name, PredicateView::Var(return_var()))],
                ),
                2,
            );
        },
    }
}

/// A declaration whose calls find their functions is a new part of the graph.
pub proof fn lemma_var_decl_extends(decl: IrVariableDecl, g: GraphView)
    requires
        g.wf(),
        var_decl_calls(decl).subset_of(g.functions.dom()),
    ensures
        g.extended_by(var_decl_gcl(decl, g).graph, var_decl_gcl(decl, g).range),
{
    let named = g.grow(seq![], seq![], 1);
    let name = g.fresh(tagged("var_decl__"@, decl.id as nat), 0);
    lemma_grow_wf(g, seq![], seq![], 1);
    match decl.value {
        Some(value) => {
            lemma_expr_extends(value, named);
            let part = expr_gcl(value, named);
            lemma_append_extends(
                named,
                Part { graph: part.graph, range: part.range },
                node(name, var_decl_commands(decl, Some(part.pred))),
                0,
            );
        },
        None => {
            lemma_grow_wf(named, seq![node(name, var_decl_commands(decl, None))], seq![], 0);
        },
    }
    lemma_grows_trans(g, named, var_decl_gcl(decl, g).graph);
}

/// An assignment whose calls find their functions is a new part of the graph.
pub proof fn lemma_assignment_extends(assignment: IrAssignment, g: GraphView)
    requires
        g.wf(),
        expr_calls(assignment.value).subset_of(g.functions.dom()),
    ensures
        g.extended_by(assignment_gcl(assignment, g).graph, assignment_gcl(assignment, g).range),
{
    let part = expr_gcl(assignment.value, g);
    lemma_expr_extends(assignment.value, g);
    let added = node(
        part.graph.fresh(tagged("assignment__"@, assignment.var as nat), 0),
        seq![
            assign_bool(has_value_var(assignment.var), true),
            assign(value_var(assignment.var), part.pred),
        ],
    );
    let n = part.graph.nodes.len() as int;
    let assigned = part.graph.grow(seq![added], seq![always(part.range.end, n)], 1);
    lemma_append_extends(g, Part { graph: part.graph, range: part.range }, added, 1);
    lemma_assert_extends(
        PredicateView::Var(declared_var(assignment.var)),
        part.range.start,
        assigned,
    );
    lemma_grows_trans(g, assigned, assignment_gcl(assignment, g).graph);
}

impl BlockState {
    /// What has been translated so far is a new part of the graph `g`, if it has nodes at all.
    pub open spec fn extends(self, g: GraphView) -> bool {
        &&& g.grows_into(self.graph)
        &&& self.graph.functions == g.functions
        &&& self.graph.wf()
        &&& self.range matches Some(range) ==> g.extended_by(self.graph, range)
    }
}

/// A new part is put behind a block.
pub proof fn lemma_chain_extends(g: GraphView, state: BlockState, next: RangeView)
    requires
        state.extends(g),
        g.extended_by(state.graph, next),
    ensures
        state.chain(next).extends(g),
        state.chain(next).range is Some,
        state.graph.grows_into(state.chain(next).graph),
{
    lemma_grows_refl(state.graph, state.graph);
    if let Some(range) = state.range {
        lemma_grow_wf(state.graph, seq![], seq![always(range.end, next.start)], 0);
        lemma_grows_trans(g, state.graph, state.chain(next).graph);
    }
}

/// The pending commands get a node.
pub proof fn lemma_flush_extends(g: GraphView, state: BlockState)
    requires
        state.extends(g),
    ensures
        state.flush().extends(g),
        state.flush().range is Some,
        state.graph.grows_into(state.flush().graph),
{
    let n = state.graph.nodes.len() as int;
    let added = seq![node(state.graph.fresh("block_stmt_body"@, 0), state.pending)];
    let grown = state.graph.grow(added, seq![], 1);
    lemma_grow_wf(state.graph, added, seq![], 1);
    lemma_grows_trans(g, state.graph, grown);
    let held = BlockState { graph: grown, pending: seq![], range: state.range };
    lemma_chain_extends(g, held, RangeView { start: n, end: n });
    lemma_grows_trans(state.graph, grown, state.flush().graph);
}

/// A block whose pending commands get a node.
pub proof fn lemma_flush_wf(state: BlockState)
    requires
        state.graph.wf(),
        state.range matches Some(range) ==> state.graph.has_range(range),
    ensures
        state.flush().graph.wf(),
        state.flush().range matches Some(range) && state.flush().graph.has_range(range),
        state.graph.grows_into(state.flush().graph),
{
    let n = state.graph.nodes.len() as int;
    let added = seq![node(state.graph.fresh("block_stmt_body"@, 0), state.pending)];
    let grown = state.graph.grow(added, seq![], 1);
    lemma_grow_wf(state.graph, added, seq![], 1);
    if let Some(range) = state.range {
        lemma_grow_wf(grown, seq![], seq![always(range.end, n)], 0);
        lemma_grows_trans(state.graph, grown, grown.link(range.end, n));
    }
}

/// A block takes up an element.
pub proof fn lemma_absorb_extends(
    g: GraphView,
    state: BlockState,
    later: GraphView,
    output: Either<CommandView, RangeView>,
)
    requires
        state.extends(g),
        output is Left ==> later == state.graph,
        output matches Either::Right(range) ==> state.graph.extended_by(later, range),
    ensures
        (BlockState { graph: later, ..state }).absorb(output).extends(g),
        later.grows_into((BlockState { graph: later, ..state }).absorb(output).graph),
{
    reveal(BlockState::absorb);
    lemma_grows_refl(later, later);
    match output {
        Either::Left(command) => {},
        Either::Right(range) => {
            lemma_grows_trans(g, state.graph, later);
            let moved = BlockState { graph: later, ..state };
            if state.pending.len() == 0 {
                lemma_chain_extends(g, moved, range);
            } else {
                lemma_flush_extends(g, moved);
                lemma_chain_extends(g, moved.flush(), range);
                lemma_grows_trans(later, moved.flush().graph, moved.flush().chain(range).graph);
            }
        },
    }
}

/// A block comes to its end.
pub proof fn lemma_finish_extends(g: GraphView, state: BlockState)
    requires
        state.extends(g),
    ensures
        state.finish().extends(g),
        state.finish().range is Some,
        state.graph.grows_into(state.finish().graph),
{
    reveal(BlockState::finish);
    lemma_grows_refl(state.graph, state.graph);
    if !(state.pending.len() == 0 && state.range is Some) {
        lemma_flush_extends(g, state);
    }
}

/// A conditional behind its condition and its branches.
pub proof fn lemma_branch_extends(
    g: GraphView,
    cond: ValuePart,
    then_part: Part,
    else_part: Option<Part>,
)
    requires
        g.wf(),
        g.nodes.len() > 0,
        g.extended_by(cond.graph, cond.range),
        cond.graph.extended_by(then_part.graph, then_part.range),
        else_part matches Some(part) ==> then_part.graph.extended_by(part.graph, part.range),
    ensures
        ({
            let end = g.nodes.len() - 1;
            let part = branch_gcl(cond, then_part, else_part, end);
            &&& g.grows_into(part.graph)
            &&& part.graph.functions == g.functions
            &&& part.graph.wf()
            &&& part.graph.has_node(cond.range.start)
        }),
{
    let end = g.nodes.len() - 1;
    let later = branch_gcl(cond, then_part, else_part, end).graph;
    let mid = match else_part {
        Some(part) => part.graph,
        None => then_part.graph,
    };
    lemma_grows_trans(g, cond.graph, then_part.graph);
    if let Some(part) = else_part {
        lemma_grows_trans(g, then_part.graph, part.graph);
    }
    let edges = later.edges.subrange(mid.edges.len() as int, later.edges.len() as int);
    assert(later.nodes =~= mid.nodes + seq![]);
    assert(later.edges =~= mid.edges + edges);
    lemma_grow_wf(mid, seq![], edges, 0);
    lemma_grows_trans(g, mid, later);
}

/// A conditional whose calls find their functions is a new part of the graph.
pub proof fn lemma_if_extends(statement: IrIfStatement, g: GraphView)
    requires
        g.wf(),
        if_calls(statement).subset_of(g.functions.dom()),
    ensures
        g.extended_by(if_gcl(statement, g).graph, if_gcl(statement, g).range),
    decreases statement, 0nat,
{
    let end_node = node(g.fresh("if_end"@, 0), seq![]);
    let ended = if_end_gcl(g);
    lemma_grow_wf(g, seq![end_node], seq![], 1);
    let cond = expr_gcl(statement.condition, ended);
    lemma_expr_extends(statement.condition, ended);
    let then_part = statement_gcl(*statement.then_case, cond.graph);
    lemma_statement_extends(*statement.then_case, cond.graph);
    let else_part = match statement.else_case {
        Some(else_case) => {
            lemma_statement_extends(*else_case, then_part.graph);
            Some(statement_gcl(*else_case, then_part.graph))
        },
        None => None,
    };
    lemma_branch_extends(ended, cond, then_part, else_part);
    lemma_grows_trans(g, ended, if_gcl(statement, g).graph);
}

/// The steps of a conditional, whose calls find their functions, can be taken in order.
pub proof fn lemma_if_steps(statement: IrIfStatement, g: GraphView)
    requires
        g.wf(),
        if_calls(statement).subset_of(g.functions.dom()),
        if_gcl(statement, g).graph.fits(),
    ensures
        ({
            let end = g.nodes.len() as int;
            let ended = if_end_gcl(g);
            let cond = expr_gcl(statement.condition, ended);
            let then_part = statement_gcl(*statement.then_case, cond.graph);
            &&& ended.wf()
            &&& ended.fits()
            &&& expr_calls(statement.condition).subset_of(ended.functions.dom())
            &&& cond.graph.fits()
            &&& cond.graph.wf()
            &&& statement_calls(*statement.then_case).subset_of(cond.graph.functions.dom())
            &&& then_part.graph.fits()
            &&& then_part.graph.wf()
            &&& match statement.else_case {
                Some(else_case) => {
                    let else_part = statement_gcl(*else_case, then_part.graph);
                    &&& statement_calls(*else_case).subset_of(then_part.graph.functions.dom())
                    &&& else_part.graph.fits()
                    &&& else_part.graph.has_node(end)
                    &&& else_part.graph.has_range(cond.range)
                    &&& else_part.graph.has_range(then_part.range)
                    &&& else_part.graph.has_range(else_part.range)
                },
                None => {
                    &&& then_part.graph.has_node(end)
                    &&& then_part.graph.has_range(cond.range)
                    &&& then_part.graph.has_range(then_part.range)
                },
            }
        }),
{
    let ended = if_end_gcl(g);
    lemma_grow_wf(g, seq![node(g.fresh("if_end"@, 0), seq![])], seq![], 1);
    let cond = expr_gcl(statement.condition, ended);
    lemma_expr_extends(statement.condition, ended);
    let then_part = statement_gcl(*statement.then_case, cond.graph);
    lemma_statement_extends(*statement.then_case, cond.graph);
    if let Some(else_case) = statement.else_case {
        lemma_statement_extends(*else_case, then_part.graph);
    }
}

/// A statement whose calls find their functions is a new part of the graph.
pub proof fn lemma_statement_extends(statement: IrStatement, g: GraphView)
    requires
        g.wf(),
        statement_calls(statement).subset_of(g.functions.dom()),
    ensures
        g.extended_by(statement_gcl(statement, g).graph, statement_gcl(statement, g).range),
    decreases statement, 0nat,
{
    match statement {
        IrStatement::Block(block) => {
            lemma_block_extends(block.0@, g);
        },
        IrStatement::If(if_statement) => {
            lemma_if_extends(if_statement, g);
        },
        IrStatement::Assignment(assignment) => {
            lemma_assignment_extends(assignment, g);
        },
        IrStatement::FunctionCall(call) => {
            assert(statement_calls(statement).contains(call.target));
            lemma_call_extends(call, g);
        },
    }
}

/// An element whose calls find their functions is a command, or a new part of the graph.
pub proof fn lemma_element_extends(element: IrStatementOrDecl, g: GraphView)
    requires
        g.wf(),
        element_calls(element).subset_of(g.functions.dom()),
    ensures
        ({
            let (graph, output) = element_gcl(element, g);
            &&& output is Left ==> graph == g
            &&& output matches Either::Right(range) ==> g.extended_by(graph, range)
        }),
    decreases element, 0nat,
{
    match element {
        IrStatementOrDecl::Statement(statement) => {
            lemma_statement_extends(statement, g);
        },
        IrStatementOrDecl::VariableDecl(decl) => {
            lemma_var_decl_extends(decl, g);
        },
        IrStatementOrDecl::Instantiation(_) => {},
    }
}

/// The first elements of a block call no more than all of them.
pub proof fn lemma_block_calls_prefix(elements: Seq<IrStatementOrDecl>, k: nat)
    requires
        k <= elements.len(),
    ensures
        block_calls(elements, k).subset_of(block_calls(elements, elements.len())),
        k < elements.len() ==> element_calls(elements[k as int]).subset_of(
            block_calls(elements, elements.len()),
        ),
    decreases elements.len() - k,
{
    if k < elements.len() {
        lemma_block_calls_prefix(elements, k + 1);
        assert(block_calls(elements, k + 1) == block_calls(elements, k).union(
            element_calls(elements[k as int]),
        ));
    }
}

/// The first elements of a block add to the graph.
pub proof fn lemma_block_state_extends(
    elements: Seq<IrStatementOrDecl>,
    k: nat,
    g: GraphView,
)
    requires
        g.wf(),
        k <= elements.len(),
        block_calls(elements, k).subset_of(g.functions.dom()),
    ensures
        block_state(elements, k, g).extends(g),
    decreases elements, k,
{
    if k == 0 {
        lemma_grows_refl(g, g);
    } else {
        let before = (k - 1) as nat;
        lemma_block_state_extends(elements, before, g);
        let state = block_state(elements, before, g);
        lemma_element_extends(elements[k - 1], state.graph);
        let (graph, output) = element_gcl(elements[k - 1], state.graph);
        lemma_absorb_extends(g, state, graph, output);
    }
}

/// A block whose calls find their functions is a new part of the graph.
pub proof fn lemma_block_extends(elements: Seq<IrStatementOrDecl>, g: GraphView)
    requires
        g.wf(),
        block_calls(elements, elements.len()).subset_of(g.functions.dom()),
    ensures
        g.extended_by(block_gcl(elements, g).graph, block_gcl(elements, g).range),
    decreases elements, elements.len() + 1,
{
    lemma_block_state_extends(elements, elements.len(), g);
    lemma_finish_extends(g, block_state(elements, elements.len(), g));
}

/// What the first elements of a block have added stays in the block.
pub proof fn lemma_block_state_grows(elements: Seq<IrStatementOrDecl>, k: nat, g: GraphView)
    requires
        g.wf(),
        k <= elements.len(),
        block_calls(elements, elements.len()).subset_of(g.functions.dom()),
    ensures
        block_state(elements, k, g).graph.grows_into(block_gcl(elements, g).graph),
        k < elements.len() ==> element_gcl(
            elements[k as int],
            block_state(elements, k, g).graph,
        ).0.grows_into(block_gcl(elements, g).graph),
    decreases elements.len() - k,
{
    lemma_block_calls_prefix(elements, k);
    lemma_block_state_extends(elements, k, g);
    let state = block_state(elements, k, g);
    if k == elements.len() {
        lemma_finish_extends(g, state);
    } else {
        lemma_block_state_grows(elements, k + 1, g);
        lemma_element_extends(elements[k as int], state.graph);
        let (graph, output) = element_gcl(elements[k as int], state.graph);
        lemma_absorb_extends(g, state, graph, output);
        lemma_grows_refl(state.graph, state.graph);
        let next = block_state(elements, k + 1, g);
        assert(next == BlockState { graph, ..state }.absorb(output));
        lemma_grows_trans(graph, next.graph, block_gcl(elements, g).graph);
        lemma_grows_trans(state.graph, graph, block_gcl(elements, g).graph);
    }
}

/// The element `k` of a block, whose calls find their functions, can be translated and taken
/// up when its turn comes.
pub proof fn lemma_block_step(elements: Seq<IrStatementOrDecl>, k: nat, g: GraphView)
    requires
        g.wf(),
        k < elements.len(),
        block_calls(elements, elements.len()).subset_of(g.functions.dom()),
        block_gcl(elements, g).graph.fits(),
    ensures
        ({
            let state = block_state(elements, k, g);
            let (graph, output) = element_gcl(elements[k as int], state.graph);
            &&& state.graph.wf()
            &&& element_calls(elements[k as int]).subset_of(state.graph.functions.dom())
            &&& graph.fits()
            &&& graph.wf()
            &&& output matches Either::Right(range) ==> graph.has_range(range)
            &&& state.range matches Some(range) ==> graph.has_range(range)
            &&& block_state(elements, k + 1, g) == (BlockState { graph, ..state }).absorb(output)
            &&& block_state(elements, k + 1, g).graph.fits()
        }),
{
    lemma_block_calls_prefix(elements, k);
    lemma_block_state_extends(elements, k, g);
    lemma_block_state_grows(elements, k, g);
    lemma_block_state_grows(elements, k + 1, g);
    lemma_element_extends(elements[k as int], block_state(elements, k, g).graph);
}

/// A block, whose calls find their functions, can be finished when all its elements have been
/// taken up.
pub proof fn lemma_block_end(elements: Seq<IrStatementOrDecl>, g: GraphView)
    requires
        g.wf(),
        block_calls(elements, elements.len()).subset_of(g.functions.dom()),
    ensures
        ({
            let state = block_state(elements, elements.len(), g);
            let part = block_gcl(elements, g);
            &&& state.graph.wf()
            &&& state.range matches Some(range) ==> state.graph.has_range(range)
            &&& state.finish().graph == part.graph
            &&& state.finish().range == Some(part.range)
            &&& part.graph.wf()
            &&& part.graph.has_range(part.range)
        }),
{
    lemma_block_state_extends(elements, elements.len(), g);
    lemma_finish_extends(g, block_state(elements, elements.len(), g));
}

/// An action whose calls find their functions is a new part of the graph.
pub proof fn lemma_action_extends(action: IrActionDecl, g: GraphView)
    requires
        g.wf(),
        block_calls(action.body.0@, action.body.0@.len()).subset_of(g.functions.dom()),
    ensures
        g.extended_by(action_gcl(action, g).graph, action_gcl(action, g).range),
        block_gcl(action.body.0@, g).graph.grows_into(action_gcl(action, g).graph),
{
    lemma_block_extends(action.body.0@, g);
    let body = block_gcl(action.body.0@, g);
    let n = body.graph.nodes.len() as int;
    let added = node(
        tagged("action__"@, action.id as nat),
        seq![assign_bool(return_var(), true)],
    );
    lemma_grow_wf(body.graph, seq![added], seq![always(n, body.range.start)], 0);
    lemma_grows_trans(g, body.graph, action_gcl(action, g).graph);
}

/// The actions of a control block add to the graph, and can be called afterwards.
pub proof fn lemma_actions_grow(decls: Seq<IrControlLocalDecl>, k: nat, g: GraphView)
    requires
        g.wf(),
        k <= decls.len(),
        actions_calls_known(decls, g.functions.dom()),
    ensures
        g.grows_into(actions_gcl(decls, k, g)),
        actions_gcl(decls, k, g).wf(),
        actions_gcl(decls, k, g).functions.dom() == known_after_locals(
            decls,
            k,
            g.functions.dom(),
        ),
    decreases k,
{
    if k == 0 {
        lemma_grows_refl(g, g);
    } else {
        let before = actions_gcl(decls, (k - 1) as nat, g);
        lemma_actions_grow(decls, (k - 1) as nat, g);
        assert(local_calls_known(decls, k - 1, g.functions.dom()));
        match decls[k - 1] {
            IrControlLocalDecl::Action(action) => {
                lemma_action_extends(action, before);
                let part = action_gcl(action, before);
                lemma_grows_trans(g, before, part.graph);
                lemma_register_wf(part.graph, action.id, part.range);
                lemma_grows_refl(part.graph, actions_gcl(decls, k, g));
                lemma_grows_trans(g, part.graph, actions_gcl(decls, k, g));
                assert(actions_gcl(decls, k, g).functions.dom() =~= before.functions.dom().insert(
                    action.id,
                ));
            },
            _ => {},
        }
    }
}

/// Registering a part of the graph as a function.
pub proof fn lemma_register_wf(g: GraphView, id: FunctionId, range: RangeView)
    requires
        g.wf(),
        g.has_range(range),
    ensures
        (GraphView { functions: g.functions.insert(id, range), ..g }).wf(),
{
    reveal(GraphView::wf);
    let later = GraphView { functions: g.functions.insert(id, range), ..g };
    assert forall|i: int| 0 <= i < later.edges.len() implies later.has_node(
        (#[trigger] later.edges[i]).from,
    ) && later.has_node(later.edges[i].to) by {
        assert(g.has_node(g.edges[i].from));
    }
    assert forall|other: FunctionId| #[trigger]
        later.functions.dom().contains(other) implies later.has_range(
        later.functions[other],
    ) by {
        if other != id {
            assert(g.functions.dom().contains(other));
        }
    }
}

/// What the first actions of a control block have added stays in the graph.
pub proof fn lemma_actions_steps(decls: Seq<IrControlLocalDecl>, k: nat, g: GraphView)
    requires
        g.wf(),
        k <= decls.len(),
        actions_calls_known(decls, g.functions.dom()),
    ensures
        actions_gcl(decls, k, g).grows_into(actions_gcl(decls, decls.len(), g)),
    decreases decls.len() - k,
{
    if k == decls.len() {
        lemma_grows_refl(actions_gcl(decls, k, g), actions_gcl(decls, k, g));
    } else {
        lemma_actions_steps(decls, k + 1, g);
        lemma_actions_grow(decls, k, g);
        assert(local_calls_known(decls, k as int, g.functions.dom()));
        let before = actions_gcl(decls, k, g);
        match decls[k as int] {
            IrControlLocalDecl::Action(action) => {
                lemma_action_extends(action, before);
                let part = action_gcl(action, before);
                lemma_grows_refl(part.graph, actions_gcl(decls, k + 1, g));
                lemma_grows_trans(before, part.graph, actions_gcl(decls, k + 1, g));
            },
            _ => {
                lemma_grows_refl(before, before);
            },
        }
        lemma_grows_trans(
            before,
            actions_gcl(decls, k + 1, g),
            actions_gcl(decls, decls.len(), g),
        );
    }
}

/// What the first local declarations put in front of the apply block comes first.
pub proof fn lemma_local_elements_prefix(decls: Seq<IrControlLocalDecl>, k: nat)
    requires
        k <= decls.len(),
    ensures
        local_elements(decls, k).len() <= local_elements(decls, decls.len()).len(),
        forall|i: int|
            0 <= i < local_elements(decls, k).len() ==> #[trigger] local_elements(
                decls,
                decls.len(),
            )[i] == local_elements(decls, k)[i],
    decreases decls.len() - k,
{
    if k < decls.len() {
        lemma_local_elements_prefix(decls, k + 1);
        let before = local_elements(decls, k);
        let after = local_elements(decls, k + 1);
        let all = local_elements(decls, decls.len());
        assert forall|i: int| 0 <= i < before.len() implies #[trigger] all[i] == before[i] by {
            assert(after[i] == before[i]);
            assert(all[i] == after[i]);
        }
    }
}

/// The graph keeps its shape when a node is replaced.
pub proof fn lemma_replace_wf(g: GraphView, index: int, added: NodeView)
    requires
        g.wf(),
        g.has_node(index),
    ensures
        (GraphView { nodes: g.nodes.update(index, added), ..g }).wf(),
{
    reveal(GraphView::wf);
    let later = GraphView { nodes: g.nodes.update(index, added), ..g };
    assert forall|i: int| 0 <= i < later.edges.len() implies later.has_node(
        (#[trigger] later.edges[i]).from,
    ) && later.has_node(later.edges[i].to) by {
        assert(g.has_node(g.edges[i].from));
    }
    assert forall|other: FunctionId| #[trigger]
        later.functions.dom().contains(other) implies later.has_range(
        later.functions[other],
    ) by {
        assert(g.functions.dom().contains(other));
    }
}

/// A control block whose calls find their functions adds to the graph, and its actions can be
/// called afterwards.
pub proof fn lemma_control_grows(control: IrControlDecl, g: GraphView)
    requires
        g.wf(),
        control_calls_known(control, g.functions.dom()),
    ensures
        g.grows_into(control_gcl(control, g).graph),
        control_gcl(control, g).graph.wf(),
        control_gcl(control, g).graph.functions.dom() == known_after_locals(
            control.local_decls@,
            control.local_decls@.len(),
            g.functions.dom(),
        ),
        g.nodes.len() <= control_gcl(control, g).range.start
            < control_gcl(control, g).graph.nodes.len(),
        g.nodes.len() <= control_gcl(control, g).range.end
            < control_gcl(control, g).graph.nodes.len(),
{
    let decls = control.local_decls@;
    let elements = control_elements(control);
    lemma_actions_grow(decls, decls.len(), g);
    let called = actions_gcl(decls, decls.len(), g);
    lemma_block_extends(elements, called);
    let part = block_gcl(elements, called);
    lemma_grows_trans(g, called, part.graph);
    let start = part.range.start;
    lemma_replace_wf(
        part.graph,
        start,
        NodeView { name: "control__todo"@, ..part.graph.nodes[start] },
    );
    reveal(GraphView::is_kept_by);
}

impl ProgramState {
    /// What has been translated so far adds to `g`, and `known` are the known functions.
    pub open spec fn extends(self, g: GraphView, known: Set<FunctionId>) -> bool {
        &&& g.grows_into(self.graph)
        &&& self.graph.wf()
        &&& self.graph.functions.dom() == known
        &&& g.nodes.len() < self.graph.nodes.len()
        &&& g.nodes.len() <= self.end < self.graph.nodes.len()
        &&& self.control matches Some(index) ==> g.nodes.len() < index < self.graph.nodes.len()
    }
}

/// The first declarations of a program add to the graph.
pub proof fn lemma_program_state_extends(program: IrProgram, k: nat, g: GraphView)
    requires
        g.wf(),
        k <= program.declarations@.len(),
        program_calls_known(program, g.functions.dom()),
    ensures
        program_state(program.declarations@, k, g).extends(
            g,
            known_after_decls(program.declarations@, k, g.functions.dom()),
        ),
        k > 0 ==> program_state(program.declarations@, (k - 1) as nat, g).graph.grows_into(
            program_state(program.declarations@, k, g).graph,
        ),
    decreases k,
{
    let decls = program.declarations@;
    if k == 0 {
        lemma_grow_wf(g, seq![node("start"@, seq![])], seq![], 0);
    } else {
        let state = program_state(decls, (k - 1) as nat, g);
        lemma_program_state_extends(program, (k - 1) as nat, g);
        assert(decl_calls_known(decls, k - 1, g.functions.dom()));
        match decls[k - 1] {
            IrDeclaration::Constant(constant) => {
                lemma_var_decl_extends(constant, state.graph);
                let part = var_decl_gcl(constant, state.graph);
                lemma_grow_wf(part.graph, seq![], seq![always(state.end, part.range.start)], 0);
                lemma_grows_trans(
                    state.graph,
                    part.graph,
                    part.graph.link(state.end, part.range.start),
                );
                lemma_grows_trans(g, state.graph, part.graph.link(state.end, part.range.start));
            },
            IrDeclaration::Control(control) => {
                lemma_control_grows(control, state.graph);
                lemma_grows_trans(g, state.graph, control_gcl(control, state.graph).graph);
            },
            IrDeclaration::Instantiation(_) => {
                lemma_grows_refl(state.graph, state.graph);
            },
        }
    }
}

/// What the first declarations of a program have added stays in the graph.
pub proof fn lemma_program_steps(program: IrProgram, k: nat, g: GraphView)
    requires
        g.wf(),
        k <= program.declarations@.len(),
        program_calls_known(program, g.functions.dom()),
    ensures
        program_state(program.declarations@, k, g).graph.grows_into(
            program_state(program.declarations@, program.declarations@.len(), g).graph,
        ),
    decreases program.declarations@.len() - k,
{
    let decls = program.declarations@;
    if k == decls.len() {
        lemma_grows_refl(program_state(decls, k, g).graph, program_state(decls, k, g).graph);
    } else {
        lemma_program_steps(program, k + 1, g);
        lemma_program_state_extends(program, k + 1, g);
        lemma_grows_trans(
            program_state(decls, k, g).graph,
            program_state(decls, k + 1, g).graph,
            program_state(decls, decls.len(), g).graph,
        );
    }
}

/// A program whose calls find their functions adds to the graph.
pub proof fn lemma_program_grows(program: IrProgram, g: GraphView)
    requires
        g.wf(),
        program_calls_known(program, g.functions.dom()),
    ensures
        g.grows_into(program_gcl(program, g)),
        program_gcl(program, g).wf(),
        program_gcl(program, g).has_node(g.nodes.len() as int),
{
    let decls = program.declarations@;
    let start = g.nodes.len() as int;
    lemma_program_state_extends(program, decls.len(), g);
    let state = program_state(decls, decls.len(), g);
    let added = NodeView { commands: state.commands, ..state.graph.nodes[start] };
    let filled = GraphView { nodes: state.graph.nodes.update(start, added), ..state.graph };
    lemma_replace_wf(state.graph, start, added);
    assert(g.is_kept_by(filled)) by {
        reveal(GraphView::is_kept_by);
    }
    if let Some(control) = state.control {
        lemma_grow_wf(filled, seq![], seq![always(start, control)], 0);
        lemma_grows_trans(g, filled, filled.link(start, control));
    }
}

} // verus!
