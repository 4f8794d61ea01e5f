//! What each part of a program is translated into.
//!
//! Every function here takes the graph as it stands and says how it looks afterwards: which
//! nodes and edges have been put behind the ones it had, and where the new part is entered
//! and left.

use either::Either;
use vstd::prelude::*;

use crate::gcl::{CommandView, EdgeView, NodeView, PredicateView, RangeView};
use crate::graph::GraphView;
use crate::ir::{
    FunctionId, IrActionDecl, IrAssignment, IrControlDecl, IrControlLocalDecl, IrDeclaration,
    IrExpr, IrExprData, IrFunctionCall, IrIfStatement, IrInstantiation, IrProgram, IrStatement,
    IrStatementOrDecl, IrType, IrVariableDecl, VariableId,
};
use crate::metadata::ProgramMetadata;
use crate::text::tagged;

verus! {

/// `either::Either`, with its two variants.
#[verifier::external_type_specification]
#[verifier::reject_recursive_types(L)]
#[verifier::reject_recursive_types(R)]
pub struct ExEither<L, R>(Either<L, R>);

// ---------------------------------------------------------------------------------------
// Names and small pieces
// ---------------------------------------------------------------------------------------
/// The variable that tells whether `id` has a value.
pub open spec fn has_value_var(id: VariableId) -> Seq<char> {
    tagged("has_value__"@, id as nat)
}

/// The variable that tells whether `id` has been declared as a variable.
pub open spec fn declared_var(id: VariableId) -> Seq<char> {
    tagged("declared_var__"@, id as nat)
}

/// The variable that holds the value of `id`.
pub open spec fn value_var(id: VariableId) -> Seq<char> {
    tagged("var__"@, id as nat)
}

/// The variable that holds the name of the node to which the function `id` returns.
pub open spec fn return_target_var(id: FunctionId) -> Seq<char> {
    tagged("func_ret_target__"@, id as nat)
}

/// The variable that holds what the last function returned.
pub open spec fn return_var() -> Seq<char> {
    "ret"@
}

/// The command that gives a variable the value of `pred`.
pub open spec fn assign(name: Seq<char>, pred: PredicateView) -> CommandView {
    CommandView::Assignment(name, pred)
}

/// The command that gives a variable a truth value.
pub open spec fn assign_bool(name: Seq<char>, b: bool) -> CommandView {
    CommandView::Assignment(name, PredicateView::Bool(b))
}

/// The negation of `pred`.
pub open spec fn negated(pred: PredicateView) -> PredicateView {
    PredicateView::Negation(Box::new(pred))
}

/// The edge from `from` to `to` under `pred`.
pub open spec fn edge(from: int, to: int, pred: PredicateView) -> EdgeView {
    EdgeView { from, to, pred }
}

/// The edge from `from` to `to` that can always be taken.
pub open spec fn always(from: int, to: int) -> EdgeView {
    EdgeView { from, to, pred: PredicateView::Bool(true) }
}

/// The node with the name `name` and the commands `commands`.
pub open spec fn node(name: Seq<char>, commands: Seq<CommandView>) -> NodeView {
    NodeView { name, commands }
}

/// A graph with the part that was added last.
pub ghost struct Part {
    pub graph: GraphView,
    pub range: RangeView,
}

/// A graph with the part that was added last, and the predicate that holds the value which
/// that part has computed.
pub ghost struct ValuePart {
    pub graph: GraphView,
    pub pred: PredicateView,
    pub range: RangeView,
}

// ---------------------------------------------------------------------------------------
// Expressions
// ---------------------------------------------------------------------------------------
/// A check of `pred` in front of the node `next`: the check goes on to `next` where `pred` is
/// true, and to a new bug node where it is not.
pub open spec fn assert_gcl(pred: PredicateView, next: int, g: GraphView) -> GraphView {
    let n = g.nodes.len() as int;
    g.grow(
        seq![
            node(g.fresh("bug"@, 0), seq![CommandView::Bug]),
            node(g.fresh("assert"@, 1), seq![]),
        ],
        seq![edge(n + 1, next, pred), edge(n + 1, n, negated(pred))],
        2,
    )
}

/// A node that assigns `value` to the variable of the same name.
pub open spec fn single_assignment_gcl(value: PredicateView, g: GraphView) -> GraphView {
    let name = g.fresh("expr"@, 0);
    g.grow(seq![node(name, seq![assign(name, value)])], seq![], 1)
}

/// A conjunction (`is_and`) or a disjunction, when `left` has been added and then `right`.
///
/// Where the left value decides, the right operand is not entered; where it does not, the
/// right value decides. Either way one of two nodes notes the result.
pub open spec fn short_circuit_gcl(
    left: ValuePart,
    right: ValuePart,
    is_and: bool,
) -> ValuePart {
    let g = right.graph;
    let n = g.nodes.len() as int;
    let name = g.fresh("expr"@, 0);
    let (true_base, false_base, end_base) = if is_and {
        ("add_expr_true"@, "add_expr_false"@, "add_expr_end"@)
    } else {
        ("or_expr_true"@, "or_expr_false"@, "or_expr_end"@)
    };
    let undecided = if is_and {
        left.pred
    } else {
        negated(left.pred)
    };
    let decided = if is_and {
        negated(left.pred)
    } else {
        left.pred
    };
    ValuePart {
        graph: g.grow(
            seq![
                node(g.fresh(true_base, 1), seq![assign_bool(name, true)]),
                node(g.fresh(false_base, 2), seq![assign_bool(name, false)]),
                node(g.fresh(end_base, 3), seq![]),
            ],
            seq![
                edge(left.range.end, right.range.start, undecided),
                edge(
                    left.range.end,
                    if is_and {
                        n + 1
                    } else {
                        n
                    },
                    decided,
                ),
                edge(right.range.end, n, right.pred),
                edge(right.range.end, n + 1, negated(right.pred)),
                always(n, n + 2),
                always(n + 1, n + 2),
            ],
            4,
        ),
        pred: PredicateView::Var(name),
        range: RangeView { start: left.range.start, end: n + 2 },
    }
}

/// A call: the first new node notes where to return to and goes on to the function; the end
/// of the function goes on to the second new node where that is what has been noted.
pub open spec fn call_gcl(call: IrFunctionCall, g: GraphView) -> Part {
    let n = g.nodes.len() as int;
    let function = g.functions[call.target];
    let end_name = g.fresh("func_call_end"@, 1);
    let target = return_target_var(call.target);
    Part {
        graph: g.grow(
            seq![
                node(
                    g.fresh("func_call_start"@, 0),
                    seq![assign(target, PredicateView::String(end_name))],
                ),
                node(end_name, seq![]),
            ],
            seq![
                always(n, function.start),
                edge(
                    function.end,
                    n + 1,
                    PredicateView::Equality(
                        Box::new(PredicateView::StringVar(target)),
                        Box::new(PredicateView::String(end_name)),
                    ),
                ),
            ],
            2,
        ),
        range: RangeView { start: n, end: n + 1 },
    }
}

/// An expression.
pub open spec fn expr_gcl(expr: IrExpr, g: GraphView) -> ValuePart
    decreases expr,
{
    let n = g.nodes.len() as int;
    match expr.data {
        IrExprData::Bool(b) => ValuePart {
            graph: single_assignment_gcl(PredicateView::Bool(b), g),
            pred: PredicateView::Var(g.fresh("expr"@, 0)),
            range: RangeView { start: n, end: n },
        },
        IrExprData::Var(id) => ValuePart {
            graph: assert_gcl(
                PredicateView::Var(has_value_var(id)),
                n,
                single_assignment_gcl(PredicateView::Var(value_var(id)), g),
            ),
            pred: PredicateView::Var(g.fresh("expr"@, 0)),
            range: RangeView { start: n + 2, end: n },
        },
        IrExprData::And(left, right) => {
            let left_part = expr_gcl(*left, g);
            let right_part = expr_gcl(*right, left_part.graph);
            short_circuit_gcl(left_part, right_part, true)
        },
        IrExprData::Or(left, right) => {
            let left_part = expr_gcl(*left, g);
            let right_part = expr_gcl(*right, left_part.graph);
            short_circuit_gcl(left_part, right_part, false)
        },
        IrExprData::Negation(inner) => {
            let part = expr_gcl(*inner, g);
            let name = part.graph.fresh("expr"@, 0);
            let m = part.graph.nodes.len() as int;
            ValuePart {
                graph: part.graph.grow(
                    seq![node(name, seq![assign(name, negated(part.pred))])],
                    seq![always(part.range.end, m)],
                    1,
                ),
                pred: PredicateView::Var(name),
                range: RangeView { start: part.range.start, end: m },
            }
        },
        IrExprData::FunctionCall(call) => {
            let part = call_gcl(call, g);
            let name = part.graph.fresh("expr"@, 0);
            let m = part.graph.nodes.len() as int;
            ValuePart {
                graph: part.graph.grow(
                    seq![
                        node(
                            part.graph.fresh("expr_func"@, 1),
                            seq![assign(name, PredicateView::Var(return_var()))],
                        ),
                    ],
                    seq![always(part.range.end, m)],
                    2,
                ),
                pred: PredicateView::Var(name),
                range: RangeView { start: part.range.start, end: m },
            }
        },
    }
}

// ---------------------------------------------------------------------------------------
// Statements
// ---------------------------------------------------------------------------------------
/// An instantiation: only a command.
pub open spec fn instantiation_gcl(instantiation: IrInstantiation) -> CommandView {
    assign_bool(has_value_var(instantiation.id), true)
}

/// The commands of a declaration, where `pred` holds the declared value, if there is one.
pub open spec fn var_decl_commands(
    decl: IrVariableDecl,
    pred: Option<PredicateView>,
) -> Seq<CommandView> {
    seq![assign_bool(has_value_var(decl.id), pred is Some)] + (if decl.is_const {
        seq![]
    } else {
        seq![assign_bool(declared_var(decl.id), true)]
    }) + (match pred {
        Some(value) => seq![assign(value_var(decl.id), value)],
        None => seq![],
    })
}

/// The declaration of a variable or a constant.
pub open spec fn var_decl_gcl(decl: IrVariableDecl, g: GraphView) -> Part {
    let name = g.fresh(tagged("var_decl__"@, decl.id as nat), 0);
    let named = g.grow(seq![], seq![], 1);
    match decl.value {
        Some(value) => {
            let part = expr_gcl(value, named);
            let n = part.graph.nodes.len() as int;
            Part {
                graph: part.graph.grow(
                    seq![node(name, var_decl_commands(decl, Some(part.pred)))],
                    seq![always(part.range.end, n)],
                    0,
                ),
                range: RangeView { start: part.range.start, end: n },
            }
        },
        None => {
            let n = g.nodes.len() as int;
            Part {
                graph: named.grow(seq![node(name, var_decl_commands(decl, None))], seq![], 0),
                range: RangeView { start: n, end: n },
            }
        },
    }
}

/// An assignment: a check that the variable has been declared, the value, and then the node
/// that assigns it.
pub open spec fn assignment_gcl(assignment: IrAssignment, g: GraphView) -> Part {
    let part = expr_gcl(assignment.value, g);
    let n = part.graph.nodes.len() as int;
    let assigned = part.graph.grow(
        seq![
            node(
                part.graph.fresh(tagged("assignment__"@, assignment.var as nat), 0),
                seq![
                    assign_bool(has_value_var(assignment.var), true),
                    assign(value_var(assignment.var), part.pred),
                ],
            ),
        ],
        seq![always(part.range.end, n)],
        1,
    );
    Part {
        graph: assert_gcl(
            PredicateView::Var(declared_var(assignment.var)),
            part.range.start,
            assigned,
        ),
        range: RangeView { start: n + 2, end: n },
    }
}

/// The edges of a conditional: from the condition to one of the branches, and from each branch
/// to `end`. Without an else branch the condition goes on to `end` itself.
pub open spec fn branch_edges(
    cond: RangeView,
    pred: PredicateView,
    then_range: RangeView,
    else_range: Option<RangeView>,
    end: int,
) -> Seq<EdgeView> {
    match else_range {
        Some(range) => seq![
            edge(cond.end, then_range.start, pred),
            edge(cond.end, range.start, negated(pred)),
            always(then_range.end, end),
            always(range.end, end),
        ],
        None => seq![
            edge(cond.end, then_range.start, pred),
            edge(cond.end, end, negated(pred)),
            always(then_range.end, end),
        ],
    }
}

/// A conditional, when `cond`, then `then_part` and then `else_part`, if there is one, have
/// been added.
pub open spec fn branch_gcl(
    cond: ValuePart,
    then_part: Part,
    else_part: Option<Part>,
    end: int,
) -> Part {
    let (g, else_range) = match else_part {
        Some(part) => (part.graph, Some(part.range)),
        None => (then_part.graph, None),
    };
    Part {
        graph: g.grow(
            seq![],
            branch_edges(cond.range, cond.pred, then_part.range, else_range, end),
            0,
        ),
        range: RangeView { start: cond.range.start, end },
    }
}

/// The node in which the branches of a conditional meet.
pub open spec fn if_end_gcl(g: GraphView) -> GraphView {
    g.grow(seq![node(g.fresh("if_end"@, 0), seq![])], seq![], 1)
}

/// A conditional: the condition, then one of the branches, then the common end. The end is
/// the first of the new nodes.
pub open spec fn if_gcl(statement: IrIfStatement, g: GraphView) -> Part
    decreases statement, 0nat,
{
    let cond = expr_gcl(statement.condition, if_end_gcl(g));
    let then_part = statement_gcl(*statement.then_case, cond.graph);
    let else_part = match statement.else_case {
        Some(else_case) => Some(statement_gcl(*else_case, then_part.graph)),
        None => None,
    };
    branch_gcl(cond, then_part, else_part, g.nodes.len() as int)
}

/// A statement.
pub open spec fn statement_gcl(statement: IrStatement, g: GraphView) -> Part
    decreases statement, 0nat,
{
    match statement {
        IrStatement::Block(block) => block_gcl(block.0@, g),
        IrStatement::If(if_statement) => if_gcl(if_statement, g),
        IrStatement::Assignment(assignment) => assignment_gcl(assignment, g),
        IrStatement::FunctionCall(call) => call_gcl(call, g),
    }
}

/// An element of a block: a command, or nodes of its own.
pub open spec fn element_gcl(
    element: IrStatementOrDecl,
    g: GraphView,
) -> (GraphView, Either<CommandView, RangeView>)
    decreases element, 0nat,
{
    match element {
        IrStatementOrDecl::Statement(statement) => {
            let part = statement_gcl(statement, g);
            (part.graph, Either::Right(part.range))
        },
        IrStatementOrDecl::VariableDecl(decl) => {
            let part = var_decl_gcl(decl, g);
            (part.graph, Either::Right(part.range))
        },
        IrStatementOrDecl::Instantiation(instantiation) => (
            g,
            Either::Left(instantiation_gcl(instantiation)),
        ),
    }
}

/// A block of which some elements have been translated.
pub ghost struct BlockState {
    pub graph: GraphView,
    /// Commands that no node holds yet.
    pub pending: Seq<CommandView>,
    /// The nodes so far, if there are any.
    pub range: Option<RangeView>,
}

impl BlockState {
    /// The block of which nothing has been translated.
    pub open spec fn start(g: GraphView) -> BlockState {
        BlockState { graph: g, pending: seq![], range: None }
    }

    /// `next`, which is in the graph already, runs after the nodes so far.
    pub open spec fn chain(self, next: RangeView) -> BlockState {
        match self.range {
            Some(range) => BlockState {
                graph: self.graph.link(range.end, next.start),
                range: Some(RangeView { start: range.start, end: next.end }),
                ..self
            },
            None => BlockState { range: Some(next), ..self },
        }
    }

    /// A new node holds the pending commands and runs after the nodes so far.
    pub open spec fn flush(self) -> BlockState {
        let n = self.graph.nodes.len() as int;
        BlockState {
            graph: self.graph.grow(
                seq![node(self.graph.fresh("block_stmt_body"@, 0), self.pending)],
                seq![],
                1,
            ),
            pending: seq![],
            range: self.range,
        }.chain(RangeView { start: n, end: n })
    }

    /// One more element, which is in the graph already and has given `output`, runs after the
    /// nodes so far.
    #[verifier::opaque]
    pub open spec fn absorb(self, output: Either<CommandView, RangeView>) -> BlockState {
        match output {
            Either::Left(command) => BlockState { pending: self.pending.push(command), ..self },
            Either::Right(range) => if self.pending.len() == 0 {
                self.chain(range)
            } else {
                self.flush().chain(range)
            },
        }
    }

    /// The block with nothing pending and at least one node.
    #[verifier::opaque]
    pub open spec fn finish(self) -> BlockState {
        if self.pending.len() == 0 && self.range is Some {
            self
        } else {
            self.flush()
        }
    }
}

/// A block after its first `k` elements.
pub open spec fn block_state(
    elements: Seq<IrStatementOrDecl>,
    k: nat,
    g: GraphView,
) -> BlockState
    decreases elements, k,
{
    if k == 0 || k > elements.len() {
        BlockState::start(g)
    } else {
        let state = block_state(elements, (k - 1) as nat, g);
        let (graph, output) = element_gcl(elements[k - 1], state.graph);
        BlockState { graph, ..state }.absorb(output)
    }
}

/// A block: the elements in order, with at least one node.
pub open spec fn block_gcl(elements: Seq<IrStatementOrDecl>, g: GraphView) -> Part
    decreases elements, elements.len() + 1,
{
    let state = block_state(elements, elements.len(), g).finish();
    Part { graph: state.graph, range: state.range->0 }
}

// ---------------------------------------------------------------------------------------
// Declarations
// ---------------------------------------------------------------------------------------
/// An action: a node that notes the result, and then the body.
pub open spec fn action_gcl(action: IrActionDecl, g: GraphView) -> Part {
    let body = block_gcl(action.body.0@, g);
    let n = body.graph.nodes.len() as int;
    Part {
        graph: body.graph.grow(
            seq![
                node(
                    tagged("action__"@, action.id as nat),
                    seq![assign_bool(return_var(), true)],
                ),
            ],
            seq![always(n, body.range.start)],
            0,
        ),
        range: RangeView { start: n, end: body.range.end },
    }
}

/// The graph after the first `k` local declarations have been looked at for actions. An
/// action is registered once it has been translated, so later actions can call it.
pub open spec fn actions_gcl(decls: Seq<IrControlLocalDecl>, k: nat, g: GraphView) -> GraphView
    decreases k,
{
    if k == 0 || k > decls.len() {
        g
    } else {
        let before = actions_gcl(decls, (k - 1) as nat, g);
        match decls[k - 1] {
            IrControlLocalDecl::Action(action) => {
                let part = action_gcl(action, before);
                GraphView {
                    functions: part.graph.functions.insert(action.id, part.range),
                    ..part.graph
                }
            },
            _ => before,
        }
    }
}

/// What the first `k` local declarations put in front of the apply block.
pub open spec fn local_elements(
    decls: Seq<IrControlLocalDecl>,
    k: nat,
) -> Seq<IrStatementOrDecl>
    decreases k,
{
    if k == 0 || k > decls.len() {
        seq![]
    } else {
        let before = local_elements(decls, (k - 1) as nat);
        match decls[k - 1] {
            IrControlLocalDecl::Variable(decl) => before.push(
                IrStatementOrDecl::VariableDecl(decl),
            ),
            IrControlLocalDecl::Instantiation(instantiation) => before.push(
                IrStatementOrDecl::Instantiation(instantiation),
            ),
            _ => before,
        }
    }
}

/// The elements of a control block: its variables and instantiations, then its apply block.
pub open spec fn control_elements(control: IrControlDecl) -> Seq<IrStatementOrDecl> {
    local_elements(control.local_decls@, control.local_decls@.len()) + control.apply_body.0@
}

/// The graph with another name for the node `index`.
pub open spec fn renamed(g: GraphView, index: int, name: Seq<char>) -> GraphView {
    GraphView {
        nodes: g.nodes.update(index, NodeView { name, ..g.nodes[index] }),
        ..g
    }
}

/// The graph with other commands for the node `index`.
pub open spec fn refilled(g: GraphView, index: int, commands: Seq<CommandView>) -> GraphView {
    GraphView {
        nodes: g.nodes.update(index, NodeView { commands, ..g.nodes[index] }),
        ..g
    }
}

/// A control block: first its actions, each on its own, and then its elements as one block.
pub open spec fn control_gcl(control: IrControlDecl, g: GraphView) -> Part {
    let decls = control.local_decls@;
    let part = block_gcl(control_elements(control), actions_gcl(decls, decls.len(), g));
    Part {
        graph: renamed(part.graph, part.range.start, "control__todo"@),
        range: part.range,
    }
}

/// A program of which some declarations have been translated.
pub ghost struct ProgramState {
    pub graph: GraphView,
    /// The commands of the instantiations so far.
    pub commands: Seq<CommandView>,
    /// The last node of the constants so far.
    pub end: int,
    /// The first node of the last control block so far.
    pub control: Option<int>,
}

impl ProgramState {
    /// The program of which only the start node is there.
    pub open spec fn start(g: GraphView) -> ProgramState {
        ProgramState {
            graph: g.grow(seq![node("start"@, seq![])], seq![], 0),
            commands: seq![],
            end: g.nodes.len() as int,
            control: None,
        }
    }

    /// The program after one more declaration.
    pub open spec fn absorb(self, decl: IrDeclaration) -> ProgramState {
        match decl {
            IrDeclaration::Constant(constant) => {
                let part = var_decl_gcl(constant, self.graph);
                ProgramState {
                    graph: part.graph.link(self.end, part.range.start),
                    end: part.range.end,
                    ..self
                }
            },
            IrDeclaration::Control(control) => {
                let part = control_gcl(control, self.graph);
                ProgramState { graph: part.graph, control: Some(part.range.start), ..self }
            },
            IrDeclaration::Instantiation(instantiation) => ProgramState {
                commands: self.commands.push(instantiation_gcl(instantiation)),
                ..self
            },
        }
    }
}

/// A program after its first `k` declarations.
pub open spec fn program_state(
    decls: Seq<IrDeclaration>,
    k: nat,
    g: GraphView,
) -> ProgramState
    decreases k,
{
    if k == 0 || k > decls.len() {
        ProgramState::start(g)
    } else {
        program_state(decls, (k - 1) as nat, g).absorb(decls[k - 1])
    }
}

/// Whether one of the first `k` declarations is a constant.
pub open spec fn has_constant(decls: Seq<IrDeclaration>, k: nat) -> bool {
    exists|i: int| 0 <= i < k && #[trigger] decls[i] is Constant
}

/// Whether one of the first `k` declarations is a control block.
pub open spec fn has_control(decls: Seq<IrDeclaration>, k: nat) -> bool {
    exists|i: int| 0 <= i < k && #[trigger] decls[i] is Control
}

/// A program: the start node with the commands of the instantiations, then the constants in a
/// chain behind it; the last control block can be entered from the start node, too.
pub open spec fn program_gcl(program: IrProgram, g: GraphView) -> GraphView {
    let decls = program.declarations@;
    let state = program_state(decls, decls.len(), g);
    let start = g.nodes.len() as int;
    let filled = refilled(state.graph, start, state.commands);
    match state.control {
        Some(control) => filled.link(start, control),
        None => filled,
    }
}

// ---------------------------------------------------------------------------------------
// Calls
// ---------------------------------------------------------------------------------------
/// The functions that an expression calls.
pub open spec fn expr_calls(expr: IrExpr) -> Set<FunctionId>
    decreases expr,
{
    match expr.data {
        IrExprData::Bool(_) => Set::empty(),
        IrExprData::Var(_) => Set::empty(),
        IrExprData::And(left, right) => expr_calls(*left).union(expr_calls(*right)),
        IrExprData::Or(left, right) => expr_calls(*left).union(expr_calls(*right)),
        IrExprData::Negation(inner) => expr_calls(*inner),
        IrExprData::FunctionCall(call) => set![call.target],
    }
}

/// The functions that a declaration calls.
pub open spec fn var_decl_calls(decl: IrVariableDecl) -> Set<FunctionId> {
    match decl.value {
        Some(value) => expr_calls(value),
        None => Set::empty(),
    }
}

/// The functions that a conditional calls.
pub open spec fn if_calls(statement: IrIfStatement) -> Set<FunctionId>
    decreases statement, 0nat,
{
    expr_calls(statement.condition).union(statement_calls(*statement.then_case)).union(
        match statement.else_case {
            Some(else_case) => statement_calls(*else_case),
            None => Set::empty(),
        },
    )
}

/// The functions that a statement calls.
pub open spec fn statement_calls(statement: IrStatement) -> Set<FunctionId>
    decreases statement, 0nat,
{
    match statement {
        IrStatement::Block(block) => block_calls(block.0@, block.0@.len()),
        IrStatement::If(if_statement) => if_calls(if_statement),
        IrStatement::Assignment(assignment) => expr_calls(assignment.value),
        IrStatement::FunctionCall(call) => set![call.target],
    }
}

/// The functions that an element of a block calls.
pub open spec fn element_calls(element: IrStatementOrDecl) -> Set<FunctionId>
    decreases element, 0nat,
{
    match element {
        IrStatementOrDecl::Statement(statement) => statement_calls(statement),
        IrStatementOrDecl::VariableDecl(decl) => var_decl_calls(decl),
        IrStatementOrDecl::Instantiation(_) => Set::empty(),
    }
}

/// The functions that the first `k` elements of a block call.
pub open spec fn block_calls(elements: Seq<IrStatementOrDecl>, k: nat) -> Set<FunctionId>
    decreases elements, k,
{
    if k == 0 || k > elements.len() {
        Set::empty()
    } else {
        block_calls(elements, (k - 1) as nat).union(element_calls(elements[k - 1]))
    }
}

/// The functions that are known after the first `k` local declarations, when `known` are
/// known before.
pub open spec fn known_after_locals(
    decls: Seq<IrControlLocalDecl>,
    k: nat,
    known: Set<FunctionId>,
) -> Set<FunctionId>
    decreases k,
{
    if k == 0 || k > decls.len() {
        known
    } else {
        let before = known_after_locals(decls, (k - 1) as nat, known);
        match decls[k - 1] {
            IrControlLocalDecl::Action(action) => before.insert(action.id),
            _ => before,
        }
    }
}

/// Whether the local declaration `i`, if it is an action, only calls functions of `known` and
/// actions that are declared before it.
pub open spec fn local_calls_known(
    decls: Seq<IrControlLocalDecl>,
    i: int,
    known: Set<FunctionId>,
) -> bool {
    match decls[i] {
        IrControlLocalDecl::Action(action) => block_calls(
            action.body.0@,
            action.body.0@.len(),
        ).subset_of(known_after_locals(decls, i as nat, known)),
        _ => true,
    }
}

/// Whether each action only calls functions of `known` and actions that are declared before
/// it.
pub open spec fn actions_calls_known(
    decls: Seq<IrControlLocalDecl>,
    known: Set<FunctionId>,
) -> bool {
    forall|i: int| 0 <= i < decls.len() ==> #[trigger] local_calls_known(decls, i, known)
}

/// Whether a control block only calls functions of `known` and its own: an action those that
/// are declared before it, the rest all of them.
pub open spec fn control_calls_known(control: IrControlDecl, known: Set<FunctionId>) -> bool {
    let decls = control.local_decls@;
    let elements = control_elements(control);
    &&& actions_calls_known(decls, known)
    &&& block_calls(elements, elements.len()).subset_of(
        known_after_locals(decls, decls.len(), known),
    )
}

/// The functions that are known after the first `k` declarations of a program.
pub open spec fn known_after_decls(
    decls: Seq<IrDeclaration>,
    k: nat,
    known: Set<FunctionId>,
) -> Set<FunctionId>
    decreases k,
{
    if k == 0 || k > decls.len() {
        known
    } else {
        let before = known_after_decls(decls, (k - 1) as nat, known);
        match decls[k - 1] {
            IrDeclaration::Control(control) => known_after_locals(
                control.local_decls@,
                control.local_decls@.len(),
                before,
            ),
            _ => before,
        }
    }
}

/// Whether the last declaration of a program instantiates the package `V1Switch`.
pub open spec fn has_switch_main(program: IrProgram, metadata: ProgramMetadata) -> bool {
    let decls = program.declarations@;
    &&& decls.len() > 0
    &&& decls.last() matches IrDeclaration::Instantiation(main)
    &&& main.ty matches IrType::Struct(ty)
    &&& metadata.is_type_name(ty.id, "V1Switch"@)
}

/// Whether the declaration `i` of a program only calls functions that are known by then.
pub open spec fn decl_calls_known(
    decls: Seq<IrDeclaration>,
    i: int,
    known: Set<FunctionId>,
) -> bool {
    let before = known_after_decls(decls, i as nat, known);
    match decls[i] {
        IrDeclaration::Constant(constant) => var_decl_calls(constant).subset_of(before),
        IrDeclaration::Control(control) => control_calls_known(control, before),
        IrDeclaration::Instantiation(_) => true,
    }
}

/// Whether each declaration of a program only calls functions that are known by then, when
/// `known` are known before.
pub open spec fn program_calls_known(program: IrProgram, known: Set<FunctionId>) -> bool {
    let decls = program.declarations@;
    forall|i: int| 0 <= i < decls.len() ==> #[trigger] decl_calls_known(decls, i, known)
}

} // verus!
