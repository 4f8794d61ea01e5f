//! How many nodes, edges and names a translation adds to the graph.
//!
//! The numbers can be told from the program alone, without translating it.

use either::Either;
use vstd::prelude::*;

use crate::gcl::{CommandView, RangeView};
use crate::graph::GraphView;
use crate::growth::{lemma_actions_grow, lemma_block_extends, lemma_program_state_extends};
use crate::ir::{
    IrActionDecl, IrControlDecl, IrControlLocalDecl, IrDeclaration, IrExpr, IrExprData,
    IrIfStatement, IrProgram, IrStatement, IrStatementOrDecl, IrVariableDecl,
};
use crate::translation::{
    actions_gcl, block_gcl, block_state, branch_gcl, control_calls_known, control_elements,
    control_gcl, decl_calls_known, element_gcl, expr_gcl, has_control, if_end_gcl, if_gcl,
    program_calls_known, program_gcl, program_state, short_circuit_gcl, statement_gcl, var_decl_gcl,
    BlockState, Part, ProgramState, ValuePart,
};

verus! {

/// Numbers of nodes, edges and names.
pub ghost struct Count {
    pub nodes: nat,
    pub edges: nat,
    pub names: nat,
}

impl Count {
    /// Both together.
    pub open spec fn plus(self, other: Count) -> Count {
        Count {
            nodes: self.nodes + other.nodes,
            edges: self.edges + other.edges,
            names: self.names + other.names,
        }
    }

    /// Whether there are at most as many as `other`.
    pub open spec fn is_within(self, other: Count) -> bool {
        &&& self.nodes <= other.nodes
        &&& self.edges <= other.edges
        &&& self.names <= other.names
    }
}

/// So many nodes, edges and names.
pub open spec fn count(nodes: nat, edges: nat, names: nat) -> Count {
    Count { nodes, edges, names }
}

/// Whether `later` has exactly `added` nodes, edges and names more than `g`.
pub open spec fn adds(g: GraphView, later: GraphView, added: Count) -> bool {
    &&& later.nodes.len() == g.nodes.len() + added.nodes
    &&& later.edges.len() == g.edges.len() + added.edges
    &&& later.names == g.names + added.names
}

// ---------------------------------------------------------------------------------------
// The numbers
// ---------------------------------------------------------------------------------------
/// What an expression adds.
pub open spec fn expr_count(expr: IrExpr) -> Count
    decreases expr,
{
    match expr.data {
        IrExprData::Bool(_) => count(1, 0, 1),
        IrExprData::Var(_) => count(3, 2, 3),
        IrExprData::And(left, right) => expr_count(*left).plus(expr_count(*right)).plus(
            count(3, 6, 4),
        ),
        IrExprData::Or(left, right) => expr_count(*left).plus(expr_count(*right)).plus(
            count(3, 6, 4),
        ),
        IrExprData::Negation(inner) => expr_count(*inner).plus(count(1, 1, 1)),
        IrExprData::FunctionCall(_) => count(3, 3, 4),
    }
}

/// What a declaration adds.
pub open spec fn var_decl_count(decl: IrVariableDecl) -> Count {
    match decl.value {
        Some(value) => expr_count(value).plus(count(1, 1, 1)),
        None => count(1, 0, 1),
    }
}

/// What a conditional adds.
pub open spec fn if_count(statement: IrIfStatement) -> Count
    decreases statement, 0nat,
{
    let branches = expr_count(statement.condition).plus(statement_count(*statement.then_case));
    match statement.else_case {
        Some(else_case) => branches.plus(statement_count(*else_case)).plus(count(1, 4, 1)),
        None => branches.plus(count(1, 3, 1)),
    }
}

/// What a statement adds.
pub open spec fn statement_count(statement: IrStatement) -> Count
    decreases statement, 0nat,
{
    match statement {
        IrStatement::Block(block) => block_count(block.0@),
        IrStatement::If(if_statement) => if_count(if_statement),
        IrStatement::Assignment(assignment) => expr_count(assignment.value).plus(count(3, 3, 3)),
        IrStatement::FunctionCall(_) => count(2, 2, 2),
    }
}

/// What an element of a block adds by itself.
pub open spec fn element_count(element: IrStatementOrDecl) -> Count
    decreases element, 0nat,
{
    match element {
        IrStatementOrDecl::Statement(statement) => statement_count(statement),
        IrStatementOrDecl::VariableDecl(decl) => var_decl_count(decl),
        IrStatementOrDecl::Instantiation(_) => count(0, 0, 0),
    }
}

/// What a block adds for a node that holds pending commands.
pub open spec fn flush_count(has_nodes: bool) -> Count {
    count(
        1,
        if has_nodes {
            1
        } else {
            0
        },
        1,
    )
}

/// What a block adds to join an element with nodes of its own to what is before it.
pub open spec fn join_count(has_pending: bool, has_nodes: bool) -> Count {
    if has_pending {
        flush_count(has_nodes).plus(count(0, 1, 0))
    } else if has_nodes {
        count(0, 1, 0)
    } else {
        count(0, 0, 0)
    }
}

/// What has been added for the first elements of a block.
pub ghost struct BlockCount {
    pub added: Count,
    /// Whether there are commands that no node holds yet.
    pub has_pending: bool,
    /// Whether there are nodes.
    pub has_nodes: bool,
}

impl BlockCount {
    /// Nothing has been added.
    pub open spec fn start() -> BlockCount {
        BlockCount { added: count(0, 0, 0), has_pending: false, has_nodes: false }
    }

    /// One more element, which adds `added` by itself.
    pub open spec fn absorb(self, element: IrStatementOrDecl, added: Count) -> BlockCount {
        if element is Instantiation {
            BlockCount { has_pending: true, ..self }
        } else {
            BlockCount {
                added: self.added.plus(added).plus(join_count(self.has_pending, self.has_nodes)),
                has_pending: false,
                has_nodes: true,
            }
        }
    }

    /// The end of the block.
    pub open spec fn finish(self) -> Count {
        if !self.has_pending && self.has_nodes {
            self.added
        } else {
            self.added.plus(flush_count(self.has_nodes))
        }
    }
}

/// What the first `k` elements of a block add.
pub open spec fn elements_count(elements: Seq<IrStatementOrDecl>, k: nat) -> BlockCount
    decreases elements, k,
{
    if k == 0 || k > elements.len() {
        BlockCount::start()
    } else {
        elements_count(elements, (k - 1) as nat).absorb(
            elements[k - 1],
            element_count(elements[k - 1]),
        )
    }
}

/// What a block adds.
pub open spec fn block_count(elements: Seq<IrStatementOrDecl>) -> Count
    decreases elements, elements.len() + 1,
{
    elements_count(elements, elements.len()).finish()
}

/// What an action adds.
pub open spec fn action_count(action: IrActionDecl) -> Count {
    block_count(action.body.0@).plus(count(1, 1, 0))
}

/// What the actions among the first `k` local declarations add.
pub open spec fn actions_count(decls: Seq<IrControlLocalDecl>, k: nat) -> Count
    decreases k,
{
    if k == 0 || k > decls.len() {
        count(0, 0, 0)
    } else {
        let before = actions_count(decls, (k - 1) as nat);
        match decls[k - 1] {
            IrControlLocalDecl::Action(action) => before.plus(action_count(action)),
            _ => before,
        }
    }
}

/// What a control block adds.
pub open spec fn control_count(control: IrControlDecl) -> Count {
    actions_count(control.local_decls@, control.local_decls@.len()).plus(
        block_count(control_elements(control)),
    )
}

/// What a declaration of a program adds behind the start node.
pub open spec fn declaration_count(decl: IrDeclaration) -> Count {
    match decl {
        IrDeclaration::Constant(constant) => var_decl_count(constant).plus(count(0, 1, 0)),
        IrDeclaration::Control(control) => control_count(control),
        IrDeclaration::Instantiation(_) => count(0, 0, 0),
    }
}

/// What the first `k` declarations of a program add behind the start node.
pub open spec fn declarations_count(decls: Seq<IrDeclaration>, k: nat) -> Count
    decreases k,
{
    if k == 0 || k > decls.len() {
        count(0, 0, 0)
    } else {
        declarations_count(decls, (k - 1) as nat).plus(declaration_count(decls[k - 1]))
    }
}

/// What a program adds: the start node, the declarations, and the edge to the last control block.
pub open spec fn program_count(program: IrProgram) -> Count {
    let decls = program.declarations@;
    declarations_count(decls, decls.len()).plus(
        count(
            1,
            if has_control(decls, decls.len()) {
                1
            } else {
                0
            },
            0,
        ),
    )
}

// ---------------------------------------------------------------------------------------
// Translations add these numbers
// ---------------------------------------------------------------------------------------
/// What a conjunction or disjunction adds to its operands.
proof fn lemma_short_circuit_adds(left: ValuePart, right: ValuePart, is_and: bool)
    ensures
        adds(right.graph, short_circuit_gcl(left, right, is_and).graph, count(3, 6, 4)),
{
}

/// An expression adds what it should.
pub proof fn lemma_expr_adds(expr: IrExpr, g: GraphView)
    ensures
        adds(g, expr_gcl(expr, g).graph, expr_count(expr)),
    decreases expr,
{
    match expr.data {
        IrExprData::And(left, right) => {
            let left_part = expr_gcl(*left, g);
            let right_part = expr_gcl(*right, left_part.graph);
            lemma_expr_adds(*left, g);
            lemma_expr_adds(*right, left_part.graph);
            lemma_short_circuit_adds(left_part, right_part, true);
            assert(expr_gcl(expr, g) == short_circuit_gcl(left_part, right_part, true));
        },
        IrExprData::Or(left, right) => {
            let left_part = expr_gcl(*left, g);
            let right_part = expr_gcl(*right, left_part.graph);
            lemma_expr_adds(*left, g);
            lemma_expr_adds(*right, left_part.graph);
            lemma_short_circuit_adds(left_part, right_part, false);
            assert(expr_gcl(expr, g) == short_circuit_gcl(left_part, right_part, false));
        },
        IrExprData::Negation(inner) => {
            lemma_expr_adds(*inner, g);
        },
        _ => {},
    }
}

/// A declaration adds what it should.
pub proof fn lemma_var_decl_adds(decl: IrVariableDecl, g: GraphView)
    ensures
        adds(g, var_decl_gcl(decl, g).graph, var_decl_count(decl)),
{
    if let Some(value) = decl.value {
        lemma_expr_adds(value, g.grow(seq![], seq![], 1));
    }
}

/// What a conditional adds to its condition and its branches.
proof fn lemma_branch_adds(
    g: GraphView,
    cond: ValuePart,
    then_part: Part,
    else_part: Option<Part>,
    end: int,
)
    ensures
        ({
            let later = branch_gcl(cond, then_part, else_part, end).graph;
            match else_part {
                Some(part) => adds(part.graph, later, count(0, 4, 0)),
                None => adds(then_part.graph, later, count(0, 3, 0)),
            }
        }),
        adds(g, if_end_gcl(g), count(1, 0, 1)),
{
}

/// A conditional adds what it should.
pub proof fn lemma_if_adds(statement: IrIfStatement, g: GraphView)
    ensures
        adds(g, if_gcl(statement, g).graph, if_count(statement)),
    decreases statement, 0nat,
{
    let cond = expr_gcl(statement.condition, if_end_gcl(g));
    let then_part = statement_gcl(*statement.then_case, cond.graph);
    lemma_expr_adds(statement.condition, if_end_gcl(g));
    lemma_statement_adds(*statement.then_case, cond.graph);
    let else_part = match statement.else_case {
        Some(else_case) => {
            lemma_statement_adds(*else_case, then_part.graph);
            Some(statement_gcl(*else_case, then_part.graph))
        },
        None => None,
    };
    let end = g.nodes.len() as int;
    lemma_branch_adds(g, cond, then_part, else_part, end);
    assert(if_gcl(statement, g) == branch_gcl(cond, then_part, else_part, end));
}

/// A statement adds what it should.
pub proof fn lemma_statement_adds(statement: IrStatement, g: GraphView)
    ensures
        adds(g, statement_gcl(statement, g).graph, statement_count(statement)),
    decreases statement, 0nat,
{
    match statement {
        IrStatement::Block(block) => {
            lemma_block_adds(block.0@, g);
        },
        IrStatement::If(if_statement) => {
            lemma_if_adds(if_statement, g);
        },
        IrStatement::Assignment(assignment) => {
            lemma_expr_adds(assignment.value, g);
        },
        IrStatement::FunctionCall(_) => {},
    }
}

/// An element of a block adds what it should.
proof fn lemma_element_adds(element: IrStatementOrDecl, g: GraphView)
    ensures
        adds(g, element_gcl(element, g).0, element_count(element)),
        element_gcl(element, g).1 is Left <==> element is Instantiation,
    decreases element, 0nat,
{
    match element {
        IrStatementOrDecl::Statement(statement) => {
            lemma_statement_adds(statement, g);
        },
        IrStatementOrDecl::VariableDecl(decl) => {
            lemma_var_decl_adds(decl, g);
        },
        IrStatementOrDecl::Instantiation(_) => {},
    }
}

/// Whether the translation of the first elements of a block has added what it should.
spec fn is_counted(g: GraphView, state: BlockState, counted: BlockCount) -> bool {
    &&& adds(g, state.graph, counted.added)
    &&& counted.has_pending == (state.pending.len() > 0)
    &&& counted.has_nodes == (state.range is Some)
}

/// What a block adds for a node that holds pending commands.
proof fn lemma_flush_adds(state: BlockState)
    ensures
        adds(state.graph, state.flush().graph, flush_count(state.range is Some)),
        state.flush().range is Some,
        state.flush().pending.len() == 0,
{
}

/// What a block adds to join an element.
proof fn lemma_absorb_adds(state: BlockState, output: Either<CommandView, RangeView>)
    ensures
        ({
            let later = state.absorb(output);
            match output {
                Either::Left(_) => {
                    &&& later.graph == state.graph
                    &&& later.pending.len() > 0
                    &&& later.range == state.range
                },
                Either::Right(_) => {
                    &&& adds(
                        state.graph,
                        later.graph,
                        join_count(state.pending.len() > 0, state.range is Some),
                    )
                    &&& later.pending.len() == 0
                    &&& later.range is Some
                },
            }
        }),
{
    reveal(BlockState::absorb);
    lemma_flush_adds(state);
}

/// The first elements of a block add what they should.
proof fn lemma_elements_add(elements: Seq<IrStatementOrDecl>, k: nat, g: GraphView)
    requires
        k <= elements.len(),
    ensures
        is_counted(g, block_state(elements, k, g), elements_count(elements, k)),
    decreases elements, k,
{
    if k > 0 {
        let j = (k - 1) as nat;
        let element = elements[k - 1];
        let state = block_state(elements, j, g);
        let counted = elements_count(elements, j);
        lemma_elements_add(elements, j, g);
        lemma_element_adds(element, state.graph);
        let (later, output) = element_gcl(element, state.graph);
        let moved = BlockState { graph: later, ..state };
        lemma_absorb_adds(moved, output);
        assert(block_state(elements, k, g) == moved.absorb(output));
        assert(elements_count(elements, k) == counted.absorb(element, element_count(element)));
    }
}

/// A block adds what it should.
pub proof fn lemma_block_adds(elements: Seq<IrStatementOrDecl>, g: GraphView)
    ensures
        adds(g, block_gcl(elements, g).graph, block_count(elements)),
    decreases elements, elements.len() + 1,
{
    let state = block_state(elements, elements.len(), g);
    lemma_elements_add(elements, elements.len(), g);
    lemma_flush_adds(state);
    reveal(BlockState::finish);
}

/// The actions of a control block add what they should.
proof fn lemma_actions_add(decls: Seq<IrControlLocalDecl>, k: nat, g: GraphView)
    requires
        k <= decls.len(),
    ensures
        adds(g, actions_gcl(decls, k, g), actions_count(decls, k)),
    decreases k,
{
    if k > 0 {
        let before = actions_gcl(decls, (k - 1) as nat, g);
        lemma_actions_add(decls, (k - 1) as nat, g);
        if let IrControlLocalDecl::Action(action) = decls[k - 1] {
            lemma_block_adds(action.body.0@, before);
        }
    }
}

/// A control block adds what it should.
pub proof fn lemma_control_adds(control: IrControlDecl, g: GraphView)
    requires
        g.wf(),
        control_calls_known(control, g.functions.dom()),
    ensures
        adds(g, control_gcl(control, g).graph, control_count(control)),
{
    let decls = control.local_decls@;
    let elements = control_elements(control);
    let called = actions_gcl(decls, decls.len(), g);
    lemma_actions_add(decls, decls.len(), g);
    lemma_block_adds(elements, called);
    lemma_actions_grow(decls, decls.len(), g);
    lemma_block_extends(elements, called);
}

/// Whether there is a control block, after one more declaration.
pub proof fn lemma_has_control_step(decls: Seq<IrDeclaration>, k: nat)
    requires
        k < decls.len(),
    ensures
        has_control(decls, k + 1) <==> has_control(decls, k) || decls[k as int] is Control,
{
    if decls[k as int] is Control {
        assert(has_control(decls, k + 1));
    }
    if has_control(decls, k) {
        let i = choose|i: int| 0 <= i < k && #[trigger] decls[i] is Control;
        assert(decls[i] is Control);
    }
}

/// The first declarations of a program add what they should.
proof fn lemma_declarations_add(program: IrProgram, k: nat, g: GraphView)
    requires
        g.wf(),
        k <= program.declarations@.len(),
        program_calls_known(program, g.functions.dom()),
    ensures
        ({
            let decls = program.declarations@;
            let state = program_state(decls, k, g);
            &&& adds(ProgramState::start(g).graph, state.graph, declarations_count(decls, k))
            &&& state.control is Some <==> has_control(decls, k)
        }),
    decreases k,
{
    let decls = program.declarations@;
    if k > 0 {
        let state = program_state(decls, (k - 1) as nat, g);
        lemma_declarations_add(program, (k - 1) as nat, g);
        lemma_program_state_extends(program, (k - 1) as nat, g);
        assert(decl_calls_known(decls, k - 1, g.functions.dom()));
        lemma_has_control_step(decls, (k - 1) as nat);
        match decls[k - 1] {
            IrDeclaration::Constant(constant) => {
                lemma_var_decl_adds(constant, state.graph);
            },
            IrDeclaration::Control(control) => {
                lemma_control_adds(control, state.graph);
            },
            IrDeclaration::Instantiation(_) => {},
        }
    }
}

/// A program adds exactly so many nodes, edges and names as can be told from the program.
pub proof fn lemma_program_adds(program: IrProgram, g: GraphView)
    requires
        g.wf(),
        program_calls_known(program, g.functions.dom()),
    ensures
        adds(g, program_gcl(program, g), program_count(program)),
{
    let decls = program.declarations@;
    lemma_declarations_add(program, decls.len(), g);
    lemma_program_state_extends(program, decls.len(), g);
}

} // verus!
