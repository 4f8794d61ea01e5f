//! How large a translated program is.
//!
//! Each kind of expression, statement and declaration has its price in nodes, edges and names.
//! What a program adds is the sum of these prices over all that occurs in it.

use vstd::prelude::*;

use crate::count::{
    actions_count, block_count, control_count, declarations_count, element_count, elements_count,
    expr_count, if_count, lemma_block_adds, lemma_control_adds, lemma_expr_adds, lemma_program_adds,
    lemma_statement_adds, lemma_var_decl_adds, statement_count, var_decl_count, Count,
};
use crate::graph::GraphView;
use crate::ir::{
    IrActionDecl, IrControlDecl, IrControlLocalDecl, IrDeclaration, IrExpr, IrExprData,
    IrIfStatement, IrProgram, IrStatement, IrStatementOrDecl, IrVariableDecl,
};
use crate::translation::{
    action_gcl, control_calls_known, control_elements, control_gcl, expr_gcl, local_elements,
    program_calls_known, program_gcl, statement_gcl, var_decl_gcl,
};

verus! {

// ---------------------------------------------------------------------------------------
// What occurs in a program
// ---------------------------------------------------------------------------------------
/// How often each kind of thing occurs.
pub ghost struct Tally {
    pub literals: nat,
    pub reads: nat,
    /// Conjunctions and disjunctions.
    pub binaries: nat,
    pub negations: nat,
    /// Calls in expressions.
    pub call_values: nat,
    /// Calls as statements.
    pub call_statements: nat,
    pub assignments: nat,
    pub conditionals: nat,
    /// Conditionals with an else branch.
    pub else_branches: nat,
    /// Declarations with a value.
    pub initialised: nat,
    /// Declarations without a value.
    pub uninitialised: nat,
    /// Groups of instantiations that follow one another in a block, and empty blocks.
    pub groups: nat,
    /// Places where two pieces of a block meet: statements, declarations and groups.
    pub joints: nat,
    pub actions: nat,
    /// Constants at the top level.
    pub constants: nat,
}

impl Tally {
    /// Nothing occurs.
    pub open spec fn none() -> Tally {
        Tally {
            literals: 0,
            reads: 0,
            binaries: 0,
            negations: 0,
            call_values: 0,
            call_statements: 0,
            assignments: 0,
            conditionals: 0,
            else_branches: 0,
            initialised: 0,
            uninitialised: 0,
            groups: 0,
            joints: 0,
            actions: 0,
            constants: 0,
        }
    }

    /// What occurs in either.
    pub open spec fn and(self, other: Tally) -> Tally {
        Tally {
            literals: self.literals + other.literals,
            reads: self.reads + other.reads,
            binaries: self.binaries + other.binaries,
            negations: self.negations + other.negations,
            call_values: self.call_values + other.call_values,
            call_statements: self.call_statements + other.call_statements,
            assignments: self.assignments + other.assignments,
            conditionals: self.conditionals + other.conditionals,
            else_branches: self.else_branches + other.else_branches,
            initialised: self.initialised + other.initialised,
            uninitialised: self.uninitialised + other.uninitialised,
            groups: self.groups + other.groups,
            joints: self.joints + other.joints,
            actions: self.actions + other.actions,
            constants: self.constants + other.constants,
        }
    }

    /// The nodes of all that occurs.
    pub open spec fn nodes(self) -> nat {
        self.literals + 3 * self.reads + 3 * self.binaries + self.negations + 3 * self.call_values
            + 2 * self.call_statements + 3 * self.assignments + self.conditionals
            + self.initialised + self.uninitialised + self.groups + self.actions
    }

    /// The edges of all that occurs.
    pub open spec fn edges(self) -> nat {
        2 * self.reads + 6 * self.binaries + self.negations + 3 * self.call_values + 2
            * self.call_statements + 3 * self.assignments + 3 * self.conditionals
            + self.else_branches + self.initialised + self.joints + self.actions + self.constants
    }

    /// The names of all that occurs.
    pub open spec fn names(self) -> nat {
        self.literals + 3 * self.reads + 4 * self.binaries + self.negations + 4 * self.call_values
            + 2 * self.call_statements + 3 * self.assignments + self.conditionals
            + self.initialised + self.uninitialised + self.groups
    }
}

/// What occurs in an expression.
pub open spec fn expr_tally(expr: IrExpr) -> Tally
    decreases expr,
{
    match expr.data {
        IrExprData::Bool(_) => Tally { literals: 1, ..Tally::none() },
        IrExprData::Var(_) => Tally { reads: 1, ..Tally::none() },
        IrExprData::And(left, right) => expr_tally(*left).and(expr_tally(*right)).and(
            Tally { binaries: 1, ..Tally::none() },
        ),
        IrExprData::Or(left, right) => expr_tally(*left).and(expr_tally(*right)).and(
            Tally { binaries: 1, ..Tally::none() },
        ),
        IrExprData::Negation(inner) => expr_tally(*inner).and(
            Tally { negations: 1, ..Tally::none() },
        ),
        IrExprData::FunctionCall(_) => Tally { call_values: 1, ..Tally::none() },
    }
}

/// What occurs in a declaration.
pub open spec fn var_decl_tally(decl: IrVariableDecl) -> Tally {
    match decl.value {
        Some(value) => expr_tally(value).and(Tally { initialised: 1, ..Tally::none() }),
        None => Tally { uninitialised: 1, ..Tally::none() },
    }
}

/// What occurs in a conditional.
pub open spec fn if_tally(statement: IrIfStatement) -> Tally
    decreases statement, 0nat,
{
    let always = expr_tally(statement.condition).and(statement_tally(*statement.then_case)).and(
        Tally { conditionals: 1, ..Tally::none() },
    );
    match statement.else_case {
        Some(else_case) => always.and(statement_tally(*else_case)).and(
            Tally { else_branches: 1, ..Tally::none() },
        ),
        None => always,
    }
}

/// What occurs in a statement.
pub open spec fn statement_tally(statement: IrStatement) -> Tally
    decreases statement, 0nat,
{
    match statement {
        IrStatement::Block(block) => block_tally(block.0@),
        IrStatement::If(if_statement) => if_tally(if_statement),
        IrStatement::Assignment(assignment) => expr_tally(assignment.value).and(
            Tally { assignments: 1, ..Tally::none() },
        ),
        IrStatement::FunctionCall(_) => Tally { call_statements: 1, ..Tally::none() },
    }
}

/// What occurs in an element of a block.
pub open spec fn element_tally(element: IrStatementOrDecl) -> Tally
    decreases element, 0nat,
{
    match element {
        IrStatementOrDecl::Statement(statement) => statement_tally(statement),
        IrStatementOrDecl::VariableDecl(decl) => var_decl_tally(decl),
        IrStatementOrDecl::Instantiation(_) => Tally::none(),
    }
}

/// What occurs in the first `k` elements of a block.
pub open spec fn elements_tally(elements: Seq<IrStatementOrDecl>, k: nat) -> Tally
    decreases elements, k,
{
    if k == 0 || k > elements.len() {
        Tally::none()
    } else {
        elements_tally(elements, (k - 1) as nat).and(element_tally(elements[k - 1]))
    }
}

/// How many of the first `k` elements are statements or declarations.
pub open spec fn parts(elements: Seq<IrStatementOrDecl>, k: nat) -> nat
    decreases k,
{
    if k == 0 || k > elements.len() {
        0
    } else if elements[k - 1] is Instantiation {
        parts(elements, (k - 1) as nat)
    } else {
        parts(elements, (k - 1) as nat) + 1
    }
}

/// How many of the first `k` elements are statements or declarations right behind an
/// instantiation.
pub open spec fn turns(elements: Seq<IrStatementOrDecl>, k: nat) -> nat
    decreases k,
{
    if k <= 1 || k > elements.len() {
        0
    } else if elements[k - 2] is Instantiation && !(elements[k - 1] is Instantiation) {
        turns(elements, (k - 1) as nat) + 1
    } else {
        turns(elements, (k - 1) as nat)
    }
}

/// How many groups of instantiations a block has; an empty block counts as one.
pub open spec fn groups(elements: Seq<IrStatementOrDecl>) -> nat {
    if elements.len() == 0 || elements.last() is Instantiation {
        turns(elements, elements.len()) + 1
    } else {
        turns(elements, elements.len())
    }
}

/// What occurs in a block.
pub open spec fn block_tally(elements: Seq<IrStatementOrDecl>) -> Tally
    decreases elements, elements.len() + 1,
{
    elements_tally(elements, elements.len()).and(
        Tally {
            groups: groups(elements),
            joints: (parts(elements, elements.len()) + groups(elements) - 1) as nat,
            ..Tally::none()
        },
    )
}

/// The variables and instantiations among the first `k` local declarations, in order.
pub open spec fn listed(decls: Seq<IrControlLocalDecl>, k: nat) -> Seq<IrStatementOrDecl>
    decreases k,
{
    if k == 0 || k > decls.len() {
        Seq::empty()
    } else {
        listed(decls, (k - 1) as nat) + match decls[k - 1] {
            IrControlLocalDecl::Variable(decl) => seq![IrStatementOrDecl::VariableDecl(decl)],
            IrControlLocalDecl::Instantiation(instantiation) => seq![
                IrStatementOrDecl::Instantiation(instantiation),
            ],
            IrControlLocalDecl::Action(_) => Seq::empty(),
            IrControlLocalDecl::Table(_) => Seq::empty(),
        }
    }
}

/// What occurs in the actions among the first `k` local declarations.
pub open spec fn actions_tally(decls: Seq<IrControlLocalDecl>, k: nat) -> Tally
    decreases k,
{
    if k == 0 || k > decls.len() {
        Tally::none()
    } else {
        let before = actions_tally(decls, (k - 1) as nat);
        match decls[k - 1] {
            IrControlLocalDecl::Action(action) => before.and(block_tally(action.body.0@)).and(
                Tally { actions: 1, ..Tally::none() },
            ),
            _ => before,
        }
    }
}

/// What occurs in a control block.
pub open spec fn control_tally(control: IrControlDecl) -> Tally {
    let decls = control.local_decls@;
    actions_tally(decls, decls.len()).and(
        block_tally(listed(decls, decls.len()) + control.apply_body.0@),
    )
}

/// What occurs in the first `k` declarations of a program.
pub open spec fn declarations_tally(decls: Seq<IrDeclaration>, k: nat) -> Tally
    decreases k,
{
    if k == 0 || k > decls.len() {
        Tally::none()
    } else {
        declarations_tally(decls, (k - 1) as nat).and(
            match decls[k - 1] {
                IrDeclaration::Constant(constant) => var_decl_tally(constant).and(
                    Tally { constants: 1, ..Tally::none() },
                ),
                IrDeclaration::Control(control) => control_tally(control),
                IrDeclaration::Instantiation(_) => Tally::none(),
            },
        )
    }
}

// ---------------------------------------------------------------------------------------
// Laws
// ---------------------------------------------------------------------------------------
/// Whether a tally has a price.
pub open spec fn is_priced(tally: Tally, price: Count) -> bool {
    price.nodes == tally.nodes() && price.edges == tally.edges() && price.names == tally.names()
}

/// An expression costs what occurs in it.
proof fn lemma_expr_priced(expr: IrExpr)
    ensures
        is_priced(expr_tally(expr), expr_count(expr)),
    decreases expr,
{
    match expr.data {
        IrExprData::And(left, right) => {
            lemma_expr_priced(*left);
            lemma_expr_priced(*right);
        },
        IrExprData::Or(left, right) => {
            lemma_expr_priced(*left);
            lemma_expr_priced(*right);
        },
        IrExprData::Negation(inner) => {
            lemma_expr_priced(*inner);
        },
        _ => {},
    }
}

/// A declaration costs what occurs in it.
proof fn lemma_var_decl_priced(decl: IrVariableDecl)
    ensures
        is_priced(var_decl_tally(decl), var_decl_count(decl)),
{
    if let Some(value) = decl.value {
        lemma_expr_priced(value);
    }
}

/// A conditional costs what occurs in it.
proof fn lemma_if_priced(statement: IrIfStatement)
    ensures
        is_priced(if_tally(statement), if_count(statement)),
    decreases statement, 0nat,
{
    lemma_expr_priced(statement.condition);
    lemma_statement_priced(*statement.then_case);
    if let Some(else_case) = statement.else_case {
        lemma_statement_priced(*else_case);
    }
}

/// A statement costs what occurs in it.
proof fn lemma_statement_priced(statement: IrStatement)
    ensures
        is_priced(statement_tally(statement), statement_count(statement)),
    decreases statement, 0nat,
{
    match statement {
        IrStatement::Block(block) => {
            lemma_block_priced(block.0@);
        },
        IrStatement::If(if_statement) => {
            lemma_if_priced(if_statement);
        },
        IrStatement::Assignment(assignment) => {
            lemma_expr_priced(assignment.value);
        },
        IrStatement::FunctionCall(_) => {},
    }
}

/// An element costs what occurs in it.
proof fn lemma_element_priced(element: IrStatementOrDecl)
    ensures
        is_priced(element_tally(element), element_count(element)),
    decreases element, 0nat,
{
    match element {
        IrStatementOrDecl::Statement(statement) => {
            lemma_statement_priced(statement);
        },
        IrStatementOrDecl::VariableDecl(decl) => {
            lemma_var_decl_priced(decl);
        },
        IrStatementOrDecl::Instantiation(_) => {},
    }
}

/// The first elements of a block cost what occurs in them, the groups that are closed, and the
/// joints between their pieces.
proof fn lemma_elements_priced(elements: Seq<IrStatementOrDecl>, k: nat)
    requires
        k <= elements.len(),
    ensures
        ({
            let counted = elements_count(elements, k);
            let tally = elements_tally(elements, k);
            let pieces = parts(elements, k) + turns(elements, k);
            &&& counted.added.nodes == tally.nodes() + turns(elements, k)
            &&& counted.added.edges == tally.edges() + (if pieces > 0 {
                pieces - 1
            } else {
                0
            })
            &&& counted.added.names == tally.names() + turns(elements, k)
            &&& counted.has_pending == (k > 0 && elements[k - 1] is Instantiation)
            &&& counted.has_nodes == (parts(elements, k) > 0)
            &&& parts(elements, k) == 0 ==> turns(elements, k) == 0
        }),
    decreases elements, k,
{
    if k > 0 {
        let j = (k - 1) as nat;
        lemma_elements_priced(elements, j);
        lemma_element_priced(elements[k - 1]);
        assert(elements_count(elements, k) == elements_count(elements, j).absorb(
            elements[k - 1],
            element_count(elements[k - 1]),
        ));
        assert(elements_tally(elements, k) == elements_tally(elements, j).and(
            element_tally(elements[k - 1]),
        ));
    }
}

/// A block costs what occurs in it.
proof fn lemma_block_priced(elements: Seq<IrStatementOrDecl>)
    ensures
        is_priced(block_tally(elements), block_count(elements)),
    decreases elements, elements.len() + 1,
{
    let k = elements.len();
    lemma_elements_priced(elements, k);
    assert(block_count(elements) == elements_count(elements, k).finish());
    assert(block_tally(elements) == elements_tally(elements, k).and(
        Tally {
            groups: groups(elements),
            joints: (parts(elements, k) + groups(elements) - 1) as nat,
            ..Tally::none()
        },
    ));
}

/// The elements of a control block are its variables and instantiations, all of them and in
/// order, and then its apply block.
pub proof fn lemma_control_lists(control: IrControlDecl)
    ensures
        control_elements(control) == listed(control.local_decls@, control.local_decls@.len())
            + control.apply_body.0@,
{
    lemma_listed(control.local_decls@, control.local_decls@.len());
}

proof fn lemma_listed(decls: Seq<IrControlLocalDecl>, k: nat)
    requires
        k <= decls.len(),
    ensures
        local_elements(decls, k) == listed(decls, k),
    decreases k,
{
    if k > 0 {
        lemma_listed(decls, (k - 1) as nat);
        assert(local_elements(decls, k) =~= listed(decls, k));
    } else {
        assert(local_elements(decls, k) =~= listed(decls, k));
    }
}

proof fn lemma_actions_priced(decls: Seq<IrControlLocalDecl>, k: nat)
    requires
        k <= decls.len(),
    ensures
        is_priced(actions_tally(decls, k), actions_count(decls, k)),
    decreases k,
{
    if k > 0 {
        lemma_actions_priced(decls, (k - 1) as nat);
        if let IrControlLocalDecl::Action(action) = decls[k - 1] {
            lemma_block_priced(action.body.0@);
        }
    }
}

/// A control block costs what occurs in it.
proof fn lemma_control_priced(control: IrControlDecl)
    ensures
        is_priced(control_tally(control), control_count(control)),
{
    lemma_actions_priced(control.local_decls@, control.local_decls@.len());
    lemma_control_lists(control);
    lemma_block_priced(control_elements(control));
}

proof fn lemma_declarations_priced(decls: Seq<IrDeclaration>, k: nat)
    requires
        k <= decls.len(),
    ensures
        is_priced(declarations_tally(decls, k), declarations_count(decls, k)),
    decreases k,
{
    if k > 0 {
        lemma_declarations_priced(decls, (k - 1) as nat);
        match decls[k - 1] {
            IrDeclaration::Constant(constant) => {
                lemma_var_decl_priced(constant);
            },
            IrDeclaration::Control(control) => {
                lemma_control_priced(control);
            },
            IrDeclaration::Instantiation(_) => {},
        }
    }
}

/// Whether `later` has just as many nodes, edges and names more than `g` as all that occurs
/// costs.
pub open spec fn costs(g: GraphView, later: GraphView, tally: Tally) -> bool {
    &&& later.nodes.len() == g.nodes.len() + tally.nodes()
    &&& later.edges.len() == g.edges.len() + tally.edges()
    &&& later.names == g.names + tally.names()
}

/// An expression adds as many nodes, edges and names as all that occurs in it costs.
pub proof fn lemma_expr_costs(expr: IrExpr, g: GraphView)
    ensures
        costs(g, expr_gcl(expr, g).graph, expr_tally(expr)),
{
    lemma_expr_adds(expr, g);
    lemma_expr_priced(expr);
}

/// A statement adds as many nodes, edges and names as all that occurs in it costs.
pub proof fn lemma_statement_costs(statement: IrStatement, g: GraphView)
    ensures
        costs(g, statement_gcl(statement, g).graph, statement_tally(statement)),
{
    lemma_statement_adds(statement, g);
    lemma_statement_priced(statement);
}

/// An action adds as many nodes, edges and names as all that occurs in it costs.
pub proof fn lemma_action_costs(action: IrActionDecl, g: GraphView)
    ensures
        costs(
            g,
            action_gcl(action, g).graph,
            block_tally(action.body.0@).and(Tally { actions: 1, ..Tally::none() }),
        ),
{
    lemma_block_adds(action.body.0@, g);
    lemma_block_priced(action.body.0@);
}

/// A declaration adds as many nodes, edges and names as all that occurs in it costs.
pub proof fn lemma_var_decl_costs(decl: IrVariableDecl, g: GraphView)
    ensures
        costs(g, var_decl_gcl(decl, g).graph, var_decl_tally(decl)),
{
    lemma_var_decl_adds(decl, g);
    lemma_var_decl_priced(decl);
}

/// A control block adds as many nodes, edges and names as all that occurs in it costs.
pub proof fn lemma_control_costs(control: IrControlDecl, g: GraphView)
    requires
        g.wf(),
        control_calls_known(control, g.functions.dom()),
    ensures
        costs(g, control_gcl(control, g).graph, control_tally(control)),
{
    lemma_control_adds(control, g);
    lemma_control_priced(control);
}

/// A program adds as many nodes, edges and names as all that occurs in it costs, a start node,
/// and an edge where there is a control block.
pub proof fn lemma_program_costs(program: IrProgram, g: GraphView)
    requires
        g.wf(),
        program_calls_known(program, g.functions.dom()),
    ensures
        ({
            let decls = program.declarations@;
            let later = program_gcl(program, g);
            let tally = declarations_tally(decls, decls.len());
            let entries: nat = if exists|d: int|
                0 <= d < decls.len() && #[trigger] decls[d] is Control {
                1
            } else {
                0
            };
            &&& later.nodes.len() == g.nodes.len() + tally.nodes() + 1
            &&& later.edges.len() == g.edges.len() + tally.edges() + entries
            &&& later.names == g.names + tally.names()
        }),
{
    let decls = program.declarations@;
    lemma_program_adds(program, g);
    lemma_declarations_priced(decls, decls.len());
}

} // verus!
