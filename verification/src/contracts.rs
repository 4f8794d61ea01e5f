//! What can be translated, and what a translation gives.
//!
//! A part can be translated into a well-formed graph if and only if every call that occurs in it
//! is of a registered function and the result fits the index types.

use either::Either;
use vstd::prelude::*;

use crate::calls::{
    block_mentions, control_finds, declaration_finds, element_mentions, expr_mentions, if_mentions,
    lemma_block_calls, lemma_control_calls, lemma_element_calls, lemma_expr_calls, lemma_if_calls,
    lemma_program_calls, lemma_statement_calls, lemma_var_decl_calls, statement_mentions,
    var_decl_mentions,
};
use crate::gcl::{CommandView, GclCommand, GclNodeRange, GclPredicate, NodeIndex, PredicateView};
use crate::graph::GraphView;
use crate::ir::{
    FunctionId, IrActionDecl, IrAssignment, IrBlockStatement, IrControlDecl, IrExpr, IrExprData,
    IrFunctionCall, IrIfStatement, IrInstantiation, IrProgram, IrStatement, IrStatementOrDecl,
    IrType, IrVariableDecl,
};
use crate::metadata::ProgramMetadata;
use crate::text::decimal;
use crate::to_gcl::ToGcl;
use crate::translation::{
    action_gcl, assignment_gcl, block_calls, block_gcl, call_gcl, control_gcl, declared_var,
    element_calls, expr_calls, expr_gcl, has_value_var, if_calls, if_gcl, program_gcl,
    return_target_var, return_var, short_circuit_gcl, statement_calls, statement_gcl, value_var,
    var_decl_calls, var_decl_gcl,
};

verus! {

/// Whether a graph can be translated into, when `mentions` are the functions that are called and
/// `later` is the result.
pub open spec fn can_take(
    g: GraphView,
    mentions: spec_fn(FunctionId) -> bool,
    later: GraphView,
) -> bool {
    &&& g.wf()
    &&& forall|id: FunctionId| #[trigger] mentions(id) ==> g.functions.dom().contains(id)
    &&& later.nodes.len() <= u32::MAX
    &&& later.edges.len() <= u32::MAX
    &&& later.names <= u64::MAX
}

/// Sets of functions are known where each function is.
proof fn lemma_calls_are_known(
    calls: Set<FunctionId>,
    mentions: spec_fn(FunctionId) -> bool,
    known: Set<FunctionId>,
)
    requires
        forall|id: FunctionId| #[trigger] calls.contains(id) <==> mentions(id),
    ensures
        calls.subset_of(known) <==> forall|id: FunctionId| #[trigger]
            mentions(id) ==> known.contains(id),
{
    if calls.subset_of(known) {
        assert forall|id: FunctionId| #[trigger] mentions(id) implies known.contains(id) by {
            assert(calls.contains(id));
        }
    }
    if forall|id: FunctionId| #[trigger] mentions(id) ==> known.contains(id) {
        assert forall|id: FunctionId| #[trigger] calls.contains(id) implies known.contains(id) by {
            assert(mentions(id));
        }
    }
}

/// A call.
pub proof fn lemma_call_contract(
    call: IrFunctionCall,
    g: GraphView,
    metadata: ProgramMetadata,
    later: GraphView,
    output: GclNodeRange,
)
    ensures
        call.translatable(g, metadata) <==> can_take(
            g,
            |id: FunctionId| id == call.target,
            call_gcl(call, g).graph,
        ),
        call.translates(g, later, output) <==> later == call_gcl(call, g).graph && output@
            == call_gcl(call, g).range,
{
    let mentions = |id: FunctionId| id == call.target;
    assert(mentions(call.target));
}

/// An expression.
pub proof fn lemma_expr_contract(
    expr: IrExpr,
    g: GraphView,
    metadata: ProgramMetadata,
    later: GraphView,
    output: (GclPredicate, GclNodeRange),
)
    ensures
        expr.translatable(g, metadata) <==> can_take(
            g,
            |id: FunctionId| expr_mentions(expr, id),
            expr_gcl(expr, g).graph,
        ),
        expr.translates(g, later, output) <==> later == expr_gcl(expr, g).graph && output.0@
            == expr_gcl(expr, g).pred && output.1@ == expr_gcl(expr, g).range,
{
    let mentions = |id: FunctionId| expr_mentions(expr, id);
    assert forall|id: FunctionId| #[trigger] expr_calls(expr).contains(id) <==> mentions(id) by {
        lemma_expr_calls(expr, id);
    }
    lemma_calls_are_known(expr_calls(expr), mentions, g.functions.dom());
}

/// A conjunction or disjunction is its operands with the short circuit behind them, and nothing
/// else.
pub proof fn lemma_binary_contract(left: IrExpr, right: IrExpr, ty: IrType, g: GraphView)
    ensures
        ({
            let left_part = expr_gcl(left, g);
            let right_part = expr_gcl(right, left_part.graph);
            let and = IrExpr { ty, data: IrExprData::And(Box::new(left), Box::new(right)) };
            let or = IrExpr { ty, data: IrExprData::Or(Box::new(left), Box::new(right)) };
            &&& expr_gcl(and, g) == short_circuit_gcl(left_part, right_part, true)
            &&& expr_gcl(or, g) == short_circuit_gcl(left_part, right_part, false)
        }),
{
}

/// A declaration.
pub proof fn lemma_var_decl_contract(
    var_decl: IrVariableDecl,
    g: GraphView,
    metadata: ProgramMetadata,
    later: GraphView,
    output: GclNodeRange,
)
    ensures
        var_decl.translatable(g, metadata) <==> can_take(
            g,
            |id: FunctionId| var_decl_mentions(var_decl, id),
            var_decl_gcl(var_decl, g).graph,
        ),
        var_decl.translates(g, later, output) <==> {
            &&& later == var_decl_gcl(var_decl, g).graph
            &&& output@ == var_decl_gcl(var_decl, g).range
        },
{
    let mentions = |id: FunctionId| var_decl_mentions(var_decl, id);
    assert forall|id: FunctionId| #[trigger]
        var_decl_calls(var_decl).contains(id) <==> mentions(id) by {
        lemma_var_decl_calls(var_decl, id);
    }
    lemma_calls_are_known(var_decl_calls(var_decl), mentions, g.functions.dom());
}

/// An assignment.
pub proof fn lemma_assignment_contract(
    assignment: IrAssignment,
    g: GraphView,
    metadata: ProgramMetadata,
    later: GraphView,
    output: GclNodeRange,
)
    ensures
        assignment.translatable(g, metadata) <==> can_take(
            g,
            |id: FunctionId| expr_mentions(assignment.value, id),
            assignment_gcl(assignment, g).graph,
        ),
        assignment.translates(g, later, output) <==> {
            &&& later == assignment_gcl(assignment, g).graph
            &&& output@ == assignment_gcl(assignment, g).range
        },
{
    let mentions = |id: FunctionId| expr_mentions(assignment.value, id);
    assert forall|id: FunctionId| #[trigger]
        expr_calls(assignment.value).contains(id) <==> mentions(id) by {
        lemma_expr_calls(assignment.value, id);
    }
    lemma_calls_are_known(expr_calls(assignment.value), mentions, g.functions.dom());
}

/// A conditional.
pub proof fn lemma_if_statement_contract(
    if_statement: IrIfStatement,
    g: GraphView,
    metadata: ProgramMetadata,
    later: GraphView,
    output: GclNodeRange,
)
    ensures
        if_statement.translatable(g, metadata) <==> can_take(
            g,
            |id: FunctionId| if_mentions(if_statement, id),
            if_gcl(if_statement, g).graph,
        ),
        if_statement.translates(g, later, output) <==> {
            &&& later == if_gcl(if_statement, g).graph
            &&& output@ == if_gcl(if_statement, g).range
        },
{
    let mentions = |id: FunctionId| if_mentions(if_statement, id);
    assert forall|id: FunctionId| #[trigger]
        if_calls(if_statement).contains(id) <==> mentions(id) by {
        lemma_if_calls(if_statement, id);
    }
    lemma_calls_are_known(if_calls(if_statement), mentions, g.functions.dom());
}

/// A statement.
pub proof fn lemma_statement_contract(
    statement: IrStatement,
    g: GraphView,
    metadata: ProgramMetadata,
    later: GraphView,
    output: GclNodeRange,
)
    ensures
        statement.translatable(g, metadata) <==> can_take(
            g,
            |id: FunctionId| statement_mentions(statement, id),
            statement_gcl(statement, g).graph,
        ),
        statement.translates(g, later, output) <==> {
            &&& later == statement_gcl(statement, g).graph
            &&& output@ == statement_gcl(statement, g).range
        },
{
    let mentions = |id: FunctionId| statement_mentions(statement, id);
    assert forall|id: FunctionId| #[trigger]
        statement_calls(statement).contains(id) <==> mentions(id) by {
        lemma_statement_calls(statement, id);
    }
    lemma_calls_are_known(statement_calls(statement), mentions, g.functions.dom());
}

/// A block.
pub proof fn lemma_block_contract(
    block: IrBlockStatement,
    g: GraphView,
    metadata: ProgramMetadata,
    later: GraphView,
    output: GclNodeRange,
)
    ensures
        block.translatable(g, metadata) <==> can_take(
            g,
            |id: FunctionId| block_mentions(block.0@, id),
            block_gcl(block.0@, g).graph,
        ),
        block.translates(g, later, output) <==> {
            &&& later == block_gcl(block.0@, g).graph
            &&& output@ == block_gcl(block.0@, g).range
        },
{
    let mentions = |id: FunctionId| block_mentions(block.0@, id);
    assert forall|id: FunctionId| #[trigger]
        block_calls(block.0@, block.0@.len()).contains(id) <==> mentions(id) by {
        lemma_block_calls(block.0@, id);
    }
    lemma_calls_are_known(block_calls(block.0@, block.0@.len()), mentions, g.functions.dom());
}

/// An action.
pub proof fn lemma_action_contract(
    action: IrActionDecl,
    g: GraphView,
    metadata: ProgramMetadata,
    later: GraphView,
    output: GclNodeRange,
)
    ensures
        action.translatable(g, metadata) <==> can_take(
            g,
            |id: FunctionId| block_mentions(action.body.0@, id),
            action_gcl(action, g).graph,
        ),
        action.translates(g, later, output) <==> {
            &&& later == action_gcl(action, g).graph
            &&& output@ == action_gcl(action, g).range
        },
{
    let mentions = |id: FunctionId| block_mentions(action.body.0@, id);
    assert forall|id: FunctionId| #[trigger]
        block_calls(action.body.0@, action.body.0@.len()).contains(id) <==> mentions(id) by {
        lemma_block_calls(action.body.0@, id);
    }
    lemma_calls_are_known(
        block_calls(action.body.0@, action.body.0@.len()),
        mentions,
        g.functions.dom(),
    );
}

/// An element of a block: a statement or a declaration gives nodes, an instantiation gives the
/// command that says that it has a value.
pub proof fn lemma_element_contract(
    element: IrStatementOrDecl,
    g: GraphView,
    metadata: ProgramMetadata,
    later: GraphView,
    output: Either<GclCommand, GclNodeRange>,
)
    ensures
        element.translatable(g, metadata) <==> can_take(
            g,
            |id: FunctionId| element_mentions(element, id),
            match element {
                IrStatementOrDecl::Statement(statement) => statement_gcl(statement, g).graph,
                IrStatementOrDecl::VariableDecl(decl) => var_decl_gcl(decl, g).graph,
                IrStatementOrDecl::Instantiation(_) => g,
            },
        ),
        element.translates(g, later, output) <==> match (element, output) {
            (IrStatementOrDecl::Statement(statement), Either::Right(range)) => {
                later == statement_gcl(statement, g).graph && range@ == statement_gcl(
                    statement,
                    g,
                ).range
            },
            (IrStatementOrDecl::VariableDecl(decl), Either::Right(range)) => {
                later == var_decl_gcl(decl, g).graph && range@ == var_decl_gcl(decl, g).range
            },
            (IrStatementOrDecl::Instantiation(instantiation), Either::Left(command)) => {
                later == g && command@ == CommandView::Assignment(
                    "has_value__"@ + decimal(instantiation.id as nat),
                    PredicateView::Bool(true),
                )
            },
            _ => false,
        },
{
    let mentions = |id: FunctionId| element_mentions(element, id);
    assert forall|id: FunctionId| #[trigger]
        element_calls(element).contains(id) <==> mentions(id) by {
        lemma_element_calls(element, id);
    }
    lemma_calls_are_known(element_calls(element), mentions, g.functions.dom());
}

/// An instantiation can always be translated, into the command that says that it has a value.
pub proof fn lemma_instantiation_contract(
    instantiation: IrInstantiation,
    g: GraphView,
    metadata: ProgramMetadata,
    later: GraphView,
    output: GclCommand,
)
    ensures
        instantiation.translatable(g, metadata),
        instantiation.translates(g, later, output) <==> later == g && output@
            == CommandView::Assignment(
            "has_value__"@ + decimal(instantiation.id as nat),
            PredicateView::Bool(true),
        ),
{
}

/// A control block can be translated if and only if its calls find their functions and the result
/// fits.
pub proof fn lemma_control_contract(
    control: IrControlDecl,
    g: GraphView,
    metadata: ProgramMetadata,
    later: GraphView,
    output: GclNodeRange,
)
    ensures
        control.translatable(g, metadata) <==> control_finds(control, g.functions.dom())
            && can_take(g, |id: FunctionId| false, control_gcl(control, g).graph),
        control.translates(g, later, output) <==> later == control_gcl(control, g).graph && output@
            == control_gcl(control, g).range,
{
    lemma_control_calls(control, g.functions.dom());
}

/// A program can be translated if and only if its last declaration instantiates a struct of the
/// name `V1Switch`, its calls find their functions and the result fits. The new node that comes
/// first is given.
pub proof fn lemma_program_contract(
    program: IrProgram,
    g: GraphView,
    metadata: ProgramMetadata,
    later: GraphView,
    output: NodeIndex,
)
    ensures
        program.translatable(g, metadata) <==> {
            let decls = program.declarations@;
            &&& decls.len() > 0
            &&& decls.last() is Instantiation
            &&& decls.last()->Instantiation_0.ty is Struct
            &&& metadata.type_names@.dom().contains(decls.last()->Instantiation_0.ty->Struct_0.id)
            &&& metadata.type_names@[decls.last()->Instantiation_0.ty->Struct_0.id]@ == "V1Switch"@
            &&& forall|d: int|
                0 <= d < decls.len() ==> #[trigger] declaration_finds(
                    decls,
                    d,
                    g.functions.dom(),
                )
            &&& can_take(g, |id: FunctionId| false, program_gcl(program, g))
        },
        program.translates(g, later, output) <==> later == program_gcl(program, g) && output@
            == g.nodes.len(),
{
    lemma_program_calls(program, g.functions.dom());
}

/// The variables of a graph that stand for those of a program: a prefix, and the number.
pub proof fn lemma_variable_names(id: u64)
    ensures
        has_value_var(id) == "has_value__"@ + decimal(id as nat),
        declared_var(id) == "declared_var__"@ + decimal(id as nat),
        value_var(id) == "var__"@ + decimal(id as nat),
        return_target_var(id) == "func_ret_target__"@ + decimal(id as nat),
        return_var() == "ret"@,
{
}

} // verus!
