//! The calls of a program, and which of them find their functions.

use vstd::prelude::*;

use crate::ir::{
    FunctionId, IrControlDecl, IrControlLocalDecl, IrDeclaration, IrExpr, IrExprData, IrIfStatement,
    IrProgram, IrStatement, IrStatementOrDecl, IrVariableDecl,
};
use crate::to_gcl::checked::{lemma_block_calls_add, lemma_local_elements_calls};
use crate::translation::{
    block_calls, control_calls_known, control_elements, decl_calls_known, element_calls, expr_calls,
    if_calls, known_after_decls, known_after_locals, local_calls_known, local_elements,
    program_calls_known, statement_calls, var_decl_calls,
};

verus! {

// ---------------------------------------------------------------------------------------
// Where a function is called
// ---------------------------------------------------------------------------------------
/// Whether a call of `id` occurs in an expression. What stands among the arguments of a call does
/// not count.
pub open spec fn expr_mentions(expr: IrExpr, id: FunctionId) -> bool
    decreases expr,
{
    match expr.data {
        IrExprData::Bool(_) => false,
        IrExprData::Var(_) => false,
        IrExprData::And(left, right) => expr_mentions(*left, id) || expr_mentions(*right, id),
        IrExprData::Or(left, right) => expr_mentions(*left, id) || expr_mentions(*right, id),
        IrExprData::Negation(inner) => expr_mentions(*inner, id),
        IrExprData::FunctionCall(call) => call.target == id,
    }
}

/// Whether a call of `id` occurs in a declaration.
pub open spec fn var_decl_mentions(decl: IrVariableDecl, id: FunctionId) -> bool {
    decl.value matches Some(value) && expr_mentions(value, id)
}

/// Whether a call of `id` occurs in a conditional.
pub open spec fn if_mentions(statement: IrIfStatement, id: FunctionId) -> bool
    decreases statement,
{
    ||| expr_mentions(statement.condition, id)
    ||| statement_mentions(*statement.then_case, id)
    ||| statement.else_case matches Some(else_case) && statement_mentions(*else_case, id)
}

/// Whether a call of `id` occurs in a statement.
pub open spec fn statement_mentions(statement: IrStatement, id: FunctionId) -> bool
    decreases statement,
{
    match statement {
        IrStatement::Block(block) => block_mentions(block.0@, id),
        IrStatement::If(if_statement) => if_mentions(if_statement, id),
        IrStatement::Assignment(assignment) => expr_mentions(assignment.value, id),
        IrStatement::FunctionCall(call) => call.target == id,
    }
}

/// Whether a call of `id` occurs in an element of a block.
pub open spec fn element_mentions(element: IrStatementOrDecl, id: FunctionId) -> bool
    decreases element,
{
    match element {
        IrStatementOrDecl::Statement(statement) => statement_mentions(statement, id),
        IrStatementOrDecl::VariableDecl(decl) => var_decl_mentions(decl, id),
        IrStatementOrDecl::Instantiation(_) => false,
    }
}

/// Whether a call of `id` occurs in one of the elements of a block.
pub open spec fn block_mentions(elements: Seq<IrStatementOrDecl>, id: FunctionId) -> bool
    decreases elements,
{
    exists|i: int| 0 <= i < elements.len() && element_mentions(#[trigger] elements[i], id)
}

/// The number of the local declaration `i`, if it is an action.
pub open spec fn local_action(decls: Seq<IrControlLocalDecl>, i: int) -> Option<FunctionId> {
    match decls[i] {
        IrControlLocalDecl::Action(action) => Some(action.id),
        _ => None,
    }
}

/// The number of the local declaration `i` of the declaration `d` of a program, if the one is a
/// control block and the other an action.
pub open spec fn program_action(decls: Seq<IrDeclaration>, d: int, i: int) -> Option<FunctionId> {
    match decls[d] {
        IrDeclaration::Control(control) => if 0 <= i < control.local_decls@.len() {
            local_action(control.local_decls@, i)
        } else {
            None
        },
        _ => None,
    }
}

// ---------------------------------------------------------------------------------------
// Which calls find their functions
// ---------------------------------------------------------------------------------------
/// Whether `id` can be called by the local declaration `i` of a control block: it is one of
/// `known`, or an action that is declared before.
pub open spec fn can_call_local(
    decls: Seq<IrControlLocalDecl>,
    i: int,
    known: Set<FunctionId>,
    id: FunctionId,
) -> bool {
    known.contains(id) || exists|j: int|
        0 <= j < i && #[trigger] local_action(decls, j) == Some(id)
}

/// Whether the calls of a control block find their functions: an action finds what is declared
/// before it, the variables and the apply block find all actions of the control block.
pub open spec fn control_finds(control: IrControlDecl, known: Set<FunctionId>) -> bool {
    let decls = control.local_decls@;
    let body = control.apply_body.0@;
    &&& forall|i: int, id: FunctionId|
        0 <= i < decls.len() && #[trigger] decls[i] is Action && #[trigger] block_mentions(
            decls[i]->Action_0.body.0@,
            id,
        ) ==> can_call_local(decls, i, known, id)
    &&& forall|i: int, id: FunctionId|
        0 <= i < decls.len() && #[trigger] decls[i] is Variable && #[trigger] var_decl_mentions(
            decls[i]->Variable_0,
            id,
        ) ==> can_call_local(decls, decls.len() as int, known, id)
    &&& forall|id: FunctionId| #[trigger]
        block_mentions(body, id) ==> can_call_local(decls, decls.len() as int, known, id)
}

/// Whether `id` can be called by the local declaration `i` of the declaration `d` of a program:
/// it is one of `known`, or an action that is declared before.
pub open spec fn can_call(
    decls: Seq<IrDeclaration>,
    d: int,
    i: int,
    known: Set<FunctionId>,
    id: FunctionId,
) -> bool {
    known.contains(id) || exists|e: int, j: int|
        (0 <= e < d || (e == d && 0 <= j < i)) && #[trigger] program_action(decls, e, j) == Some(
            id,
        )
}

/// Whether the calls of a control block that is the declaration `d` of a program find their
/// functions.
pub open spec fn control_finds_at(
    decls: Seq<IrDeclaration>,
    d: int,
    control: IrControlDecl,
    known: Set<FunctionId>,
) -> bool {
    let locals = control.local_decls@;
    &&& forall|i: int, id: FunctionId|
        0 <= i < locals.len() && #[trigger] locals[i] is Action && #[trigger] block_mentions(
            locals[i]->Action_0.body.0@,
            id,
        ) ==> can_call(decls, d, i, known, id)
    &&& forall|i: int, id: FunctionId|
        0 <= i < locals.len() && #[trigger] locals[i] is Variable && #[trigger] var_decl_mentions(
            locals[i]->Variable_0,
            id,
        ) ==> can_call(decls, d, locals.len() as int, known, id)
    &&& forall|id: FunctionId| #[trigger]
        block_mentions(control.apply_body.0@, id) ==> can_call(
            decls,
            d,
            locals.len() as int,
            known,
            id,
        )
}

/// Whether the calls of the declaration `d` of a program find their functions.
pub open spec fn declaration_finds(
    decls: Seq<IrDeclaration>,
    d: int,
    known: Set<FunctionId>,
) -> bool {
    match decls[d] {
        IrDeclaration::Constant(constant) => forall|id: FunctionId| #[trigger]
            var_decl_mentions(constant, id) ==> can_call(decls, d, 0, known, id),
        IrDeclaration::Control(control) => control_finds_at(decls, d, control, known),
        IrDeclaration::Instantiation(_) => true,
    }
}

// ---------------------------------------------------------------------------------------
// Laws
// ---------------------------------------------------------------------------------------
/// The functions that an expression calls are those of which a call occurs in it.
pub proof fn lemma_expr_calls(expr: IrExpr, id: FunctionId)
    ensures
        expr_calls(expr).contains(id) <==> expr_mentions(expr, id),
    decreases expr,
{
    match expr.data {
        IrExprData::And(left, right) => {
            lemma_expr_calls(*left, id);
            lemma_expr_calls(*right, id);
        },
        IrExprData::Or(left, right) => {
            lemma_expr_calls(*left, id);
            lemma_expr_calls(*right, id);
        },
        IrExprData::Negation(inner) => {
            lemma_expr_calls(*inner, id);
        },
        _ => {},
    }
}

/// The functions that a declaration calls are those of which a call occurs in it.
pub proof fn lemma_var_decl_calls(decl: IrVariableDecl, id: FunctionId)
    ensures
        var_decl_calls(decl).contains(id) <==> var_decl_mentions(decl, id),
{
    if let Some(value) = decl.value {
        lemma_expr_calls(value, id);
    }
}

/// The functions that a conditional calls are those of which a call occurs in it.
pub proof fn lemma_if_calls(statement: IrIfStatement, id: FunctionId)
    ensures
        if_calls(statement).contains(id) <==> if_mentions(statement, id),
    decreases statement, 0nat,
{
    lemma_expr_calls(statement.condition, id);
    lemma_statement_calls(*statement.then_case, id);
    if let Some(else_case) = statement.else_case {
        lemma_statement_calls(*else_case, id);
    }
}

/// The functions that a statement calls are those of which a call occurs in it.
pub proof fn lemma_statement_calls(statement: IrStatement, id: FunctionId)
    ensures
        statement_calls(statement).contains(id) <==> statement_mentions(statement, id),
    decreases statement, 0nat,
{
    match statement {
        IrStatement::Block(block) => {
            lemma_block_calls(block.0@, id);
        },
        IrStatement::If(if_statement) => {
            lemma_if_calls(if_statement, id);
        },
        IrStatement::Assignment(assignment) => {
            lemma_expr_calls(assignment.value, id);
        },
        IrStatement::FunctionCall(_) => {},
    }
}

/// The functions that an element calls are those of which a call occurs in it.
pub proof fn lemma_element_calls(element: IrStatementOrDecl, id: FunctionId)
    ensures
        element_calls(element).contains(id) <==> element_mentions(element, id),
    decreases element, 0nat,
{
    match element {
        IrStatementOrDecl::Statement(statement) => {
            lemma_statement_calls(statement, id);
        },
        IrStatementOrDecl::VariableDecl(decl) => {
            lemma_var_decl_calls(decl, id);
        },
        IrStatementOrDecl::Instantiation(_) => {},
    }
}

proof fn lemma_elements_calls(elements: Seq<IrStatementOrDecl>, k: nat, id: FunctionId)
    requires
        k <= elements.len(),
    ensures
        block_calls(elements, k).contains(id) <==> exists|i: int|
            0 <= i < k && element_mentions(#[trigger] elements[i], id),
    decreases elements, k,
{
    if k > 0 {
        let j = (k - 1) as nat;
        lemma_elements_calls(elements, j, id);
        lemma_element_calls(elements[k - 1], id);
        assert(block_calls(elements, k) == block_calls(elements, j).union(
            element_calls(elements[k - 1]),
        ));
        if exists|i: int| 0 <= i < k && element_mentions(#[trigger] elements[i], id) {
            let i = choose|i: int| 0 <= i < k && element_mentions(#[trigger] elements[i], id);
            if i < j {
                assert(0 <= i < j && element_mentions(elements[i], id));
            }
        }
    }
}

/// The functions that a block calls are those of which a call occurs in one of its elements.
pub proof fn lemma_block_calls(elements: Seq<IrStatementOrDecl>, id: FunctionId)
    ensures
        block_calls(elements, elements.len()).contains(id) <==> block_mentions(elements, id),
    decreases elements, elements.len() + 1,
{
    lemma_elements_calls(elements, elements.len(), id);
}

/// The functions that are known after local declarations are those that were known and the
/// actions.
pub proof fn lemma_locals_known(
    decls: Seq<IrControlLocalDecl>,
    k: nat,
    known: Set<FunctionId>,
    id: FunctionId,
)
    requires
        k <= decls.len(),
    ensures
        known_after_locals(decls, k, known).contains(id) <==> can_call_local(
            decls,
            k as int,
            known,
            id,
        ),
    decreases k,
{
    if k > 0 {
        let j = (k - 1) as nat;
        lemma_locals_known(decls, j, known, id);
        if local_action(decls, k - 1) == Some(id) {
            assert(can_call_local(decls, k as int, known, id));
        } else if can_call_local(decls, k as int, known, id) && !known.contains(id) {
            let i = choose|i: int| 0 <= i < k && #[trigger] local_action(decls, i) == Some(id);
            assert(0 <= i < j && local_action(decls, i) == Some(id));
        }
        if can_call_local(decls, j as int, known, id) && !known.contains(id) {
            let i = choose|i: int| 0 <= i < j && #[trigger] local_action(decls, i) == Some(id);
            assert(0 <= i < k && local_action(decls, i) == Some(id));
        }
    }
}

/// What the variables among local declarations call.
proof fn lemma_local_variables_call(decls: Seq<IrControlLocalDecl>, k: nat, id: FunctionId)
    requires
        k <= decls.len(),
    ensures
        ({
            let elements = local_elements(decls, k);
            block_calls(elements, elements.len()).contains(id) <==> exists|i: int|
                0 <= i < k && #[trigger] decls[i] is Variable && var_decl_mentions(
                    decls[i]->Variable_0,
                    id,
                )
        }),
    decreases k,
{
    if k > 0 {
        let j = (k - 1) as nat;
        lemma_local_variables_call(decls, j, id);
        lemma_local_elements_calls(decls, j);
        if let IrControlLocalDecl::Variable(decl) = decls[k - 1] {
            lemma_var_decl_calls(decl, id);
            assert(decls[k - 1] is Variable);
        }
        if exists|i: int|
            0 <= i < k && #[trigger] decls[i] is Variable && var_decl_mentions(
                decls[i]->Variable_0,
                id,
            ) {
            let i = choose|i: int|
                0 <= i < k && #[trigger] decls[i] is Variable && var_decl_mentions(
                    decls[i]->Variable_0,
                    id,
                );
            if i < j {
                assert(0 <= i < j && decls[i] is Variable);
            }
        }
    }
}

/// A control block has known calls where its calls find their functions, and only there.
pub proof fn lemma_control_calls(control: IrControlDecl, known: Set<FunctionId>)
    ensures
        control_calls_known(control, known) <==> control_finds(control, known),
{
    let decls = control.local_decls@;
    let body = control.apply_body.0@;
    let locals = local_elements(decls, decls.len());
    let elements = control_elements(control);
    let all = known_after_locals(decls, decls.len(), known);
    lemma_block_calls_add(locals, body, body.len());
    assert forall|id: FunctionId| #[trigger] all.contains(id) <==> can_call_local(
        decls,
        decls.len() as int,
        known,
        id,
    ) by {
        lemma_locals_known(decls, decls.len(), known, id);
    }
    if control_calls_known(control, known) {
        assert forall|i: int, id: FunctionId|
            0 <= i < decls.len() && #[trigger] decls[i] is Action && #[trigger] block_mentions(
                decls[i]->Action_0.body.0@,
                id,
            ) implies can_call_local(decls, i, known, id) by {
            lemma_block_calls(decls[i]->Action_0.body.0@, id);
            lemma_locals_known(decls, i as nat, known, id);
            assert(local_calls_known(decls, i, known));
        }
        assert forall|i: int, id: FunctionId|
            0 <= i < decls.len() && #[trigger] decls[i] is Variable
                && #[trigger] var_decl_mentions(
                decls[i]->Variable_0,
                id,
            ) implies can_call_local(decls, decls.len() as int, known, id) by {
            lemma_local_variables_call(decls, decls.len(), id);
            assert(block_calls(elements, elements.len()).contains(id));
            assert(all.contains(id));
        }
        assert forall|id: FunctionId| #[trigger]
            block_mentions(body, id) implies can_call_local(
            decls,
            decls.len() as int,
            known,
            id,
        ) by {
            lemma_block_calls(body, id);
            assert(block_calls(elements, elements.len()).contains(id));
            assert(all.contains(id));
        }
    }
    if control_finds(control, known) {
        assert forall|i: int| 0 <= i < decls.len() implies #[trigger] local_calls_known(
            decls,
            i,
            known,
        ) by {
            if let IrControlLocalDecl::Action(action) = decls[i] {
                let inner = action.body.0@;
                assert forall|id: FunctionId| #[trigger]
                    block_calls(inner, inner.len()).contains(id) implies known_after_locals(
                    decls,
                    i as nat,
                    known,
                ).contains(id) by {
                    lemma_block_calls(inner, id);
                    lemma_locals_known(decls, i as nat, known, id);
                    assert(decls[i] is Action && block_mentions(
                        decls[i]->Action_0.body.0@,
                        id,
                    ));
                }
            }
        }
        assert forall|id: FunctionId| #[trigger]
            block_calls(elements, elements.len()).contains(id) implies all.contains(id) by {
            lemma_local_variables_call(decls, decls.len(), id);
            lemma_block_calls(body, id);
            if !block_mentions(body, id) {
                let i = choose|i: int|
                    0 <= i < decls.len() && #[trigger] decls[i] is Variable && var_decl_mentions(
                        decls[i]->Variable_0,
                        id,
                    );
                assert(decls[i] is Variable && var_decl_mentions(decls[i]->Variable_0, id));
            }
            assert(can_call_local(decls, decls.len() as int, known, id));
        }
    }
}

/// The functions that are known after declarations are those that were known and the actions.
pub proof fn lemma_decls_known(
    decls: Seq<IrDeclaration>,
    k: nat,
    known: Set<FunctionId>,
    id: FunctionId,
)
    requires
        k <= decls.len(),
    ensures
        known_after_decls(decls, k, known).contains(id) <==> can_call(
            decls,
            k as int,
            0,
            known,
            id,
        ),
    decreases k,
{
    if k > 0 {
        let j = (k - 1) as nat;
        let so_far = known_after_decls(decls, j, known);
        lemma_decls_known(decls, j, known, id);
        if let IrDeclaration::Control(control) = decls[k - 1] {
            let locals = control.local_decls@;
            lemma_locals_known(locals, locals.len(), so_far, id);
            lemma_can_call_within(decls, k - 1, control, known, so_far, locals.len() as int, id);
        }
        lemma_can_call_step(decls, j as int, known, id);
    }
}

/// What can be called within a control block: what could be called before it, and its actions.
proof fn lemma_can_call_within(
    decls: Seq<IrDeclaration>,
    d: int,
    control: IrControlDecl,
    known: Set<FunctionId>,
    so_far: Set<FunctionId>,
    i: int,
    id: FunctionId,
)
    requires
        0 <= d < decls.len(),
        decls[d] == IrDeclaration::Control(control),
        0 <= i <= control.local_decls@.len(),
        so_far.contains(id) <==> can_call(decls, d, 0, known, id),
    ensures
        can_call_local(control.local_decls@, i, so_far, id) <==> can_call(decls, d, i, known, id),
{
    let locals = control.local_decls@;
    if can_call_local(locals, i, so_far, id) {
        if so_far.contains(id) {
            if !known.contains(id) {
                let (e, j) = choose|e: int, j: int|
                    (0 <= e < d || (e == d && 0 <= j < 0)) && #[trigger] program_action(
                        decls,
                        e,
                        j,
                    ) == Some(id);
                assert(program_action(decls, e, j) == Some(id));
            }
        } else {
            let j = choose|j: int| 0 <= j < i && #[trigger] local_action(locals, j) == Some(id);
            assert(program_action(decls, d, j) == Some(id));
        }
    }
    if can_call(decls, d, i, known, id) && !known.contains(id) {
        let (e, j) = choose|e: int, j: int|
            (0 <= e < d || (e == d && 0 <= j < i)) && #[trigger] program_action(decls, e, j)
                == Some(id);
        if e < d {
            assert(program_action(decls, e, j) == Some(id));
            assert(can_call(decls, d, 0, known, id));
        } else {
            assert(local_action(locals, j) == Some(id));
        }
    }
}

/// What can be called after one more declaration.
proof fn lemma_can_call_step(
    decls: Seq<IrDeclaration>,
    d: int,
    known: Set<FunctionId>,
    id: FunctionId,
)
    requires
        0 <= d < decls.len(),
    ensures
        can_call(decls, d + 1, 0, known, id) <==> match decls[d] {
            IrDeclaration::Control(control) => can_call(
                decls,
                d,
                control.local_decls@.len() as int,
                known,
                id,
            ),
            _ => can_call(decls, d, 0, known, id),
        },
{
    let i = match decls[d] {
        IrDeclaration::Control(control) => control.local_decls@.len() as int,
        _ => 0,
    };
    if can_call(decls, d + 1, 0, known, id) && !known.contains(id) {
        let (e, j) = choose|e: int, j: int|
            (0 <= e < d + 1 || (e == d + 1 && 0 <= j < 0)) && #[trigger] program_action(
                decls,
                e,
                j,
            ) == Some(id);
        assert((0 <= e < d || (e == d && 0 <= j < i)) && program_action(decls, e, j) == Some(id));
    }
    if can_call(decls, d, i, known, id) && !known.contains(id) {
        let (e, j) = choose|e: int, j: int|
            (0 <= e < d || (e == d && 0 <= j < i)) && #[trigger] program_action(decls, e, j)
                == Some(id);
        assert((0 <= e < d + 1) && program_action(decls, e, j) == Some(id));
    }
}

/// A declaration of a program has known calls where its calls find their functions, and only
/// there.
proof fn lemma_declaration_calls(decls: Seq<IrDeclaration>, d: int, known: Set<FunctionId>)
    requires
        0 <= d < decls.len(),
    ensures
        decl_calls_known(decls, d, known) <==> declaration_finds(decls, d, known),
{
    let so_far = known_after_decls(decls, d as nat, known);
    assert forall|id: FunctionId| #[trigger] so_far.contains(id) <==> can_call(
        decls,
        d,
        0,
        known,
        id,
    ) by {
        lemma_decls_known(decls, d as nat, known, id);
    }
    match decls[d] {
        IrDeclaration::Constant(constant) => {
            assert forall|id: FunctionId| #[trigger]
                var_decl_calls(constant).contains(id) <==> var_decl_mentions(constant, id) by {
                lemma_var_decl_calls(constant, id);
            }
            if decl_calls_known(decls, d, known) {
                assert forall|id: FunctionId| #[trigger]
                    var_decl_mentions(constant, id) implies can_call(decls, d, 0, known, id) by {
                    assert(var_decl_calls(constant).contains(id));
                    assert(so_far.contains(id));
                }
            }
            if declaration_finds(decls, d, known) {
                assert forall|id: FunctionId| #[trigger]
                    var_decl_calls(constant).contains(id) implies so_far.contains(id) by {
                    assert(var_decl_mentions(constant, id));
                }
            }
        },
        IrDeclaration::Control(control) => {
            let locals = control.local_decls@;
            lemma_control_calls(control, so_far);
            assert forall|i: int, id: FunctionId|
                0 <= i <= locals.len() implies (#[trigger] can_call_local(locals, i, so_far, id)
                <==> can_call(decls, d, i, known, id)) by {
                lemma_can_call_within(decls, d, control, known, so_far, i, id);
            }
            assert(control_finds(control, so_far) <==> control_finds_at(
                decls,
                d,
                control,
                known,
            )) by {
                if control_finds(control, so_far) {
                    assert forall|i: int, id: FunctionId|
                        0 <= i < locals.len() && #[trigger] locals[i] is Action
                            && #[trigger] block_mentions(
                            locals[i]->Action_0.body.0@,
                            id,
                        ) implies can_call(decls, d, i, known, id) by {
                        assert(can_call_local(locals, i, so_far, id));
                    }
                    assert forall|i: int, id: FunctionId|
                        0 <= i < locals.len() && #[trigger] locals[i] is Variable
                            && #[trigger] var_decl_mentions(
                            locals[i]->Variable_0,
                            id,
                        ) implies can_call(decls, d, locals.len() as int, known, id) by {
                        assert(can_call_local(locals, locals.len() as int, so_far, id));
                    }
                    assert forall|id: FunctionId| #[trigger]
                        block_mentions(control.apply_body.0@, id) implies can_call(
                        decls,
                        d,
                        locals.len() as int,
                        known,
                        id,
                    ) by {
                        assert(can_call_local(locals, locals.len() as int, so_far, id));
                    }
                }
            }
        },
        IrDeclaration::Instantiation(_) => {},
    }
}

/// A program has known calls if and only if every call that occurs in it is of one of `known`, or
/// of an action that is declared before that place.
pub proof fn lemma_program_calls(program: IrProgram, known: Set<FunctionId>)
    ensures
        program_calls_known(program, known) <==> forall|d: int|
            0 <= d < program.declarations@.len() ==> #[trigger] declaration_finds(
                program.declarations@,
                d,
                known,
            ),
{
    let decls = program.declarations@;
    assert forall|d: int| 0 <= d < decls.len() implies (#[trigger] decl_calls_known(decls, d, known)
        <==> declaration_finds(decls, d, known)) by {
        lemma_declaration_calls(decls, d, known);
    }
    if program_calls_known(program, known) {
        assert forall|d: int| 0 <= d < decls.len() implies #[trigger] declaration_finds(
            decls,
            d,
            known,
        ) by {
            assert(decl_calls_known(decls, d, known));
        }
    }
    if forall|d: int| 0 <= d < decls.len() ==> #[trigger] declaration_finds(decls, d, known) {
        assert forall|d: int| 0 <= d < decls.len() implies #[trigger] decl_calls_known(
            decls,
            d,
            known,
        ) by {
            assert(declaration_finds(decls, d, known));
        }
    }
}

} // verus!
