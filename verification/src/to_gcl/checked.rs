//! The translation of programs of which nothing is known.
//!
//! A program is only translated when it has a main declaration, its calls are known and the graph
//! has room for it.

use std::collections::HashSet;
use vstd::prelude::*;

use crate::count::lemma_program_adds;
use crate::gcl::NodeIndex;
use crate::graph::{GclGraph, GraphView};
use crate::growth::lemma_block_calls_prefix;
use crate::ir::{
    FunctionId, IrBlockStatement, IrControlDecl, IrControlLocalDecl, IrDeclaration, IrExpr,
    IrExprData, IrIfStatement, IrProgram, IrStatement, IrStatementOrDecl, IrType, IrVariableDecl,
};
use crate::metadata::ProgramMetadata;
use crate::to_gcl::ToGcl;
use crate::to_gcl::budget::is_affordable;
use crate::translation::{
    actions_calls_known, block_calls, control_calls_known, decl_calls_known, element_calls,
    expr_calls, if_calls, known_after_decls, known_after_locals, local_calls_known, local_elements,
    program_calls_known, statement_calls, var_decl_calls,
};

verus! {

/// The functions that can be called: those of the graph, and those that are to be declared
/// before.
pub open spec fn callable(graph: GraphView, declared: Set<FunctionId>) -> Set<FunctionId> {
    graph.functions.dom().union(declared)
}

/// Whether a function can be called.
fn is_callable(id: FunctionId, graph: &GclGraph, declared: &HashSet<FunctionId>) -> (result: bool)
    ensures
        result == callable(graph@, declared@).contains(id),
{
    broadcast use vstd::std_specs::hash::group_hash_axioms;

    graph.get_function(id).is_some() || declared.contains(&id)
}

/// Two sets of functions are known where both are.
pub proof fn lemma_union_known(a: Set<FunctionId>, b: Set<FunctionId>, known: Set<FunctionId>)
    ensures
        a.union(b).subset_of(known) <==> a.subset_of(known) && b.subset_of(known),
{
    if a.union(b).subset_of(known) {
        assert forall|id: FunctionId| a.contains(id) || b.contains(id) implies known.contains(
            id,
        ) by {
            assert(a.union(b).contains(id));
        }
    }
}

/// One function is known where it is.
pub proof fn lemma_one_known(id: FunctionId, known: Set<FunctionId>)
    ensures
        set![id].subset_of(known) <==> known.contains(id),
{
    assert(set![id].contains(id));
}

/// Whether an expression only calls functions that can be called.
fn expr_is_callable(
    expr: &IrExpr,
    graph: &GclGraph,
    declared: &HashSet<FunctionId>,
) -> (result: bool)
    ensures
        result == expr_calls(*expr).subset_of(callable(graph@, declared@)),
    decreases expr,
{
    let ghost known = callable(graph@, declared@);
    match &expr.data {
        IrExprData::Bool(_) => true,
        IrExprData::Var(_) => true,
        IrExprData::And(left, right) => {
            proof {
                lemma_union_known(expr_calls(**left), expr_calls(**right), known);
            }
            expr_is_callable(left, graph, declared) && expr_is_callable(right, graph, declared)
        },
        IrExprData::Or(left, right) => {
            proof {
                lemma_union_known(expr_calls(**left), expr_calls(**right), known);
            }
            expr_is_callable(left, graph, declared) && expr_is_callable(right, graph, declared)
        },
        IrExprData::Negation(inner) => expr_is_callable(inner, graph, declared),
        IrExprData::FunctionCall(call) => {
            proof {
                lemma_one_known(call.target, known);
            }
            is_callable(call.target, graph, declared)
        },
    }
}

/// Whether a declaration only calls functions that can be called.
fn var_decl_is_callable(
    decl: &IrVariableDecl,
    graph: &GclGraph,
    declared: &HashSet<FunctionId>,
) -> (result: bool)
    ensures
        result == var_decl_calls(*decl).subset_of(callable(graph@, declared@)),
{
    match &decl.value {
        Some(value) => expr_is_callable(value, graph, declared),
        None => true,
    }
}

/// Whether a conditional only calls functions that can be called.
fn if_is_callable(
    statement: &IrIfStatement,
    graph: &GclGraph,
    declared: &HashSet<FunctionId>,
) -> (result: bool)
    ensures
        result == if_calls(*statement).subset_of(callable(graph@, declared@)),
    decreases statement,
{
    proof {
        let known = callable(graph@, declared@);
        let first = expr_calls(statement.condition).union(statement_calls(*statement.then_case));
        let last = match &statement.else_case {
            Some(else_case) => statement_calls(**else_case),
            None => Set::empty(),
        };
        lemma_union_known(
            expr_calls(statement.condition),
            statement_calls(*statement.then_case),
            known,
        );
        lemma_union_known(first, last, known);
    }
    expr_is_callable(&statement.condition, graph, declared) && statement_is_callable(
        &statement.then_case,
        graph,
        declared,
    ) && match &statement.else_case {
        Some(else_case) => statement_is_callable(else_case, graph, declared),
        None => true,
    }
}

/// Whether a statement only calls functions that can be called.
fn statement_is_callable(
    statement: &IrStatement,
    graph: &GclGraph,
    declared: &HashSet<FunctionId>,
) -> (result: bool)
    ensures
        result == statement_calls(*statement).subset_of(callable(graph@, declared@)),
    decreases statement,
{
    match statement {
        IrStatement::Block(block) => block_is_callable(block, graph, declared),
        IrStatement::If(if_statement) => if_is_callable(if_statement, graph, declared),
        IrStatement::Assignment(assignment) => expr_is_callable(&assignment.value, graph, declared),
        IrStatement::FunctionCall(call) => {
            proof {
                lemma_one_known(call.target, callable(graph@, declared@));
            }
            is_callable(call.target, graph, declared)
        },
    }
}

/// Whether an element of a block only calls functions that can be called.
fn element_is_callable(
    element: &IrStatementOrDecl,
    graph: &GclGraph,
    declared: &HashSet<FunctionId>,
) -> (result: bool)
    ensures
        result == element_calls(*element).subset_of(callable(graph@, declared@)),
    decreases element,
{
    match element {
        IrStatementOrDecl::Statement(statement) => statement_is_callable(
            statement,
            graph,
            declared,
        ),
        IrStatementOrDecl::VariableDecl(decl) => var_decl_is_callable(decl, graph, declared),
        IrStatementOrDecl::Instantiation(_) => true,
    }
}

/// Whether a block only calls functions that can be called.
fn block_is_callable(
    block: &IrBlockStatement,
    graph: &GclGraph,
    declared: &HashSet<FunctionId>,
) -> (result: bool)
    ensures
        result == block_calls(block.0@, block.0@.len()).subset_of(callable(graph@, declared@)),
    decreases block,
{
    let ghost known = callable(graph@, declared@);
    let mut i: usize = 0;
    while i < block.0.len()
        invariant
            i <= block.0@.len(),
            known == callable(graph@, declared@),
            block_calls(block.0@, i as nat).subset_of(known),
        decreases block.0@.len() - i,
    {
        proof {
            lemma_block_calls_prefix(block.0@, i as nat);
            let so_far = block_calls(block.0@, i as nat);
            let next = element_calls(block.0@[i as int]);
            assert(block_calls(block.0@, (i + 1) as nat) == so_far.union(next));
            lemma_union_known(so_far, next, known);
        }
        if !element_is_callable(&block.0[i], graph, declared) {
            return false;
        }
        i = i + 1;
    }
    true
}

/// The calls of elements do not depend on what follows.
proof fn lemma_block_calls_before(
    xs: Seq<IrStatementOrDecl>,
    ys: Seq<IrStatementOrDecl>,
    k: nat,
)
    requires
        k <= xs.len(),
    ensures
        block_calls(xs + ys, k) == block_calls(xs, k),
    decreases k,
{
    if k > 0 {
        lemma_block_calls_before(xs, ys, (k - 1) as nat);
        assert((xs + ys)[k - 1] == xs[k - 1]);
    }
}

/// The calls of elements in two parts.
pub proof fn lemma_block_calls_add(xs: Seq<IrStatementOrDecl>, ys: Seq<IrStatementOrDecl>, k: nat)
    requires
        k <= ys.len(),
    ensures
        block_calls(xs + ys, xs.len() + k) == block_calls(xs, xs.len()).union(block_calls(ys, k)),
    decreases k,
{
    if k == 0 {
        lemma_block_calls_before(xs, ys, xs.len());
        assert(block_calls(xs, xs.len()).union(Set::empty()) =~= block_calls(xs, xs.len()));
    } else {
        let j = (k - 1) as nat;
        lemma_block_calls_add(xs, ys, j);
        assert((xs + ys)[xs.len() + k - 1] == ys[k - 1]);
        assert(block_calls(xs, xs.len()).union(block_calls(ys, j)).union(element_calls(ys[k - 1]))
            =~= block_calls(xs, xs.len()).union(block_calls(ys, k)));
    }
}

/// The calls of one more local declaration.
pub proof fn lemma_local_elements_calls(decls: Seq<IrControlLocalDecl>, k: nat)
    requires
        k < decls.len(),
    ensures
        ({
            let before = local_elements(decls, k);
            let after = local_elements(decls, k + 1);
            block_calls(after, after.len()) == match decls[k as int] {
                IrControlLocalDecl::Variable(decl) => block_calls(before, before.len()).union(
                    var_decl_calls(decl),
                ),
                _ => block_calls(before, before.len()),
            }
        }),
{
    let before = local_elements(decls, k);
    match decls[k as int] {
        IrControlLocalDecl::Variable(decl) => {
            let added = IrStatementOrDecl::VariableDecl(decl);
            assert(before.push(added) =~= before + seq![added]);
            lemma_block_calls_before(before, seq![added], before.len());
            assert((before + seq![added])[before.len() as int] == added);
            assert(element_calls(added) == var_decl_calls(decl));
        },
        IrControlLocalDecl::Instantiation(instantiation) => {
            let added = IrStatementOrDecl::Instantiation(instantiation);
            assert(before.push(added) =~= before + seq![added]);
            lemma_block_calls_before(before, seq![added], before.len());
            assert((before + seq![added])[before.len() as int] == added);
            assert(element_calls(added) == Set::<FunctionId>::empty());
            assert(block_calls(before, before.len()).union(Set::empty()) =~= block_calls(
                before,
                before.len(),
            ));
        },
        _ => {},
    }
}

/// Whether each action only calls functions that can be called by then. The actions are noted.
fn actions_are_callable(
    control: &IrControlDecl,
    graph: &GclGraph,
    declared: &mut HashSet<FunctionId>,
) -> (result: bool)
    ensures
        ({
            let known = callable(graph@, old(declared)@);
            let decls = control.local_decls@;
            &&& result == actions_calls_known(decls, known)
            &&& result ==> callable(graph@, final(declared)@) == known_after_locals(
                decls,
                decls.len(),
                known,
            )
        }),
{
    broadcast use vstd::std_specs::hash::group_hash_axioms;

    let ghost known = callable(graph@, declared@);
    let ghost decls = control.local_decls@;
    let mut i: usize = 0;
    while i < control.local_decls.len()
        invariant
            decls == control.local_decls@,
            known == callable(graph@, old(declared)@),
            i <= decls.len(),
            callable(graph@, declared@) == known_after_locals(decls, i as nat, known),
            forall|j: int| 0 <= j < i ==> #[trigger] local_calls_known(decls, j, known),
        decreases decls.len() - i,
    {
        if let IrControlLocalDecl::Action(action) = &control.local_decls[i] {
            if !block_is_callable(&action.body, graph, declared) {
                assert(!local_calls_known(decls, i as int, known));
                return false;
            }
            let ghost before = declared@;
            declared.insert(action.id);
            assert(callable(graph@, before.insert(action.id)) =~= callable(graph@, before).insert(
                action.id,
            ));
        }
        assert(local_calls_known(decls, i as int, known));
        i = i + 1;
    }
    true
}

/// Whether the variables of a control block only call functions that can be called.
fn locals_are_callable(
    control: &IrControlDecl,
    graph: &GclGraph,
    declared: &HashSet<FunctionId>,
) -> (result: bool)
    ensures
        ({
            let locals = local_elements(control.local_decls@, control.local_decls@.len());
            result == block_calls(locals, locals.len()).subset_of(callable(graph@, declared@))
        }),
{
    let ghost known = callable(graph@, declared@);
    let ghost decls = control.local_decls@;
    let mut result: bool = true;
    let mut i: usize = 0;
    while i < control.local_decls.len()
        invariant
            decls == control.local_decls@,
            known == callable(graph@, declared@),
            i <= decls.len(),
            result == block_calls(
                local_elements(decls, i as nat),
                local_elements(decls, i as nat).len(),
            ).subset_of(known),
        decreases decls.len() - i,
    {
        let ghost before = local_elements(decls, i as nat);
        proof {
            lemma_local_elements_calls(decls, i as nat);
        }
        if let IrControlLocalDecl::Variable(decl) = &control.local_decls[i] {
            proof {
                lemma_union_known(block_calls(before, before.len()), var_decl_calls(*decl), known);
            }
            result = result && var_decl_is_callable(decl, graph, declared);
        }
        i = i + 1;
    }
    result
}

/// Whether a control block only calls functions that can be called by then. Its actions are
/// noted.
fn control_is_callable(
    control: &IrControlDecl,
    graph: &GclGraph,
    declared: &mut HashSet<FunctionId>,
) -> (result: bool)
    ensures
        ({
            let known = callable(graph@, old(declared)@);
            let decls = control.local_decls@;
            &&& result == control_calls_known(*control, known)
            &&& result ==> callable(graph@, final(declared)@) == known_after_locals(
                decls,
                decls.len(),
                known,
            )
        }),
{
    if !actions_are_callable(control, graph, declared) {
        return false;
    }
    proof {
        let locals = local_elements(control.local_decls@, control.local_decls@.len());
        let body = control.apply_body.0@;
        lemma_block_calls_add(locals, body, body.len());
        lemma_union_known(
            block_calls(locals, locals.len()),
            block_calls(body, body.len()),
            callable(graph@, declared@),
        );
    }
    locals_are_callable(control, graph, declared) && block_is_callable(
        &control.apply_body,
        graph,
        declared,
    )
}

/// Whether a program only calls functions that can be called by then.
fn program_is_callable(program: &IrProgram, graph: &GclGraph) -> (result: bool)
    ensures
        result == program_calls_known(*program, graph@.functions.dom()),
{
    broadcast use vstd::std_specs::hash::group_hash_axioms;

    let ghost known = graph@.functions.dom();
    let ghost decls = program.declarations@;
    let mut declared: HashSet<FunctionId> = HashSet::new();
    assert(callable(graph@, declared@) =~= known);
    let mut i: usize = 0;
    while i < program.declarations.len()
        invariant
            decls == program.declarations@,
            known == graph@.functions.dom(),
            i <= decls.len(),
            callable(graph@, declared@) == known_after_decls(decls, i as nat, known),
            forall|j: int| 0 <= j < i ==> #[trigger] decl_calls_known(decls, j, known),
        decreases decls.len() - i,
    {
        let callable_here = match &program.declarations[i] {
            IrDeclaration::Constant(constant) => var_decl_is_callable(constant, graph, &declared),
            IrDeclaration::Control(control) => control_is_callable(control, graph, &mut declared),
            IrDeclaration::Instantiation(_) => true,
        };
        assert(callable_here == decl_calls_known(decls, i as int, known));
        if !callable_here {
            return false;
        }
        i = i + 1;
    }
    true
}

impl IrProgram {
    /// Translates the program into `graph`, if that is possible; otherwise the graph stays as it
    /// is.
    pub fn try_to_gcl(&self, graph: &mut GclGraph, metadata: &ProgramMetadata) -> (output: Option<
        NodeIndex,
    >)
        ensures
            output is Some <==> self.translatable(old(graph)@, *metadata),
            output is Some ==> {
                &&& self.declarations@.len() > 0
                &&& self.declarations@.last() matches IrDeclaration::Instantiation(main)
                &&& main.ty matches IrType::Struct(ty)
                &&& metadata.type_names@.dom().contains(ty.id)
                &&& metadata.type_names@[ty.id]@ == "V1Switch"@
            },
            output matches Some(start) ==> start@ == old(graph)@.nodes.len(),
            output matches Some(start) ==> {
                &&& self.translates(old(graph)@, final(graph)@, start)
                &&& final(graph)@.wf()
            },
            output is None ==> *final(graph) == *old(graph),
    {
        if !self.has_switch_main(metadata) || !program_is_callable(self, graph) {
            return None;
        }
        match graph.room() {
            Some(room) => {
                if !graph.is_well_formed() {
                    return None;
                }
                proof {
                    lemma_program_adds(*self, graph@);
                }
                if is_affordable(self, room) {
                    Some(self.to_gcl(graph, metadata))
                } else {
                    None
                }
            },
            None => {
                proof {
                    if graph@.wf() {
                        lemma_program_adds(*self, graph@);
                    }
                }
                None
            },
        }
    }
}

} // verus!
