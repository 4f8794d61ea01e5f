//! What the parts of a program mean.

use vstd::prelude::*;

use crate::gcl::{PredicateView, RangeView};
use crate::graph::GraphView;
use crate::ir::{
    FunctionId, IrActionDecl, IrAssignment, IrControlDecl, IrControlLocalDecl, IrExpr, IrExprData,
    IrIfStatement, IrStatement, IrStatementOrDecl, IrVariableDecl, VariableId,
};
use crate::meaning::runs::{completes, eval, goes_wrong, is_true, Env, State, Value};
use crate::translation::{
    block_calls, declared_var, has_value_var, return_target_var, return_var, value_var,
};

verus! {

/// The variables of a program.
pub ghost struct Vars {
    /// The variables that can be assigned to.
    pub declared: Set<VariableId>,
    /// The variables that can be read.
    pub defined: Set<VariableId>,
    /// The values of the variables.
    pub values: Map<VariableId, Value>,
}

impl Vars {
    /// The variables after `id` has got a value.
    pub open spec fn with_value(self, id: VariableId, value: Value) -> Vars {
        Vars {
            defined: self.defined.insert(id),
            values: self.values.insert(id, value),
            ..self
        }
    }

    /// The variables after a declaration, which need not give a value.
    pub open spec fn with_declared(self, decl: IrVariableDecl) -> Vars {
        if decl.is_const {
            self
        } else {
            Vars { declared: self.declared.insert(decl.id), ..self }
        }
    }
}

/// What the actions mean.
pub ghost struct Actions {
    /// The variables after an action; nothing, where the action goes wrong.
    pub call: spec_fn(FunctionId, Vars) -> Option<Vars>,
    /// The actions that an action calls, by itself or through others.
    pub callees: spec_fn(FunctionId) -> Set<FunctionId>,
}

impl Actions {
    /// `calls` and what they call.
    pub open spec fn all_callees(self, calls: Set<FunctionId>) -> Set<FunctionId> {
        Set::new(
            |id: FunctionId|
                calls.contains(id) || exists|f: FunctionId| #[trigger]
                    calls.contains(f) && (self.callees)(f).contains(id),
        )
    }

    /// The actions after `action` has been declared.
    pub open spec fn declare(self, action: IrActionDecl) -> Actions {
        let body = action.body.0@;
        let actions = self;
        Actions {
            call: |id: FunctionId, vars: Vars|
                if id == action.id {
                    run_elements(body, body.len(), vars, actions)
                } else {
                    (actions.call)(id, vars)
                },
            callees: |id: FunctionId|
                if id == action.id {
                    actions.all_callees(block_calls(body, body.len()))
                } else {
                    (actions.callees)(id)
                },
        }
    }
}

/// No action has been declared.
pub open spec fn no_actions() -> Actions {
    Actions {
        call: |id: FunctionId, vars: Vars| None,
        callees: |id: FunctionId| Set::empty(),
    }
}

/// The value of an expression, and the variables after it; nothing, where it reads a variable
/// that has no value. The second operand of a conjunction or disjunction only counts where the
/// first does not decide. A call has the value `true`.
pub open spec fn eval_expr(expr: IrExpr, vars: Vars, actions: Actions) -> Option<(Value, Vars)>
    decreases expr,
{
    match expr.data {
        IrExprData::Bool(b) => Some((Value::Bool(b), vars)),
        IrExprData::Var(id) => if vars.defined.contains(id) {
            Some((vars.values[id], vars))
        } else {
            None
        },
        IrExprData::And(left, right) => match eval_expr(*left, vars, actions) {
            None => None,
            Some((value, mid)) => if is_true(value) {
                match eval_expr(*right, mid, actions) {
                    None => None,
                    Some((decision, after)) => Some((Value::Bool(is_true(decision)), after)),
                }
            } else {
                Some((Value::Bool(false), mid))
            },
        },
        IrExprData::Or(left, right) => match eval_expr(*left, vars, actions) {
            None => None,
            Some((value, mid)) => if is_true(value) {
                Some((Value::Bool(true), mid))
            } else {
                match eval_expr(*right, mid, actions) {
                    None => None,
                    Some((decision, after)) => Some((Value::Bool(is_true(decision)), after)),
                }
            },
        },
        IrExprData::Negation(inner) => match eval_expr(*inner, vars, actions) {
            None => None,
            Some((value, after)) => Some((Value::Bool(!is_true(value)), after)),
        },
        IrExprData::FunctionCall(call) => match (actions.call)(call.target, vars) {
            None => None,
            Some(after) => Some((Value::Bool(true), after)),
        },
    }
}

/// The variables after a declaration: the variable has the declared value, or none. Only a
/// variable that is not constant can be assigned to.
pub open spec fn run_var_decl(decl: IrVariableDecl, vars: Vars, actions: Actions) -> Option<Vars> {
    match decl.value {
        Some(value) => match eval_expr(value, vars, actions) {
            None => None,
            Some((v, after)) => Some(after.with_declared(decl).with_value(decl.id, v)),
        },
        None => Some(
            Vars { defined: vars.defined.remove(decl.id), ..vars }.with_declared(decl),
        ),
    }
}

/// The variables after an assignment; nothing, where the variable has not been declared.
pub open spec fn run_assignment(
    assignment: IrAssignment,
    vars: Vars,
    actions: Actions,
) -> Option<Vars> {
    if vars.declared.contains(assignment.var) {
        match eval_expr(assignment.value, vars, actions) {
            None => None,
            Some((value, after)) => Some(after.with_value(assignment.var, value)),
        }
    } else {
        None
    }
}

/// The variables after a conditional.
pub open spec fn run_if(statement: IrIfStatement, vars: Vars, actions: Actions) -> Option<Vars>
    decreases statement, 0nat,
{
    match eval_expr(statement.condition, vars, actions) {
        None => None,
        Some((value, after)) => if is_true(value) {
            run_statement(*statement.then_case, after, actions)
        } else {
            match statement.else_case {
                Some(else_case) => run_statement(*else_case, after, actions),
                None => Some(after),
            }
        },
    }
}

/// The variables after a statement.
pub open spec fn run_statement(
    statement: IrStatement,
    vars: Vars,
    actions: Actions,
) -> Option<Vars>
    decreases statement, 0nat,
{
    match statement {
        IrStatement::Block(block) => run_elements(block.0@, block.0@.len(), vars, actions),
        IrStatement::If(if_statement) => run_if(if_statement, vars, actions),
        IrStatement::Assignment(assignment) => run_assignment(assignment, vars, actions),
        IrStatement::FunctionCall(call) => (actions.call)(call.target, vars),
    }
}

/// The variables after an element of a block. An instantiation can be read afterwards.
pub open spec fn run_element(
    element: IrStatementOrDecl,
    vars: Vars,
    actions: Actions,
) -> Option<Vars>
    decreases element, 0nat,
{
    match element {
        IrStatementOrDecl::Statement(statement) => run_statement(statement, vars, actions),
        IrStatementOrDecl::VariableDecl(decl) => run_var_decl(decl, vars, actions),
        IrStatementOrDecl::Instantiation(instantiation) => Some(
            Vars { defined: vars.defined.insert(instantiation.id), ..vars },
        ),
    }
}

/// The variables after the first `k` elements of a block.
pub open spec fn run_elements(
    elements: Seq<IrStatementOrDecl>,
    k: nat,
    vars: Vars,
    actions: Actions,
) -> Option<Vars>
    decreases elements, k,
{
    if k == 0 || k > elements.len() {
        Some(vars)
    } else {
        match run_elements(elements, (k - 1) as nat, vars, actions) {
            None => None,
            Some(before) => run_element(elements[k - 1], before, actions),
        }
    }
}

/// The actions after the first `k` local declarations of a control block.
pub open spec fn declare_actions(
    decls: Seq<IrControlLocalDecl>,
    k: nat,
    actions: Actions,
) -> Actions
    decreases k,
{
    if k == 0 || k > decls.len() {
        actions
    } else {
        let before = declare_actions(decls, (k - 1) as nat, actions);
        match decls[k - 1] {
            IrControlLocalDecl::Action(action) => before.declare(action),
            _ => before,
        }
    }
}

/// The variables after the first `k` local declarations of a control block: each variable is
/// declared and each instantiation made, in order. Actions and tables do nothing by themselves.
pub open spec fn run_locals(
    decls: Seq<IrControlLocalDecl>,
    k: nat,
    vars: Vars,
    actions: Actions,
) -> Option<Vars>
    decreases k,
{
    if k == 0 || k > decls.len() {
        Some(vars)
    } else {
        match run_locals(decls, (k - 1) as nat, vars, actions) {
            None => None,
            Some(before) => match decls[k - 1] {
                IrControlLocalDecl::Variable(decl) => run_var_decl(decl, before, actions),
                IrControlLocalDecl::Instantiation(instantiation) => Some(
                    Vars { defined: before.defined.insert(instantiation.id), ..before },
                ),
                IrControlLocalDecl::Action(_) => Some(before),
                IrControlLocalDecl::Table(_) => Some(before),
            },
        }
    }
}

/// The variables after a control block: the local declarations come first, all of them, and then
/// the whole apply block. Every action of the control block can be called.
pub open spec fn run_control(control: IrControlDecl, vars: Vars, actions: Actions) -> Option<Vars> {
    let decls = control.local_decls@;
    let body = control.apply_body.0@;
    let known = declare_actions(decls, decls.len(), actions);
    match run_locals(decls, decls.len(), vars, known) {
        None => None,
        Some(ready) => run_elements(body, body.len(), ready, known),
    }
}

// ---------------------------------------------------------------------------------------
// The variables of a program in a graph
// ---------------------------------------------------------------------------------------
/// Whether a graph and the program hold the same of the variable `id`.
pub open spec fn agrees_on(env: Env, vars: Vars, id: VariableId) -> bool {
    &&& is_true(env[has_value_var(id)]) == vars.defined.contains(id)
    &&& is_true(env[declared_var(id)]) == vars.declared.contains(id)
    &&& env[value_var(id)] == vars.values[id]
}

/// Whether the variables of a graph hold what the variables of the program hold.
#[verifier::opaque]
pub open spec fn agrees(env: Env, vars: Vars) -> bool {
    forall|id: VariableId| #[trigger] agrees_on(env, vars, id)
}

/// The variables of the program that a graph holds.
pub open spec fn held_vars(env: Env) -> Vars {
    Vars {
        declared: Set::new(|id: VariableId| is_true(env[declared_var(id)])),
        defined: Set::new(|id: VariableId| is_true(env[has_value_var(id)])),
        values: Map::new(|id: VariableId| true, |id: VariableId| env[value_var(id)]),
    }
}

/// Whether `before` and `after` hold the same return target of each action, but for
/// `changed`.
#[verifier::opaque]
pub open spec fn same_targets(before: Env, after: Env, changed: Set<FunctionId>) -> bool {
    forall|id: FunctionId|
        !changed.contains(id) ==> #[trigger] after[return_target_var(id)]
            == before[return_target_var(id)]
}

/// Whether a run that starts with `before` may end with `after`, where the program's variables
/// are `vars` at the end and actions of `calls` have been called.
pub open spec fn ends_with(
    before: Env,
    after: Env,
    vars: Vars,
    calls: Set<FunctionId>,
) -> bool {
    &&& agrees(after, vars)
    &&& same_targets(before, after, calls)
    &&& is_true(before[return_var()]) ==> is_true(after[return_var()])
}

/// Whether the function `id` of the graph does what the action means, from `before` on.
pub open spec fn performs(
    g: GraphView,
    id: FunctionId,
    before: Env,
    vars: Vars,
    actions: Actions,
) -> bool {
    match (actions.call)(id, vars) {
        Some(end) => exists|after: Env|
            {
                &&& #[trigger] completes(g, g.functions[id], before, after)
                &&& ends_with(before, after, end, (actions.callees)(id))
                &&& is_true(after[return_var()])
            },
        None => goes_wrong(g, State { node: g.functions[id].start, env: before }),
    }
}

/// Whether each function of the graph does what the action means. An action does not call
/// itself, be it through others.
#[verifier::opaque]
pub open spec fn implements(g: GraphView, actions: Actions) -> bool {
    forall|id: FunctionId| #[trigger]
        g.functions.dom().contains(id) ==> {
            &&& !(actions.callees)(id).contains(id)
            &&& forall|before: Env, vars: Vars| #[trigger]
                agrees(before, vars) ==> performs(g, id, before, vars, actions)
        }
}

/// Whether a part of the graph does what a part of the program means, from `before` on: `end`
/// are the program's variables at the end, or nothing, where it goes wrong; `calls` are the
/// actions that are called.
pub open spec fn does(
    g: GraphView,
    range: RangeView,
    before: Env,
    end: Option<Vars>,
    calls: Set<FunctionId>,
) -> bool {
    match end {
        Some(vars) => exists|after: Env| #[trigger]
            completes(g, range, before, after) && ends_with(before, after, vars, calls),
        None => goes_wrong(g, State { node: range.start, env: before }),
    }
}

/// Whether a part of the graph computes what an expression means, from `before` on; where it
/// does not go wrong, `pred` holds the value at the end.
pub open spec fn computes(
    g: GraphView,
    range: RangeView,
    pred: PredicateView,
    before: Env,
    end: Option<(Value, Vars)>,
    calls: Set<FunctionId>,
) -> bool {
    match end {
        Some((value, vars)) => exists|after: Env|
            {
                &&& #[trigger] completes(g, range, before, after)
                &&& ends_with(before, after, vars, calls)
                &&& eval(pred, after) == value
            },
        None => goes_wrong(g, State { node: range.start, env: before }),
    }
}

} // verus!
