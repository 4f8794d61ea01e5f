//! The names of a graph's variables do not get in each other's way.

use vstd::prelude::*;

use crate::graph::created_name;
use crate::ir::{FunctionId, VariableId};
use crate::meaning::runs::{is_true, Env, Value};
use crate::meaning::source::{agrees, agrees_on, ends_with, held_vars, same_targets, Vars};
use crate::text::{lemma_tagged_injective, tagged};
use crate::translation::{declared_var, has_value_var, return_target_var, return_var, value_var};

verus! {

/// A name starts as its prefix does.
proof fn lemma_tagged_first(prefix: Seq<char>, n: nat)
    requires
        prefix.len() > 0,
    ensures
        tagged(prefix, n).len() > 0,
        tagged(prefix, n)[0] == prefix[0],
{
}

/// Whether a name belongs to a variable of the program.
pub open spec fn is_program_name(name: Seq<char>) -> bool {
    name.len() > 0 && (name[0] == 'h' || name[0] == 'd' || name[0] == 'v')
}

/// Whether a name belongs to a return target.
pub open spec fn is_target_name(name: Seq<char>) -> bool {
    name.len() > 0 && name[0] == 'f'
}

/// The kinds of names differ in their first letter.
pub proof fn lemma_name_kinds()
    ensures
        forall|id: VariableId|
            (#[trigger] has_value_var(id)).len() > 0 && has_value_var(id)[0] == 'h',
        forall|id: VariableId|
            (#[trigger] declared_var(id)).len() > 0 && declared_var(id)[0] == 'd',
        forall|id: VariableId| (#[trigger] value_var(id)).len() > 0 && value_var(id)[0] == 'v',
        forall|id: FunctionId|
            (#[trigger] return_target_var(id)).len() > 0 && return_target_var(id)[0] == 'f',
        forall|n: nat|
            (#[trigger] created_name("expr"@, n)).len() > 0 && created_name("expr"@, n)[0] == 'e',
        return_var().len() > 0 && return_var()[0] == 'r',
{
    reveal_strlit("has_value__");
    reveal_strlit("declared_var__");
    reveal_strlit("var__");
    reveal_strlit("func_ret_target__");
    reveal_strlit("expr");
    reveal_strlit("__");
    reveal_strlit("ret");
    assert forall|id: VariableId| (#[trigger] has_value_var(id)).len() > 0 && has_value_var(id)[0]
        == 'h' by {
        lemma_tagged_first("has_value__"@, id as nat);
    }
    assert forall|id: VariableId| (#[trigger] declared_var(id)).len() > 0 && declared_var(id)[0]
        == 'd' by {
        lemma_tagged_first("declared_var__"@, id as nat);
    }
    assert forall|id: VariableId| (#[trigger] value_var(id)).len() > 0 && value_var(id)[0]
        == 'v' by {
        lemma_tagged_first("var__"@, id as nat);
    }
    assert forall|id: FunctionId|
        (#[trigger] return_target_var(id)).len() > 0 && return_target_var(id)[0] == 'f' by {
        lemma_tagged_first("func_ret_target__"@, id as nat);
    }
    assert forall|n: nat|
        (#[trigger] created_name("expr"@, n)).len() > 0 && created_name("expr"@, n)[0] == 'e' by {
        lemma_tagged_first("expr"@ + "__"@, n);
    }
}

/// Variables, and return targets, have names of their own.
pub proof fn lemma_names_injective()
    ensures
        forall|a: VariableId, b: VariableId|
            #[trigger] has_value_var(a) == #[trigger] has_value_var(b) ==> a == b,
        forall|a: VariableId, b: VariableId|
            #[trigger] declared_var(a) == #[trigger] declared_var(b) ==> a == b,
        forall|a: VariableId, b: VariableId|
            #[trigger] value_var(a) == #[trigger] value_var(b) ==> a == b,
        forall|a: FunctionId, b: FunctionId|
            #[trigger] return_target_var(a) == #[trigger] return_target_var(b) ==> a == b,
{
    reveal_strlit("has_value__");
    reveal_strlit("declared_var__");
    reveal_strlit("var__");
    reveal_strlit("func_ret_target__");
    assert forall|a: VariableId, b: VariableId|
        #[trigger] has_value_var(a) == #[trigger] has_value_var(b) implies a == b by {
        lemma_tagged_injective("has_value__"@, a as nat, "has_value__"@, b as nat);
    }
    assert forall|a: VariableId, b: VariableId|
        #[trigger] declared_var(a) == #[trigger] declared_var(b) implies a == b by {
        lemma_tagged_injective("declared_var__"@, a as nat, "declared_var__"@, b as nat);
    }
    assert forall|a: VariableId, b: VariableId|
        #[trigger] value_var(a) == #[trigger] value_var(b) implies a == b by {
        lemma_tagged_injective("var__"@, a as nat, "var__"@, b as nat);
    }
    assert forall|a: FunctionId, b: FunctionId|
        #[trigger] return_target_var(a) == #[trigger] return_target_var(b) implies a == b by {
        lemma_tagged_injective("func_ret_target__"@, a as nat, "func_ret_target__"@, b as nat);
    }
}

/// What the variables of a graph hold where they agree with those of a program.
pub proof fn lemma_agrees_at(env: Env, vars: Vars, id: VariableId)
    requires
        agrees(env, vars),
    ensures
        is_true(env[has_value_var(id)]) == vars.defined.contains(id),
        is_true(env[declared_var(id)]) == vars.declared.contains(id),
        env[value_var(id)] == vars.values[id],
{
    reveal(agrees);
    assert(agrees_on(env, vars, id));
}

/// Whatever the variables of a graph hold, they agree with the variables of some program.
pub proof fn lemma_held_vars(env: Env)
    ensures
        agrees(env, held_vars(env)),
{
    reveal(agrees);
}

/// A variable that does not belong to the program can be assigned to.
pub proof fn lemma_agrees_other(env: Env, vars: Vars, name: Seq<char>, value: Value)
    requires
        agrees(env, vars),
        !is_program_name(name),
    ensures
        agrees(env.insert(name, value), vars),
{
    reveal(agrees);
    lemma_name_kinds();
    let later = env.insert(name, value);
    assert forall|id: VariableId| #[trigger] agrees_on(later, vars, id) by {
        assert(agrees_on(env, vars, id));
    }
}

/// A variable of the program comes to have a value, or to have none.
pub proof fn lemma_agrees_define(env: Env, vars: Vars, id: VariableId, has_value: bool)
    requires
        agrees(env, vars),
    ensures
        agrees(
            env.insert(has_value_var(id), Value::Bool(has_value)),
            Vars {
                defined: if has_value {
                    vars.defined.insert(id)
                } else {
                    vars.defined.remove(id)
                },
                ..vars
            },
        ),
{
    reveal(agrees);
    lemma_name_kinds();
    lemma_names_injective();
    let later = env.insert(has_value_var(id), Value::Bool(has_value));
    let later_vars = Vars {
        defined: if has_value {
            vars.defined.insert(id)
        } else {
            vars.defined.remove(id)
        },
        ..vars
    };
    assert forall|other: VariableId| #[trigger] agrees_on(later, later_vars, other) by {
        assert(agrees_on(env, vars, other));
    }
}

/// A variable of the program is declared.
pub proof fn lemma_agrees_declare(env: Env, vars: Vars, id: VariableId)
    requires
        agrees(env, vars),
    ensures
        agrees(
            env.insert(declared_var(id), Value::Bool(true)),
            Vars { declared: vars.declared.insert(id), ..vars },
        ),
{
    reveal(agrees);
    lemma_name_kinds();
    lemma_names_injective();
    let later = env.insert(declared_var(id), Value::Bool(true));
    let later_vars = Vars { declared: vars.declared.insert(id), ..vars };
    assert forall|other: VariableId| #[trigger] agrees_on(later, later_vars, other) by {
        assert(agrees_on(env, vars, other));
    }
}

/// A variable of the program gets another value.
pub proof fn lemma_agrees_value(env: Env, vars: Vars, id: VariableId, value: Value)
    requires
        agrees(env, vars),
    ensures
        agrees(
            env.insert(value_var(id), value),
            Vars { values: vars.values.insert(id, value), ..vars },
        ),
{
    reveal(agrees);
    lemma_name_kinds();
    lemma_names_injective();
    let later = env.insert(value_var(id), value);
    let later_vars = Vars { values: vars.values.insert(id, value), ..vars };
    assert forall|other: VariableId| #[trigger] agrees_on(later, later_vars, other) by {
        assert(agrees_on(env, vars, other));
    }
}

/// Return targets stay where another variable is assigned to.
pub proof fn lemma_targets_other(
    before: Env,
    after: Env,
    changed: Set<FunctionId>,
    name: Seq<char>,
    value: Value,
)
    requires
        same_targets(before, after, changed),
        !is_target_name(name),
    ensures
        same_targets(before, after.insert(name, value), changed),
{
    reveal(same_targets);
    lemma_name_kinds();
}

/// Only the return target that is assigned to changes.
pub proof fn lemma_targets_set(env: Env, id: FunctionId, value: Value)
    ensures
        same_targets(env, env.insert(return_target_var(id), value), set![id]),
{
    reveal(same_targets);
    lemma_names_injective();
}

/// Where nothing has run.
pub proof fn lemma_ends_refl(env: Env, vars: Vars, calls: Set<FunctionId>)
    requires
        agrees(env, vars),
    ensures
        ends_with(env, env, vars, calls),
{
    reveal(same_targets);
}

/// One run after another.
pub proof fn lemma_ends_trans(
    before: Env,
    mid: Env,
    after: Env,
    mid_vars: Vars,
    vars: Vars,
    first: Set<FunctionId>,
    second: Set<FunctionId>,
    calls: Set<FunctionId>,
)
    requires
        ends_with(before, mid, mid_vars, first),
        ends_with(mid, after, vars, second),
        first.subset_of(calls),
        second.subset_of(calls),
    ensures
        ends_with(before, after, vars, calls),
{
    reveal(same_targets);
    assert forall|id: FunctionId| !calls.contains(id) implies #[trigger] after[return_target_var(
        id,
    )] == before[return_target_var(id)] by {
        assert(mid[return_target_var(id)] == before[return_target_var(id)]);
    }
}

/// A scratch variable is assigned to at the end.
pub proof fn lemma_ends_scratch(
    before: Env,
    after: Env,
    vars: Vars,
    calls: Set<FunctionId>,
    n: nat,
    value: Value,
)
    requires
        ends_with(before, after, vars, calls),
    ensures
        ends_with(before, after.insert(created_name("expr"@, n), value), vars, calls),
{
    lemma_name_kinds();
    lemma_agrees_other(after, vars, created_name("expr"@, n), value);
    lemma_targets_other(before, after, calls, created_name("expr"@, n), value);
}

/// A variable of the program comes to have a value, or to have none, at the end.
pub proof fn lemma_ends_define(
    before: Env,
    after: Env,
    vars: Vars,
    calls: Set<FunctionId>,
    id: VariableId,
    has_value: bool,
)
    requires
        ends_with(before, after, vars, calls),
    ensures
        ends_with(
            before,
            after.insert(has_value_var(id), Value::Bool(has_value)),
            Vars {
                defined: if has_value {
                    vars.defined.insert(id)
                } else {
                    vars.defined.remove(id)
                },
                ..vars
            },
            calls,
        ),
{
    lemma_name_kinds();
    lemma_agrees_define(after, vars, id, has_value);
    lemma_targets_other(before, after, calls, has_value_var(id), Value::Bool(has_value));
}

/// A variable of the program is declared at the end.
pub proof fn lemma_ends_declare(
    before: Env,
    after: Env,
    vars: Vars,
    calls: Set<FunctionId>,
    id: VariableId,
)
    requires
        ends_with(before, after, vars, calls),
    ensures
        ends_with(
            before,
            after.insert(declared_var(id), Value::Bool(true)),
            Vars { declared: vars.declared.insert(id), ..vars },
            calls,
        ),
{
    lemma_name_kinds();
    lemma_agrees_declare(after, vars, id);
    lemma_targets_other(before, after, calls, declared_var(id), Value::Bool(true));
}

/// A variable of the program gets another value at the end.
pub proof fn lemma_ends_value(
    before: Env,
    after: Env,
    vars: Vars,
    calls: Set<FunctionId>,
    id: VariableId,
    value: Value,
)
    requires
        ends_with(before, after, vars, calls),
    ensures
        ends_with(
            before,
            after.insert(value_var(id), value),
            Vars { values: vars.values.insert(id, value), ..vars },
            calls,
        ),
{
    lemma_name_kinds();
    lemma_agrees_value(after, vars, id, value);
    lemma_targets_other(before, after, calls, value_var(id), value);
}

} // verus!
