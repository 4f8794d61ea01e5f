//! How a graph of guarded commands runs.

use vstd::prelude::*;

use crate::gcl::{CommandView, PredicateView, RangeView};
use crate::graph::GraphView;

verus! {

/// What a variable of a graph can hold.
pub ghost enum Value {
    Bool(bool),
    Text(Seq<char>),
}

/// The variables of a graph and what they hold.
pub type Env = Map<Seq<char>, Value>;

/// Whether a value is the truth value `true`.
pub open spec fn is_true(value: Value) -> bool {
    value == Value::Bool(true)
}

/// The value of a predicate.
pub open spec fn eval(pred: PredicateView, env: Env) -> Value
    decreases pred,
{
    match pred {
        PredicateView::Bool(b) => Value::Bool(b),
        PredicateView::Var(name) => env[name],
        PredicateView::String(text) => Value::Text(text),
        PredicateView::StringVar(name) => env[name],
        PredicateView::Negation(inner) => Value::Bool(!is_true(eval(*inner, env))),
        PredicateView::Equality(left, right) => Value::Bool(eval(*left, env) == eval(*right, env)),
    }
}

/// Whether an edge under `pred` can be taken.
pub open spec fn holds(pred: PredicateView, env: Env) -> bool {
    is_true(eval(pred, env))
}

/// The variables after a command; nothing, where the command is a bug.
pub open spec fn run_command(command: CommandView, env: Env) -> Option<Env> {
    match command {
        CommandView::Assignment(name, pred) => Some(env.insert(name, eval(pred, env))),
        CommandView::Bug => None,
    }
}

/// The variables after commands that run in order; nothing, where one of them is a bug.
pub open spec fn run_commands(commands: Seq<CommandView>, env: Env) -> Option<Env>
    decreases commands.len(),
{
    if commands.len() == 0 {
        Some(env)
    } else {
        match run_commands(commands.drop_last(), env) {
            Some(before) => run_command(commands.last(), before),
            None => None,
        }
    }
}

/// A run that is about to run the commands of `node`.
pub ghost struct State {
    pub node: int,
    pub env: Env,
}

/// The variables after the commands of a node.
pub open spec fn run_node(g: GraphView, state: State) -> Option<Env> {
    run_commands(g.nodes[state.node].commands, state.env)
}

/// Whether the edge `i` leads from `a` to `b`, once the commands of the node of `a` have run.
pub open spec fn takes_edge(g: GraphView, i: int, a: State, b: State) -> bool {
    &&& g.has_node(a.node)
    &&& run_node(g, a) == Some(b.env)
    &&& 0 <= i < g.edges.len()
    &&& g.edges[i].from == a.node
    &&& g.edges[i].to == b.node
    &&& holds(g.edges[i].pred, b.env)
}

/// Whether some edge leads from `a` to `b`.
pub open spec fn steps(g: GraphView, a: State, b: State) -> bool {
    exists|i: int| #[trigger] takes_edge(g, i, a, b)
}

/// Whether `n` edges lead from `a` to `b`.
pub open spec fn reaches_in(g: GraphView, a: State, b: State, n: nat) -> bool
    decreases n,
{
    if n == 0 {
        a == b
    } else {
        exists|mid: State| #[trigger] steps(g, a, mid) && reaches_in(g, mid, b, (n - 1) as nat)
    }
}

/// Whether a run can come from `a` to `b`.
#[verifier::opaque]
pub open spec fn reaches(g: GraphView, a: State, b: State) -> bool {
    exists|n: nat| #[trigger] reaches_in(g, a, b, n)
}

/// Whether a run can enter `range` with the variables `before` and leave it with `after`.
#[verifier::opaque]
pub open spec fn completes(g: GraphView, range: RangeView, before: Env, after: Env) -> bool {
    exists|env: Env|
        {
            &&& #[trigger] reaches(
                g,
                State { node: range.start, env: before },
                State { node: range.end, env },
            )
            &&& g.has_node(range.end)
            &&& run_node(g, State { node: range.end, env }) == Some(after)
        }
}

/// Whether a run from `state` can come to a bug.
#[verifier::opaque]
pub open spec fn goes_wrong(g: GraphView, state: State) -> bool {
    exists|bug: State|
        {
            &&& #[trigger] reaches(g, state, bug)
            &&& g.has_node(bug.node)
            &&& run_node(g, bug) is None
        }
}

/// `later` has the nodes of `g` with the same commands, and its edges.
#[verifier::opaque]
pub open spec fn keeps_code(g: GraphView, later: GraphView) -> bool {
    &&& g.nodes.len() <= later.nodes.len()
    &&& g.edges.len() <= later.edges.len()
    &&& forall|i: int|
        0 <= i < g.nodes.len() ==> (#[trigger] later.nodes[i]).commands == g.nodes[i].commands
    &&& forall|i: int| 0 <= i < g.edges.len() ==> #[trigger] later.edges[i] == g.edges[i]
}

/// A graph that grows keeps its code.
pub proof fn lemma_grows_keeps_code(g: GraphView, later: GraphView)
    requires
        g.grows_into(later),
    ensures
        keeps_code(g, later),
{
    reveal(GraphView::is_kept_by);
    reveal(keeps_code);
}

/// Code that is kept twice is kept.
pub proof fn lemma_keeps_code_trans(a: GraphView, b: GraphView, c: GraphView)
    requires
        keeps_code(a, b),
        keeps_code(b, c),
    ensures
        keeps_code(a, c),
{
    reveal(keeps_code);
    assert forall|i: int| 0 <= i < a.nodes.len() implies (#[trigger] c.nodes[i]).commands
        == a.nodes[i].commands by {
        assert(b.nodes[i].commands == a.nodes[i].commands);
    }
    assert forall|i: int| 0 <= i < a.edges.len() implies #[trigger] c.edges[i] == a.edges[i] by {
        assert(b.edges[i] == a.edges[i]);
    }
}

/// Nothing has to run to stay.
pub proof fn lemma_reaches_refl(g: GraphView, a: State)
    ensures
        reaches(g, a, a),
{
    reveal(reaches);
    assert(reaches_in(g, a, a, 0));
}

/// A run along one edge.
pub proof fn lemma_reaches_edge(g: GraphView, i: int, a: State, b: State)
    requires
        takes_edge(g, i, a, b),
    ensures
        reaches(g, a, b),
{
    reveal(reaches);
    assert(steps(g, a, b));
    assert(reaches_in(g, b, b, 0));
    assert(reaches_in(g, a, b, 1));
}

proof fn lemma_reaches_in_trans(g: GraphView, a: State, b: State, c: State, m: nat, n: nat)
    requires
        reaches_in(g, a, b, m),
        reaches_in(g, b, c, n),
    ensures
        reaches_in(g, a, c, m + n),
    decreases m,
{
    if m > 0 {
        let mid = choose|mid: State| #[trigger]
            steps(g, a, mid) && reaches_in(g, mid, b, (m - 1) as nat);
        lemma_reaches_in_trans(g, mid, b, c, (m - 1) as nat, n);
        assert((m - 1) as nat + n == (m + n - 1) as nat);
    }
}

/// A run goes on where another has ended.
pub proof fn lemma_reaches_trans(g: GraphView, a: State, b: State, c: State)
    requires
        reaches(g, a, b),
        reaches(g, b, c),
    ensures
        reaches(g, a, c),
{
    reveal(reaches);
    let m = choose|m: nat| #[trigger] reaches_in(g, a, b, m);
    let n = choose|n: nat| #[trigger] reaches_in(g, b, c, n);
    lemma_reaches_in_trans(g, a, b, c, m, n);
}

proof fn lemma_reaches_in_kept(g: GraphView, later: GraphView, a: State, b: State, n: nat)
    requires
        keeps_code(g, later),
        reaches_in(g, a, b, n),
    ensures
        reaches_in(later, a, b, n),
    decreases n,
{
    if n > 0 {
        let mid = choose|mid: State| #[trigger]
            steps(g, a, mid) && reaches_in(g, mid, b, (n - 1) as nat);
        lemma_reaches_in_kept(g, later, mid, b, (n - 1) as nat);
        let i = choose|i: int| #[trigger] takes_edge(g, i, a, mid);
        assert(takes_edge(later, i, a, mid)) by {
            reveal(keeps_code);
            assert(later.edges[i] == g.edges[i]);
            assert(later.nodes[a.node].commands == g.nodes[a.node].commands);
        }
        assert(steps(later, a, mid));
    }
}

/// A run is a run of every graph that keeps the code.
pub proof fn lemma_reaches_kept(g: GraphView, later: GraphView, a: State, b: State)
    requires
        keeps_code(g, later),
        reaches(g, a, b),
    ensures
        reaches(later, a, b),
{
    reveal(reaches);
    let n = choose|n: nat| #[trigger] reaches_in(g, a, b, n);
    lemma_reaches_in_kept(g, later, a, b, n);
}

/// A complete run is a run of every graph that keeps the code.
pub proof fn lemma_completes_kept(
    g: GraphView,
    later: GraphView,
    range: RangeView,
    before: Env,
    after: Env,
)
    requires
        keeps_code(g, later),
        completes(g, range, before, after),
    ensures
        completes(later, range, before, after),
{
    reveal(completes);
    let start = State { node: range.start, env: before };
    let env = choose|env: Env|
        {
            &&& #[trigger] reaches(g, start, State { node: range.end, env })
            &&& g.has_node(range.end)
            &&& run_node(g, State { node: range.end, env }) == Some(after)
        };
    lemma_reaches_kept(g, later, start, State { node: range.end, env });
    assert(later.has_node(range.end) && later.nodes[range.end].commands
        == g.nodes[range.end].commands) by {
        reveal(keeps_code);
    }
}

/// A bug stays a bug in every graph that keeps the code.
pub proof fn lemma_wrong_kept(g: GraphView, later: GraphView, state: State)
    requires
        keeps_code(g, later),
        goes_wrong(g, state),
    ensures
        goes_wrong(later, state),
{
    reveal(goes_wrong);
    let bug = choose|bug: State|
        {
            &&& #[trigger] reaches(g, state, bug)
            &&& g.has_node(bug.node)
            &&& run_node(g, bug) is None
        };
    lemma_reaches_kept(g, later, state, bug);
    assert(later.has_node(bug.node) && later.nodes[bug.node].commands
        == g.nodes[bug.node].commands) by {
        reveal(keeps_code);
    }
}

/// A run that comes to the last node of a range, and runs its commands, is complete.
pub proof fn lemma_completes_intro(
    g: GraphView,
    range: RangeView,
    before: Env,
    env: Env,
    after: Env,
)
    requires
        reaches(
            g,
            State { node: range.start, env: before },
            State { node: range.end, env },
        ),
        g.has_node(range.end),
        run_node(g, State { node: range.end, env }) == Some(after),
    ensures
        completes(g, range, before, after),
{
    reveal(completes);
}

/// Where a range has been left, the run goes on along an edge of its last node.
pub proof fn lemma_completes_then(
    g: GraphView,
    range: RangeView,
    before: Env,
    after: Env,
    i: int,
)
    requires
        completes(g, range, before, after),
        0 <= i < g.edges.len(),
        g.edges[i].from == range.end,
        holds(g.edges[i].pred, after),
    ensures
        reaches(
            g,
            State { node: range.start, env: before },
            State { node: g.edges[i].to, env: after },
        ),
{
    reveal(completes);
    let start = State { node: range.start, env: before };
    let env = choose|env: Env|
        {
            &&& #[trigger] reaches(g, start, State { node: range.end, env })
            &&& g.has_node(range.end)
            &&& run_node(g, State { node: range.end, env }) == Some(after)
        };
    let end = State { node: range.end, env };
    let next = State { node: g.edges[i].to, env: after };
    assert(takes_edge(g, i, end, next));
    lemma_reaches_edge(g, i, end, next);
    lemma_reaches_trans(g, start, end, next);
}

/// A run up to the start of a range, and through the range.
pub proof fn lemma_completes_after(
    g: GraphView,
    start: int,
    before: Env,
    range: RangeView,
    mid: Env,
    after: Env,
)
    requires
        reaches(
            g,
            State { node: start, env: before },
            State { node: range.start, env: mid },
        ),
        completes(g, range, mid, after),
    ensures
        completes(g, RangeView { start, end: range.end }, before, after),
{
    reveal(completes);
    let a = State { node: start, env: before };
    let b = State { node: range.start, env: mid };
    let env = choose|env: Env|
        {
            &&& #[trigger] reaches(g, b, State { node: range.end, env })
            &&& g.has_node(range.end)
            &&& run_node(g, State { node: range.end, env }) == Some(after)
        };
    lemma_reaches_trans(g, a, b, State { node: range.end, env });
}

/// A run that comes to where another goes wrong goes wrong.
pub proof fn lemma_wrong_after(g: GraphView, a: State, b: State)
    requires
        reaches(g, a, b),
        goes_wrong(g, b),
    ensures
        goes_wrong(g, a),
{
    reveal(goes_wrong);
    let bug = choose|bug: State|
        {
            &&& #[trigger] reaches(g, b, bug)
            &&& g.has_node(bug.node)
            &&& run_node(g, bug) is None
        };
    lemma_reaches_trans(g, a, b, bug);
}

/// A run that comes to a bug node goes wrong.
pub proof fn lemma_wrong_intro(g: GraphView, a: State, bug: State)
    requires
        reaches(g, a, bug),
        g.has_node(bug.node),
        run_node(g, bug) is None,
    ensures
        goes_wrong(g, a),
{
    reveal(goes_wrong);
}

/// One more command.
pub proof fn lemma_run_push(commands: Seq<CommandView>, command: CommandView, env: Env)
    ensures
        run_commands(commands.push(command), env) == match run_commands(commands, env) {
            Some(before) => run_command(command, before),
            None => None,
        },
{
    assert(commands.push(command).drop_last() =~= commands);
}

/// No command, one command, two commands and three.
pub proof fn lemma_run_few(
    first: CommandView,
    second: CommandView,
    third: CommandView,
    env: Env,
)
    ensures
        run_commands(seq![], env) == Some(env),
        run_commands(seq![first], env) == run_command(first, env),
        run_commands(seq![first, second], env) == match run_command(first, env) {
            Some(next) => run_command(second, next),
            None => None,
        },
        run_commands(seq![first, second, third], env) == match run_commands(
            seq![first, second],
            env,
        ) {
            Some(next) => run_command(third, next),
            None => None,
        },
{
    lemma_run_push(seq![], first, env);
    lemma_run_push(seq![first], second, env);
    lemma_run_push(seq![first, second], third, env);
    assert(seq![].push(first) =~= seq![first]);
    assert(seq![first].push(second) =~= seq![first, second]);
    assert(seq![first, second].push(third) =~= seq![first, second, third]);
}

} // verus!
