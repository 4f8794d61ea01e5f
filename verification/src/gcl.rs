//! The pieces of a guarded command graph.
//!
//! A node holds commands that run in order. An edge holds a predicate and may be taken when
//! the predicate is true.

use vstd::prelude::*;

verus! {

/// The position of a node in its graph.
#[derive(Clone, Copy, Debug, PartialEq, Eq, Structural)]
pub struct NodeIndex {
    pub index: u32,
}

impl View for NodeIndex {
    type V = int;

    open spec fn view(&self) -> int {
        self.index as int
    }
}

/// The nodes that a run enters by `start` and leaves by `end`.
#[derive(Clone, Copy, Debug, PartialEq, Eq, Structural)]
pub struct GclNodeRange {
    pub start: NodeIndex,
    pub end: NodeIndex,
}

/// What a `GclNodeRange` stands for.
pub ghost struct RangeView {
    pub start: int,
    pub end: int,
}

impl View for GclNodeRange {
    type V = RangeView;

    open spec fn view(&self) -> RangeView {
        RangeView { start: self.start@, end: self.end@ }
    }
}

/// An expression over the variables of a graph.
#[derive(Debug, PartialEq)]
pub enum GclPredicate {
    Bool(bool),
    Var(String),
    String(String),
    StringVar(String),
    Negation(Box<GclPredicate>),
    Equality(Box<GclPredicate>, Box<GclPredicate>),
}

/// What a `GclPredicate` stands for.
pub ghost enum PredicateView {
    Bool(bool),
    Var(Seq<char>),
    String(Seq<char>),
    StringVar(Seq<char>),
    Negation(Box<PredicateView>),
    Equality(Box<PredicateView>, Box<PredicateView>),
}

impl View for GclPredicate {
    type V = PredicateView;

    open spec fn view(&self) -> PredicateView
        decreases self,
    {
        match self {
            GclPredicate::Bool(b) => PredicateView::Bool(*b),
            GclPredicate::Var(name) => PredicateView::Var(name@),
            GclPredicate::String(text) => PredicateView::String(text@),
            GclPredicate::StringVar(name) => PredicateView::StringVar(name@),
            GclPredicate::Negation(inner) => PredicateView::Negation(Box::new((**inner)@)),
            GclPredicate::Equality(left, right) => PredicateView::Equality(
                Box::new((**left)@),
                Box::new((**right)@),
            ),
        }
    }
}

impl Clone for GclPredicate {
    fn clone(&self) -> (copy: Self)
        ensures
            copy@ == self@,
        decreases self,
    {
        match self {
            GclPredicate::Bool(b) => GclPredicate::Bool(*b),
            GclPredicate::Var(name) => GclPredicate::Var(name.clone()),
            GclPredicate::String(text) => GclPredicate::String(text.clone()),
            GclPredicate::StringVar(name) => GclPredicate::StringVar(name.clone()),
            GclPredicate::Negation(inner) => GclPredicate::Negation(Box::new((**inner).clone())),
            GclPredicate::Equality(left, right) => GclPredicate::Equality(
                Box::new((**left).clone()),
                Box::new((**right).clone()),
            ),
        }
    }
}

impl Default for GclPredicate {
    /// The predicate of an edge that can always be taken.
    fn default() -> (pred: Self)
        ensures
            pred@ == PredicateView::Bool(true),
    {
        GclPredicate::Bool(true)
    }
}

/// The assignment of a predicate's value to a variable.
#[derive(Debug, PartialEq)]
pub struct GclAssignment {
    pub name: String,
    pub pred: GclPredicate,
}

/// A command of a node.
#[derive(Debug, PartialEq)]
pub enum GclCommand {
    Assignment(GclAssignment),
    /// The program has gone wrong.
    Bug,
}

/// What a `GclCommand` stands for.
pub ghost enum CommandView {
    Assignment(Seq<char>, PredicateView),
    Bug,
}

impl View for GclCommand {
    type V = CommandView;

    open spec fn view(&self) -> CommandView {
        match self {
            GclCommand::Assignment(assignment) => CommandView::Assignment(
                assignment.name@,
                assignment.pred@,
            ),
            GclCommand::Bug => CommandView::Bug,
        }
    }
}

/// The commands that `commands` stand for.
pub open spec fn command_views(commands: Seq<GclCommand>) -> Seq<CommandView> {
    commands.map_values(|command: GclCommand| command@)
}

/// A node of a graph.
#[derive(Debug, PartialEq)]
pub struct GclNode {
    pub name: String,
    pub commands: Vec<GclCommand>,
}

/// What a `GclNode` stands for.
pub ghost struct NodeView {
    pub name: Seq<char>,
    pub commands: Seq<CommandView>,
}

impl View for GclNode {
    type V = NodeView;

    open spec fn view(&self) -> NodeView {
        NodeView { name: self.name@, commands: command_views(self.commands@) }
    }
}

/// Predicates, commands, nodes and ranges stand for what they hold.
pub proof fn lemma_views(
    b: bool,
    text: String,
    left: GclPredicate,
    right: GclPredicate,
    commands: Vec<GclCommand>,
    start: NodeIndex,
    end: NodeIndex,
)
    ensures
        start@ == start.index,
        (GclNodeRange { start, end })@ == (RangeView { start: start@, end: end@ }),
        GclPredicate::Bool(b)@ == PredicateView::Bool(b),
        GclPredicate::Var(text)@ == PredicateView::Var(text@),
        GclPredicate::String(text)@ == PredicateView::String(text@),
        GclPredicate::StringVar(text)@ == PredicateView::StringVar(text@),
        GclPredicate::Negation(Box::new(left))@ == PredicateView::Negation(Box::new(left@)),
        GclPredicate::Equality(Box::new(left), Box::new(right))@ == PredicateView::Equality(
            Box::new(left@),
            Box::new(right@),
        ),
        GclCommand::Bug@ == CommandView::Bug,
        GclCommand::Assignment(GclAssignment { name: text, pred: left })@
            == CommandView::Assignment(text@, left@),
        (GclNode { name: text, commands })@.name == text@,
        (GclNode { name: text, commands })@.commands.len() == commands@.len(),
        forall|i: int|
            0 <= i < commands@.len() ==> #[trigger] (GclNode {
                name: text,
                commands,
            })@.commands[i] == commands@[i]@,
{
}

/// An edge of a graph: from a node, to a node, under a predicate.
pub ghost struct EdgeView {
    pub from: int,
    pub to: int,
    pub pred: PredicateView,
}

} // verus!
