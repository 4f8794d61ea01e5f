//! Translates a program into a graph of guarded commands.

use vstd::prelude::*;

pub mod budget;
pub mod checked;
pub mod declarations;
pub mod expressions;
pub mod statements;

use crate::gcl::{GclAssignment, GclCommand, GclNode, GclPredicate};
use crate::graph::{GclGraph, GraphView};
use crate::metadata::ProgramMetadata;
use crate::translation::{assign, node};

verus! {

/// A part of a program that can be translated into a graph.
pub trait ToGcl {
    type Output;

    /// Whether the part can be translated into `graph`: the graph is well-formed, the functions
    /// that are called are there, and the graph does not outgrow its index types. A program must
    /// end in a switch, too. An instantiation, which is only a command, asks for nothing.
    spec fn translatable(&self, graph: GraphView, metadata: ProgramMetadata) -> bool;

    /// Whether the translation turns the graph `before` into `after` and gives `output`.
    spec fn translates(&self, before: GraphView, after: GraphView, output: Self::Output) -> bool;

    /// Translates the part into `graph`.
    fn to_gcl(&self, graph: &mut GclGraph, metadata: &ProgramMetadata) -> (output: Self::Output)
        requires
            self.translatable(old(graph)@, *metadata),
        ensures
            old(graph)@.wf() ==> final(graph)@.wf(),
            self.translates(old(graph)@, final(graph)@, output),
    ;
}

/// The command that gives the variable `name` the value of `pred`.
pub(crate) fn assignment_command(name: String, pred: GclPredicate) -> (command: GclCommand)
    ensures
        command@ == assign(name@, pred@),
{
    GclCommand::Assignment(GclAssignment { name, pred })
}

/// The node with one command.
pub(crate) fn command_node(name: String, command: GclCommand) -> (result: GclNode)
    ensures
        result@ == node(name@, seq![command@]),
{
    let result = GclNode { name, commands: vec![command] };
    assert(result@.commands =~= seq![command@]);
    result
}

/// The node without commands.
pub(crate) fn empty_node(name: String) -> (result: GclNode)
    ensures
        result@ == node(name@, seq![]),
{
    let result = GclNode { name, commands: Vec::new() };
    assert(result@.commands =~= seq![]);
    result
}

} // verus!
