//! The translation of actions, control blocks and programs.

use either::Either;
use vstd::prelude::*;

use crate::gcl::{command_views, GclCommand, GclNodeRange, GclPredicate, NodeIndex};
use crate::graph::{GclGraph, GraphView};
use crate::growth::{
    lemma_action_extends, lemma_actions_grow, lemma_actions_steps, lemma_block_end,
    lemma_block_extends, lemma_block_step, lemma_control_grows, lemma_local_elements_prefix,
    lemma_program_grows, lemma_program_state_extends, lemma_program_steps, lemma_var_decl_extends,
};
use crate::ir::{
    IrActionDecl, IrControlDecl, IrControlLocalDecl, IrDeclaration, IrProgram, IrStatementOrDecl,
    IrType,
};
use crate::metadata::ProgramMetadata;
use crate::text::tag;
use crate::to_gcl::{assignment_command, command_node, empty_node, ToGcl};
use crate::to_gcl::statements::{absorb_element, block_view, finish_block};
use crate::translation::{
    action_gcl, actions_calls_known, actions_gcl, block_calls, block_gcl, block_state,
    control_calls_known, control_elements, control_gcl, decl_calls_known, has_switch_main,
    local_calls_known, local_elements, program_calls_known, program_gcl, program_state, refilled,
    renamed, ProgramState,
};

verus! {

/// Gives the node `index` another name.
fn rename_node(graph: &mut GclGraph, index: NodeIndex, name: &str)
    requires
        old(graph)@.has_node(index@),
    ensures
        final(graph)@ == renamed(old(graph)@, index@, name@),
{
    if let Some(node) = graph.node_weight_mut(index) {
        node.name = name.to_owned();
    }
}

/// Gives the node `index` other commands.
fn set_commands(graph: &mut GclGraph, index: NodeIndex, commands: Vec<GclCommand>)
    requires
        old(graph)@.has_node(index@),
    ensures
        final(graph)@ == refilled(old(graph)@, index@, command_views(commands@)),
{
    if let Some(node) = graph.node_weight_mut(index) {
        node.commands = commands;
    }
}

impl ToGcl for IrActionDecl {
    type Output = GclNodeRange;

    open spec fn translatable(&self, graph: GraphView, metadata: ProgramMetadata) -> bool {
        &&& graph.wf()
        &&& block_calls(self.body.0@, self.body.0@.len()).subset_of(graph.functions.dom())
        &&& action_gcl(*self, graph).graph.fits()
    }

    open spec fn translates(
        &self,
        before: GraphView,
        after: GraphView,
        output: GclNodeRange,
    ) -> bool {
        let part = action_gcl(*self, before);
        after == part.graph && output@ == part.range
    }

    fn to_gcl(&self, graph: &mut GclGraph, metadata: &ProgramMetadata) -> (output: GclNodeRange) {
        proof {
            lemma_action_extends(*self, graph@);
            lemma_block_extends(self.body.0@, graph@);
        }
        let body_range = self.body.to_gcl(graph, metadata);
        let start_node_idx = graph.add_node(
            command_node(
                tag("action__", self.id),
                assignment_command("ret".to_owned(), GclPredicate::Bool(true)),
            ),
        );
        graph.add_edge(start_node_idx, body_range.start, GclPredicate::default());

        // The action is registered as a function by the control block that declares it.
        proof {
            let part = action_gcl(*self, old(graph)@);
            assert(graph@.nodes =~= part.graph.nodes);
            assert(graph@.edges =~= part.graph.edges);
        }
        GclNodeRange { start: start_node_idx, end: body_range.end }
    }
}

impl IrControlDecl {
    /// Translates the actions among the local declarations, and registers each as a function.
    fn actions_to_gcl(&self, graph: &mut GclGraph, metadata: &ProgramMetadata)
        requires
            old(graph)@.wf(),
            actions_calls_known(self.local_decls@, old(graph)@.functions.dom()),
            actions_gcl(self.local_decls@, self.local_decls@.len(), old(graph)@).fits(),
        ensures
            final(graph)@ == actions_gcl(
                self.local_decls@,
                self.local_decls@.len(),
                old(graph)@,
            ),
    {
        let ghost g = graph@;
        let ghost decls = self.local_decls@;
        let mut i: usize = 0;
        while i < self.local_decls.len()
            invariant
                decls == self.local_decls@,
                i <= decls.len(),
                g.wf(),
                actions_calls_known(decls, g.functions.dom()),
                actions_gcl(decls, decls.len(), g).fits(),
                graph@ == actions_gcl(decls, i as nat, g),
            decreases decls.len() - i,
        {
            proof {
                lemma_actions_grow(decls, i as nat, g);
                lemma_actions_steps(decls, (i + 1) as nat, g);
                assert(local_calls_known(decls, i as int, g.functions.dom()));
            }
            if let IrControlLocalDecl::Action(action_decl) = &self.local_decls[i] {
                let action_range = action_decl.to_gcl(graph, metadata);
                graph.register_function(action_decl.id, action_range);
            }
            i = i + 1;
        }
    }
}

impl ToGcl for IrControlDecl {
    type Output = GclNodeRange;

    open spec fn translatable(&self, graph: GraphView, metadata: ProgramMetadata) -> bool {
        &&& graph.wf()
        &&& control_calls_known(*self, graph.functions.dom())
        &&& control_gcl(*self, graph).graph.fits()
    }

    open spec fn translates(
        &self,
        before: GraphView,
        after: GraphView,
        output: GclNodeRange,
    ) -> bool {
        let part = control_gcl(*self, before);
        after == part.graph && output@ == part.range
    }

    fn to_gcl(&self, graph: &mut GclGraph, metadata: &ProgramMetadata) -> (output: GclNodeRange) {
        let ghost decls = self.local_decls@;
        let ghost elements = control_elements(*self);
        let ghost g = actions_gcl(decls, decls.len(), graph@);
        proof {
            lemma_control_grows(*self, graph@);
            lemma_actions_grow(decls, decls.len(), graph@);
            lemma_block_extends(elements, g);
        }
        self.actions_to_gcl(graph, metadata);

        // The variables and instantiations among the local declarations come first.
        let mut current_commands: Vec<GclCommand> = Vec::new();
        let mut block_start_end: Option<GclNodeRange> = None;
        assert(command_views(current_commands@) =~= seq![]);
        let mut i: usize = 0;
        while i < self.local_decls.len()
            invariant
                decls == self.local_decls@,
                elements == control_elements(*self),
                i <= decls.len(),
                g.wf(),
                block_calls(elements, elements.len()).subset_of(g.functions.dom()),
                block_gcl(elements, g).graph.fits(),
                block_view(graph@, current_commands@, block_start_end) == block_state(
                    elements,
                    local_elements(decls, i as nat).len(),
                    g,
                ),
            decreases decls.len() - i,
        {
            let ghost k = local_elements(decls, i as nat).len();
            proof {
                lemma_local_elements_prefix(decls, (i + 1) as nat);
            }
            match &self.local_decls[i] {
                IrControlLocalDecl::Variable(var_decl) => {
                    proof {
                        assert(local_elements(decls, (i + 1) as nat)[k as int]
                            == IrStatementOrDecl::VariableDecl(*var_decl));
                        assert(elements[k as int] == IrStatementOrDecl::VariableDecl(*var_decl));
                        lemma_block_step(elements, k, g);
                    }
                    let range = var_decl.to_gcl(graph, metadata);
                    absorb_element(
                        &mut current_commands,
                        graph,
                        &mut block_start_end,
                        Either::Right(range),
                    );
                },
                IrControlLocalDecl::Instantiation(instantiation) => {
                    proof {
                        assert(local_elements(decls, (i + 1) as nat)[k as int]
                            == IrStatementOrDecl::Instantiation(*instantiation));
                        assert(elements[k as int] == IrStatementOrDecl::Instantiation(
                            *instantiation,
                        ));
                        lemma_block_step(elements, k, g);
                    }
                    let command = instantiation.to_gcl(graph, metadata);
                    absorb_element(
                        &mut current_commands,
                        graph,
                        &mut block_start_end,
                        Either::Left(command),
                    );
                },
                _ => {},
            }
            i = i + 1;
        }

        // The statements of the apply block follow.
        let ghost locals = local_elements(decls, decls.len());
        let body = &self.apply_body.0;
        let mut j: usize = 0;
        while j < body.len()
            invariant
                elements == locals + body@,
                j <= body@.len(),
                g.wf(),
                block_calls(elements, elements.len()).subset_of(g.functions.dom()),
                block_gcl(elements, g).graph.fits(),
                block_view(graph@, current_commands@, block_start_end) == block_state(
                    elements,
                    locals.len() + j as nat,
                    g,
                ),
            decreases body@.len() - j,
        {
            let ghost k = locals.len() + j as nat;
            proof {
                lemma_block_step(elements, k, g);
                assert(elements[k as int] == body@[j as int]);
            }
            let output = body[j].to_gcl(graph, metadata);
            absorb_element(&mut current_commands, graph, &mut block_start_end, output);
            j = j + 1;
        }

        proof {
            lemma_block_end(elements, g);
        }
        let block_range = finish_block(current_commands, graph, block_start_end);

        // Rename the start of the block.
        rename_node(graph, block_range.start, "control__todo");
        block_range
    }
}

impl IrProgram {
    /// Whether the last declaration of the program instantiates the package `V1Switch`.
    pub fn has_switch_main(&self, metadata: &ProgramMetadata) -> (result: bool)
        ensures
            result == has_switch_main(*self, *metadata),
            result <==> {
                &&& self.declarations@.len() > 0
                &&& self.declarations@.last() matches IrDeclaration::Instantiation(main)
                &&& main.ty matches IrType::Struct(ty)
                &&& metadata.type_names@.dom().contains(ty.id)
                &&& metadata.type_names@[ty.id]@ == "V1Switch"@
            },
    {
        broadcast use vstd::std_specs::hash::group_hash_axioms;

        let count = self.declarations.len();
        if count == 0 {
            return false;
        }
        match &self.declarations[count - 1] {
            IrDeclaration::Instantiation(main) => match &main.ty {
                IrType::Struct(ty) => match metadata.type_names.get(&ty.id) {
                    Some(name) => *name == "V1Switch".to_owned(),
                    None => false,
                },
                _ => false,
            },
            _ => false,
        }
    }

    /// Translates the declarations behind the start node. The commands of the instantiations
    /// and the first node of the last control block are returned.
    fn declarations_to_gcl(
        &self,
        graph: &mut GclGraph,
        metadata: &ProgramMetadata,
        start_idx: NodeIndex,
        Ghost(g): Ghost<GraphView>,
    ) -> (result: (Vec<GclCommand>, Option<NodeIndex>))
        requires
            g.wf(),
            old(graph)@ == ProgramState::start(g).graph,
            start_idx@ == g.nodes.len(),
            program_calls_known(*self, g.functions.dom()),
            program_state(self.declarations@, self.declarations@.len(), g).graph.fits(),
        ensures
            ({
                let state = program_state(self.declarations@, self.declarations@.len(), g);
                &&& final(graph)@ == state.graph
                &&& command_views(result.0@) == state.commands
                &&& result.1 is Some <==> state.control is Some
                &&& result.1 matches Some(idx) ==> state.control == Some(idx@)
            }),
    {
        let ghost decls = self.declarations@;
        let mut commands: Vec<GclCommand> = Vec::new();
        let mut end_idx = start_idx;
        let mut control_idx: Option<NodeIndex> = None;
        assert(command_views(commands@) =~= seq![]);

        let mut i: usize = 0;
        while i < self.declarations.len()
            invariant
                decls == self.declarations@,
                i <= decls.len(),
                g.wf(),
                program_calls_known(*self, g.functions.dom()),
                program_state(decls, decls.len(), g).graph.fits(),
                program_view(graph@, commands@, end_idx, control_idx) == program_state(
                    decls,
                    i as nat,
                    g,
                ),
            decreases decls.len() - i,
        {
            let ghost state = program_state(decls, i as nat, g);
            proof {
                lemma_program_state_extends(*self, i as nat, g);
                lemma_program_state_extends(*self, (i + 1) as nat, g);
                lemma_program_steps(*self, (i + 1) as nat, g);
                assert(decl_calls_known(decls, i as int, g.functions.dom()));
            }
            match &self.declarations[i] {
                IrDeclaration::Constant(const_decl) => {
                    // Add onto the node chain.
                    proof {
                        lemma_var_decl_extends(*const_decl, state.graph);
                    }
                    let range = const_decl.to_gcl(graph, metadata);
                    graph.add_edge(end_idx, range.start, GclPredicate::default());
                    end_idx = range.end;
                },
                IrDeclaration::Control(control) => {
                    // The nodes are added to the graph automatically.
                    let range = control.to_gcl(graph, metadata);
                    control_idx = Some(range.start);
                },
                IrDeclaration::Instantiation(instantiation) => {
                    let command = instantiation.to_gcl(graph, metadata);
                    commands.push(command);
                    assert(command_views(commands@) =~= state.commands.push(command@));
                },
            }
            i = i + 1;
        }
        (commands, control_idx)
    }
}

impl ToGcl for IrProgram {
    /// The starting node.
    type Output = NodeIndex;

    open spec fn translatable(&self, graph: GraphView, metadata: ProgramMetadata) -> bool {
        &&& graph.wf()
        &&& has_switch_main(*self, metadata)
        &&& program_calls_known(*self, graph.functions.dom())
        &&& program_gcl(*self, graph).fits()
    }

    open spec fn translates(
        &self,
        before: GraphView,
        after: GraphView,
        output: NodeIndex,
    ) -> bool {
        after == program_gcl(*self, before) && output@ == before.nodes.len()
    }

    fn to_gcl(&self, graph: &mut GclGraph, metadata: &ProgramMetadata) -> (output: NodeIndex) {
        let ghost g = graph@;
        let ghost decls = self.declarations@;
        proof {
            lemma_program_grows(*self, g);
            lemma_program_state_extends(*self, decls.len(), g);
            lemma_program_steps(*self, 0, g);
        }
        let start_idx = graph.add_node(empty_node("start".to_owned()));
        let (commands, control_idx) = self.declarations_to_gcl(
            graph,
            metadata,
            start_idx,
            Ghost(g),
        );
        set_commands(graph, start_idx, commands);

        // Enter the last control block from the start.
        if let Some(idx) = control_idx {
            graph.add_edge(start_idx, idx, GclPredicate::default());
        }
        start_idx
    }
}

/// A program of which some declarations have been translated.
pub open spec fn program_view(
    graph: GraphView,
    commands: Seq<GclCommand>,
    end: NodeIndex,
    control: Option<NodeIndex>,
) -> ProgramState {
    ProgramState {
        graph,
        commands: command_views(commands),
        end: end@,
        control: match control {
            Some(index) => Some(index@),
            None => None,
        },
    }
}

} // verus!
