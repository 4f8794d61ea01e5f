//! The translation of statements and blocks.

use either::Either;
use vstd::prelude::*;

use crate::gcl::{
    command_views, CommandView, GclCommand, GclNode, GclNodeRange, GclPredicate, NodeIndex,
    RangeView,
};
use crate::graph::{GclGraph, GraphView};
use crate::growth::{
    lemma_append_extends, lemma_assignment_extends, lemma_block_end, lemma_block_step,
    lemma_expr_extends, lemma_flush_wf, lemma_grow_wf, lemma_if_extends, lemma_if_steps,
    lemma_var_decl_extends,
};
use crate::ir::{
    IrAssignment, IrBlockStatement, IrIfStatement, IrInstantiation, IrStatement, IrStatementOrDecl,
    IrVariableDecl,
};
use crate::metadata::ProgramMetadata;
use crate::text::tag;
use crate::to_gcl::{assignment_command, empty_node, ToGcl};
use crate::to_gcl::expressions::make_assert_node;
use crate::translation::{
    always, assign, assign_bool, assignment_gcl, block_calls, block_gcl, block_state, branch_edges,
    element_calls, element_gcl, expr_calls, expr_gcl, has_value_var, if_calls, if_end_gcl, if_gcl,
    instantiation_gcl, node, statement_calls, statement_gcl, value_var, var_decl_calls,
    var_decl_commands, var_decl_gcl, BlockState, Part,
};

verus! {

impl ToGcl for IrInstantiation {
    type Output = GclCommand;

    open spec fn translatable(&self, graph: GraphView, metadata: ProgramMetadata) -> bool {
        true
    }

    open spec fn translates(
        &self,
        before: GraphView,
        after: GraphView,
        output: GclCommand,
    ) -> bool {
        after == before && output@ == instantiation_gcl(*self)
    }

    fn to_gcl(&self, graph: &mut GclGraph, metadata: &ProgramMetadata) -> (output: GclCommand) {
        assignment_command(tag("has_value__", self.id), GclPredicate::Bool(true))
    }
}

impl ToGcl for IrVariableDecl {
    type Output = GclNodeRange;

    open spec fn translatable(&self, graph: GraphView, metadata: ProgramMetadata) -> bool {
        &&& graph.wf()
        &&& var_decl_calls(*self).subset_of(graph.functions.dom())
        &&& var_decl_gcl(*self, graph).graph.fits()
    }

    open spec fn translates(
        &self,
        before: GraphView,
        after: GraphView,
        output: GclNodeRange,
    ) -> bool {
        let part = var_decl_gcl(*self, before);
        after == part.graph && output@ == part.range
    }

    fn to_gcl(&self, graph: &mut GclGraph, metadata: &ProgramMetadata) -> (output: GclNodeRange) {
        proof {
            lemma_var_decl_extends(*self, graph@);
            let named = graph@.grow(seq![], seq![], 1);
            lemma_grow_wf(graph@, seq![], seq![], 1);
            if let Some(value) = &self.value {
                lemma_expr_extends(*value, named);
            }
        }
        let mut commands: Vec<GclCommand> = vec![
            assignment_command(
                tag("has_value__", self.id),
                GclPredicate::Bool(self.value.is_some()),
            ),
        ];
        let name = graph.create_name(tag("var_decl__", self.id).as_str());

        if !self.is_const {
            commands.push(
                assignment_command(tag("declared_var__", self.id), GclPredicate::Bool(true)),
            );
        }
        match &self.value {
            Some(value) => {
                let (pred, expr_range) = value.to_gcl(graph, metadata);
                let ghost value_pred = pred@;
                commands.push(assignment_command(tag("var__", self.id), pred));
                assert(command_views(commands@) =~= var_decl_commands(*self, Some(value_pred)));

                let node_idx = graph.add_node(GclNode { name, commands });
                graph.add_edge(expr_range.end, node_idx, GclPredicate::default());

                proof {
                    let part = var_decl_gcl(*self, old(graph)@);
                    assert(graph@.nodes =~= part.graph.nodes);
                    assert(graph@.edges =~= part.graph.edges);
                }
                GclNodeRange { start: expr_range.start, end: node_idx }
            },
            None => {
                assert(command_views(commands@) =~= var_decl_commands(*self, None));
                let node_idx = graph.add_node(GclNode { name, commands });

                proof {
                    let part = var_decl_gcl(*self, old(graph)@);
                    assert(graph@.nodes =~= part.graph.nodes);
                    assert(graph@.edges =~= part.graph.edges);
                }
                GclNodeRange { start: node_idx, end: node_idx }
            },
        }
    }
}

impl ToGcl for IrAssignment {
    type Output = GclNodeRange;

    open spec fn translatable(&self, graph: GraphView, metadata: ProgramMetadata) -> bool {
        &&& graph.wf()
        &&& expr_calls(self.value).subset_of(graph.functions.dom())
        &&& assignment_gcl(*self, graph).graph.fits()
    }

    open spec fn translates(
        &self,
        before: GraphView,
        after: GraphView,
        output: GclNodeRange,
    ) -> bool {
        let part = assignment_gcl(*self, before);
        after == part.graph && output@ == part.range
    }

    fn to_gcl(&self, graph: &mut GclGraph, metadata: &ProgramMetadata) -> (output: GclNodeRange) {
        proof {
            lemma_assignment_extends(*self, graph@);
            lemma_expr_extends(self.value, graph@);
        }
        let (pred, expr_range) = self.value.to_gcl(graph, metadata);
        let ghost part = expr_gcl(self.value, old(graph)@);
        let name = graph.create_name(tag("assignment__", self.var).as_str());
        let commands = vec![
            assignment_command(tag("has_value__", self.var), GclPredicate::Bool(true)),
            assignment_command(tag("var__", self.var), pred),
        ];
        assert(command_views(commands@) =~= seq![
            assign_bool(has_value_var(self.var), true),
            assign(value_var(self.var), part.pred),
        ]);
        let node_idx = graph.add_node(GclNode { name, commands });
        graph.add_edge(expr_range.end, node_idx, GclPredicate::default());

        proof {
            let added = graph@.nodes[part.graph.nodes.len() as int];
            let assigned = part.graph.grow(
                seq![added],
                seq![always(part.range.end, part.graph.nodes.len() as int)],
                1,
            );
            lemma_append_extends(
                old(graph)@,
                Part { graph: part.graph, range: part.range },
                added,
                1,
            );
            assert(graph@.nodes =~= assigned.nodes);
            assert(graph@.edges =~= assigned.edges);
        }
        let assert_node_idx = make_assert_node(
            graph,
            GclPredicate::Var(tag("declared_var__", self.var)),
            expr_range.start,
        );
        GclNodeRange { start: assert_node_idx, end: node_idx }
    }
}

/// What an optional range stands for.
pub open spec fn range_view(range: Option<GclNodeRange>) -> Option<RangeView> {
    match range {
        Some(found) => Some(found@),
        None => None,
    }
}

/// A block of which some elements have been translated: the graph, the commands that no node
/// holds yet, and the nodes so far.
pub open spec fn block_view(
    graph: GraphView,
    current_commands: Seq<GclCommand>,
    block_start_end: Option<GclNodeRange>,
) -> BlockState {
    BlockState {
        graph,
        pending: command_views(current_commands),
        range: range_view(block_start_end),
    }
}

/// Hooks up `next` to the end of the node chain.
fn chain_range(
    graph: &mut GclGraph,
    block_start_end: &mut Option<GclNodeRange>,
    next: GclNodeRange,
)
    requires
        old(graph)@.wf(),
        old(graph)@.has_range(next@),
        *old(block_start_end) matches Some(range) ==> old(graph)@.has_range(range@),
        block_view(old(graph)@, seq![], *old(block_start_end)).chain(next@).graph.fits(),
    ensures
        block_view(final(graph)@, seq![], *final(block_start_end)) == block_view(
            old(graph)@,
            seq![],
            *old(block_start_end),
        ).chain(next@),
{
    match *block_start_end {
        Some(range) => {
            graph.add_edge(range.end, next.start, GclPredicate::default());
            *block_start_end = Some(GclNodeRange { start: range.start, end: next.end });
        },
        None => {
            *block_start_end = Some(next);
        },
    }
}

/// Makes a node from the commands and hooks it up to the end of the node chain.
fn create_node_from_commands(
    current_commands: &mut Vec<GclCommand>,
    graph: &mut GclGraph,
    block_start_end: &mut Option<GclNodeRange>,
)
    requires
        old(graph)@.wf(),
        *old(block_start_end) matches Some(range) ==> old(graph)@.has_range(range@),
        block_view(old(graph)@, old(current_commands)@, *old(block_start_end)).flush().graph.fits(),
    ensures
        block_view(final(graph)@, final(current_commands)@, *final(block_start_end))
            == block_view(
            old(graph)@,
            old(current_commands)@,
            *old(block_start_end),
        ).flush(),
{
    let ghost state = block_view(graph@, current_commands@, *block_start_end);
    let name = graph.create_name("block_stmt_body");
    let mut commands: Vec<GclCommand> = Vec::new();
    std::mem::swap(current_commands, &mut commands);
    let node_idx = graph.add_node(GclNode { name, commands });
    proof {
        let added = seq![node(state.graph.fresh("block_stmt_body"@, 0), state.pending)];
        assert(graph@.nodes =~= state.graph.grow(added, seq![], 1).nodes);
        assert(graph@.edges =~= state.graph.grow(added, seq![], 1).edges);
        lemma_grow_wf(state.graph, added, seq![], 1);
        assert(command_views(current_commands@) =~= seq![]);
    }
    chain_range(graph, block_start_end, GclNodeRange { start: node_idx, end: node_idx });
}

/// What the translation of an element stands for.
pub open spec fn element_view(
    output: Either<GclCommand, GclNodeRange>,
) -> Either<CommandView, RangeView> {
    match output {
        Either::Left(command) => Either::Left(command@),
        Either::Right(range) => Either::Right(range@),
    }
}

/// Takes up one more element of a block, which is in the graph already.
pub(crate) fn absorb_element(
    current_commands: &mut Vec<GclCommand>,
    graph: &mut GclGraph,
    block_start_end: &mut Option<GclNodeRange>,
    output: Either<GclCommand, GclNodeRange>,
)
    requires
        old(graph)@.wf(),
        output matches Either::Right(range) ==> old(graph)@.has_range(range@),
        *old(block_start_end) matches Some(range) ==> old(graph)@.has_range(range@),
        block_view(old(graph)@, old(current_commands)@, *old(block_start_end)).absorb(
            element_view(output),
        ).graph.fits(),
    ensures
        block_view(final(graph)@, final(current_commands)@, *final(block_start_end))
            == block_view(
            old(graph)@,
            old(current_commands)@,
            *old(block_start_end),
        ).absorb(element_view(output)),
{
    let ghost state = block_view(graph@, current_commands@, *block_start_end);
    reveal(BlockState::absorb);
    match output {
        Either::Left(command) => {
            current_commands.push(command);
            assert(command_views(current_commands@) =~= state.pending.push(command@));
        },
        Either::Right(range) => {
            if current_commands.len() != 0 {
                proof {
                    lemma_flush_wf(state);
                }
                create_node_from_commands(current_commands, graph, block_start_end);
            }
            chain_range(graph, block_start_end, range);
        },
    }
}

/// Adds any trailing commands to the graph, and makes sure that the block has at least one
/// node.
pub(crate) fn finish_block(
    mut current_commands: Vec<GclCommand>,
    graph: &mut GclGraph,
    mut block_start_end: Option<GclNodeRange>,
) -> (range: GclNodeRange)
    requires
        old(graph)@.wf(),
        block_start_end matches Some(range) ==> old(graph)@.has_range(range@),
        block_view(old(graph)@, current_commands@, block_start_end).finish().graph.fits(),
    ensures
        ({
            let state = block_view(old(graph)@, current_commands@, block_start_end).finish();
            final(graph)@ == state.graph && state.range == Some(range@)
        }),
{
    reveal(BlockState::finish);
    if current_commands.len() != 0 || block_start_end.is_none() {
        create_node_from_commands(&mut current_commands, graph, &mut block_start_end);
    }
    block_start_end.unwrap()
}

/// Connects the condition to the then and else branches, and the branches to the end node.
fn connect_branches(
    graph: &mut GclGraph,
    pred: GclPredicate,
    cond_range: GclNodeRange,
    then_range: GclNodeRange,
    else_range: Option<GclNodeRange>,
    end_node_idx: NodeIndex,
)
    requires
        old(graph)@.has_node(end_node_idx@),
        old(graph)@.has_range(cond_range@),
        old(graph)@.has_range(then_range@),
        else_range matches Some(range) ==> old(graph)@.has_range(range@),
        old(graph)@.edges.len() + branch_edges(
            cond_range@,
            pred@,
            then_range@,
            range_view(else_range),
            end_node_idx@,
        ).len() <= u32::MAX,
    ensures
        final(graph)@ == old(graph)@.grow(
            seq![],
            branch_edges(
                cond_range@,
                pred@,
                then_range@,
                range_view(else_range),
                end_node_idx@,
            ),
            0,
        ),
{
    let negated_pred = GclPredicate::Negation(Box::new(pred.clone()));
    let else_node_idx = match else_range {
        Some(range) => range.start,
        None => end_node_idx,
    };
    graph.add_edge(cond_range.end, then_range.start, pred);
    graph.add_edge(cond_range.end, else_node_idx, negated_pred);
    graph.add_edge(then_range.end, end_node_idx, GclPredicate::default());
    if let Some(range) = else_range {
        graph.add_edge(range.end, end_node_idx, GclPredicate::default());
    }
    proof {
        let edges = branch_edges(
            cond_range@,
            pred@,
            then_range@,
            range_view(else_range),
            end_node_idx@,
        );
        assert(graph@.nodes =~= old(graph)@.nodes + seq![]);
        assert(graph@.edges =~= old(graph)@.edges + edges);
    }
}

impl ToGcl for IrIfStatement {
    type Output = GclNodeRange;

    open spec fn translatable(&self, graph: GraphView, metadata: ProgramMetadata) -> bool {
        &&& graph.wf()
        &&& if_calls(*self).subset_of(graph.functions.dom())
        &&& if_gcl(*self, graph).graph.fits()
    }

    open spec fn translates(
        &self,
        before: GraphView,
        after: GraphView,
        output: GclNodeRange,
    ) -> bool {
        let part = if_gcl(*self, before);
        after == part.graph && output@ == part.range
    }

    fn to_gcl(&self, graph: &mut GclGraph, metadata: &ProgramMetadata) -> (output: GclNodeRange)
        decreases self,
    {
        proof {
            lemma_if_extends(*self, graph@);
            lemma_if_steps(*self, graph@);
        }
        // The end node comes first so that its index is known.
        let end_name = graph.create_name("if_end");
        let end_node_idx = graph.add_node(empty_node(end_name));
        proof {
            assert(graph@.nodes =~= if_end_gcl(old(graph)@).nodes);
            assert(graph@.edges =~= if_end_gcl(old(graph)@).edges);
        }

        // The condition and the branches.
        let (pred, cond_range) = self.condition.to_gcl(graph, metadata);
        let then_range = self.then_case.to_gcl(graph, metadata);
        let else_range = match &self.else_case {
            Some(else_case) => Some(else_case.to_gcl(graph, metadata)),
            None => None,
        };

        connect_branches(graph, pred, cond_range, then_range, else_range, end_node_idx);
        GclNodeRange { start: cond_range.start, end: end_node_idx }
    }
}

impl ToGcl for IrStatement {
    type Output = GclNodeRange;

    open spec fn translatable(&self, graph: GraphView, metadata: ProgramMetadata) -> bool {
        &&& graph.wf()
        &&& statement_calls(*self).subset_of(graph.functions.dom())
        &&& statement_gcl(*self, graph).graph.fits()
    }

    open spec fn translates(
        &self,
        before: GraphView,
        after: GraphView,
        output: GclNodeRange,
    ) -> bool {
        let part = statement_gcl(*self, before);
        after == part.graph && output@ == part.range
    }

    fn to_gcl(&self, graph: &mut GclGraph, metadata: &ProgramMetadata) -> (output: GclNodeRange)
        decreases self,
    {
        match self {
            IrStatement::Block(block) => block.to_gcl(graph, metadata),
            IrStatement::If(if_statement) => if_statement.to_gcl(graph, metadata),
            IrStatement::Assignment(assignment) => assignment.to_gcl(graph, metadata),
            IrStatement::FunctionCall(func_call) => {
                assert(statement_calls(*self).contains(func_call.target));
                func_call.to_gcl(graph, metadata)
            },
        }
    }
}

impl ToGcl for IrStatementOrDecl {
    type Output = Either<GclCommand, GclNodeRange>;

    open spec fn translatable(&self, graph: GraphView, metadata: ProgramMetadata) -> bool {
        &&& graph.wf()
        &&& element_calls(*self).subset_of(graph.functions.dom())
        &&& element_gcl(*self, graph).0.fits()
    }

    open spec fn translates(
        &self,
        before: GraphView,
        after: GraphView,
        output: Either<GclCommand, GclNodeRange>,
    ) -> bool {
        let (graph, element) = element_gcl(*self, before);
        after == graph && element_view(output) == element
    }

    fn to_gcl(&self, graph: &mut GclGraph, metadata: &ProgramMetadata) -> (output: Either<
        GclCommand,
        GclNodeRange,
    >)
        decreases self,
    {
        match self {
            IrStatementOrDecl::Statement(statement) => Either::Right(
                statement.to_gcl(graph, metadata),
            ),
            IrStatementOrDecl::VariableDecl(var_decl) => Either::Right(
                var_decl.to_gcl(graph, metadata),
            ),
            IrStatementOrDecl::Instantiation(instantiation) => Either::Left(
                instantiation.to_gcl(graph, metadata),
            ),
        }
    }
}

impl ToGcl for IrBlockStatement {
    type Output = GclNodeRange;

    open spec fn translatable(&self, graph: GraphView, metadata: ProgramMetadata) -> bool {
        &&& graph.wf()
        &&& block_calls(self.0@, self.0@.len()).subset_of(graph.functions.dom())
        &&& block_gcl(self.0@, graph).graph.fits()
    }

    open spec fn translates(
        &self,
        before: GraphView,
        after: GraphView,
        output: GclNodeRange,
    ) -> bool {
        let part = block_gcl(self.0@, before);
        after == part.graph && output@ == part.range
    }

    fn to_gcl(&self, graph: &mut GclGraph, metadata: &ProgramMetadata) -> (output: GclNodeRange)
        decreases self,
    {
        let ghost g = graph@;
        let ghost elements = self.0@;
        let mut current_commands: Vec<GclCommand> = Vec::new();
        let mut block_start_end: Option<GclNodeRange> = None;
        assert(command_views(current_commands@) =~= seq![]);

        // Expand each statement and collect all of the nodes (e.g. from if statements) and
        // simple commands (e.g. instantiations).
        let mut i: usize = 0;
        while i < self.0.len()
            invariant
                elements == self.0@,
                i <= elements.len(),
                g.wf(),
                block_calls(elements, elements.len()).subset_of(g.functions.dom()),
                block_gcl(elements, g).graph.fits(),
                block_view(graph@, current_commands@, block_start_end) == block_state(
                    elements,
                    i as nat,
                    g,
                ),
            decreases elements.len() - i,
        {
            proof {
                lemma_block_step(elements, i as nat, g);
            }
            let output = self.0[i].to_gcl(graph, metadata);
            absorb_element(&mut current_commands, graph, &mut block_start_end, output);
            i = i + 1;
        }

        proof {
            lemma_block_end(elements, g);
        }
        finish_block(current_commands, graph, block_start_end)
    }
}

} // verus!
