//! The translation of expressions.

use vstd::prelude::*;

use crate::gcl::{GclCommand, GclNodeRange, GclPredicate, NodeIndex, PredicateView};
use crate::graph::{GclGraph, GraphView};
use crate::growth::{lemma_call_extends, lemma_expr_extends, lemma_short_circuit_extends};
use crate::ir::{IrExpr, IrExprData, IrFunctionCall};
use crate::metadata::ProgramMetadata;
use crate::text::tag;
use crate::to_gcl::{assignment_command, command_node, empty_node, ToGcl};
use crate::translation::{
    assert_gcl, call_gcl, expr_calls, expr_gcl, return_target_var, short_circuit_gcl,
    single_assignment_gcl,
};

verus! {

/// Creates an assertion node which, when the predicate is true, jumps to `next_node`,
/// otherwise jumps to a new "bug" node.
pub(crate) fn make_assert_node(
    graph: &mut GclGraph,
    predicate: GclPredicate,
    next_node: NodeIndex,
) -> (index: NodeIndex)
    requires
        old(graph)@.has_node(next_node@),
        assert_gcl(predicate@, next_node@, old(graph)@).fits(),
    ensures
        final(graph)@ == assert_gcl(predicate@, next_node@, old(graph)@),
        index@ == old(graph)@.nodes.len() + 1,
{
    let bug_name = graph.create_name("bug");
    let bug_node_idx = graph.add_node(command_node(bug_name, GclCommand::Bug));

    let assert_name = graph.create_name("assert");
    let assert_node_idx = graph.add_node(empty_node(assert_name));

    graph.add_edge(assert_node_idx, next_node, predicate.clone());
    graph.add_edge(assert_node_idx, bug_node_idx, GclPredicate::Negation(Box::new(predicate)));

    proof {
        let result = assert_gcl(predicate@, next_node@, old(graph)@);
        assert(graph@.nodes =~= result.nodes);
        assert(graph@.edges =~= result.edges);
    }
    assert_node_idx
}

impl ToGcl for IrFunctionCall {
    type Output = GclNodeRange;

    open spec fn translatable(&self, graph: GraphView, metadata: ProgramMetadata) -> bool {
        &&& graph.wf()
        &&& graph.functions.dom().contains(self.target)
        &&& call_gcl(*self, graph).graph.fits()
    }

    open spec fn translates(
        &self,
        before: GraphView,
        after: GraphView,
        output: GclNodeRange,
    ) -> bool {
        let part = call_gcl(*self, before);
        after == part.graph && output@ == part.range
    }

    fn to_gcl(&self, graph: &mut GclGraph, metadata: &ProgramMetadata) -> (output: GclNodeRange) {
        proof {
            lemma_call_extends(*self, graph@);
            reveal(GraphView::wf);
            assert(graph@.has_range(graph@.functions[self.target]));
        }
        let function_range = graph.get_function(self.target).unwrap();

        let start_name = graph.create_name("func_call_start");
        let end_name = graph.create_name("func_call_end");
        let ret_target_var = tag("func_ret_target__", self.target);
        let start_idx = graph.add_node(
            command_node(
                start_name,
                assignment_command(ret_target_var.clone(), GclPredicate::String(end_name.clone())),
            ),
        );
        let end_idx = graph.add_node(empty_node(end_name.clone()));

        let noted = GclPredicate::StringVar(ret_target_var);
        let wanted = GclPredicate::String(end_name);
        assert(noted@ == PredicateView::StringVar(return_target_var(self.target)));
        assert(wanted@ == PredicateView::String(end_name@));

        graph.add_edge(start_idx, function_range.start, GclPredicate::default());
        graph.add_edge(
            function_range.end,
            end_idx,
            GclPredicate::Equality(Box::new(noted), Box::new(wanted)),
        );

        proof {
            let part = call_gcl(*self, old(graph)@);
            assert(graph@.nodes =~= part.graph.nodes);
            assert(graph@.edges =~= part.graph.edges);
        }
        GclNodeRange { start: start_idx, end: end_idx }
    }
}

/// How many operators and operands an expression has.
pub open spec fn expr_size(expr: IrExpr) -> nat
    decreases expr,
{
    match expr.data {
        IrExprData::And(left, right) => 1 + expr_size(*left) + expr_size(*right),
        IrExprData::Or(left, right) => 1 + expr_size(*left) + expr_size(*right),
        IrExprData::Negation(inner) => 1 + expr_size(*inner),
        _ => 1,
    }
}

impl ToGcl for IrExpr {
    /// The predicate which holds the boolean value of the expression, plus the nodes that
    /// calculate the predicate.
    type Output = (GclPredicate, GclNodeRange);

    open spec fn translatable(&self, graph: GraphView, metadata: ProgramMetadata) -> bool {
        &&& graph.wf()
        &&& expr_calls(*self).subset_of(graph.functions.dom())
        &&& expr_gcl(*self, graph).graph.fits()
    }

    open spec fn translates(
        &self,
        before: GraphView,
        after: GraphView,
        output: (GclPredicate, GclNodeRange),
    ) -> bool {
        let part = expr_gcl(*self, before);
        after == part.graph && output.0@ == part.pred && output.1@ == part.range
    }

    fn to_gcl(&self, graph: &mut GclGraph, metadata: &ProgramMetadata) -> (output: (
        GclPredicate,
        GclNodeRange,
    ))
        decreases expr_size(*self),
    {
        proof {
            lemma_expr_extends(*self, graph@);
        }
        match &self.data {
            IrExprData::Bool(b) => {
                let (name, node_idx) = Self::single_assignment_node(graph, GclPredicate::Bool(*b));
                (GclPredicate::Var(name), GclNodeRange { start: node_idx, end: node_idx })
            },
            IrExprData::Var(id) => {
                let (expr_name, node_idx) = Self::single_assignment_node(
                    graph,
                    GclPredicate::Var(tag("var__", *id)),
                );
                let assert_idx = make_assert_node(
                    graph,
                    GclPredicate::Var(tag("has_value__", *id)),
                    node_idx,
                );
                (
                    GclPredicate::Var(expr_name),
                    GclNodeRange { start: assert_idx, end: node_idx },
                )
            },
            IrExprData::And(left, right) => Self::short_circuit_logic(
                graph,
                metadata,
                left,
                right,
                true,
            ),
            IrExprData::Or(left, right) => Self::short_circuit_logic(
                graph,
                metadata,
                left,
                right,
                false,
            ),
            IrExprData::Negation(inner) => {
                proof {
                    lemma_expr_extends(**inner, graph@);
                }
                let (inner_pred, inner_range) = inner.to_gcl(graph, metadata);
                let name = graph.create_name("expr");
                let node_idx = graph.add_node(
                    command_node(
                        name.clone(),
                        assignment_command(
                            name.clone(),
                            GclPredicate::Negation(Box::new(inner_pred)),
                        ),
                    ),
                );
                graph.add_edge(inner_range.end, node_idx, GclPredicate::default());
                proof {
                    assert(graph@.nodes =~= expr_gcl(*self, old(graph)@).graph.nodes);
                    assert(graph@.edges =~= expr_gcl(*self, old(graph)@).graph.edges);
                }
                (
                    GclPredicate::Var(name),
                    GclNodeRange { start: inner_range.start, end: node_idx },
                )
            },
            IrExprData::FunctionCall(func_call) => {
                proof {
                    assert(expr_calls(*self).contains(func_call.target));
                    lemma_call_extends(*func_call, graph@);
                }
                let func_range = func_call.to_gcl(graph, metadata);
                let name = graph.create_name("expr");
                let node_name = graph.create_name("expr_func");
                let node_idx = graph.add_node(
                    command_node(
                        node_name,
                        assignment_command(name.clone(), GclPredicate::Var("ret".to_owned())),
                    ),
                );
                graph.add_edge(func_range.end, node_idx, GclPredicate::default());
                proof {
                    assert(graph@.nodes =~= expr_gcl(*self, old(graph)@).graph.nodes);
                    assert(graph@.edges =~= expr_gcl(*self, old(graph)@).graph.edges);
                }
                (
                    GclPredicate::Var(name),
                    GclNodeRange { start: func_range.start, end: node_idx },
                )
            },
        }
    }
}

impl IrExpr {
    /// Creates a node which just assigns a predicate to a variable.
    fn single_assignment_node(graph: &mut GclGraph, value: GclPredicate) -> (result: (
        String,
        NodeIndex,
    ))
        requires
            single_assignment_gcl(value@, old(graph)@).fits(),
        ensures
            final(graph)@ == single_assignment_gcl(value@, old(graph)@),
            result.0@ == old(graph)@.fresh("expr"@, 0),
            result.1@ == old(graph)@.nodes.len(),
    {
        let name = graph.create_name("expr");
        let node_idx = graph.add_node(
            command_node(name.clone(), assignment_command(name.clone(), value)),
        );
        proof {
            let result = single_assignment_gcl(value@, old(graph)@);
            assert(graph@.nodes =~= result.nodes);
            assert(graph@.edges =~= result.edges);
        }
        (name, node_idx)
    }

    /// The logic for short-circuiting && (`is_add`) and || is very similar, so the
    /// implementations are generalized by this function.
    pub fn short_circuit_logic(
        graph: &mut GclGraph,
        metadata: &ProgramMetadata,
        left: &IrExpr,
        right: &IrExpr,
        is_add: bool,
    ) -> (output: (GclPredicate, GclNodeRange))
        requires
            old(graph)@.wf(),
            expr_calls(*left).subset_of(old(graph)@.functions.dom()),
            expr_calls(*right).subset_of(old(graph)@.functions.dom()),
            ({
                let left_part = expr_gcl(*left, old(graph)@);
                let right_part = expr_gcl(*right, left_part.graph);
                short_circuit_gcl(left_part, right_part, is_add).graph.fits()
            }),
        ensures
            final(graph)@.wf(),
            ({
                let left_part = expr_gcl(*left, old(graph)@);
                let right_part = expr_gcl(*right, left_part.graph);
                let part = short_circuit_gcl(left_part, right_part, is_add);
                final(graph)@ == part.graph && output.0@ == part.pred && output.1@ == part.range
            }),
        decreases expr_size(*left) + expr_size(*right),
    {
        let ghost left_part = expr_gcl(*left, graph@);
        let ghost right_part = expr_gcl(*right, left_part.graph);
        proof {
            lemma_expr_extends(*left, graph@);
            lemma_expr_extends(*right, left_part.graph);
            lemma_short_circuit_extends(graph@, left_part, right_part, is_add);
        }
        let (left_pred, left_range) = left.to_gcl(graph, metadata);
        let (right_pred, right_range) = right.to_gcl(graph, metadata);
        let name = graph.create_name("expr");
        let true_name = graph.create_name(
            if is_add {
                "add_expr_true"
            } else {
                "or_expr_true"
            },
        );
        let false_name = graph.create_name(
            if is_add {
                "add_expr_false"
            } else {
                "or_expr_false"
            },
        );
        let end_name = graph.create_name(
            if is_add {
                "add_expr_end"
            } else {
                "or_expr_end"
            },
        );

        let true_node_idx = graph.add_node(
            command_node(true_name, assignment_command(name.clone(), GclPredicate::Bool(true))),
        );
        let false_node_idx = graph.add_node(
            command_node(false_name, assignment_command(name.clone(), GclPredicate::Bool(false))),
        );
        let end_node_idx = graph.add_node(empty_node(end_name));
        let left_pred_negated = GclPredicate::Negation(Box::new(left_pred.clone()));
        let right_pred_negated = GclPredicate::Negation(Box::new(right_pred.clone()));

        let (left_to_right, left_to_set) = if is_add {
            (left_pred, left_pred_negated)
        } else {
            (left_pred_negated, left_pred)
        };

        graph.add_edge(left_range.end, right_range.start, left_to_right);
        graph.add_edge(
            left_range.end,
            if is_add {
                false_node_idx
            } else {
                true_node_idx
            },
            left_to_set,
        );
        graph.add_edge(right_range.end, true_node_idx, right_pred);
        graph.add_edge(right_range.end, false_node_idx, right_pred_negated);
        graph.add_edge(true_node_idx, end_node_idx, GclPredicate::default());
        graph.add_edge(false_node_idx, end_node_idx, GclPredicate::default());

        proof {
            let part = short_circuit_gcl(left_part, right_part, is_add);
            assert(graph@.nodes =~= part.graph.nodes);
            assert(graph@.edges =~= part.graph.edges);
        }
        (GclPredicate::Var(name), GclNodeRange { start: left_range.start, end: end_node_idx })
    }
}

} // verus!
