//! The `petgraph` graph that holds the nodes and edges.

use petgraph::graph::Graph;
use petgraph::Directed;
use vstd::prelude::*;

use crate::gcl::{EdgeView, GclNode, GclPredicate, NodeIndex, NodeView};

verus! {

/// `petgraph::graph::Graph`, opaque to the proofs.
#[verifier::external_type_specification]
#[verifier::external_body]
#[verifier::reject_recursive_types(N)]
#[verifier::reject_recursive_types(E)]
#[verifier::reject_recursive_types(Ty)]
#[verifier::reject_recursive_types(Ix)]
pub struct ExGraph<N, E, Ty, Ix>(Graph<N, E, Ty, Ix>);

/// `petgraph::Directed`, the mark of a directed graph.
#[verifier::external_type_specification]
#[verifier::external_body]
pub struct ExDirected(Directed);

/// A directed graph of nodes and guarded edges.
pub type Store = Graph<GclNode, GclPredicate, Directed, u32>;

/// The weights of the graph's nodes, in the order of their indices.
pub uninterp spec fn stored_nodes(store: Store) -> Seq<GclNode>;

/// The source, the target and the weight of each of the graph's edges, in the order of their
/// indices.
pub uninterp spec fn stored_edges(store: Store) -> Seq<(u32, u32, GclPredicate)>;

/// What `nodes` stand for.
pub open spec fn all_node_views(nodes: Seq<GclNode>) -> Seq<NodeView> {
    nodes.map_values(|node: GclNode| node@)
}

/// What the graph's nodes stand for.
pub open spec fn node_views(store: Store) -> Seq<NodeView> {
    all_node_views(stored_nodes(store))
}

/// What the graph's edges stand for.
pub open spec fn edge_views(store: Store) -> Seq<EdgeView> {
    stored_edges(store).map_values(
        |edge: (u32, u32, GclPredicate)|
            EdgeView { from: edge.0 as int, to: edge.1 as int, pred: edge.2@ },
    )
}

/// What a graph's nodes and edges stand for has the same places, and a node or an edge stands for
/// what it holds.
pub proof fn lemma_stored_views(store: Store)
    ensures
        node_views(store).len() == stored_nodes(store).len(),
        edge_views(store).len() == stored_edges(store).len(),
        forall|i: int|
            0 <= i < stored_nodes(store).len() ==> #[trigger] node_views(store)[i]
                == stored_nodes(store)[i]@,
        forall|i: int|
            0 <= i < stored_edges(store).len() ==> {
                &&& (#[trigger] edge_views(store)[i]).from == stored_edges(store)[i].0
                &&& edge_views(store)[i].to == stored_edges(store)[i].1
                &&& edge_views(store)[i].pred == stored_edges(store)[i].2@
            },
{
}

/// `Graph::new`: the graph without nodes and edges.
#[verifier::external_body]
pub(crate) fn new_store() -> (store: Store)
    ensures
        stored_nodes(store) == Seq::<GclNode>::empty(),
        stored_edges(store) == Seq::<(u32, u32, GclPredicate)>::empty(),
{
    Graph::new()
}

/// `Graph::add_node`: the node gets the next index, that is, the number of nodes so far.
/// The call panics where that number is `u32::MAX`.
#[verifier::external_body]
pub(crate) fn add_node(store: &mut Store, node: GclNode) -> (index: NodeIndex)
    requires
        stored_nodes(*old(store)).len() < u32::MAX,
    ensures
        index@ == stored_nodes(*old(store)).len(),
        stored_nodes(*final(store)) == stored_nodes(*old(store)).push(node),
        stored_edges(*final(store)) == stored_edges(*old(store)),
{
    NodeIndex { index: store.add_node(node).index() as u32 }
}

/// `Graph::add_edge`: the edge comes after the edges so far; parallel edges are kept. The
/// call panics where an end is not a node of the graph, and where the number of edges so far
/// is `u32::MAX`.
#[verifier::external_body]
pub(crate) fn add_edge(store: &mut Store, from: NodeIndex, to: NodeIndex, pred: GclPredicate)
    requires
        from@ < stored_nodes(*old(store)).len(),
        to@ < stored_nodes(*old(store)).len(),
        stored_edges(*old(store)).len() < u32::MAX,
    ensures
        stored_nodes(*final(store)) == stored_nodes(*old(store)),
        stored_edges(*final(store)) == stored_edges(*old(store)).push(
            (from.index, to.index, pred),
        ),
{
    store.add_edge(
        petgraph::graph::NodeIndex::new(from.index as usize),
        petgraph::graph::NodeIndex::new(to.index as usize),
        pred,
    );
}

/// `Graph::node_count`: the number of nodes.
#[verifier::external_body]
pub(crate) fn node_count(store: &Store) -> (count: usize)
    ensures
        count == stored_nodes(*store).len(),
{
    store.node_count()
}

/// `Graph::edge_count`: the number of edges.
#[verifier::external_body]
pub(crate) fn edge_count(store: &Store) -> (count: usize)
    ensures
        count == stored_edges(*store).len(),
{
    store.edge_count()
}

/// `Graph::edge_endpoints`: the source and the target of the edge at `index`, or `None` where the
/// graph has no such edge.
#[verifier::external_body]
pub(crate) fn edge_endpoints(store: &Store, index: u32) -> (ends: Option<(NodeIndex, NodeIndex)>)
    ensures
        ends is Some <==> index < stored_edges(*store).len(),
        ends matches Some((from, to)) ==> {
            &&& from.index == stored_edges(*store)[index as int].0
            &&& to.index == stored_edges(*store)[index as int].1
        },
{
    match store.edge_endpoints(petgraph::graph::EdgeIndex::new(index as usize)) {
        Some((from, to)) => Some((
            NodeIndex { index: from.index() as u32 },
            NodeIndex { index: to.index() as u32 },
        )),
        None => None,
    }
}

/// `Graph::node_weight_mut`: the weight of the node at `index`, to be changed in place, or
/// `None` where the graph has no such node.
#[verifier::external_body]
pub(crate) fn node_weight_mut(store: &mut Store, index: NodeIndex) -> (weight: Option<&mut GclNode>)
    ensures
        weight is Some <==> index@ < stored_nodes(*old(store)).len(),
        weight matches Some(node) ==> {
            &&& *node == stored_nodes(*old(store))[index@]
            &&& stored_nodes(*final(store)) == stored_nodes(*old(store)).update(
                index@,
                *final(node),
            )
            &&& stored_edges(*final(store)) == stored_edges(*old(store))
        },
        weight is None ==> *final(store) == *old(store),
{
    store.node_weight_mut(petgraph::graph::NodeIndex::new(index.index as usize))
}

} // verus!
