//! The graph that a program is translated into.

use std::collections::HashMap;
use vstd::prelude::*;

use crate::gcl::{
    EdgeView, GclNode, GclNodeRange, GclPredicate, NodeIndex, NodeView, PredicateView, RangeView,
};
use crate::growth::{lemma_grow_wf, lemma_register_wf, lemma_replace_wf};
use crate::ir::FunctionId;
use crate::store::{
    add_edge, add_node, all_node_views, edge_count, edge_endpoints, edge_views, new_store,
    node_count, node_views, node_weight_mut, stored_nodes, Store,
};
use crate::text::{decimal, digits_value, lemma_tagged_injective, lemma_tagged_value, tag, tagged};

verus! {

/// What a `GclGraph` holds.
pub ghost struct GraphView {
    /// The nodes, by index.
    pub nodes: Seq<NodeView>,
    /// The edges, the oldest first.
    pub edges: Seq<EdgeView>,
    /// How many names have been created.
    pub names: nat,
    /// The nodes of each registered function.
    pub functions: Map<FunctionId, RangeView>,
}

/// The name made of `base` and the number `n`.
pub open spec fn created_name(base: Seq<char>, n: nat) -> Seq<char> {
    tagged(base + "__"@, n)
}

/// A graph never creates the same name twice, whatever the bases: names with different numbers
/// differ, and so do names with different bases.
pub proof fn lemma_created_names_differ(a: Seq<char>, m: nat, b: Seq<char>, n: nat)
    requires
        created_name(a, m) == created_name(b, n),
    ensures
        a == b,
        m == n,
{
    reveal_strlit("__");
    lemma_tagged_injective(a + "__"@, m, b + "__"@, n);
    assert((a + "__"@).subrange(0, a.len() as int) =~= a);
    assert((b + "__"@).subrange(0, b.len() as int) =~= b);
}

impl GraphView {
    /// The graph without nodes, edges and functions.
    pub open spec fn empty() -> GraphView {
        GraphView {
            nodes: Seq::empty(),
            edges: Seq::empty(),
            names: 0,
            functions: Map::empty(),
        }
    }

    /// Whether `index` is a node of the graph.
    pub open spec fn has_node(self, index: int) -> bool {
        0 <= index < self.nodes.len()
    }

    /// Whether both ends of `range` are nodes of the graph.
    pub open spec fn has_range(self, range: RangeView) -> bool {
        self.has_node(range.start) && self.has_node(range.end)
    }

    /// Edges join nodes of the graph, and registered functions are made of them.
    #[verifier::opaque]
    pub open spec fn wf(self) -> bool {
        &&& forall|i: int|
            0 <= i < self.edges.len() ==> self.has_node((#[trigger] self.edges[i]).from)
                && self.has_node(self.edges[i].to)
        &&& forall|id: FunctionId| #[trigger]
            self.functions.dom().contains(id) ==> self.has_range(self.functions[id])
    }

    /// Whether the indices and the name counter of the graph fit their integer types.
    pub open spec fn fits(self) -> bool {
        &&& self.nodes.len() <= u32::MAX
        &&& self.edges.len() <= u32::MAX
        &&& self.names <= u64::MAX
    }

    /// The `k`-th of the names that will be created next, with the base `base`.
    pub open spec fn fresh(self, base: Seq<char>, k: nat) -> Seq<char> {
        created_name(base, self.names + k)
    }

    /// The graph with `nodes` and `edges` behind its own and `names` more names created.
    pub open spec fn grow(
        self,
        nodes: Seq<NodeView>,
        edges: Seq<EdgeView>,
        names: nat,
    ) -> GraphView {
        GraphView {
            nodes: self.nodes + nodes,
            edges: self.edges + edges,
            names: self.names + names,
            functions: self.functions,
        }
    }

    /// The graph with one more edge, which can always be taken.
    pub open spec fn link(self, from: int, to: int) -> GraphView {
        self.grow(
            seq![],
            seq![EdgeView { from, to, pred: PredicateView::Bool(true) }],
            0,
        )
    }
}

/// How many nodes, edges and names can still be added to a graph.
#[derive(Clone, Copy, Debug, PartialEq, Eq, Structural)]
pub struct Room {
    pub nodes: u64,
    pub edges: u64,
    pub names: u64,
}

/// A graph is well-formed if and only if both ends of each edge are nodes of the graph, and both
/// ends of each registered function.
pub proof fn lemma_well_formed(g: GraphView)
    ensures
        g.wf() <==> {
            &&& forall|i: int|
                0 <= i < g.edges.len() ==> 0 <= (#[trigger] g.edges[i]).from < g.nodes.len() && 0
                    <= g.edges[i].to < g.nodes.len()
            &&& forall|id: FunctionId| #[trigger]
                g.functions.dom().contains(id) ==> 0 <= g.functions[id].start < g.nodes.len() && 0
                    <= g.functions[id].end < g.nodes.len()
        },
{
    reveal(GraphView::wf);
    if g.wf() {
        assert forall|i: int| 0 <= i < g.edges.len() implies 0 <= (#[trigger] g.edges[i]).from
            < g.nodes.len() && 0 <= g.edges[i].to < g.nodes.len() by {
            assert(g.has_node(g.edges[i].from));
        }
        assert forall|id: FunctionId| #[trigger] g.functions.dom().contains(id) implies 0
            <= g.functions[id].start < g.nodes.len() && 0 <= g.functions[id].end
            < g.nodes.len() by {
            assert(g.has_range(g.functions[id]));
        }
    }
}

/// A graph fits if and only if it has at most `u32::MAX` nodes and edges and at most `u64::MAX`
/// names.
pub proof fn lemma_fits(g: GraphView)
    ensures
        g.fits() <==> g.nodes.len() <= u32::MAX && g.edges.len() <= u32::MAX && g.names
            <= u64::MAX,
{
}

/// A graph that grows has what it had and what is added, in this order, and the same functions.
pub proof fn lemma_grow(g: GraphView, nodes: Seq<NodeView>, edges: Seq<EdgeView>, names: nat)
    ensures
        g.grow(nodes, edges, names).nodes == g.nodes + nodes,
        g.grow(nodes, edges, names).edges == g.edges + edges,
        g.grow(nodes, edges, names).names == g.names + names,
        g.grow(nodes, edges, names).functions == g.functions,
{
}

/// The names that a graph creates are the base, two underscores and the number of names so far.
pub proof fn lemma_fresh(g: GraphView, base: Seq<char>, k: nat)
    ensures
        g.fresh(base, k).len() > base.len() + 2,
        g.fresh(base, k).subrange(0, base.len() as int + 2) == base + seq!['_', '_'],
        digits_value(
            g.fresh(base, k).subrange(base.len() as int + 2, g.fresh(base, k).len() as int),
        ) == g.names + k,
{
    reveal_strlit("__");
    assert("__"@ =~= seq!['_', '_']);
    lemma_tagged_value(base + "__"@, g.names + k);
}

/// A graph of guarded commands, with the functions that have been translated into it.
pub struct GclGraph {
    store: Store,
    functions: HashMap<FunctionId, GclNodeRange>,
    names: u64,
}

impl View for GclGraph {
    type V = GraphView;

    closed spec fn view(&self) -> GraphView {
        GraphView {
            nodes: node_views(self.store),
            edges: edge_views(self.store),
            names: self.names as nat,
            functions: self.functions@.map_values(|range: GclNodeRange| range@),
        }
    }
}

/// What nodes stand for, when one of them is replaced.
proof fn lemma_node_views_update(nodes: Seq<GclNode>, index: int)
    ensures
        0 <= index < nodes.len() ==> forall|node: GclNode|
            all_node_views(#[trigger] nodes.update(index, node)) == all_node_views(nodes).update(
                index,
                node@,
            ),
{
    if 0 <= index < nodes.len() {
        assert forall|node: GclNode|
            all_node_views(#[trigger] nodes.update(index, node)) == all_node_views(nodes).update(
                index,
                node@,
            ) by {
            assert(all_node_views(nodes.update(index, node)) =~= all_node_views(nodes).update(
                index,
                node@,
            ));
        }
    }
}

impl GclGraph {
    /// A graph without nodes, edges and functions.
    pub fn new() -> (graph: Self)
        ensures
            graph@ == GraphView::empty(),
            graph@.nodes == Seq::<NodeView>::empty(),
            graph@.edges == Seq::<EdgeView>::empty(),
            graph@.names == 0,
            graph@.functions == Map::<FunctionId, RangeView>::empty(),
            graph@.wf(),
    {
        broadcast use vstd::std_specs::hash::group_hash_axioms;

        let graph = GclGraph { store: new_store(), functions: HashMap::new(), names: 0 };
        assert(graph@.nodes =~= Seq::empty());
        assert(graph@.edges =~= Seq::empty());
        assert(graph@.functions =~= Map::empty());
        reveal(GraphView::wf);
        graph
    }

    /// The graph as `petgraph` has it.
    pub fn store(&self) -> (store: &Store)
        ensures
            node_views(*store) == self@.nodes,
            edge_views(*store) == self@.edges,
    {
        &self.store
    }

    /// Creates a name that starts with `base` and that this graph has not created before.
    pub fn create_name(&mut self, base: &str) -> (name: String)
        requires
            old(self)@.names < u64::MAX,
        ensures
            name@ == old(self)@.fresh(base@, 0),
            final(self)@ == old(self)@.grow(seq![], seq![], 1),
            name@ == base@ + "__"@ + decimal(old(self)@.names),
            final(self)@ == (GraphView { names: old(self)@.names + 1, ..old(self)@ }),
            old(self)@.wf() ==> final(self)@.wf(),
    {
        let prefix = base.to_owned().concat("__");
        let name = tag(prefix.as_str(), self.names);
        self.names = self.names + 1;
        assert(self@ == old(self)@.grow(seq![], seq![], 1)) by {
            assert(self@.nodes =~= old(self)@.nodes + seq![]);
            assert(self@.edges =~= old(self)@.edges + seq![]);
        }
        proof {
            if old(self)@.wf() {
                lemma_grow_wf(old(self)@, seq![], seq![], 1);
            }
        }
        name
    }

    /// Adds a node and returns its index.
    pub fn add_node(&mut self, node: GclNode) -> (index: NodeIndex)
        requires
            old(self)@.nodes.len() < u32::MAX,
        ensures
            index@ == old(self)@.nodes.len(),
            final(self)@ == old(self)@.grow(seq![node@], seq![], 0),
            final(self)@ == (GraphView { nodes: old(self)@.nodes.push(node@), ..old(self)@ }),
            old(self)@.wf() ==> final(self)@.wf(),
    {
        let index = add_node(&mut self.store, node);
        assert(self@ == old(self)@.grow(seq![node@], seq![], 0)) by {
            assert(self@.nodes =~= old(self)@.nodes + seq![node@]);
            assert(self@.edges =~= old(self)@.edges + seq![]);
        }
        proof {
            if old(self)@.wf() {
                lemma_grow_wf(old(self)@, seq![node@], seq![], 0);
            }
            assert(self@.nodes =~= old(self)@.nodes.push(node@));
            assert(self@.edges =~= old(self)@.edges);
        }
        index
    }

    /// Adds an edge.
    pub fn add_edge(&mut self, from: NodeIndex, to: NodeIndex, pred: GclPredicate)
        requires
            old(self)@.has_node(from@),
            old(self)@.has_node(to@),
            old(self)@.edges.len() < u32::MAX,
        ensures
            final(self)@ == old(self)@.grow(
                seq![],
                seq![(EdgeView { from: from@, to: to@, pred: pred@ })],
                0,
            ),
            final(self)@ == (GraphView {
                edges: old(self)@.edges.push(
                    EdgeView { from: from@, to: to@, pred: pred@ },
                ),
                ..old(self)@
            }),
            old(self)@.wf() ==> final(self)@.wf(),
    {
        add_edge(&mut self.store, from, to, pred);
        let ghost edge = EdgeView { from: from@, to: to@, pred: pred@ };
        assert(self@ == old(self)@.grow(seq![], seq![edge], 0)) by {
            assert(self@.nodes =~= old(self)@.nodes + seq![]);
            assert(self@.edges =~= old(self)@.edges + seq![edge]);
        }
        proof {
            if old(self)@.wf() {
                lemma_grow_wf(old(self)@, seq![], seq![edge], 0);
            }
            assert(self@.nodes =~= old(self)@.nodes);
            assert(self@.edges =~= old(self)@.edges.push(edge));
        }
    }

    /// The node at `index`, to be changed in place.
    pub fn node_weight_mut(&mut self, index: NodeIndex) -> (weight: Option<&mut GclNode>)
        ensures
            weight is Some <==> old(self)@.has_node(index@),
            weight matches Some(node) ==> {
                &&& node@ == old(self)@.nodes[index@]
                &&& final(self)@ == (GraphView {
                    nodes: old(self)@.nodes.update(index@, final(node)@),
                    ..old(self)@
                })
            },
            weight is None ==> *final(self) == *old(self),
            old(self)@.wf() ==> final(self)@.wf(),
    {
        proof {
            lemma_node_views_update(stored_nodes(self.store), index@);
            if self@.wf() && self@.has_node(index@) {
                let g = self@;
                assert forall|added: NodeView|
                    (GraphView { nodes: #[trigger] g.nodes.update(index@, added), ..g }).wf() by {
                    lemma_replace_wf(g, index@, added);
                }
            }
        }
        node_weight_mut(&mut self.store, index)
    }

    /// Registers the nodes of a function; an earlier registration of the same function is
    /// forgotten.
    pub fn register_function(&mut self, id: FunctionId, range: GclNodeRange)
        ensures
            final(self)@ == (GraphView {
                functions: old(self)@.functions.insert(id, range@),
                ..old(self)@
            }),
            old(self)@.wf() && old(self)@.has_range(range@) ==> final(self)@.wf(),
    {
        broadcast use vstd::std_specs::hash::group_hash_axioms;

        self.functions.insert(id, range);
        assert(self@.functions =~= old(self)@.functions.insert(id, range@));
        proof {
            if old(self)@.wf() && old(self)@.has_range(range@) {
                lemma_register_wf(old(self)@, id, range@);
            }
        }
    }

    /// What can still be added; `None` where the graph has outgrown its integer types.
    pub fn room(&self) -> (room: Option<Room>)
        ensures
            room is Some <==> self@.fits(),
            room matches Some(left) ==> {
                &&& left.nodes == u32::MAX - self@.nodes.len()
                &&& left.edges == u32::MAX - self@.edges.len()
                &&& left.names == u64::MAX - self@.names
            },
    {
        let nodes: usize = node_count(&self.store);
        let edges: usize = edge_count(&self.store);
        if nodes > u32::MAX as usize || edges > u32::MAX as usize {
            return None;
        }
        Some(
            Room {
                nodes: u32::MAX as u64 - nodes as u64,
                edges: u32::MAX as u64 - edges as u64,
                names: u64::MAX - self.names,
            },
        )
    }

    /// Whether the graph has `index`.
    fn has_index(&self, index: NodeIndex) -> (result: bool)
        ensures
            result == self@.has_node(index@),
    {
        (index.index as usize) < node_count(&self.store)
    }

    /// Whether the edges join nodes of the graph.
    fn joins_nodes(&self) -> (result: bool)
        requires
            self@.edges.len() <= u32::MAX,
        ensures
            result <==> forall|i: int|
                0 <= i < self@.edges.len() ==> self@.has_node((#[trigger] self@.edges[i]).from)
                    && self@.has_node(self@.edges[i].to),
    {
        let edges: usize = edge_count(&self.store);
        let mut i: usize = 0;
        while i < edges
            invariant
                i <= edges <= u32::MAX,
                edges == self@.edges.len(),
                forall|k: int|
                    0 <= k < i ==> self@.has_node((#[trigger] self@.edges[k]).from)
                        && self@.has_node(self@.edges[k].to),
            decreases edges - i,
        {
            if let Some((from, to)) = edge_endpoints(&self.store, i as u32) {
                let ghost edge = self@.edges[i as int];
                assert(edge.from == from@ && edge.to == to@);
                if !self.has_index(from) || !self.has_index(to) {
                    return false;
                }
            }
            i = i + 1;
        }
        true
    }

    /// Whether the registered functions are made of nodes of the graph.
    fn has_functions(&self) -> (result: bool)
        ensures
            result <==> forall|id: FunctionId| #[trigger]
                self@.functions.dom().contains(id) ==> self@.has_range(self@.functions[id]),
    {
        broadcast use vstd::std_specs::hash::group_hash_axioms;

        let ghost functions = self.functions@;
        assert(functions.dom() =~= self@.functions.dom());
        for range in ranges: self.functions.values()
            invariant
                functions == self.functions@,
                functions.dom() == self@.functions.dom(),
                ranges.seq().unref().to_set() == functions.values(),
                forall|k: int|
                    0 <= k < ranges.index() ==> self@.has_range(
                        (#[trigger] ranges.seq().unref()[k])@,
                    ),
        {
            assert(ranges.seq().unref()[ranges.index() as int] == *range);
            if !self.has_index(range.start) || !self.has_index(range.end) {
                proof {
                    assert(ranges.seq().unref().to_set().contains(*range));
                    let id = choose|id: FunctionId| #[trigger]
                        functions.dom().contains(id) && functions[id] == *range;
                    assert(self@.functions.dom().contains(id));
                    assert(self@.functions[id] == range@);
                }
                return false;
            }
        }
        assert forall|id: FunctionId| #[trigger]
            self@.functions.dom().contains(id) implies self@.has_range(self@.functions[id]) by {
            assert(functions.values().contains(functions[id]));
        }
        true
    }

    /// Whether the graph is well-formed and has not outgrown its integer types.
    pub fn is_well_formed(&self) -> (result: bool)
        ensures
            result == (self@.wf() && self@.fits()),
    {
        reveal(GraphView::wf);
        if node_count(&self.store) > u32::MAX as usize {
            return false;
        }
        edge_count(&self.store) <= u32::MAX as usize && self.joins_nodes() && self.has_functions()
    }

    /// The nodes of a registered function.
    pub fn get_function(&self, id: FunctionId) -> (range: Option<GclNodeRange>)
        ensures
            range is Some <==> self@.functions.dom().contains(id),
            range matches Some(found) ==> found@ == self@.functions[id],
    {
        broadcast use vstd::std_specs::hash::group_hash_axioms;

        match self.functions.get(&id) {
            Some(range) => Some(*range),
            None => None,
        }
    }
}

} // verus!
