//! The overlap graph of two rows, kept in a `petgraph` graph.
//!
//! A node stands for an obstacle region and carries its first pixel and the
//! pixel after its last; an edge joins two regions that overlap. Nothing in
//! this file is proved: it states what the graph library does, in terms of
//! the list of nodes and the list of edges that a graph holds.
use vstd::prelude::*;
use vstd::multiset::Multiset;
use petgraph::graph::Graph;
use petgraph::graph::NodeIndex;
use petgraph::Undirected;

verus! {

/// `petgraph::graph::Graph`. What a graph holds is known only through
/// `graph_nodes` and `graph_edges`.
#[verifier::external_type_specification]
#[verifier::external_body]
#[verifier::reject_recursive_types(N)]
#[verifier::reject_recursive_types(E)]
#[verifier::reject_recursive_types(Ty)]
#[verifier::reject_recursive_types(Ix)]
pub struct ExGraph<N, E, Ty, Ix>(Graph<N, E, Ty, Ix>);

/// `petgraph::Undirected`, the mark of a graph whose edges have no direction.
#[verifier::external_type_specification]
#[verifier::external_body]
pub struct ExUndirected(Undirected);

/// The weights of the nodes of a graph, by node index.
pub uninterp spec fn graph_nodes(g: Graph<(usize, usize), u8, Undirected, usize>) -> Seq<
    (usize, usize),
>;

/// The end points of the edges of a graph, as node indices, in the order in
/// which the edges were added.
pub uninterp spec fn graph_edges(g: Graph<(usize, usize), u8, Undirected, usize>) -> Seq<
    (usize, usize),
>;

/// The nodes at the other end of the edges that touch node `a`, each as
/// often as there are such edges. An edge from `a` to `a` counts once.
pub open spec fn incident(edges: Seq<(usize, usize)>, a: usize) -> Multiset<usize>
    decreases edges.len(),
{
    if edges.len() == 0 {
        Multiset::empty()
    } else {
        let rest = incident(edges.drop_last(), a);
        let e = edges.last();
        if e.0 == a {
            rest.insert(e.1)
        } else if e.1 == a {
            rest.insert(e.0)
        } else {
            rest
        }
    }
}

/// `Graph::with_capacity` with no room asked for: the graph that comes back
/// has no node and no edge.
#[verifier::external_body]
pub(crate) fn graph_new() -> (g: Graph<(usize, usize), u8, Undirected, usize>)
    ensures
        graph_nodes(g) == Seq::<(usize, usize)>::empty(),
        graph_edges(g) == Seq::<(usize, usize)>::empty(),
{
    Graph::with_capacity(0, 0)
}

/// `Graph::add_node`: the new node comes after the nodes that were there and
/// its index is their number; the edges stay. With `usize` indices the graph
/// has no limit of its own on the number of nodes.
#[verifier::external_body]
pub(crate) fn graph_add_node(
    g: &mut Graph<(usize, usize), u8, Undirected, usize>,
    weight: (usize, usize),
) -> (id: usize)
    ensures
        graph_nodes(*final(g)) == graph_nodes(*old(g)).push(weight),
        graph_edges(*final(g)) == graph_edges(*old(g)),
        id == graph_nodes(*old(g)).len(),
{
    g.add_node(weight).index()
}

/// `Graph::add_edge` between two nodes of the graph: the new edge comes
/// after the edges that were there; the nodes stay. The call panics when one
/// of the nodes is missing, so both are required to be there.
#[verifier::external_body]
pub(crate) fn graph_add_edge(
    g: &mut Graph<(usize, usize), u8, Undirected, usize>,
    a: usize,
    b: usize,
    weight: u8,
)
    requires
        a < graph_nodes(*old(g)).len(),
        b < graph_nodes(*old(g)).len(),
    ensures
        graph_edges(*final(g)) == graph_edges(*old(g)).push((a, b)),
        graph_nodes(*final(g)) == graph_nodes(*old(g)),
{
    g.add_edge(NodeIndex::new(a), NodeIndex::new(b), weight);
}

/// `Graph::neighbors` of an undirected graph: the other end of each edge
/// that touches `a`. The library fixes no order for them, so the claim is
/// about how often each node comes, not where.
#[verifier::external_body]
pub(crate) fn graph_neighbors(
    g: &Graph<(usize, usize), u8, Undirected, usize>,
    a: usize,
) -> (ids: Vec<usize>)
    ensures
        ids@.to_multiset() == incident(graph_edges(*g), a),
{
    g.neighbors(NodeIndex::new(a)).map(|n| n.index()).collect()
}

/// Indexing a graph by a node index: the weight of that node. The call
/// panics when the node is missing, so it is required to be there.
#[verifier::external_body]
pub(crate) fn graph_node_weight(
    g: &Graph<(usize, usize), u8, Undirected, usize>,
    a: usize,
) -> (weight: (usize, usize))
    requires
        a < graph_nodes(*g).len(),
    ensures
        weight == graph_nodes(*g)[a as int],
{
    g[NodeIndex::new(a)]
}

} // verus!
