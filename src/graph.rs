//! The debt graph is a `petgraph::Graph` with string labels on its nodes and
//! `i32` weights on its edges. Its contents are described by two functions,
//! the node labels and the edges by index, and each method the solver calls
//! has a wrapper whose contract states its effect on them.
use petgraph::graph::{EdgeIndex, NodeIndex};
use petgraph::{Directed, Graph};
use vstd::prelude::*;

verus! {

#[verifier::external_type_specification]
#[verifier::external_body]
#[verifier::reject_recursive_types(N)]
#[verifier::reject_recursive_types(E)]
#[verifier::reject_recursive_types(Ty)]
#[verifier::reject_recursive_types(Ix)]
pub struct ExGraph<N, E, Ty, Ix>(Graph<N, E, Ty, Ix>);

#[verifier::external_type_specification]
#[verifier::external_body]
pub struct ExDirected(Directed);

/// The largest number of nodes or edges a graph with `u32` indices can hold.
pub const INDEX_LIMIT: usize = 0xffff_fffe;

/// The node labels of a graph, by node index.
pub uninterp spec fn graph_nodes(g: Graph<String, i32>) -> Seq<Seq<char>>;

/// The edges of a graph, by edge index: source node, target node, weight.
pub uninterp spec fn graph_edges(g: Graph<String, i32>) -> Seq<(usize, usize, i32)>;

/// Relies on `Graph::new`: a directed graph with no nodes and no edges.
#[verifier::external_body]
pub(crate) fn graph_new() -> (g: Graph<String, i32>)
    ensures
        graph_nodes(g) == Seq::<Seq<char>>::empty(),
        graph_edges(g) == Seq::<(usize, usize, i32)>::empty(),
{
    Graph::new()
}

/// Relies on `Graph::node_count`: the length of the node list.
#[verifier::external_body]
pub(crate) fn graph_node_count(g: &Graph<String, i32>) -> (r: usize)
    ensures
        r == graph_nodes(*g).len(),
{
    g.node_count()
}

/// Relies on `Graph::edge_count`: the length of the edge list.
#[verifier::external_body]
pub(crate) fn graph_edge_count(g: &Graph<String, i32>) -> (r: usize)
    ensures
        r == graph_edges(*g).len(),
{
    g.edge_count()
}

/// Relies on `Graph::add_node`: the label is appended to the node list and its
/// index is returned. It panics only when the index would reach `u32::MAX`.
#[verifier::external_body]
pub(crate) fn graph_add_node(g: &mut Graph<String, i32>, label: String) -> (r: usize)
    requires
        graph_nodes(*old(g)).len() <= INDEX_LIMIT,
    ensures
        r == graph_nodes(*old(g)).len(),
        graph_nodes(*final(g)) == graph_nodes(*old(g)).push(label@),
        graph_edges(*final(g)) == graph_edges(*old(g)),
{
    g.add_node(label).index()
}

/// Relies on `Graph::add_edge`: the edge is appended to the edge list and its
/// index is returned. It panics only on a missing endpoint or when the index
/// would reach `u32::MAX`.
#[verifier::external_body]
pub(crate) fn graph_add_edge(g: &mut Graph<String, i32>, a: usize, b: usize, w: i32) -> (r: usize)
    requires
        a < graph_nodes(*old(g)).len(),
        b < graph_nodes(*old(g)).len(),
        graph_nodes(*old(g)).len() <= INDEX_LIMIT + 1,
        graph_edges(*old(g)).len() <= INDEX_LIMIT,
    ensures
        r == graph_edges(*old(g)).len(),
        graph_edges(*final(g)) == graph_edges(*old(g)).push((a, b, w)),
        graph_nodes(*final(g)) == graph_nodes(*old(g)),
{
    g.add_edge(NodeIndex::new(a), NodeIndex::new(b), w).index()
}

/// Relies on `Graph::find_edge`: some edge from `a` to `b`, if there is one.
#[verifier::external_body]
pub(crate) fn graph_find_edge(g: &Graph<String, i32>, a: usize, b: usize) -> (r: Option<usize>)
    requires
        a < graph_nodes(*g).len(),
        b < graph_nodes(*g).len(),
        graph_nodes(*g).len() <= INDEX_LIMIT + 1,
    ensures
        match r {
            Some(e) => e < graph_edges(*g).len() && graph_edges(*g)[e as int].0 == a
                && graph_edges(*g)[e as int].1 == b,
            None => forall|e: int|
                0 <= e < graph_edges(*g).len() ==> !(#[trigger] graph_edges(*g)[e].0 == a
                    && graph_edges(*g)[e].1 == b),
        },
{
    g.find_edge(NodeIndex::new(a), NodeIndex::new(b)).map(|e| e.index())
}

/// Relies on `Graph::edge_endpoints`: source and target of an existing edge.
#[verifier::external_body]
pub(crate) fn graph_edge_endpoints(g: &Graph<String, i32>, e: usize) -> (r: Option<(usize, usize)>)
    requires
        e <= INDEX_LIMIT,
    ensures
        e < graph_edges(*g).len() ==> r == Some(
            (graph_edges(*g)[e as int].0, graph_edges(*g)[e as int].1),
        ),
        e >= graph_edges(*g).len() ==> r is None,
{
    g.edge_endpoints(EdgeIndex::new(e)).map(|(a, b)| (a.index(), b.index()))
}

/// Relies on `Graph::edge_weight`: the weight of an existing edge.
#[verifier::external_body]
pub(crate) fn graph_edge_weight(g: &Graph<String, i32>, e: usize) -> (r: Option<i32>)
    requires
        e <= INDEX_LIMIT,
    ensures
        e < graph_edges(*g).len() ==> r == Some(graph_edges(*g)[e as int].2),
        e >= graph_edges(*g).len() ==> r is None,
{
    g.edge_weight(EdgeIndex::new(e)).copied()
}

/// Relies on indexing a `Graph` mutably by an edge index: the weight of that
/// edge is overwritten. It panics only on a missing edge.
#[verifier::external_body]
pub(crate) fn graph_set_edge_weight(g: &mut Graph<String, i32>, e: usize, w: i32)
    requires
        e < graph_edges(*old(g)).len(),
        graph_edges(*old(g)).len() <= INDEX_LIMIT + 1,
    ensures
        graph_edges(*final(g)) == graph_edges(*old(g)).update(
            e as int,
            (graph_edges(*old(g))[e as int].0, graph_edges(*old(g))[e as int].1, w),
        ),
        graph_nodes(*final(g)) == graph_nodes(*old(g)),
{
    g[EdgeIndex::new(e)] = w;
}

/// Relies on `Graph::node_weight`: a copy of the label of an existing node.
#[verifier::external_body]
pub(crate) fn graph_node_weight(g: &Graph<String, i32>, n: usize) -> (r: Option<String>)
    requires
        n <= INDEX_LIMIT,
    ensures
        match r {
            Some(s) => n < graph_nodes(*g).len() && s@ == graph_nodes(*g)[n as int],
            None => n >= graph_nodes(*g).len(),
        },
{
    g.node_weight(NodeIndex::new(n)).cloned()
}

} // verus!
