use petgraph::graphmap::DiGraphMap;
use petgraph::graphmap::GraphMap;
use vstd::prelude::*;

verus! {

/// `petgraph`'s map-backed graph, whose contents Verus does not see.
#[verifier::external_type_specification]
#[verifier::external_body]
#[verifier::reject_recursive_types(N)]
#[verifier::reject_recursive_types(E)]
#[verifier::reject_recursive_types(Ty)]
#[verifier::reject_recursive_types(S)]
pub struct ExGraphMap<N, E, Ty, S: std::hash::BuildHasher>(GraphMap<N, E, Ty, S>);

/// `petgraph`'s marker for directed edges.
#[verifier::external_type_specification]
#[verifier::external_body]
pub struct ExDirected(petgraph::Directed);

/// The directed edges of a chunk relation graph, as (from, to) pairs of chunk keys.
pub uninterp spec fn relation_edges(graph: DiGraphMap<usize, ()>) -> Set<(usize, usize)>;

/// The nodes of a chunk relation graph, as chunk keys.
pub uninterp spec fn relation_nodes(graph: DiGraphMap<usize, ()>) -> Set<usize>;

/// Calls `GraphMap::new`: a graph without nodes or edges.
#[verifier::external_body]
pub(crate) fn new_relation_graph() -> (graph: DiGraphMap<usize, ()>)
    ensures
        relation_edges(graph) == Set::<(usize, usize)>::empty(),
        relation_nodes(graph) == Set::<usize>::empty(),
{
    DiGraphMap::new()
}

/// Calls `GraphMap::add_edge`: afterwards the graph has the edge from `a` to `b`
/// besides the ones it had, and its nodes are the ones it had with `a` and `b` (an edge
/// that was there already had both ends among the nodes).
#[verifier::external_body]
pub(crate) fn relation_add_edge(graph: &mut DiGraphMap<usize, ()>, a: usize, b: usize)
    ensures
        relation_edges(*final(graph)) == relation_edges(*old(graph)).insert((a, b)),
        relation_nodes(*final(graph)) == relation_nodes(*old(graph)).insert(a).insert(b),
{
    graph.add_edge(a, b, ());
}

/// Calls `GraphMap::contains_edge`: whether the graph has the edge from `a` to `b`.
#[verifier::external_body]
pub(crate) fn relation_contains_edge(graph: &DiGraphMap<usize, ()>, a: usize, b: usize) -> (r:
    bool)
    ensures
        r == relation_edges(*graph).contains((a, b)),
{
    graph.contains_edge(a, b)
}

} // verus!
