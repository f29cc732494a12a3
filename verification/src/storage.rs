//! Trusted bindings to the adjacency storage.
//!
//! The graph's node and edge storage is petgraph's `DiGraphMap`, keyed by the
//! `u32` handles that [`crate::graph::Graph`] issues.  Everything the crate
//! assumes of petgraph stands in this module: the two type declarations, the
//! two names `store_nodes` and `store_edges` for what a map holds, and one
//! wrapper per method that the graph model calls.

use vstd::prelude::*;

use crate::graph::DependencyEdge;
use petgraph::prelude::DiGraphMap;

verus! {

#[verifier::external_type_specification]
#[verifier::external_body]
#[verifier::reject_recursive_types(N)]
#[verifier::reject_recursive_types(E)]
#[verifier::reject_recursive_types(Ty)]
#[verifier::reject_recursive_types(S)]
pub struct ExGraphMap<N, E, Ty, S>(petgraph::graphmap::GraphMap<N, E, Ty, S>) where S: std::hash::BuildHasher;

#[verifier::external_type_specification]
#[verifier::external_body]
pub struct ExDirected(petgraph::Directed);

/// The node set a map holds.
pub uninterp spec fn store_nodes(g: DiGraphMap<u32, DependencyEdge>) -> Set<u32>;

/// The directed edges a map holds, each with its weight.
pub uninterp spec fn store_edges(g: DiGraphMap<u32, DependencyEdge>) -> Map<(u32, u32), DependencyEdge>;

/// Relies on `GraphMap::new`; nothing is assumed of the fresh map, it is
/// emptied through [`store_clear`] before use.
#[verifier::external_body]
pub(crate) fn store_new() -> (g: DiGraphMap<u32, DependencyEdge>) {
    DiGraphMap::new()
}

/// Relies on `GraphMap::clear`: removes every node and every edge.
#[verifier::external_body]
pub(crate) fn store_clear(g: &mut DiGraphMap<u32, DependencyEdge>)
    ensures
        forall|m: u32| !store_nodes(*final(g)).contains(m),
        forall|a: u32, b: u32| !store_edges(*final(g)).dom().contains((a, b)),
{
    g.clear();
}

/// Relies on `GraphMap::add_node`: inserts the node and touches no edge;
/// adding a node already present is a no-op.
#[verifier::external_body]
pub(crate) fn store_add_node(g: &mut DiGraphMap<u32, DependencyEdge>, n: u32)
    ensures
        store_nodes(*final(g)) == store_nodes(*old(g)).insert(n),
        store_edges(*final(g)) == store_edges(*old(g)),
{
    g.add_node(n);
}

/// Relies on `GraphMap::add_edge`: inserts both endpoints and the directed
/// edge `a -> b`; a weight already present for that ordered pair is
/// overwritten (last write wins).
#[verifier::external_body]
pub(crate) fn store_add_edge(
    g: &mut DiGraphMap<u32, DependencyEdge>,
    a: u32,
    b: u32,
    w: DependencyEdge,
)
    ensures
        store_nodes(*final(g)) == store_nodes(*old(g)).insert(a).insert(b),
        store_edges(*final(g)) == store_edges(*old(g)).insert((a, b), w),
{
    g.add_edge(a, b, w);
}

/// Relies on `GraphMap::neighbors`: on a directed map it yields, once each,
/// exactly the targets of the edges leaving `n`, and nothing for an absent
/// node.
#[verifier::external_body]
pub(crate) fn store_out_neighbors(g: &DiGraphMap<u32, DependencyEdge>, n: u32) -> (r: Vec<u32>)
    ensures
        r@.no_duplicates(),
        forall|m: u32| #[trigger] r@.contains(m) <==> store_edges(*g).dom().contains((n, m)),
{
    g.neighbors(n).collect()
}

/// Relies on `GraphMap::neighbors_directed` with `Incoming`: on a directed
/// map it yields, once each, exactly the sources of the edges entering `n`
/// (a self loop among them), and nothing for an absent node.
#[verifier::external_body]
pub(crate) fn store_in_neighbors(g: &DiGraphMap<u32, DependencyEdge>, n: u32) -> (r: Vec<u32>)
    ensures
        r@.no_duplicates(),
        forall|m: u32| #[trigger] r@.contains(m) <==> store_edges(*g).dom().contains((m, n)),
{
    g.neighbors_directed(n, petgraph::Direction::Incoming).collect()
}

/// Relies on `GraphMap::edge_weight`: the weight stored for the ordered pair
/// `(a, b)`, or `None` when that edge is absent.
#[verifier::external_body]
pub(crate) fn store_edge_weight(
    g: &DiGraphMap<u32, DependencyEdge>,
    a: u32,
    b: u32,
) -> (r: Option<DependencyEdge>)
    ensures
        r == if store_edges(*g).dom().contains((a, b)) {
            Some(store_edges(*g)[(a, b)])
        } else {
            None::<DependencyEdge>
        },
{
    g.edge_weight(a, b).copied()
}

/// Relies on `GraphMap::all_edges`: every stored edge with its weight,
/// each ordered pair once.
#[verifier::external_body]
pub(crate) fn store_all_edges(
    g: &DiGraphMap<u32, DependencyEdge>,
) -> (r: Vec<(u32, u32, DependencyEdge)>)
    ensures
        forall|a: u32, b: u32, w: DependencyEdge|
            #[trigger] r@.contains((a, b, w)) <==> (store_edges(*g).dom().contains((a, b))
                && store_edges(*g)[(a, b)] == w),
        forall|i: int, j: int|
            0 <= i < j < r@.len() ==> (r@[i].0, r@[i].1) != (r@[j].0, r@[j].1),
{
    g.all_edges().map(|(a, b, w)| (a, b, *w)).collect()
}

} // verus!
