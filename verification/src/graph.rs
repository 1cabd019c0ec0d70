//! The directed graph that carries the control-flow edges, kept in a
//! petgraph `GraphMap` keyed by `(start_pc, end_pc)` block identity with a
//! `u8` edge-type tag as weight.
//!
//! The graph type is opaque to the verifier; its contents are named by
//! `graph_nodes` and `graph_edge_map`, and each method the pipeline calls is
//! wrapped with a contract that states what petgraph's source shows.

use vstd::prelude::*;

verus! {

#[verifier::external_type_specification]
#[verifier::external_body]
#[verifier::reject_recursive_types(N)]
#[verifier::reject_recursive_types(E)]
#[verifier::reject_recursive_types(Ty)]
#[verifier::reject_recursive_types(S)]
pub struct ExGraphMap<N, E, Ty, S>(petgraph::graphmap::GraphMap<N, E, Ty, S>)
    where S: std::hash::BuildHasher;

#[verifier::external_type_specification]
#[verifier::external_body]
pub struct ExDirected(petgraph::Directed);

/// The concrete graph of the pipeline: directed, nodes are block keys, edge
/// weights are edge-type tags.
pub type CfgDag = petgraph::graphmap::GraphMap<
    (u16, u16),
    u8,
    petgraph::Directed,
    std::hash::RandomState,
>;

/// The set of nodes a graph holds.
pub uninterp spec fn graph_nodes(g: CfgDag) -> Set<(u16, u16)>;

/// The edges a graph holds: at most one weight per ordered node pair, as
/// petgraph's `GraphMap` stores them.
pub uninterp spec fn graph_edge_map(g: CfgDag) -> Map<((u16, u16), (u16, u16)), u8>;

/// A graph with no nodes and no edges.
pub open spec fn graph_is_empty(g: CfgDag) -> bool {
    graph_nodes(g) =~= Set::<(u16, u16)>::empty() && graph_edge_map(g) =~= Map::<
        ((u16, u16), (u16, u16)),
        u8,
    >::empty()
}

/// Relies on GraphMap::new: a fresh graph has no nodes and no edges.
#[verifier::external_body]
pub fn new_graph() -> (r: CfgDag)
    ensures
        graph_is_empty(r),
{
    petgraph::graphmap::GraphMap::new()
}

/// Relies on GraphMap::add_node: inserts the node, touches no edge.
#[verifier::external_body]
pub fn add_node(g: &mut CfgDag, n: (u16, u16))
    ensures
        graph_nodes(*final(g)) == graph_nodes(*old(g)).insert(n),
        graph_edge_map(*final(g)) == graph_edge_map(*old(g)),
{
    g.add_node(n);
}

/// Relies on GraphMap::add_edge: inserts both endpoints, then sets the weight
/// of the ordered pair, returning the replaced weight if the edge existed.
#[verifier::external_body]
pub fn add_edge(g: &mut CfgDag, a: (u16, u16), b: (u16, u16), w: u8) -> (r: Option<u8>)
    ensures
        graph_nodes(*final(g)) == graph_nodes(*old(g)).insert(a).insert(b),
        graph_edge_map(*final(g)) == graph_edge_map(*old(g)).insert((a, b), w),
        r == (if graph_edge_map(*old(g)).dom().contains((a, b)) {
            Some(graph_edge_map(*old(g))[(a, b)])
        } else {
            Option::<u8>::None
        }),
{
    g.add_edge(a, b, w)
}

/// Relies on GraphMap::contains_edge.
#[verifier::external_body]
pub fn contains_edge(g: &CfgDag, a: (u16, u16), b: (u16, u16)) -> (r: bool)
    ensures
        r == graph_edge_map(*g).dom().contains((a, b)),
{
    g.contains_edge(a, b)
}

/// Relies on GraphMap::remove_node: removes the node and every edge incident
/// to it; returns whether the node was present.
#[verifier::external_body]
pub fn remove_node(g: &mut CfgDag, n: (u16, u16)) -> (r: bool)
    ensures
        graph_nodes(*final(g)) == graph_nodes(*old(g)).remove(n),
        forall|k: ((u16, u16), (u16, u16))|
            #[trigger] graph_edge_map(*final(g)).dom().contains(k) <==> (graph_edge_map(
                *old(g),
            ).dom().contains(k) && k.0 != n && k.1 != n),
        forall|k: ((u16, u16), (u16, u16))|
            #[trigger] graph_edge_map(*final(g)).dom().contains(k) ==> graph_edge_map(*final(g))[k]
                == graph_edge_map(*old(g))[k],
        r == graph_nodes(*old(g)).contains(n),
{
    g.remove_node(n)
}

/// Relies on GraphMap::edges_directed with the outgoing direction: yields
/// each edge leaving `n` exactly once, as `(source, target, weight)`.
#[verifier::external_body]
pub fn outgoing_edges_vec(g: &CfgDag, n: (u16, u16)) -> (r: Vec<((u16, u16), (u16, u16), u8)>)
    ensures
        forall|i: int|
            0 <= i < r@.len() ==> (#[trigger] r@[i]).0 == n && graph_edge_map(*g).dom().contains(
                (n, r@[i].1),
            ) && r@[i].2 == graph_edge_map(*g)[(n, r@[i].1)],
        forall|b: (u16, u16)|
            graph_edge_map(*g).dom().contains((n, b)) ==> exists|i: int|
                0 <= i < r@.len() && (#[trigger] r@[i]).1 == b,
        forall|i: int, j: int| 0 <= i < j < r@.len() ==> r@[i].1 != r@[j].1,
{
    let mut ret: Vec<((u16, u16), (u16, u16), u8)> = Vec::new();
    for e in g.edges_directed(n, petgraph::Direction::Outgoing) {
        ret.push((e.0, e.1, *e.2));
    }
    ret
}

/// Relies on GraphMap::edges_directed with the incoming direction: yields
/// each edge entering `n` (a self loop included) exactly once, as
/// `(source, target, weight)`.
#[verifier::external_body]
pub fn incoming_edges_vec(g: &CfgDag, n: (u16, u16)) -> (r: Vec<((u16, u16), (u16, u16), u8)>)
    ensures
        forall|i: int|
            0 <= i < r@.len() ==> (#[trigger] r@[i]).1 == n && graph_edge_map(*g).dom().contains(
                (r@[i].0, n),
            ) && r@[i].2 == graph_edge_map(*g)[(r@[i].0, n)],
        forall|a: (u16, u16)|
            graph_edge_map(*g).dom().contains((a, n)) ==> exists|i: int|
                0 <= i < r@.len() && (#[trigger] r@[i]).0 == a,
        forall|i: int, j: int| 0 <= i < j < r@.len() ==> r@[i].0 != r@[j].0,
{
    let mut ret: Vec<((u16, u16), (u16, u16), u8)> = Vec::new();
    for e in g.edges_directed(n, petgraph::Direction::Incoming) {
        ret.push((e.0, e.1, *e.2));
    }
    ret
}

} // verus!
