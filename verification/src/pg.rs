//! Trusted boundary around petgraph's directed graph.
//!
//! The content graph keeps its adjacency structure in a
//! `petgraph::graph::Graph`. Verified code never looks inside that value:
//! it sees the graph only through the two names below (its node count and
//! its edge list) and the small wrappers, whose contracts state what
//! petgraph's documentation and source promise. Node payloads live in a
//! separate arena owned by the caller, so the petgraph value carries unit
//! node weights; the `usize` edge weight carries no meaning and is
//! always zero.
//!
//! The graph is only ever grown: nothing in this crate removes a node
//! or an edge, and the wrappers are crate-private, so every value of
//! the type reaching them was built by them alone. The ordering claims
//! below are stated for such append-only graphs.

use petgraph::visit::EdgeRef;
use vstd::prelude::*;

verus! {

#[verifier::external_type_specification]
#[verifier::external_body]
#[verifier::reject_recursive_types(N)]
#[verifier::reject_recursive_types(E)]
#[verifier::reject_recursive_types(Ty)]
#[verifier::reject_recursive_types(Ix)]
pub struct ExPetgraphGraph<N, E, Ty, Ix>(petgraph::graph::Graph<N, E, Ty, Ix>);

#[verifier::external_type_specification]
#[verifier::external_body]
pub struct ExPetgraphDirected(petgraph::Directed);

/// The one petgraph instantiation the crate uses: unit node weights,
/// `usize` edge weights, directed edges, `usize` node indices (so that
/// petgraph's index-capacity limits never apply).
pub type PostDiGraph = petgraph::graph::Graph<(), usize, petgraph::Directed, usize>;

/// How many nodes the petgraph value holds.
pub uninterp spec fn pg_node_count(g: PostDiGraph) -> nat;

/// The graph's directed edges, as (source, target) node indices, in the
/// order they were added.
pub uninterp spec fn pg_edges(g: PostDiGraph) -> Seq<(usize, usize)>;

/// Targets of the edges leaving `a`, most recently added first: petgraph
/// documents that `neighbors` lists neighbors in reverse order of edge
/// addition.
pub open spec fn out_neighbors(edges: Seq<(usize, usize)>, a: usize) -> Seq<usize>
    decreases edges.len(),
{
    if edges.len() == 0 {
        Seq::empty()
    } else {
        let rest = out_neighbors(edges.drop_last(), a);
        if edges.last().0 == a {
            seq![edges.last().1] + rest
        } else {
            rest
        }
    }
}

/// Sources of the edges entering `a`, most recently added first.
pub open spec fn in_neighbors(edges: Seq<(usize, usize)>, a: usize) -> Seq<usize>
    decreases edges.len(),
{
    if edges.len() == 0 {
        Seq::empty()
    } else {
        let rest = in_neighbors(edges.drop_last(), a);
        if edges.last().1 == a {
            seq![edges.last().0] + rest
        } else {
            rest
        }
    }
}

/// Relies on petgraph's `Graph::with_capacity`: a graph with no nodes and
/// no edges.
#[verifier::external_body]
pub(crate) fn pg_new() -> (g: PostDiGraph)
    ensures
        pg_node_count(g) == 0,
        pg_edges(g) == Seq::<(usize, usize)>::empty(),
{
    petgraph::graph::Graph::with_capacity(0, 0)
}

/// Relies on petgraph's `Graph::add_node`: appends one node whose index is
/// the old node count; edges are untouched. With `usize` indices the call
/// cannot hit petgraph's index limit.
#[verifier::external_body]
pub(crate) fn pg_add_node(g: &mut PostDiGraph) -> (ix: usize)
    ensures
        ix == pg_node_count(*old(g)),
        pg_node_count(*final(g)) == pg_node_count(*old(g)) + 1,
        pg_edges(*final(g)) == pg_edges(*old(g)),
{
    g.add_node(()).index()
}

/// Relies on petgraph's `Graph::add_edge`: appends one directed edge from
/// `a` to `b`; nodes are untouched. The call panics on an index with no
/// node, so the contract demands both endpoints exist.
#[verifier::external_body]
pub(crate) fn pg_add_edge(g: &mut PostDiGraph, a: usize, b: usize)
    requires
        a < pg_node_count(*old(g)),
        b < pg_node_count(*old(g)),
    ensures
        pg_node_count(*final(g)) == pg_node_count(*old(g)),
        pg_edges(*final(g)) == pg_edges(*old(g)).push((a, b)),
{
    let _ = g.add_edge(
        petgraph::graph::NodeIndex::new(a),
        petgraph::graph::NodeIndex::new(b),
        0,
    );
}

/// Relies on petgraph's `Graph::neighbors`: the targets of the edges
/// leaving `a`, in reverse order of their addition.
#[verifier::external_body]
pub(crate) fn pg_neighbors_out(g: &PostDiGraph, a: usize) -> (r: Vec<usize>)
    requires
        a < pg_node_count(*g),
    ensures
        r@ == out_neighbors(pg_edges(*g), a),
{
    g.neighbors(petgraph::graph::NodeIndex::new(a)).map(|ix| ix.index()).collect()
}

/// Relies on petgraph's `Graph::neighbors_directed` with `Incoming`: the
/// sources of the edges entering `a`, in reverse order of their addition.
#[verifier::external_body]
pub(crate) fn pg_neighbors_in(g: &PostDiGraph, a: usize) -> (r: Vec<usize>)
    requires
        a < pg_node_count(*g),
    ensures
        r@ == in_neighbors(pg_edges(*g), a),
{
    g.neighbors_directed(petgraph::graph::NodeIndex::new(a), petgraph::Direction::Incoming)
        .map(|ix| ix.index())
        .collect()
}

/// Relies on petgraph's `Graph::edge_references`: every edge as its
/// (source, target) pair, in the order the edges were added.
#[verifier::external_body]
pub(crate) fn pg_edge_list(g: &PostDiGraph) -> (r: Vec<(usize, usize)>)
    ensures
        r@ == pg_edges(*g),
{
    g.edge_references().map(|e| (e.source().index(), e.target().index())).collect()
}

} // verus!
