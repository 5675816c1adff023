//! Trusted view of petgraph's stable directed graph.
//!
//! The swap graph is held in a `petgraph::stable_graph::StableGraph` with
//! `u64` node and edge weights. Verus cannot read petgraph, so the graph's
//! contents are named by two uninterpreted functions, [`graph_nodes`] and
//! [`graph_edges`], and every call the library makes goes through a wrapper
//! whose contract states, over those names, what petgraph's source shows.
//! Nothing here ever removes a node or an edge, so indices stay consecutive
//! in insertion order.

use vstd::prelude::*;
use petgraph::stable_graph::{EdgeIndex, NodeIndex, StableGraph};
use petgraph::visit::EdgeRef;
use petgraph::Directed;

verus! {

#[verifier::external_type_specification]
#[verifier::external_body]
#[verifier::reject_recursive_types(N)]
#[verifier::reject_recursive_types(E)]
#[verifier::reject_recursive_types(Ty)]
#[verifier::reject_recursive_types(Ix)]
pub struct ExStableGraph<N, E, Ty, Ix>(StableGraph<N, E, Ty, Ix>);

#[verifier::external_type_specification]
#[verifier::external_body]
pub struct ExDirected(Directed);

/// The node weights of the graph, in insertion order: the node with index
/// `i` carries `graph_nodes(g)[i]`.
pub uninterp spec fn graph_nodes(g: StableGraph<u64, u64, Directed, u32>) -> Seq<u64>;

/// The edges of the graph as `(source, target, weight)` triples, in
/// insertion order: the edge with index `i` is `graph_edges(g)[i]`.
pub uninterp spec fn graph_edges(g: StableGraph<u64, u64, Directed, u32>) -> Seq<
    (usize, usize, u64),
>;

/// Relies on `StableGraph::new`: a graph with no nodes and no edges.
#[verifier::external_body]
pub fn graph_new() -> (g: StableGraph<u64, u64, Directed, u32>)
    ensures
        graph_nodes(g) == Seq::<u64>::empty(),
        graph_edges(g) == Seq::<(usize, usize, u64)>::empty(),
{
    StableGraph::new()
}

/// Relies on `StableGraph::add_node`: with no removals ever made, it
/// appends one node and returns its index, the number of nodes present
/// before. It panics only at the index-type limit, which the bound on the
/// node count excludes.
#[verifier::external_body]
pub fn graph_add_node(g: &mut StableGraph<u64, u64, Directed, u32>, w: u64) -> (r: usize)
    requires
        graph_nodes(*old(g)).len() < 0xffff_ffff,
    ensures
        graph_nodes(*final(g)) == graph_nodes(*old(g)).push(w),
        graph_edges(*final(g)) == graph_edges(*old(g)),
        r == graph_nodes(*old(g)).len(),
{
    g.add_node(w).index()
}

/// Relies on `StableGraph::add_edge`: with no removals ever made, it
/// appends one edge from `a` to `b` and returns its index, the number of
/// edges present before. Parallel edges are allowed. It panics only when an
/// endpoint does not exist or at the index-type limit, which the bounds
/// exclude.
#[verifier::external_body]
pub fn graph_add_edge(
    g: &mut StableGraph<u64, u64, Directed, u32>,
    a: usize,
    b: usize,
    w: u64,
) -> (r: usize)
    requires
        a < graph_nodes(*old(g)).len(),
        b < graph_nodes(*old(g)).len(),
        graph_edges(*old(g)).len() < 0xffff_fffe,
    ensures
        graph_nodes(*final(g)) == graph_nodes(*old(g)),
        graph_edges(*final(g)) == graph_edges(*old(g)).push((a, b, w)),
        r == graph_edges(*old(g)).len(),
{
    g.add_edge(NodeIndex::new(a), NodeIndex::new(b), w).index()
}

/// Relies on `StableGraph::node_weight`: the weight stored at an existing
/// index.
#[verifier::external_body]
pub fn graph_node_weight(g: &StableGraph<u64, u64, Directed, u32>, a: usize) -> (r: u64)
    requires
        a < graph_nodes(*g).len(),
    ensures
        r == graph_nodes(*g)[a as int],
{
    *g.node_weight(NodeIndex::new(a)).expect("node was added and never removed")
}

/// Relies on `StableGraph::edge_endpoints`: the stored source and target of
/// an existing edge.
#[verifier::external_body]
pub fn graph_edge_endpoints(g: &StableGraph<u64, u64, Directed, u32>, e: usize) -> (r: (
    usize,
    usize,
))
    requires
        e < graph_edges(*g).len(),
    ensures
        r.0 == graph_edges(*g)[e as int].0,
        r.1 == graph_edges(*g)[e as int].1,
{
    let (s, t) = g.edge_endpoints(EdgeIndex::new(e)).expect(
        "edge was added and never removed",
    );
    (s.index(), t.index())
}

/// Relies on `StableGraph::edge_weight`: the weight stored at an existing
/// edge index.
#[verifier::external_body]
pub fn graph_edge_weight(g: &StableGraph<u64, u64, Directed, u32>, e: usize) -> (r: u64)
    requires
        e < graph_edges(*g).len(),
    ensures
        r == graph_edges(*g)[e as int].2,
{
    *g.edge_weight(EdgeIndex::new(e)).expect("edge was added and never removed")
}

/// The outgoing edges of `a` in `edges`, as `(index, target, weight)`
/// entries, listed from the last-added edge down to the first.
pub open spec fn outgoing_rev(edges: Seq<(usize, usize, u64)>, a: usize) -> Seq<
    (usize, usize, u64),
>
    decreases edges.len(),
{
    if edges.len() == 0 {
        Seq::empty()
    } else {
        let last = edges.last();
        let rest = outgoing_rev(edges.drop_last(), a);
        if last.0 == a {
            seq![((edges.len() - 1) as usize, last.1, last.2)] + rest
        } else {
            rest
        }
    }
}

/// Relies on `StableGraph::edges`: for a directed graph it yields the
/// outgoing edges of `a`, most recently added first.
#[verifier::external_body]
pub fn graph_edges_from(g: &StableGraph<u64, u64, Directed, u32>, a: usize) -> (r: Vec<
    (usize, usize, u64),
>)
    requires
        a < graph_nodes(*g).len(),
    ensures
        r@ == outgoing_rev(graph_edges(*g), a),
{
    g.edges(NodeIndex::new(a)).map(
        |e: petgraph::stable_graph::EdgeReference<u64, u32>| (
            e.id().index(),
            e.target().index(),
            *e.weight(),
        ),
    ).collect()
}

/// Every entry of [`outgoing_rev`] names a real edge leaving `a`.
pub proof fn lemma_outgoing_rev_sound(edges: Seq<(usize, usize, u64)>, a: usize)
    requires
        edges.len() <= usize::MAX,
    ensures
        forall|k: int|
            0 <= k < outgoing_rev(edges, a).len() ==> {
                let entry = #[trigger] outgoing_rev(edges, a)[k];
                &&& (entry.0 as int) < edges.len()
                &&& edges[entry.0 as int] == (a, entry.1, entry.2)
            },
    decreases edges.len(),
{
    if edges.len() > 0 {
        let last = edges.last();
        let shorter = edges.drop_last();
        lemma_outgoing_rev_sound(shorter, a);
        assert forall|k: int|
            0 <= k < outgoing_rev(edges, a).len() implies {
            let entry = #[trigger] outgoing_rev(edges, a)[k];
            &&& (entry.0 as int) < edges.len()
            &&& edges[entry.0 as int] == (a, entry.1, entry.2)
        } by {
            let out = outgoing_rev(edges, a);
            if last.0 == a {
                if k == 0 {
                    assert(out[0] == (((edges.len() - 1) as usize), last.1, last.2));
                } else {
                    assert(out[k] == outgoing_rev(shorter, a)[k - 1]);
                    assert(shorter[out[k].0 as int] == edges[out[k].0 as int]);
                }
            } else {
                assert(out[k] == outgoing_rev(shorter, a)[k]);
                assert(shorter[out[k].0 as int] == edges[out[k].0 as int]);
            }
        }
    }
}

/// Every edge leaving `a` appears in [`outgoing_rev`].
pub proof fn lemma_outgoing_rev_complete(edges: Seq<(usize, usize, u64)>, a: usize, j: int)
    requires
        edges.len() <= usize::MAX,
        0 <= j < edges.len(),
        edges[j].0 == a,
    ensures
        outgoing_rev(edges, a).contains((j as usize, edges[j].1, edges[j].2)),
    decreases edges.len(),
{
    let last = edges.last();
    let shorter = edges.drop_last();
    let out = outgoing_rev(edges, a);
    if j == edges.len() - 1 {
        assert(last.0 == a);
        assert(out[0] == (j as usize, edges[j].1, edges[j].2));
    } else {
        lemma_outgoing_rev_complete(shorter, a, j);
        let entry = (j as usize, edges[j].1, edges[j].2);
        let k = choose|k: int|
            0 <= k < outgoing_rev(shorter, a).len() && outgoing_rev(shorter, a)[k] == entry;
        if last.0 == a {
            assert(out[k + 1] == entry);
        } else {
            assert(out[k] == entry);
        }
    }
}

} // verus!
