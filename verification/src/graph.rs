//! The adjacency store. The states and their outgoing edges live in a
//! `petgraph` stable graph; each edge of the graph carries the slot that its
//! record has in the edge list of its source state.

use crate::node::Node;
use petgraph::stable_graph::NodeIndex;
use petgraph::stable_graph::StableGraph;
use petgraph::visit::EdgeRef;
use petgraph::Directed;
use vstd::prelude::*;

verus! {

/// The stable graph of `petgraph`. What it holds is known through
/// `graph_slots` and `graph_edge_count` only.
#[verifier::external_type_specification]
#[verifier::external_body]
#[verifier::reject_recursive_types(N)]
#[verifier::reject_recursive_types(E)]
#[verifier::reject_recursive_types(Ty)]
#[verifier::reject_recursive_types(Ix)]
pub struct ExStableGraph<N, E, Ty, Ix>(StableGraph<N, E, Ty, Ix>);

/// The marker of `petgraph` for graphs with directed edges.
#[verifier::external_type_specification]
#[verifier::external_body]
pub struct ExDirected(Directed);

/// One outgoing edge as the graph holds it: the target's index and the
/// edge's weight.
pub type OutEdge = (usize, usize);

/// The node slots of a graph, by index. A slot is `None` while no node
/// lives at that index (its node was removed); otherwise it holds the node's
/// outgoing edges, the most recently added first.
pub uninterp spec fn graph_slots(g: StableGraph<Node, usize, Directed, u32>) -> Seq<Option<Seq<OutEdge>>>;

/// The number of edges in a graph.
pub uninterp spec fn graph_edge_count(g: StableGraph<Node, usize, Directed, u32>) -> nat;

/// Whether a node lives at index `a`.
pub open spec fn is_live(slots: Seq<Option<Seq<OutEdge>>>, a: int) -> bool {
    0 <= a < slots.len() && slots[a] is Some
}

/// Whether every slot holds a node.
pub open spec fn no_vacancy(slots: Seq<Option<Seq<OutEdge>>>) -> bool {
    forall|i: int| 0 <= i < slots.len() ==> (#[trigger] slots[i]) is Some
}

/// `StableGraph::new`: a graph without nodes and without edges.
#[verifier::external_body]
pub(crate) fn graph_new() -> (g: StableGraph<Node, usize, Directed, u32>)
    ensures
        graph_slots(g) == Seq::<Option<Seq<OutEdge>>>::empty(),
        graph_edge_count(g) == 0,
{
    StableGraph::new()
}

/// `StableGraph::add_node` on a graph without a vacant slot: the new node
/// takes a new slot at the end and has no edges, and no edge changes. The
/// call panics only when the index type has no slot left, which the bound on
/// the number of slots rules out.
#[verifier::external_body]
pub(crate) fn graph_add_node(g: &mut StableGraph<Node, usize, Directed, u32>, n: Node) -> (r: usize)
    requires
        no_vacancy(graph_slots(*old(g))),
        graph_slots(*old(g)).len() < u32::MAX,
    ensures
        r == graph_slots(*old(g)).len(),
        graph_slots(*final(g)) == graph_slots(*old(g)).push(Some(Seq::<OutEdge>::empty())),
        graph_edge_count(*final(g)) == graph_edge_count(*old(g)),
{
    g.add_node(n).index()
}

/// `StableGraph::add_edge`: the edge from `a` to `b` with weight `w` becomes
/// the first outgoing edge of `a`; nothing else changes among the outgoing
/// edges. The call panics where an endpoint is missing or the index type has
/// no edge index left, which the conditions rule out.
#[verifier::external_body]
pub(crate) fn graph_add_edge(
    g: &mut StableGraph<Node, usize, Directed, u32>,
    a: usize,
    b: usize,
    w: usize,
)
    requires
        is_live(graph_slots(*old(g)), a as int),
        is_live(graph_slots(*old(g)), b as int),
        graph_edge_count(*old(g)) < u32::MAX,
    ensures
        graph_slots(*final(g)) == graph_slots(*old(g)).update(
            a as int,
            Some(seq![(b, w)] + graph_slots(*old(g))[a as int].unwrap()),
        ),
        graph_edge_count(*final(g)) == graph_edge_count(*old(g)) + 1,
{
    g.add_edge(NodeIndex::new(a), NodeIndex::new(b), w);
}

/// `StableGraph::edges`: the outgoing edges of the node at `a`, the most
/// recently added first, each as its target's index and its weight.
#[verifier::external_body]
pub(crate) fn graph_out_edges(g: &StableGraph<Node, usize, Directed, u32>, a: usize) -> (r: Vec<OutEdge>)
    requires
        is_live(graph_slots(*g), a as int),
    ensures
        r@ == graph_slots(*g)[a as int].unwrap(),
{
    g.edges(NodeIndex::new(a)).map(|e| (e.target().index(), *e.weight())).collect()
}

/// `StableGraph::edge_count`.
#[verifier::external_body]
pub(crate) fn graph_edges_total(g: &StableGraph<Node, usize, Directed, u32>) -> (r: usize)
    ensures
        r == graph_edge_count(*g),
{
    g.edge_count()
}

} // verus!
