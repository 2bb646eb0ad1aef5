//! The mathematical model of the store: a sequence of states, each given by
//! the list of its outgoing edges, and what construction, union and
//! intersection make of it.

use crate::edge::ECTANode;
use crate::edge::EdgeView;
use vstd::prelude::*;

verus! {

/// The most states that a store can hold, and the most edges.
pub open spec fn limit() -> nat {
    0xffff_ffff
}

/// Whether `b` holds the states of `a`, unchanged, and then possibly more.
pub open spec fn extends<L>(a: Seq<Seq<EdgeView<L>>>, b: Seq<Seq<EdgeView<L>>>) -> bool {
    &&& a.len() <= b.len()
    &&& forall|n: int| 0 <= n < a.len() ==> #[trigger] b[n] == a[n]
}

/// The number of edges of all states together.
pub open spec fn total_edges<L>(nodes: Seq<Seq<EdgeView<L>>>) -> nat
    decreases nodes.len(),
{
    if nodes.len() == 0 {
        0
    } else {
        total_edges(nodes.drop_last()) + nodes.last().len()
    }
}

/// Whether a store of this size can be held.
pub open spec fn fits<L>(nodes: Seq<Seq<EdgeView<L>>>) -> bool {
    nodes.len() <= limit() && total_edges(nodes) <= limit()
}

/// Hash-consing: no two states have the same edges, counted with their
/// multiplicity and in whatever order.
pub open spec fn canonical<L>(nodes: Seq<Seq<EdgeView<L>>>) -> bool {
    forall|i: int, j: int|
        0 <= i < nodes.len() && 0 <= j < nodes.len() && i != j ==> (#[trigger] nodes[i]).to_multiset()
            != (#[trigger] nodes[j]).to_multiset()
}

/// Children come first: every edge leads to a state that was there before
/// its source.
pub open spec fn acyclic<L>(nodes: Seq<Seq<EdgeView<L>>>) -> bool {
    forall|n: int, k: int|
        0 <= n < nodes.len() && 0 <= k < nodes[n].len() ==> (#[trigger] nodes[n][k]).nodeidx < n
}

/// Whether the states form a valid store with the empty state at `empty`.
pub open spec fn well_formed<L>(nodes: Seq<Seq<EdgeView<L>>>, empty: ECTANode) -> bool {
    &&& canonical(nodes)
    &&& acyclic(nodes)
    &&& fits(nodes)
    &&& empty < nodes.len()
    &&& nodes[empty as int].len() == 0
}

/// Whether every edge of the list leads to a state of the store.
pub open spec fn targets_within<L>(es: Seq<EdgeView<L>>, len: nat) -> bool {
    forall|k: int| 0 <= k < es.len() ==> (#[trigger] es[k]).nodeidx < len
}

/// Whether some state of the store has the edges `es`.
pub open spec fn holds<L>(nodes: Seq<Seq<EdgeView<L>>>, es: Seq<EdgeView<L>>) -> bool {
    exists|k: int| 0 <= k < nodes.len() && (#[trigger] nodes[k]).to_multiset() == es.to_multiset()
}

/// The state of the store that has the edges `es`.
pub open spec fn index_of<L>(nodes: Seq<Seq<EdgeView<L>>>, es: Seq<EdgeView<L>>) -> int {
    choose|k: int| 0 <= k < nodes.len() && (#[trigger] nodes[k]).to_multiset() == es.to_multiset()
}

/// The canonical state for the edges `es`: the state that has them, or a new
/// state at the end of the store.
pub open spec fn hash_cons<L>(nodes: Seq<Seq<EdgeView<L>>>, es: Seq<EdgeView<L>>) -> (
    Seq<Seq<EdgeView<L>>>,
    ECTANode,
) {
    if holds(nodes, es) {
        (nodes, index_of(nodes, es) as ECTANode)
    } else {
        (nodes.push(es), nodes.len() as ECTANode)
    }
}

/// What a caller asks for as one alternative of a state: a label, an
/// optional constraint, and the children in the order of their positions.
pub type EdgeSpec<L> = (L, Option<Seq<char>>, Seq<ECTANode>);

/// The edges of one alternative: one for each child, at the child's position.
pub open spec fn fan<L>(s: EdgeSpec<L>) -> Seq<EdgeView<L>> {
    Seq::new(
        s.2.len(),
        |i: int| EdgeView { data: s.0, constraints: s.1, edge_num: i as u8, nodeidx: s.2[i] },
    )
}

/// The edges of a list of alternatives, in their order.
pub open spec fn expand<L>(specs: Seq<EdgeSpec<L>>) -> Seq<EdgeView<L>>
    decreases specs.len(),
{
    if specs.len() == 0 {
        Seq::empty()
    } else {
        expand(specs.drop_last()) + fan(specs.last())
    }
}

/// The edges of a state, each with the state as its source.
pub open spec fn with_source<L>(es: Seq<EdgeView<L>>, n: ECTANode) -> Seq<(ECTANode, EdgeView<L>)> {
    Seq::new(es.len(), |i: int| (n, es[i]))
}

/// Every edge of the first `n` states with its source, in the order of the
/// states and of their edges.
pub open spec fn all_edges<L>(nodes: Seq<Seq<EdgeView<L>>>, n: nat) -> Seq<(ECTANode, EdgeView<L>)>
    decreases n,
{
    if n == 0 {
        Seq::empty()
    } else {
        all_edges(nodes, (n - 1) as nat) + with_source(nodes[n - 1], (n - 1) as ECTANode)
    }
}

/// Whether two edges can be paired in an intersection: same label, same
/// position, same constraint.
pub open spec fn agree<L>(e1: EdgeView<L>, e2: EdgeView<L>) -> bool {
    e1.data == e2.data && e1.edge_num == e2.edge_num && e1.constraints == e2.constraints
}

/// The edge `e` led to the state `c`.
pub open spec fn retarget<L>(e: EdgeView<L>, c: ECTANode) -> EdgeView<L> {
    EdgeView { data: e.data, constraints: e.constraints, edge_num: e.edge_num, nodeidx: c }
}

/// The pairs of an index below `n` and an index below `m`, the second index
/// running faster.
pub open spec fn all_pairs(n: nat, m: nat) -> Seq<(usize, usize)> {
    Seq::new(n * m, |k: int| ((k / (m as int)) as usize, (k % (m as int)) as usize))
}

/// Whether an intersected child is dropped: the children have nothing in
/// common though neither is the empty state.
pub open spec fn dropped(c: ECTANode, t1: ECTANode, t2: ECTANode, empty: ECTANode) -> bool {
    c == empty && t1 != empty && t2 != empty
}

/// The store and the edges gathered after the first `k` pairs of an edge of
/// `a` and an edge of `b` have been looked at.
pub open spec fn intersect_pairs<L>(
    nodes: Seq<Seq<EdgeView<L>>>,
    empty: ECTANode,
    a: ECTANode,
    b: ECTANode,
    ea: Seq<EdgeView<L>>,
    eb: Seq<EdgeView<L>>,
    k: nat,
) -> (Seq<Seq<EdgeView<L>>>, Seq<EdgeView<L>>)
    decreases a + b, k,
{
    if k == 0 {
        (nodes, Seq::empty())
    } else {
        let (cur, es) = intersect_pairs(nodes, empty, a, b, ea, eb, (k - 1) as nat);
        let e1 = ea[(k - 1) / (eb.len() as int)];
        let e2 = eb[(k - 1) % (eb.len() as int)];
        if agree(e1, e2) && e1.nodeidx < a && e2.nodeidx < b {
            let (next, c) = intersect_model(cur, empty, e1.nodeidx, e2.nodeidx);
            if dropped(c, e1.nodeidx, e2.nodeidx, empty) {
                (next, es)
            } else {
                (next, es.push(retarget(e1, c)))
            }
        } else {
            (cur, es)
        }
    }
}

/// The store after the intersection of the states `a` and `b`, and the state
/// that is their intersection.
pub open spec fn intersect_model<L>(
    nodes: Seq<Seq<EdgeView<L>>>,
    empty: ECTANode,
    a: ECTANode,
    b: ECTANode,
) -> (Seq<Seq<EdgeView<L>>>, ECTANode)
    decreases a + b, nodes[a as int].len() * nodes[b as int].len() + 1,
{
    if a == b {
        (nodes, a)
    } else if a == empty || b == empty {
        (nodes, empty)
    } else {
        let (cur, es) = intersect_pairs(
            nodes,
            empty,
            a,
            b,
            nodes[a as int],
            nodes[b as int],
            nodes[a as int].len() * nodes[b as int].len(),
        );
        if es.len() == 0 {
            (cur, empty)
        } else {
            hash_cons(cur, es)
        }
    }
}

pub proof fn lemma_extends_transitive<L>(
    a: Seq<Seq<EdgeView<L>>>,
    b: Seq<Seq<EdgeView<L>>>,
    c: Seq<Seq<EdgeView<L>>>,
)
    requires
        extends(a, b),
        extends(b, c),
    ensures
        extends(a, c),
{
    assert forall|n: int| 0 <= n < a.len() implies #[trigger] c[n] == a[n] by {
        assert(b[n] == a[n]);
    }
}

/// One more state adds its edges to the total.
pub proof fn lemma_total_push<L>(nodes: Seq<Seq<EdgeView<L>>>, es: Seq<EdgeView<L>>)
    ensures
        total_edges(nodes.push(es)) == total_edges(nodes) + es.len(),
{
    assert(nodes.push(es).drop_last() =~= nodes);
}

/// A store has no more edges than a store that extends it.
pub proof fn lemma_total_monotone<L>(a: Seq<Seq<EdgeView<L>>>, b: Seq<Seq<EdgeView<L>>>)
    requires
        extends(a, b),
    ensures
        total_edges(a) <= total_edges(b),
    decreases b.len(),
{
    if a.len() < b.len() {
        assert(extends(a, b.drop_last()));
        lemma_total_monotone(a, b.drop_last());
    } else {
        assert(a =~= b);
    }
}

/// Where a store can be held, so can every store that it extends.
pub proof fn lemma_fits_antitone<L>(a: Seq<Seq<EdgeView<L>>>, b: Seq<Seq<EdgeView<L>>>)
    requires
        extends(a, b),
        fits(b),
    ensures
        fits(a),
{
    lemma_total_monotone(a, b);
}

/// There is room for the canonical state of `es` where there is room for
/// one more state with these edges.
pub proof fn lemma_room<L>(nodes: Seq<Seq<EdgeView<L>>>, es: Seq<EdgeView<L>>)
    requires
        nodes.len() < limit(),
        total_edges(nodes) + es.len() <= limit(),
    ensures
        fits(hash_cons(nodes, es).0),
{
    lemma_total_push(nodes, es);
}

/// In a canonical store, the state that has given edges is the only one.
pub proof fn lemma_index_unique<L>(nodes: Seq<Seq<EdgeView<L>>>, es: Seq<EdgeView<L>>, k: int)
    requires
        canonical(nodes),
        0 <= k < nodes.len(),
        nodes[k].to_multiset() == es.to_multiset(),
    ensures
        holds(nodes, es),
        index_of(nodes, es) == k,
        hash_cons(nodes, es) == (nodes, k as ECTANode),
{
}

/// Hash-consing extends the store.
pub proof fn lemma_hash_cons_extends<L>(nodes: Seq<Seq<EdgeView<L>>>, es: Seq<EdgeView<L>>)
    ensures
        extends(nodes, hash_cons(nodes, es).0),
{
}

/// Hash-consing keeps a store valid, where the result can be held.
pub proof fn lemma_hash_cons_valid<L>(nodes: Seq<Seq<EdgeView<L>>>, empty: ECTANode, es: Seq<EdgeView<L>>)
    requires
        well_formed(nodes, empty),
        targets_within(es, nodes.len()),
        fits(hash_cons(nodes, es).0),
    ensures
        well_formed(hash_cons(nodes, es).0, empty),
        hash_cons(nodes, es).1 < hash_cons(nodes, es).0.len(),
        hash_cons(nodes, es).0[hash_cons(nodes, es).1 as int].to_multiset() == es.to_multiset(),
{
    if !holds(nodes, es) {
        let after = nodes.push(es);
        assert forall|i: int, j: int|
            0 <= i < after.len() && 0 <= j < after.len() && i != j implies (#[trigger] after[i]).to_multiset()
            != (#[trigger] after[j]).to_multiset() by {
            if i < nodes.len() && j < nodes.len() {
                assert(nodes[i].to_multiset() != nodes[j].to_multiset());
            } else if i < nodes.len() {
                assert(nodes[i].to_multiset() != es.to_multiset());
            } else {
                assert(nodes[j].to_multiset() != es.to_multiset());
            }
        }
        assert forall|n: int, k: int| 0 <= n < after.len() && 0 <= k < after[n].len() implies (
        #[trigger] after[n][k]).nodeidx < n by {
            if n < nodes.len() {
                assert(nodes[n][k].nodeidx < n);
            }
        }
    }
}

/// Looking at one more pair extends the store.
pub proof fn lemma_pairs_step_extends<L>(
    nodes: Seq<Seq<EdgeView<L>>>,
    empty: ECTANode,
    a: ECTANode,
    b: ECTANode,
    ea: Seq<EdgeView<L>>,
    eb: Seq<EdgeView<L>>,
    k: nat,
)
    ensures
        extends(
            intersect_pairs(nodes, empty, a, b, ea, eb, k).0,
            intersect_pairs(nodes, empty, a, b, ea, eb, k + 1).0,
        ),
    decreases a + b, k + 1, 0nat,
{
    let (cur, es) = intersect_pairs(nodes, empty, a, b, ea, eb, k);
    let e1 = ea[(k as int) / (eb.len() as int)];
    let e2 = eb[(k as int) % (eb.len() as int)];
    if agree(e1, e2) && e1.nodeidx < a && e2.nodeidx < b {
        lemma_model_extends(cur, empty, e1.nodeidx, e2.nodeidx);
    }
}

/// The store only grows while the pairs are looked at.
pub proof fn lemma_pairs_extend<L>(
    nodes: Seq<Seq<EdgeView<L>>>,
    empty: ECTANode,
    a: ECTANode,
    b: ECTANode,
    ea: Seq<EdgeView<L>>,
    eb: Seq<EdgeView<L>>,
    k: nat,
    to: nat,
)
    requires
        k <= to,
    ensures
        extends(
            intersect_pairs(nodes, empty, a, b, ea, eb, k).0,
            intersect_pairs(nodes, empty, a, b, ea, eb, to).0,
        ),
    decreases a + b, to + 1, 1nat,
{
    if k < to {
        lemma_pairs_extend(nodes, empty, a, b, ea, eb, k, (to - 1) as nat);
        lemma_pairs_step_extends(nodes, empty, a, b, ea, eb, (to - 1) as nat);
        lemma_extends_transitive(
            intersect_pairs(nodes, empty, a, b, ea, eb, k).0,
            intersect_pairs(nodes, empty, a, b, ea, eb, (to - 1) as nat).0,
            intersect_pairs(nodes, empty, a, b, ea, eb, to).0,
        );
    }
}

/// An intersection extends the store.
pub proof fn lemma_model_extends<L>(nodes: Seq<Seq<EdgeView<L>>>, empty: ECTANode, a: ECTANode, b: ECTANode)
    ensures
        extends(nodes, intersect_model(nodes, empty, a, b).0),
    decreases a + b, nodes[a as int].len() * nodes[b as int].len() + 2, 0nat,
{
    if a != b && a != empty && b != empty {
        let n = nodes[a as int].len() * nodes[b as int].len();
        lemma_pairs_extend(nodes, empty, a, b, nodes[a as int], nodes[b as int], 0, n);
        let (cur, es) = intersect_pairs(nodes, empty, a, b, nodes[a as int], nodes[b as int], n);
        lemma_hash_cons_extends(cur, es);
        lemma_extends_transitive(nodes, cur, intersect_model(nodes, empty, a, b).0);
    }
}

/// The store after any number of pairs is a part of the store after the
/// whole intersection.
pub proof fn lemma_pairs_within_model<L>(
    nodes: Seq<Seq<EdgeView<L>>>,
    empty: ECTANode,
    a: ECTANode,
    b: ECTANode,
    k: nat,
)
    requires
        a != b,
        a != empty,
        b != empty,
        k <= nodes[a as int].len() * nodes[b as int].len(),
    ensures
        extends(
            intersect_pairs(nodes, empty, a, b, nodes[a as int], nodes[b as int], k).0,
            intersect_model(nodes, empty, a, b).0,
        ),
{
    let n = nodes[a as int].len() * nodes[b as int].len();
    lemma_pairs_extend(nodes, empty, a, b, nodes[a as int], nodes[b as int], k, n);
    let (cur, es) = intersect_pairs(nodes, empty, a, b, nodes[a as int], nodes[b as int], n);
    lemma_hash_cons_extends(cur, es);
    lemma_extends_transitive(
        intersect_pairs(nodes, empty, a, b, nodes[a as int], nodes[b as int], k).0,
        cur,
        intersect_model(nodes, empty, a, b).0,
    );
}

} // verus!
