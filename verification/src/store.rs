//! The store: a hash-consed graph of states. Every distinct collection of
//! edges is one state, children are built before their parents, and union and
//! intersection make new states out of old ones without changing any.

use crate::constraints::Constraints;
use crate::constraints::PathConstraintStringify;
use crate::edge::edges_view;
use crate::edge::same_edges;
use crate::edge::text_of;
use crate::edge::ECTANode;
use crate::edge::Edge;
use crate::edge::EdgeView;
use crate::graph::graph_add_edge;
use crate::graph::graph_add_node;
use crate::graph::graph_edge_count;
use crate::graph::graph_edges_total;
use crate::graph::graph_new;
use crate::graph::graph_out_edges;
use crate::graph::graph_slots;
use crate::graph::OutEdge;
use crate::label::ECTATrait;
use crate::laws::lemma_intersection_edges;
use crate::laws::lemma_model_stable;
use crate::laws::paired_edges;
use crate::model::agree;
use crate::model::all_edges;
use crate::model::all_pairs;
use crate::model::canonical;
use crate::model::expand;
use crate::model::extends;
use crate::model::fan;
use crate::model::fits;
use crate::model::hash_cons;
use crate::model::holds;
use crate::model::intersect_model;
use crate::model::intersect_pairs;
use crate::model::lemma_extends_transitive;
use crate::model::lemma_fits_antitone;
use crate::model::lemma_hash_cons_extends;
use crate::model::lemma_index_unique;
use crate::model::lemma_pairs_within_model;
use crate::model::lemma_room;
use crate::model::lemma_total_push;
use crate::model::limit;
use crate::model::retarget;
use crate::model::targets_within;
use crate::model::total_edges;
use crate::model::well_formed;
use crate::model::with_source;
use crate::model::EdgeSpec;
use crate::node::Node;
use crate::product::index_pairs;
use crate::product::next_pair;
use crate::product::product_rest;
use petgraph::stable_graph::StableGraph;
use petgraph::Directed;
use vstd::pervasive::unreached;
use vstd::prelude::*;

verus! {

/// Why an operation on the store gave no state.
#[derive(Clone, Copy, Debug, PartialEq, Eq, Structural)]
pub enum EctaError {
    /// The store cannot hold the states or edges that the result needs.
    Exhausted,
    /// The operation is not provided.
    Unimplemented,
}

impl EctaError {
    /// What the error says.
    pub open spec fn text(self) -> Seq<char> {
        match self {
            EctaError::Exhausted => "the store cannot hold the result"@,
            EctaError::Unimplemented => "the operation is not provided"@,
        }
    }

    /// What the error says.
    pub fn message(&self) -> (s: &'static str)
        ensures
            s@ == self.text(),
    {
        match self {
            EctaError::Exhausted => "the store cannot hold the result",
            EctaError::Unimplemented => "the operation is not provided",
        }
    }
}

/// The hash-consed store of states.
pub struct ECTA<S, EQ: PathConstraintStringify> {
    /// The states and, for each, its outgoing edges: every edge with its
    /// target and its slot in the edge list of its source.
    g: StableGraph<Node, usize, Directed, u32>,
    /// The edge list of every state, by the state's index. No two lists
    /// hold the same edges: a request for edges that a state has finds that
    /// state here.
    map: Vec<Vec<Edge<S, EQ>>>,
    /// The state without edges.
    pub empty_node: ECTANode,
}

/// The outgoing edges that the graph holds for a state once the first `k`
/// edges of its list are added: the latest first, each with its slot.
pub open spec fn arcs_of<S, EQ: PathConstraintStringify>(es: Seq<Edge<S, EQ>>, k: nat) -> Seq<OutEdge> {
    Seq::new(k, |j: int| (es[k - 1 - j].nodeidx, (k - 1 - j) as usize))
}

/// What a caller hands over as one alternative, by its view.
pub open spec fn spec_view<S: View, EQ: PathConstraintStringify>(
    s: (S, Option<Constraints<EQ>>, Vec<ECTANode>),
) -> EdgeSpec<S::V> {
    (s.0@, text_of(s.1), s.2@)
}

/// The alternatives of a request, each by its view.
pub open spec fn specs_view<S: View, EQ: PathConstraintStringify>(
    v: Seq<(S, Option<Constraints<EQ>>, Vec<ECTANode>)>,
) -> Seq<EdgeSpec<S::V>> {
    Seq::new(v.len(), |i: int| spec_view(v[i]))
}

/// Whether a request names only states of a store with `len` states, at most
/// 256 children in each alternative.
pub open spec fn request_ok<L>(specs: Seq<EdgeSpec<L>>, len: nat) -> bool {
    forall|b: int|
        0 <= b < specs.len() ==> (#[trigger] specs[b]).2.len() <= 256 && forall|c: int|
            0 <= c < specs[b].2.len() ==> (#[trigger] specs[b].2[c]) < len
}

impl<S: ECTATrait, EQ: ECTATrait + PathConstraintStringify> View for ECTA<S, EQ> {
    type V = Seq<Seq<EdgeView<S::V>>>;

    /// The states in the order of their creation, each as the list of its
    /// outgoing edges.
    closed spec fn view(&self) -> Seq<Seq<EdgeView<S::V>>> {
        Seq::new(self.map.len() as nat, |n: int| edges_view(self.map[n]@))
    }
}

/// The pairs of a snapshot, each edge by its view.
pub open spec fn snapshot_view<S: View, EQ: PathConstraintStringify>(v: Seq<(ECTANode, &Edge<S, EQ>)>) -> Seq<
    (ECTANode, EdgeView<S::V>),
> {
    Seq::new(v.len(), |i: int| (v[i].0, v[i].1@))
}

/// Whether every remembered intersection is what the store would give now,
/// without a change.
pub open spec fn memo_valid<L>(
    nodes: Seq<Seq<EdgeView<L>>>,
    empty: ECTANode,
    memo: Seq<(ECTANode, ECTANode, ECTANode)>,
) -> bool {
    forall|i: int|
        0 <= i < memo.len() ==> (#[trigger] memo[i]).0 < nodes.len() && memo[i].1 < nodes.len()
            && intersect_model(nodes, empty, memo[i].0, memo[i].1) == (nodes, memo[i].2)
}

/// The remembered intersection of `a` and `b`: the result of the first
/// entry for this pair, and `None` exactly when there is no entry for it.
fn recall(memo: &Vec<(ECTANode, ECTANode, ECTANode)>, a: ECTANode, b: ECTANode) -> (r: Option<ECTANode>)
    ensures
        r is None <==> forall|i: int|
            0 <= i < memo.len() ==> !((#[trigger] memo@[i]).0 == a && memo@[i].1 == b),
        r matches Some(c) ==> exists|i: int|
            0 <= i < memo.len() && #[trigger] memo@[i] == (a, b, c) && forall|j: int|
                0 <= j < i ==> !((#[trigger] memo@[j]).0 == a && memo@[j].1 == b),
{
    let mut i: usize = 0;
    while i < memo.len()
        invariant
            i <= memo.len(),
            forall|j: int| 0 <= j < i ==> !((#[trigger] memo@[j]).0 == a && memo@[j].1 == b),
        decreases memo.len() - i,
    {
        if memo[i].0 == a && memo[i].1 == b {
            proof {
                assert(memo@[i as int] == (a, b, memo@[i as int].2));
            }
            return Some(memo[i].2);
        }
        i += 1;
    }
    None
}

/// Whether two edges can be paired in an intersection.
fn agree_edges<S: ECTATrait, EQ: ECTATrait + PathConstraintStringify>(
    e1: &Edge<S, EQ>,
    e2: &Edge<S, EQ>,
) -> (b: bool)
    ensures
        b == agree(e1@, e2@),
{
    if e1.edge_num != e2.edge_num {
        return false;
    }
    if !e1.data.same(&e2.data) {
        return false;
    }
    match (&e1.constraints, &e2.constraints) {
        (Some(a), Some(b)) => a == b,
        (None, None) => true,
        _ => false,
    }
}

impl<S: ECTATrait, EQ: ECTATrait + PathConstraintStringify> ECTA<S, EQ> {
    /// The empty state: the state without edges.
    pub closed spec fn empty(&self) -> ECTANode {
        self.empty_node
    }

    /// Whether the graph holds what the edge lists say.
    spec fn inv(&self) -> bool {
        &&& graph_slots(self.g).len() == self.map.len()
        &&& forall|n: int|
            0 <= n < self.map.len() ==> #[trigger] graph_slots(self.g)[n] == Some(
                arcs_of(self.map[n]@, self.map[n]@.len()),
            )
        &&& graph_edge_count(self.g) == total_edges(self@)
    }

    /// Whether the store is valid.
    pub closed spec fn wf(&self) -> bool {
        self.inv() && well_formed(self@, self.empty_node)
    }

    /// The invariant of the store: no two states have the same edges, every
    /// edge leads to a state that was made before its source, the empty
    /// state has no edge, and the store is within its limits.
    pub proof fn lemma_wf(&self)
        requires
            self.wf(),
        ensures
            well_formed(self@, self.empty()),
    {
    }

    /// A store with one state, the empty state.
    pub fn new() -> (r: Self)
        ensures
            r.wf(),
            r@ == seq![Seq::<EdgeView<S::V>>::empty()],
            r.empty() == 0,
    {
        let mut g = graph_new();
        let empty_node = graph_add_node(&mut g, Node::default());
        let mut map: Vec<Vec<Edge<S, EQ>>> = Vec::new();
        map.push(Vec::new());
        let r = ECTA { g, map, empty_node };
        proof {
            assert(edges_view(r.map[0]@) =~= Seq::<EdgeView<S::V>>::empty());
            assert(r@ =~= seq![Seq::<EdgeView<S::V>>::empty()]);
            assert(r@.drop_last() =~= Seq::<Seq<EdgeView<S::V>>>::empty());
            assert(total_edges(r@.drop_last()) == 0);
            assert(arcs_of(r.map[0]@, 0) =~= Seq::<OutEdge>::empty());
            assert(graph_slots(r.g)[0] == Some(arcs_of(r.map[0]@, r.map[0]@.len())));
        }
        r
    }

    /// The empty state.
    pub fn empty_node(&self) -> (n: ECTANode)
        ensures
            n == self.empty(),
    {
        self.empty_node
    }

    /// The number of states.
    pub fn len(&self) -> (n: usize)
        ensures
            n == self@.len(),
    {
        self.map.len()
    }

    /// The number of edges of all states together.
    pub fn edge_count(&self) -> (n: usize)
        requires
            self.wf(),
        ensures
            n == total_edges(self@),
    {
        graph_edges_total(&self.g)
    }

    /// The outgoing edges of a state, in the order in which they were given
    /// when the state was made.
    pub fn get_edges(&self, n: ECTANode) -> (r: Vec<&Edge<S, EQ>>)
        requires
            self.wf(),
            n < self@.len(),
        ensures
            r.len() == self@[n as int].len(),
            forall|i: int| 0 <= i < r.len() ==> (#[trigger] r@[i])@ == self@[n as int][i],
    {
        let arcs = graph_out_edges(&self.g, n);
        let ghost es = self.map[n as int]@;
        let mut out: Vec<&Edge<S, EQ>> = Vec::new();
        let mut i: usize = arcs.len();
        while i > 0
            invariant
                i <= arcs.len(),
                n < self.map.len(),
                es == self.map[n as int]@,
                arcs@ == arcs_of(es, es.len()),
                out.len() == arcs.len() - i,
                forall|q: int| 0 <= q < out.len() ==> *(#[trigger] out@[q]) == es[q],
            decreases i,
        {
            i -= 1;
            let slot = arcs[i].1;
            out.push(&self.map[n][slot]);
        }
        proof {
            assert forall|q: int| 0 <= q < out.len() implies (#[trigger] out@[q])@ == self@[n as int][q] by {
                assert(*out@[q] == es[q]);
            }
        }
        out
    }

    /// Every edge of the store with its source, state by state: all that is
    /// needed to draw the store as it is now.
    pub fn snapshot(&self) -> (r: Vec<(ECTANode, &Edge<S, EQ>)>)
        requires
            self.wf(),
        ensures
            snapshot_view(r@) == all_edges(self@, self@.len()),
    {
        let mut out: Vec<(ECTANode, &Edge<S, EQ>)> = Vec::new();
        let count = self.map.len();
        let mut n: usize = 0;
        while n < count
            invariant
                self.wf(),
                count == self@.len(),
                n <= count,
                snapshot_view(out@) == all_edges(self@, n as nat),
            decreases count - n,
        {
            let edges = self.get_edges(n);
            let ghost done = snapshot_view(out@);
            let ghost es = self@[n as int];
            let mut i: usize = 0;
            while i < edges.len()
                invariant
                    i <= edges.len(),
                    edges.len() == es.len(),
                    forall|q: int| 0 <= q < edges.len() ==> (#[trigger] edges@[q])@ == es[q],
                    snapshot_view(out@) == done + with_source(es, n).take(i as int),
                decreases edges.len() - i,
            {
                let ghost so_far = snapshot_view(out@);
                out.push((n, edges[i]));
                proof {
                    assert(snapshot_view(out@) =~= so_far.push((n, es[i as int])));
                    assert(with_source(es, n).take(i + 1) =~= with_source(es, n).take(i as int).push(
                        (n, es[i as int]),
                    ));
                    assert(so_far.push((n, es[i as int])) =~= done + with_source(es, n).take(i + 1));
                }
                i += 1;
            }
            proof {
                assert(with_source(es, n).take(i as int) =~= with_source(es, n));
            }
            n += 1;
        }
        out
    }

    /// Copies of the outgoing edges of a state.
    fn copy_edges(&self, n: ECTANode) -> (r: Vec<Edge<S, EQ>>)
        requires
            self.wf(),
            n < self@.len(),
        ensures
            edges_view(r@) == self@[n as int],
    {
        let refs = self.get_edges(n);
        let mut out: Vec<Edge<S, EQ>> = Vec::new();
        let mut i: usize = 0;
        while i < refs.len()
            invariant
                i <= refs.len(),
                out.len() == i,
                forall|q: int| 0 <= q < i ==> (#[trigger] out@[q])@ == refs@[q]@,
            decreases refs.len() - i,
        {
            out.push(refs[i].duplicate());
            i += 1;
        }
        proof {
            assert(edges_view(out@) =~= self@[n as int]);
        }
        out
    }

    /// The state that has the given edges, if there is one.
    fn find_node(&self, edges: &Vec<Edge<S, EQ>>) -> (r: Option<ECTANode>)
        ensures
            r matches Some(k) ==> k < self@.len() && self@[k as int].to_multiset() == edges_view(
                edges@,
            ).to_multiset(),
            r is None ==> !holds(self@, edges_view(edges@)),
    {
        let mut k: usize = 0;
        while k < self.map.len()
            invariant
                k <= self.map.len(),
                forall|q: int|
                    0 <= q < k ==> (#[trigger] self@[q]).to_multiset() != edges_view(edges@).to_multiset(),
            decreases self.map.len() - k,
        {
            if same_edges(&self.map[k], edges) {
                return Some(k);
            }
            k += 1;
        }
        None
    }

    /// Adds a state with the given edges, which no state has yet.
    fn insert_node(&mut self, n: Node, edges: Vec<Edge<S, EQ>>) -> (r: ECTANode)
        requires
            old(self).wf(),
            !holds(old(self)@, edges_view(edges@)),
            fits(old(self)@.push(edges_view(edges@))),
            targets_within(edges_view(edges@), old(self)@.len()),
        ensures
            final(self).wf(),
            final(self)@ == old(self)@.push(edges_view(edges@)),
            r == old(self)@.len(),
            final(self).empty() == old(self).empty(),
    {
        let ghost before = self@;
        let ghost ev = edges_view(edges@);
        let ghost slots0 = graph_slots(self.g);
        let ghost count0 = graph_edge_count(self.g);
        let ghost map0 = self.map;
        let ghost empty0 = self.empty_node;
        proof {
            lemma_total_push(before, ev);
        }
        let idx = graph_add_node(&mut self.g, n);
        proof {
            assert(arcs_of(edges@, 0) =~= Seq::<OutEdge>::empty());
            assert forall|q: int| 0 <= q < edges.len() implies (#[trigger] edges@[q]).nodeidx < idx by {
                assert(ev[q].nodeidx < before.len());
            }
        }
        let mut k: usize = 0;
        while k < edges.len()
            invariant
                k <= edges.len(),
                idx == slots0.len(),
                slots0.len() == map0.len(),
                forall|q: int| 0 <= q < slots0.len() ==> (#[trigger] slots0[q]) is Some,
                graph_slots(self.g) == slots0.push(Some(arcs_of(edges@, k as nat))),
                graph_edge_count(self.g) == count0 + k,
                count0 + edges.len() <= limit(),
                forall|q: int| 0 <= q < edges.len() ==> (#[trigger] edges@[q]).nodeidx < idx,
                self.map == map0,
                self.empty_node == empty0,
            decreases edges.len() - k,
        {
            let target = edges[k].nodeidx;
            let ghost slots = graph_slots(self.g);
            proof {
                assert(slots[target as int] == slots0[target as int]);
            }
            graph_add_edge(&mut self.g, idx, target, k);
            proof {
                assert(seq![(target, k)] + arcs_of(edges@, k as nat) =~= arcs_of(edges@, (k + 1) as nat));
                assert(graph_slots(self.g) =~= slots0.push(Some(arcs_of(edges@, (k + 1) as nat))));
            }
            k += 1;
        }
        self.map.push(edges);
        proof {
            let after = self@;
            assert(after =~= before.push(ev));
            assert forall|q: int| 0 <= q < self.map.len() implies #[trigger] graph_slots(self.g)[q]
                == Some(arcs_of(self.map[q]@, self.map[q]@.len())) by {
                if q < map0.len() {
                    assert(graph_slots(self.g)[q] == slots0[q]);
                }
            }
            assert forall|i: int, j: int|
                0 <= i < after.len() && 0 <= j < after.len() && i != j implies (#[trigger] after[i]).to_multiset()
                != (#[trigger] after[j]).to_multiset() by {
                if i < before.len() && j < before.len() {
                    assert(before[i].to_multiset() != before[j].to_multiset());
                } else if i < before.len() {
                    assert(before[i].to_multiset() != ev.to_multiset());
                } else {
                    assert(before[j].to_multiset() != ev.to_multiset());
                }
            }
            assert forall|a: int, b: int| 0 <= a < after.len() && 0 <= b < after[a].len() implies (
            #[trigger] after[a][b]).nodeidx < a by {
                if a < before.len() {
                    assert(before[a][b].nodeidx < a);
                } else {
                    assert(ev[b].nodeidx < before.len());
                }
            }
        }
        idx
    }

    /// The canonical state for the given edges, unless the store cannot hold
    /// it.
    fn try_add(&mut self, n: Node, edges: Vec<Edge<S, EQ>>) -> (r: Result<ECTANode, EctaError>)
        requires
            old(self).wf(),
            targets_within(edges_view(edges@), old(self)@.len()),
        ensures
            final(self).wf(),
            final(self).empty() == old(self).empty(),
            r is Ok <==> fits(hash_cons(old(self)@, edges_view(edges@)).0),
            r matches Ok(x) ==> (final(self)@, x) == hash_cons(old(self)@, edges_view(edges@)),
            r matches Err(e) ==> e == EctaError::Exhausted && final(self)@ == old(self)@,
    {
        let ghost ev = edges_view(edges@);
        match self.find_node(&edges) {
            Some(k) => {
                proof {
                    lemma_index_unique(self@, ev, k as int);
                }
                Ok(k)
            },
            None => {
                let count = graph_edges_total(&self.g);
                proof {
                    lemma_total_push(self@, ev);
                    if self@.len() < limit() && total_edges(self@) + ev.len() <= limit() {
                        lemma_room(self@, ev);
                    }
                }
                if self.map.len() >= 0xffff_ffff || count > 0xffff_ffff || edges.len() > 0xffff_ffff
                    - count {
                    Err(EctaError::Exhausted)
                } else {
                    Ok(self.insert_node(n, edges))
                }
            },
        }
    }

    /// The canonical state for the given edges.
    fn add_node_inner(&mut self, n: Node, edges: Vec<Edge<S, EQ>>) -> (r: ECTANode)
        requires
            old(self).wf(),
            targets_within(edges_view(edges@), old(self)@.len()),
            fits(hash_cons(old(self)@, edges_view(edges@)).0),
        ensures
            final(self).wf(),
            final(self).empty() == old(self).empty(),
            (final(self)@, r) == hash_cons(old(self)@, edges_view(edges@)),
    {
        match self.try_add(n, edges) {
            Ok(x) => x,
            Err(_) => unreached(),
        }
    }

    /// The edges of a request: for each alternative, in the order of the
    /// request, one edge for each child, at the child's position.
    fn expand_request(&self, edge_builder: Vec<(S, Option<Constraints<EQ>>, Vec<ECTANode>)>) -> (edges:
        Vec<Edge<S, EQ>>)
        requires
            request_ok(specs_view(edge_builder@), self@.len()),
        ensures
            edges_view(edges@) == expand(specs_view(edge_builder@)),
            targets_within(edges_view(edges@), self@.len()),
    {
        let ghost specs = specs_view(edge_builder@);
        let mut edges: Vec<Edge<S, EQ>> = Vec::new();
        let mut b: usize = 0;
        proof {
            assert(specs.take(0) =~= Seq::<EdgeSpec<S::V>>::empty());
        }
        while b < edge_builder.len()
            invariant
                b <= edge_builder.len(),
                specs == specs_view(edge_builder@),
                request_ok(specs, self@.len()),
                edges_view(edges@) == expand(specs.take(b as int)),
                targets_within(edges_view(edges@), self@.len()),
            decreases edge_builder.len() - b,
        {
            let ghost done = edges_view(edges@);
            let ghost spec = specs[b as int];
            let alt = &edge_builder[b];
            let mut c: usize = 0;
            proof {
                assert(spec == spec_view(edge_builder@[b as int]));
                assert(specs.take(b + 1).drop_last() =~= specs.take(b as int));
                assert(fan(spec).take(0) =~= Seq::<EdgeView<S::V>>::empty());
                assert(done + fan(spec).take(0) =~= done);
            }
            while c < alt.2.len()
                invariant
                    c <= alt.2.len(),
                    *alt == edge_builder@[b as int],
                    spec == spec_view(*alt),
                    spec.2.len() <= 256,
                    forall|q: int| 0 <= q < spec.2.len() ==> (#[trigger] spec.2[q]) < self@.len(),
                    targets_within(done, self@.len()),
                    edges_view(edges@) == done + fan(spec).take(c as int),
                decreases alt.2.len() - c,
            {
                let constraints = match &alt.1 {
                    Some(x) => Some(x.duplicate()),
                    None => None,
                };
                let e = Edge::new(alt.0.duplicate(), constraints, c as u8, alt.2[c]);
                let ghost so_far = edges_view(edges@);
                proof {
                    assert(e@ == fan(spec)[c as int]);
                    assert(fan(spec).take(c + 1) =~= fan(spec).take(c as int).push(e@));
                }
                edges.push(e);
                proof {
                    assert(edges_view(edges@) =~= so_far.push(e@));
                    assert(so_far.push(e@) =~= done + fan(spec).take(c + 1));
                }
                c += 1;
            }
            proof {
                assert(fan(spec).take(c as int) =~= fan(spec));
                assert forall|k: int| 0 <= k < edges_view(edges@).len() implies (#[trigger] edges_view(
                    edges@,
                )[k]).nodeidx < self@.len() by {
                    if k < done.len() {
                        assert(edges_view(edges@)[k] == done[k]);
                    } else {
                        assert(edges_view(edges@)[k] == fan(spec)[k - done.len()]);
                    }
                }
            }
            b += 1;
        }
        proof {
            assert(specs.take(b as int) =~= specs);
        }
        edges
    }

    /// The canonical state for a request, unless the store cannot hold it.
    /// Each alternative of the request gives one edge for each of its
    /// children, at the child's position. A state with these edges, in
    /// whatever order, is returned where there is one; otherwise the state is
    /// made, if there is room for it.
    pub fn try_add_node(
        &mut self,
        n: Node,
        edge_builder: Vec<(S, Option<Constraints<EQ>>, Vec<ECTANode>)>,
    ) -> (r: Result<ECTANode, EctaError>)
        requires
            old(self).wf(),
            request_ok(specs_view(edge_builder@), old(self)@.len()),
        ensures
            final(self).wf(),
            final(self).empty() == old(self).empty(),
            r is Ok <==> fits(hash_cons(old(self)@, expand(specs_view(edge_builder@))).0),
            r matches Ok(x) ==> (final(self)@, x) == hash_cons(
                old(self)@,
                expand(specs_view(edge_builder@)),
            ),
            r matches Err(e) ==> e == EctaError::Exhausted && final(self)@ == old(self)@,
    {
        let edges = self.expand_request(edge_builder);
        self.try_add(n, edges)
    }

    /// The canonical state for a request, where the store can hold it. Each
    /// alternative of the request gives one edge for each of its children,
    /// at the child's position. A state with these edges, in whatever order,
    /// is returned where there is one; otherwise the state is made.
    pub fn add_node(
        &mut self,
        n: Node,
        edge_builder: Vec<(S, Option<Constraints<EQ>>, Vec<ECTANode>)>,
    ) -> (r: ECTANode)
        requires
            old(self).wf(),
            request_ok(specs_view(edge_builder@), old(self)@.len()),
            fits(hash_cons(old(self)@, expand(specs_view(edge_builder@))).0),
        ensures
            final(self).wf(),
            final(self).empty() == old(self).empty(),
            (final(self)@, r) == hash_cons(old(self)@, expand(specs_view(edge_builder@))),
    {
        let edges = self.expand_request(edge_builder);
        self.add_node_inner(n, edges)
    }

    /// The edges of two states, those of the first before those of the
    /// second.
    fn edges_of_both(&self, n1: ECTANode, n2: ECTANode) -> (edges: Vec<Edge<S, EQ>>)
        requires
            self.wf(),
            n1 < self@.len(),
            n2 < self@.len(),
        ensures
            edges_view(edges@) == self@[n1 as int] + self@[n2 as int],
            targets_within(edges_view(edges@), self@.len()),
    {
        let mut edges = self.copy_edges(n1);
        let mut second = self.copy_edges(n2);
        let ghost first = edges_view(edges@);
        let ghost rest = edges_view(second@);
        edges.append(&mut second);
        proof {
            let all = edges_view(edges@);
            assert(all =~= first + rest);
            let nodes = self@;
            assert forall|k: int| 0 <= k < all.len() implies (#[trigger] all[k]).nodeidx < nodes.len() by {
                if k < first.len() {
                    assert(nodes[n1 as int][k].nodeidx < n1);
                } else {
                    assert(nodes[n2 as int][k - first.len()].nodeidx < n2);
                }
            }
        }
        edges
    }

    /// The union of two states, unless the store cannot hold it: the
    /// canonical state for the edges of the first together with the edges of
    /// the second.
    pub fn try_union(&mut self, n1: ECTANode, n2: ECTANode) -> (r: Result<ECTANode, EctaError>)
        requires
            old(self).wf(),
            n1 < old(self)@.len(),
            n2 < old(self)@.len(),
        ensures
            final(self).wf(),
            final(self).empty() == old(self).empty(),
            r is Ok <==> fits(hash_cons(old(self)@, old(self)@[n1 as int] + old(self)@[n2 as int]).0),
            r matches Ok(x) ==> (final(self)@, x) == hash_cons(
                old(self)@,
                old(self)@[n1 as int] + old(self)@[n2 as int],
            ),
            r matches Err(e) ==> e == EctaError::Exhausted && final(self)@ == old(self)@,
    {
        let edges = self.edges_of_both(n1, n2);
        self.try_add(Node::default(), edges)
    }

    /// The union of two states, where the store can hold it: the canonical
    /// state for the edges of the first together with the edges of the
    /// second.
    pub fn union(&mut self, n1: ECTANode, n2: ECTANode) -> (r: ECTANode)
        requires
            old(self).wf(),
            n1 < old(self)@.len(),
            n2 < old(self)@.len(),
            fits(hash_cons(old(self)@, old(self)@[n1 as int] + old(self)@[n2 as int]).0),
        ensures
            final(self).wf(),
            final(self).empty() == old(self).empty(),
            (final(self)@, r) == hash_cons(old(self)@, old(self)@[n1 as int] + old(self)@[n2 as int]),
    {
        let edges = self.edges_of_both(n1, n2);
        self.add_node_inner(Node::default(), edges)
    }

    /// The intersection of two states. A state intersected with itself is
    /// itself, and with the empty state it is the empty state. Otherwise
    /// every edge of the first is paired with every edge of the second that
    /// has its label, position and constraint; the pair gives an edge to the
    /// intersection of the two children, unless that is the empty state
    /// while neither child is. The result is the canonical state for the
    /// edges so gathered, or the empty state where there are none; the last
    /// clause says so in terms of the store as it is after the call. No
    /// state that was there before is changed. The call fails, and only
    /// then, when the store cannot hold the states that the result needs.
    pub fn intersection(&mut self, n1: ECTANode, n2: ECTANode) -> (r: Result<ECTANode, EctaError>)
        requires
            old(self).wf(),
            n1 < old(self)@.len(),
            n2 < old(self)@.len(),
        ensures
            final(self).wf(),
            final(self).empty() == old(self).empty(),
            extends(old(self)@, final(self)@),
            r is Ok <==> fits(intersect_model(old(self)@, old(self).empty(), n1, n2).0),
            r matches Ok(x) ==> (final(self)@, x) == intersect_model(
                old(self)@,
                old(self).empty(),
                n1,
                n2,
            ) && x < final(self)@.len(),
            r matches Err(e) ==> e == EctaError::Exhausted,
            n1 == n2 ==> r == Ok::<ECTANode, EctaError>(n1) && final(self)@ == old(self)@,
            n1 != n2 && (n1 == old(self).empty() || n2 == old(self).empty()) ==> r == Ok::<
                ECTANode,
                EctaError,
            >(old(self).empty()) && final(self)@ == old(self)@,
            r matches Ok(x) ==> (n1 != n2 && n1 != old(self).empty() && n2 != old(self).empty() ==> {
                let es = paired_edges(
                    final(self)@,
                    old(self).empty(),
                    old(self)@[n1 as int],
                    old(self)@[n2 as int],
                    old(self)@[n1 as int].len() * old(self)@[n2 as int].len(),
                );
                &&& es.len() == 0 ==> x == old(self).empty()
                &&& es.len() > 0 ==> final(self)@[x as int].to_multiset() == es.to_multiset()
            }),
    {
        let mut memo: Vec<(ECTANode, ECTANode, ECTANode)> = Vec::new();
        let r = self.intersect_memo(n1, n2, &mut memo);
        proof {
            if r is Ok && n1 != n2 && n1 != old(self).empty_node && n2 != old(self).empty_node {
                lemma_intersection_edges(old(self)@, old(self).empty_node, n1, n2);
            }
        }
        r
    }

    /// The intersection of two states, with the pairs of states that were
    /// intersected before, each with its result. A pair that is found there
    /// is not intersected again.
    fn intersect_memo(
        &mut self,
        n1: ECTANode,
        n2: ECTANode,
        memo: &mut Vec<(ECTANode, ECTANode, ECTANode)>,
    ) -> (r: Result<ECTANode, EctaError>)
        requires
            old(self).wf(),
            n1 < old(self)@.len(),
            n2 < old(self)@.len(),
            memo_valid(old(self)@, old(self).empty_node, old(memo)@),
        ensures
            final(self).wf(),
            final(self).empty() == old(self).empty(),
            extends(old(self)@, final(self)@),
            r is Ok <==> fits(intersect_model(old(self)@, old(self).empty(), n1, n2).0),
            r matches Ok(x) ==> (final(self)@, x) == intersect_model(
                old(self)@,
                old(self).empty(),
                n1,
                n2,
            ) && x < final(self)@.len() && memo_valid(final(self)@, old(self).empty_node, final(memo)@),
            r matches Err(e) ==> e == EctaError::Exhausted,
        decreases n1 + n2,
    {
        let ghost before = self@;
        let empty = self.empty_node;
        if n1 == n2 {
            return Ok(n1);
        }
        if n1 == empty || n2 == empty {
            return Ok(empty);
        }
        match recall(memo, n1, n2) {
            Some(c) => {
                return Ok(c);
            },
            None => {},
        }
        let ea = self.copy_edges(n1);
        let eb = self.copy_edges(n2);
        let ghost eav = before[n1 as int];
        let ghost ebv = before[n2 as int];
        let ghost all = all_pairs(eav.len(), ebv.len());
        let mut new_edges: Vec<Edge<S, EQ>> = Vec::new();
        let mut pairs = index_pairs(ea.len(), eb.len());
        let mut next = next_pair(&mut pairs);
        let ghost mut k: nat = 0;
        proof {
            assert(all.skip(0) =~= all);
        }
        while next.is_some()
            invariant
                self.wf(),
                self.empty_node == empty,
                empty == old(self).empty_node,
                before == old(self)@,
                extends(before, self@),
                well_formed(before, empty),
                n1 < before.len(),
                n2 < before.len(),
                n1 != n2,
                n1 != empty,
                n2 != empty,
                eav == before[n1 as int],
                ebv == before[n2 as int],
                edges_view(ea@) == eav,
                edges_view(eb@) == ebv,
                all == all_pairs(eav.len(), ebv.len()),
                k <= all.len(),
                next matches Some(p) ==> k < all.len() && p == all[k as int] && product_rest(pairs)
                    == all.skip(k as int + 1),
                next is None ==> k == all.len(),
                (self@, edges_view(new_edges@)) == intersect_pairs(before, empty, n1, n2, eav, ebv, k),
                targets_within(edges_view(new_edges@), self@.len()),
                memo_valid(self@, empty, memo@),
            decreases all.len() - k,
        {
            let (i, j) = next.unwrap();
            let ghost cur = self@;
            let ghost es = edges_view(new_edges@);
            proof {
                let la = eav.len() as int;
                let lb = ebv.len() as int;
                assert(lb > 0 && (k as int) / lb < la && 0 <= (k as int) % lb < lb && 0 <= (k as int)
                    / lb) by (nonlinear_arith)
                    requires
                        0 <= k < la * lb,
                        0 <= la,
                        0 <= lb,
                ;
                assert(la == ea.len() && lb == eb.len());
                assert(all[k as int] == (((k as int) / lb) as usize, ((k as int) % lb) as usize));
                assert(i == (k as int) / lb);
                assert(j == (k as int) % lb);
                assert(ea@[i as int]@ == eav[i as int]);
                assert(eb@[j as int]@ == ebv[j as int]);
                assert(eav[i as int].nodeidx < n1);
                assert(ebv[j as int].nodeidx < n2);
            }
            let e1 = &ea[i];
            let e2 = &eb[j];
            if agree_edges(e1, e2) {
                let t1 = e1.nodeidx;
                let t2 = e2.nodeidx;
                match self.intersect_memo(t1, t2, memo) {
                    Err(e) => {
                        proof {
                            lemma_pairs_within_model(before, empty, n1, n2, k + 1);
                            if fits(intersect_model(before, empty, n1, n2).0) {
                                lemma_fits_antitone(
                                    intersect_pairs(before, empty, n1, n2, eav, ebv, k + 1).0,
                                    intersect_model(before, empty, n1, n2).0,
                                );
                            }
                            lemma_extends_transitive(before, cur, self@);
                        }
                        return Err(e);
                    },
                    Ok(c) => {
                        proof {
                            lemma_extends_transitive(before, cur, self@);
                        }
                        if c == empty && t1 != empty && t2 != empty {
                        } else {
                            let constraints = match &e1.constraints {
                                Some(x) => Some(x.duplicate()),
                                None => None,
                            };
                            let e = Edge::new(e1.data.duplicate(), constraints, e1.edge_num, c);
                            proof {
                                assert(e@ == retarget(e1@, c));
                            }
                            new_edges.push(e);
                            proof {
                                assert(edges_view(new_edges@) =~= es.push(retarget(e1@, c)));
                            }
                        }
                        proof {
                            let now = edges_view(new_edges@);
                            assert forall|q: int| 0 <= q < now.len() implies (#[trigger] now[q]).nodeidx
                                < self@.len() by {
                                if q < es.len() {
                                    assert(now[q] == es[q]);
                                }
                            }
                        }
                    },
                }
            }
            proof {
                k = k + 1;
                if k < all.len() {
                    assert(all.skip(k as int).skip(1) =~= all.skip(k as int + 1));
                    assert(all.skip(k as int)[0] == all[k as int]);
                }
            }
            next = next_pair(&mut pairs);
        }
        if new_edges.len() == 0 {
            proof {
                lemma_model_stable(before, empty, n1, n2, self@);
            }
            memo.push((n1, n2, empty));
            Ok(empty)
        } else {
            let ghost cur = self@;
            let ghost known = memo@;
            match self.try_add(Node::default(), new_edges) {
                Err(e) => Err(e),
                Ok(x) => {
                    proof {
                        let es = intersect_pairs(before, empty, n1, n2, eav, ebv, k).1;
                        lemma_hash_cons_extends(cur, es);
                        lemma_extends_transitive(before, cur, self@);
                        assert forall|i: int| 0 <= i < known.len() implies intersect_model(
                            self@,
                            empty,
                            (#[trigger] known[i]).0,
                            known[i].1,
                        ) == (self@, known[i].2) by {
                            lemma_model_stable(cur, empty, known[i].0, known[i].1, self@);
                        }
                        lemma_model_stable(before, empty, n1, n2, self@);
                    }
                    memo.push((n1, n2, x));
                    Ok(x)
                },
            }
        }
    }
}

impl<S: ECTATrait, EQ: ECTATrait + PathConstraintStringify> Default for ECTA<S, EQ> {
    fn default() -> (r: Self)
        ensures
            r.wf(),
            r@ == seq![Seq::<EdgeView<S::V>>::empty()],
            r.empty() == 0,
    {
        Self::new()
    }
}

} // verus!
