//! What holds of the store and of constraints, whatever the inputs.

use crate::constraints::ids;
use crate::constraints::lemma_ids_cover;
use crate::constraints::lemma_members_cover;
use crate::constraints::members;
use crate::edge::ECTANode;
use crate::edge::EdgeView;
use crate::model::agree;
use crate::model::dropped;
use crate::model::extends;
use crate::model::fits;
use crate::model::hash_cons;
use crate::model::holds;
use crate::model::intersect_model;
use crate::model::intersect_pairs;
use crate::model::lemma_extends_transitive;
use crate::model::lemma_fits_antitone;
use crate::model::lemma_hash_cons_extends;
use crate::model::lemma_hash_cons_valid;
use crate::model::lemma_index_unique;
use crate::model::lemma_model_extends;
use crate::model::lemma_pairs_step_extends;
use crate::model::lemma_pairs_within_model;
use crate::model::retarget;
use crate::model::targets_within;
use crate::model::well_formed;
use crate::path_class::conflict_free;
use crate::path_class::map_of;
use crate::path_class::same_pairs;
use crate::paths::holds_exactly;
use crate::paths::increasing;
use crate::paths::Id;
use vstd::prelude::*;
use vstd::seq_lib::lemma_seq_union_to_multiset_commutative;

verus! {

/// Hash-consing is idempotent: asking again for the same edges gives the
/// same state and leaves the store as it is.
pub proof fn lemma_hash_cons_idempotent<L>(
    nodes: Seq<Seq<EdgeView<L>>>,
    empty: ECTANode,
    es: Seq<EdgeView<L>>,
)
    requires
        well_formed(nodes, empty),
        targets_within(es, nodes.len()),
        fits(hash_cons(nodes, es).0),
    ensures
        hash_cons(hash_cons(nodes, es).0, es) == hash_cons(nodes, es),
{
    lemma_hash_cons_valid(nodes, empty, es);
    let (after, r) = hash_cons(nodes, es);
    lemma_index_unique(after, es, r as int);
}

/// The empty state absorbs: the intersection of any state with the empty
/// state, on either side, is the empty state, and the store stays as it is.
pub proof fn lemma_empty_absorbs<L>(nodes: Seq<Seq<EdgeView<L>>>, empty: ECTANode, n: ECTANode)
    ensures
        intersect_model(nodes, empty, n, empty) == (nodes, empty),
        intersect_model(nodes, empty, empty, n) == (nodes, empty),
{
}

/// A state intersected with itself is itself, and the store stays as it is.
pub proof fn lemma_self_intersection<L>(nodes: Seq<Seq<EdgeView<L>>>, empty: ECTANode, n: ECTANode)
    ensures
        intersect_model(nodes, empty, n, n) == (nodes, n),
{
}

/// Union commutes: the union of `a` and `b` and the union of `b` and `a` are
/// the same state, whichever is asked for, and once one is made the other
/// adds nothing. The two have the same edges, so they accept the same trees.
pub proof fn lemma_union_commutes<L>(nodes: Seq<Seq<EdgeView<L>>>, empty: ECTANode, a: ECTANode, b: ECTANode)
    requires
        well_formed(nodes, empty),
        a < nodes.len(),
        b < nodes.len(),
        fits(hash_cons(nodes, nodes[a as int] + nodes[b as int]).0),
    ensures
        (nodes[a as int] + nodes[b as int]).to_multiset() == (nodes[b as int] + nodes[a as int]).to_multiset(),
        hash_cons(nodes, nodes[a as int] + nodes[b as int]).1 == hash_cons(
            nodes,
            nodes[b as int] + nodes[a as int],
        ).1,
        hash_cons(hash_cons(nodes, nodes[a as int] + nodes[b as int]).0, nodes[b as int] + nodes[a as int])
            == hash_cons(nodes, nodes[a as int] + nodes[b as int]),
{
    let ab = nodes[a as int] + nodes[b as int];
    let ba = nodes[b as int] + nodes[a as int];
    lemma_seq_union_to_multiset_commutative(nodes[a as int], nodes[b as int]);
    assert forall|k: int| 0 <= k < ab.len() implies (#[trigger] ab[k]).nodeidx < nodes.len() by {
        if k < nodes[a as int].len() {
            assert(nodes[a as int][k].nodeidx < a);
        } else {
            assert(nodes[b as int][k - nodes[a as int].len()].nodeidx < b);
        }
    }
    if holds(nodes, ab) {
        let k = choose|k: int| 0 <= k < nodes.len() && (#[trigger] nodes[k]).to_multiset() == ab.to_multiset();
        lemma_index_unique(nodes, ab, k);
        lemma_index_unique(nodes, ba, k);
    } else {
        if holds(nodes, ba) {
            let k = choose|k: int|
                0 <= k < nodes.len() && (#[trigger] nodes[k]).to_multiset() == ba.to_multiset();
            assert(nodes[k].to_multiset() == ab.to_multiset());
        }
    }
    lemma_hash_cons_valid(nodes, empty, ab);
    let (after, r) = hash_cons(nodes, ab);
    lemma_index_unique(after, ba, r as int);
}

/// The store stays valid while the pairs of an intersection are looked at,
/// and the gathered edges lead into it.
pub proof fn lemma_pairs_valid<L>(
    nodes: Seq<Seq<EdgeView<L>>>,
    empty: ECTANode,
    a: ECTANode,
    b: ECTANode,
    ea: Seq<EdgeView<L>>,
    eb: Seq<EdgeView<L>>,
    k: nat,
)
    requires
        well_formed(nodes, empty),
        a < nodes.len(),
        b < nodes.len(),
        fits(intersect_pairs(nodes, empty, a, b, ea, eb, k).0),
    ensures
        well_formed(intersect_pairs(nodes, empty, a, b, ea, eb, k).0, empty),
        extends(nodes, intersect_pairs(nodes, empty, a, b, ea, eb, k).0),
        targets_within(
            intersect_pairs(nodes, empty, a, b, ea, eb, k).1,
            intersect_pairs(nodes, empty, a, b, ea, eb, k).0.len(),
        ),
    decreases a + b, k, 0nat,
{
    if k > 0 {
        let km = (k - 1) as nat;
        let (cur, es) = intersect_pairs(nodes, empty, a, b, ea, eb, km);
        let (fin, fs) = intersect_pairs(nodes, empty, a, b, ea, eb, k);
        lemma_pairs_step_extends(nodes, empty, a, b, ea, eb, km);
        lemma_fits_antitone(cur, fin);
        lemma_pairs_valid(nodes, empty, a, b, ea, eb, km);
        lemma_extends_transitive(nodes, cur, fin);
        let e1 = ea[(k - 1) / (eb.len() as int)];
        let e2 = eb[(k - 1) % (eb.len() as int)];
        if agree(e1, e2) && e1.nodeidx < a && e2.nodeidx < b {
            lemma_model_valid(cur, empty, e1.nodeidx, e2.nodeidx);
            let c = intersect_model(cur, empty, e1.nodeidx, e2.nodeidx).1;
            assert forall|q: int| 0 <= q < fs.len() implies (#[trigger] fs[q]).nodeidx < fin.len() by {
                if q < es.len() {
                    assert(fs[q] == es[q]);
                }
            }
        }
    }
}

/// An intersection keeps the store valid, where the result can be held, and
/// gives a state of the store.
pub proof fn lemma_model_valid<L>(nodes: Seq<Seq<EdgeView<L>>>, empty: ECTANode, a: ECTANode, b: ECTANode)
    requires
        well_formed(nodes, empty),
        a < nodes.len(),
        b < nodes.len(),
        fits(intersect_model(nodes, empty, a, b).0),
    ensures
        well_formed(intersect_model(nodes, empty, a, b).0, empty),
        extends(nodes, intersect_model(nodes, empty, a, b).0),
        intersect_model(nodes, empty, a, b).1 < intersect_model(nodes, empty, a, b).0.len(),
    decreases a + b, nodes[a as int].len() * nodes[b as int].len() + 1, 0nat,
{
    lemma_model_extends(nodes, empty, a, b);
    if a != b && a != empty && b != empty {
        let n = nodes[a as int].len() * nodes[b as int].len();
        let (cur, es) = intersect_pairs(nodes, empty, a, b, nodes[a as int], nodes[b as int], n);
        lemma_hash_cons_extends(cur, es);
        lemma_fits_antitone(cur, intersect_model(nodes, empty, a, b).0);
        lemma_pairs_valid(nodes, empty, a, b, nodes[a as int], nodes[b as int], n);
        if es.len() > 0 {
            lemma_hash_cons_valid(cur, empty, es);
        }
    }
}

/// Looking at the pairs again, in a store that holds what the first pass
/// made, gathers the same edges and adds nothing.
pub proof fn lemma_pairs_stable<L>(
    nodes: Seq<Seq<EdgeView<L>>>,
    empty: ECTANode,
    a: ECTANode,
    b: ECTANode,
    ea: Seq<EdgeView<L>>,
    eb: Seq<EdgeView<L>>,
    k: nat,
    later: Seq<Seq<EdgeView<L>>>,
)
    requires
        well_formed(nodes, empty),
        a < nodes.len(),
        b < nodes.len(),
        extends(intersect_pairs(nodes, empty, a, b, ea, eb, k).0, later),
        well_formed(later, empty),
    ensures
        intersect_pairs(later, empty, a, b, ea, eb, k) == (
            later,
            intersect_pairs(nodes, empty, a, b, ea, eb, k).1,
        ),
    decreases a + b, k, 0nat,
{
    if k > 0 {
        let km = (k - 1) as nat;
        let (cur, es) = intersect_pairs(nodes, empty, a, b, ea, eb, km);
        let (fin, fs) = intersect_pairs(nodes, empty, a, b, ea, eb, k);
        lemma_pairs_step_extends(nodes, empty, a, b, ea, eb, km);
        lemma_extends_transitive(cur, fin, later);
        lemma_pairs_stable(nodes, empty, a, b, ea, eb, km, later);
        let e1 = ea[(k - 1) / (eb.len() as int)];
        let e2 = eb[(k - 1) % (eb.len() as int)];
        if agree(e1, e2) && e1.nodeidx < a && e2.nodeidx < b {
            lemma_fits_antitone(cur, later);
            lemma_pairs_valid(nodes, empty, a, b, ea, eb, km);
            lemma_model_stable(cur, empty, e1.nodeidx, e2.nodeidx, later);
        }
    }
}

/// An intersection is stable: asked again in a store that holds what the
/// first answer made, it gives the same state and adds nothing.
pub proof fn lemma_model_stable<L>(
    nodes: Seq<Seq<EdgeView<L>>>,
    empty: ECTANode,
    a: ECTANode,
    b: ECTANode,
    later: Seq<Seq<EdgeView<L>>>,
)
    requires
        well_formed(nodes, empty),
        a < nodes.len(),
        b < nodes.len(),
        extends(intersect_model(nodes, empty, a, b).0, later),
        well_formed(later, empty),
    ensures
        intersect_model(later, empty, a, b) == (later, intersect_model(nodes, empty, a, b).1),
    decreases a + b, nodes[a as int].len() * nodes[b as int].len() + 1, 0nat,
{
    if a != b && a != empty && b != empty {
        let n = nodes[a as int].len() * nodes[b as int].len();
        let (cur, es) = intersect_pairs(nodes, empty, a, b, nodes[a as int], nodes[b as int], n);
        let (fin, r) = intersect_model(nodes, empty, a, b);
        lemma_model_extends(nodes, empty, a, b);
        lemma_extends_transitive(nodes, fin, later);
        assert(later[a as int] == nodes[a as int]);
        assert(later[b as int] == nodes[b as int]);
        lemma_hash_cons_extends(cur, es);
        lemma_extends_transitive(cur, fin, later);
        lemma_pairs_stable(nodes, empty, a, b, nodes[a as int], nodes[b as int], n, later);
        if es.len() > 0 {
            lemma_fits_antitone(fin, later);
            lemma_fits_antitone(cur, fin);
            lemma_pairs_valid(nodes, empty, a, b, nodes[a as int], nodes[b as int], n);
            lemma_hash_cons_valid(cur, empty, es);
            assert(later[r as int] == fin[r as int]);
            lemma_index_unique(later, es, r as int);
        }
    }
}

/// The edges that pairing gives in a store where every needed intersection
/// of children is already there: for each pair of an edge of `ea` and an
/// edge of `eb` that agree, in the order of the pairs, the first edge led to
/// the intersection of the two children, unless that intersection is the
/// empty state while neither child is.
pub open spec fn paired_edges<L>(
    nodes: Seq<Seq<EdgeView<L>>>,
    empty: ECTANode,
    ea: Seq<EdgeView<L>>,
    eb: Seq<EdgeView<L>>,
    k: nat,
) -> Seq<EdgeView<L>>
    decreases k,
{
    if k == 0 {
        Seq::empty()
    } else {
        let es = paired_edges(nodes, empty, ea, eb, (k - 1) as nat);
        let e1 = ea[(k - 1) / (eb.len() as int)];
        let e2 = eb[(k - 1) % (eb.len() as int)];
        let c = intersect_model(nodes, empty, e1.nodeidx, e2.nodeidx).1;
        if agree(e1, e2) && !dropped(c, e1.nodeidx, e2.nodeidx, empty) {
            es.push(retarget(e1, c))
        } else {
            es
        }
    }
}

/// What the pairs of an intersection gather, in terms of the store after
/// the intersection.
proof fn lemma_pairs_are_paired<L>(
    nodes: Seq<Seq<EdgeView<L>>>,
    empty: ECTANode,
    a: ECTANode,
    b: ECTANode,
    k: nat,
    fin: Seq<Seq<EdgeView<L>>>,
)
    requires
        well_formed(nodes, empty),
        a < nodes.len(),
        b < nodes.len(),
        k <= nodes[a as int].len() * nodes[b as int].len(),
        extends(intersect_pairs(nodes, empty, a, b, nodes[a as int], nodes[b as int], k).0, fin),
        well_formed(fin, empty),
    ensures
        intersect_pairs(nodes, empty, a, b, nodes[a as int], nodes[b as int], k).1 == paired_edges(
            fin,
            empty,
            nodes[a as int],
            nodes[b as int],
            k,
        ),
    decreases k,
{
    if k > 0 {
        let ea = nodes[a as int];
        let eb = nodes[b as int];
        let km = (k - 1) as nat;
        let (cur, es) = intersect_pairs(nodes, empty, a, b, ea, eb, km);
        let (next, fs) = intersect_pairs(nodes, empty, a, b, ea, eb, k);
        lemma_pairs_step_extends(nodes, empty, a, b, ea, eb, km);
        lemma_extends_transitive(cur, next, fin);
        lemma_pairs_are_paired(nodes, empty, a, b, km, fin);
        let i = (k - 1) / (eb.len() as int);
        let j = (k - 1) % (eb.len() as int);
        assert(eb.len() > 0 && 0 <= i < ea.len() && 0 <= j < eb.len()) by (nonlinear_arith)
            requires
                0 <= k - 1 < ea.len() * eb.len(),
                i == (k - 1) / (eb.len() as int),
                j == (k - 1) % (eb.len() as int),
        ;
        let e1 = ea[i];
        let e2 = eb[j];
        assert(e1.nodeidx < a);
        assert(e2.nodeidx < b);
        if agree(e1, e2) {
            lemma_fits_antitone(cur, fin);
            lemma_pairs_valid(nodes, empty, a, b, ea, eb, km);
            lemma_model_stable(cur, empty, e1.nodeidx, e2.nodeidx, fin);
        }
    }
}

/// The edges of an intersection. Where `a` and `b` are different states and
/// neither is the empty state, their intersection has, for each pair of
/// agreeing edges, one edge to the intersection of the two children; the
/// pair gives no edge exactly when the children intersect in the empty state
/// while neither is empty. With no edge at all the intersection is the empty
/// state.
pub proof fn lemma_intersection_edges<L>(
    nodes: Seq<Seq<EdgeView<L>>>,
    empty: ECTANode,
    a: ECTANode,
    b: ECTANode,
)
    requires
        well_formed(nodes, empty),
        a < nodes.len(),
        b < nodes.len(),
        a != b,
        a != empty,
        b != empty,
        fits(intersect_model(nodes, empty, a, b).0),
    ensures
        ({
            let (fin, r) = intersect_model(nodes, empty, a, b);
            let es = paired_edges(
                fin,
                empty,
                nodes[a as int],
                nodes[b as int],
                nodes[a as int].len() * nodes[b as int].len(),
            );
            &&& es.len() == 0 ==> r == empty
            &&& es.len() > 0 ==> r < fin.len() && fin[r as int].to_multiset() == es.to_multiset()
        }),
{
    let n = nodes[a as int].len() * nodes[b as int].len();
    let (fin, r) = intersect_model(nodes, empty, a, b);
    let (cur, es) = intersect_pairs(nodes, empty, a, b, nodes[a as int], nodes[b as int], n);
    lemma_model_valid(nodes, empty, a, b);
    lemma_pairs_within_model(nodes, empty, a, b, n);
    lemma_pairs_are_paired(nodes, empty, a, b, n, fin);
    if es.len() > 0 {
        lemma_fits_antitone(cur, fin);
        lemma_pairs_valid(nodes, empty, a, b, nodes[a as int], nodes[b as int], n);
        lemma_hash_cons_valid(cur, empty, es);
    }
}

/// The order and the repetition of the pairs that a constraint is built
/// from do not matter: lists with the same pairs are refused together, and
/// where they are accepted they give the same map.
pub proof fn lemma_order_irrelevant(a: Seq<(Seq<u8>, Id)>, b: Seq<(Seq<u8>, Id)>)
    requires
        same_pairs(a, b),
    ensures
        conflict_free(a) == conflict_free(b),
        conflict_free(a) ==> map_of(a) == map_of(b),
{
    if conflict_free(a) {
        lemma_same_pairs_conflict(a, b);
    }
    if conflict_free(b) {
        lemma_same_pairs_conflict(b, a);
    }
    let ma = map_of(a);
    let mb = map_of(b);
    assert forall|k: Seq<u8>| ma.dom().contains(k) == mb.dom().contains(k) by {
        if ma.dom().contains(k) {
            let i = choose|i: int| 0 <= i < a.len() && (#[trigger] a[i]).0 == k;
            assert(b.contains(a[i]));
            let j = choose|j: int| 0 <= j < b.len() && b[j] == a[i];
            assert(b[j].0 == k);
        }
        if mb.dom().contains(k) {
            let i = choose|i: int| 0 <= i < b.len() && (#[trigger] b[i]).0 == k;
            assert(a.contains(b[i]));
            let j = choose|j: int| 0 <= j < a.len() && a[j] == b[i];
            assert(a[j].0 == k);
        }
    }
    assert(ma.dom() =~= mb.dom());
    if conflict_free(a) {
        assert forall|k: Seq<u8>| ma.dom().contains(k) implies ma[k] == mb[k] by {
            let i = choose|i: int| 0 <= i < a.len() && (#[trigger] a[i]).0 == k;
            let j = choose|j: int| 0 <= j < b.len() && (#[trigger] b[j]).0 == k;
            assert(a.contains(b[j]));
            let i2 = choose|i2: int| 0 <= i2 < a.len() && a[i2] == b[j];
            assert(a[i2].0 == a[i].0);
        }
        assert(ma =~= mb);
    }
}

/// Lists with the same pairs are conflict-free together.
proof fn lemma_same_pairs_conflict(a: Seq<(Seq<u8>, Id)>, b: Seq<(Seq<u8>, Id)>)
    requires
        same_pairs(a, b),
        conflict_free(a),
    ensures
        conflict_free(b),
{
    assert forall|i: int, j: int|
        0 <= i < b.len() && 0 <= j < b.len() && (#[trigger] b[i]).0 == (#[trigger] b[j]).0 implies b[i].1
        == b[j].1 by {
        assert(a.contains(b[i]));
        assert(a.contains(b[j]));
        let x = choose|x: int| 0 <= x < a.len() && a[x] == b[i];
        let y = choose|y: int| 0 <= y < a.len() && a[y] == b[j];
        assert(a[x].0 == a[y].0);
    }
}

/// The groups of a constraint are the classes of its paths: a path stands in
/// the group of its identifier and in no other, so two paths stand in one
/// group exactly when they have the same identifier.
pub proof fn lemma_groups_are_classes(m: Map<Seq<u8>, Id>, l: Seq<(Seq<u8>, Id)>, p: Seq<u8>)
    requires
        increasing(l),
        holds_exactly(m, l),
        m.dom().contains(p),
    ensures
        ids(l).contains(m[p]),
        members(l, m[p]).contains(p),
        forall|id: Id| members(l, id).contains(p) ==> id == m[p],
{
    let i = choose|i: int| 0 <= i < l.len() && (#[trigger] l[i]).0 == p;
    assert(m[l[i].0] == l[i].1);
    assert(l[i] == (p, m[p]));
    assert(l.contains((p, m[p])));
    lemma_members_cover(l, m[p], p);
    lemma_ids_cover(l, m[p]);
    assert(l[i].1 == m[p]);
    assert forall|id: Id| members(l, id).contains(p) implies id == m[p] by {
        lemma_members_cover(l, id, p);
        let j = choose|j: int| 0 <= j < l.len() && l[j] == (p, id);
        assert(m[l[j].0] == l[j].1);
    }
}

} // verus!
