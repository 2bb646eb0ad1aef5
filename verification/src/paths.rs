//! Paths and their order. A path is a sequence of argument positions; stored
//! paths are kept in lexicographic order of their bytes.

use vstd::prelude::*;

verus! {

/// The identifier of an equivalence group of paths.
pub type Id = u64;

/// Lexicographic order on paths, strict.
pub open spec fn lex_less(a: Seq<u8>, b: Seq<u8>) -> bool
    decreases a.len(),
{
    if b.len() == 0 {
        false
    } else if a.len() == 0 {
        true
    } else if a[0] != b[0] {
        a[0] < b[0]
    } else {
        lex_less(a.skip(1), b.skip(1))
    }
}

/// The pairs of a vector with each path taken by its view.
pub open spec fn pairs_view(v: Seq<(Vec<u8>, Id)>) -> Seq<(Seq<u8>, Id)> {
    Seq::new(v.len(), |i: int| (v[i].0@, v[i].1))
}

/// Whether the paths of a list come in strictly increasing order.
pub open spec fn increasing(l: Seq<(Seq<u8>, Id)>) -> bool {
    forall|i: int, j: int| 0 <= i < j < l.len() ==> lex_less(#[trigger] l[i].0, #[trigger] l[j].0)
}

/// Whether the map `m` holds the pairs of `l` and nothing else.
pub open spec fn holds_exactly(m: Map<Seq<u8>, Id>, l: Seq<(Seq<u8>, Id)>) -> bool {
    &&& forall|k: Seq<u8>| #[trigger]
        m.dom().contains(k) ==> exists|i: int| 0 <= i < l.len() && (#[trigger] l[i]).0 == k
    &&& forall|i: int|
        0 <= i < l.len() ==> m.dom().contains((#[trigger] l[i]).0) && m[l[i].0] == l[i].1
}

/// How one path stands to another in lexicographic order.
#[derive(Clone, Copy, Debug, PartialEq, Eq, Structural)]
pub enum Rank {
    Before,
    Same,
    After,
}

/// No path comes before itself.
pub proof fn lemma_lex_irreflexive(a: Seq<u8>)
    ensures
        !lex_less(a, a),
    decreases a.len(),
{
    if a.len() > 0 {
        lemma_lex_irreflexive(a.skip(1));
    }
}

/// Of two paths, at most one comes before the other.
pub proof fn lemma_lex_asymmetric(a: Seq<u8>, b: Seq<u8>)
    requires
        lex_less(a, b),
    ensures
        !lex_less(b, a),
        a != b,
    decreases a.len(),
{
    if a.len() > 0 && b.len() > 0 && a[0] == b[0] {
        lemma_lex_asymmetric(a.skip(1), b.skip(1));
    }
}

/// The order of paths is transitive.
pub proof fn lemma_lex_transitive(a: Seq<u8>, b: Seq<u8>, c: Seq<u8>)
    requires
        lex_less(a, b),
        lex_less(b, c),
    ensures
        lex_less(a, c),
    decreases a.len(),
{
    if a.len() > 0 && b.len() > 0 && c.len() > 0 && a[0] == b[0] && b[0] == c[0] {
        lemma_lex_transitive(a.skip(1), b.skip(1), c.skip(1));
    }
}

/// Two strictly increasing lists that hold the same map are the same list.
pub proof fn lemma_listing_unique(m: Map<Seq<u8>, Id>, l1: Seq<(Seq<u8>, Id)>, l2: Seq<(Seq<u8>, Id)>)
    requires
        increasing(l1),
        holds_exactly(m, l1),
        increasing(l2),
        holds_exactly(m, l2),
    ensures
        l1 == l2,
    decreases l1.len(),
{
    if l1.len() == 0 {
        if l2.len() > 0 {
            assert(m.dom().contains(l2[0].0));
        }
        assert(l1 =~= l2);
    } else if l2.len() == 0 {
        assert(m.dom().contains(l1[0].0));
    } else {
        // The least path of the map is the head of both lists.
        let a = l1[0];
        let b = l2[0];
        assert(m.dom().contains(a.0));
        assert(m.dom().contains(b.0));
        let ia = choose|i: int| 0 <= i < l2.len() && (#[trigger] l2[i]).0 == a.0;
        let ib = choose|i: int| 0 <= i < l1.len() && (#[trigger] l1[i]).0 == b.0;
        if ia > 0 {
            assert(lex_less(l2[0].0, l2[ia].0));
            if ib > 0 {
                assert(lex_less(l1[0].0, l1[ib].0));
                lemma_lex_asymmetric(a.0, b.0);
            } else {
                lemma_lex_irreflexive(a.0);
            }
        }
        assert(a.0 == b.0);
        assert(a == b);
        let m2 = m.remove(a.0);
        let t1 = l1.skip(1);
        let t2 = l2.skip(1);
        assert(increasing(t1)) by {
            assert forall|i: int, j: int| 0 <= i < j < t1.len() implies lex_less(
                #[trigger] t1[i].0,
                #[trigger] t1[j].0,
            ) by {
                assert(lex_less(l1[i + 1].0, l1[j + 1].0));
            }
        }
        assert(increasing(t2)) by {
            assert forall|i: int, j: int| 0 <= i < j < t2.len() implies lex_less(
                #[trigger] t2[i].0,
                #[trigger] t2[j].0,
            ) by {
                assert(lex_less(l2[i + 1].0, l2[j + 1].0));
            }
        }
        lemma_tail_holds(m, l1);
        lemma_tail_holds(m, l2);
        lemma_listing_unique(m2, t1, t2);
        assert(l1 =~= seq![a] + t1);
        assert(l2 =~= seq![b] + t2);
    }
}

/// Without its least path, the map holds the rest of its listing.
proof fn lemma_tail_holds(m: Map<Seq<u8>, Id>, l: Seq<(Seq<u8>, Id)>)
    requires
        l.len() > 0,
        increasing(l),
        holds_exactly(m, l),
    ensures
        holds_exactly(m.remove(l[0].0), l.skip(1)),
{
    let m2 = m.remove(l[0].0);
    let t = l.skip(1);
    assert forall|k: Seq<u8>| #[trigger] m2.dom().contains(k) implies exists|i: int|
        0 <= i < t.len() && (#[trigger] t[i]).0 == k by {
        assert(m.dom().contains(k));
        let i = choose|i: int| 0 <= i < l.len() && (#[trigger] l[i]).0 == k;
        assert(i > 0);
        assert(t[i - 1] == l[i]);
    }
    assert forall|i: int| 0 <= i < t.len() implies m2.dom().contains((#[trigger] t[i]).0) && m2[t[i].0]
        == t[i].1 by {
        assert(t[i] == l[i + 1]);
        assert(lex_less(l[0].0, l[i + 1].0));
        lemma_lex_asymmetric(l[0].0, l[i + 1].0);
    }
}

/// Compares two paths in lexicographic order.
pub fn rank(a: &Vec<u8>, b: &Vec<u8>) -> (r: Rank)
    ensures
        r == Rank::Before <==> lex_less(a@, b@),
        r == Rank::Same <==> a@ == b@,
        r == Rank::After <==> lex_less(b@, a@),
{
    let mut i: usize = 0;
    proof {
        assert(a@.skip(0) =~= a@);
        assert(b@.skip(0) =~= b@);
    }
    while i < a.len() && i < b.len()
        invariant
            i <= a.len(),
            i <= b.len(),
            lex_less(a@, b@) == lex_less(a@.skip(i as int), b@.skip(i as int)),
            lex_less(b@, a@) == lex_less(b@.skip(i as int), a@.skip(i as int)),
            (a@ == b@) == (a@.skip(i as int) == b@.skip(i as int)),
        decreases a.len() - i,
    {
        let ghost sa = a@.skip(i as int);
        let ghost sb = b@.skip(i as int);
        proof {
            assert(sa.skip(1) =~= a@.skip(i + 1));
            assert(sb.skip(1) =~= b@.skip(i + 1));
            assert(sa[0] == a@[i as int]);
            assert(sb[0] == b@[i as int]);
        }
        if a[i] < b[i] {
            return Rank::Before;
        }
        if a[i] > b[i] {
            return Rank::After;
        }
        proof {
            if sa.skip(1) == sb.skip(1) {
                assert(sa =~= seq![sa[0]] + sa.skip(1));
                assert(sb =~= seq![sb[0]] + sb.skip(1));
            }
        }
        i += 1;
    }
    proof {
        let sa = a@.skip(i as int);
        let sb = b@.skip(i as int);
        if sa.len() == 0 && sb.len() == 0 {
            assert(sa =~= sb);
        }
    }
    if i < b.len() {
        Rank::Before
    } else if i < a.len() {
        Rank::After
    } else {
        Rank::Same
    }
}

} // verus!
