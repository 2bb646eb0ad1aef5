//! Edges: one labelled transition from a state to a child state, with the
//! argument position it fills and, optionally, a constraint.

use crate::constraints::Constraints;
use crate::constraints::PathConstraintStringify;
use crate::label::ECTATrait;
use crate::text::decimal;
use crate::text::decimal_string;
use vstd::prelude::*;
use vstd::seq_lib::lemma_multiset_commutative;
use vstd::seq_lib::to_multiset_build;
use vstd::seq_lib::to_multiset_contains;
use vstd::seq_lib::to_multiset_len;
use vstd::seq_lib::to_multiset_remove;
use vstd::std_specs::cmp::PartialEqSpecImpl;

verus! {

/// The identity of a state: its index in the store.
pub type ECTANode = usize;

/// A transition to the state `nodeidx` under the label `data`, as argument
/// number `edge_num` of that label.
pub struct Edge<T, EQ: PathConstraintStringify> {
    /// The label.
    pub data: T,
    /// The constraint on the arguments of the label, if there is one.
    pub constraints: Option<Constraints<EQ>>,
    /// The argument position that the child fills.
    pub edge_num: u8,
    /// The child.
    pub nodeidx: ECTANode,
}

/// What an edge is, for comparing: its label by its view, and its
/// constraint by its text.
pub struct EdgeView<L> {
    pub data: L,
    pub constraints: Option<Seq<char>>,
    pub edge_num: u8,
    pub nodeidx: ECTANode,
}

/// The text of an optional constraint.
pub open spec fn text_of<EQ: PathConstraintStringify>(c: Option<Constraints<EQ>>) -> Option<Seq<char>> {
    match c {
        Some(c) => Some(c.text()),
        None => None,
    }
}

/// The edges of a list, each by its view.
pub open spec fn edges_view<T: View, EQ: PathConstraintStringify>(es: Seq<Edge<T, EQ>>) -> Seq<
    EdgeView<T::V>,
> {
    Seq::new(es.len(), |k: int| es[k]@)
}

/// What an edge shows: its label and position, then, after ` : `, the text
/// of its constraint where it has one.
pub open spec fn edge_text(label: Seq<char>, edge_num: u8, constraints: Option<Seq<char>>) -> Seq<char> {
    let head = label + seq!['_'] + decimal(edge_num as nat);
    match constraints {
        Some(c) => head + seq![' ', ':', ' '] + c,
        None => head,
    }
}

impl<T: View, EQ: PathConstraintStringify> View for Edge<T, EQ> {
    type V = EdgeView<T::V>;

    open spec fn view(&self) -> EdgeView<T::V> {
        EdgeView {
            data: self.data@,
            constraints: text_of(self.constraints),
            edge_num: self.edge_num,
            nodeidx: self.nodeidx,
        }
    }
}

impl<T, EQ: PathConstraintStringify> Edge<T, EQ> {
    pub fn new(data: T, constraints: Option<Constraints<EQ>>, edge_num: u8, nodeidx: ECTANode) -> (e:
        Self)
        ensures
            e.data == data,
            e.constraints == constraints,
            e.edge_num == edge_num,
            e.nodeidx == nodeidx,
    {
        Self { data, edge_num, constraints, nodeidx }
    }

    /// The same edge with its label replaced by what `f` makes of it.
    pub fn map<U>(self, f: impl Fn(T) -> U) -> (e: Edge<U, EQ>)
        requires
            f.requires((self.data,)),
        ensures
            f.ensures((self.data,), e.data),
            e.constraints == self.constraints,
            e.edge_num == self.edge_num,
            e.nodeidx == self.nodeidx,
    {
        Edge {
            data: f(self.data),
            constraints: self.constraints,
            edge_num: self.edge_num,
            nodeidx: self.nodeidx,
        }
    }

    /// The edge as shown to a reader, given the text of its label.
    pub fn display_text(&self, label: &str) -> (s: String)
        ensures
            s@ == edge_text(label@, self.edge_num, text_of(self.constraints)),
    {
        proof {
            reveal_strlit("_");
            reveal_strlit(" : ");
            assert("_"@ =~= seq!['_']);
            assert(" : "@ =~= seq![' ', ':', ' ']);
        }
        let mut s = String::from_str(label);
        s.append("_");
        let num = decimal_string(self.edge_num);
        s.append(num.as_str());
        match &self.constraints {
            Some(c) => {
                s.append(" : ");
                let t = c.to_string();
                s.append(t.as_str());
            },
            None => {},
        }
        s
    }
}

impl<T: ECTATrait, EQ: ECTATrait + PathConstraintStringify> Edge<T, EQ> {
    /// Whether two edges are equal by value: label, position, constraint and
    /// target.
    pub fn same(&self, other: &Self) -> (b: bool)
        ensures
            b == (self@ == other@),
    {
        if self.edge_num != other.edge_num || self.nodeidx != other.nodeidx {
            return false;
        }
        if !self.data.same(&other.data) {
            return false;
        }
        match (&self.constraints, &other.constraints) {
            (Some(a), Some(b)) => a == b,
            (None, None) => true,
            _ => false,
        }
    }

    /// A copy of the edge.
    pub fn duplicate(&self) -> (e: Self)
        ensures
            e@ == self@,
            e.data == self.data,
    {
        let constraints = match &self.constraints {
            Some(c) => Some(c.duplicate()),
            None => None,
        };
        Edge {
            data: self.data.duplicate(),
            constraints,
            edge_num: self.edge_num,
            nodeidx: self.nodeidx,
        }
    }
}

impl<T: ECTATrait, EQ: ECTATrait + PathConstraintStringify> Clone for Edge<T, EQ> {
    fn clone(&self) -> (e: Self)
        ensures
            e@ == self@,
            e.data == self.data,
    {
        self.duplicate()
    }
}

impl<T: ECTATrait, EQ: ECTATrait + PathConstraintStringify> PartialEq for Edge<T, EQ> {
    fn eq(&self, other: &Self) -> (b: bool) {
        self.same(other)
    }
}

impl<T: ECTATrait, EQ: ECTATrait + PathConstraintStringify> PartialEqSpecImpl for Edge<T, EQ> {
    open spec fn obeys_eq_spec() -> bool {
        true
    }

    open spec fn eq_spec(&self, other: &Self) -> bool {
        self@ == other@
    }
}

impl<T: ECTATrait, EQ: ECTATrait + PathConstraintStringify> Eq for Edge<T, EQ> {

}

/// The values that a list of indices picks from a sequence.
spec fn picked<A>(rest: Seq<usize>, s: Seq<A>) -> Seq<A> {
    Seq::new(rest.len(), |p: int| s[rest[p] as int])
}

/// The place in `rest` of an index at which `b` holds an edge equal to `e`.
fn find_equal<T: ECTATrait, EQ: ECTATrait + PathConstraintStringify>(
    e: &Edge<T, EQ>,
    b: &Vec<Edge<T, EQ>>,
    rest: &Vec<usize>,
) -> (r: Option<usize>)
    requires
        forall|p: int| 0 <= p < rest.len() ==> (#[trigger] rest@[p]) < b.len(),
    ensures
        r matches Some(p) ==> p < rest.len() && b@[rest@[p as int] as int]@ == e@,
        r is None ==> forall|p: int| 0 <= p < rest.len() ==> b@[(#[trigger] rest@[p]) as int]@ != e@,
{
    let mut p: usize = 0;
    while p < rest.len()
        invariant
            p <= rest.len(),
            forall|q: int| 0 <= q < rest.len() ==> (#[trigger] rest@[q]) < b.len(),
            forall|q: int| 0 <= q < p ==> b@[(#[trigger] rest@[q]) as int]@ != e@,
        decreases rest.len() - p,
    {
        if e.same(&b[rest[p]]) {
            return Some(p);
        }
        p += 1;
    }
    None
}

/// Whether two lists hold the same edges, each as often as the other, in
/// whatever order.
pub fn same_edges<T: ECTATrait, EQ: ECTATrait + PathConstraintStringify>(
    a: &Vec<Edge<T, EQ>>,
    b: &Vec<Edge<T, EQ>>,
) -> (r: bool)
    ensures
        r == (edges_view(a@).to_multiset() == edges_view(b@).to_multiset()),
{
    let ghost av = edges_view(a@);
    let ghost bv = edges_view(b@);
    let n = a.len();
    proof {
        to_multiset_len(av);
        to_multiset_len(bv);
    }
    if n != b.len() {
        return false;
    }
    let mut rest: Vec<usize> = Vec::new();
    let mut k: usize = 0;
    while k < n
        invariant
            k <= n,
            rest.len() == k,
            forall|p: int| 0 <= p < k ==> (#[trigger] rest@[p]) == p,
        decreases n - k,
    {
        rest.push(k);
        k += 1;
    }
    proof {
        assert(picked(rest@, bv) =~= bv);
        assert(av.take(0) + bv =~= bv);
        lemma_multiset_commutative(av.take(0), bv);
    }
    let mut i: usize = 0;
    while i < n
        invariant
            i <= n,
            n == a.len(),
            n == b.len(),
            av == edges_view(a@),
            bv == edges_view(b@),
            rest.len() == n - i,
            forall|p: int| 0 <= p < rest.len() ==> (#[trigger] rest@[p]) < n,
            av.take(i as int).to_multiset().add(picked(rest@, bv).to_multiset()) == bv.to_multiset(),
        decreases n - i,
    {
        let ghost taken = av.take(i as int);
        let ghost x = av[i as int];
        let ghost vals = picked(rest@, bv);
        proof {
            assert(av.take(i + 1) =~= taken.push(x));
            to_multiset_build(taken, x);
            to_multiset_contains(vals, x);
        }
        match find_equal(&a[i], b, &rest) {
            None => {
                proof {
                    assert(!vals.contains(x)) by {
                        if vals.contains(x) {
                            let p = choose|p: int| 0 <= p < vals.len() && vals[p] == x;
                            assert(bv[rest@[p] as int] == b@[rest@[p] as int]@);
                        }
                    }
                    assert(bv.to_multiset().count(x) == taken.to_multiset().count(x));
                    assert(av =~= av.take(i + 1) + av.skip(i + 1));
                    lemma_multiset_commutative(av.take(i + 1), av.skip(i + 1));
                    assert(av.to_multiset().count(x) > bv.to_multiset().count(x));
                }
                return false;
            },
            Some(p) => {
                proof {
                    assert(vals[p as int] == x) by {
                        assert(bv[rest@[p as int] as int] == b@[rest@[p as int] as int]@);
                    }
                    assert(vals.contains(x));
                    to_multiset_remove(vals, p as int);
                }
                rest.remove(p);
                proof {
                    assert(picked(rest@, bv) =~= vals.remove(p as int));
                    assert(taken.push(x).to_multiset().add(vals.remove(p as int).to_multiset())
                        =~= taken.to_multiset().add(vals.to_multiset()));
                }
            },
        }
        i += 1;
    }
    proof {
        assert(av.take(n as int) =~= av);
        assert(av + picked(rest@, bv) =~= av);
        lemma_multiset_commutative(av, picked(rest@, bv));
    }
    true
}

} // verus!
