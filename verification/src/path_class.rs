//! The store of path equivalence classes: a map from paths to group
//! identifiers, kept as a transducer and walked one argument position at a
//! time.

use crate::paths::holds_exactly;
use crate::paths::increasing;
use crate::paths::lemma_lex_irreflexive;
use crate::paths::lemma_lex_transitive;
use crate::paths::lex_less;
use crate::paths::pairs_view;
use crate::paths::rank;
use crate::paths::Id;
use crate::paths::Rank;
use crate::transducer::fst_build;
use crate::transducer::fst_clone;
use crate::transducer::fst_compiled;
use crate::transducer::fst_final_output;
use crate::transducer::fst_is_final;
use crate::transducer::fst_pairs;
use crate::transducer::fst_root;
use crate::transducer::fst_states;
use crate::transducer::fst_stream;
use crate::transducer::fst_transitions;
use crate::transducer::leads;
use crate::transducer::transitions_of;
use crate::transducer::Step;
use fst::raw::Fst;
use vstd::pervasive::unreached;
use vstd::prelude::*;

verus! {

/// Why a collection of paths was refused.
#[derive(Clone, Copy, Debug, PartialEq, Eq, Structural)]
pub enum ConstraintError {
    /// One path was given two different group identifiers.
    ConflictingGroups,
    /// A constraint was given no path at all.
    NoPaths,
}

impl ConstraintError {
    /// What the error says.
    pub open spec fn text(self) -> Seq<char> {
        match self {
            ConstraintError::ConflictingGroups => "a path is given two different groups"@,
            ConstraintError::NoPaths => "a constraint needs at least one path"@,
        }
    }

    /// What the error says.
    pub fn message(&self) -> (s: &'static str)
        ensures
            s@ == self.text(),
    {
        match self {
            ConstraintError::ConflictingGroups => "a path is given two different groups",
            ConstraintError::NoPaths => "a constraint needs at least one path",
        }
    }
}

/// Whether no path of the list has two different group identifiers.
pub open spec fn conflict_free(l: Seq<(Seq<u8>, Id)>) -> bool {
    forall|i: int, j: int|
        0 <= i < l.len() && 0 <= j < l.len() && (#[trigger] l[i]).0 == (#[trigger] l[j]).0 ==> l[i].1
            == l[j].1
}

/// The map that a list of pairs denotes: each listed path with its group.
pub open spec fn map_of(l: Seq<(Seq<u8>, Id)>) -> Map<Seq<u8>, Id> {
    Map::new(
        |k: Seq<u8>| exists|i: int| 0 <= i < l.len() && (#[trigger] l[i]).0 == k,
        |k: Seq<u8>| l[choose|i: int| 0 <= i < l.len() && (#[trigger] l[i]).0 == k].1,
    )
}

/// Whether some stored path starts with `p`.
pub open spec fn reaches(m: Map<Seq<u8>, Id>, p: Seq<u8>) -> bool {
    exists|s: Seq<u8>| #[trigger] m.dom().contains(p + s)
}

/// Whether two lists hold the same pairs, in whatever order and number.
pub open spec fn same_pairs(a: Seq<(Seq<u8>, Id)>, b: Seq<(Seq<u8>, Id)>) -> bool {
    &&& forall|i: int| 0 <= i < a.len() ==> b.contains(#[trigger] a[i])
    &&& forall|i: int| 0 <= i < b.len() ==> a.contains(#[trigger] b[i])
}

/// A map that holds exactly an increasing list is the map of every
/// conflict-free list with the same pairs.
pub proof fn lemma_map_of_listing(m: Map<Seq<u8>, Id>, sorted: Seq<(Seq<u8>, Id)>, l: Seq<(Seq<u8>, Id)>)
    requires
        holds_exactly(m, sorted),
        same_pairs(sorted, l),
        conflict_free(l),
    ensures
        m == map_of(l),
{
    let m2 = map_of(l);
    assert forall|k: Seq<u8>| m.dom().contains(k) implies m2.dom().contains(k) && m2[k] == m[k] by {
        let i = choose|i: int| 0 <= i < sorted.len() && (#[trigger] sorted[i]).0 == k;
        assert(l.contains(sorted[i]));
        let j = choose|j: int| 0 <= j < l.len() && l[j] == sorted[i];
        assert(l[j].0 == k);
        let c = choose|c: int| 0 <= c < l.len() && (#[trigger] l[c]).0 == k;
        assert(l[c].1 == l[j].1);
    }
    assert forall|k: Seq<u8>| m2.dom().contains(k) implies m.dom().contains(k) by {
        let j = choose|j: int| 0 <= j < l.len() && (#[trigger] l[j]).0 == k;
        assert(sorted.contains(l[j]));
        let i = choose|i: int| 0 <= i < sorted.len() && sorted[i] == l[j];
        assert(m.dom().contains(sorted[i].0));
    }
    assert(m =~= m2);
}

/// An increasing list has no conflict, and neither has a list with the same
/// pairs.
proof fn lemma_increasing_conflict_free(sorted: Seq<(Seq<u8>, Id)>, l: Seq<(Seq<u8>, Id)>)
    requires
        increasing(sorted),
        same_pairs(sorted, l),
    ensures
        conflict_free(l),
{
    assert forall|i: int, j: int|
        0 <= i < l.len() && 0 <= j < l.len() && (#[trigger] l[i]).0 == (#[trigger] l[j]).0 implies l[i].1
        == l[j].1 by {
        assert(sorted.contains(l[i]));
        assert(sorted.contains(l[j]));
        let a = choose|a: int| 0 <= a < sorted.len() && sorted[a] == l[i];
        let b = choose|b: int| 0 <= b < sorted.len() && sorted[b] == l[j];
        lemma_lex_irreflexive(l[i].0);
        if a < b {
            assert(lex_less(sorted[a].0, sorted[b].0));
        } else if b < a {
            assert(lex_less(sorted[b].0, sorted[a].0));
        }
    }
}

/// Where a path stands in an increasing list: the index of the first pair
/// whose path is not before it, and whether that pair has the path itself.
fn find_slot(sorted: &Vec<(Vec<u8>, Id)>, path: &Vec<u8>) -> (r: (usize, bool))
    ensures
        r.0 <= sorted.len(),
        forall|a: int| 0 <= a < r.0 ==> lex_less(#[trigger] pairs_view(sorted@)[a].0, path@),
        r.1 ==> r.0 < sorted.len() && pairs_view(sorted@)[r.0 as int].0 == path@,
        !r.1 && r.0 < sorted.len() ==> lex_less(path@, pairs_view(sorted@)[r.0 as int].0),
{
    let mut j: usize = 0;
    while j < sorted.len()
        invariant
            j <= sorted.len(),
            forall|a: int| 0 <= a < j ==> lex_less(#[trigger] pairs_view(sorted@)[a].0, path@),
        decreases sorted.len() - j,
    {
        assert(pairs_view(sorted@)[j as int] == (sorted@[j as int].0@, sorted@[j as int].1));
        match rank(path, &sorted[j].0) {
            Rank::Before => {
                return (j, false);
            },
            Rank::Same => {
                return (j, true);
            },
            Rank::After => {
                j += 1;
            },
        }
    }
    (j, false)
}

/// Reading a transition keeps a walk on track.
proof fn lemma_step_tracks(
    pairs: Map<Seq<u8>, Id>,
    m: Map<Seq<u8>, u64>,
    m2: Map<Seq<u8>, u64>,
    here: Seq<u8>,
    out: u64,
    step: Step,
)
    requires
        tracks(pairs, m, here, out),
        leads(m, step.0, step.1, m2),
        exists|s: Seq<u8>| #[trigger] m2.dom().contains(s),
    ensures
        out + step.1 <= u64::MAX,
        tracks(pairs, m2, here.push(step.0), (out + step.1) as u64),
        reaches(pairs, here.push(step.0)),
{
    let edge = step.0;
    let next = here.push(edge);
    assert forall|s: Seq<u8>| next + s == here + (seq![edge] + s) by {
        assert(next + s =~= here + (seq![edge] + s));
    }
    let s0 = choose|s: Seq<u8>| #[trigger] m2.dom().contains(s);
    assert(m.dom().contains(seq![edge] + s0));
    assert(pairs.dom().contains(here + (seq![edge] + s0)));
    assert(pairs.dom().contains(next + s0));
    assert(pairs[next + s0] == out + step.1 + m2[s0]);
    assert forall|s: Seq<u8>| #[trigger] pairs.dom().contains(next + s) implies m2.dom().contains(s) by {
        let k = seq![edge] + s;
        assert(pairs.dom().contains(here + k));
        assert(m.dom().contains(k));
        assert(k.skip(1) =~= s);
    }
    assert forall|s: Seq<u8>| #[trigger] m2.dom().contains(s) implies pairs.dom().contains(next + s)
        && pairs[next + s] == out + step.1 + m2[s] by {
        assert(m.dom().contains(seq![edge] + s));
        assert(pairs.dom().contains(here + (seq![edge] + s)));
    }
}

/// Where no transition reads a byte, no stored path goes on with it.
proof fn lemma_no_step(
    pairs: Map<Seq<u8>, Id>,
    states: Map<usize, Map<Seq<u8>, u64>>,
    addr: usize,
    ts: Seq<Step>,
    here: Seq<u8>,
    out: u64,
    edge: u8,
)
    requires
        tracks(pairs, states[addr], here, out),
        transitions_of(states, addr, ts),
        forall|a: int| 0 <= a < ts.len() ==> (#[trigger] ts[a]).0 != edge,
    ensures
        !reaches(pairs, here.push(edge)),
{
    let next = here.push(edge);
    if reaches(pairs, next) {
        let s = choose|s: Seq<u8>| #[trigger] pairs.dom().contains(next + s);
        let k = seq![edge] + s;
        assert(next + s =~= here + k);
        assert(pairs.dom().contains(here + k));
        assert(states[addr].dom().contains(k));
        let a = choose|a: int| 0 <= a < ts.len() && (#[trigger] ts[a]).0 == k[0];
        assert(false);
    }
}

/// The index of the transition that reads `edge`, if there is one.
fn find_step(ts: &Vec<Step>, edge: u8) -> (r: Option<usize>)
    ensures
        r matches Some(i) ==> i < ts.len() && ts@[i as int].0 == edge,
        r is None ==> forall|a: int| 0 <= a < ts.len() ==> (#[trigger] ts@[a]).0 != edge,
{
    let mut i: usize = 0;
    while i < ts.len()
        invariant
            i <= ts.len(),
            forall|a: int| 0 <= a < i ==> (#[trigger] ts@[a]).0 != edge,
        decreases ts.len() - i,
    {
        if ts[i].0 == edge {
            return Some(i);
        }
        i += 1;
    }
    None
}

/// Puts pairs in increasing order of their paths and drops repeated pairs.
/// Fails exactly when a path comes with two different groups.
pub fn sort_pairs(path_data: Vec<(Vec<u8>, Id)>) -> (r: Result<Vec<(Vec<u8>, Id)>, ConstraintError>)
    ensures
        r is Ok <==> conflict_free(pairs_view(path_data@)),
        r matches Ok(s) ==> increasing(pairs_view(s@)) && same_pairs(
            pairs_view(s@),
            pairs_view(path_data@),
        ),
        r matches Err(e) ==> e == ConstraintError::ConflictingGroups,
{
    let ghost orig = pairs_view(path_data@);
    let mut input = path_data;
    let mut sorted: Vec<(Vec<u8>, Id)> = Vec::new();
    while input.len() > 0
        invariant
            orig == pairs_view(path_data@),
            input.len() <= orig.len(),
            pairs_view(input@) == orig.take(input.len() as int),
            increasing(pairs_view(sorted@)),
            forall|i: int|
                0 <= i < sorted.len() ==> orig.contains(#[trigger] pairs_view(sorted@)[i]),
            forall|k: int|
                input.len() <= k < orig.len() ==> pairs_view(sorted@).contains(#[trigger] orig[k]),
        decreases input.len(),
    {
        let ghost before = pairs_view(input@);
        let ghost n = input.len() as int;
        let p = input.pop().unwrap();
        let ghost pv = (p.0@, p.1);
        let ghost done = pairs_view(sorted@);
        proof {
            assert(before[n - 1] == pv);
            assert(orig[n - 1] == pv);
            assert(pairs_view(input@) =~= orig.take(n - 1));
        }
        let (j, found) = find_slot(&sorted, &p.0);
        if found {
            proof {
                assert(done[j as int] == (sorted@[j as int].0@, sorted@[j as int].1));
            }
            if p.1 != sorted[j].1 {
                proof {
                    let c = choose|c: int| 0 <= c < orig.len() && orig[c] == done[j as int];
                    assert(orig[c].0 == orig[n - 1].0);
                    assert(orig[c].1 != orig[n - 1].1);
                    assert(!conflict_free(orig));
                }
                return Err(ConstraintError::ConflictingGroups);
            }
            proof {
                assert(done[j as int] == pv);
            }
        }
        if !found {
            let ghost jj = j as int;
            sorted.insert(j, p);
            proof {
                let after = pairs_view(sorted@);
                assert(after =~= done.insert(jj, pv));
                assert forall|a: int, b: int| 0 <= a < b < after.len() implies lex_less(
                    #[trigger] after[a].0,
                    #[trigger] after[b].0,
                ) by {
                    if b < jj {
                        assert(lex_less(done[a].0, done[b].0));
                    } else if b == jj {
                        assert(lex_less(done[a].0, pv.0));
                    } else if a == jj {
                        if b - 1 > jj {
                            assert(lex_less(done[jj].0, done[b - 1].0));
                            lemma_lex_transitive(pv.0, done[jj].0, done[b - 1].0);
                        }
                    } else if a < jj {
                        assert(lex_less(done[a].0, pv.0));
                        if b - 1 > jj {
                            assert(lex_less(done[jj].0, done[b - 1].0));
                            lemma_lex_transitive(pv.0, done[jj].0, done[b - 1].0);
                        }
                        lemma_lex_transitive(done[a].0, pv.0, done[b - 1].0);
                    } else {
                        assert(lex_less(done[a - 1].0, done[b - 1].0));
                    }
                }
                assert forall|i: int| 0 <= i < after.len() implies orig.contains(
                    #[trigger] after[i],
                ) by {
                    if i < jj {
                        assert(after[i] == done[i]);
                    } else if i > jj {
                        assert(after[i] == done[i - 1]);
                    }
                }
                assert forall|k: int| n - 1 <= k < orig.len() implies after.contains(
                    #[trigger] orig[k],
                ) by {
                    if k == n - 1 {
                        assert(after[jj] == pv);
                    } else {
                        let d = choose|d: int| 0 <= d < done.len() && done[d] == orig[k];
                        if d < jj {
                            assert(after[d] == done[d]);
                        } else {
                            assert(after[d + 1] == done[d]);
                        }
                    }
                }
            }
        }
    }
    proof {
        let done = pairs_view(sorted@);
        assert(same_pairs(done, orig));
        lemma_increasing_conflict_free(done, orig);
    }
    Ok(sorted)
}

/// A finite map from paths to group identifiers, immutable once built.
pub struct PathEClass {
    /// The transducer from each stored path to its group.
    data: Fst<Vec<u8>>,
}

impl View for PathEClass {
    type V = Map<Seq<u8>, Id>;

    /// The stored paths, each with its group.
    closed spec fn view(&self) -> Map<Seq<u8>, Id> {
        fst_pairs(self.data)
    }
}

/// Whether a walk that has read `path` and gathered the output `out` stands
/// in a state with the continuations `m` of a transducer that stores `pairs`.
spec fn tracks(pairs: Map<Seq<u8>, Id>, m: Map<Seq<u8>, u64>, path: Seq<u8>, out: u64) -> bool {
    &&& forall|s: Seq<u8>| #[trigger]
        m.dom().contains(s) ==> pairs.dom().contains(path + s) && pairs[path + s] == out + m[s]
    &&& forall|s: Seq<u8>| #[trigger] pairs.dom().contains(path + s) ==> m.dom().contains(s)
}

/// A position in the walk along a path: the prefix read so far.
pub struct PathIdx<'a> {
    /// The store that is walked.
    store: &'a PathEClass,
    /// The address of the state that the walk stands in.
    addr: usize,
    /// The output gathered on the way.
    out: u64,
    /// The positions read on the way.
    path: Ghost<Seq<u8>>,
}

impl<'a> PathIdx<'a> {
    #[verifier::type_invariant]
    spec fn inv(self) -> bool {
        &&& fst_compiled(self.store.data)
        &&& fst_states(self.store.data).dom().contains(self.addr)
        &&& tracks(
            fst_pairs(self.store.data),
            fst_states(self.store.data)[self.addr],
            self.path@,
            self.out,
        )
    }

    /// The argument positions read so far.
    pub closed spec fn path(&self) -> Seq<u8> {
        self.path@
    }

    /// The store that is walked.
    pub closed spec fn store(&self) -> PathEClass {
        *self.store
    }

    /// Whether the prefix read so far is itself a stored path.
    pub fn is_final_state(&self) -> (b: bool)
        ensures
            b == self.store()@.dom().contains(self.path()),
    {
        proof {
            use_type_invariant(self);
            assert(self.path@ + Seq::<u8>::empty() =~= self.path@);
        }
        fst_is_final(&self.store.data, self.addr)
    }

    /// The group of the prefix read so far, where it is a stored path.
    pub fn get_final_value(&self) -> (r: Option<Id>)
        ensures
            r == if self.store()@.dom().contains(self.path()) {
                Some(self.store()@[self.path()])
            } else {
                None::<Id>
            },
    {
        proof {
            use_type_invariant(self);
            assert(self.path@ + Seq::<u8>::empty() =~= self.path@);
        }
        if self.is_final_state() {
            let last = fst_final_output(&self.store.data, self.addr);
            Some(self.out + last)
        } else {
            None
        }
    }
}

impl PathEClass {
    #[verifier::type_invariant]
    spec fn inv(self) -> bool {
        fst_compiled(self.data)
    }

    /// Builds the store from pairs of a path and its group, in any order.
    /// A pair may be repeated. A path with two different groups is refused.
    pub fn new(path_data: Vec<(Vec<u8>, Id)>) -> (r: Result<Self, ConstraintError>)
        ensures
            r is Ok <==> conflict_free(pairs_view(path_data@)),
            r matches Ok(pc) ==> pc@ == map_of(pairs_view(path_data@)),
            r matches Err(e) ==> e == ConstraintError::ConflictingGroups,
    {
        let ghost orig = pairs_view(path_data@);
        match sort_pairs(path_data) {
            Err(e) => Err(e),
            Ok(sorted) => {
                let ghost listed = pairs_view(sorted@);
                match fst_build(sorted) {
                    Ok(data) => {
                        proof {
                            lemma_map_of_listing(fst_pairs(data), listed, orig);
                        }
                        Ok(PathEClass { data })
                    },
                    Err(_) => unreached(),
                }
            },
        }
    }

    /// Every stored path with its group, in increasing order of the paths.
    pub fn pairs(&self) -> (r: Vec<(Vec<u8>, Id)>)
        ensures
            increasing(pairs_view(r@)),
            holds_exactly(self@, pairs_view(r@)),
    {
        proof {
            use_type_invariant(self);
        }
        fst_stream(&self.data)
    }

    /// The position before anything is read.
    pub fn get_root(&self) -> (r: PathIdx<'_>)
        ensures
            r.path() == Seq::<u8>::empty(),
            r.store() == *self,
    {
        proof {
            use_type_invariant(self);
        }
        let addr = fst_root(&self.data);
        proof {
            assert forall|s: Seq<u8>| Seq::<u8>::empty() + s == s by {
                assert(Seq::<u8>::empty() + s =~= s);
            }
        }
        PathIdx { store: self, addr, out: 0, path: Ghost(Seq::empty()) }
    }

    /// The position reached from `n` by descending through the argument
    /// position `edge`, if any stored path goes that way.
    pub fn get_next_node_on_symbol(&self, n: PathIdx<'_>, edge: u8) -> (r: Option<PathIdx<'_>>)
        requires
            n.store() == *self,
        ensures
            r is Some <==> reaches(self@, n.path().push(edge)),
            r matches Some(p) ==> p.path() == n.path().push(edge) && p.store() == *self,
    {
        proof {
            use_type_invariant(self);
            use_type_invariant(&n);
        }
        let ts = fst_transitions(&self.data, n.addr);
        let ghost states = fst_states(self.data);
        let ghost pairs = fst_pairs(self.data);
        match find_step(&ts, edge) {
            Some(i) => {
                let t: Step = ts[i];
                proof {
                    assert(ts@[i as int] == t);
                    lemma_step_tracks(pairs, states[n.addr], states[t.2], n.path@, n.out, t);
                }
                let out = n.out + t.1;
                Some(PathIdx { store: self, addr: t.2, out, path: Ghost(n.path@.push(edge)) })
            },
            None => {
                proof {
                    lemma_no_step(pairs, states, n.addr, ts@, n.path@, n.out, edge);
                }
                None
            },
        }
    }
}

impl Clone for PathEClass {
    fn clone(&self) -> (r: Self)
        ensures
            r@ == self@,
    {
        proof {
            use_type_invariant(self);
        }
        PathEClass { data: fst_clone(&self.data) }
    }
}

} // verus!
