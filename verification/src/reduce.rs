//! The groundwork of constraint propagation: the constrained edges of a
//! store, by source and label, in the order of their argument positions.
//! The propagation itself is not provided.

use crate::constraints::PathConstraintStringify;
use crate::edge::ECTANode;
use crate::edge::Edge;
use crate::edge::EdgeView;
use crate::label::ECTATrait;
use crate::runs::chunk_indices;
use crate::runs::index_runs;
use crate::runs::lemma_index_runs_bounds;
use crate::runs::ranked_le;
use crate::runs::runs_view;
use crate::runs::sorted_ranked;
use crate::runs::Ranked;
use crate::store::EctaError;
use crate::store::ECTA;
use crate::constraints::Constraints;
use vstd::prelude::*;
use vstd::seq_lib::to_multiset_build;
use vstd::seq_lib::to_multiset_contains;
use vstd::seq_lib::to_multiset_len;
use vstd::seq_lib::to_multiset_remove;

verus! {

/// A reference to an edge: its source, and its place among the edges of its
/// source.
pub type EdgeRef = (ECTANode, usize);

/// The constrained edges among the first `k` edges of the state `n`.
pub open spec fn constrained_in<L>(es: Seq<EdgeView<L>>, n: ECTANode, k: nat) -> Seq<EdgeRef>
    decreases k,
{
    if k == 0 {
        Seq::empty()
    } else {
        let before = constrained_in(es, n, (k - 1) as nat);
        if es[k - 1].constraints is Some {
            before.push((n, (k - 1) as usize))
        } else {
            before
        }
    }
}

/// The constrained edges of the first `n` states, in the order of the
/// states and of their edges.
pub open spec fn constrained<L>(nodes: Seq<Seq<EdgeView<L>>>, n: nat) -> Seq<EdgeRef>
    decreases n,
{
    if n == 0 {
        Seq::empty()
    } else {
        constrained(nodes, (n - 1) as nat) + constrained_in(
            nodes[n - 1],
            (n - 1) as usize,
            nodes[n - 1].len(),
        )
    }
}

/// Whether two edges have the same source and the same label.
pub open spec fn same_key<L>(nodes: Seq<Seq<EdgeView<L>>>, r1: EdgeRef, r2: EdgeRef) -> bool {
    r1.0 == r2.0 && nodes[r1.0 as int][r1.1 as int].data == nodes[r2.0 as int][r2.1 as int].data
}

/// A list of edges split into the longest runs of neighbours with the same
/// source and label.
pub open spec fn runs<L>(nodes: Seq<Seq<EdgeView<L>>>, refs: Seq<EdgeRef>) -> Seq<Seq<EdgeRef>>
    decreases refs.len(),
{
    if refs.len() == 0 {
        Seq::empty()
    } else {
        let before = runs(nodes, refs.drop_last());
        if refs.len() >= 2 && same_key(nodes, refs[refs.len() - 2], refs[refs.len() - 1])
            && before.len() > 0 {
            before.drop_last().push(before.last().push(refs.last()))
        } else {
            before.push(seq![refs.last()])
        }
    }
}

/// The argument position of an edge.
pub open spec fn position<L>(nodes: Seq<Seq<EdgeView<L>>>, r: EdgeRef) -> u8 {
    nodes[r.0 as int][r.1 as int].edge_num
}

/// The groups of a vector, each by its view.
pub open spec fn groups_view(v: Seq<Vec<EdgeRef>>) -> Seq<Seq<EdgeRef>> {
    Seq::new(v.len(), |i: int| v[i]@)
}

/// The edges that a list of indices picks.
spec fn pick(refs: Seq<EdgeRef>, idxs: Seq<usize>) -> Seq<EdgeRef> {
    Seq::new(idxs.len(), |q: int| refs[idxs[q] as int])
}

/// An edge as it is sorted.
spec fn ranked<L>(nodes: Seq<Seq<EdgeView<L>>>, r: EdgeRef) -> Ranked {
    (position(nodes, r), r.1, r.0)
}

/// The edge that was sorted.
spec fn unranked(t: Ranked) -> EdgeRef {
    (t.2, t.1)
}

/// Whether `t` is the first place among `es` with the label found at `s`.
spec fn first_with_label<L>(es: Seq<EdgeView<L>>, s: int, t: int) -> bool {
    &&& 0 <= t <= s
    &&& es[t].data == es[s].data
    &&& forall|u: int| 0 <= u < t ==> (#[trigger] es[u]).data != es[s].data
}

/// Runs by keys are runs by source and label, where neighbouring keys are
/// equal exactly for neighbours with the same source and label.
proof fn lemma_runs_match<L>(nodes: Seq<Seq<EdgeView<L>>>, refs: Seq<EdgeRef>, keys: Seq<(usize, usize)>)
    requires
        refs.len() == keys.len(),
        keys.len() <= usize::MAX,
        forall|i: int|
            0 <= i < refs.len() - 1 ==> ((#[trigger] keys[i]) == keys[i + 1]) == same_key(
                nodes,
                refs[i],
                refs[i + 1],
            ),
    ensures
        runs(nodes, refs).len() == index_runs(keys).len(),
        forall|g: int|
            0 <= g < index_runs(keys).len() ==> #[trigger] runs(nodes, refs)[g] == pick(
                refs,
                index_runs(keys)[g],
            ),
    decreases refs.len(),
{
    if refs.len() > 0 {
        let n = refs.len() as int;
        let rf = refs.drop_last();
        let kf = keys.drop_last();
        assert forall|i: int| 0 <= i < rf.len() - 1 implies ((#[trigger] kf[i]) == kf[i + 1]) == same_key(
            nodes,
            rf[i],
            rf[i + 1],
        ) by {
            assert(kf[i] == keys[i]);
        }
        lemma_runs_match(nodes, rf, kf);
        lemma_index_runs_bounds(kf);
        let before = index_runs(kf);
        let rb = runs(nodes, rf);
        let now = index_runs(keys);
        let rn = runs(nodes, refs);
        assert forall|g: int| 0 <= g < before.len() implies pick(refs, before[g]) == pick(rf, before[g]) by {
            assert forall|q: int| 0 <= q < before[g].len() implies refs[before[g][q] as int] == rf[before[g][q] as int] by {
                assert(before[g][q] < kf.len());
            }
            assert(pick(refs, before[g]) =~= pick(rf, before[g]));
        }
        if n >= 2 {
            assert(keys[n - 2] == keys[n - 2 + 1] <==> same_key(nodes, refs[n - 2], refs[n - 2 + 1]));
        }
        if n >= 2 && keys[n - 2] == keys[n - 1] && before.len() > 0 {
            let last = before.len() - 1;
            assert(rb[last] == pick(rf, before[last]));
            assert(pick(refs, before[last].push((n - 1) as usize)) =~= pick(rf, before[last]).push(
                refs[n - 1],
            ));
            assert forall|g: int| 0 <= g < now.len() implies #[trigger] rn[g] == pick(refs, now[g]) by {
                if g < last {
                    assert(rb[g] == pick(rf, before[g]));
                }
            }
        } else {
            assert(pick(refs, seq![(n - 1) as usize]) =~= seq![refs[n - 1]]);
            assert forall|g: int| 0 <= g < now.len() implies #[trigger] rn[g] == pick(refs, now[g]) by {
                if g < before.len() {
                    assert(rb[g] == pick(rf, before[g]));
                }
            }
        }
    }
}

/// Lists with the same items, mapped, have the same items.
proof fn lemma_unranked_multiset(a: Seq<Ranked>, b: Seq<Ranked>)
    requires
        a.to_multiset() == b.to_multiset(),
    ensures
        a.map_values(|t: Ranked| unranked(t)).to_multiset() == b.map_values(|t: Ranked| unranked(t)).to_multiset(),
    decreases a.len(),
{
    let f = |t: Ranked| unranked(t);
    to_multiset_len(a);
    to_multiset_len(b);
    if a.len() == 0 {
        assert(a.map_values(f) =~= b.map_values(f));
    } else {
        let x = a.last();
        let a1 = a.drop_last();
        assert(a =~= a1.push(x));
        to_multiset_build(a1, x);
        to_multiset_contains(b, x);
        assert(b.to_multiset().count(x) > 0);
        let i = choose|i: int| 0 <= i < b.len() && b[i] == x;
        let b1 = b.remove(i);
        to_multiset_remove(b, i);
        assert(a1.to_multiset() =~= b1.to_multiset());
        lemma_unranked_multiset(a1, b1);
        let ma = a.map_values(f);
        let mb = b.map_values(f);
        assert(ma =~= a1.map_values(f).push(f(x)));
        to_multiset_build(a1.map_values(f), f(x));
        assert(mb.remove(i) =~= b1.map_values(f));
        to_multiset_remove(mb, i);
        to_multiset_contains(mb, f(x));
        assert(mb[i] == f(x));
        assert(mb.contains(f(x)));
        assert(mb.to_multiset() =~= b1.map_values(f).to_multiset().insert(f(x)));
    }
}

impl<S: ECTATrait, EQ: ECTATrait + PathConstraintStringify> ECTA<S, EQ> {
    /// The constrained edges of the store in the order of the states and of
    /// their edges; beside each its key, which is the same for two edges
    /// exactly when they have the same source and label, and its argument
    /// position.
    fn constrained_edges(&self) -> (r: (Vec<EdgeRef>, Vec<(usize, usize)>, Vec<u8>))
        requires
            self.wf(),
        ensures
            r.0@ == constrained(self@, self@.len()),
            r.1.len() == r.0.len(),
            r.2.len() == r.0.len(),
            forall|i: int|
                0 <= i < r.0.len() ==> {
                    &&& (#[trigger] r.0@[i]).0 < self@.len()
                    &&& r.0@[i].1 < self@[r.0@[i].0 as int].len()
                    &&& r.1@[i].0 == r.0@[i].0
                    &&& first_with_label(self@[r.0@[i].0 as int], r.0@[i].1 as int, r.1@[i].1 as int)
                    &&& r.2@[i] == position(self@, r.0@[i])
                },
    {
        let mut refs: Vec<EdgeRef> = Vec::new();
        let mut keys: Vec<(usize, usize)> = Vec::new();
        let mut nums: Vec<u8> = Vec::new();
        let count = self.len();
        let mut n: usize = 0;
        while n < count
            invariant
                self.wf(),
                count == self@.len(),
                n <= count,
                refs@ == constrained(self@, n as nat),
                keys.len() == refs.len(),
                nums.len() == refs.len(),
                forall|i: int|
                    0 <= i < refs.len() ==> {
                        &&& (#[trigger] refs@[i]).0 < self@.len()
                        &&& refs@[i].1 < self@[refs@[i].0 as int].len()
                        &&& keys@[i].0 == refs@[i].0
                        &&& first_with_label(
                            self@[refs@[i].0 as int],
                            refs@[i].1 as int,
                            keys@[i].1 as int,
                        )
                        &&& nums@[i] == position(self@, refs@[i])
                    },
            decreases count - n,
        {
            let edges = self.get_edges(n);
            let ghost es = self@[n as int];
            let ghost done = refs@;
            let mut s: usize = 0;
            while s < edges.len()
                invariant
                    n < self@.len(),
                    es == self@[n as int],
                    edges.len() == es.len(),
                    forall|i: int| 0 <= i < edges.len() ==> (#[trigger] edges@[i])@ == es[i],
                    s <= edges.len(),
                    refs@ == done + constrained_in(es, n, s as nat),
                    keys.len() == refs.len(),
                    nums.len() == refs.len(),
                    forall|i: int|
                        0 <= i < refs.len() ==> {
                            &&& (#[trigger] refs@[i]).0 < self@.len()
                            &&& refs@[i].1 < self@[refs@[i].0 as int].len()
                            &&& keys@[i].0 == refs@[i].0
                            &&& first_with_label(
                                self@[refs@[i].0 as int],
                                refs@[i].1 as int,
                                keys@[i].1 as int,
                            )
                            &&& nums@[i] == position(self@, refs@[i])
                        },
                decreases edges.len() - s,
            {
                let e = edges[s];
                let ghost so_far = refs@;
                proof {
                    assert(e@ == es[s as int]);
                }
                if e.constraints.is_some() {
                    let t = first_labelled(&edges, s);
                    proof {
                        assert(edges@[t as int]@ == es[t as int]);
                        assert forall|u: int| 0 <= u < t implies (#[trigger] es[u]).data != es[s as int].data by {
                            assert(edges@[u]@ == es[u]);
                        }
                        assert(first_with_label(es, s as int, t as int));
                        assert(e.edge_num == position(self@, (n, s)));
                    }
                    refs.push((n, s));
                    keys.push((n, t));
                    nums.push(e.edge_num);
                    proof {
                        assert(refs@ =~= done + constrained_in(es, n, (s + 1) as nat));
                    }
                } else {
                    proof {
                        assert(refs@ =~= done + constrained_in(es, n, (s + 1) as nat));
                    }
                }
                s += 1;
            }
            n += 1;
        }
        (refs, keys, nums)
    }

    /// The constrained edges of the store in groups: neighbouring edges
    /// with the same source and label stand in one group, and each group is
    /// in the order of the argument positions.
    pub fn constraint_groups(&self) -> (r: Vec<Vec<EdgeRef>>)
        requires
            self.wf(),
        ensures
            r.len() == runs(self@, constrained(self@, self@.len())).len(),
            forall|g: int|
                0 <= g < r.len() ==> (#[trigger] r@[g])@.to_multiset() == runs(
                    self@,
                    constrained(self@, self@.len()),
                )[g].to_multiset(),
            forall|g: int, i: int, j: int|
                0 <= g < r.len() && 0 <= i < j < r@[g].len() ==> position(self@, #[trigger] r@[g]@[i])
                    <= position(self@, #[trigger] r@[g]@[j]),
    {
        let (refs, keys, nums) = self.constrained_edges();
        let chunks = chunk_indices(&keys);
        let ghost nodes = self@;
        let ghost all = runs(nodes, refs@);
        proof {
            assert forall|i: int| 0 <= i < refs.len() - 1 implies ((#[trigger] keys@[i]) == keys@[i + 1])
                == same_key(nodes, refs@[i], refs@[i + 1]) by {
                let a = refs@[i];
                let b = refs@[i + 1];
                assert(first_with_label(nodes[a.0 as int], a.1 as int, keys@[i].1 as int));
                assert(first_with_label(nodes[b.0 as int], b.1 as int, keys@[i + 1].1 as int));
                if a.0 == b.0 {
                    let es = nodes[a.0 as int];
                    let ta = keys@[i].1 as int;
                    let tb = keys@[i + 1].1 as int;
                    if es[a.1 as int].data == es[b.1 as int].data {
                        if ta < tb {
                            assert(es[ta].data != es[b.1 as int].data);
                        } else if tb < ta {
                            assert(es[tb].data != es[a.1 as int].data);
                        }
                    }
                }
            }
            lemma_runs_match(nodes, refs@, keys@);
            lemma_index_runs_bounds(keys@);
            assert(chunks.len() == runs_view(chunks@).len());
        }
        let mut out: Vec<Vec<EdgeRef>> = Vec::new();
        let mut g: usize = 0;
        while g < chunks.len()
            invariant
                g <= chunks.len(),
                out.len() == g,
                nodes == self@,
                all == runs(nodes, refs@),
                all.len() == chunks.len(),
                runs_view(chunks@) == index_runs(keys@),
                keys.len() == refs.len(),
                nums.len() == refs.len(),
                forall|h: int| 0 <= h < chunks.len() ==> #[trigger] all[h] == pick(refs@, index_runs(keys@)[h]),
                forall|h: int, q: int|
                    0 <= h < index_runs(keys@).len() && 0 <= q < index_runs(keys@)[h].len() ==> (
                    #[trigger] index_runs(keys@)[h][q]) < keys.len(),
                forall|i: int| 0 <= i < refs.len() ==> nums@[i] == position(nodes, #[trigger] refs@[i]),
                forall|h: int| 0 <= h < g ==> (#[trigger] out@[h])@.to_multiset() == all[h].to_multiset(),
                forall|h: int, i: int, j: int|
                    0 <= h < g && 0 <= i < j < out@[h].len() ==> position(nodes, #[trigger] out@[h]@[i])
                        <= position(nodes, #[trigger] out@[h]@[j]),
            decreases chunks.len() - g,
        {
            let chunk = &chunks[g];
            let ghost idxs = index_runs(keys@)[g as int];
            let ghost run = all[g as int];
            proof {
                assert(runs_view(chunks@)[g as int] == chunk@);
                assert(run == pick(refs@, idxs));
            }
            let mut items: Vec<Ranked> = Vec::new();
            let mut q: usize = 0;
            while q < chunk.len()
                invariant
                    q <= chunk.len(),
                    chunk@ == idxs,
                    run == pick(refs@, idxs),
                    items.len() == q,
                    nums.len() == refs.len(),
                    forall|p: int| 0 <= p < idxs.len() ==> (#[trigger] idxs[p]) < refs.len(),
                    forall|i: int| 0 <= i < refs.len() ==> nums@[i] == position(nodes, #[trigger] refs@[i]),
                    forall|p: int| 0 <= p < q ==> (#[trigger] items@[p]) == ranked(nodes, run[p]),
                decreases chunk.len() - q,
            {
                let i = chunk[q];
                proof {
                    assert(idxs[q as int] < refs.len());
                    assert(run[q as int] == refs@[i as int]);
                }
                items.push((nums[i], refs[i].1, refs[i].0));
                q += 1;
            }
            let ghost listed = items@;
            let sorted = sorted_ranked(items);
            let mut group: Vec<EdgeRef> = Vec::new();
            let mut p: usize = 0;
            while p < sorted.len()
                invariant
                    p <= sorted.len(),
                    group.len() == p,
                    forall|a: int| 0 <= a < p ==> (#[trigger] group@[a]) == unranked(sorted@[a]),
                decreases sorted.len() - p,
            {
                group.push((sorted[p].2, sorted[p].1));
                p += 1;
            }
            proof {
                let f = |t: Ranked| unranked(t);
                lemma_unranked_multiset(sorted@, listed);
                assert(group@ =~= sorted@.map_values(f));
                assert(listed.map_values(f) =~= run);
                assert forall|i: int, j: int| 0 <= i < j < group.len() implies position(
                    nodes,
                    #[trigger] group@[i],
                ) <= position(nodes, #[trigger] group@[j]) by {
                    assert(ranked_le(sorted@[i], sorted@[j]));
                    lemma_sorted_is_ranked(nodes, run, listed, sorted@, i);
                    lemma_sorted_is_ranked(nodes, run, listed, sorted@, j);
                }
            }
            out.push(group);
            g += 1;
        }
        out
    }

    /// Removes edges from the store. Not provided: the store is left as it
    /// is.
    pub fn snip(&mut self, e_vec: Vec<EdgeRef>) -> (r: Result<(), EctaError>)
        ensures
            r == Err::<(), EctaError>(EctaError::Unimplemented),
            *final(self) == *old(self),
    {
        Err(EctaError::Unimplemented)
    }

    /// Prunes the states below `root_node` by the given constraints. Not
    /// provided: the constrained edges are gathered by source and label, and
    /// the store is left as it is.
    pub fn static_reduction(&mut self, root_node: ECTANode, constraints_list: Vec<Constraints<EQ>>) -> (r:
        Result<ECTANode, EctaError>)
        requires
            old(self).wf(),
        ensures
            r == Err::<ECTANode, EctaError>(EctaError::Unimplemented),
            *final(self) == *old(self),
    {
        let _groups = self.constraint_groups();
        Err(EctaError::Unimplemented)
    }
}

/// The first place among the edges with the label found at `s`.
fn first_labelled<S: ECTATrait, EQ: ECTATrait + PathConstraintStringify>(
    edges: &Vec<&Edge<S, EQ>>,
    s: usize,
) -> (t: usize)
    requires
        s < edges.len(),
    ensures
        t <= s,
        edges@[t as int]@.data == edges@[s as int]@.data,
        forall|u: int| 0 <= u < t ==> (#[trigger] edges@[u])@.data != edges@[s as int]@.data,
{
    let mut t: usize = 0;
    while t < s
        invariant
            t <= s,
            s < edges.len(),
            forall|u: int| 0 <= u < t ==> (#[trigger] edges@[u])@.data != edges@[s as int]@.data,
        decreases s - t,
    {
        if edges[t].data.same(&edges[s].data) {
            return t;
        }
        t += 1;
    }
    t
}

/// What was sorted came from the run.
proof fn lemma_sorted_is_ranked<L>(
    nodes: Seq<Seq<EdgeView<L>>>,
    run: Seq<EdgeRef>,
    listed: Seq<Ranked>,
    sorted: Seq<Ranked>,
    i: int,
)
    requires
        sorted.to_multiset() == listed.to_multiset(),
        listed.len() == run.len(),
        forall|p: int| 0 <= p < listed.len() ==> (#[trigger] listed[p]) == ranked(nodes, run[p]),
        0 <= i < sorted.len(),
    ensures
        sorted[i].0 == position(nodes, unranked(sorted[i])),
{
    to_multiset_contains(sorted, sorted[i]);
    to_multiset_contains(listed, sorted[i]);
    assert(sorted.contains(sorted[i]));
    let p = choose|p: int| 0 <= p < listed.len() && listed[p] == sorted[i];
    assert(listed[p] == ranked(nodes, run[p]));
}

} // verus!
