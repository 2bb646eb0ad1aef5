//! Runs and order: splitting a list into runs of equal keys, and sorting,
//! both done by `itertools`.

use vstd::prelude::*;

verus! {

/// An edge as it is sorted: its argument position, its place among the
/// edges of its source, and its source.
pub type Ranked = (u8, usize, usize);

/// The indices of a list of keys, split into the longest runs of
/// neighbours with equal keys.
pub open spec fn index_runs(keys: Seq<(usize, usize)>) -> Seq<Seq<usize>>
    decreases keys.len(),
{
    if keys.len() == 0 {
        Seq::empty()
    } else {
        let last = (keys.len() - 1) as usize;
        let before = index_runs(keys.drop_last());
        if keys.len() >= 2 && keys[keys.len() - 2] == keys[keys.len() - 1] && before.len() > 0 {
            before.drop_last().push(before.last().push(last))
        } else {
            before.push(seq![last])
        }
    }
}

/// The runs of a vector, each by its view.
pub open spec fn runs_view(v: Seq<Vec<usize>>) -> Seq<Seq<usize>> {
    Seq::new(v.len(), |i: int| v[i]@)
}

/// The order of tuples: by the first component, then the second, then the
/// third.
pub open spec fn ranked_le(a: Ranked, b: Ranked) -> bool {
    a.0 < b.0 || (a.0 == b.0 && (a.1 < b.1 || (a.1 == b.1 && a.2 <= b.2)))
}

/// `Itertools::chunk_by` on the keys with their indices: the indices in
/// their order, split wherever a key differs from the key before it.
#[verifier::external_body]
pub(crate) fn chunk_indices(keys: &Vec<(usize, usize)>) -> (r: Vec<Vec<usize>>)
    ensures
        runs_view(r@) == index_runs(keys@),
{
    let chunks = itertools::Itertools::chunk_by(keys.iter().enumerate(), |p| *p.1);
    (&chunks).into_iter().map(|(_, g)| g.map(|p| p.0).collect()).collect()
}

/// `Itertools::sorted`: the same items in ascending order.
#[verifier::external_body]
pub(crate) fn sorted_ranked(items: Vec<Ranked>) -> (r: Vec<Ranked>)
    ensures
        r@.to_multiset() == items@.to_multiset(),
        forall|i: int, j: int| 0 <= i < j < r.len() ==> ranked_le(#[trigger] r@[i], #[trigger] r@[j]),
{
    itertools::Itertools::sorted(items.into_iter()).collect()
}

/// Every index in the runs of a list is an index of the list, and no run is
/// empty.
pub proof fn lemma_index_runs_bounds(keys: Seq<(usize, usize)>)
    requires
        keys.len() <= usize::MAX,
    ensures
        forall|g: int, q: int|
            0 <= g < index_runs(keys).len() && 0 <= q < index_runs(keys)[g].len() ==> (
            #[trigger] index_runs(keys)[g][q]) < keys.len(),
        forall|g: int| 0 <= g < index_runs(keys).len() ==> (#[trigger] index_runs(keys)[g]).len() > 0,
        keys.len() > 0 ==> index_runs(keys).len() > 0,
    decreases keys.len(),
{
    if keys.len() > 0 {
        lemma_index_runs_bounds(keys.drop_last());
        let before = index_runs(keys.drop_last());
        let now = index_runs(keys);
        assert forall|g: int, q: int| 0 <= g < now.len() && 0 <= q < now[g].len() implies (
        #[trigger] now[g][q]) < keys.len() by {
            if g < before.len() && q < before[g].len() {
                assert(before[g][q] < keys.len() - 1);
            }
        }
    }
}

} // verus!
