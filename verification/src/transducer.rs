//! The automaton that stores the paths of a constraint: a finite-state
//! transducer of the `fst` crate, reached through the few calls below.

use crate::paths::holds_exactly;
use crate::paths::increasing;
use crate::paths::pairs_view;
use crate::paths::Id;
use fst::raw::Fst;
use vstd::prelude::*;

verus! {

/// The transducer of `fst`. What it holds is known through `fst_pairs` and
/// `fst_states` only.
#[verifier::external_type_specification]
#[verifier::external_body]
#[verifier::reject_recursive_types(D)]
pub struct ExFst<D>(Fst<D>);

/// The error of `fst`.
#[verifier::external_type_specification]
#[verifier::external_body]
pub struct ExFstError(fst::Error);

/// A transition of a state: the byte it reads, the output it adds, and the
/// address of the state it leads to.
pub type Step = (u8, u64, usize);

/// The keys that a transducer stores, each with its value.
pub uninterp spec fn fst_pairs(f: Fst<Vec<u8>>) -> Map<Seq<u8>, Id>;

/// The states of a transducer, by address. A state is given by what can
/// still be read from it: each byte string that leads from the state to the
/// end of a stored key, with the output that is added on that way.
pub uninterp spec fn fst_states(f: Fst<Vec<u8>>) -> Map<usize, Map<Seq<u8>, u64>>;

/// Whether the transducer was compiled by the crate's builder, as opposed to
/// read from bytes of unknown origin.
pub uninterp spec fn fst_compiled(f: Fst<Vec<u8>>) -> bool;

/// Whether reading `inp` from a state with the continuations `m` adds `out`
/// and leaves exactly the continuations `m2`.
pub open spec fn leads(m: Map<Seq<u8>, u64>, inp: u8, out: u64, m2: Map<Seq<u8>, u64>) -> bool {
    &&& forall|s: Seq<u8>| #[trigger]
        m2.dom().contains(s) ==> m.dom().contains(seq![inp] + s) && m[seq![inp] + s] == out + m2[s]
    &&& forall|k: Seq<u8>| #[trigger]
        m.dom().contains(k) && k.len() > 0 && k[0] == inp ==> m2.dom().contains(k.skip(1))
}

/// Whether `ts` are the transitions of the state at `addr`: each leads to a
/// state from which some key can be completed, and every non-empty
/// continuation of the state starts with one of them.
pub open spec fn transitions_of(states: Map<usize, Map<Seq<u8>, u64>>, addr: usize, ts: Seq<Step>) -> bool {
    &&& forall|i: int|
        0 <= i < ts.len() ==> {
            &&& states.dom().contains((#[trigger] ts[i]).2)
            &&& exists|s: Seq<u8>| #[trigger] states[ts[i].2].dom().contains(s)
            &&& leads(states[addr], ts[i].0, ts[i].1, states[ts[i].2])
        }
    &&& forall|k: Seq<u8>| #[trigger]
        states[addr].dom().contains(k) && k.len() > 0 ==> exists|i: int|
            0 <= i < ts.len() && (#[trigger] ts[i]).0 == k[0]
}

/// `fst::Map::from_iter`, then `Map::into_fst`. The builder accepts keys in
/// strictly increasing lexicographic order and refuses anything else; it
/// writes to memory, so nothing else can fail. What it compiles stores the
/// pairs it was given.
#[verifier::external_body]
pub(crate) fn fst_build(pairs: Vec<(Vec<u8>, Id)>) -> (r: Result<Fst<Vec<u8>>, fst::Error>)
    ensures
        r is Ok <==> increasing(pairs_view(pairs@)),
        r matches Ok(f) ==> fst_compiled(f) && holds_exactly(fst_pairs(f), pairs_view(pairs@)),
{
    fst::Map::from_iter(pairs).map(|m| m.into_fst())
}

/// `Fst::clone`: the copy is the same transducer.
#[verifier::external_body]
pub(crate) fn fst_clone(f: &Fst<Vec<u8>>) -> (r: Fst<Vec<u8>>)
    ensures
        fst_compiled(r) == fst_compiled(*f),
        fst_pairs(r) == fst_pairs(*f),
{
    f.clone()
}

/// `Fst::stream`, then `Stream::into_byte_vec`: every stored key with its
/// value, in lexicographic order of the keys.
#[verifier::external_body]
pub(crate) fn fst_stream(f: &Fst<Vec<u8>>) -> (r: Vec<(Vec<u8>, Id)>)
    requires
        fst_compiled(*f),
    ensures
        increasing(pairs_view(r@)),
        holds_exactly(fst_pairs(*f), pairs_view(r@)),
{
    f.stream().into_byte_vec()
}

/// `Fst::root`, then `Node::addr`: the address of the start state. From it
/// every stored key can be read in full, with its whole value as output.
#[verifier::external_body]
pub(crate) fn fst_root(f: &Fst<Vec<u8>>) -> (addr: usize)
    requires
        fst_compiled(*f),
    ensures
        fst_states(*f).dom().contains(addr),
        fst_states(*f)[addr] == fst_pairs(*f),
{
    f.root().addr()
}

/// `Fst::node`, then `Node::is_final`: whether a key ends in this state.
#[verifier::external_body]
pub(crate) fn fst_is_final(f: &Fst<Vec<u8>>, addr: usize) -> (r: bool)
    requires
        fst_compiled(*f),
        fst_states(*f).dom().contains(addr),
    ensures
        r == fst_states(*f)[addr].dom().contains(Seq::<u8>::empty()),
{
    f.node(addr).is_final()
}

/// `Fst::node`, then `Node::final_output`: where a key ends in this state,
/// the output that ending adds.
#[verifier::external_body]
pub(crate) fn fst_final_output(f: &Fst<Vec<u8>>, addr: usize) -> (r: u64)
    requires
        fst_compiled(*f),
        fst_states(*f).dom().contains(addr),
    ensures
        fst_states(*f)[addr].dom().contains(Seq::<u8>::empty()) ==> r == fst_states(*f)[addr][Seq::<
            u8,
        >::empty()],
{
    f.node(addr).final_output().value()
}

/// `Fst::node`, then `Node::transitions`: the transitions of a state.
#[verifier::external_body]
pub(crate) fn fst_transitions(f: &Fst<Vec<u8>>, addr: usize) -> (r: Vec<Step>)
    requires
        fst_compiled(*f),
        fst_states(*f).dom().contains(addr),
    ensures
        transitions_of(fst_states(*f), addr, r@),
{
    f.node(addr).transitions().map(|t| (t.inp, t.out.value(), t.addr)).collect()
}

} // verus!
