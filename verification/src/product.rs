//! Pairs of indices, handed out one by one by the cartesian product of
//! `itertools`.

use crate::model::all_pairs;
use itertools::structs::Product;
use std::ops::Range;
use vstd::prelude::*;

verus! {

/// The cartesian product of two iterators, of `itertools`. What it has yet
/// to hand out is known through `product_rest` only.
#[verifier::external_type_specification]
#[verifier::external_body]
#[verifier::reject_recursive_types(I)]
#[verifier::reject_recursive_types(J)]
pub struct ExProduct<I: Iterator, J>(Product<I, J>);

/// The pairs that a product of two index ranges has yet to hand out, in the
/// order in which it will.
pub uninterp spec fn product_rest(p: Product<Range<usize>, Range<usize>>) -> Seq<(usize, usize)>;

/// `Itertools::cartesian_product` of the ranges `0..n` and `0..m`: every
/// pair of an index below `n` and an index below `m`, the second index
/// running faster.
#[verifier::external_body]
pub(crate) fn index_pairs(n: usize, m: usize) -> (p: Product<Range<usize>, Range<usize>>)
    ensures
        product_rest(p) == all_pairs(n as nat, m as nat),
{
    itertools::Itertools::cartesian_product(0..n, 0..m)
}

/// `Product::next`: hands out the first of the remaining pairs, or `None`
/// when none remains.
#[verifier::external_body]
pub(crate) fn next_pair(p: &mut Product<Range<usize>, Range<usize>>) -> (r: Option<(usize, usize)>)
    ensures
        product_rest(*old(p)).len() == 0 ==> r is None && product_rest(*final(p)) == product_rest(
            *old(p),
        ),
        product_rest(*old(p)).len() > 0 ==> r == Some(product_rest(*old(p))[0]) && product_rest(
            *final(p),
        ) == product_rest(*old(p)).skip(1),
{
    p.next()
}

} // verus!
