use vstd::prelude::*;
use rand::rngs::StdRng;
use rand::seq::{IteratorRandom, SliceRandom};
use rand::Rng;
use crate::hex::HexCoord;

verus! {

/// `rand::rngs::StdRng`, the seedable generator that all random choices of the
/// library draw from; only handed on to the wrappers below.
#[verifier::external_type_specification]
#[verifier::external_body]
pub struct ExStdRng(rand::rngs::StdRng);

/// Relies on `rand::Rng::gen_range`: a value of the half-open range `lo..hi`
/// (it panics on an empty range, which `requires` rules out).
#[verifier::external_body]
pub(crate) fn draw_in_range(rng: &mut StdRng, lo: usize, hi: usize) -> (r: usize)
    requires
        lo < hi,
    ensures
        lo <= r < hi,
{
    rng.gen_range(lo..hi)
}

/// Relies on `rand::seq::SliceRandom::shuffle`: it swaps items in place
/// (Fisher-Yates), so the same items come back in a random order.
#[verifier::external_body]
pub(crate) fn shuffle_order(rng: &mut StdRng, order: &mut Vec<usize>)
    ensures
        final(order)@.to_multiset() == old(order)@.to_multiset(),
{
    order.shuffle(rng)
}

/// Relies on `rand::seq::IteratorRandom::choose` over a slice iterator: `None`
/// for an empty slice, otherwise one of its items.
#[verifier::external_body]
pub(crate) fn choose_cell(rng: &mut StdRng, cells: &Vec<HexCoord>) -> (r: Option<HexCoord>)
    ensures
        r.is_some() == (cells@.len() > 0),
        r matches Some(h) ==> cells@.contains(h),
{
    cells.iter().choose(rng).copied()
}

} // verus!
