//! The random draws that maze generation makes, through `rand`.
use rand::seq::SliceRandom;
use rand::Rng;
use rand::rngs::StdRng;
use vstd::prelude::*;

verus! {

#[verifier::external_type_specification]
#[verifier::external_body]
pub struct ExStdRng(StdRng);

/// Relies on `rand::Rng::gen_range` over `0..n`: a value in that half-open
/// range (it panics on an empty range, which `requires` leaves out).
#[verifier::external_body]
pub(crate) fn draw_below(rng: &mut StdRng, n: usize) -> (k: usize)
    requires
        n > 0,
    ensures
        k < n,
{
    rng.gen_range(0..n)
}

/// Relies on `rand::seq::SliceRandom::choose`: one element of the slice, or
/// `None` when the slice is empty.
#[verifier::external_body]
pub(crate) fn choose_cell(cells: &Vec<(usize, usize)>, rng: &mut StdRng) -> (x: Option<(usize, usize)>)
    ensures
        x.is_none() <==> cells@.len() == 0,
        x matches Some(v) ==> cells@.contains(v),
{
    cells.as_slice().choose(rng).copied()
}

} // verus!
