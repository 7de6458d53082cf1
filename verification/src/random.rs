//! The random choices that a minefield needs, drawn from the thread's
//! generator of the `rand` crate.

use vstd::prelude::*;
use rand::seq::IteratorRandom;

verus! {

/// Draws `amount` distinct indices below `length`, in random order, with
/// `rand::seq::index::sample` on `rand::thread_rng()`.
///
/// Taken on trust: the result has `amount` entries, each below `length`, and
/// no entry occurs twice. `sample` panics when asked for more indices than
/// there are, and, where `length` exceeds what 32 bits hold, its rejection
/// sampler asserts that fewer indices are asked for than there are; the
/// precondition rules out both.
#[verifier::external_body]
pub(crate) fn sample_indices(length: usize, amount: usize) -> (picks: Vec<usize>)
    requires
        amount <= length,
        length <= u32::MAX || amount < length,
    ensures
        picks@.len() == amount,
        forall|k: int| 0 <= k < picks@.len() ==> picks@[k] < length,
        picks@.no_duplicates(),
{
    rand::seq::index::sample(&mut rand::thread_rng(), length, amount).into_vec()
}

/// Picks one of `cells` at random, with `rand::seq::IteratorRandom::choose`
/// on `rand::thread_rng()`.
///
/// Taken on trust: the result is `None` exactly when `cells` is empty, and
/// else one of its entries.
#[verifier::external_body]
pub(crate) fn choose_cell(cells: &Vec<(usize, usize)>) -> (pick: Option<(usize, usize)>)
    ensures
        pick is None <==> cells@.len() == 0,
        pick matches Some(cell) ==> cells@.contains(cell),
{
    cells.iter().choose(&mut rand::thread_rng()).copied()
}

} // verus!
