//! The random choices of the evolutionary solver, drawn through `rand`.
use rand::rngs::ThreadRng;
use rand::seq::IteratorRandom;
use rand::Rng;
use vstd::prelude::*;

verus! {

/// `rand::rngs::ThreadRng`, opaque: only handed to the draws below.
#[verifier::external_type_specification]
#[verifier::external_body]
pub struct ExThreadRng(ThreadRng);

/// Relies on `rand::rng`: a handle to the thread-local generator.
#[verifier::external_body]
pub(crate) fn new_rng() -> (r: ThreadRng) {
    rand::rng()
}

/// Relies on `Rng::random_range`: a value of `0..n`; it panics on an empty
/// range, which `n > 0` rules out.
#[verifier::external_body]
pub(crate) fn random_below(rng: &mut ThreadRng, n: usize) -> (r: usize)
    requires
        n > 0,
    ensures
        r < n,
{
    rng.random_range(0..n)
}

/// Relies on `Rng::random::<bool>`: a fair coin.
#[verifier::external_body]
pub(crate) fn coin(rng: &mut ThreadRng) -> (r: bool) {
    rng.random::<bool>()
}

/// Relies on `IteratorRandom::choose_multiple` over `0..n`: `min(n, k)`
/// distinct values below `n`, in no promised order.
#[verifier::external_body]
pub(crate) fn sample_distinct(rng: &mut ThreadRng, n: usize, k: usize) -> (r: Vec<usize>)
    ensures
        r@.len() == if n < k { n } else { k },
        r@.no_duplicates(),
        forall|i: int| 0 <= i < r@.len() ==> r@[i] < n,
{
    (0..n).choose_multiple(rng, k)
}

} // verus!
