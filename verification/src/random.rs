//! Random choice, drawn from the `rand` crate. Nothing here is proved: the
//! contracts state what the crate's source shows of the calls.

use rand::seq::IteratorRandom;
use rand::RngCore;
use rand::SeedableRng;
use vstd::prelude::*;

verus! {

/// What `rand::seq::IteratorRandom::choose_multiple` collects from the indices
/// `0..n` when it is asked for one of them and draws from a
/// `rand::rngs::StdRng` that was seeded with `seed`.
pub uninterp spec fn seeded_choice(seed: u64, n: usize) -> Seq<usize>;

/// Calls `rand::thread_rng` and `rand::RngCore::next_u64`: a number from the
/// generator of the current thread. Nothing is claimed of it. The generator
/// is seeded by the operating system when a thread first uses it, and the
/// call panics if the system has no entropy to give.
#[verifier::external_body]
pub(crate) fn fresh_seed() -> (seed: u64) {
    rand::thread_rng().next_u64()
}

/// Calls `rand::SeedableRng::seed_from_u64` for a `rand::rngs::StdRng` and then
/// `rand::seq::IteratorRandom::choose_multiple` on the indices `0..n`, asking
/// for one. The call collects as many items as were asked for unless the
/// iterator has fewer, and every item that it collects is an item of the
/// iterator: so the result holds one index below `n`, or nothing when `n` is
/// zero. The generator is a function of its seed, so the result is one of
/// `seed` and `n`.
#[verifier::external_body]
pub(crate) fn choose_index(seed: u64, n: usize) -> (picks: Vec<usize>)
    ensures
        picks@ == seeded_choice(seed, n),
        picks@.len() == (if n == 0 { 0nat } else { 1nat }),
        forall|i: int| 0 <= i < picks@.len() ==> picks@[i] < n,
{
    let mut rng = rand::rngs::StdRng::seed_from_u64(seed);
    (0..n).choose_multiple(&mut rng, 1)
}

} // verus!
