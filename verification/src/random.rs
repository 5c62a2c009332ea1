//! The source of randomness for the local search.

use rand::rngs::{StdRng, ThreadRng};
use rand::seq::SliceRandom;
use rand::{Rng, SeedableRng};
use vstd::prelude::*;

verus! {

/// The thread-local generator of the `rand` crate. Nothing is known of its
/// state.
#[verifier::external_type_specification]
#[verifier::external_body]
pub struct ExThreadRng(ThreadRng);

/// The standard generator of the `rand` crate, which can be started from a
/// seed. Nothing is known of its state.
#[verifier::external_type_specification]
#[verifier::external_body]
pub struct ExStdRng(StdRng);

/// `rand::thread_rng` hands out the generator of the current thread, seeded
/// by the operating system; it gives up only where the system has no
/// randomness to seed it with. Nothing is claimed of the generator.
pub assume_specification[ rand::thread_rng ]() -> (rng: ThreadRng)
;

/// `Rng::gen` for a `u64`: any number at all.
#[verifier::external_body]
pub(crate) fn draw_seed(rng: &mut ThreadRng) -> (seed: u64) {
    rng.gen()
}

/// `SeedableRng::seed_from_u64`: a generator started from `seed`. Nothing
/// is claimed of it.
#[verifier::external_body]
pub(crate) fn seeded(seed: u64) -> (rng: StdRng) {
    StdRng::seed_from_u64(seed)
}

/// `Rng::gen_range` on the range `0..n`: some number below `n`. Which one
/// is up to the generator. The range must not be empty.
#[verifier::external_body]
pub(crate) fn random_below(rng: &mut StdRng, n: u64) -> (r: u64)
    requires
        n > 0,
    ensures
        r < n,
{
    rng.gen_range(0..n)
}

/// `SliceRandom::shuffle`: reorders `items` in place by swapping entries.
/// The entries afterwards are those from before; their order is up to the
/// generator.
#[verifier::external_body]
pub(crate) fn shuffle(rng: &mut StdRng, items: &mut Vec<(u64, usize)>)
    ensures
        final(items)@.to_multiset() == old(items)@.to_multiset(),
{
    items.shuffle(rng);
}

} // verus!
