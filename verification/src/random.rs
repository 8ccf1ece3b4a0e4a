//! The calls into the `rand` crate. Their contracts are taken on trust:
//! each states what the crate's source shows of every outcome.
//!
//! The generator of the thread is seeded from the system, at first use
//! and again after every 64 kB drawn. Where the system gives it no seed,
//! the call that asked for one panics. That depends on the machine, not
//! on an argument, so no precondition leaves it out.

use rand::rngs::ThreadRng;
use rand::seq::SliceRandom;
use rand::Rng;
use vstd::prelude::*;

verus! {

/// The handle to `rand`'s generator of the current thread. Nothing of
/// what it holds is visible to proofs.
#[verifier::external_type_specification]
#[verifier::external_body]
pub struct ExThreadRng(ThreadRng);

/// `rand::thread_rng`: a handle to the generator of the current thread.
/// Nothing is claimed of the handle. The call panics where the system
/// gives the generator no seed at its first use.
#[verifier::external_body]
pub(crate) fn thread_rng() -> ThreadRng {
    rand::thread_rng()
}

/// `Rng::gen_range` on `0..bound`: some index below `bound`. The call
/// panics on an empty range, which the precondition excludes. It also
/// panics where the generator is due for a new seed and the system gives
/// none.
#[verifier::external_body]
pub(crate) fn random_below(rng: &mut ThreadRng, bound: usize) -> (r: usize)
    requires
        bound > 0,
    ensures
        r < bound,
{
    rng.gen_range(0..bound)
}

/// `SliceRandom::shuffle`: reorders the items in place by a sequence of
/// swaps, so the same items remain, each as often as before. The call
/// panics where the generator is due for a new seed and the system gives
/// none.
#[verifier::external_body]
pub(crate) fn shuffle<T>(items: &mut Vec<T>, rng: &mut ThreadRng)
    ensures
        final(items)@.to_multiset() == old(items)@.to_multiset(),
{
    items.shuffle(rng)
}

} // verus!
