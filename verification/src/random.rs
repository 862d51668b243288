use vstd::prelude::*;

use rand::rngs::ThreadRng;
use rand::{Rng, SeedableRng};
use rand_chacha::ChaCha8Rng;

verus! {

#[verifier::external_type_specification]
#[verifier::external_body]
pub struct ExChaCha8Rng(ChaCha8Rng);

#[verifier::external_type_specification]
#[verifier::external_body]
pub struct ExThreadRng(ThreadRng);

/// Trusted: calls `rand::rng()`, a handle on the lazily initialised,
/// thread-local generator that the operating system seeds. Nothing is stated of
/// it: its state rests on chance.
#[verifier::external_body]
fn thread_rng() -> ThreadRng {
    rand::rng()
}

/// Trusted: calls `Rng::random::<u64>` on the thread-local generator. Nothing
/// is stated of the result: it rests on chance.
#[verifier::external_body]
fn random_u64(rng: &mut ThreadRng) -> u64 {
    rng.random()
}

/// The ChaCha8 generator that `seed` is expanded into, at the start of its
/// stream.
pub uninterp spec fn chacha8_seeded(seed: u64) -> ChaCha8Rng;

/// Trusted: calls `SeedableRng::seed_from_u64` for `ChaCha8Rng`, which expands
/// `seed` with PCG32 into a ChaCha key and returns the generator at the start of
/// its stream: the same seed gives the same generator. What the generator then
/// yields is not stated: it takes the ChaCha algorithm to say.
#[verifier::external_body]
fn chacha8_from_seed(seed: u64) -> (r: ChaCha8Rng)
    ensures
        r == chacha8_seeded(seed),
{
    ChaCha8Rng::seed_from_u64(seed)
}

/// A random number generator together with the seed it was made from, so that
/// a run can be repeated.
pub struct SeededRng {
    seed: u64,
    rng: ChaCha8Rng,
}

impl SeededRng {
    pub closed spec fn spec_seed(self) -> u64 {
        self.seed
    }

    pub closed spec fn spec_rng(self) -> ChaCha8Rng {
        self.rng
    }

    /// A generator seeded with `seed`.
    pub fn new(seed: u64) -> (r: Self)
        ensures
            r.spec_seed() == seed,
            r.spec_rng() == chacha8_seeded(seed),
    {
        SeededRng { seed, rng: chacha8_from_seed(seed) }
    }

    // -- Getters --
    pub fn seed(&self) -> (r: u64)
        ensures
            r == self.spec_seed(),
    {
        self.seed
    }

    pub fn rng(&mut self) -> (r: &mut ChaCha8Rng)
        ensures
            *r == old(self).spec_rng(),
            final(self).spec_rng() == *final(r),
            final(self).spec_seed() == old(self).spec_seed(),
    {
        &mut self.rng
    }
}

impl Default for SeededRng {
    /// A generator with a seed drawn from the thread-local generator; it can
    /// be made again from its seed.
    fn default() -> (r: Self)
        ensures
            r.spec_rng() == chacha8_seeded(r.spec_seed()),
    {
        let mut source = thread_rng();
        let seed = random_u64(&mut source);
        Self::new(seed)
    }
}

} // verus!
