//! Seeded pseudo-random streams, backed by the 32-bit Mersenne Twister of the
//! `mersenne_twister` crate through `rand`'s `Rng` trait.
//!
//! Both generators here are deterministic: seeding with `from_seed` is a pure
//! function of the 32-bit seed, and every draw advances the generator state as
//! a pure function of that state. A whole call sequence is therefore a pure
//! function of the seed, which lets each draw be named by the seed and the
//! position of the call in the sequence. Each stream type below allows exactly
//! one call pattern, enforced by its preconditions and its private fields, so
//! those names are well-defined.

use vstd::prelude::*;

use mersenne_twister::MT19937;
use rand::{Rng, SeedableRng};

verus! {

#[verifier::external_type_specification]
#[verifier::external_body]
pub struct ExMt19937(MT19937);

/// The k-th 32-bit value output by `Rng::next_u32` on an `MT19937` seeded
/// with `seed`, when `next_u32` is the only method ever called on it.
pub uninterp spec fn mt_next(seed: u32, k: nat) -> u32;

/// The k-th value output by `rand`'s `Rng::gen_range(0, k + 2)` on an
/// `MT19937` seeded with `seed`, when the draws follow exactly that pattern:
/// the k-th call has exclusive upper bound `k + 2`.
pub uninterp spec fn mt_place_draw(seed: u32, k: nat) -> usize;

/// A stream of whole 32-bit words from a seeded Mersenne Twister; the batch
/// runner derives one game seed per draw from it.
///
/// The fields are private: `drawn` counts exactly the `next_u32` calls made
/// on `rng`, and nothing else can touch `rng`.
pub struct SeedStream {
    rng: MT19937,
    seed: u32,
    drawn: usize,
}

impl SeedStream {
    /// The seed this stream was created with.
    pub closed spec fn seed(&self) -> u32 {
        self.seed
    }

    /// How many words have been drawn so far.
    pub closed spec fn drawn(&self) -> usize {
        self.drawn
    }

    /// Relies on `MT19937: SeedableRng<u32>`: `from_seed` computes the
    /// generator state from the seed alone.
    #[verifier::external_body]
    pub fn new(seed: u32) -> (r: SeedStream)
        ensures
            r.seed() == seed,
            r.drawn() == 0,
    {
        SeedStream { rng: SeedableRng::from_seed(seed), seed, drawn: 0 }
    }

    /// Relies on `MT19937`'s `Rng::next_u32`: it returns the next word of the
    /// generator's output sequence, a pure function of the seed and of how
    /// many words were drawn before (which `drawn` counts, and which this
    /// body does not change).
    #[verifier::external_body]
    fn raw_next(&mut self) -> (r: u32)
        ensures
            final (self).seed() == old(self).seed(),
            final (self).drawn() == old(self).drawn(),
            r == mt_next(old(self).seed(), old(self).drawn() as nat),
    {
        self.rng.next_u32()
    }

    /// Draw the next 32-bit word of the stream.
    pub fn next_u32(&mut self) -> (r: u32)
        requires
            old(self).drawn() < usize::MAX,
        ensures
            final (self).seed() == old(self).seed(),
            final (self).drawn() == old(self).drawn() + 1,
            r == mt_next(old(self).seed(), old(self).drawn() as nat),
    {
        let r = self.raw_next();
        self.drawn = self.drawn + 1;
        r
    }
}

/// The mine-placement stream: its k-th draw is uniform below `k + 2`, the
/// pattern the seeded shuffle uses (the shuffle's first step draws nothing).
///
/// The fields are private: `drawn` counts exactly the `gen_range` calls made
/// on `rng`, and nothing else can touch `rng`.
pub struct PlaceStream {
    rng: MT19937,
    seed: u32,
    drawn: usize,
}

impl PlaceStream {
    /// The seed this stream was created with.
    pub closed spec fn seed(&self) -> u32 {
        self.seed
    }

    /// How many draws have been made so far.
    pub closed spec fn drawn(&self) -> usize {
        self.drawn
    }

    /// Relies on `MT19937: SeedableRng<u32>`: `from_seed` computes the
    /// generator state from the seed alone.
    #[verifier::external_body]
    pub fn new(seed: u32) -> (r: PlaceStream)
        ensures
            r.seed() == seed,
            r.drawn() == 0,
    {
        PlaceStream { rng: SeedableRng::from_seed(seed), seed, drawn: 0 }
    }

    /// Relies on `rand`'s `Rng::gen_range(low, high)`: it returns a value in
    /// `[low, high)` (it panics only when `low >= high`, which the
    /// precondition rules out), computed from the generator state and the
    /// bounds alone. The precondition pins the bound of every call to the
    /// fixed placement pattern, so the result is a pure function of the seed
    /// and the call position; `drawn` counts the calls and this body does not
    /// change it.
    #[verifier::external_body]
    fn raw_gen_below(&mut self, high: usize) -> (r: usize)
        requires
            high == old(self).drawn() + 2,
            high <= 0x7fff_ffff,
        ensures
            final (self).seed() == old(self).seed(),
            final (self).drawn() == old(self).drawn(),
            r < high,
            r == mt_place_draw(old(self).seed(), old(self).drawn() as nat),
    {
        self.rng.gen_range(0, high as i32) as usize
    }

    /// Draw the next value of the placement pattern, uniform below `high`,
    /// which must be two more than the number of draws already made.
    pub fn gen_below(&mut self, high: usize) -> (r: usize)
        requires
            high == old(self).drawn() + 2,
            high <= 0x7fff_ffff,
        ensures
            final (self).seed() == old(self).seed(),
            final (self).drawn() == old(self).drawn() + 1,
            r < high,
            r == mt_place_draw(old(self).seed(), old(self).drawn() as nat),
    {
        let r = self.raw_gen_below(high);
        self.drawn = self.drawn + 1;
        r
    }
}

} // verus!
