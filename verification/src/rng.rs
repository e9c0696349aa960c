//! The pseudo-random generator the mutators draw from.
//!
//! The generator itself comes from the `rand` crate; the library only ever
//! relies on bounds that hold of every draw, never on which value was drawn.

use vstd::prelude::*;
use rand::Rng;
use rand::SeedableRng;
use rand::seq::SliceRandom;

verus! {

#[verifier::external_type_specification]
#[verifier::external_body]
pub struct ExStdRng(rand::rngs::StdRng);

/// A seeded pseudo-random generator.
pub struct Prng {
    inner: rand::rngs::StdRng,
}

impl Prng {
    /// Relies on rand::rngs::StdRng::seed_from_u64 to build a generator;
    /// nothing is assumed about the values it will produce.
    #[verifier::external_body]
    pub fn from_seed(seed: u64) -> Prng {
        Prng { inner: rand::rngs::StdRng::seed_from_u64(seed) }
    }

    /// Relies on rand::Rng::gen_range, which returns a value of the given
    /// range and panics only when the range is empty.
    #[verifier::external_body]
    pub(crate) fn gen_range_usize(&mut self, lo: usize, hi: usize) -> (r: usize)
        requires
            lo < hi,
        ensures
            lo <= r < hi,
    {
        self.inner.gen_range(lo..hi)
    }

    /// Relies on rand::seq::index::sample, which samples exactly `amount`
    /// distinct indices from `0..length` and panics only when
    /// `amount > length`.
    #[verifier::external_body]
    pub(crate) fn sample_two(&mut self, n: usize) -> (r: (usize, usize))
        requires
            n >= 2,
        ensures
            r.0 < n,
            r.1 < n,
            r.0 != r.1,
    {
        let picked = rand::seq::index::sample(&mut self.inner, n, 2);
        (picked.index(0), picked.index(1))
    }

    /// Relies on rand::seq::SliceRandom::shuffle, which permutes the slice
    /// in place.
    #[verifier::external_body]
    pub(crate) fn shuffle(&mut self, v: &mut Vec<usize>)
        ensures
            final(v)@.len() == old(v)@.len(),
            final(v)@.to_multiset() == old(v)@.to_multiset(),
    {
        v.shuffle(&mut self.inner)
    }
}

} // verus!
