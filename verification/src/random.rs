//! The seeded random source threaded explicitly through every filter.
//!
//! The stream is reproducible: it is a function of the seed alone. The ghost
//! `log` records every value drawn, so a filter's contract can state its
//! output as a function of the input map and the consumed draws; two runs
//! that consume the same draws are thereby proved to build the same map.

use vstd::prelude::*;
use rand::Rng;
use rand::SeedableRng;

verus! {

#[verifier::external_type_specification]
#[verifier::external_body]
pub struct ExStdRng(rand::rngs::StdRng);

/// Relies on rand's `SeedableRng::seed_from_u64` for `StdRng`: builds a
/// generator whose stream depends on the seed alone.
#[verifier::external_body]
fn seed_std_rng(seed: u64) -> rand::rngs::StdRng {
    rand::rngs::StdRng::seed_from_u64(seed)
}

/// Relies on rand's `Rng::gen_range` on an inclusive range: returns a
/// uniform value inside it. An empty range would panic, so the bounds must
/// be ordered.
#[verifier::external_body]
fn gen_range_inclusive(rng: &mut rand::rngs::StdRng, lo: usize, hi: usize) -> (r: usize)
    requires
        lo <= hi,
    ensures
        lo <= r <= hi,
{
    rng.gen_range(lo..=hi)
}

/// A reproducible pseudorandom stream with a ghost ledger of its draws.
pub struct RngSource {
    rng: rand::rngs::StdRng,
    log: Ghost<Seq<usize>>,
}

impl RngSource {
    /// Every value drawn from this source so far, oldest first.
    pub closed spec fn draws(self) -> Seq<usize> {
        self.log@
    }

    /// A source seeded for a reproducible build; its ledger starts empty.
    pub fn from_seed(seed: u64) -> (r: RngSource)
        ensures
            r.draws() == Seq::<usize>::empty(),
    {
        RngSource { rng: seed_std_rng(seed), log: Ghost(Seq::empty()) }
    }

    /// A uniform value in `[lo, hi]`, appended to the ledger.
    pub fn rand_range(&mut self, lo: usize, hi: usize) -> (r: usize)
        requires
            lo <= hi,
        ensures
            lo <= r <= hi,
            final(self).draws() == old(self).draws().push(r),
    {
        let r = gen_range_inclusive(&mut self.rng, lo, hi);
        self.log = Ghost(self.log@.push(r));
        r
    }
}

} // verus!
