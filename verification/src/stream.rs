//! Random words that can be had again.

use rand::{RngCore, SeedableRng};
use rand_pcg::Pcg64Mcg;
use vstd::prelude::*;

verus! {

/// The word that `Pcg64Mcg`, seeded from `seed`, hands out after `position`
/// earlier words.
pub uninterp spec fn pcg_word(seed: u64, position: u128) -> u64;

/// Seeds `rand_pcg::Pcg64Mcg` with `seed_from_u64`, passes over `position`
/// words with `advance` and takes the next one with `next_u64`. All that is
/// claimed is that the word depends on `seed` and `position` alone.
#[verifier::external_body]
fn word_at(seed: u64, position: u128) -> (word: u64)
    ensures
        word == pcg_word(seed, position),
{
    let mut rng = Pcg64Mcg::seed_from_u64(seed);
    rng.advance(position);
    rng.next_u64()
}

/// A reproducible source of words: a seed, and how many words it has handed
/// out.
#[derive(Debug)]
pub struct Stream {
    pub seed: u64,
    pub position: u128,
}

impl Stream {
    pub fn new(seed: u64) -> (s: Self)
        ensures
            s.seed == seed,
            s.position == 0,
    {
        Stream { seed, position: 0 }
    }

    /// The next word of the stream.
    pub fn next_word(&mut self) -> (word: u64)
        requires
            old(self).position < u128::MAX,
        ensures
            word == pcg_word(old(self).seed, old(self).position),
            final(self).seed == old(self).seed,
            final(self).position == old(self).position + 1,
    {
        let word = word_at(self.seed, self.position);
        self.position = self.position + 1;
        word
    }
}

} // verus!
