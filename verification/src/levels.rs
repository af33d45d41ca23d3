//! The level generator: a random source and the bit trick that turns one
//! random word into a tower height with a truncated geometric
//! distribution.
//!
//! A draw masks the word to its low `num_levels - 1` bits and counts the
//! trailing one-bits of the result, so `P(level >= k)` is `2^-k` for every
//! `k` below the cap, and the cap absorbs the remaining mass.

use vstd::prelude::*;
use vstd::std_specs::bits::axiom_u64_trailing_ones;
use vstd::std_specs::bits::u64_trailing_ones;

verus! {

/// A list's tower heights must fit a 64-bit random word: at least one
/// level, and no more levels than the word has bits.
pub open spec fn valid_num_levels(num_levels: int) -> bool {
    1 <= num_levels <= 64
}

#[verifier::external_type_specification]
#[verifier::external_body]
pub struct ExRng(fastrand::Rng);

/// Relies on `fastrand::Rng::new`: a generator seeded from entropy.
/// Nothing is assumed of the values it will produce.
#[verifier::external_body]
pub(crate) fn fresh_rng() -> fastrand::Rng {
    fastrand::Rng::new()
}

/// Relies on `fastrand::Rng::with_seed`: a generator in the state the
/// seed determines.  Nothing is assumed of the values it will produce.
#[verifier::external_body]
pub(crate) fn seeded_rng(seed: u64) -> fastrand::Rng {
    fastrand::Rng::with_seed(seed)
}

/// Relies on `fastrand::Rng::u64` over the full range: some 64-bit word
/// comes back, and nothing is assumed about which.
#[verifier::external_body]
pub(crate) fn next_word(rng: &mut fastrand::Rng) -> u64 {
    rng.u64(..)
}

/// The mask that keeps the low `num_levels - 1` bits of a word.
pub open spec fn level_mask(num_levels: int) -> u64 {
    (((1u64 << (num_levels - 1) as u64) as int) - 1) as u64
}

/// The tower height that a random word yields: the count of trailing
/// one-bits after masking the word to its low `num_levels - 1` bits.
pub open spec fn spec_level_from_bits(bits: u64, num_levels: int) -> int {
    u64_trailing_ones(bits & level_mask(num_levels)) as int
}

/// Turns one random word into a tower height in `[0, num_levels - 1]`:
/// mask to the low `num_levels - 1` bits, count trailing one-bits.  All
/// mask bits set (probability `2^-(num_levels-1)`) saturates at the top
/// level.
pub fn level_from_bits(bits: u64, num_levels: usize) -> (r: usize)
    requires
        valid_num_levels(num_levels as int),
    ensures
        r == spec_level_from_bits(bits, num_levels as int),
        r < num_levels,
{
    let max_level: u64 = (num_levels as u64) - 1;
    proof {
        assert(1u64 << max_level >= 1u64) by (bit_vector)
            requires
                max_level < 64u64,
        ;
    }
    let mask: u64 = (1u64 << max_level) - 1;
    let masked: u64 = bits & mask;
    let r = masked.trailing_ones() as usize;
    proof {
        axiom_u64_trailing_ones(masked);
        let t = u64_trailing_ones(masked) as u64;
        if t > max_level {
            assert((masked >> max_level) & 1u64 == 1u64);
            assert(((bits & (((1u64 << max_level) as int - 1) as u64)) >> max_level) & 1u64
                == 0u64) by (bit_vector)
                requires
                    max_level < 64u64,
            ;
            assert(false);
        }
    }
    r
}

} // verus!
