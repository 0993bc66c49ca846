//! The integer part of the deterministic pseudo-random generator that the
//! test harness samples query points with.

use vstd::prelude::*;

verus! {

/// Multiplier of the linear congruential generator.
pub const LCG_MULTIPLIER: u64 = 6364136223846793005;

/// Next state of the generator: `seed * LCG_MULTIPLIER + 1` modulo `2^64`.
pub open spec fn lcg_next(seed: u64) -> u64 {
    ((seed as nat * LCG_MULTIPLIER as nat + 1) % 0x1_0000_0000_0000_0000) as u64
}

/// Advances the generator state and returns its 31 high bits, the
/// numerator of a sample in `[0, 1)` with denominator `2^31`.
pub fn lcg_advance(seed: &mut u64) -> (bits: u64)
    ensures
        *final(seed) == lcg_next(*old(seed)),
        bits == *final(seed) / 0x2_0000_0000,
        bits < 0x8000_0000,
{
    let m = seed.wrapping_mul(LCG_MULTIPLIER);
    let next = m.wrapping_add(1);
    proof {
        let r: int = 0x1_0000_0000_0000_0000;
        let prod: int = *old(seed) as int * LCG_MULTIPLIER as int;
        vstd::arithmetic::div_mod::lemma_add_mod_noop(prod, 1, r);
        vstd::arithmetic::div_mod::lemma_mod_pos_bound(prod, r);
        assert(m as int == prod % r);
        assert(next as int == (prod + 1) % r);
    }
    *seed = next;
    let bits = next >> 33u64;
    assert(bits == next / 0x2_0000_0000 && bits < 0x8000_0000) by (bit_vector)
        requires
            bits == next >> 33u64,
    ;
    bits
}

} // verus!
