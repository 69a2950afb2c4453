//! Sample-count bookkeeping of the stochastic integrator: how many indirect
//! rays a shading point casts at a given recursion depth, and the side
//! length of the antialiasing sample grid.

use vstd::prelude::*;
use vstd::arithmetic::power2::pow2;
use vstd::arithmetic::power2::lemma_pow2_strictly_increases;
use vstd::arithmetic::power2::lemma2_to64;
use vstd::arithmetic::div_mod::lemma_basic_div;
use vstd::bits::lemma_u32_shr_is_div;

verus! {

/// Number of indirect sample rays cast from a shading point reached at
/// recursion depth `depth`: the configured sample count, quartered once per
/// bounce already taken, and zero at the bounce limit.
pub open spec fn spec_indirect_samples(gi_samples: u32, depth: u32, bounces: u32) -> int {
    if depth < bounces {
        gi_samples as int / pow2((2 * (depth as int + 1)) as nat) as int
    } else {
        0
    }
}

/// How many indirect rays the integrator casts at `depth`.  The count
/// shrinks geometrically with depth, which bounds the branching factor of
/// the recursion, and is zero at the bounce limit: a call at
/// `depth == bounces` performs no recursive sampling at all.
pub fn indirect_sample_count(gi_samples: u32, depth: u32, bounces: u32) -> (n: u32)
    ensures
        n == spec_indirect_samples(gi_samples, depth, bounces),
        depth >= bounces ==> n == 0,
{
    if depth >= bounces {
        0
    } else if depth >= 15 {
        // The shift would reach 32 or more: every sample budget that fits
        // in the type has been quartered away.
        proof {
            let e = (2 * (depth as int + 1)) as nat;
            lemma2_to64();
            if e > 32 {
                lemma_pow2_strictly_increases(32, e);
            }
            assert(gi_samples < pow2(e));
            lemma_basic_div(gi_samples as int, pow2(e) as int);
        }
        0
    } else {
        let shift: u32 = 2 * (depth + 1);
        proof {
            lemma_u32_shr_is_div(gi_samples, shift);
        }
        gi_samples >> shift
    }
}

/// Side length of the square antialiasing sample grid: the integer square
/// root of the sample count, exact when the count is a perfect square.
pub fn aa_grid_side(n: u32) -> (s: u32)
    ensures
        s * s <= n,
        n < (s + 1) * (s + 1),
{
    let mut i: u32 = 0;
    let mut sq_next: u64 = 1;
    while sq_next <= n as u64
        invariant
            sq_next == (i as int + 1) * (i as int + 1),
            i * i <= n,
            i <= n,
            i <= 0x10000,
        decreases n - i,
    {
        i = i + 1;
        proof {
            assert(i as int <= i as int * i as int) by (nonlinear_arith)
                requires i as int >= 1,
            ;
            assert(i as int <= 0x10000) by (nonlinear_arith)
                requires
                    i as int * i as int <= n,
                    n <= 0xffff_ffff,
                    i as int >= 1,
            ;
            assert((i as int + 1) * (i as int + 1) == i as int * i as int + 2 * i as int + 1)
                by (nonlinear_arith);
        }
        sq_next = sq_next + 2 * (i as u64) + 1;
    }
    i
}

} // verus!
