//! Normalization of PCM samples to 32-bit IEEE-754 float bit patterns.
//!
//! The canonical waveform stores each sample as the bit pattern of a
//! single-precision float. An 8-bit signed sample `s` normalizes to
//! `s / 256.0` and a 16-bit signed sample to `s / 32768.0`; both quotients
//! are exact in single precision (the magnitude fits in the 24-bit
//! significand and the scale is a power of two), so the resulting bit
//! pattern is a pure function of the integer sample, specified and
//! computed here without any floating-point arithmetic.

use vstd::arithmetic::mul::lemma_mul_strict_inequality;
use vstd::arithmetic::power2::{
    lemma2_to64, lemma_pow2_adds, lemma_pow2_pos, lemma_pow2_strictly_increases, pow2,
};
use vstd::prelude::*;

verus! {

/// Position of the most significant set bit of `m`; 0 when `m <= 1`.
pub open spec fn msb(m: nat) -> nat
    decreases m,
{
    if m < 2 {
        0
    } else {
        1 + msb((m / 2) as nat)
    }
}

/// `msb(m)` is the exponent of the binary order of magnitude of `m`:
/// `2^msb(m) <= m < 2^(msb(m) + 1)` for every `m >= 1`.
pub proof fn lemma_msb_bounds(m: nat)
    requires
        1 <= m,
    ensures
        pow2(msb(m)) <= m < pow2(msb(m) + 1),
    decreases m,
{
    if m < 2 {
        lemma2_to64();
    } else {
        lemma_msb_bounds((m / 2) as nat);
        lemma_pow2_adds(msb((m / 2) as nat), 1);
        lemma_pow2_adds(msb((m / 2) as nat) + 1, 1);
        lemma2_to64();
    }
}

/// Bit pattern of the single-precision value `(-1)^neg * m * 2^-shift`,
/// meaningful when the value is normal: `1 <= m < 2^24` and
/// `shift <= 126 + msb(m)`.
pub open spec fn float_bits(neg: bool, m: nat, shift: nat) -> int {
    let e = msb(m);
    (if neg {
        0x8000_0000int
    } else {
        0int
    }) + (127 + e - shift) * 0x80_0000 + (m - pow2(e)) * pow2((23 - e) as nat)
}

/// Bit pattern of `s / 32768.0`, the normalized form of a 16-bit sample.
pub open spec fn i16_sample_bits(s: int) -> u32 {
    if s == 0 {
        0u32
    } else if s > 0 {
        float_bits(false, s as nat, 15) as u32
    } else {
        float_bits(true, (-s) as nat, 15) as u32
    }
}

/// Bit pattern of `s / 256.0`, the normalized form of an 8-bit sample.
pub open spec fn i8_sample_bits(s: int) -> u32 {
    if s == 0 {
        0u32
    } else if s > 0 {
        float_bits(false, s as nat, 8) as u32
    } else {
        float_bits(true, (-s) as nat, 8) as u32
    }
}

/// Computes `2^k` for small exponents.
pub(crate) fn pow2_u32(k: u32) -> (r: u32)
    requires
        k < 32,
    ensures
        r == pow2(k as nat),
{
    let mut r: u32 = 1;
    let mut i: u32 = 0;
    proof {
        lemma2_to64();
    }
    while i < k
        invariant
            i <= k < 32,
            r == pow2(i as nat),
        decreases k - i,
    {
        proof {
            lemma_pow2_adds(i as nat, 1);
            lemma_pow2_strictly_increases(i as nat + 1, 32);
            lemma2_to64();
            lemma_pow2_32();
        }
        r = r * 2;
        i = i + 1;
    }
    r
}

proof fn lemma_pow2_32()
    ensures
        pow2(32) == 0x1_0000_0000,
{
    lemma2_to64();
}

/// The most significant bit of a 32-bit value has index at most 31.
pub proof fn lemma_msb_small(m: nat)
    requires
        1 <= m < 0x1_0000_0000,
    ensures
        msb(m) <= 31,
{
    lemma_msb_bounds(m);
    lemma_pow2_32();
    if msb(m) > 31 {
        if msb(m) > 32 {
            lemma_pow2_strictly_increases(32, msb(m));
        }
    }
}

/// Index of the most significant set bit of `m`.
pub(crate) fn msb_index(m: u32) -> (e: u32)
    requires
        1 <= m,
    ensures
        e == msb(m as nat),
{
    let mut x: u32 = m;
    let mut e: u32 = 0;
    proof {
        lemma_msb_small(m as nat);
    }
    while x >= 2
        invariant
            1 <= x,
            msb(m as nat) <= 31,
            msb(m as nat) == e + msb(x as nat),
        decreases x,
    {
        assert(msb(x as nat) == 1 + msb((x as nat / 2) as nat));
        x = x / 2;
        e = e + 1;
    }
    e
}

/// Core of the normalization: assembles the bit pattern of
/// `(-1)^neg * m * 2^-shift` for a magnitude known to produce a normal
/// float, `1 <= m <= 2^(bound)` with `bound <= 15 <= shift + 7`.
fn assemble_bits(neg: bool, m: u32, shift: u32, bound: u32) -> (r: u32)
    requires
        1 <= m <= pow2(bound as nat),
        bound <= 15,
        8 <= shift <= 15,
        bound <= shift,
    ensures
        r == float_bits(neg, m as nat, shift as nat),
{
    proof {
        lemma_msb_bounds(m as nat);
        lemma2_to64();
        if msb(m as nat) > bound as nat {
            lemma_pow2_strictly_increases(bound as nat, msb(m as nat));
        }
    }
    let e: u32 = msb_index(m);
    let p: u32 = pow2_u32(e);
    let q: u32 = pow2_u32(23 - e);
    proof {
        lemma_pow2_adds(e as nat, (23 - e) as nat);
        lemma_pow2_pos((23 - e) as nat);
        lemma_mul_strict_inequality(m as int - p as int, p as int, q as int);
        lemma_pow2_strictly_increases(e as nat, 24);
        lemma2_to64();
    }
    let mant: u32 = (m - p) * q;
    let exp: u32 = (127 + e - shift) * 0x80_0000;
    let sign: u32 = if neg {
        0x8000_0000
    } else {
        0
    };
    sign + exp + mant
}

/// Normalizes a 16-bit signed sample: the result is the bit pattern of
/// the exact single-precision quotient `s / 32768.0`.
pub fn normalize_i16(s: i16) -> (r: u32)
    ensures
        r == i16_sample_bits(s as int),
{
    if s == 0 {
        return 0;
    }
    let neg: bool = s < 0;
    let wide: i32 = s as i32;
    let m: u32 = if wide < 0 {
        (-wide) as u32
    } else {
        wide as u32
    };
    proof {
        lemma2_to64();
    }
    assemble_bits(neg, m, 15, 15)
}

/// Normalizes an 8-bit signed sample: the result is the bit pattern of
/// the exact single-precision quotient `s / 256.0`.
pub fn normalize_i8(s: i8) -> (r: u32)
    ensures
        r == i8_sample_bits(s as int),
{
    if s == 0 {
        return 0;
    }
    let neg: bool = s < 0;
    let wide: i32 = s as i32;
    let m: u32 = if wide < 0 {
        (-wide) as u32
    } else {
        wide as u32
    };
    proof {
        lemma2_to64();
    }
    assemble_bits(neg, m, 8, 8)
}

} // verus!
