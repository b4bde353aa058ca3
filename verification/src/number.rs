//! Numeric comparison. All numbers compare as IEEE 754 doubles: integers
//! are promoted (round to nearest, ties to even) and doubles are kept as
//! their bit patterns. NaN compares equal to everything, so well-formed
//! values exclude it.

use vstd::prelude::*;
use core::cmp::Ordering;
use crate::value::Number;

verus! {

/// Sign bit of a double's bit pattern.
pub open spec fn f64_sign(bits: u64) -> u64 {
    bits >> 63u64
}

/// Magnitude (everything but the sign bit) of a double's bit pattern.
pub open spec fn f64_mag(bits: u64) -> u64 {
    bits & 0x7FFF_FFFF_FFFF_FFFFu64
}

/// Biased exponent of a double's bit pattern.
pub open spec fn f64_exp(bits: u64) -> u64 {
    (bits >> 52u64) & 0x7FFu64
}

/// Fraction of a double's bit pattern.
pub open spec fn f64_frac(bits: u64) -> u64 {
    bits & 0x000F_FFFF_FFFF_FFFFu64
}

/// True iff the bit pattern denotes a NaN.
pub open spec fn f64_is_nan(bits: u64) -> bool {
    f64_exp(bits) == 0x7FFu64 && f64_frac(bits) != 0u64
}

/// True iff the bit pattern denotes a zero (of either sign).
pub open spec fn f64_is_zero(bits: u64) -> bool {
    f64_mag(bits) == 0u64
}

/// Comparison of two doubles by bit pattern: NaN compares equal to
/// everything, the two zeros are equal, otherwise the sign decides and,
/// within one sign, the magnitude.
pub open spec fn spec_cmp_f64_bits(a: u64, b: u64) -> Ordering {
    if f64_is_nan(a) || f64_is_nan(b) {
        Ordering::Equal
    } else if f64_is_zero(a) && f64_is_zero(b) {
        Ordering::Equal
    } else if a == b {
        Ordering::Equal
    } else if f64_sign(a) != f64_sign(b) {
        if f64_sign(a) == 1u64 {
            Ordering::Less
        } else {
            Ordering::Greater
        }
    } else if f64_sign(a) == 0u64 {
        if a < b {
            Ordering::Less
        } else {
            Ordering::Greater
        }
    } else {
        if a < b {
            Ordering::Greater
        } else {
            Ordering::Less
        }
    }
}

/// Compares two doubles given as bit patterns.
pub fn cmp_f64_bits(a: u64, b: u64) -> (r: Ordering)
    ensures
        r == spec_cmp_f64_bits(a, b),
{
    let a_exp = (a >> 52u64) & 0x7FFu64;
    let a_frac = a & 0x000F_FFFF_FFFF_FFFFu64;
    let b_exp = (b >> 52u64) & 0x7FFu64;
    let b_frac = b & 0x000F_FFFF_FFFF_FFFFu64;
    if (a_exp == 0x7FF && a_frac != 0) || (b_exp == 0x7FF && b_frac != 0) {
        Ordering::Equal
    } else if (a & 0x7FFF_FFFF_FFFF_FFFF) == 0 && (b & 0x7FFF_FFFF_FFFF_FFFF) == 0 {
        Ordering::Equal
    } else if a == b {
        Ordering::Equal
    } else if (a >> 63u64) != (b >> 63u64) {
        if (a >> 63u64) == 1 {
            Ordering::Less
        } else {
            Ordering::Greater
        }
    } else if (a >> 63u64) == 0 {
        if a < b {
            Ordering::Less
        } else {
            Ordering::Greater
        }
    } else {
        if a < b {
            Ordering::Greater
        } else {
            Ordering::Less
        }
    }
}

/// The real-valued sort key of a non-NaN double, up to order: the
/// magnitude, negated for negative values. Both zeros map to 0.
pub open spec fn f64_key(bits: u64) -> int {
    if f64_sign(bits) == 1u64 {
        -(f64_mag(bits) as int)
    } else {
        f64_mag(bits) as int
    }
}

/// For non-NaN bit patterns, the bit-pattern comparison agrees with the
/// integer sort key.
pub proof fn lemma_cmp_f64_bits_key(a: u64, b: u64)
    requires
        !f64_is_nan(a),
        !f64_is_nan(b),
    ensures
        spec_cmp_f64_bits(a, b) == Ordering::Equal <==> f64_key(a) == f64_key(b),
        spec_cmp_f64_bits(a, b) == Ordering::Less <==> f64_key(a) < f64_key(b),
        spec_cmp_f64_bits(a, b) == Ordering::Greater <==> f64_key(a) > f64_key(b),
{
    assert((a >> 63u64) == 0u64 || (a >> 63u64) == 1u64) by (bit_vector);
    assert((b >> 63u64) == 0u64 || (b >> 63u64) == 1u64) by (bit_vector);
    assert((a >> 63u64) == 0u64 ==> (a & 0x7FFF_FFFF_FFFF_FFFFu64) == a) by (bit_vector);
    assert((b >> 63u64) == 0u64 ==> (b & 0x7FFF_FFFF_FFFF_FFFFu64) == b) by (bit_vector);
    assert((a >> 63u64) == 1u64 ==> a >= 0x8000_0000_0000_0000u64 && (a
        & 0x7FFF_FFFF_FFFF_FFFFu64) == a - 0x8000_0000_0000_0000u64) by (bit_vector);
    assert((b >> 63u64) == 1u64 ==> b >= 0x8000_0000_0000_0000u64 && (b
        & 0x7FFF_FFFF_FFFF_FFFFu64) == b - 0x8000_0000_0000_0000u64) by (bit_vector);
}

/// The promotion of a signed 64-bit integer to the nearest double
/// (round to nearest, ties to even), as a bit pattern.
pub open spec fn spec_i64_to_f64_bits(n: i64) -> u64 {
    if n == 0 {
        0u64
    } else {
        let sign: u64 = if n < 0 { 1u64 } else { 0u64 };
        let mag: u64 = if n < 0 { (-(n as int)) as u64 } else { n as u64 };
        let p: u64 = (spec_bit_len(mag) - 1) as u64;
        if p <= 52 {
            (sign << 63u64) | (((1023u64 + p) as u64) << 52u64) | ((mag << ((52u64 - p) as u64))
                & 0x000F_FFFF_FFFF_FFFFu64)
        } else {
            let shift: u64 = (p - 52) as u64;
            let keep: u64 = mag >> shift;
            let rem: u64 = mag & (((1u64 << shift) - 1) as u64);
            let half: u64 = 1u64 << ((shift - 1) as u64);
            let keep2: u64 = if rem > half || (rem == half && (keep & 1u64) == 1u64) {
                (keep + 1) as u64
            } else {
                keep
            };
            if keep2 == (1u64 << 53u64) {
                (sign << 63u64) | (((1024u64 + p) as u64) << 52u64)
            } else {
                (sign << 63u64) | (((1023u64 + p) as u64) << 52u64) | (keep2
                    & 0x000F_FFFF_FFFF_FFFFu64)
            }
        }
    }
}

/// The number of bits needed to write `m` in binary.
pub open spec fn spec_bit_len(m: u64) -> nat
    decreases m,
{
    if m == 0 {
        0
    } else {
        proof {
            assert(m != 0 ==> (m >> 1u64) < m) by (bit_vector);
        }
        1 + spec_bit_len(m >> 1u64)
    }
}

proof fn lemma_bit_len_bound(m: u64, k: nat)
    requires
        m < vstd::arithmetic::power2::pow2(k),
    ensures
        spec_bit_len(m) <= k,
    decreases k,
{
    if m != 0 {
        if k == 0 {
            vstd::arithmetic::power2::lemma2_to64();
        } else {
            vstd::arithmetic::power2::lemma_pow2_unfold(k);
            assert(m >> 1u64 == m / 2) by (bit_vector);
            lemma_bit_len_bound(m >> 1u64, (k - 1) as nat);
        }
    }
}

proof fn lemma_bit_len_le_64(m: u64)
    ensures
        spec_bit_len(m) <= 64,
{
    vstd::arithmetic::power2::lemma2_to64_rest();
    lemma_bit_len_bound(m, 64);
}

/// Computes the bit length of `m`.
#[verifier::loop_isolation(false)]
pub fn bit_len(m: u64) -> (r: u64)
    ensures
        r == spec_bit_len(m),
        r <= 64,
{
    let mut x = m;
    let mut len: u64 = 0;
    proof {
        lemma_bit_len_le_64(m);
    }
    while x != 0
        invariant
            spec_bit_len(m) == len + spec_bit_len(x),
        decreases x,
    {
        proof {
            assert(x != 0 ==> (x >> 1u64) < x) by (bit_vector);
        }
        x = x >> 1u64;
        len = len + 1;
    }
    len
}

/// Promotes a signed 64-bit integer to the nearest double's bit pattern.
pub fn i64_to_f64_bits(n: i64) -> (r: u64)
    ensures
        r == spec_i64_to_f64_bits(n),
{
    if n == 0 {
        return 0u64;
    }
    let sign: u64 = if n < 0 { 1u64 } else { 0u64 };
    let mag: u64 = if n < 0 {
        if n == i64::MIN {
            0x8000_0000_0000_0000u64
        } else {
            (-n) as u64
        }
    } else {
        n as u64
    };
    proof {
        assert(n == i64::MIN ==> (-(n as int)) as u64 == 0x8000_0000_0000_0000u64);
    }
    let len = bit_len(mag);
    let p: u64 = len - 1;
    if p <= 52 {
        (sign << 63u64) | ((1023u64 + p) << 52u64) | ((mag << (52u64 - p))
            & 0x000F_FFFF_FFFF_FFFFu64)
    } else {
        let shift: u64 = p - 52;
        proof {
            assert(shift < 64 ==> (1u64 << shift) >= 1) by (bit_vector);
        }
        let keep: u64 = mag >> shift;
        let rem: u64 = mag & ((1u64 << shift) - 1);
        let half: u64 = 1u64 << (shift - 1);
        proof {
            assert(shift >= 1 ==> (mag >> shift) <= 0x7FFF_FFFF_FFFF_FFFFu64) by (bit_vector);
        }
        let keep2: u64 = if rem > half || (rem == half && (keep & 1u64) == 1u64) {
            keep + 1
        } else {
            keep
        };
        if keep2 == (1u64 << 53u64) {
            (sign << 63u64) | ((1024u64 + p) << 52u64)
        } else {
            (sign << 63u64) | ((1023u64 + p) << 52u64) | (keep2 & 0x000F_FFFF_FFFF_FFFFu64)
        }
    }
}

/// The double's bit pattern that a number compares as.
pub open spec fn spec_number_bits(n: Number) -> u64 {
    match n {
        Number::Int(i) => spec_i64_to_f64_bits(i),
        Number::Double(d) => d,
    }
}

/// Promotes a number to the double's bit pattern it compares as.
pub fn number_bits(n: &Number) -> (r: u64)
    ensures
        r == spec_number_bits(*n),
{
    match n {
        Number::Int(i) => i64_to_f64_bits(*i),
        Number::Double(d) => *d,
    }
}

/// Comparison of two numbers, as doubles.
pub open spec fn spec_cmp_number(a: Number, b: Number) -> Ordering {
    spec_cmp_f64_bits(spec_number_bits(a), spec_number_bits(b))
}

/// Compares two numbers, as doubles.
pub fn cmp_number(a: &Number, b: &Number) -> (r: Ordering)
    ensures
        r == spec_cmp_number(*a, *b),
{
    cmp_f64_bits(number_bits(a), number_bits(b))
}

/// A number is well formed when the double it compares as is not NaN.
/// Integers always are; a double's bit pattern must not be a NaN.
pub open spec fn number_wf(n: Number) -> bool {
    match n {
        Number::Int(_) => true,
        Number::Double(d) => !f64_is_nan(d),
    }
}

/// No integer promotes to a NaN.
pub proof fn lemma_int_promotion_not_nan_all()
    ensures
        forall|i: i64| !f64_is_nan(#[trigger] spec_i64_to_f64_bits(i)),
{
    assert forall|i: i64| !f64_is_nan(#[trigger] spec_i64_to_f64_bits(i)) by {
        lemma_int_promotion_not_nan(i);
    }
}

/// An integer never promotes to a NaN.
pub proof fn lemma_int_promotion_not_nan(i: i64)
    ensures
        !f64_is_nan(spec_i64_to_f64_bits(i)),
{
    if i != 0 {
        let mag: u64 = if i < 0 { (-(i as int)) as u64 } else { i as u64 };
        lemma_bit_len_le_64(mag);
        let p: u64 = (spec_bit_len(mag) - 1) as u64;
        let sign: u64 = if i < 0 { 1u64 } else { 0u64 };
        if p <= 52 {
            assert(sign <= 1 && p <= 52 ==> (((sign << 63u64) | (((1023u64 + p) as u64) << 52u64) | ((
                mag << ((52u64 - p) as u64)) & 0x000F_FFFF_FFFF_FFFFu64)) >> 52u64) & 0x7FFu64 == (1023u64
                + p) as u64) by (bit_vector);
        } else {
            let shift: u64 = (p - 52) as u64;
            let keep: u64 = mag >> shift;
            let rem: u64 = mag & (((1u64 << shift) - 1) as u64);
            let half: u64 = 1u64 << ((shift - 1) as u64);
            let keep2: u64 = if rem > half || (rem == half && (keep & 1u64) == 1u64) {
                (keep + 1) as u64
            } else {
                keep
            };
            if keep2 == (1u64 << 53u64) {
                assert(sign <= 1 && 52 < p <= 63 ==> (((sign << 63u64) | (((1024u64 + p) as u64)
                    << 52u64)) >> 52u64) & 0x7FFu64 == (1024u64 + p) as u64) by (bit_vector);
            } else {
                assert(sign <= 1 && 52 < p <= 63 ==> (((sign << 63u64) | (((1023u64 + p) as u64)
                    << 52u64) | (keep2 & 0x000F_FFFF_FFFF_FFFFu64)) >> 52u64) & 0x7FFu64
                    == (1023u64 + p) as u64) by (bit_vector);
            }
        }
    } else {
        assert(((0u64 >> 52u64) & 0x7FFu64) == 0u64) by (bit_vector);
    }
}

} // verus!
