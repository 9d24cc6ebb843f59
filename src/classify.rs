//! Terrain classification of one noise sample.
//!
//! A sample is handed over as the IEEE-754 binary64 encoding of the noise
//! value, so that classification is exact integer arithmetic on its fields.
use vstd::prelude::*;
use vstd::arithmetic::power2::pow2;

verus! {

/// Sign bit of a binary64 encoding.
pub open spec fn sign_of(bits: u64) -> bool {
    (bits >> 63u64) == 1
}

/// Biased exponent field of a binary64 encoding.
pub open spec fn exponent_of(bits: u64) -> u64 {
    (bits >> 52u64) & 0x7ffu64
}

/// Fraction field of a binary64 encoding.
pub open spec fn fraction_of(bits: u64) -> u64 {
    bits & 0xf_ffff_ffff_ffffu64
}

pub open spec fn is_nan(bits: u64) -> bool {
    exponent_of(bits) == 0x7ff && fraction_of(bits) != 0
}

pub open spec fn is_infinite(bits: u64) -> bool {
    exponent_of(bits) == 0x7ff && fraction_of(bits) == 0
}

pub open spec fn is_zero(bits: u64) -> bool {
    exponent_of(bits) == 0 && fraction_of(bits) == 0
}

/// The integer significand: the magnitude of a finite value is
/// `significand_of(bits) * 2^scale_of(bits)`.
pub open spec fn significand_of(bits: u64) -> nat {
    if exponent_of(bits) == 0 {
        fraction_of(bits) as nat
    } else {
        (fraction_of(bits) + pow2(52)) as nat
    }
}

pub open spec fn scale_of(bits: u64) -> int {
    if exponent_of(bits) == 0 {
        -1074
    } else {
        exponent_of(bits) - 1075
    }
}

/// The value is strictly below zero (negative zero and NaN are not).
pub open spec fn is_low(bits: u64) -> bool {
    sign_of(bits) && !is_nan(bits) && !is_zero(bits)
}

/// Number of binary digits of `p`.
pub open spec fn bit_len(p: nat) -> nat
    decreases p,
{
    if p == 0 { 0 } else { 1 + bit_len(p / 2) }
}

/// `p` rounded to 53 significant bits, ties to even: how binary64
/// arithmetic rounds an integer.
pub open spec fn round_to_double(p: nat) -> nat {
    if bit_len(p) <= 53 {
        p
    } else {
        let s = (bit_len(p) - 53) as nat;
        let q = p / pow2(s);
        let rem = p % pow2(s);
        let half = pow2((s - 1) as nat);
        let up = rem > half || (rem == half && q % 2 == 1);
        (if up { q + 1 } else { q }) * pow2(s)
    }
}

/// `|v| * count` as binary64 arithmetic computes it (the exact product
/// rounded to 53 significant bits), truncated to an integer; infinite
/// values saturate at `count` and NaN scales to zero.
pub open spec fn scaled_magnitude(bits: u64, count: nat) -> nat {
    if is_nan(bits) {
        0
    } else if is_infinite(bits) {
        count
    } else if scale_of(bits) >= 0 {
        significand_of(bits) * pow2(scale_of(bits) as nat) * count
    } else {
        round_to_double(significand_of(bits) * count) / pow2((-scale_of(bits)) as nat)
    }
}

/// The variant picked among `count` variants: the scaled magnitude clamped
/// to the last index.
pub open spec fn variant_of(bits: u64, count: nat) -> nat {
    let s = scaled_magnitude(bits, count);
    if s < count { s } else { (count - 1) as nat }
}

/// Every sample, infinities, NaN and the extremes of the noise range
/// included, selects an index inside a non-empty variant list.
pub proof fn lemma_variant_in_range(bits: u64, count: nat)
    requires
        count > 0,
    ensures
        variant_of(bits, count) < count,
{
}

proof fn lemma_bit_len_exact(p: nat, b: nat)
    requires
        b > 0,
        pow2((b - 1) as nat) <= p < pow2(b),
    ensures
        bit_len(p) == b,
{
    lemma_bit_len(p, b);
    lemma_bit_len(p, (b - 1) as nat);
}

/// At the extremes of the noise range, -1.0 selects the last of 21 low
/// variants and 1.0 the last of 16 high variants: the counts of the
/// Factorio dirt and grass sets.
pub proof fn lemma_unit_extremes()
    ensures
        category_of(0xbff0_0000_0000_0000u64) == Category::Low,
        variant_of(0xbff0_0000_0000_0000u64, 21) == 20,
        category_of(0x3ff0_0000_0000_0000u64) == Category::High,
        variant_of(0x3ff0_0000_0000_0000u64, 16) == 15,
{
    let lo = 0xbff0_0000_0000_0000u64;
    let hi = 0x3ff0_0000_0000_0000u64;
    assert((lo >> 63u64) == 1 && ((lo >> 52u64) & 0x7ffu64) == 1023 && (lo & 0xf_ffff_ffff_ffffu64) == 0) by (bit_vector)
        requires lo == 0xbff0_0000_0000_0000u64;
    assert((hi >> 63u64) == 0 && ((hi >> 52u64) & 0x7ffu64) == 1023 && (hi & 0xf_ffff_ffff_ffffu64) == 0) by (bit_vector)
        requires hi == 0x3ff0_0000_0000_0000u64;
    vstd::arithmetic::power2::lemma2_to64();
    vstd::arithmetic::power2::lemma2_to64_rest();
    vstd::arithmetic::power2::lemma_pow2_adds(56, 1);
    assert(pow2(57) == 0x200_0000_0000_0000);
    let pl: nat = 0x10_0000_0000_0000 * 21;
    let ph: nat = 0x10_0000_0000_0000 * 16;
    lemma_bit_len_exact(pl, 57);
    lemma_bit_len_exact(ph, 57);
    assert(significand_of(lo) == 0x10_0000_0000_0000);
    assert(scale_of(lo) == -52);
    assert(pl / pow2(4) == 0x1_0000_0000_0000 * 21 && pl % pow2(4) == 0);
    assert(ph / pow2(4) == 0x1_0000_0000_0000 * 16 && ph % pow2(4) == 0);
    assert(bit_len(pl) == 57);
    assert(((bit_len(pl) - 53) as nat) == 4nat);
    assert((pl / pow2(4)) * pow2(4) == pl);
    assert(round_to_double(pl) == (pl / pow2(4)) * pow2(4));
    assert(round_to_double(pl) == pl);
    assert(round_to_double(ph) == ph);
    assert(pl / pow2(52) == 21);
    assert(ph / pow2(52) == 16);
}

/// Which category a sample falls in, and which variant of it.
#[derive(PartialEq, Eq, Structural, Clone, Copy, Debug)]
pub enum Category {
    /// Samples below zero.
    Low,
    /// Samples at or above zero.
    High,
}

pub open spec fn category_of(bits: u64) -> Category {
    if is_low(bits) { Category::Low } else { Category::High }
}

/// Classifies a sample: its category by sign, and the variant index among
/// `low_count` or `high_count` variants of that category.
pub fn classify(bits: u64, low_count: usize, high_count: usize) -> (r: (Category, usize))
    requires
        low_count > 0,
        high_count > 0,
    ensures
        r.0 == category_of(bits),
        r.0 == Category::Low ==> r.1 == variant_of(bits, low_count as nat),
        r.0 == Category::High ==> r.1 == variant_of(bits, high_count as nat),
        r.0 == Category::Low ==> r.1 < low_count,
        r.0 == Category::High ==> r.1 < high_count,
{
    let exponent = (bits >> 52u64) & 0x7ffu64;
    let fraction = bits & 0xf_ffff_ffff_ffffu64;
    let negative = (bits >> 63u64) == 1;
    let low = negative && !(exponent == 0x7ff && fraction != 0) && !(exponent == 0 && fraction == 0);
    if low {
        (Category::Low, variant_index(bits, low_count))
    } else {
        (Category::High, variant_index(bits, high_count))
    }
}

proof fn lemma_product_fits(a: int, b: int)
    requires
        0 <= a < 0x20_0000_0000_0000,
        0 <= b < 0x1_0000_0000_0000_0000,
    ensures
        a * b < 0x20_0000_0000_0000_0000_0000_0000_0000,
{
    assert(a * b <= a * 0xffff_ffff_ffff_ffff) by (nonlinear_arith)
        requires 0 <= a, 0 <= b <= 0xffff_ffff_ffff_ffff;
    assert(a * 0xffff_ffff_ffff_ffff < 0x20_0000_0000_0000_0000_0000_0000_0000) by (nonlinear_arith)
        requires 0 <= a < 0x20_0000_0000_0000;
}

proof fn lemma_bit_len(p: nat, b: nat)
    ensures
        (bit_len(p) <= b) == (p < pow2(b)),
    decreases p,
{
    vstd::arithmetic::power2::lemma_pow2_pos(b);
    if p != 0 {
        if b == 0 {
            vstd::arithmetic::power2::lemma2_to64();
        } else {
            lemma_bit_len(p / 2, (b - 1) as nat);
            vstd::arithmetic::power2::lemma_pow2_unfold(b);
        }
    }
}

/// `2^e`.
fn pow2_u128(e: u32) -> (r: u128)
    requires
        e < 128,
    ensures
        r == pow2(e as nat),
        r > 0,
{
    proof {
        vstd::arithmetic::power2::lemma2_to64();
        vstd::arithmetic::power2::lemma2_to64_rest();
        vstd::arithmetic::power2::lemma_pow2_adds(62, 64);
        vstd::arithmetic::power2::lemma_pow2_pos(e as nat);
    }
    let mut r: u128 = 1;
    let mut i: u32 = 0;
    while i < e
        invariant
            i <= e,
            e < 128,
            r == pow2(i as nat),
            pow2(126) == 0x4000_0000_0000_0000_0000_0000_0000_0000,
        decreases e - i,
    {
        proof {
            vstd::arithmetic::power2::lemma_pow2_unfold((i + 1) as nat);
            if i < 126 {
                vstd::arithmetic::power2::lemma_pow2_strictly_increases(i as nat, 126);
            }
        }
        r = r * 2;
        i = i + 1;
    }
    r
}

/// `p` rounded to 53 significant bits, ties to even.
fn round_to_double_exec(p: u128) -> (r: u128)
    requires
        p < pow2(117),
    ensures
        r == round_to_double(p as nat),
        r <= pow2(117),
{
    proof {
        lemma_bit_len(p as nat, 117);
    }
    let mut len: u32 = 0;
    let mut rest: u128 = p;
    while rest != 0
        invariant
            bit_len(p as nat) == len + bit_len(rest as nat),
            bit_len(p as nat) <= 117,
        decreases rest,
    {
        rest = rest / 2;
        len = len + 1;
    }
    if len <= 53 {
        proof {
            vstd::arithmetic::power2::lemma_pow2_strictly_increases(0, 117);
        }
        return p;
    }
    let s: u32 = len - 53;
    let unit = pow2_u128(s);
    let q = p / unit;
    let rem = p % unit;
    let half = unit / 2;
    proof {
        vstd::arithmetic::power2::lemma2_to64();
        vstd::arithmetic::power2::lemma2_to64_rest();
        vstd::arithmetic::power2::lemma_pow2_adds(53, 64);
        vstd::arithmetic::power2::lemma_pow2_unfold(s as nat);
        lemma_bit_len(p as nat, len as nat);
        vstd::arithmetic::power2::lemma_pow2_adds(53, s as nat);
        vstd::arithmetic::div_mod::lemma_fundamental_div_mod(p as int, unit as int);
        let a = pow2(53) as int;
        let b = unit as int;
        assert(q < a) by (nonlinear_arith)
            requires p == b * q + rem, 0 <= rem, p < a * b, b > 0, 0 <= q;
        assert((q + 1) * b <= a * b) by (nonlinear_arith)
            requires q < a, b > 0;
        if len < 117 {
            vstd::arithmetic::power2::lemma_pow2_strictly_increases(len as nat, 117);
        }
    }
    let up = rem > half || (rem == half && q % 2 == 1);
    let q2: u128 = if up { q + 1 } else { q };
    proof {
        assert(q2 * unit <= (q + 1) * unit) by (nonlinear_arith)
            requires q2 <= q + 1, 0 <= q2, unit > 0;
    }
    q2 * unit
}

/// The variant index of a sample among `count` variants:
/// `min(floor(|v| * count), count - 1)`, with the product rounded as in
/// binary64 arithmetic.
pub fn variant_index(bits: u64, count: usize) -> (r: usize)
    requires
        count > 0,
    ensures
        r == variant_of(bits, count as nat),
        r < count,
{
    let exponent = (bits >> 52u64) & 0x7ffu64;
    let fraction = bits & 0xf_ffff_ffff_ffffu64;
    assert(exponent <= 0x7ff) by (bit_vector)
        requires exponent == (bits >> 52u64) & 0x7ffu64;
    assert(fraction < 0x10_0000_0000_0000u64) by (bit_vector)
        requires fraction == bits & 0xf_ffff_ffff_ffffu64;
    proof {
        vstd::arithmetic::power2::lemma2_to64();
        vstd::arithmetic::power2::lemma2_to64_rest();
        assert(exponent == exponent_of(bits));
        assert(fraction == fraction_of(bits));
        assert(pow2(52) == 0x10_0000_0000_0000);
    }
    if exponent == 0x7ff {
        if fraction != 0 {
            0
        } else {
            count - 1
        }
    } else if exponent >= 1075 {
        // |v| >= 2^52, so the product exceeds every index.
        proof {
            let s = (exponent - 1075) as nat;
            vstd::arithmetic::power2::lemma_pow2_pos(s);
            assert(significand_of(bits) >= 1);
            vstd::arithmetic::mul::lemma_mul_increases(significand_of(bits) as int, pow2(s) as int);
            vstd::arithmetic::mul::lemma_mul_increases(
                (significand_of(bits) * pow2(s)) as int,
                count as int,
            );
            vstd::arithmetic::mul::lemma_mul_is_commutative(
                (significand_of(bits) * pow2(s)) as int,
                count as int,
            );
        }
        count - 1
    } else {
        let significand: u64 = if exponent == 0 { fraction } else { fraction + 0x10_0000_0000_0000u64 };
        let shift: u64 = if exponent == 0 { 1074 } else { 1075 - exponent };
        assert(significand < 0x20_0000_0000_0000u64);
        proof {
            lemma_product_fits(significand as int, count as int);
        }
        let product: u128 = (significand as u128) * (count as u128);
        assert(product == significand_of(bits) * count);
        proof {
            vstd::arithmetic::power2::lemma_pow2_adds(53, 64);
            assert(pow2(117) == 0x20_0000_0000_0000_0000_0000_0000_0000);
        }
        let rounded = round_to_double_exec(product);
        let scaled: u128 = if shift >= 128 {
            0
        } else {
            rounded / pow2_u128(shift as u32)
        };
        proof {
            if shift >= 128 {
                vstd::arithmetic::power2::lemma_pow2_strictly_increases(117, shift as nat);
                vstd::arithmetic::div_mod::lemma_basic_div(rounded as int, pow2(shift as nat) as int);
            }
        }
        if scaled < count as u128 {
            scaled as usize
        } else {
            count - 1
        }
    }
}

} // verus!
