//! Binary64 numbers (IEEE 754), handled by their bits.
use vstd::arithmetic::power2::{
    lemma2_to64,
    lemma2_to64_rest,
    lemma_pow2_pos,
    lemma_pow2_strictly_increases,
    lemma_pow2_unfold,
    pow2,
};
use vstd::prelude::*;

verus! {

/// The exponent field: 11 bits above the 52 of the fraction.
pub open spec fn exponent_field(bits: u64) -> int {
    (bits / 0x10_0000_0000_0000) as int % 2048
}

/// Whether the sign bit is set.
pub open spec fn is_negative(bits: u64) -> bool {
    bits >= 0x8000_0000_0000_0000
}

/// Whether the number is neither an infinity nor not-a-number.
pub open spec fn is_finite(bits: u64) -> bool {
    exponent_field(bits) != 2047
}

/// The integer `m` in the number's magnitude `m * 2^scale`.
pub open spec fn significand(bits: u64) -> int {
    let fraction = (bits % 0x10_0000_0000_0000) as int;
    if exponent_field(bits) == 0 {
        fraction
    } else {
        fraction + 0x10_0000_0000_0000
    }
}

/// The exponent `scale` in the number's magnitude `m * 2^scale`.
pub open spec fn scale(bits: u64) -> int {
    if exponent_field(bits) == 0 {
        -1074
    } else {
        exponent_field(bits) - 1075
    }
}

/// The magnitude of the number without what stands behind the point.
pub open spec fn whole_magnitude(bits: u64) -> int {
    if scale(bits) >= 0 {
        significand(bits) * pow2(scale(bits) as nat)
    } else {
        significand(bits) / pow2((-scale(bits)) as nat) as int
    }
}

/// The number without what stands behind the point.
pub open spec fn whole_part(bits: u64) -> int {
    if is_negative(bits) {
        -whole_magnitude(bits)
    } else {
        whole_magnitude(bits)
    }
}

/// Whether nothing stands behind the point.
pub open spec fn is_whole(bits: u64) -> bool {
    scale(bits) >= 0 || significand(bits) % pow2((-scale(bits)) as nat) as int == 0
}

/// `n`, or the nearest end of the range of `i64` where it lies outside.
pub open spec fn clamp_i64(n: int) -> i64 {
    if n > i64::MAX {
        i64::MAX
    } else if n < i64::MIN {
        i64::MIN
    } else {
        n as i64
    }
}

/// Whether the number is neither an infinity nor not-a-number.
pub fn finite(bits: u64) -> (yes: bool)
    ensures
        yes == is_finite(bits),
{
    bits / 0x10_0000_0000_0000 % 2048 != 2047
}

fn power_of_two(k: u64) -> (p: u64)
    requires
        k < 64,
    ensures
        p == pow2(k as nat),
        p > 0,
{
    let mut p: u64 = 1;
    let mut i: u64 = 0;
    proof {
        lemma2_to64();
    }
    while i < k
        invariant
            i <= k < 64,
            p == pow2(i as nat),
            p > 0,
        decreases k - i,
    {
        proof {
            lemma_pow2_unfold((i + 1) as nat);
            lemma2_to64();
            lemma2_to64_rest();
            if i < 62 {
                lemma_pow2_strictly_increases(i as nat, 62);
            }
        }
        p = p * 2;
        i = i + 1;
    }
    p
}

/// The number's whole part, clamped to `i64`, and whether nothing stands behind the
/// point.
fn split_number(bits: u64) -> (r: (i64, bool))
    requires
        is_finite(bits),
    ensures
        r.0 == clamp_i64(whole_part(bits)),
        r.1 == is_whole(bits),
{
    let field: u64 = bits / 0x10_0000_0000_0000 % 2048;
    let fraction: u64 = bits % 0x10_0000_0000_0000;
    let negative: bool = bits >= 0x8000_0000_0000_0000;
    if field >= 1086 {
        proof {
            let s = scale(bits) as nat;
            lemma2_to64();
            if s > 11 {
                lemma_pow2_strictly_increases(11, s);
            }
            assert(significand(bits) * pow2(s) >= 0x10_0000_0000_0000 * 0x800) by (nonlinear_arith)
                requires
                    significand(bits) >= 0x10_0000_0000_0000,
                    pow2(s) >= 0x800,
            ;
        }
        return (if negative { i64::MIN } else { i64::MAX }, true);
    }
    let m: u64 = if field == 0 {
        fraction
    } else {
        fraction + 0x10_0000_0000_0000
    };
    if field >= 1075 {
        let p: u64 = power_of_two(field - 1075);
        proof {
            lemma2_to64();
            if field < 1085 {
                lemma_pow2_strictly_increases((field - 1075) as nat, 10);
            }
            assert(m * p <= 0x1f_ffff_ffff_ffff * 0x400) by (nonlinear_arith)
                requires
                    m <= 0x1f_ffff_ffff_ffff,
                    p <= 0x400,
            ;
        }
        let whole: i64 = (m * p) as i64;
        return (if negative { -whole } else { whole }, true);
    }
    let drop: u64 = if field == 0 {
        1074
    } else {
        1075 - field
    };
    if drop >= 54 {
        proof {
            lemma2_to64_rest();
            if drop > 54 {
                lemma_pow2_strictly_increases(54, drop as nat);
            }
            vstd::arithmetic::div_mod::lemma_basic_div(m as int, pow2(drop as nat) as int);
            vstd::arithmetic::div_mod::lemma_small_mod(m as nat, pow2(drop as nat));
        }
        return (0, m == 0);
    }
    let p: u64 = power_of_two(drop);
    let whole: i64 = (m / p) as i64;
    proof {
        assert(m / p <= m) by (nonlinear_arith)
            requires
                p > 0,
        ;
    }
    (if negative { -whole } else { whole }, m % p == 0)
}

/// The number as an `i64` without what stands behind the point, if it is in range.
pub open spec fn in_range_i64(bits: u64) -> Option<i64> {
    if is_finite(bits) && i64::MIN <= whole_part(bits) <= i64::MAX {
        Some(whole_part(bits) as i64)
    } else {
        None
    }
}

proof fn lemma_magnitude(bits: u64)
    ensures
        exponent_field(bits) < 1086 ==> 0 <= whole_magnitude(bits) < 0x8000_0000_0000_0000,
        exponent_field(bits) >= 1086 ==> whole_magnitude(bits) >= 0x8000_0000_0000_0000,
        exponent_field(bits) > 1086 || exponent_field(bits) == 1086 && bits
            % 0x10_0000_0000_0000 != 0 ==> whole_magnitude(bits) > 0x8000_0000_0000_0000,
        exponent_field(bits) == 1086 && bits % 0x10_0000_0000_0000 == 0 ==> whole_magnitude(bits)
            == 0x8000_0000_0000_0000,
{
    let m = significand(bits);
    lemma2_to64();
    if scale(bits) >= 0 {
        let s = scale(bits) as nat;
        let p = pow2(s) as int;
        if s > 11 {
            lemma_pow2_strictly_increases(11, s);
            assert(m * p > 0x10_0000_0000_0000 * 0x800) by (nonlinear_arith)
                requires
                    m >= 0x10_0000_0000_0000,
                    p > 0x800,
            ;
        } else if s < 11 {
            if s < 10 {
                lemma_pow2_strictly_increases(s, 10);
            }
            lemma_pow2_pos(s);
            assert(0 <= m * p <= 0x1f_ffff_ffff_ffff * 0x400) by (nonlinear_arith)
                requires
                    0 <= m <= 0x1f_ffff_ffff_ffff,
                    0 <= p <= 0x400,
            ;
        } else {
            assert(m * p == m * 0x800) by (nonlinear_arith)
                requires
                    p == 0x800,
            ;
        }
    } else {
        let p = pow2((-scale(bits)) as nat) as int;
        lemma_pow2_pos((-scale(bits)) as nat);
        assert(0 <= m / p <= m) by (nonlinear_arith)
            requires
                m >= 0,
                p >= 1,
        ;
    }
}

/// The number as an `i64` without what stands behind the point, if it is in range.
pub fn checked_i64(bits: u64) -> (n: Option<i64>)
    ensures
        n == in_range_i64(bits),
{
    if !finite(bits) {
        return None;
    }
    proof {
        lemma_magnitude(bits);
    }
    let field: u64 = bits / 0x10_0000_0000_0000 % 2048;
    if field < 1086 {
        return Some(to_i64(bits));
    }
    if field == 1086 && bits % 0x10_0000_0000_0000 == 0 && bits >= 0x8000_0000_0000_0000 {
        Some(i64::MIN)
    } else {
        None
    }
}

/// The number as an `i64`: without what stands behind the point, and clamped.
pub fn to_i64(bits: u64) -> (n: i64)
    requires
        is_finite(bits),
    ensures
        n == clamp_i64(whole_part(bits)),
{
    split_number(bits).0
}

/// Whether nothing stands behind the point.
pub fn whole(bits: u64) -> (yes: bool)
    requires
        is_finite(bits),
    ensures
        yes == is_whole(bits),
{
    split_number(bits).1
}

/// A number is what its fields say: with the exponent field `f` and the fraction `m` of a
/// normal number, it is `(2^52 + m) * 2^(f - 1075)`, cut off at the point, and its sign
/// bit turns it round. All of these numbers are finite, and with the field full none is.
pub proof fn law_fields_make_the_number(f: u64, m: u64)
    requires
        1 <= f <= 2046,
        m < 0x10_0000_0000_0000,
    ensures
        ({
            let bits = (f * 0x10_0000_0000_0000 + m) as u64;
            let turned = (bits + 0x8000_0000_0000_0000) as u64;
            let n = 0x10_0000_0000_0000 + m;
            let w = if f >= 1075 {
                n * pow2((f - 1075) as nat)
            } else {
                n / pow2((1075 - f) as nat) as int
            };
            &&& is_finite(bits) && is_finite(turned)
            &&& whole_part(bits) == w
            &&& whole_part(turned) == -w
            &&& is_whole(bits) == (f >= 1075 || n % pow2((1075 - f) as nat) as int == 0)
            &&& is_whole(turned) == is_whole(bits)
        }),
        !is_finite((2047 * 0x10_0000_0000_0000 + m) as u64),
        !is_finite((2047 * 0x10_0000_0000_0000 + m + 0x8000_0000_0000_0000) as u64),
{
    let bits = (f * 0x10_0000_0000_0000 + m) as u64;
    let turned = (bits + 0x8000_0000_0000_0000) as u64;
    assert(bits / 0x10_0000_0000_0000 == f && bits % 0x10_0000_0000_0000 == m);
    assert(turned / 0x10_0000_0000_0000 == f + 2048 && turned % 0x10_0000_0000_0000 == m);
    assert((f + 2048) % 2048 == f);
}

/// A number in the range of `i64` keeps its whole part, and any other is cut to the end of
/// the range that is nearest to it; where that is not wanted, it is none.
pub proof fn law_integers_are_cut_to_range(bits: u64)
    ensures
        is_finite(bits) && i64::MIN <= whole_part(bits) <= i64::MAX ==> clamp_i64(whole_part(bits))
            == whole_part(bits) && in_range_i64(bits) == Some(clamp_i64(whole_part(bits))),
        whole_part(bits) > i64::MAX ==> clamp_i64(whole_part(bits)) == i64::MAX && in_range_i64(bits)
            is None,
        whole_part(bits) < i64::MIN ==> clamp_i64(whole_part(bits)) == i64::MIN && in_range_i64(bits)
            is None,
        !is_finite(bits) ==> in_range_i64(bits) is None,
{
}

/// The numbers below all normal ones are smaller than 1: without what stands behind the
/// point nothing is left of them, and only 0 is whole.
pub proof fn law_smallest_numbers_are_cut_to_zero(m: u64)
    requires
        m < 0x10_0000_0000_0000,
    ensures
        is_finite(m),
        whole_part(m) == 0,
        whole_part((m + 0x8000_0000_0000_0000) as u64) == 0,
        is_whole(m) <==> m == 0,
{
    let turned = (m + 0x8000_0000_0000_0000) as u64;
    assert(m / 0x10_0000_0000_0000 == 0 && m % 0x10_0000_0000_0000 == m);
    assert(turned / 0x10_0000_0000_0000 == 2048 && turned % 0x10_0000_0000_0000 == m);
    lemma2_to64_rest();
    lemma_pow2_strictly_increases(52, 1074);
    let p = pow2(1074) as int;
    vstd::arithmetic::div_mod::lemma_small_mod(m as nat, p as nat);
    assert(m as int / p == 0) by {
        vstd::arithmetic::div_mod::lemma_basic_div(m as int, p);
    }
}

} // verus!
