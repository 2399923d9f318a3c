//! Rounding double-precision numbers to single precision, on their bits.

use vstd::arithmetic::power2::*;
use vstd::prelude::*;
use crate::ieee::{
    double_is_nan, double_magnitude, double_units, double_value, is_double_nan,
    lemma_single_units_increase, single_is_nan, single_magnitude, single_units, single_value,
};

verus! {

/// A quotient, rounded to the nearest whole number. Where two are equally near
/// it is the even one.
pub open spec fn nearest(a: int, d: int) -> int {
    let q = a / d;
    let r = a % d;
    if 2 * r > d || (2 * r == d && q % 2 == 1) {
        q + 1
    } else {
        q
    }
}

/// The bits without the sign of the nearest single-precision number, by the
/// bits without the sign of a double-precision one. Exponents differ by 896,
/// fractions by 29 bits. Below the least normal number the fraction gets
/// shorter with the exponent; beyond the largest finite one there is only
/// infinity.
pub open spec fn rounded_magnitude(m: int) -> int {
    let exponent = m / 0x10_0000_0000_0000;
    let fraction = m % 0x10_0000_0000_0000;
    let near = if exponent >= 897 {
        nearest(m - 896 * 0x10_0000_0000_0000, 0x2000_0000)
    } else if exponent > 0 {
        nearest(0x10_0000_0000_0000 + fraction, pow2((926 - exponent) as nat) as int)
    } else {
        0
    };
    if near > 0x7f80_0000 {
        0x7f80_0000
    } else {
        near
    }
}

/// The nearest single-precision number, with the same sign. A NaN stays one.
pub open spec fn rounded(bits: u64) -> u32 {
    let magnitude = if double_is_nan(bits) {
        0x7fc0_0000
    } else {
        rounded_magnitude(double_magnitude(bits))
    };
    if bits >= 0x8000_0000_0000_0000 {
        (0x8000_0000 + magnitude) as u32
    } else {
        magnitude as u32
    }
}

fn nearest_quotient(a: u64, d: u64) -> (near: u64)
    requires
        d > 0,
        a < 0x8000_0000_0000_0000,
        d < 0x8000_0000_0000_0000,
    ensures
        near == nearest(a as int, d as int),
{
    let q: u64 = a / d;
    let r: u64 = a % d;
    assert(q <= a && r < d) by (nonlinear_arith)
        requires
            d > 0,
            q == a / d,
            r == a % d,
    ;
    if 2 * r > d || (2 * r == d && q % 2 == 1) {
        q + 1
    } else {
        q
    }
}

proof fn lemma_small_quotient(a: int, exponent: int)
    requires
        0 <= a < 0x20_0000_0000_0000,
        exponent >= 54,
    ensures
        nearest(a, pow2(exponent as nat) as int) == 0,
{
    lemma2_to64();
    lemma2_to64_rest();
    if exponent > 54 {
        lemma_pow2_strictly_increases(54, exponent as nat);
    }
    let d = pow2(exponent as nat) as int;
    vstd::arithmetic::div_mod::lemma_basic_div(a, d);
    vstd::arithmetic::div_mod::lemma_small_mod(a as nat, d as nat);
}

fn power_of_two(exponent: u64) -> (power: u64)
    requires
        exponent < 63,
    ensures
        power == pow2(exponent as nat),
        0 < power < 0x8000_0000_0000_0000,
{
    let mut power: u64 = 1;
    let mut k: u64 = 0;
    proof {
        lemma2_to64();
        lemma2_to64_rest();
    }
    while k < exponent
        invariant
            k <= exponent < 63,
            power == pow2(k as nat),
            pow2(62) < 0x8000_0000_0000_0000,
        decreases exponent - k,
    {
        proof {
            lemma_pow2_unfold((k + 1) as nat);
            if k + 1 < 62 {
                lemma_pow2_strictly_increases((k + 1) as nat, 62);
            }
        }
        power = power * 2;
        k = k + 1;
    }
    proof {
        lemma_pow2_pos(exponent as nat);
        if exponent < 62 {
            lemma_pow2_strictly_increases(exponent as nat, 62);
        }
    }
    power
}

fn round_magnitude(m: u64) -> (near: u32)
    requires
        m < 0x8000_0000_0000_0000,
    ensures
        near == rounded_magnitude(m as int),
        near <= 0x7f80_0000,
{
    let exponent: u64 = m / 0x10_0000_0000_0000;
    let fraction: u64 = m % 0x10_0000_0000_0000;
    let near: u64 = if exponent >= 897 {
        nearest_quotient(m - 896 * 0x10_0000_0000_0000, 0x2000_0000)
    } else if exponent > 872 {
        nearest_quotient(0x10_0000_0000_0000 + fraction, power_of_two(926 - exponent))
    } else {
        proof {
            lemma_small_quotient(0x10_0000_0000_0000 + fraction, 926 - exponent);
        }
        0
    };
    if near > 0x7f80_0000 {
        0x7f80_0000
    } else {
        near as u32
    }
}

/// Rounds to single precision.
pub fn round_to_single(bits: u64) -> (single: u32)
    ensures
        single == rounded(bits),
{
    let negative: bool = bits >= 0x8000_0000_0000_0000;
    let magnitude: u32 = if is_double_nan(bits) {
        0x7fc0_0000
    } else if negative {
        round_magnitude(bits - 0x8000_0000_0000_0000)
    } else {
        round_magnitude(bits)
    };
    if negative {
        0x8000_0000 + magnitude
    } else {
        magnitude
    }
}

/// The value of a single-precision number by its bits without the sign, in units
/// of the smallest positive double-precision number.
spec fn scaled(magnitude: int) -> int {
    single_units(magnitude) * pow2(925)
}

proof fn lemma_scaled_increase(low: int, high: int)
    requires
        0 <= low < high,
    ensures
        0 <= scaled(low) < scaled(high),
{
    lemma_single_units_increase(low, high);
    lemma_pow2_pos(925);
    let a = single_units(low);
    let b = single_units(high);
    let p = pow2(925) as int;
    assert(0 <= a * p < b * p) by (nonlinear_arith)
        requires
            0 <= a < b,
            p > 0,
    ;
}

/// A value between two neighbouring single-precision numbers, at a part of the
/// way from one to the other.
spec fn is_between(value: int, q: int, r: int, d: int, unit: int) -> bool {
    &&& q >= 0
    &&& 0 <= r < d
    &&& unit > 0
    &&& value == scaled(q) + r * unit
    &&& scaled(q + 1) == scaled(q) + d * unit
}

proof fn lemma_normal_between(m: int)
    requires
        m / 0x10_0000_0000_0000 >= 897,
    ensures
        ({
            let a = m - 896 * 0x10_0000_0000_0000;
            is_between(
                double_units(m),
                a / 0x2000_0000,
                a % 0x2000_0000,
                0x2000_0000,
                pow2((m / 0x10_0000_0000_0000 - 1) as nat) as int,
            )
        }),
{
    let e = m / 0x10_0000_0000_0000;
    let f = m % 0x10_0000_0000_0000;
    let a = m - 896 * 0x10_0000_0000_0000;
    let q = a / 0x2000_0000;
    let r = a % 0x2000_0000;
    let fraction = q % 0x80_0000;
    assert(q / 0x80_0000 == e - 896);
    assert(f == fraction * 0x2000_0000 + r);
    let small = pow2((e - 897) as nat) as int;
    let unit = pow2((e - 1) as nat) as int;
    let p = pow2(925) as int;
    lemma_pow2_pos((e - 1) as nat);
    lemma2_to64();
    lemma_pow2_adds((e - 897) as nat, 925);
    lemma_pow2_adds((e - 1) as nat, 29);
    assert(small * p == unit * 0x2000_0000);
    assert((0x80_0000 + fraction) * small * p == (0x80_0000 + fraction) * 0x2000_0000 * unit)
        by (nonlinear_arith)
        requires
            small * p == unit * 0x2000_0000,
    ;
    assert((0x10_0000_0000_0000 + f) * unit == (0x80_0000 + fraction) * 0x2000_0000 * unit + r
        * unit) by (nonlinear_arith)
        requires
            f == fraction * 0x2000_0000 + r,
    ;
    assert((0x80_0000 + fraction + 1) * small * p == (0x80_0000 + fraction) * small * p + small * p)
        by (nonlinear_arith);
    if fraction + 1 < 0x80_0000 {
        assert((q + 1) / 0x80_0000 == e - 896);
        assert((q + 1) % 0x80_0000 == fraction + 1);
    } else {
        assert((q + 1) / 0x80_0000 == e - 895);
        assert((q + 1) % 0x80_0000 == 0);
        lemma_pow2_unfold((e - 896) as nat);
        assert(0x80_0000 * (2 * small) == (0x80_0000 + fraction + 1) * small) by (nonlinear_arith)
            requires
                fraction + 1 == 0x80_0000,
        ;
    }
}

proof fn lemma_subnormal_between(m: int)
    requires
        0 < m / 0x10_0000_0000_0000 < 897,
    ensures
        ({
            let e = m / 0x10_0000_0000_0000;
            let a = 0x10_0000_0000_0000 + m % 0x10_0000_0000_0000;
            let d = pow2((926 - e) as nat) as int;
            is_between(double_units(m), a / d, a % d, d, pow2((e - 1) as nat) as int)
        }),
{
    let e = m / 0x10_0000_0000_0000;
    let a = 0x10_0000_0000_0000 + m % 0x10_0000_0000_0000;
    let d = pow2((926 - e) as nat) as int;
    let unit = pow2((e - 1) as nat) as int;
    let p = pow2(925) as int;
    let q = a / d;
    let r = a % d;
    lemma_pow2_pos((e - 1) as nat);
    lemma2_to64();
    if 926 - e > 30 {
        lemma_pow2_strictly_increases(30, (926 - e) as nat);
    }
    lemma_pow2_adds((926 - e) as nat, (e - 1) as nat);
    vstd::arithmetic::div_mod::lemma_fundamental_div_mod(a, d);
    vstd::arithmetic::div_mod::lemma_mod_bound(a, d);
    assert(0 <= q < 0x80_0000) by (nonlinear_arith)
        requires
            a == d * q + r,
            0 <= r < d,
            d >= 0x4000_0000,
            0 <= a < 0x20_0000_0000_0000,
    ;
    lemma2_to64_rest();
    assert(single_units(q) == q);
    assert(single_units(q + 1) == q + 1) by {
        if q + 1 == 0x80_0000 {
            assert((q + 1) / 0x80_0000 == 1);
            assert((q + 1) % 0x80_0000 == 0);
        }
    }
    assert(a * unit == q * p + r * unit && (q + 1) * p == q * p + d * unit) by (nonlinear_arith)
        requires
            a == d * q + r,
            p == d * unit,
    ;
}

proof fn lemma_nearest_of_between(value: int, q: int, r: int, d: int, unit: int, other: int)
    requires
        is_between(value, q, r, d, unit),
        other >= 0,
    ensures
        ({
            let near = if 2 * r > d || (2 * r == d && q % 2 == 1) {
                q + 1
            } else {
                q
            };
            &&& distance(value, scaled(near)) <= distance(value, scaled(other))
            &&& distance(value, scaled(near)) == distance(value, scaled(other)) && near != other
                ==> near % 2 == 0
        }),
{
    assert(0 <= r * unit < d * unit) by (nonlinear_arith)
        requires
            0 <= r < d,
            unit > 0,
    ;
    assert(2 * r > d ==> 2 * (r * unit) > d * unit) by (nonlinear_arith)
        requires
            unit > 0,
    ;
    assert(2 * r < d ==> 2 * (r * unit) < d * unit) by (nonlinear_arith)
        requires
            unit > 0,
    ;
    assert(2 * r == d ==> 2 * (r * unit) == d * unit) by (nonlinear_arith)
        requires
            unit > 0,
    ;
    if other < q {
        lemma_scaled_increase(other, q);
    } else if other > q + 1 {
        lemma_scaled_increase(q + 1, other);
    }
}

/// How far apart two values are.
pub open spec fn distance(a: int, b: int) -> int {
    if a < b {
        b - a
    } else {
        a - b
    }
}

proof fn lemma_magnitude_is_nearest(m: int, other: int)
    requires
        0 <= m,
        0 <= other <= 0x7f80_0000,
    ensures
        ({
            let near = rounded_magnitude(m);
            &&& 0 <= near <= 0x7f80_0000
            &&& distance(double_units(m), scaled(near)) <= distance(double_units(m), scaled(other))
            &&& distance(double_units(m), scaled(near)) == distance(double_units(m), scaled(other))
                && near != other ==> near % 2 == 0
        }),
{
    let e = m / 0x10_0000_0000_0000;
    let value = double_units(m);
    if e == 0 {
        lemma2_to64();
        lemma2_to64_rest();
        lemma_pow2_strictly_increases(60, 925);
        assert(single_units(0) == 0 && single_units(1) == 1);
        lemma_nearest_of_between(value, 0, m, pow2(925) as int, 1, other);
    } else {
        let a = if e >= 897 {
            m - 896 * 0x10_0000_0000_0000
        } else {
            0x10_0000_0000_0000 + m % 0x10_0000_0000_0000
        };
        let d = if e >= 897 {
            0x2000_0000
        } else {
            pow2((926 - e) as nat) as int
        };
        let unit = pow2((e - 1) as nat) as int;
        if e >= 897 {
            lemma_normal_between(m);
        } else {
            lemma_subnormal_between(m);
        }
        let q = a / d;
        let r = a % d;
        assert(is_between(value, q, r, d, unit));
        lemma_nearest_of_between(value, q, r, d, unit, other);
        if nearest(a, d) > 0x7f80_0000 {
            assert(0 <= r * unit) by (nonlinear_arith)
                requires
                    0 <= r,
                    unit > 0,
            ;
            if q > 0x7f80_0000 {
                lemma_scaled_increase(0x7f80_0000, q);
            }
            if other < 0x7f80_0000 {
                lemma_scaled_increase(other, 0x7f80_0000);
            }
        }
    }
}

/// Rounding gives a single-precision number that no other is nearer than, of
/// the same sign; and where another is as near, one whose last bit is zero.
/// Values are in units of the smallest positive double-precision number, and
/// infinity counts as the first number beyond the finite ones.
pub proof fn law_rounding_is_nearest(bits: u64, other: u32)
    requires
        !double_is_nan(bits),
        !single_is_nan(other),
    ensures
        ({
            let near = rounded(bits);
            let value = double_value(bits);
            let own = distance(value, single_value(near) * pow2(925));
            let others = distance(value, single_value(other) * pow2(925));
            &&& !single_is_nan(near)
            &&& near >= 0x8000_0000 <==> bits >= 0x8000_0000_0000_0000
            &&& own <= others
            &&& own == others && single_value(near) != single_value(other) ==> near % 2 == 0
        }),
{
    let m = double_magnitude(bits);
    let n = single_magnitude(other);
    let near = rounded_magnitude(m);
    let p = pow2(925) as int;
    lemma_magnitude_is_nearest(m, n);
    lemma_magnitude_is_nearest(m, 0);
    assert(single_units(0) == 0);
    if n > 0 {
        lemma_scaled_increase(0, n);
    }
    if near > 0 {
        lemma_scaled_increase(0, near);
    }
    if m > 0 {
        crate::ieee::law_double_rank_orders_values(0, m as u64);
    }
    assert(double_units(0) == 0);
    assert(double_units(m) >= 0);
    let un = single_units(near);
    let uo = single_units(n);
    assert((-un) * p == -(un * p) && (-uo) * p == -(uo * p)) by (nonlinear_arith);
    assert(0 * p == 0);
}

/// Rounding keeps what is no number so, with its sign, and gives every
/// single-precision number back that is written in double precision: a number
/// whose value some single-precision one has is rounded to that value.
pub proof fn law_rounding_keeps_single_values(bits: u64, single: u32)
    ensures
        double_is_nan(bits) ==> single_is_nan(rounded(bits)) && (rounded(bits) >= 0x8000_0000
            <==> bits >= 0x8000_0000_0000_0000),
        !double_is_nan(bits) && !single_is_nan(single) && double_value(bits) == single_value(single)
            * pow2(925) ==> single_value(rounded(bits)) == single_value(single),
{
    if !double_is_nan(bits) && !single_is_nan(single) && double_value(bits) == single_value(single)
        * pow2(925) {
        law_rounding_is_nearest(bits, single);
        let a = single_value(rounded(bits));
        let b = single_value(single);
        let p = pow2(925) as int;
        lemma_pow2_pos(925);
        assert(a == b) by (nonlinear_arith)
            requires
                a * p == b * p,
                p > 0,
        ;
    }
}

} // verus!
