//! The order of IEEE 754 numbers, read off their bit patterns.

use vstd::arithmetic::power2::*;
use vstd::prelude::*;

verus! {

/// The bits of a single-precision one.
pub const SINGLE_ONE: u32 = 0x3f80_0000;

/// The bits of the single-precision number nearest to ten to the minus eight.
pub const SINGLE_TINY: u32 = 0x322b_cc77;

/// The bits of the double-precision number nearest to ten to the minus eight.
pub const DOUBLE_TINY: u64 = 0x3e45_798e_e230_8c3a;

/// The bits of the double-precision number nearest to ten to the minus five.
pub const DOUBLE_EPSILON: u64 = 0x3ee4_f8b5_88e3_68f1;

/// The bits of the largest finite double-precision number.
pub const DOUBLE_MAX: u64 = 0x7fef_ffff_ffff_ffff;

/// The bits without the sign.
pub open spec fn single_magnitude(bits: u32) -> int {
    if bits >= 0x8000_0000 {
        bits - 0x8000_0000
    } else {
        bits as int
    }
}

/// Whether the bits are those of a NaN.
pub open spec fn single_is_nan(bits: u32) -> bool {
    single_magnitude(bits) > 0x7f80_0000
}

/// A number that orders as the bits' value does, for all but NaN. Both zeros
/// have the same rank.
pub open spec fn single_rank(bits: u32) -> int {
    if bits >= 0x8000_0000 {
        -single_magnitude(bits)
    } else {
        single_magnitude(bits)
    }
}

/// The value of a number with this magnitude, in units of the smallest
/// positive single-precision number. Infinity comes out above every finite
/// value.
pub open spec fn single_units(magnitude: int) -> int {
    let exponent = magnitude / 0x80_0000;
    let fraction = magnitude % 0x80_0000;
    if exponent == 0 {
        fraction
    } else {
        (0x80_0000 + fraction) * pow2((exponent - 1) as nat)
    }
}

/// The value that the bits stand for, in units of the smallest positive
/// single-precision number.
pub open spec fn single_value(bits: u32) -> int {
    if bits >= 0x8000_0000 {
        -single_units(single_magnitude(bits))
    } else {
        single_units(single_magnitude(bits))
    }
}

/// The bits without the sign.
pub open spec fn double_magnitude(bits: u64) -> int {
    if bits >= 0x8000_0000_0000_0000 {
        bits - 0x8000_0000_0000_0000
    } else {
        bits as int
    }
}

/// Whether the bits are those of a NaN.
pub open spec fn double_is_nan(bits: u64) -> bool {
    double_magnitude(bits) > 0x7ff0_0000_0000_0000
}

/// A number that orders as the bits' value does, for all but NaN. Both zeros
/// have the same rank.
pub open spec fn double_rank(bits: u64) -> int {
    if bits >= 0x8000_0000_0000_0000 {
        -double_magnitude(bits)
    } else {
        double_magnitude(bits)
    }
}

/// The value of a number with this magnitude, in units of the smallest
/// positive double-precision number. Infinity comes out above every finite
/// value.
pub open spec fn double_units(magnitude: int) -> int {
    let exponent = magnitude / 0x10_0000_0000_0000;
    let fraction = magnitude % 0x10_0000_0000_0000;
    if exponent == 0 {
        fraction
    } else {
        (0x10_0000_0000_0000 + fraction) * pow2((exponent - 1) as nat)
    }
}

/// The value that the bits stand for, in units of the smallest positive
/// double-precision number.
pub open spec fn double_value(bits: u64) -> int {
    if bits >= 0x8000_0000_0000_0000 {
        -double_units(double_magnitude(bits))
    } else {
        double_units(double_magnitude(bits))
    }
}

/// The IEEE comparison `a <= b`, false where either is a NaN.
pub open spec fn double_le(a: u64, b: u64) -> bool {
    !double_is_nan(a) && !double_is_nan(b) && double_rank(a) <= double_rank(b)
}

/// The IEEE comparison `a < b`, false where either is a NaN.
pub open spec fn double_lt(a: u64, b: u64) -> bool {
    !double_is_nan(a) && !double_is_nan(b) && double_rank(a) < double_rank(b)
}

/// Whether the bits are those of a NaN.
pub fn is_single_nan(bits: u32) -> (nan: bool)
    ensures
        nan == single_is_nan(bits),
{
    if bits >= 0x8000_0000 {
        bits - 0x8000_0000 > 0x7f80_0000
    } else {
        bits > 0x7f80_0000
    }
}

/// The rank of a single-precision number.
pub fn rank_of_single(bits: u32) -> (rank: i64)
    ensures
        rank == single_rank(bits),
{
    if bits >= 0x8000_0000 {
        0 - ((bits - 0x8000_0000) as i64)
    } else {
        bits as i64
    }
}

/// Whether the bits are those of a NaN.
pub fn is_double_nan(bits: u64) -> (nan: bool)
    ensures
        nan == double_is_nan(bits),
{
    if bits >= 0x8000_0000_0000_0000 {
        bits - 0x8000_0000_0000_0000 > 0x7ff0_0000_0000_0000
    } else {
        bits > 0x7ff0_0000_0000_0000
    }
}

/// The rank of a double-precision number.
pub fn rank_of_double(bits: u64) -> (rank: i64)
    ensures
        rank == double_rank(bits),
{
    if bits >= 0x8000_0000_0000_0000 {
        0 - ((bits - 0x8000_0000_0000_0000) as i64)
    } else {
        bits as i64
    }
}

/// Compares two double-precision numbers with `<=`.
pub fn is_double_le(a: u64, b: u64) -> (le: bool)
    ensures
        le == double_le(a, b),
{
    !is_double_nan(a) && !is_double_nan(b) && rank_of_double(a) <= rank_of_double(b)
}

/// Compares two double-precision numbers with `<`.
pub fn is_double_lt(a: u64, b: u64) -> (lt: bool)
    ensures
        lt == double_lt(a, b),
{
    !is_double_nan(a) && !is_double_nan(b) && rank_of_double(a) < rank_of_double(b)
}

proof fn lemma_units_increase(low: int, high: int, unit: int)
    requires
        0 <= low < high,
        unit > 0,
    ensures
        ({
            let value = |m: int|
                if m / unit == 0 {
                    m % unit
                } else {
                    (unit + m % unit) * pow2((m / unit - 1) as nat)
                };
            0 <= value(low) < value(high)
        }),
{
    let el = low / unit;
    let eh = high / unit;
    let fl = low % unit;
    let fh = high % unit;
    vstd::arithmetic::div_mod::lemma_fundamental_div_mod(low, unit);
    vstd::arithmetic::div_mod::lemma_fundamental_div_mod(high, unit);
    vstd::arithmetic::div_mod::lemma_div_pos_is_pos(low, unit);
    vstd::arithmetic::div_mod::lemma_div_is_ordered(low, high, unit);
    vstd::arithmetic::div_mod::lemma_mod_bound(low, unit);
    vstd::arithmetic::div_mod::lemma_mod_bound(high, unit);
    if el == eh {
        assert(fl < fh);
        if el > 0 {
            let p = pow2((el - 1) as nat);
            lemma_pow2_pos((el - 1) as nat);
            assert((unit + fl) * p < (unit + fh) * p) by (nonlinear_arith)
                requires
                    fl < fh,
                    p > 0,
            ;
            assert(0 <= (unit + fl) * p) by (nonlinear_arith)
                requires
                    0 <= unit + fl,
                    p > 0,
            ;
        }
    } else {
        let ph = pow2((eh - 1) as nat);
        lemma_pow2_pos((eh - 1) as nat);
        assert(unit * ph <= (unit + fh) * ph) by (nonlinear_arith)
            requires
                0 <= fh,
                ph > 0,
        ;
        if el == 0 {
            assert(unit <= unit * ph) by (nonlinear_arith)
                requires
                    unit > 0,
                    ph >= 1,
            ;
        } else {
            let pl = pow2((el - 1) as nat);
            lemma_pow2_pos((el - 1) as nat);
            lemma_pow2_unfold(el as nat);
            if el < eh - 1 {
                lemma_pow2_strictly_increases(el as nat, (eh - 1) as nat);
            }
            assert(2 * pl <= ph);
            assert((unit + fl) * pl < unit * ph) by (nonlinear_arith)
                requires
                    0 <= fl < unit,
                    pl > 0,
                    2 * pl <= ph,
            ;
            assert(0 <= (unit + fl) * pl) by (nonlinear_arith)
                requires
                    0 <= unit + fl,
                    pl > 0,
            ;
        }
    }
}

/// Values grow with the bits.
pub proof fn lemma_single_units_increase(low: int, high: int)
    requires
        0 <= low < high,
    ensures
        0 <= single_units(low) < single_units(high),
{
    lemma_units_increase(low, high, 0x80_0000);
}

/// The rank of single-precision bits orders as the value they stand for.
pub proof fn law_single_rank_orders_values(a: u32, b: u32)
    ensures
        single_rank(a) < single_rank(b) <==> single_value(a) < single_value(b),
        single_rank(a) == single_rank(b) <==> single_value(a) == single_value(b),
{
    let ma = single_magnitude(a);
    let mb = single_magnitude(b);
    if ma > 0 {
        lemma_units_increase(0, ma, 0x80_0000);
    }
    if mb > 0 {
        lemma_units_increase(0, mb, 0x80_0000);
    }
    if ma < mb {
        lemma_units_increase(ma, mb, 0x80_0000);
    } else if mb < ma {
        lemma_units_increase(mb, ma, 0x80_0000);
    }
}

/// The rank of double-precision bits orders as the value they stand for.
pub proof fn law_double_rank_orders_values(a: u64, b: u64)
    ensures
        double_rank(a) < double_rank(b) <==> double_value(a) < double_value(b),
        double_rank(a) == double_rank(b) <==> double_value(a) == double_value(b),
{
    let ma = double_magnitude(a);
    let mb = double_magnitude(b);
    if ma > 0 {
        lemma_units_increase(0, ma, 0x10_0000_0000_0000);
    }
    if mb > 0 {
        lemma_units_increase(0, mb, 0x10_0000_0000_0000);
    }
    if ma < mb {
        lemma_units_increase(ma, mb, 0x10_0000_0000_0000);
    } else if mb < ma {
        lemma_units_increase(mb, ma, 0x10_0000_0000_0000);
    }
}

/// What is no number lies beyond infinity, on either side, and nothing else does.
pub proof fn law_nan_lies_beyond_infinity(single: u32, double: u64)
    ensures
        single_is_nan(single) <==> (single_value(single) > 0x80_0000 * pow2(254) || single_value(
            single,
        ) < -(0x80_0000 * pow2(254))),
        double_is_nan(double) <==> (double_value(double) > 0x10_0000_0000_0000 * pow2(2046)
            || double_value(double) < -(0x10_0000_0000_0000 * pow2(2046))),
{
    let top = 0x7f80_0000int;
    assert(top / 0x80_0000 == 255 && top % 0x80_0000 == 0);
    let high = 0x7ff0_0000_0000_0000int;
    assert(high / 0x10_0000_0000_0000 == 2047 && high % 0x10_0000_0000_0000 == 0);
    law_single_rank_orders_values(single_magnitude(single) as u32, top as u32);
    law_single_rank_orders_values(0, single_magnitude(single) as u32);
    law_double_rank_orders_values(double_magnitude(double) as u64, high as u64);
    law_double_rank_orders_values(0, double_magnitude(double) as u64);
    assert(single_units(0) == 0);
    assert(double_units(0) == 0);
}

/// Comparisons are those of the values, and none holds of what is no number.
pub proof fn law_comparisons_are_of_values(a: u64, b: u64)
    ensures
        double_le(a, b) <==> !double_is_nan(a) && !double_is_nan(b) && double_value(a)
            <= double_value(b),
        double_lt(a, b) <==> !double_is_nan(a) && !double_is_nan(b) && double_value(a)
            < double_value(b),
{
    law_double_rank_orders_values(a, b);
    law_double_rank_orders_values(b, a);
}

} // verus!
