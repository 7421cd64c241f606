//! Saturating fixed-point scalars.
//!
//! A scalar is an `i64` holding a real number scaled by `FX_ONE` (2^16).
//! Every operation saturates at `FX_MAX` / `FX_MIN` instead of
//! overflowing, so the two extremes double as "infinities": dividing a
//! nonzero number by zero yields the extreme of the dividend's sign, the
//! way IEEE division yields an infinity.  Each executable operation has
//! an exact specification in terms of the `s_*` spec functions below.
use vstd::arithmetic::mul::*;
use vstd::prelude::*;

verus! {

/// The scalar one: 2^16.
pub const FX_ONE: i64 = 0x10000;

/// The largest scalar; stands in for +infinity.
pub const FX_MAX: i64 = 0x7fff_ffff_ffff_ffff;

/// The smallest scalar; stands in for -infinity.
pub const FX_MIN: i64 = -0x7fff_ffff_ffff_ffff;

/// Clamp an unbounded integer into the scalar range.
pub open spec fn sat64(x: int) -> int {
    if x > FX_MAX as int {
        FX_MAX as int
    } else if x < FX_MIN as int {
        FX_MIN as int
    } else {
        x
    }
}

pub open spec fn abs_i(a: int) -> int {
    if a >= 0 {
        a
    } else {
        -a
    }
}

/// Division truncated toward zero, the rounding of the executable code.
pub open spec fn tdiv(a: int, b: int) -> int {
    if (a >= 0) == (b >= 0) {
        abs_i(a) / abs_i(b)
    } else {
        -(abs_i(a) / abs_i(b))
    }
}

/// Saturating sum of two scalars.
pub open spec fn s_add(a: int, b: int) -> int {
    sat64(a + b)
}

/// Saturating difference of two scalars.
pub open spec fn s_sub(a: int, b: int) -> int {
    sat64(a - b)
}

/// Saturating negation of a scalar.
pub open spec fn s_neg(a: int) -> int {
    sat64(-a)
}

/// Saturating product of two scalars, truncated toward zero.
pub open spec fn s_mul(a: int, b: int) -> int {
    sat64(tdiv(a * b, FX_ONE as int))
}

/// Saturating quotient of two scalars, truncated toward zero; a zero
/// divisor yields the extreme of the dividend's sign.
pub open spec fn s_div(a: int, b: int) -> int {
    if b == 0 {
        if a >= 0 {
            FX_MAX as int
        } else {
            FX_MIN as int
        }
    } else {
        sat64(tdiv(a * (FX_ONE as int), b))
    }
}

/// `r` is the integer square root (rounded down) of `x`.
pub open spec fn sqrt_p(x: int, r: int) -> bool {
    &&& r >= 0
    &&& r * r <= x
    &&& x < (r + 1) * (r + 1)
}

/// The integer square root, rounded down, of a nonnegative integer.
pub open spec fn sqrt_val(x: int) -> int {
    choose|r: int| sqrt_p(x, r)
}

/// The scalar square root: `sqrt(x * FX_ONE)` rounded down keeps the
/// fixed-point scale.  Zero and negative inputs map to zero.
pub open spec fn s_sqrt(a: int) -> int {
    if a > 0 {
        sqrt_val(a * (FX_ONE as int))
    } else {
        0
    }
}

/// Builds the rounded-down square root of `x`, step by step.
proof fn sqrt_witness(x: int) -> (r: int)
    requires
        x >= 0,
    ensures
        sqrt_p(x, r),
    decreases x,
{
    if x == 0 {
        0
    } else {
        let s = sqrt_witness(x - 1);
        if (s + 1) * (s + 1) <= x {
            assert(sqrt_p(x, s + 1)) by (nonlinear_arith)
                requires
                    sqrt_p(x - 1, s),
                    (s + 1) * (s + 1) <= x,
            ;
            s + 1
        } else {
            s
        }
    }
}

/// Two rounded-down square roots of the same number are equal.
proof fn lemma_sqrt_unique(x: int, r1: int, r2: int)
    by (nonlinear_arith)
    requires
        sqrt_p(x, r1),
        sqrt_p(x, r2),
    ensures
        r1 == r2,
{
}

/// `sqrt_val` really is the rounded-down square root.
pub proof fn lemma_sqrt_val(x: int)
    requires
        x >= 0,
    ensures
        sqrt_p(x, sqrt_val(x)),
{
    let w = sqrt_witness(x);
    assert(sqrt_p(x, w));
    assert(sqrt_val(x) == choose|r: int| sqrt_p(x, r));
    assert(sqrt_p(x, sqrt_val(x)));
}

/// The square root of a perfect square is its root.
pub proof fn lemma_sqrt_exact(x: int, r: int)
    requires
        r >= 0,
        x == r * r,
    ensures
        sqrt_val(x) == r,
{
    assert(sqrt_p(x, r) && x >= 0) by (nonlinear_arith)
        requires
            r >= 0,
            x == r * r,
    ;
    lemma_sqrt_val(x);
    lemma_sqrt_unique(x, r, sqrt_val(x));
}

/// Scaling by the fixed-point one and dividing it away cancel exactly.
pub proof fn lemma_tdiv_mul_cancel(x: int)
    ensures
        tdiv(x * (FX_ONE as int), FX_ONE as int) == x,
{
    if x >= 0 {
        assert(x * (FX_ONE as int) >= 0 && (x * (FX_ONE as int)) / (FX_ONE as int) == x)
            by (nonlinear_arith)
            requires
                x >= 0,
        ;
    } else {
        assert(x * (FX_ONE as int) < 0 && (-(x * (FX_ONE as int))) == (-x) * (FX_ONE as int)
            && ((-x) * (FX_ONE as int)) / (FX_ONE as int) == -x) by (nonlinear_arith)
            requires
                x < 0,
        ;
    }
}

/// Multiplying by the fixed-point one only clamps.
pub proof fn lemma_s_mul_one(c: int)
    ensures
        s_mul(FX_ONE as int, c) == sat64(c),
        s_mul(c, FX_ONE as int) == sat64(c),
{
    assert((FX_ONE as int) * c == c * (FX_ONE as int)) by (nonlinear_arith);
    lemma_tdiv_mul_cancel(c);
}

/// Truncated division keeps order when the divisor is positive.
pub proof fn lemma_tdiv_mono(y1: int, y2: int, b: int)
    requires
        y1 <= y2,
        b > 0,
    ensures
        tdiv(y1, b) <= tdiv(y2, b),
{
    if y1 >= 0 {
        vstd::arithmetic::div_mod::lemma_div_is_ordered(y1, y2, b);
    } else if y2 < 0 {
        vstd::arithmetic::div_mod::lemma_div_is_ordered(-y2, -y1, b);
    } else {
        assert((0int) / b == 0) by (nonlinear_arith)
            requires
                b > 0,
        ;
        vstd::arithmetic::div_mod::lemma_div_is_ordered(0, -y1, b);
        vstd::arithmetic::div_mod::lemma_div_is_ordered(0, y2, b);
    }
}

/// Saturating division keeps order in the dividend when the divisor is
/// not negative (a zero divisor saturates by the dividend's sign).
pub proof fn lemma_s_div_mono(x1: int, x2: int, b: int)
    requires
        x1 <= x2,
        b >= 0,
    ensures
        s_div(x1, b) <= s_div(x2, b),
{
    if b > 0 {
        vstd::arithmetic::mul::lemma_mul_inequality(x1, x2, FX_ONE as int);
        lemma_tdiv_mono(x1 * (FX_ONE as int), x2 * (FX_ONE as int), b);
    }
}

/// The magnitude of a scalar, widened so that `i64::MIN` has one too.
fn abs_u128(a: i64) -> (r: u128)
    ensures
        r == abs_i(a as int),
{
    if a >= 0 {
        a as u128
    } else {
        (-(a as i128)) as u128
    }
}

/// Clamp a nonnegative magnitude to `FX_MAX` and give it back its sign.
fn clamp_signed(mag: u128, neg: bool) -> (r: i64)
    ensures
        r as int == sat64(if neg { -(mag as int) } else { mag as int }),
{
    let m: u128 = if mag > FX_MAX as u128 {
        FX_MAX as u128
    } else {
        mag
    };
    if neg {
        -(m as i64)
    } else {
        m as i64
    }
}

/// Saturating addition.
pub fn fx_add(a: i64, b: i64) -> (r: i64)
    ensures
        r as int == s_add(a as int, b as int),
{
    let s: i128 = a as i128 + b as i128;
    if s > FX_MAX as i128 {
        FX_MAX
    } else if s < FX_MIN as i128 {
        FX_MIN
    } else {
        s as i64
    }
}

/// Saturating subtraction.
pub fn fx_sub(a: i64, b: i64) -> (r: i64)
    ensures
        r as int == s_sub(a as int, b as int),
{
    let s: i128 = a as i128 - b as i128;
    if s > FX_MAX as i128 {
        FX_MAX
    } else if s < FX_MIN as i128 {
        FX_MIN
    } else {
        s as i64
    }
}

/// Saturating negation.
pub fn fx_neg(a: i64) -> (r: i64)
    ensures
        r as int == s_neg(a as int),
{
    if a == i64::MIN {
        FX_MAX
    } else if a == FX_MIN {
        FX_MAX
    } else {
        -a
    }
}

/// Saturating fixed-point multiplication.
pub fn fx_mul(a: i64, b: i64) -> (r: i64)
    ensures
        r as int == s_mul(a as int, b as int),
{
    let neg: bool = (a < 0) != (b < 0);
    let ma: u128 = abs_u128(a);
    let mb: u128 = abs_u128(b);
    assert(ma * mb <= 0x8000_0000_0000_0000u128 * 0x8000_0000_0000_0000u128)
        by (nonlinear_arith)
        requires
            ma <= 0x8000_0000_0000_0000u128,
            mb <= 0x8000_0000_0000_0000u128,
    ;
    let p: u128 = ma * mb;
    let q: u128 = p / (FX_ONE as u128);
    proof {
        lemma_mul_product_sign(a as int, b as int, neg);
        lemma_tdiv_by_pos(a as int * b as int, ma as int * mb as int, neg, FX_ONE as int);
    }
    clamp_signed(q, neg)
}

/// `m` is the magnitude of `a * b` and `neg` tells its sign.
proof fn lemma_mul_product_sign(a: int, b: int, neg: bool)
    by (nonlinear_arith)
    requires
        neg == ((a < 0) != (b < 0)),
    ensures
        abs_i(a * b) == abs_i(a) * abs_i(b),
        neg ==> a * b <= 0,
        !neg ==> a * b >= 0,
{
}

/// Truncated division of a signed number by a positive one, written over
/// the number's magnitude and sign.
proof fn lemma_tdiv_by_pos(x: int, m: int, neg: bool, d: int)
    requires
        d > 0,
        m == abs_i(x),
        neg ==> x <= 0,
        !neg ==> x >= 0,
    ensures
        tdiv(x, d) == if neg {
            -(m / d)
        } else {
            m / d
        },
{
    if neg {
        assert(abs_i(x) / abs_i(d) == m / d);
    } else {
        assert(abs_i(x) / abs_i(d) == m / d);
    }
}

/// Saturating fixed-point division; a zero divisor yields the extreme of
/// the dividend's sign.
pub fn fx_div(a: i64, b: i64) -> (r: i64)
    ensures
        r as int == s_div(a as int, b as int),
{
    if b == 0 {
        if a >= 0 {
            FX_MAX
        } else {
            FX_MIN
        }
    } else {
        let neg: bool = (a < 0) != (b < 0);
        let ma: u128 = abs_u128(a);
        let mb: u128 = abs_u128(b);
        let p: u128 = ma * 0x10000u128;
        let q: u128 = p / mb;
        proof {
            lemma_div_sign(a as int, b as int, ma as int, mb as int, neg);
        }
        clamp_signed(q, neg)
    }
}

/// Truncated division of scaled `a` by `b`, over magnitudes and a sign.
proof fn lemma_div_sign(a: int, b: int, ma: int, mb: int, neg: bool)
    requires
        b != 0,
        ma == abs_i(a),
        mb == abs_i(b),
        neg == ((a < 0) != (b < 0)),
    ensures
        tdiv(a * (FX_ONE as int), b) == if neg {
            -((ma * (FX_ONE as int)) / mb)
        } else {
            (ma * (FX_ONE as int)) / mb
        },
{
    assert(abs_i(a * (FX_ONE as int)) == ma * (FX_ONE as int)
        && ((a * (FX_ONE as int) >= 0) == (a >= 0))) by (nonlinear_arith)
        requires
            ma == abs_i(a),
    ;
}

/// The smaller of two scalars.
pub fn fx_min(a: i64, b: i64) -> (r: i64)
    ensures
        r as int == if a < b {
            a as int
        } else {
            b as int
        },
{
    if a < b {
        a
    } else {
        b
    }
}

/// The larger of two scalars.
pub fn fx_max(a: i64, b: i64) -> (r: i64)
    ensures
        r as int == if a > b {
            a as int
        } else {
            b as int
        },
{
    if a > b {
        a
    } else {
        b
    }
}

/// A whole number as a scalar, saturated.
pub fn fx_of(n: i64) -> (r: i64)
    ensures
        r as int == sat64(n * (FX_ONE as int)),
{
    let s: i128 = (n as i128) * 0x10000i128;
    if s > FX_MAX as i128 {
        FX_MAX
    } else if s < FX_MIN as i128 {
        FX_MIN
    } else {
        s as i64
    }
}

/// Fixed-point square root, rounded down; zero on zero and negative
/// inputs, where the real square root has no value to give.
pub fn fx_sqrt(a: i64) -> (r: i64)
    ensures
        r as int == s_sqrt(a as int),
{
    if a <= 0 {
        return 0;
    }
    let x: u128 = (a as u128) * 0x10000u128;
    let mut lo: u128 = 0;
    let mut hi: u128 = 0x100_0000_0000;
    assert(0x100_0000_0000u128 * 0x100_0000_0000u128 == 0x10000_0000_0000_0000_0000u128);
    while lo + 1 < hi
        invariant
            lo < hi,
            hi <= 0x100_0000_0000u128,
            lo * lo <= x,
            x < hi * hi,
        decreases hi - lo,
    {
        let mid: u128 = lo + (hi - lo) / 2;
        assert(mid * mid <= 0x100_0000_0000u128 * 0x100_0000_0000u128)
            by (nonlinear_arith)
            requires
                mid <= 0x100_0000_0000u128,
        ;
        if mid * mid <= x {
            lo = mid;
        } else {
            hi = mid;
        }
    }
    proof {
        assert(x < (lo + 1) * (lo + 1)) by (nonlinear_arith)
            requires
                x < hi * hi,
                0 <= hi,
                hi <= lo + 1,
        ;
        assert(sqrt_p(x as int, lo as int));
        lemma_sqrt_val(x as int);
        lemma_sqrt_unique(x as int, lo as int, sqrt_val(x as int));
    }
    lo as i64
}

/// The rounded-down square root of a scalar-range number is small.
pub proof fn lemma_s_sqrt_bounds(a: int)
    requires
        a <= FX_MAX as int,
    ensures
        0 <= s_sqrt(a) < 0x100_0000_0000,
{
    if a > 0 {
        let x = a * (FX_ONE as int);
        assert(x <= (FX_MAX as int) * (FX_ONE as int)) by (nonlinear_arith)
            requires
                0 < a <= FX_MAX as int,
                x == a * (FX_ONE as int),
        ;
        lemma_sqrt_val(x);
        let r = sqrt_val(x);
        assert(r < 0x100_0000_0000) by (nonlinear_arith)
            requires
                sqrt_p(x, r),
                x <= (FX_MAX as int) * (FX_ONE as int),
        ;
    }
}

} // verus!
