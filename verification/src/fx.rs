use vstd::prelude::*;

verus! {

use vstd::arithmetic::div_mod::{
    lemma_div_nonincreasing,
    lemma_fundamental_div_mod,
    lemma_fundamental_div_mod_converse,
    lemma_hoist_over_denominator,
};
use vstd::arithmetic::mul::{lemma_mul_inequality, lemma_mul_unary_negation};

/// One unit of the fixed-point representation: every coordinate, colour
/// channel and ray parameter in this crate is an integer count of 1/65536
/// steps, so the mantissa 65536 stands for the real value 1.0.
pub const SCALE: i64 = 65536;

/// Largest mantissa allowed for a scene coordinate (sphere centres and radii,
/// quad corners, camera points): 2^28, that is 4096 world units. The bound is
/// what keeps every intermediate product of the intersection math inside
/// i128.
pub const COORD_BOUND: i64 = 0x1000_0000;

/// Largest mantissa allowed for a ray origin or direction component: 2^30.
pub const RAY_BOUND: i64 = 0x4000_0000;

/// Largest magnitude of a ray parameter `t` that a query interval may carry:
/// 2^34. The far bound of a primary ray stands at this value, playing the
/// role of "infinity".
pub const T_BOUND: i64 = 0x4_0000_0000;

/// Floor division for a positive divisor (the Euclidean `/` of `int` rounds
/// toward minus infinity when the divisor is positive).
pub open spec fn dfloor(x: int, d: int) -> int
    recommends
        d > 0,
{
    x / d
}

/// Ceiling division for a positive divisor.
pub open spec fn dceil(x: int, d: int) -> int
    recommends
        d > 0,
{
    -((-x) / d)
}

/// The product of two fixed-point values, rounded toward minus infinity.
pub open spec fn fx_mul_s(a: int, b: int) -> int {
    dfloor(a * b, SCALE as int)
}

/// The quotient of two fixed-point values, rounded toward minus infinity;
/// a zero divisor yields 0 (callers that care test the divisor first).
pub open spec fn fx_div_s(a: int, b: int) -> int {
    if b == 0 {
        0
    } else if b > 0 {
        dfloor(a * SCALE, b)
    } else {
        dfloor(-(a * SCALE), -b)
    }
}

/// `r` is the integer square root of `x` rounded down.
pub open spec fn is_sqrt(x: int, r: int) -> bool {
    0 <= r && r * r <= x && x < (r + 1) * (r + 1)
}

/// The integer square root of `x` rounded down (0 for negative input).
pub closed spec fn sqrt_floor(x: int) -> int {
    if x < 0 {
        0
    } else {
        choose|r: int| is_sqrt(x, r)
    }
}

/// The square root of a fixed-point value, rounded down: since
/// sqrt(x / S) == sqrt(x * S) / S, the mantissa of the root is the integer
/// root of `x * SCALE`.
pub open spec fn fx_sqrt_s(x: int) -> int {
    sqrt_floor(x * SCALE)
}

proof fn lemma_sqrt_exists(x: int) -> (r: int)
    requires
        x >= 0,
    ensures
        is_sqrt(x, r),
    decreases x,
{
    if x == 0 {
        0
    } else {
        let p = lemma_sqrt_exists(x - 1);
        if (p + 1) * (p + 1) <= x {
            assert(is_sqrt(x, p + 1)) by (nonlinear_arith)
                requires
                    is_sqrt(x - 1, p),
                    (p + 1) * (p + 1) <= x,
            ;
            p + 1
        } else {
            p
        }
    }
}

proof fn lemma_sqrt_unique(x: int, r1: int, r2: int)
    by (nonlinear_arith)
    requires
        is_sqrt(x, r1),
        is_sqrt(x, r2),
    ensures
        r1 == r2,
{
}

/// Two integers cannot both be the rounded-down square root of `x`.
pub proof fn lemma_sqrt_unique_pub(x: int, r1: int, r2: int)
    requires
        is_sqrt(x, r1),
        is_sqrt(x, r2),
    ensures
        r1 == r2,
{
    lemma_sqrt_unique(x, r1, r2);
}

/// `sqrt_floor` really is the rounded-down square root.
pub proof fn lemma_sqrt_floor(x: int)
    requires
        x >= 0,
    ensures
        is_sqrt(x, sqrt_floor(x)),
{
    let r = lemma_sqrt_exists(x);
    assert(is_sqrt(x, r));
    assert(is_sqrt(x, sqrt_floor(x)));
}

/// An integer `t` lies at or below a rounded-down quotient exactly when
/// `t * d` lies at or below the dividend.
pub proof fn lemma_dfloor_char(t: int, x: int, d: int)
    requires
        d > 0,
    ensures
        (t <= dfloor(x, d)) <==> (t * d <= x),
{
    let q = x / d;
    let m = x % d;
    lemma_fundamental_div_mod(x, d);
    assert(x == d * q + m);
    if t <= q {
        lemma_mul_inequality(t, q, d);
        assert(t * d <= q * d);
    }
    if t > q {
        lemma_mul_inequality(q + 1, t, d);
        assert((q + 1) * d <= t * d);
        assert((q + 1) * d == q * d + d) by (nonlinear_arith);
        assert(q * d == d * q) by (nonlinear_arith);
    }
}

/// An integer `t` lies at or above a rounded-up quotient exactly when
/// `t * d` lies at or above the dividend.
pub proof fn lemma_dceil_char(t: int, x: int, d: int)
    requires
        d > 0,
    ensures
        (t >= dceil(x, d)) <==> (t * d >= x),
{
    lemma_dfloor_char(-t, -x, d);
    assert((-t <= dfloor(-x, d)) <==> ((-t) * d <= -x));
    lemma_mul_unary_negation(t, d);
    assert((-t) * d == -(t * d));
}

/// Floor division of an i128 by a positive divisor, exact against `dfloor`.
pub fn div_floor_i128(x: i128, d: i128) -> (r: i128)
    requires
        d > 0,
        x > i128::MIN as int,
    ensures
        r as int == dfloor(x as int, d as int),
        x >= 0 ==> 0 <= r <= x,
        x < 0 ==> x <= r <= 0,
{
    if x >= 0 {
        let q = (x as u128) / (d as u128);
        proof {
            lemma_fundamental_div_mod(x as int, d as int);
            lemma_div_nonincreasing(x as int, d as int);
        }
        q as i128
    } else {
        let m = (-x) as u128;
        let du = d as u128;
        let q = (m + du - 1) / du;
        proof {
            let mi = m as int;
            let di = d as int;
            let qm = mi / di;
            let rm = mi % di;
            lemma_fundamental_div_mod(mi, di);
            assert(mi == di * qm + rm);
            if rm == 0 {
                // m + d - 1 == d * qm + (d - 1)
                lemma_fundamental_div_mod_converse(mi + di - 1, di, qm, di - 1);
                assert((mi + di - 1) / di == qm);
                // -m == (-qm) * d + 0
                lemma_mul_unary_negation(qm, di);
                assert((-qm) * di == -(qm * di));
                assert(qm * di == di * qm) by (nonlinear_arith);
                lemma_fundamental_div_mod_converse(-mi, di, -qm, 0);
                assert((-mi) / di == -qm);
            } else {
                // m + d - 1 == d * (qm + 1) + (rm - 1)
                assert((qm + 1) * di == qm * di + di) by (nonlinear_arith);
                assert(qm * di == di * qm) by (nonlinear_arith);
                lemma_fundamental_div_mod_converse(mi + di - 1, di, qm + 1, rm - 1);
                assert((mi + di - 1) / di == qm + 1);
                // -m == (-(qm + 1)) * d + (d - rm)
                lemma_mul_unary_negation(qm + 1, di);
                assert((-(qm + 1)) * di == -((qm + 1) * di));
                lemma_fundamental_div_mod_converse(-mi, di, -(qm + 1), di - rm);
                assert((-mi) / di == -(qm + 1));
            }
            // the rounded-up quotient of m by d is at most m, so -q fits
            lemma_hoist_over_denominator(mi - 1, 1, d as nat);
            assert((mi - 1) / di + 1 == (mi - 1 + 1 * di) / di);
            assert(mi - 1 + 1 * di == mi + di - 1);
            lemma_div_nonincreasing(mi - 1, di);
            assert((mi + di - 1) / di <= mi);
        }
        -(q as i128)
    }
}

/// Ceiling division of an i128 by a positive divisor, exact against `dceil`.
pub fn div_ceil_i128(x: i128, d: i128) -> (r: i128)
    requires
        d > 0,
        x > i128::MIN as int,
    ensures
        r as int == dceil(x as int, d as int),
        x >= 0 ==> 0 <= r <= x,
        x < 0 ==> x <= r <= 0,
{
    let f = div_floor_i128(-x, d);
    -f
}

/// A product of bounded factors is bounded by the product of the bounds.
pub proof fn lemma_mul_bound(a: int, b: int, ba: int, bb: int)
    by (nonlinear_arith)
    requires
        -ba <= a <= ba,
        -bb <= b <= bb,
        0 <= ba,
        0 <= bb,
    ensures
        -(ba * bb) <= a * b <= ba * bb,
{
}

/// Negating the dividend moves a rounded-down quotient to the negated
/// quotient, or one below it.
pub proof fn lemma_dfloor_neg(x: int, d: int)
    requires
        d > 0,
    ensures
        -dfloor(x, d) - 1 <= dfloor(-x, d) <= -dfloor(x, d),
{
    let q = x / d;
    let r = x % d;
    lemma_fundamental_div_mod(x, d);
    if r == 0 {
        lemma_mul_unary_negation(q, d);
        assert(q * d == d * q) by (nonlinear_arith);
        lemma_fundamental_div_mod_converse(-x, d, -q, 0);
    } else {
        assert((-(q + 1)) * d == -(q * d) - d) by (nonlinear_arith);
        assert(q * d == d * q) by (nonlinear_arith);
        lemma_fundamental_div_mod_converse(-x, d, -(q + 1), d - r);
    }
}

/// A bounded dividend keeps its rounded-down quotient within the rescaled
/// bound, up to the one unit lost to rounding.
pub proof fn lemma_dfloor_bound(x: int, d: int, b: int)
    requires
        d > 0,
        -b <= x <= b,
        0 <= b,
    ensures
        -dfloor(b, d) - 1 <= dfloor(x, d) <= dfloor(b, d),
{
    vstd::arithmetic::div_mod::lemma_div_is_ordered(x, b, d);
    vstd::arithmetic::div_mod::lemma_div_is_ordered(-b, x, d);
    lemma_dfloor_neg(b, d);
}

/// The fixed-point product of bounded factors is bounded by the rescaled
/// product of the bounds.
pub proof fn lemma_fx_mul_bound(a: int, b: int, ba: int, bb: int)
    requires
        -ba <= a <= ba,
        -bb <= b <= bb,
        0 <= ba,
        0 <= bb,
    ensures
        -dfloor(ba * bb, SCALE as int) - 1 <= fx_mul_s(a, b) <= dfloor(ba * bb, SCALE as int),
        -(ba * bb) <= a * b <= ba * bb,
{
    lemma_mul_bound(a, b, ba, bb);
    vstd::arithmetic::div_mod::lemma_div_is_ordered(a * b, ba * bb, SCALE as int);
    vstd::arithmetic::div_mod::lemma_div_is_ordered(-(ba * bb), a * b, SCALE as int);
    lemma_dfloor_neg(ba * bb, SCALE as int);
}

/// A fixed-point quotient of a bounded dividend by a divisor at least
/// `bb` stays within the rescaled ratio of the bounds.
pub proof fn lemma_fx_div_bound(a: int, b: int, ba: int, bb: int)
    requires
        0 < bb <= b,
        -ba <= a <= ba,
        0 <= ba,
    ensures
        -dfloor(ba * SCALE as int, bb) - 1 <= fx_div_s(a, b) <= dfloor(ba * SCALE as int, bb),
{
    let s = SCALE as int;
    let u = dfloor(ba * s, bb);
    lemma_dfloor_char(0, ba * s, bb);
    assert(0 * bb <= ba * s) by (nonlinear_arith)
        requires
            0 <= ba,
            0 < bb,
            s == 65536,
    ;
    assert(u >= 0);
    lemma_dfloor_char(u + 1, ba * s, bb);
    assert(!((u + 1) * bb <= ba * s));
    lemma_mul_inequality(bb, b, u + 1);
    assert(bb * (u + 1) == (u + 1) * bb) by (nonlinear_arith);
    assert(b * (u + 1) == (u + 1) * b) by (nonlinear_arith);
    lemma_mul_inequality(a, ba, s);
    lemma_mul_inequality(-ba, a, s);
    assert((-ba) * s == -(ba * s)) by (nonlinear_arith);
    lemma_dfloor_char(u + 1, a * s, b);
    assert(!(u + 1 <= dfloor(a * s, b)));
    lemma_dfloor_char(-u - 1, a * s, b);
    assert((-u - 1) * b == -((u + 1) * b)) by (nonlinear_arith);
    assert((-u - 1) * b <= a * s);
}

/// A fixed-point quotient is never larger in magnitude than SCALE times
/// the dividend, whatever the divisor.
pub proof fn lemma_fx_div_total_bound(a: int, b: int, ba: int)
    requires
        -ba <= a <= ba,
        0 <= ba,
    ensures
        -ba * SCALE as int - 1 <= fx_div_s(a, b) <= ba * SCALE as int,
{
    if b > 0 {
        lemma_fx_div_bound(a, b, ba, 1);
        assert(dfloor(ba * SCALE as int, 1) == ba * SCALE as int);
    } else if b < 0 {
        lemma_fx_div_bound(-a, -b, ba, 1);
        assert(dfloor(ba * SCALE as int, 1) == ba * SCALE as int);
        assert((-a) * SCALE as int == -(a * SCALE as int)) by (nonlinear_arith);
        assert(fx_div_s(a, b) == dfloor(-(a * SCALE as int), -b));
    }
}

/// A raw (SCALE^2-scaled) value brought back to mantissa scale, rounded
/// toward minus infinity.
pub fn fx_of_raw(p: i128) -> (r: i64)
    requires
        -0x4000_0000_0000_0000 * 65536 <= p as int <= 0x4000_0000_0000_0000 * 65536,
    ensures
        r as int == dfloor(p as int, SCALE as int),
{
    let q = div_floor_i128(p, 65536);
    proof {
        lemma_dfloor_char(-0x4000_0000_0000_0000, p as int, 65536);
        lemma_dfloor_char(q as int, p as int, 65536);
        assert(q as int * 65536 <= p as int);
        assert(q as int <= 0x4000_0000_0000_0000) by {
            if q as int > 0x4000_0000_0000_0000 {
                lemma_mul_inequality(0x4000_0000_0000_0001, q as int, 65536);
            }
        }
    }
    q as i64
}

/// Fixed-point product with the result rounded toward minus infinity.
pub fn fx_mul(a: i64, b: i64) -> (r: i64)
    requires
        -0x4000_0000_0000_0000 * 65536 <= a as int * b as int <= 0x4000_0000_0000_0000 * 65536,
    ensures
        r as int == fx_mul_s(a as int, b as int),
{
    let p: i128 = (a as i128) * (b as i128);
    fx_of_raw(p)
}

/// Fixed-point quotient with the result rounded toward minus infinity; a
/// zero divisor yields 0.
pub fn fx_div(a: i64, b: i64) -> (r: i64)
    requires
        -0x4000_0000_0000 <= a as int <= 0x4000_0000_0000,
    ensures
        r as int == fx_div_s(a as int, b as int),
{
    if b == 0 {
        0
    } else {
        let n: i128 = (a as i128) * 65536;
        let q = if b > 0 {
            div_floor_i128(n, b as i128)
        } else {
            div_floor_i128(-n, -(b as i128))
        };
        proof {
            let bi = if b > 0 { b as int } else { -(b as int) };
            let ni = if b > 0 { n as int } else { -(n as int) };
            lemma_dfloor_char(q as int, ni, bi);
            lemma_dfloor_char(q as int + 1, ni, bi);
            assert((q as int) * bi <= ni);
            assert(!((q as int + 1) * bi <= ni));
            assert(-0x4000_0000_0000_0000 <= q as int <= 0x4000_0000_0000_0000)
                by (nonlinear_arith)
                requires
                    (q as int) * bi <= ni,
                    !((q as int + 1) * bi <= ni),
                    bi >= 1,
                    -0x4000_0000_0000_0000 <= ni <= 0x4000_0000_0000_0000,
            ;
        }
        q as i64
    }
}

/// Integer square root of a u128, rounded down.
pub fn isqrt_u128(x: u128) -> (r: u128)
    ensures
        r as int == sqrt_floor(x as int),
        is_sqrt(x as int, r as int),
{
    proof {
        lemma_sqrt_floor(x as int);
    }
    if x == 0 {
        proof {
            lemma_sqrt_unique(x as int, 0, sqrt_floor(x as int));
        }
        return 0;
    }
    let mut lo: u128 = 0;
    let mut hi: u128 = 0x1_0000_0000_0000_0000;
    proof {
        assert((0x1_0000_0000_0000_0000 as int) * (0x1_0000_0000_0000_0000 as int) > u128::MAX as int)
            by (nonlinear_arith);
    }
    while lo + 1 < hi
        invariant
            lo < hi,
            hi <= 0x1_0000_0000_0000_0000,
            (lo as int) * (lo as int) <= x as int,
            (x as int) < (hi as int) * (hi as int),
        decreases hi - lo,
    {
        let mid = lo + (hi - lo) / 2;
        proof {
            assert(lo < mid < hi);
            assert(mid as int * mid as int <= u128::MAX as int) by (nonlinear_arith)
                requires mid as int <= 0xffff_ffff_ffff_ffff;
        }
        let mm = mid * mid;
        if mm <= x {
            lo = mid;
        } else {
            hi = mid;
        }
    }
    proof {
        assert(hi == lo + 1);
        assert(is_sqrt(x as int, lo as int));
        lemma_sqrt_unique(x as int, lo as int, sqrt_floor(x as int));
    }
    lo
}

/// Square root of a nonnegative fixed-point value, rounded down.
pub fn fx_sqrt(x: i64) -> (r: i64)
    requires
        0 <= x,
    ensures
        r as int == fx_sqrt_s(x as int),
        0 <= r,
{
    let p: u128 = (x as u128) * 65536;
    let r = isqrt_u128(p);
    proof {
        let pi = p as int;
        assert(is_sqrt(pi, r as int));
        assert(r as int * r as int <= pi);
        assert(r as int <= 0x8000_0000_0000) by (nonlinear_arith)
            requires r as int * r as int <= pi, 0 <= r as int, pi <= 0x8000_0000_0000_0000 * 65536;
    }
    r as i64
}

} // verus!
