use vstd::prelude::*;

verus! {

use crate::fx::{
    dfloor, div_floor_i128, fx_div, fx_div_s, fx_mul, fx_mul_s, lemma_fx_mul_bound, SCALE,
};

/// The mantissa of pi.
pub const PI_FX: i64 = 205887;

/// The far bound handed to primary rays, playing the role of infinity.
pub const INFINITY_FX: i64 = 0x4_0000_0000;

/// A uniform fixed-point sample in [0, 1): a mantissa in [0, SCALE).
///
/// Relies on rand::random_range over the half-open integer range
/// 0..65536, which returns a uniform value in that range and panics only
/// when the range is empty, which this one is not.
#[verifier::external_body]
pub fn rand_double() -> (r: i64)
    ensures
        0 <= r < SCALE,
{
    rand::random_range(0_i64..65536_i64)
}

/// A uniform fixed-point sample in [min, max): a mantissa in that range.
///
/// Relies on rand::random_range over the half-open integer range
/// min..max, which returns a uniform value in that range and panics only
/// when the range is empty, which the precondition rules out.
#[verifier::external_body]
pub fn rand_range(min: i64, max: i64) -> (r: i64)
    requires
        min < max,
    ensures
        min <= r < max,
{
    rand::random_range(min..max)
}

/// Degrees converted to radians: d * pi / 180, rounded down.
pub open spec fn deg_to_rad_s(d: int) -> int {
    dfloor(fx_mul_s(d, PI_FX as int), 180)
}

/// Degrees converted to radians in fixed point.
pub fn deg_to_rad(degrees: i64) -> (r: i64)
    requires
        -0x1_0000_0000 <= degrees <= 0x1_0000_0000,
    ensures
        r as int == deg_to_rad_s(degrees as int),
{
    let m = fx_mul(degrees, PI_FX);
    let q = crate::fx::div_floor_i128(m as i128, 180);
    q as i64
}


/// The sine of a fixed-point angle in [0, pi/2), by the first four terms
/// of its Taylor series.
pub open spec fn sin_fx_s(x: int) -> int {
    let x2 = fx_mul_s(x, x);
    let x3 = fx_mul_s(x2, x);
    let x5 = fx_mul_s(x3, x2);
    let x7 = fx_mul_s(x5, x2);
    x - dfloor(x3, 6) + dfloor(x5, 120) - dfloor(x7, 5040)
}

/// The cosine of a fixed-point angle in [0, pi/2), by the first four
/// terms of its Taylor series.
pub open spec fn cos_fx_s(x: int) -> int {
    let x2 = fx_mul_s(x, x);
    let x4 = fx_mul_s(x2, x2);
    let x6 = fx_mul_s(x4, x2);
    SCALE as int - dfloor(x2, 2) + dfloor(x4, 24) - dfloor(x6, 720)
}

/// The tangent: the quotient of the series above.
pub open spec fn tan_fx_s(x: int) -> int {
    fx_div_s(sin_fx_s(x), cos_fx_s(x))
}

/// The tangent of an angle in [0, pi/2), in fixed point.
pub fn tan_fx(x: i64) -> (r: i64)
    requires
        0 <= x as int <= 102943,
    ensures
        r as int == tan_fx_s(x as int),
        -0x10_0000_0000 - 1 <= r as int <= 0x10_0000_0000,
{
    proof {
        lemma_fx_mul_bound(x as int, x as int, 0x2_0000, 0x2_0000);
    }
    let x2 = fx_mul(x, x);
    proof {
        lemma_fx_mul_bound(x2 as int, x as int, 0x4_0000, 0x2_0000);
    }
    let x3 = fx_mul(x2, x);
    proof {
        lemma_fx_mul_bound(x3 as int, x2 as int, 0x8_0000, 0x4_0000);
    }
    let x5 = fx_mul(x3, x2);
    proof {
        lemma_fx_mul_bound(x5 as int, x2 as int, 0x40_0000, 0x4_0000);
    }
    let x7 = fx_mul(x5, x2);
    let t3 = div_floor_i128(x3 as i128, 6) as i64;
    let t5 = div_floor_i128(x5 as i128, 120) as i64;
    let t7 = div_floor_i128(x7 as i128, 5040) as i64;
    let sin = x - t3 + t5 - t7;
    proof {
        lemma_fx_mul_bound(x2 as int, x2 as int, 0x4_0000, 0x4_0000);
    }
    let x4 = fx_mul(x2, x2);
    proof {
        lemma_fx_mul_bound(x4 as int, x2 as int, 0x10_0000, 0x4_0000);
    }
    let x6 = fx_mul(x4, x2);
    let c2 = div_floor_i128(x2 as i128, 2) as i64;
    let c4 = div_floor_i128(x4 as i128, 24) as i64;
    let c6 = div_floor_i128(x6 as i128, 720) as i64;
    let cos = SCALE - c2 + c4 - c6;
    proof {
        crate::fx::lemma_fx_div_total_bound(sin as int, cos as int, 0x10_0000);
    }
    fx_div(sin, cos)
}

} // verus!
