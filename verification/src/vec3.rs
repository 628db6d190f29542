use vstd::prelude::*;

verus! {

use crate::fx::{
    dfloor, fx_div, fx_div_s, fx_mul, fx_mul_s, fx_of_raw, fx_sqrt, fx_sqrt_s, is_sqrt,
    isqrt_u128, lemma_dfloor_char, lemma_fx_mul_bound, lemma_mul_bound, lemma_sqrt_floor,
    sqrt_floor, SCALE,
};
use crate::libs::{rand_double, rand_range};

/// A three-component vector of fixed-point values: each i64 mantissa stands
/// for the real value mantissa / 65536.
#[derive(Clone, Copy, Debug, PartialEq, Eq, Structural)]
pub struct Vec3 {
    pub x: i64,
    pub y: i64,
    pub z: i64,
}

/// The mathematical shadow of a Vec3: its three mantissas as unbounded
/// integers.
pub ghost struct V3 {
    pub x: int,
    pub y: int,
    pub z: int,
}

impl View for Vec3 {
    type V = V3;

    open spec fn view(&self) -> V3 {
        V3 { x: self.x as int, y: self.y as int, z: self.z as int }
    }
}

/// Every component of `v` lies in [-b, b].
pub open spec fn v3_bounded(v: V3, b: int) -> bool {
    &&& -b <= v.x <= b
    &&& -b <= v.y <= b
    &&& -b <= v.z <= b
}

pub open spec fn v3_add(a: V3, b: V3) -> V3 {
    V3 { x: a.x + b.x, y: a.y + b.y, z: a.z + b.z }
}

pub open spec fn v3_sub(a: V3, b: V3) -> V3 {
    V3 { x: a.x - b.x, y: a.y - b.y, z: a.z - b.z }
}

pub open spec fn v3_neg(a: V3) -> V3 {
    V3 { x: -a.x, y: -a.y, z: -a.z }
}

/// Scaling by a fixed-point factor, each component rounded down.
pub open spec fn v3_scale(a: V3, s: int) -> V3 {
    V3 { x: fx_mul_s(a.x, s), y: fx_mul_s(a.y, s), z: fx_mul_s(a.z, s) }
}

/// Component-wise fixed-point product (colour attenuation).
pub open spec fn v3_cmul(a: V3, b: V3) -> V3 {
    V3 { x: fx_mul_s(a.x, b.x), y: fx_mul_s(a.y, b.y), z: fx_mul_s(a.z, b.z) }
}

/// Division by a fixed-point scalar, each component rounded down.
pub open spec fn v3_divs(a: V3, s: int) -> V3 {
    V3 { x: fx_div_s(a.x, s), y: fx_div_s(a.y, s), z: fx_div_s(a.z, s) }
}

/// The raw inner product of the mantissas, with no rescaling: it equals
/// SCALE * SCALE times the real inner product, and its sign is exactly the
/// sign of the real one.
pub open spec fn v3_dot_raw(a: V3, b: V3) -> int {
    a.x * b.x + a.y * b.y + a.z * b.z
}

/// The fixed-point inner product: the raw product brought back to mantissa
/// scale, rounded down.
pub open spec fn v3_dot_fx(a: V3, b: V3) -> int {
    dfloor(v3_dot_raw(a, b), SCALE as int)
}

/// The mantissa of the Euclidean length: since v3_dot_raw(v, v) is
/// SCALE^2 times the squared real length, its rounded-down square root is
/// SCALE times the real length.
pub open spec fn v3_len_fx(v: V3) -> int {
    sqrt_floor(v3_dot_raw(v, v))
}

pub open spec fn v3_cross(a: V3, b: V3) -> V3 {
    V3 {
        x: fx_mul_s(a.y, b.z) - fx_mul_s(a.z, b.y),
        y: fx_mul_s(a.z, b.x) - fx_mul_s(a.x, b.z),
        z: fx_mul_s(a.x, b.y) - fx_mul_s(a.y, b.x),
    }
}

/// The vector divided by its own length; the zero vector stays zero.
pub open spec fn v3_unit(v: V3) -> V3 {
    v3_divs(v, v3_len_fx(v))
}

/// `u` is the normalization of some point of the closed unit ball other
/// than the centre: what the unit-sphere sampler can hand back.
pub open spec fn unit_sample_ok(u: V3) -> bool {
    exists|p: V3|
        v3_bounded(p, SCALE as int) && 0 < v3_dot_raw(p, p) <= SCALE as int * SCALE as int && u
            == v3_unit(p)
}

/// Mirror reflection of `v` about the plane with normal `n`.
pub open spec fn v3_reflect(v: V3, n: V3) -> V3 {
    v3_sub(v, v3_scale(n, 2 * v3_dot_fx(v, n)))
}

/// Snell refraction of the unit vector `uv` at a surface with unit normal
/// `n` and relative refraction index `eta` (all fixed point).
pub open spec fn v3_refract(uv: V3, n: V3, eta: int) -> V3 {
    let cos_theta = if v3_dot_fx(v3_neg(uv), n) <= SCALE as int {
        v3_dot_fx(v3_neg(uv), n)
    } else {
        SCALE as int
    };
    let r_out_perp = v3_scale(v3_add(uv, v3_scale(n, cos_theta)), eta);
    let perp_len_sq = dfloor(v3_dot_raw(r_out_perp, r_out_perp), SCALE as int);
    let under = if SCALE as int - perp_len_sq >= 0 {
        SCALE as int - perp_len_sq
    } else {
        perp_len_sq - SCALE as int
    };
    let r_out_parallel = v3_scale(n, -fx_sqrt_s(under));
    v3_add(r_out_perp, r_out_parallel)
}

/// A square is at most `x` exactly when its root is at most the rounded
/// square root of `x`.
pub proof fn lemma_sqrt_le_of_sq_le(a: int, x: int)
    requires
        0 <= a,
        a * a <= x,
    ensures
        a <= sqrt_floor(x),
{
    lemma_sqrt_floor(x);
    let s = sqrt_floor(x);
    assert(a <= s) by (nonlinear_arith)
        requires
            0 <= a,
            a * a <= x,
            is_sqrt(x, s),
    ;
}

/// Dividing a component by a length at least as large keeps the quotient
/// within one fixed-point unit.
pub proof fn lemma_fx_div_unit_bound(a: int, len: int)
    requires
        0 <= len,
        -len <= a <= len,
    ensures
        -SCALE as int <= fx_div_s(a, len) <= SCALE as int,
{
    if len > 0 {
        lemma_dfloor_char(SCALE as int + 1, a * SCALE, len);
        lemma_dfloor_char(-(SCALE as int), a * SCALE, len);
        assert((SCALE as int + 1) * len > a * SCALE && (-(SCALE as int)) * len <= a * SCALE)
            by (nonlinear_arith)
            requires
                len > 0,
                -len <= a <= len,
        ;
    }
}

/// The raw inner product of bounded vectors is bounded by three times the
/// product of the bounds.
pub proof fn lemma_dot_raw_bound(a: V3, b: V3, ba: int, bb: int)
    requires
        v3_bounded(a, ba),
        v3_bounded(b, bb),
        0 <= ba,
        0 <= bb,
    ensures
        -3 * (ba * bb) <= v3_dot_raw(a, b) <= 3 * (ba * bb),
{
    lemma_mul_bound(a.x, b.x, ba, bb);
    lemma_mul_bound(a.y, b.y, ba, bb);
    lemma_mul_bound(a.z, b.z, ba, bb);
}

/// Fixed-point scaling of a bounded vector stays within the rescaled
/// product of the bounds, up to the one unit lost to rounding.
pub proof fn lemma_v3_scale_bound(v: V3, s: int, bv: int, bs: int)
    requires
        v3_bounded(v, bv),
        -bs <= s <= bs,
        0 <= bv,
        0 <= bs,
    ensures
        v3_bounded(v3_scale(v, s), dfloor(bv * bs, SCALE as int) + 1),
{
    lemma_fx_mul_bound(v.x, s, bv, bs);
    lemma_fx_mul_bound(v.y, s, bv, bs);
    lemma_fx_mul_bound(v.z, s, bv, bs);
}

/// Each component of a cross product of bounded vectors is bounded by
/// twice the rescaled product of the bounds, plus the rounding units.
pub proof fn lemma_v3_cross_bound(a: V3, b: V3, ba: int, bb: int)
    requires
        v3_bounded(a, ba),
        v3_bounded(b, bb),
        0 <= ba,
        0 <= bb,
    ensures
        v3_bounded(v3_cross(a, b), 2 * dfloor(ba * bb, SCALE as int) + 1),
{
    lemma_fx_mul_bound(a.y, b.z, ba, bb);
    lemma_fx_mul_bound(a.z, b.y, ba, bb);
    lemma_fx_mul_bound(a.z, b.x, ba, bb);
    lemma_fx_mul_bound(a.x, b.z, ba, bb);
    lemma_fx_mul_bound(a.x, b.y, ba, bb);
    lemma_fx_mul_bound(a.y, b.x, ba, bb);
}

impl Vec3 {
    pub fn new(x: i64, y: i64, z: i64) -> (r: Vec3)
        ensures
            r@ == (V3 { x: x as int, y: y as int, z: z as int }),
    {
        Vec3 { x, y, z }
    }

    pub fn x(&self) -> (r: i64)
        ensures
            r as int == self@.x,
    {
        self.x
    }

    pub fn y(&self) -> (r: i64)
        ensures
            r as int == self@.y,
    {
        self.y
    }

    pub fn z(&self) -> (r: i64)
        ensures
            r as int == self@.z,
    {
        self.z
    }

    pub fn add(&self, o: &Vec3) -> (r: Vec3)
        requires
            v3_bounded(self@, 0x2000_0000_0000_0000),
            v3_bounded(o@, 0x2000_0000_0000_0000),
        ensures
            r@ == v3_add(self@, o@),
    {
        Vec3 { x: self.x + o.x, y: self.y + o.y, z: self.z + o.z }
    }

    pub fn sub(&self, o: &Vec3) -> (r: Vec3)
        requires
            v3_bounded(self@, 0x2000_0000_0000_0000),
            v3_bounded(o@, 0x2000_0000_0000_0000),
        ensures
            r@ == v3_sub(self@, o@),
    {
        Vec3 { x: self.x - o.x, y: self.y - o.y, z: self.z - o.z }
    }

    pub fn neg(&self) -> (r: Vec3)
        requires
            v3_bounded(self@, 0x4000_0000_0000_0000),
        ensures
            r@ == v3_neg(self@),
    {
        Vec3 { x: -self.x, y: -self.y, z: -self.z }
    }

    pub fn scale(&self, s: i64) -> (r: Vec3)
        requires
            v3_bounded(self@, 0x100_0000_0000),
            -0x40_0000_0000 <= s as int <= 0x40_0000_0000,
        ensures
            r@ == v3_scale(self@, s as int),
    {
        proof {
            lemma_mul_bound(self@.x, s as int, 0x100_0000_0000, 0x40_0000_0000);
            lemma_mul_bound(self@.y, s as int, 0x100_0000_0000, 0x40_0000_0000);
            lemma_mul_bound(self@.z, s as int, 0x100_0000_0000, 0x40_0000_0000);
        }
        Vec3 { x: fx_mul(self.x, s), y: fx_mul(self.y, s), z: fx_mul(self.z, s) }
    }

    pub fn comp_mul(&self, o: &Vec3) -> (r: Vec3)
        requires
            v3_bounded(self@, 0x80_0000_0000),
            v3_bounded(o@, 0x80_0000_0000),
        ensures
            r@ == v3_cmul(self@, o@),
    {
        proof {
            lemma_mul_bound(self@.x, o@.x, 0x80_0000_0000, 0x80_0000_0000);
            lemma_mul_bound(self@.y, o@.y, 0x80_0000_0000, 0x80_0000_0000);
            lemma_mul_bound(self@.z, o@.z, 0x80_0000_0000, 0x80_0000_0000);
        }
        Vec3 { x: fx_mul(self.x, o.x), y: fx_mul(self.y, o.y), z: fx_mul(self.z, o.z) }
    }

    pub fn div_scalar(&self, s: i64) -> (r: Vec3)
        requires
            v3_bounded(self@, 0x4000_0000_0000),
        ensures
            r@ == v3_divs(self@, s as int),
    {
        Vec3 { x: fx_div(self.x, s), y: fx_div(self.y, s), z: fx_div(self.z, s) }
    }

    pub fn dot(&self, o: &Vec3) -> (r: i64)
        requires
            v3_bounded(self@, 0x40_0000_0000),
            v3_bounded(o@, 0x40_0000_0000),
        ensures
            r as int == v3_dot_fx(self@, o@),
    {
        let raw = dot_wide(self, o);
        proof {
            lemma_dot_raw_bound(self@, o@, 0x40_0000_0000, 0x40_0000_0000);
        }
        fx_of_raw(raw)
    }

    pub fn cross(&self, o: &Vec3) -> (r: Vec3)
        requires
            v3_bounded(self@, 0x40_0000_0000),
            v3_bounded(o@, 0x40_0000_0000),
        ensures
            r@ == v3_cross(self@, o@),
    {
        proof {
            lemma_fx_mul_bound(self@.y, o@.z, 0x40_0000_0000, 0x40_0000_0000);
            lemma_fx_mul_bound(self@.z, o@.y, 0x40_0000_0000, 0x40_0000_0000);
            lemma_fx_mul_bound(self@.z, o@.x, 0x40_0000_0000, 0x40_0000_0000);
            lemma_fx_mul_bound(self@.x, o@.z, 0x40_0000_0000, 0x40_0000_0000);
            lemma_fx_mul_bound(self@.x, o@.y, 0x40_0000_0000, 0x40_0000_0000);
            lemma_fx_mul_bound(self@.y, o@.x, 0x40_0000_0000, 0x40_0000_0000);
        }
        Vec3 {
            x: fx_mul(self.y, o.z) - fx_mul(self.z, o.y),
            y: fx_mul(self.z, o.x) - fx_mul(self.x, o.z),
            z: fx_mul(self.x, o.y) - fx_mul(self.y, o.x),
        }
    }

    pub fn length_squared(&self) -> (r: i64)
        requires
            v3_bounded(self@, 0x40_0000_0000),
        ensures
            r as int == v3_dot_fx(self@, self@),
    {
        self.dot(self)
    }

    pub fn length(&self) -> (r: i64)
        requires
            v3_bounded(self@, 0x40_0000_0000),
        ensures
            r as int == v3_len_fx(self@),
            0 <= r <= 0x80_0000_0000,
    {
        let raw = dot_wide(self, self);
        proof {
            lemma_self_dot_nonneg(self@);
            lemma_dot_raw_bound(self@, self@, 0x40_0000_0000, 0x40_0000_0000);
        }
        let s = isqrt_u128(raw as u128);
        proof {
            assert(is_sqrt(raw as int, s as int));
            assert(s as int <= 0x80_0000_0000) by (nonlinear_arith)
                requires
                    (s as int) * (s as int) <= raw as int,
                    0 <= s as int,
                    raw as int <= 3 * (0x40_0000_0000 * 0x40_0000_0000),
            ;
        }
        s as i64
    }

    /// True exactly when every component is zero: no nonzero fixed-point
    /// vector counts as near zero, since the representation has no values
    /// between 0 and 1/65536.
    pub fn near_zero(&self) -> (r: bool)
        ensures
            r <==> (self@.x == 0 && self@.y == 0 && self@.z == 0),
    {
        self.x == 0 && self.y == 0 && self.z == 0
    }

    pub fn unit_vector(&self) -> (r: Vec3)
        requires
            v3_bounded(self@, 0x40_0000_0000),
        ensures
            r@ == v3_unit(self@),
            v3_bounded(r@, SCALE as int),
    {
        let len = self.length();
        proof {
            lemma_unit_components_bounded(self@);
        }
        self.div_scalar(len)
    }

    pub fn reflect(v: &Vec3, n: &Vec3) -> (r: Vec3)
        requires
            v3_bounded(v@, 0x1_0000_0000),
            v3_bounded(n@, 0x2_0000),
        ensures
            r@ == v3_reflect(v@, n@),
    {
        let d = v.dot(n);
        proof {
            lemma_dot_raw_bound(v@, n@, 0x1_0000_0000, 0x2_0000);
        }
        let twice = 2 * d;
        proof {
            lemma_v3_scale_bound(n@, twice as int, 0x2_0000, 0x80_0000_0000);
        }
        v.sub(&n.scale(twice))
    }

    pub fn refract(uv: &Vec3, n: &Vec3, etai_over_etat: i64) -> (r: Vec3)
        requires
            v3_bounded(uv@, 0x2_0000),
            v3_bounded(n@, 0x2_0000),
            0 <= etai_over_etat as int <= 0x8_0000,
        ensures
            r@ == v3_refract(uv@, n@, etai_over_etat as int),
    {
        let minus_uv = uv.neg();
        let d = minus_uv.dot(n);
        proof {
            lemma_dot_raw_bound(v3_neg(uv@), n@, 0x2_0000, 0x2_0000);
        }
        let cos_theta = if d <= SCALE { d } else { SCALE };
        proof {
            lemma_v3_scale_bound(n@, cos_theta as int, 0x2_0000, 0x10_0000);
        }
        let scaled_n = n.scale(cos_theta);
        let summed = uv.add(&scaled_n);
        proof {
            lemma_v3_scale_bound(summed@, etai_over_etat as int, 0x40_0000, 0x8_0000);
        }
        let r_out_perp = summed.scale(etai_over_etat);
        proof {
            lemma_dot_raw_bound(r_out_perp@, r_out_perp@, 0x4_0000_0000, 0x4_0000_0000);
        }
        let perp_len_sq = r_out_perp.length_squared();
        proof {
            crate::fx::lemma_dfloor_bound(
                v3_dot_raw(r_out_perp@, r_out_perp@),
                SCALE as int,
                3 * ((0x4_0000_0000 as int) * 0x4_0000_0000),
            );
        }
        let diff = SCALE - perp_len_sq;
        let under = if diff >= 0 { diff } else { -diff };
        let s = fx_sqrt(under);
        proof {
            lemma_sqrt_floor(under as int * 65536);
            assert(s as int <= 0x40_0000_0000) by (nonlinear_arith)
                requires
                    is_sqrt(under as int * 65536, s as int),
                    0 <= under as int <= 0x40_0000_0000_0000,
            ;
            lemma_v3_scale_bound(n@, -(s as int), 0x2_0000, 0x40_0000_0000);
        }
        let r_out_parallel = n.scale(-s);
        r_out_perp.add(&r_out_parallel)
    }

    /// A vector with uniform components in [0, 1).
    pub fn random() -> (r: Vec3)
        ensures
            v3_bounded(r@, SCALE as int),
    {
        Vec3 { x: rand_double(), y: rand_double(), z: rand_double() }
    }

    /// A vector with uniform components in [min, max).
    pub fn random_bounded(min: i64, max: i64) -> (r: Vec3)
        requires
            min < max,
        ensures
            min as int <= r@.x < max as int,
            min as int <= r@.y < max as int,
            min as int <= r@.z < max as int,
    {
        Vec3 { x: rand_range(min, max), y: rand_range(min, max), z: rand_range(min, max) }
    }

    /// A random vector of length close to one: a point of the cube
    /// [-1, 1)^3 is drawn until it falls inside the unit ball (and away
    /// from the centre) and is then normalized; after many failed draws a
    /// fixed unit vector is returned so that the function provably
    /// terminates.
    pub fn random_unit_vector() -> (r: Vec3)
        ensures
            v3_bounded(r@, SCALE as int),
            !(r@.x == 0 && r@.y == 0 && r@.z == 0),
            unit_sample_ok(r@),
    {
        let mut tries: u64 = 0;
        while tries < 64
            invariant
                true,
            decreases 64 - tries,
        {
            let p = Vec3::random_bounded(-SCALE, SCALE);
            let len_sq_raw = dot_wide(&p, &p);
            proof {
                lemma_self_dot_nonneg(p@);
            }
            if 0 < len_sq_raw && len_sq_raw <= 65536 * 65536 {
                let len = isqrt_u128(len_sq_raw as u128);
                proof {
                    assert(is_sqrt(len_sq_raw as int, len as int));
                    assert(len as int <= 65536) by (nonlinear_arith)
                        requires
                            (len as int) * (len as int) <= len_sq_raw as int,
                            0 <= len as int,
                            len_sq_raw as int <= 65536 * 65536,
                    ;
                    assert(len as int == v3_len_fx(p@));
                    lemma_unit_components_bounded(p@);
                    lemma_unit_nonzero(p@);
                }
                let out = p.div_scalar(len as i64);
                proof {
                    assert(v3_bounded(p@, SCALE as int) && 0 < v3_dot_raw(p@, p@) <= SCALE as int
                        * SCALE as int && out@ == v3_unit(p@));
                }
                return out;
            }
            tries = tries + 1;
        }
        let fallback = Vec3 { x: SCALE, y: 0, z: 0 };
        proof {
            lemma_axis_vector_is_unit_sample(fallback@);
        }
        fallback
    }

    /// A random unit-length vector on the same side of the surface as the
    /// given normal: its raw inner product with the normal is never
    /// negative.
    pub fn random_on_hemisphere(normal: &Vec3) -> (r: Vec3)
        requires
            v3_bounded(normal@, 0x40_0000_0000),
        ensures
            v3_bounded(r@, SCALE as int),
            v3_dot_raw(r@, normal@) >= 0,
    {
        let on_unit_sphere = Vec3::random_unit_vector();
        let d = dot_wide(&on_unit_sphere, normal);
        if d > 0 {
            on_unit_sphere
        } else {
            let flipped = on_unit_sphere.neg();
            proof {
                assert((-on_unit_sphere@.x) * normal@.x == -(on_unit_sphere@.x * normal@.x))
                    by (nonlinear_arith);
                assert((-on_unit_sphere@.y) * normal@.y == -(on_unit_sphere@.y * normal@.y))
                    by (nonlinear_arith);
                assert((-on_unit_sphere@.z) * normal@.z == -(on_unit_sphere@.z * normal@.z))
                    by (nonlinear_arith);
            }
            flipped
        }
    }
}

/// The raw inner product of two vectors, exact in i128.
pub fn dot_wide(a: &Vec3, b: &Vec3) -> (r: i128)
    requires
        v3_bounded(a@, 0x4000_0000_0000_0000),
        v3_bounded(b@, 0x4000_0000_0000_0000),
    ensures
        r as int == v3_dot_raw(a@, b@),
{
    proof {
        lemma_mul_bound(a@.x, b@.x, 0x4000_0000_0000_0000, 0x4000_0000_0000_0000);
        lemma_mul_bound(a@.y, b@.y, 0x4000_0000_0000_0000, 0x4000_0000_0000_0000);
        lemma_mul_bound(a@.z, b@.z, 0x4000_0000_0000_0000, 0x4000_0000_0000_0000);
    }
    (a.x as i128) * (b.x as i128) + (a.y as i128) * (b.y as i128) + (a.z as i128) * (b.z as i128)
}

/// The inner product of a vector with itself is never negative.
pub proof fn lemma_self_dot_nonneg(v: V3)
    ensures
        v3_dot_raw(v, v) >= 0,
{
    assert(v.x * v.x >= 0) by (nonlinear_arith);
    assert(v.y * v.y >= 0) by (nonlinear_arith);
    assert(v.z * v.z >= 0) by (nonlinear_arith);
}

/// Each component of a normalized vector lies within one fixed-point unit.
pub proof fn lemma_unit_components_bounded(v: V3)
    ensures
        v3_bounded(v3_unit(v), SCALE as int),
{
    let raw = v3_dot_raw(v, v);
    lemma_self_dot_nonneg(v);
    let len = sqrt_floor(raw);
    lemma_sqrt_floor(raw);
    assert(v.x * v.x <= raw && v.y * v.y <= raw && v.z * v.z <= raw) by (nonlinear_arith)
        requires
            raw == v.x * v.x + v.y * v.y + v.z * v.z,
    ;
    lemma_abs_le_sqrt(v.x, raw);
    lemma_abs_le_sqrt(v.y, raw);
    lemma_abs_le_sqrt(v.z, raw);
    lemma_fx_div_unit_bound(v.x, len);
    lemma_fx_div_unit_bound(v.y, len);
    lemma_fx_div_unit_bound(v.z, len);
}

proof fn lemma_abs_le_sqrt(a: int, x: int)
    requires
        a * a <= x,
    ensures
        -sqrt_floor(x) <= a <= sqrt_floor(x),
{
    if a >= 0 {
        lemma_sqrt_le_of_sq_le(a, x);
    } else {
        assert((-a) * (-a) == a * a) by (nonlinear_arith);
        lemma_sqrt_le_of_sq_le(-a, x);
    }
}

/// Normalizing a vector whose raw squared length lies in (0, SCALE^2]
/// cannot produce the zero vector: the dominant component is at least half
/// the length, so its quotient by the length keeps magnitude at least one.
proof fn lemma_unit_nonzero(v: V3)
    requires
        0 < v3_dot_raw(v, v) <= 65536 * 65536,
    ensures
        !(v3_unit(v).x == 0 && v3_unit(v).y == 0 && v3_unit(v).z == 0),
{
    let raw = v3_dot_raw(v, v);
    let len = v3_len_fx(v);
    lemma_sqrt_floor(raw);
    assert(len >= 1) by (nonlinear_arith)
        requires
            is_sqrt(raw, len),
            raw >= 1,
    ;
    let cx = if v.x >= 0 { v.x } else { -v.x };
    let cy = if v.y >= 0 { v.y } else { -v.y };
    let cz = if v.z >= 0 { v.z } else { -v.z };
    let cm = if cx >= cy && cx >= cz { cx } else if cy >= cz { cy } else { cz };
    assert(cx * cx == v.x * v.x && cy * cy == v.y * v.y && cz * cz == v.z * v.z)
        by (nonlinear_arith)
        requires
            (cx == v.x || cx == -v.x) && (cy == v.y || cy == -v.y) && (cz == v.z || cz == -v.z),
    ;
    assert(cm >= 1) by {
        if cx == 0 && cy == 0 && cz == 0 {
            assert(raw == 0) by (nonlinear_arith)
                requires
                    raw == v.x * v.x + v.y * v.y + v.z * v.z,
                    v.x == 0 && v.y == 0 && v.z == 0,
            ;
        }
    }
    assert(len * len <= raw);
    assert(raw <= 3 * (cm * cm)) by (nonlinear_arith)
        requires
            cm >= cx >= 0 && cm >= cy >= 0 && cm >= cz >= 0,
            raw == v.x * v.x + v.y * v.y + v.z * v.z,
            cx * cx == v.x * v.x && cy * cy == v.y * v.y && cz * cz == v.z * v.z,
    ;
    assert(len <= 2 * cm) by (nonlinear_arith)
        requires
            len * len <= 3 * (cm * cm),
            len >= 0,
            cm >= 1,
    ;
    let u = v3_unit(v);
    if v.x == cm || v.x == -cm {
        lemma_dominant_not_zero(v.x, len);
        assert(!(u.x == 0));
    } else if v.y == cm || v.y == -cm {
        lemma_dominant_not_zero(v.y, len);
        assert(!(u.y == 0));
    } else {
        assert(v.z == cm || v.z == -cm);
        lemma_dominant_not_zero(v.z, len);
        assert(!(u.z == 0));
    }
}

/// The positive x axis vector is its own normalization, so it is a valid
/// unit sample.
proof fn lemma_axis_vector_is_unit_sample(u: V3)
    requires
        u == (V3 { x: SCALE as int, y: 0, z: 0 }),
    ensures
        unit_sample_ok(u),
{
    let s = SCALE as int;
    let p = V3 { x: s, y: 0, z: 0 };
    assert(v3_dot_raw(p, p) == s * s);
    assert(is_sqrt(s * s, s));
    lemma_sqrt_floor(s * s);
    assert(sqrt_floor(s * s) == s) by {
        crate::fx::lemma_sqrt_unique_pub(s * s, s, sqrt_floor(s * s));
    }
    assert(fx_div_s(s, s) == s) by {
        vstd::arithmetic::div_mod::lemma_div_by_multiple(s, s);
        assert(s * s == s * s);
    }
    assert(fx_div_s(0, s) == 0) by {
        assert(dfloor(0, s) == 0);
    }
    assert(v3_unit(p) == u);
    assert(v3_bounded(p, s) && 0 < v3_dot_raw(p, p) <= s * s && u == v3_unit(p));
}

proof fn lemma_dominant_not_zero(a: int, len: int)
    requires
        len >= 1,
        2 * (if a >= 0 { a } else { -a }) >= len,
        a != 0,
    ensures
        fx_div_s(a, len) != 0,
{
    if a > 0 {
        lemma_dfloor_char(1, a * SCALE, len);
        assert(1 * len <= a * SCALE) by (nonlinear_arith)
            requires
                2 * a >= len,
                a >= 1,
                len >= 1,
        ;
        assert(fx_div_s(a, len) >= 1);
    } else {
        lemma_dfloor_char(0, a * SCALE, len);
        assert(!(0 * len <= a * SCALE)) by (nonlinear_arith)
            requires
                a <= -1,
                len >= 1,
        ;
        assert(fx_div_s(a, len) <= -1);
    }
}

} // verus!
