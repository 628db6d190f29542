use vstd::prelude::*;

verus! {

use crate::fx::{fx_mul, fx_mul_s, lemma_fx_mul_bound, lemma_mul_bound, RAY_BOUND, T_BOUND};
use crate::vec3::{v3_bounded, Vec3, V3};

/// A ray: an origin point and a direction vector. The point at parameter
/// `t` is origin + t * direction, evaluated in fixed point.
#[derive(Clone, Copy, Debug, PartialEq, Eq, Structural)]
pub struct Ray {
    pub orig: Vec3,
    pub dir: Vec3,
}

/// The mathematical shadow of a Ray.
pub ghost struct RayV {
    pub orig: V3,
    pub dir: V3,
}

impl View for Ray {
    type V = RayV;

    open spec fn view(&self) -> RayV {
        RayV { orig: self.orig@, dir: self.dir@ }
    }
}

/// One coordinate of the ray point at parameter `t`: the scaled offset is
/// rounded down once, exactly as the executable code computes it.
pub open spec fn ray_axis_at(o: int, d: int, t: int) -> int {
    o + fx_mul_s(t, d)
}

/// The ray point at parameter `t`, coordinate by coordinate.
pub open spec fn v3_ray_at(r: RayV, t: int) -> V3 {
    V3 {
        x: ray_axis_at(r.orig.x, r.dir.x, t),
        y: ray_axis_at(r.orig.y, r.dir.y, t),
        z: ray_axis_at(r.orig.z, r.dir.z, t),
    }
}

/// A well-formed ray keeps its origin and direction mantissas within the
/// fixed-point range that the intersection arithmetic is proved against.
pub open spec fn ray_wf(r: RayV) -> bool {
    v3_bounded(r.orig, RAY_BOUND as int) && v3_bounded(r.dir, RAY_BOUND as int)
}

impl Ray {
    pub fn new(orig: Vec3, dir: Vec3) -> (r: Ray)
        ensures
            r@ == (RayV { orig: orig@, dir: dir@ }),
    {
        Ray { orig, dir }
    }

    pub fn origin(&self) -> (r: Vec3)
        ensures
            r@ == self@.orig,
    {
        self.orig
    }

    pub fn direction(&self) -> (r: Vec3)
        ensures
            r@ == self@.dir,
    {
        self.dir
    }

    /// The point at parameter `t`.
    pub fn at(&self, t: i64) -> (r: Vec3)
        requires
            ray_wf(self@),
            -T_BOUND as int <= t as int <= T_BOUND as int,
        ensures
            r@ == v3_ray_at(self@, t as int),
            v3_bounded(r@, 0x10_0000_0000_0000),
    {
        proof {
            lemma_mul_bound(t as int, self@.dir.x, T_BOUND as int, RAY_BOUND as int);
            lemma_mul_bound(t as int, self@.dir.y, T_BOUND as int, RAY_BOUND as int);
            lemma_mul_bound(t as int, self@.dir.z, T_BOUND as int, RAY_BOUND as int);
            lemma_fx_mul_bound(t as int, self@.dir.x, T_BOUND as int, RAY_BOUND as int);
            lemma_fx_mul_bound(t as int, self@.dir.y, T_BOUND as int, RAY_BOUND as int);
            lemma_fx_mul_bound(t as int, self@.dir.z, T_BOUND as int, RAY_BOUND as int);
        }
        Vec3::new(
            self.orig.x + fx_mul(t, self.dir.x),
            self.orig.y + fx_mul(t, self.dir.y),
            self.orig.z + fx_mul(t, self.dir.z),
        )
    }
}

} // verus!
