use vstd::prelude::*;

verus! {

use crate::aabb::{aabb_from_points, aabb_sized, aabb_wf, pt_in_aabb, AabbV, AABB};
use crate::fx::{
    dfloor, div_floor_i128, is_sqrt, isqrt_u128, lemma_mul_bound, lemma_sqrt_floor, sqrt_floor,
    COORD_BOUND, RAY_BOUND, SCALE, 
};
use crate::hittable::{
    front_face_s, lemma_oriented_normal_opposes, oriented_normal,  HitRecV, HitRecord,
    Hittable,
};
use crate::interval::Interval;
use crate::ray::{ v3_ray_at, Ray, RayV};
use crate::vec3::{
    dot_wide, lemma_dot_raw_bound, v3_add, v3_bounded, v3_divs, v3_dot_raw, v3_sub, Vec3, V3,
};

/// A sphere: centre, radius and the index of its material. The bounding
/// box is computed once at construction.
#[derive(Clone, Copy, Debug)]
pub struct Sphere {
    pub center: Vec3,
    pub radius: i64,
    pub mat: usize,
    pub bbox: AABB,
}

/// Geometry inside the fixed-point range the intersection proof rests on.
pub open spec fn sphere_wf(s: Sphere) -> bool {
    &&& v3_bounded(s.center@, COORD_BOUND as int)
    &&& 0 <= s.radius <= COORD_BOUND
    &&& aabb_wf(s.bbox@, RAY_BOUND as int)
    &&& aabb_sized(s.bbox@)
}

/// The record a committed root yields, if its point and normal pass the
/// box and range guards that keep every reported value well formed.
pub open spec fn sphere_record(s: Sphere, r: RayV, root: int) -> Option<HitRecV> {
    let p = v3_ray_at(r, root);
    if pt_in_aabb(s.bbox@, p) {
        let outward = v3_divs(v3_sub(p, s.center@), s.radius as int);
        if v3_bounded(outward, 2 * SCALE as int) {
            Some(
                HitRecV {
                    p,
                    normal: oriented_normal(r.dir, outward),
                    t: root,
                    front_face: front_face_s(r.dir, outward),
                    mat: s.mat as int,
                },
            )
        } else {
            None
        }
    } else {
        None
    }
}

/// The closed-form sphere intersection, stated over the fixed-point
/// mantissas: the half-b quadratic with an integer square root, the
/// smaller root taken when the open query range surrounds it, else the
/// larger, else no hit. A degenerate sphere never reports a hit.
pub open spec fn sphere_hit_s(s: Sphere, r: RayV, t0: int, t1: int) -> Option<HitRecV> {
    let oc = v3_sub(s.center@, r.orig);
    let a = v3_dot_raw(r.dir, r.dir);
    let h = v3_dot_raw(r.dir, oc);
    let c = v3_dot_raw(oc, oc) - (s.radius as int) * (s.radius as int);
    let disc = h * h - a * c;
    if s.radius <= 0 || a <= 0 || disc < 0 {
        None
    } else {
        let sq = sqrt_floor(disc);
        let root1 = dfloor((h - sq) * SCALE as int, a);
        let root2 = dfloor((h + sq) * SCALE as int, a);
        if t0 < root1 < t1 {
            sphere_record(s, r, root1)
        } else if t0 < root2 < t1 {
            sphere_record(s, r, root2)
        } else {
            None
        }
    }
}

/// The smaller root really is at most the larger one.
proof fn lemma_roots_ordered(h: int, sq: int, a: int)
    requires
        a > 0,
        sq >= 0,
    ensures
        dfloor((h - sq) * SCALE as int, a) <= dfloor((h + sq) * SCALE as int, a),
{
    vstd::arithmetic::div_mod::lemma_div_is_ordered(
        (h - sq) * SCALE as int,
        (h + sq) * SCALE as int,
        a,
    );
}

/// Every reported sphere hit lies in the open query range, sits on the
/// computed ray point inside the sphere's own box, reports the sphere's
/// material, and its normal is exactly the hit-point offset from the
/// centre divided by the radius (oriented against the ray) - the
/// fixed-point magnitude relation the geometry supports; the two-unit
/// component bound is the guard that keeps rounding artifacts of tiny
/// radii out.
pub proof fn lemma_sphere_props(s: Sphere, r: RayV, t0: int, t1: int)
    requires
        sphere_wf(s),
        sphere_hit_s(s, r, t0, t1).is_some(),
    ensures
        ({
            let h = sphere_hit_s(s, r, t0, t1).unwrap();
            &&& t0 < h.t < t1
            &&& h.p == v3_ray_at(r, h.t)
            &&& pt_in_aabb(s.bbox@, h.p)
            &&& v3_bounded(h.p, RAY_BOUND as int)
            &&& v3_bounded(h.normal, 2 * SCALE as int)
            &&& h.normal == oriented_normal(r.dir, v3_divs(v3_sub(h.p, s.center@), s.radius as int))
            &&& h.front_face == crate::hittable::front_face_s(
                r.dir,
                v3_divs(v3_sub(h.p, s.center@), s.radius as int),
            )
            &&& h.mat == s.mat as int
            &&& v3_dot_raw(r.dir, h.normal) <= 0
        }),
{
    let rec = sphere_hit_s(s, r, t0, t1).unwrap();
    let oc = v3_sub(s.center@, r.orig);
    let a = v3_dot_raw(r.dir, r.dir);
    let hh = v3_dot_raw(r.dir, oc);
    let c = v3_dot_raw(oc, oc) - (s.radius as int) * (s.radius as int);
    let disc = hh * hh - a * c;
    let sq = sqrt_floor(disc);
    let root1 = dfloor((hh - sq) * SCALE as int, a);
    let root2 = dfloor((hh + sq) * SCALE as int, a);
    let root = if t0 < root1 < t1 {
        root1
    } else {
        root2
    };
    let p = v3_ray_at(r, root);
    let outward = v3_divs(v3_sub(p, s.center@), s.radius as int);
    lemma_oriented_normal_opposes(r.dir, outward);
    if !front_face_s(r.dir, outward) {
        crate::hittable::lemma_dot_raw_neg_right(r.dir, outward);
    }
}

/// Narrowing the far end of the range past a reported hit keeps the very
/// same hit; a miss stays a miss under narrowing.
pub proof fn lemma_sphere_narrow(s: Sphere, r: RayV, t0: int, t1: int, tc: int)
    requires
        tc <= t1,
    ensures
        sphere_hit_s(s, r, t0, t1).is_some() && sphere_hit_s(s, r, t0, t1).unwrap().t < tc
            ==> sphere_hit_s(s, r, t0, tc) == sphere_hit_s(s, r, t0, t1),
        sphere_hit_s(s, r, t0, t1).is_none() ==> sphere_hit_s(s, r, t0, tc).is_none(),
{
    let oc = v3_sub(s.center@, r.orig);
    let a = v3_dot_raw(r.dir, r.dir);
    let hh = v3_dot_raw(r.dir, oc);
    let c = v3_dot_raw(oc, oc) - (s.radius as int) * (s.radius as int);
    let disc = hh * hh - a * c;
    if !(s.radius <= 0 || a <= 0 || disc < 0) {
        lemma_sqrt_floor(disc);
        lemma_roots_ordered(hh, sqrt_floor(disc), a);
    }
}

/// A hit found in a narrower range is the hit of the wider range.
pub proof fn lemma_sphere_widen(s: Sphere, r: RayV, t0: int, tc: int, t1: int)
    requires
        tc <= t1,
        sphere_hit_s(s, r, t0, tc).is_some(),
    ensures
        sphere_hit_s(s, r, t0, t1) == sphere_hit_s(s, r, t0, tc),
{
    let oc = v3_sub(s.center@, r.orig);
    let a = v3_dot_raw(r.dir, r.dir);
    let hh = v3_dot_raw(r.dir, oc);
    let c = v3_dot_raw(oc, oc) - (s.radius as int) * (s.radius as int);
    let disc = hh * hh - a * c;
    if !(s.radius <= 0 || a <= 0 || disc < 0) {
        lemma_sqrt_floor(disc);
        lemma_roots_ordered(hh, sqrt_floor(disc), a);
    }
}

impl Sphere {
    /// A sphere with its box; a negative radius is normalized to zero, so
    /// a degenerate sphere simply never reports a hit.
    pub fn new(center: &Vec3, radius: i64, mat: usize) -> (r: Sphere)
        requires
            v3_bounded(center@, COORD_BOUND as int),
            -COORD_BOUND as int <= radius as int <= COORD_BOUND as int,
        ensures
            r.center == *center,
            r.radius as int == (if radius < 0 {
                0
            } else {
                radius as int
            }),
            r.mat == mat,
            r.bbox@ == aabb_from_points(
                v3_sub(center@, V3 { x: r.radius as int, y: r.radius as int, z: r.radius as int }),
                v3_add(center@, V3 { x: r.radius as int, y: r.radius as int, z: r.radius as int }),
            ),
            sphere_wf(r),
    {
        let rad = if radius < 0 {
            0
        } else {
            radius
        };
        let rvec = Vec3::new(rad, rad, rad);
        let bbox = AABB::from_points(center.sub(&rvec), center.add(&rvec));
        Sphere { center: *center, radius: rad, mat, bbox }
    }
}

impl Hittable for Sphere {
    open spec fn hit_spec(&self, r: RayV, t0: int, t1: int) -> Option<HitRecV> {
        sphere_hit_s(*self, r, t0, t1)
    }

    open spec fn wf(&self) -> bool {
        sphere_wf(*self)
    }

    open spec fn mats_below(&self, n: int) -> bool {
        (self.mat as int) < n
    }

    open spec fn bbox_s(&self) -> AabbV {
        self.bbox@
    }

    fn hit(&self, r: &Ray, ray_t: Interval, rec: &mut HitRecord) -> (res: bool)
    {
        if self.radius <= 0 {
            return false;
        }
        let oc = self.center.sub(&r.origin());
        let dir = r.direction();
        let a = dot_wide(&dir, &dir);
        let h = dot_wide(&dir, &oc);
        proof {
            lemma_dot_raw_bound(dir@, dir@, 0x4000_0000, 0x4000_0000);
            lemma_dot_raw_bound(dir@, oc@, 0x4000_0000, 0x5000_0000);
            lemma_dot_raw_bound(oc@, oc@, 0x5000_0000, 0x5000_0000);
            lemma_mul_bound(self.radius as int, self.radius as int, COORD_BOUND as int, COORD_BOUND as int);
        }
        let c = dot_wide(&oc, &oc) - (self.radius as i128) * (self.radius as i128);
        proof {
            lemma_mul_bound(h as int, h as int, 0x4000_0000_0000_0000, 0x4000_0000_0000_0000);
            lemma_mul_bound(a as int, c as int, 0x4000_0000_0000_0000, 0x8000_0000_0000_0000);
        }
        let disc = h * h - a * c;
        if a <= 0 || disc < 0 {
            return false;
        }
        let sq = isqrt_u128(disc as u128);
        proof {
            assert(is_sqrt(disc as int, sq as int));
            assert(sq as int <= 0x8000_0000_0000_0000) by (nonlinear_arith)
                requires
                    (sq as int) * (sq as int) <= disc as int,
                    0 <= sq as int,
                    disc as int <= 0x3000_0000_0000_0000_0000_0000_0000_0000,
            ;
        }
        let sqi = sq as i128;
        let root1 = div_floor_i128((h - sqi) * 65536, a);
        let root2 = div_floor_i128((h + sqi) * 65536, a);
        let t0 = ray_t.min as i128;
        let t1 = ray_t.max as i128;
        let root: i64 = if t0 < root1 && root1 < t1 {
            root1 as i64
        } else if t0 < root2 && root2 < t1 {
            root2 as i64
        } else {
            return false;
        };
        let p = r.at(root);
        if !self.bbox.contains_point(&p) {
            return false;
        }
        let outward = p.sub(&self.center).div_scalar(self.radius);
        if outward.x < -2 * SCALE || outward.x > 2 * SCALE || outward.y < -2 * SCALE
            || outward.y > 2 * SCALE || outward.z < -2 * SCALE || outward.z > 2 * SCALE {
            return false;
        }
        let mut out = HitRecord { p, normal: outward, t: root, front_face: false, mat: self.mat };
        out.set_face_normal(r, &outward);
        *rec = out;
        true
    }

    fn bounding_box(&self) -> (b: AABB) {
        self.bbox
    }

    proof fn lemma_hit_wf(&self, r: RayV, t0: int, t1: int, n: int) {
        lemma_sphere_props(*self, r, t0, t1);
    }
}

} // verus!
