use vstd::prelude::*;

verus! {

use crate::aabb::{
    aabb_from_points, aabb_pad, aabb_sized, aabb_union, aabb_wf, pt_in_aabb, AabbV, AABB,
};
use crate::fx::{fx_div_s, COORD_BOUND, RAY_BOUND, SCALE};
use crate::hittable::{
    front_face_s, lemma_oriented_normal_opposes, oriented_normal, HitRecV, HitRecord, Hittable,
};
use crate::interval::Interval;
use crate::ray::{ v3_ray_at, Ray, RayV};
use crate::vec3::{
    dot_wide, lemma_dot_raw_bound, lemma_v3_cross_bound, v3_add, v3_bounded, v3_cross, v3_divs,
    v3_dot_fx, v3_dot_raw, v3_sub, v3_unit, Vec3,
};

/// The largest edge-vector mantissa a quad may carry: 2^24, that is 256
/// world units on a side.
pub const EDGE_BOUND: i64 = 0x100_0000;

/// Rays closer to parallel than this fixed-point sine make no hit: the
/// mantissa of 0.001.
pub const PARALLEL_EPS: i64 = 65;

/// The largest basis-vector mantissa the interior test accepts: beyond it
/// the quad is treated as degenerate and never reports a hit.
pub const W_BOUND: i64 = 0x10_0000;

/// A parallelogram: corner `q` and the two edge vectors `u`, `v` that span
/// it, with the derived plane normal, plane offset `d`, interior-test basis
/// vector `w`, bounding box, and the index of its material.
#[derive(Clone, Copy, Debug)]
pub struct Quad {
    pub q: Vec3,
    pub u: Vec3,
    pub v: Vec3,
    pub w: Vec3,
    pub mat: usize,
    pub bbox: AABB,
    pub normal: Vec3,
    pub d: i64,
}

/// The quad's box: the padded union of the boxes spanned by its two
/// diagonals.
pub open spec fn quad_bbox_s(q: crate::vec3::V3, u: crate::vec3::V3, v: crate::vec3::V3) -> AabbV {
    aabb_pad(
        aabb_union(
            aabb_from_points(q, v3_add(v3_add(q, u), v)),
            aabb_from_points(v3_add(q, u), v3_add(q, v)),
        ),
    )
}

/// Geometry inside the fixed-point range the intersection proof rests on.
pub open spec fn quad_wf(qd: Quad) -> bool {
    &&& v3_bounded(qd.q@, COORD_BOUND as int)
    &&& v3_bounded(qd.u@, EDGE_BOUND as int)
    &&& v3_bounded(qd.v@, EDGE_BOUND as int)
    &&& v3_bounded(qd.normal@, SCALE as int)
    &&& -0x1_0000_0000 <= qd.d as int <= 0x1_0000_0000
    &&& aabb_wf(qd.bbox@, RAY_BOUND as int)
    &&& aabb_sized(qd.bbox@)
}

/// The planar quad intersection, stated over fixed-point mantissas: a
/// near-parallel or degenerate configuration never hits; otherwise the
/// plane parameter is taken when the closed query range contains it, the
/// hit point must fall in the quad's box, and the planar coordinates must
/// lie in the unit square.
pub open spec fn quad_hit_s(qd: Quad, r: RayV, t0: int, t1: int) -> Option<HitRecV> {
    let denom = v3_dot_fx(qd.normal@, r.dir);
    if !v3_bounded(qd.w@, W_BOUND as int) {
        None
    } else if -(PARALLEL_EPS as int) < denom < PARALLEL_EPS as int {
        None
    } else {
        let t = fx_div_s(qd.d as int - v3_dot_fx(qd.normal@, r.orig), denom);
        if !(t0 <= t <= t1) {
            None
        } else {
            let p = v3_ray_at(r, t);
            if !pt_in_aabb(qd.bbox@, p) {
                None
            } else {
                let planar = v3_sub(p, qd.q@);
                let alpha = v3_dot_fx(qd.w@, v3_cross(planar, qd.v@));
                let beta = v3_dot_fx(qd.w@, v3_cross(qd.u@, planar));
                if 0 <= alpha <= SCALE as int && 0 <= beta <= SCALE as int {
                    Some(
                        HitRecV {
                            p,
                            normal: oriented_normal(r.dir, qd.normal@),
                            t,
                            front_face: front_face_s(r.dir, qd.normal@),
                            mat: qd.mat as int,
                        },
                    )
                } else {
                    None
                }
            }
        }
    }
}

/// Every reported quad hit lies in the closed query range, sits on the
/// computed ray point inside the quad's own box, reports the quad's
/// material, and its normal is bounded and opposes the ray.
pub proof fn lemma_quad_props(qd: Quad, r: RayV, t0: int, t1: int)
    requires
        quad_wf(qd),
        quad_hit_s(qd, r, t0, t1).is_some(),
    ensures
        ({
            let h = quad_hit_s(qd, r, t0, t1).unwrap();
            &&& t0 <= h.t <= t1
            &&& h.p == v3_ray_at(r, h.t)
            &&& pt_in_aabb(qd.bbox@, h.p)
            &&& v3_bounded(h.p, RAY_BOUND as int)
            &&& v3_bounded(h.normal, 2 * SCALE as int)
            &&& h.mat == qd.mat as int
            &&& v3_dot_raw(r.dir, h.normal) <= 0
        }),
{
    lemma_oriented_normal_opposes(r.dir, qd.normal@);
    if !front_face_s(r.dir, qd.normal@) {
        crate::hittable::lemma_dot_raw_neg_right(r.dir, qd.normal@);
    }
}

/// Narrowing the far end of the range past a reported hit keeps the very
/// same hit; a miss stays a miss under narrowing.
pub proof fn lemma_quad_narrow(qd: Quad, r: RayV, t0: int, t1: int, tc: int)
    requires
        tc <= t1,
    ensures
        quad_hit_s(qd, r, t0, t1).is_some() && quad_hit_s(qd, r, t0, t1).unwrap().t < tc
            ==> quad_hit_s(qd, r, t0, tc) == quad_hit_s(qd, r, t0, t1),
        quad_hit_s(qd, r, t0, t1).is_none() ==> quad_hit_s(qd, r, t0, tc).is_none(),
{
}

/// A hit found in a narrower range is the hit of the wider range.
pub proof fn lemma_quad_widen(qd: Quad, r: RayV, t0: int, tc: int, t1: int)
    requires
        tc <= t1,
        quad_hit_s(qd, r, t0, tc).is_some(),
    ensures
        quad_hit_s(qd, r, t0, t1) == quad_hit_s(qd, r, t0, tc),
{
}

impl Quad {
    /// A quad with its plane and box derived once from the corner and the
    /// two edges.
    pub fn new(q: &Vec3, u: &Vec3, v: &Vec3, mat: usize) -> (r: Quad)
        requires
            v3_bounded(q@, COORD_BOUND as int),
            v3_bounded(u@, EDGE_BOUND as int),
            v3_bounded(v@, EDGE_BOUND as int),
        ensures
            r.q == *q && r.u == *u && r.v == *v && r.mat == mat,
            r.normal@ == v3_unit(v3_cross(u@, v@)),
            r.d as int == v3_dot_fx(r.normal@, q@),
            r.w@ == v3_divs(v3_cross(u@, v@), v3_dot_fx(v3_cross(u@, v@), v3_cross(u@, v@))),
            r.bbox@ == quad_bbox_s(q@, u@, v@),
            quad_wf(r),
    {
        let bbox = Quad::compute_bounding_box(q, u, v);
        let n = u.cross(v);
        proof {
            lemma_v3_cross_bound(u@, v@, EDGE_BOUND as int, EDGE_BOUND as int);
        }
        let normal = n.unit_vector();
        let d = normal.dot(q);
        proof {
            lemma_dot_raw_bound(normal@, q@, SCALE as int, COORD_BOUND as int);
        }
        let nn = n.dot(&n);
        let w = n.div_scalar(nn);
        Quad { q: *q, u: *u, v: *v, w, mat, bbox, normal, d }
    }

    /// The padded union of the boxes of the quad's two diagonals.
    #[verifier::rlimit(50)]
    fn compute_bounding_box(q: &Vec3, u: &Vec3, v: &Vec3) -> (r: AABB)
        requires
            v3_bounded(q@, COORD_BOUND as int),
            v3_bounded(u@, EDGE_BOUND as int),
            v3_bounded(v@, EDGE_BOUND as int),
        ensures
            r@ == quad_bbox_s(q@, u@, v@),
            aabb_wf(r@, RAY_BOUND as int),
            aabb_sized(r@),
    {
        let bbox_diag_1 = AABB::from_points(*q, q.add(u).add(v));
        let bbox_diag_2 = AABB::from_points(q.add(u), q.add(v));
        AABB::from_boxes(&bbox_diag_1, &bbox_diag_2)
    }

    /// Both planar coordinates lie in the closed unit square.
    fn is_interior(a: i64, b: i64) -> (r: bool)
        ensures
            r == (0 <= a as int <= SCALE as int && 0 <= b as int <= SCALE as int),
    {
        let unit_interval = Interval::new(0, SCALE);
        if !unit_interval.contains(a) || !unit_interval.contains(b) {
            return false;
        }
        true
    }
}

impl Hittable for Quad {
    open spec fn hit_spec(&self, r: RayV, t0: int, t1: int) -> Option<HitRecV> {
        quad_hit_s(*self, r, t0, t1)
    }

    open spec fn wf(&self) -> bool {
        quad_wf(*self)
    }

    open spec fn mats_below(&self, n: int) -> bool {
        (self.mat as int) < n
    }

    open spec fn bbox_s(&self) -> AabbV {
        self.bbox@
    }

    fn hit(&self, r: &Ray, ray_t: Interval, rec: &mut HitRecord) -> (res: bool)
    {
        if self.w.x < -W_BOUND || self.w.x > W_BOUND || self.w.y < -W_BOUND
            || self.w.y > W_BOUND || self.w.z < -W_BOUND || self.w.z > W_BOUND {
            return false;
        }
        let denom = self.normal.dot(&r.direction());
        proof {
            lemma_dot_raw_bound(self.normal@, r@.dir, SCALE as int, RAY_BOUND as int);
            lemma_dot_raw_bound(self.normal@, r@.orig, SCALE as int, RAY_BOUND as int);
        }
        if -PARALLEL_EPS < denom && denom < PARALLEL_EPS {
            return false;
        }
        let num = self.d - self.normal.dot(&r.origin());
        let t = crate::fx::fx_div(num, denom);
        if !ray_t.contains(t) {
            return false;
        }
        let p = r.at(t);
        if !self.bbox.contains_point(&p) {
            return false;
        }
        let planar = p.sub(&self.q);
        let cross_pv = planar.cross(&self.v);
        let cross_up = self.u.cross(&planar);
        proof {
            lemma_v3_cross_bound(planar@, self.v@, 0x8000_0000, EDGE_BOUND as int);
            lemma_v3_cross_bound(self.u@, planar@, EDGE_BOUND as int, 0x8000_0000);
            lemma_dot_raw_bound(self.w@, cross_pv@, W_BOUND as int, 0x200_0000_0001);
            lemma_dot_raw_bound(self.w@, cross_up@, W_BOUND as int, 0x200_0000_0001);
        }
        let alpha = crate::fx::fx_of_raw(dot_wide(&self.w, &cross_pv));
        let beta = crate::fx::fx_of_raw(dot_wide(&self.w, &cross_up));
        if !Quad::is_interior(alpha, beta) {
            return false;
        }
        let mut out = HitRecord { p, normal: self.normal, t, front_face: false, mat: self.mat };
        out.set_face_normal(r, &self.normal);
        *rec = out;
        true
    }

    fn bounding_box(&self) -> (b: AABB) {
        self.bbox
    }

    proof fn lemma_hit_wf(&self, r: RayV, t0: int, t1: int, n: int) {
        lemma_quad_props(*self, r, t0, t1);
    }
}

} // verus!
