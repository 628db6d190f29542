use vstd::prelude::*;

verus! {

use crate::aabb::{ pt_in_aabb, AabbV, AABB};
use crate::fx::{RAY_BOUND, SCALE, T_BOUND};
use crate::interval::Interval;
use crate::quad::{lemma_quad_narrow, lemma_quad_props, lemma_quad_widen, quad_hit_s, quad_wf, Quad};
use crate::ray::{ray_wf, v3_ray_at, Ray, RayV};
use crate::sphere::{
    lemma_sphere_narrow, lemma_sphere_props, lemma_sphere_widen, sphere_hit_s, sphere_wf, Sphere,
};
use crate::vec3::{dot_wide, v3_bounded, v3_dot_raw, v3_neg, Vec3, V3};

/// What an intersection query reports: the hit point, the unit outward
/// normal flipped to oppose the incoming ray, the ray parameter, which side
/// of the surface was struck, and the index of the material at the hit.
#[derive(Clone, Copy, Debug, PartialEq, Eq, Structural)]
pub struct HitRecord {
    pub p: Vec3,
    pub normal: Vec3,
    pub t: i64,
    pub front_face: bool,
    pub mat: usize,
}

/// The mathematical shadow of a hit record.
pub ghost struct HitRecV {
    pub p: V3,
    pub normal: V3,
    pub t: int,
    pub front_face: bool,
    pub mat: int,
}

impl View for HitRecord {
    type V = HitRecV;

    open spec fn view(&self) -> HitRecV {
        HitRecV {
            p: self.p@,
            normal: self.normal@,
            t: self.t as int,
            front_face: self.front_face,
            mat: self.mat as int,
        }
    }
}

/// The struck side faces the camera exactly when the raw inner product of
/// ray direction and outward normal is negative; the raw product has the
/// exact sign of the real one, so this decision carries no rounding.
pub open spec fn front_face_s(dir: V3, outward: V3) -> bool {
    v3_dot_raw(dir, outward) < 0
}

/// The reported normal: the outward normal, flipped when the ray struck
/// the back side, so that it always opposes the incoming ray.
pub open spec fn oriented_normal(dir: V3, outward: V3) -> V3 {
    if front_face_s(dir, outward) {
        outward
    } else {
        v3_neg(outward)
    }
}

pub proof fn lemma_dot_raw_neg_right(a: V3, b: V3)
    ensures
        v3_dot_raw(a, v3_neg(b)) == -v3_dot_raw(a, b),
{
    assert(a.x * (-b.x) == -(a.x * b.x)) by (nonlinear_arith);
    assert(a.y * (-b.y) == -(a.y * b.y)) by (nonlinear_arith);
    assert(a.z * (-b.z) == -(a.z * b.z)) by (nonlinear_arith);
}

/// The reported normal never points with the incoming ray.
pub proof fn lemma_oriented_normal_opposes(dir: V3, outward: V3)
    ensures
        v3_dot_raw(dir, oriented_normal(dir, outward)) <= 0,
{
    if !front_face_s(dir, outward) {
        lemma_dot_raw_neg_right(dir, outward);
    }
}

/// A well-formed record: point and normal inside the ranges the scattering
/// arithmetic is proved against, and a material index inside the arena.
pub open spec fn rec_wf(h: HitRecV, n_mats: int) -> bool {
    &&& v3_bounded(h.p, RAY_BOUND as int)
    &&& v3_bounded(h.normal, 2 * SCALE as int)
    &&& 0 <= h.mat < n_mats
    &&& -T_BOUND as int <= h.t <= T_BOUND as int
}

impl HitRecord {
    /// Chooses the side flag from the exact sign of the raw inner product
    /// and stores the outward normal flipped to oppose the ray.
    pub fn set_face_normal(&mut self, r: &Ray, outward_normal: &Vec3)
        requires
            v3_bounded(outward_normal@, 0x2000_0000_0000_0000),
            v3_bounded(r@.dir, 0x4000_0000_0000_0000),
        ensures
            final(self)@.front_face == front_face_s(r@.dir, outward_normal@),
            final(self)@.normal == oriented_normal(r@.dir, outward_normal@),
            final(self)@.p == old(self)@.p,
            final(self)@.t == old(self)@.t,
            final(self)@.mat == old(self)@.mat,
    {
        let d = dot_wide(&r.direction(), outward_normal);
        self.front_face = d < 0;
        self.normal = if self.front_face {
            *outward_normal
        } else {
            outward_normal.neg()
        };
    }
}

impl Default for HitRecord {
    fn default() -> (r: HitRecord)
        ensures
            r@.p == (V3 { x: 0, y: 0, z: 0 }),
            r@.normal == (V3 { x: SCALE as int, y: 0, z: 0 }),
            r@.t == 0,
            r@.front_face == false,
            r@.mat == 0,
    {
        HitRecord {
            p: Vec3::new(0, 0, 0),
            normal: Vec3::new(SCALE, 0, 0),
            t: 0,
            front_face: false,
            mat: 0,
        }
    }
}

/// The capability every piece of geometry offers: report the closest hit
/// inside a parameter range, exactly as its own hit specification says, and
/// expose a bounding box.
pub trait Hittable {
    /// What `hit` returns, as a mathematical function of ray and range.
    spec fn hit_spec(&self, r: RayV, t0: int, t1: int) -> Option<HitRecV>;

    /// Geometry well-formedness: coordinates inside the fixed-point range.
    spec fn wf(&self) -> bool;

    /// Every material index mentioned lies below `n`.
    spec fn mats_below(&self, n: int) -> bool;

    /// The box this geometry claims to fit in.
    spec fn bbox_s(&self) -> AabbV;

    /// Intersects the ray with this geometry over the given range; on a
    /// hit the record is overwritten, otherwise it is left alone.
    fn hit(&self, r: &Ray, ray_t: Interval, rec: &mut HitRecord) -> (res: bool)
        requires
            self.wf(),
            ray_wf(r@),
            -T_BOUND as int <= ray_t@.min <= T_BOUND as int,
            -T_BOUND as int <= ray_t@.max <= T_BOUND as int,
        ensures
            res == self.hit_spec(r@, ray_t@.min, ray_t@.max).is_some(),
            res ==> final(rec)@ == self.hit_spec(r@, ray_t@.min, ray_t@.max).unwrap(),
            !res ==> final(rec)@ == old(rec)@,
    ;

    fn bounding_box(&self) -> (b: AABB)
        ensures
            b@ == self.bbox_s(),
    ;

    /// Any record the hit specification yields is well formed and lies in
    /// the queried range.
    proof fn lemma_hit_wf(&self, r: RayV, t0: int, t1: int, n: int)
        requires
            self.wf(),
            self.mats_below(n),
            ray_wf(r),
            -T_BOUND as int <= t0 <= T_BOUND as int,
            -T_BOUND as int <= t1 <= T_BOUND as int,
            self.hit_spec(r, t0, t1).is_some(),
        ensures
            rec_wf(self.hit_spec(r, t0, t1).unwrap(), n),
            t0 <= self.hit_spec(r, t0, t1).unwrap().t <= t1,
    ;
}

/// A concrete piece of scene geometry: the closed set of primitive shapes.
#[derive(Clone, Copy, Debug)]
pub enum Primitive {
    Sphere(Sphere),
    Quad(Quad),
}

pub open spec fn prim_hit_s(p: Primitive, r: RayV, t0: int, t1: int) -> Option<HitRecV> {
    match p {
        Primitive::Sphere(s) => sphere_hit_s(s, r, t0, t1),
        Primitive::Quad(q) => quad_hit_s(q, r, t0, t1),
    }
}

pub open spec fn prim_wf(p: Primitive) -> bool {
    match p {
        Primitive::Sphere(s) => sphere_wf(s),
        Primitive::Quad(q) => quad_wf(q),
    }
}

pub open spec fn prim_mat(p: Primitive) -> int {
    match p {
        Primitive::Sphere(s) => s.mat as int,
        Primitive::Quad(q) => q.mat as int,
    }
}

pub open spec fn prim_bbox_s(p: Primitive) -> AabbV {
    match p {
        Primitive::Sphere(s) => s.bbox@,
        Primitive::Quad(q) => q.bbox@,
    }
}

/// What every reported primitive hit satisfies: the parameter lies in the
/// queried range, the point is the computed ray point and sits inside the
/// primitive's own box, the normal is bounded and opposes the ray, and the
/// material index is the primitive's.
pub proof fn lemma_prim_props(p: Primitive, r: RayV, t0: int, t1: int)
    requires
        prim_wf(p),
        prim_hit_s(p, r, t0, t1).is_some(),
    ensures
        ({
            let h = prim_hit_s(p, r, t0, t1).unwrap();
            &&& t0 <= h.t <= t1
            &&& h.p == v3_ray_at(r, h.t)
            &&& pt_in_aabb(prim_bbox_s(p), h.p)
            &&& v3_bounded(h.p, RAY_BOUND as int)
            &&& v3_bounded(h.normal, 2 * SCALE as int)
            &&& h.mat == prim_mat(p)
            &&& v3_dot_raw(r.dir, h.normal) <= 0
        }),
{
    match p {
        Primitive::Sphere(s) => lemma_sphere_props(s, r, t0, t1),
        Primitive::Quad(q) => lemma_quad_props(q, r, t0, t1),
    }
}

/// Narrowing the far end of the range past a reported hit keeps the very
/// same hit; a miss stays a miss under narrowing.
pub proof fn lemma_prim_narrow(p: Primitive, r: RayV, t0: int, t1: int, tc: int)
    requires
        tc <= t1,
    ensures
        prim_hit_s(p, r, t0, t1).is_some() && prim_hit_s(p, r, t0, t1).unwrap().t < tc
            ==> prim_hit_s(p, r, t0, tc) == prim_hit_s(p, r, t0, t1),
        prim_hit_s(p, r, t0, t1).is_none() ==> prim_hit_s(p, r, t0, tc).is_none(),
{
    match p {
        Primitive::Sphere(s) => lemma_sphere_narrow(s, r, t0, t1, tc),
        Primitive::Quad(q) => lemma_quad_narrow(q, r, t0, t1, tc),
    }
}

/// A hit found in a narrower range is the hit of the wider range.
pub proof fn lemma_prim_widen(p: Primitive, r: RayV, t0: int, tc: int, t1: int)
    requires
        tc <= t1,
        prim_hit_s(p, r, t0, tc).is_some(),
    ensures
        prim_hit_s(p, r, t0, t1) == prim_hit_s(p, r, t0, tc),
{
    match p {
        Primitive::Sphere(s) => lemma_sphere_widen(s, r, t0, tc, t1),
        Primitive::Quad(q) => lemma_quad_widen(q, r, t0, tc, t1),
    }
}

impl Primitive {
    pub fn hit(&self, r: &Ray, ray_t: Interval, rec: &mut HitRecord) -> (res: bool)
        requires
            prim_wf(*self),
            ray_wf(r@),
            -T_BOUND as int <= ray_t@.min <= T_BOUND as int,
            -T_BOUND as int <= ray_t@.max <= T_BOUND as int,
        ensures
            res == prim_hit_s(*self, r@, ray_t@.min, ray_t@.max).is_some(),
            res ==> final(rec)@ == prim_hit_s(*self, r@, ray_t@.min, ray_t@.max).unwrap(),
            !res ==> final(rec)@ == old(rec)@,
    {
        match self {
            Primitive::Sphere(s) => s.hit(r, ray_t, rec),
            Primitive::Quad(q) => q.hit(r, ray_t, rec),
        }
    }

    pub fn bounding_box(&self) -> (b: AABB)
        ensures
            b@ == prim_bbox_s(*self),
    {
        match self {
            Primitive::Sphere(s) => s.bounding_box(),
            Primitive::Quad(q) => q.bounding_box(),
        }
    }
}

} // verus!
