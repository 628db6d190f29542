use vstd::prelude::*;

verus! {

use crate::fx::{
    div_ceil_i128, div_floor_i128, fx_mul_s, lemma_dceil_char, lemma_dfloor_char,
};
use crate::interval::{iv_contains, iv_expand, iv_size, iv_union, iv_wf, Interval, IvV, IV_INF};
use crate::ray::{ray_axis_at, v3_ray_at, Ray, RayV};
use crate::vec3::{v3_bounded, Vec3, V3};

/// An axis-aligned bounding box: one closed interval per axis. After
/// construction every axis has thickness at least PAD_DELTA, so an
/// axis-aligned quad still gets a box a ray can strike from either side.
#[derive(Clone, Copy, Debug, PartialEq, Eq, Structural)]
pub struct AABB {
    pub x: Interval,
    pub y: Interval,
    pub z: Interval,
}

/// The mathematical shadow of a box.
pub ghost struct AabbV {
    pub x: IvV,
    pub y: IvV,
    pub z: IvV,
}

impl View for AABB {
    type V = AabbV;

    open spec fn view(&self) -> AabbV {
        AabbV { x: self.x@, y: self.y@, z: self.z@ }
    }
}

/// The minimum thickness a constructed box guarantees on each axis.
pub const PAD_DELTA: i64 = 8;

pub open spec fn pt_in_aabb(b: AabbV, p: V3) -> bool {
    iv_contains(b.x, p.x) && iv_contains(b.y, p.y) && iv_contains(b.z, p.z)
}

pub open spec fn aabb_union(a: AabbV, b: AabbV) -> AabbV {
    AabbV { x: iv_union(a.x, b.x), y: iv_union(a.y, b.y), z: iv_union(a.z, b.z) }
}

/// `outer` encloses `inner` on every axis.
pub open spec fn aabb_contains_box(outer: AabbV, inner: AabbV) -> bool {
    &&& outer.x.min <= inner.x.min && inner.x.max <= outer.x.max
    &&& outer.y.min <= inner.y.min && inner.y.max <= outer.y.max
    &&& outer.z.min <= inner.z.min && inner.z.max <= outer.z.max
}

pub open spec fn iv_pad(iv: IvV) -> IvV {
    if iv_size(iv) < PAD_DELTA as int {
        iv_expand(iv, PAD_DELTA as int)
    } else {
        iv
    }
}

/// Every axis brought up to the minimum thickness.
pub open spec fn aabb_pad(b: AabbV) -> AabbV {
    AabbV { x: iv_pad(b.x), y: iv_pad(b.y), z: iv_pad(b.z) }
}

pub open spec fn iv_of_points(a: int, b: int) -> IvV {
    if a <= b {
        IvV { min: a, max: b }
    } else {
        IvV { min: b, max: a }
    }
}

/// The padded box with the two points at opposite corners.
pub open spec fn aabb_from_points(a: V3, b: V3) -> AabbV {
    aabb_pad(
        AabbV {
            x: iv_of_points(a.x, b.x),
            y: iv_of_points(a.y, b.y),
            z: iv_of_points(a.z, b.z),
        },
    )
}

/// The empty box as constructed: far-apart bounds brought to minimum
/// thickness.
pub open spec fn aabb_empty_s() -> AabbV {
    aabb_pad(
        AabbV {
            x: IvV { min: IV_INF as int, max: -IV_INF as int },
            y: IvV { min: IV_INF as int, max: -IV_INF as int },
            z: IvV { min: IV_INF as int, max: -IV_INF as int },
        },
    )
}

/// Every axis has at least the minimum thickness.
pub open spec fn aabb_sized(b: AabbV) -> bool {
    iv_size(b.x) >= PAD_DELTA as int && iv_size(b.y) >= PAD_DELTA as int && iv_size(b.z)
        >= PAD_DELTA as int
}

pub open spec fn aabb_wf(b: AabbV, bound: int) -> bool {
    iv_wf(b.x, bound) && iv_wf(b.y, bound) && iv_wf(b.z, bound)
}

/// Some integer ray parameter inside [t0, t1] lands the computed ray point
/// inside the box. This is the exact statement the slab test decides.
pub open spec fn aabb_hit_s(b: AabbV, r: RayV, t0: int, t1: int) -> bool {
    exists|t: int| t0 <= t <= t1 && pt_in_aabb(b, v3_ray_at(r, t))
}

/// The longest axis: 0, 1 or 2, ties resolved toward the later axis.
pub open spec fn longest_axis_s(b: AabbV) -> int {
    if iv_size(b.x) > iv_size(b.y) {
        if iv_size(b.x) > iv_size(b.z) {
            0
        } else {
            2
        }
    } else {
        if iv_size(b.y) > iv_size(b.z) {
            1
        } else {
            2
        }
    }
}

/// Clips the running parameter range [tlo, thi] to those integer `t` whose
/// computed coordinate o + floor(t * d / SCALE) lies in [lo, hi].
fn axis_clip(o: i64, d: i64, lo: i64, hi: i64, tlo: i128, thi: i128) -> (res: (i128, i128))
    requires
        -0x1_0000_0000_0000_0000_0000 <= tlo <= 0x1_0000_0000_0000_0000_0000,
        -0x1_0000_0000_0000_0000_0000 <= thi <= 0x1_0000_0000_0000_0000_0000,
    ensures
        -0x1_0000_0000_0000_0000_0000 <= res.0 <= 0x1_0000_0000_0000_0000_0000,
        -0x1_0000_0000_0000_0000_0000 <= res.1 <= 0x1_0000_0000_0000_0000_0000,
        forall|t: int|
            (res.0 <= t <= res.1) <==> (tlo as int <= t <= thi as int && iv_contains(
                IvV { min: lo as int, max: hi as int },
                #[trigger] ray_axis_at(o as int, d as int, t),
            )),
{
    if d == 0 {
        if lo <= o && o <= hi {
            proof {
                assert forall|t: int| iv_contains(
                    IvV { min: lo as int, max: hi as int },
                    ray_axis_at(o as int, d as int, t),
                ) by {
                    assert(fx_mul_s(t, 0) == 0);
                }
            }
            (tlo, thi)
        } else {
            proof {
                assert forall|t: int| !iv_contains(
                    IvV { min: lo as int, max: hi as int },
                    ray_axis_at(o as int, d as int, t),
                ) by {
                    assert(fx_mul_s(t, 0) == 0);
                }
            }
            (1, 0)
        }
    } else if d > 0 {
        let m: i128 = (lo as i128 - o as i128) * 65536;
        let ta = div_ceil_i128(m, d as i128);
        let hv: i128 = (hi as i128 - o as i128 + 1) * 65536 - 1;
        let tb = div_floor_i128(hv, d as i128);
        let nlo = if tlo >= ta { tlo } else { ta };
        let nhi = if thi <= tb { thi } else { tb };
        proof {
            assert forall|t: int|
                (nlo as int <= t <= nhi as int) <==> (tlo as int <= t <= thi as int
                    && iv_contains(
                    IvV { min: lo as int, max: hi as int },
                    ray_axis_at(o as int, d as int, t),
                )) by {
                lemma_dfloor_char(lo as int - o as int, t * (d as int), 65536);
                lemma_dceil_char(t, (lo as int - o as int) * 65536, d as int);
                lemma_dfloor_char(hi as int - o as int + 1, t * (d as int), 65536);
                lemma_dfloor_char(t, hv as int, d as int);
            }
        }
        (nlo, nhi)
    } else {
        let m: i128 = (lo as i128 - o as i128) * 65536;
        let tb = -div_ceil_i128(m, -(d as i128));
        let hv: i128 = (hi as i128 - o as i128 + 1) * 65536 - 1;
        let ta = -div_floor_i128(hv, -(d as i128));
        let nlo = if tlo >= ta { tlo } else { ta };
        let nhi = if thi <= tb { thi } else { tb };
        proof {
            assert forall|t: int|
                (nlo as int <= t <= nhi as int) <==> (tlo as int <= t <= thi as int
                    && iv_contains(
                    IvV { min: lo as int, max: hi as int },
                    ray_axis_at(o as int, d as int, t),
                )) by {
                assert((-t) * (-(d as int)) == t * (d as int)) by (nonlinear_arith);
                lemma_dfloor_char(lo as int - o as int, t * (d as int), 65536);
                lemma_dceil_char(-t, (lo as int - o as int) * 65536, -(d as int));
                lemma_dfloor_char(hi as int - o as int + 1, t * (d as int), 65536);
                lemma_dfloor_char(-t, hv as int, -(d as int));
            }
        }
        (nlo, nhi)
    }
}

impl AABB {
    /// The three intervals brought to minimum thickness.
    pub fn new(x: Interval, y: Interval, z: Interval) -> (r: AABB)
        requires
            iv_wf(x@, 0x1000_0000_0000_0000),
            iv_wf(y@, 0x1000_0000_0000_0000),
            iv_wf(z@, 0x1000_0000_0000_0000),
        ensures
            r@ == aabb_pad(AabbV { x: x@, y: y@, z: z@ }),
    {
        let mut aabb = AABB { x, y, z };
        aabb.pad_to_min();
        aabb
    }

    /// The padded box with the two points at opposite corners.
    pub fn from_points(a: Vec3, b: Vec3) -> (r: AABB)
        requires
            v3_bounded(a@, 0x1000_0000_0000_0000),
            v3_bounded(b@, 0x1000_0000_0000_0000),
        ensures
            r@ == aabb_from_points(a@, b@),
    {
        let x = if a.x <= b.x {
            Interval::new(a.x, b.x)
        } else {
            Interval::new(b.x, a.x)
        };
        let y = if a.y <= b.y {
            Interval::new(a.y, b.y)
        } else {
            Interval::new(b.y, a.y)
        };
        let z = if a.z <= b.z {
            Interval::new(a.z, b.z)
        } else {
            Interval::new(b.z, a.z)
        };
        AABB::new(x, y, z)
    }

    /// The padded union of two boxes.
    pub fn from_boxes(box0: &AABB, box1: &AABB) -> (r: AABB)
        requires
            aabb_wf(box0@, 0x800_0000_0000_0000),
            aabb_wf(box1@, 0x800_0000_0000_0000),
        ensures
            r@ == aabb_pad(aabb_union(box0@, box1@)),
    {
        let x = Interval::from_intervals(&box0.x, &box1.x);
        let y = Interval::from_intervals(&box0.y, &box1.y);
        let z = Interval::from_intervals(&box0.z, &box1.z);
        AABB::new(x, y, z)
    }

    fn pad_to_min(&mut self)
        requires
            aabb_wf(old(self)@, 0x1000_0000_0000_0000),
        ensures
            final(self)@ == aabb_pad(old(self)@),
    {
        let delta = PAD_DELTA;
        if self.x.size() < delta {
            self.x = self.x.expand(delta);
        }
        if self.y.size() < delta {
            self.y = self.y.expand(delta);
        }
        if self.z.size() < delta {
            self.z = self.z.expand(delta);
        }
    }

    pub fn axis_interval(&self, n: i32) -> (r: Interval)
        ensures
            n == 1 ==> r == self.y,
            n == 2 ==> r == self.z,
            (n != 1 && n != 2) ==> r == self.x,
    {
        match n {
            1 => self.y,
            2 => self.z,
            _ => self.x,
        }
    }

    /// The exact slab test: whether any integer parameter strictly inside
    /// the query range puts the computed ray point inside the box.
    pub fn hit(&self, r: &Ray, ray_t: Interval) -> (res: bool)
        ensures
            res == aabb_hit_s(self@, r@, ray_t@.min, ray_t@.max),
    {
        let t0 = ray_t.min;
        let t1 = ray_t.max;
        let tlo: i128 = t0 as i128;
        let thi: i128 = t1 as i128;
        let rx = axis_clip(r.orig.x, r.dir.x, self.x.min, self.x.max, tlo, thi);
        let ry = axis_clip(r.orig.y, r.dir.y, self.y.min, self.y.max, rx.0, rx.1);
        let rz = axis_clip(r.orig.z, r.dir.z, self.z.min, self.z.max, ry.0, ry.1);
        if rz.0 <= rz.1 {
            proof {
                let t = rz.0 as int;
                assert(pt_in_aabb(self@, v3_ray_at(r@, t)));
                assert(ray_t@.min <= t <= ray_t@.max);
            }
            true
        } else {
            proof {
                assert forall|t: int|
                    !(ray_t@.min <= t <= ray_t@.max && pt_in_aabb(
                        self@,
                        #[trigger] v3_ray_at(r@, t),
                    )) by {
                    assert(v3_ray_at(r@, t).x == ray_axis_at(r@.orig.x, r@.dir.x, t));
                    assert(v3_ray_at(r@, t).y == ray_axis_at(r@.orig.y, r@.dir.y, t));
                    assert(v3_ray_at(r@, t).z == ray_axis_at(r@.orig.z, r@.dir.z, t));
                }
            }
            false
        }
    }

    /// Whether the point lies inside the box (all bounds inclusive).
    pub fn contains_point(&self, p: &Vec3) -> (res: bool)
        ensures
            res == pt_in_aabb(self@, p@),
    {
        self.x.contains(p.x) && self.y.contains(p.y) && self.z.contains(p.z)
    }

    /// The index of the axis with the largest extent.
    pub fn longest_axis(&self) -> (r: i32)
        requires
            aabb_wf(self@, 0x1000_0000_0000_0000),
        ensures
            r as int == longest_axis_s(self@),
            0 <= r <= 2,
    {
        if self.x.size() > self.y.size() {
            if self.x.size() > self.z.size() {
                0
            } else {
                2
            }
        } else {
            if self.y.size() > self.z.size() {
                1
            } else {
                2
            }
        }
    }

    /// The box that contains nothing.
    pub fn empty() -> (r: AABB)
        ensures
            r@ == aabb_empty_s(),
    {
        AABB::new(
            Interval::new(IV_INF, -IV_INF),
            Interval::new(IV_INF, -IV_INF),
            Interval::new(IV_INF, -IV_INF),
        )
    }

    /// The box that contains every representable point.
    pub fn universe() -> (r: AABB)
        ensures
            r@ == aabb_pad(
                AabbV {
                    x: IvV { min: -IV_INF as int, max: IV_INF as int },
                    y: IvV { min: -IV_INF as int, max: IV_INF as int },
                    z: IvV { min: -IV_INF as int, max: IV_INF as int },
                },
            ),
    {
        AABB::new(
            Interval::new(-IV_INF, IV_INF),
            Interval::new(-IV_INF, IV_INF),
            Interval::new(-IV_INF, IV_INF),
        )
    }
}

impl Default for AABB {
    /// The default box is empty.
    fn default() -> (r: AABB)
        ensures
            r@ == aabb_empty_s(),
    {
        AABB::empty()
    }
}

} // verus!
