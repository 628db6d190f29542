use vstd::prelude::*;

verus! {

use crate::aabb::{aabb_empty_s, aabb_pad, aabb_union, aabb_wf, AabbV, AABB};
use crate::fx::T_BOUND;
use crate::hittable::{
    lemma_prim_narrow, lemma_prim_props, lemma_prim_widen, prim_bbox_s, prim_hit_s, prim_mat,
    prim_wf, HitRecV, HitRecord, Hittable, Primitive,
};
use crate::interval::Interval;
use crate::ray::{ray_wf, Ray, RayV};
use vstd::seq_lib::group_seq_properties;

/// An unordered, brute-force group of primitives with a running union box:
/// its hit is the closest hit of its members.
pub struct HittableList {
    pub objects: Vec<Primitive>,
    pub bbox: AABB,
}

/// The far bound the next primitive is queried against: the closest hit
/// found so far, or the original far bound when nothing was hit yet.
pub open spec fn cur_max(prev: Option<HitRecV>, t1: int) -> int {
    match prev {
        Some(h) => h.t,
        None => t1,
    }
}

/// The result of scanning the primitives in order, querying each over the
/// range narrowed to the closest hit found so far: exactly what the
/// brute-force loop computes, and the reference every acceleration
/// structure is held to.
pub open spec fn scan_hit(s: Seq<Primitive>, r: RayV, t0: int, t1: int) -> Option<HitRecV>
    decreases s.len(),
{
    if s.len() == 0 {
        None
    } else {
        let prev = scan_hit(s.drop_last(), r, t0, t1);
        match prim_hit_s(s.last(), r, t0, cur_max(prev, t1)) {
            Some(h) => Some(h),
            None => prev,
        }
    }
}

pub open spec fn all_prims_wf(s: Seq<Primitive>) -> bool {
    forall|i: int| 0 <= i < s.len() ==> prim_wf(#[trigger] s[i])
}

pub open spec fn all_mats_below(s: Seq<Primitive>, n: int) -> bool {
    forall|i: int| 0 <= i < s.len() ==> 0 <= prim_mat(#[trigger] s[i]) < n
}

/// The scan result is some member's own hit over the full range.
pub open spec fn scan_found(s: Seq<Primitive>, r: RayV, t0: int, t1: int, rec: HitRecV) -> bool {
    exists|i: int|
        0 <= i < s.len() && #[trigger] prim_hit_s(s[i], r, t0, t1) == Some::<HitRecV>(rec)
}

/// No member reports a parameter below the scan result's.
pub open spec fn scan_minimal(s: Seq<Primitive>, r: RayV, t0: int, t1: int, rec: HitRecV) -> bool {
    forall|i: int|
        0 <= i < s.len() && (#[trigger] prim_hit_s(s[i], r, t0, t1)).is_some()
            ==> prim_hit_s(s[i], r, t0, t1).unwrap().t >= rec.t
}

/// Every member misses over the full range.
pub open spec fn scan_all_miss(s: Seq<Primitive>, r: RayV, t0: int, t1: int) -> bool {
    forall|i: int| 0 <= i < s.len() ==> (#[trigger] prim_hit_s(s[i], r, t0, t1)).is_none()
}

/// The order-free characterization of the scan: a hit is some member's
/// hit with the least parameter among all members' hits, and a miss means
/// every member misses. This is the closest-hit property.
pub proof fn lemma_scan_props(s: Seq<Primitive>, r: RayV, t0: int, t1: int)
    requires
        all_prims_wf(s),
    ensures
        match scan_hit(s, r, t0, t1) {
            Some(rec) => scan_found(s, r, t0, t1, rec) && scan_minimal(s, r, t0, t1, rec) && t0
                <= rec.t <= t1,
            None => scan_all_miss(s, r, t0, t1),
        },
    decreases s.len(),
{
    broadcast use group_seq_properties;

    if s.len() == 0 {
    } else {
        let pre = s.drop_last();
        assert(all_prims_wf(pre)) by {
            assert(forall|i: int| 0 <= i < pre.len() ==> pre[i] == s[i]);
        }
        lemma_scan_props(pre, r, t0, t1);
        let prev = scan_hit(pre, r, t0, t1);
        let cm = cur_max(prev, t1);
        let lastp = s.last();
        assert(lastp == s[s.len() - 1]);
        assert(prim_wf(lastp));
        match prim_hit_s(lastp, r, t0, cm) {
            Some(h) => {
                lemma_prim_props(lastp, r, t0, cm);
                lemma_prim_widen(lastp, r, t0, cm, t1);
                assert(prim_hit_s(s[s.len() - 1], r, t0, t1) == Some(h));
                assert(scan_found(s, r, t0, t1, h));
                assert forall|i: int|
                    0 <= i < s.len() && (#[trigger] prim_hit_s(s[i], r, t0, t1)).is_some()
                        implies prim_hit_s(s[i], r, t0, t1).unwrap().t >= h.t by {
                    if i < s.len() - 1 {
                        assert(pre[i] == s[i]);
                        match prev {
                            Some(ph) => {
                                assert(prim_hit_s(pre[i], r, t0, t1).unwrap().t >= ph.t);
                                assert(h.t <= ph.t);
                            },
                            None => {
                                assert(prim_hit_s(pre[i], r, t0, t1).is_none());
                            },
                        }
                    }
                }
            },
            None => {
                match prev {
                    Some(ph) => {
                        assert(scan_found(pre, r, t0, t1, ph));
                        assert(scan_found(s, r, t0, t1, ph)) by {
                            let i = choose|i: int|
                                0 <= i < pre.len() && #[trigger] prim_hit_s(pre[i], r, t0, t1)
                                    == Some::<HitRecV>(ph);
                            assert(s[i] == pre[i]);
                            assert(prim_hit_s(s[i], r, t0, t1) == Some::<HitRecV>(ph));
                        }
                        assert forall|i: int|
                            0 <= i < s.len() && (#[trigger] prim_hit_s(s[i], r, t0, t1)).is_some()
                                implies prim_hit_s(s[i], r, t0, t1).unwrap().t >= ph.t by {
                            if i < s.len() - 1 {
                                assert(pre[i] == s[i]);
                            } else {
                                // the last member missed the narrowed range,
                                // so any hit of it lies at or past the bound
                                let hl = prim_hit_s(lastp, r, t0, t1).unwrap();
                                lemma_prim_narrow(lastp, r, t0, t1, cm);
                                assert(!(hl.t < cm));
                            }
                        }
                    },
                    None => {
                        assert(cm == t1);
                        assert forall|i: int| 0 <= i < s.len() implies (#[trigger] prim_hit_s(
                            s[i],
                            r,
                            t0,
                            t1,
                        )).is_none() by {
                            if i < s.len() - 1 {
                                assert(pre[i] == s[i]);
                            }
                        }
                    },
                }
            },
        }
    }
}

/// Scanning a concatenation is scanning the first part, then the second
/// over the range narrowed to the first part's result.
pub proof fn lemma_scan_concat(s1: Seq<Primitive>, s2: Seq<Primitive>, r: RayV, t0: int, t1: int)
    ensures
        scan_hit(s1 + s2, r, t0, t1) == (match scan_hit(
            s2,
            r,
            t0,
            cur_max(scan_hit(s1, r, t0, t1), t1),
        ) {
            Some(h) => Some(h),
            None => scan_hit(s1, r, t0, t1),
        }),
    decreases s2.len(),
{
    broadcast use group_seq_properties;

    let a = scan_hit(s1, r, t0, t1);
    let cma = cur_max(a, t1);
    if s2.len() == 0 {
        assert(s1 + s2 =~= s1);
    } else {
        assert((s1 + s2).drop_last() =~= s1 + s2.drop_last());
        assert((s1 + s2).last() == s2.last());
        lemma_scan_concat(s1, s2.drop_last(), r, t0, t1);
    }
}

/// The two sequences hold exactly the same primitives, multiplicity and
/// order aside.
pub open spec fn same_elements(s1: Seq<Primitive>, s2: Seq<Primitive>) -> bool {
    forall|x: Primitive| #![trigger s1.contains(x)] #![trigger s2.contains(x)]
        s1.contains(x) <==> s2.contains(x)
}

/// Sequences with equal multisets hold the same elements.
pub proof fn lemma_multiset_to_same_elements(s1: Seq<Primitive>, s2: Seq<Primitive>)
    requires
        s1.to_multiset() == s2.to_multiset(),
    ensures
        same_elements(s1, s2),
{
    broadcast use vstd::seq_lib::group_to_multiset_ensures;

    assert forall|x: Primitive| #![trigger s1.contains(x)] #![trigger s2.contains(x)]
        s1.contains(x) <==> s2.contains(x) by {
        assert(s1.contains(x) <==> s1.to_multiset().count(x) > 0);
        assert(s2.contains(x) <==> s2.to_multiset().count(x) > 0);
    }
}

/// Two member sequences holding the same primitives agree on whether
/// anything is hit and on the closest parameter: the scan outcome, up to
/// the choice among simultaneous equal-parameter hits, does not depend on
/// order or duplication.
pub proof fn lemma_scan_set_agree(
    s1: Seq<Primitive>,
    s2: Seq<Primitive>,
    r: RayV,
    t0: int,
    t1: int,
)
    requires
        all_prims_wf(s1),
        all_prims_wf(s2),
        same_elements(s1, s2),
    ensures
        scan_hit(s1, r, t0, t1).is_some() == scan_hit(s2, r, t0, t1).is_some(),
        scan_hit(s1, r, t0, t1).is_some() ==> scan_hit(s1, r, t0, t1).unwrap().t == scan_hit(
            s2,
            r,
            t0,
            t1,
        ).unwrap().t,
{
    lemma_scan_props(s1, r, t0, t1);
    lemma_scan_props(s2, r, t0, t1);
    match scan_hit(s1, r, t0, t1) {
        Some(r1) => {
            let i = choose|i: int|
                0 <= i < s1.len() && #[trigger] prim_hit_s(s1[i], r, t0, t1) == Some::<HitRecV>(
                    r1,
                );
            assert(s1.contains(s1[i]));
            assert(s2.contains(s1[i]));
            let j = choose|j: int| 0 <= j < s2.len() && s2[j] == s1[i];
            assert(prim_hit_s(s2[j], r, t0, t1) == Some::<HitRecV>(r1));
            match scan_hit(s2, r, t0, t1) {
                Some(r2) => {
                    assert(r2.t <= r1.t);
                    let k = choose|k: int|
                        0 <= k < s2.len() && #[trigger] prim_hit_s(s2[k], r, t0, t1) == Some::<
                            HitRecV,
                        >(r2);
                    assert(s2.contains(s2[k]));
                    assert(s1.contains(s2[k]));
                    let m = choose|m: int| 0 <= m < s1.len() && s1[m] == s2[k];
                    assert(prim_hit_s(s1[m], r, t0, t1) == Some::<HitRecV>(r2));
                    assert(r1.t <= r2.t);
                },
                None => {
                    assert(prim_hit_s(s2[j], r, t0, t1).is_none());
                },
            }
        },
        None => {
            match scan_hit(s2, r, t0, t1) {
                Some(r2) => {
                    let k = choose|k: int|
                        0 <= k < s2.len() && #[trigger] prim_hit_s(s2[k], r, t0, t1) == Some::<
                            HitRecV,
                        >(r2);
                    assert(s2.contains(s2[k]));
                    assert(s1.contains(s2[k]));
                    let m = choose|m: int| 0 <= m < s1.len() && s1[m] == s2[k];
                    assert(prim_hit_s(s1[m], r, t0, t1).is_none());
                },
                None => {},
            }
        },
    }
}

/// When no two distinct primitives can strike the ray at the same
/// parameter, the scans agree on the whole record, not only on the
/// parameter.
pub proof fn lemma_scan_set_agree_full(
    s1: Seq<Primitive>,
    s2: Seq<Primitive>,
    r: RayV,
    t0: int,
    t1: int,
)
    requires
        all_prims_wf(s1),
        all_prims_wf(s2),
        same_elements(s1, s2),
        forall|x: Primitive, y: Primitive|
            s1.contains(x) && s1.contains(y) && x != y && (#[trigger] prim_hit_s(
                x,
                r,
                t0,
                t1,
            )).is_some() && (#[trigger] prim_hit_s(y, r, t0, t1)).is_some() ==> prim_hit_s(
                x,
                r,
                t0,
                t1,
            ).unwrap().t != prim_hit_s(y, r, t0, t1).unwrap().t,
    ensures
        scan_hit(s1, r, t0, t1) == scan_hit(s2, r, t0, t1),
{
    lemma_scan_set_agree(s1, s2, r, t0, t1);
    lemma_scan_props(s1, r, t0, t1);
    lemma_scan_props(s2, r, t0, t1);
    match scan_hit(s1, r, t0, t1) {
        Some(r1) => {
            let r2 = scan_hit(s2, r, t0, t1).unwrap();
            let i = choose|i: int|
                0 <= i < s1.len() && #[trigger] prim_hit_s(s1[i], r, t0, t1) == Some::<HitRecV>(
                    r1,
                );
            let k = choose|k: int|
                0 <= k < s2.len() && #[trigger] prim_hit_s(s2[k], r, t0, t1) == Some::<HitRecV>(
                    r2,
                );
            assert(s1.contains(s1[i]));
            assert(s2.contains(s2[k]));
            assert(s1.contains(s2[k]));
            if s1[i] != s2[k] {
                assert(r1.t != r2.t);
            }
        },
        None => {},
    }
}

impl HittableList {
    /// A group holding one object, its box already enclosing that
    /// object's box, exactly as one `add` to an empty group leaves it.
    pub fn new(object: Primitive) -> (r: HittableList)
        requires
            prim_wf(object),
        ensures
            r.objects@ =~= seq![object],
            r.bbox@ == aabb_pad(aabb_union(aabb_empty_s(), prim_bbox_s(object))),
            crate::aabb::aabb_contains_box(r.bbox@, prim_bbox_s(object)),
            aabb_wf(r.bbox@, 0x1_0000_0000_0000),
    {
        let mut list = HittableList::default();
        list.add(object);
        list
    }

    pub fn clear(&mut self)
        ensures
            final(self).objects@ =~= Seq::<Primitive>::empty(),
            final(self).bbox == old(self).bbox,
    {
        self.objects.clear();
    }

    /// Appends an object and grows the running union box around its box.
    pub fn add(&mut self, object: Primitive)
        requires
            prim_wf(object),
            aabb_wf(old(self).bbox@, 0x1_0000_0000_0000),
        ensures
            final(self).objects@ =~= old(self).objects@.push(object),
            final(self).bbox@ == aabb_pad(aabb_union(old(self).bbox@, prim_bbox_s(object))),
            aabb_wf(final(self).bbox@, 0x1_0000_0000_0000),
    {
        let obox = object.bounding_box();
        self.bbox = AABB::from_boxes(&self.bbox, &obox);
        self.objects.push(object);
    }
}

impl Default for HittableList {
    /// An empty group with an empty box.
    fn default() -> (r: HittableList)
        ensures
            r.objects@ =~= Seq::<Primitive>::empty(),
            r.bbox@ == aabb_empty_s(),
    {
        HittableList { objects: Vec::new(), bbox: AABB::default() }
    }
}

impl Hittable for HittableList {
    open spec fn hit_spec(&self, r: RayV, t0: int, t1: int) -> Option<HitRecV> {
        scan_hit(self.objects@, r, t0, t1)
    }

    open spec fn wf(&self) -> bool {
        all_prims_wf(self.objects@)
    }

    open spec fn mats_below(&self, n: int) -> bool {
        all_mats_below(self.objects@, n)
    }

    open spec fn bbox_s(&self) -> AabbV {
        self.bbox@
    }

    /// The brute-force scan: each member is queried over the range
    /// narrowed to the closest hit found so far, and only a strictly
    /// closer (or, for an inclusive member, equally close) hit overwrites
    /// the record.
    fn hit(&self, r: &Ray, ray_t: Interval, rec: &mut HitRecord) -> (res: bool)
    {
        let ghost t0 = ray_t@.min;
        let ghost t1 = ray_t@.max;
        let mut temp = HitRecord::default();
        let mut hit_anything = false;
        let mut closest = ray_t.max;
        let n = self.objects.len();
        let mut i: usize = 0;
        while i < n
            invariant
                n == self.objects@.len(),
                0 <= i <= n,
                all_prims_wf(self.objects@),
                ray_wf(r@),
                -T_BOUND as int <= t0 <= T_BOUND as int,
                -T_BOUND as int <= t1 <= T_BOUND as int,
                -T_BOUND as int <= closest as int <= T_BOUND as int,
                ray_t@.min == t0 && ray_t@.max == t1,
                ({
                    let cur = scan_hit(self.objects@.take(i as int), r@, t0, t1);
                    &&& closest as int == cur_max(cur, t1)
                    &&& match cur {
                        Some(h) => hit_anything && rec@ == h,
                        None => !hit_anything && rec@ == old(rec)@,
                    }
                }),
            decreases n - i,
        {
            let ghost pre = self.objects@.take(i as int);
            let ghost cur = scan_hit(pre, r@, t0, t1);
            let narrowed = Interval::new(ray_t.min, closest);
            let was_hit = self.objects[i].hit(r, narrowed, &mut temp);
            proof {
                assert(self.objects@.take(i as int + 1).drop_last() =~= pre);
                assert(self.objects@.take(i as int + 1).last() == self.objects@[i as int]);
                if was_hit {
                    lemma_prim_props(self.objects@[i as int], r@, t0, closest as int);
                }
            }
            if was_hit {
                hit_anything = true;
                closest = temp.t;
                *rec = temp;
            }
            i = i + 1;
        }
        proof {
            assert(self.objects@.take(n as int) =~= self.objects@);
        }
        hit_anything
    }

    fn bounding_box(&self) -> (b: AABB) {
        self.bbox
    }

    proof fn lemma_hit_wf(&self, r: RayV, t0: int, t1: int, n: int) {
        lemma_scan_props(self.objects@, r, t0, t1);
        let rec = scan_hit(self.objects@, r, t0, t1).unwrap();
        let i = choose|i: int|
            0 <= i < self.objects@.len() && #[trigger] prim_hit_s(self.objects@[i], r, t0, t1)
                == Some::<HitRecV>(rec);
        lemma_prim_props(self.objects@[i], r, t0, t1);
    }
}


/// A group with no members misses every ray: each colour query for it
/// resolves to the pure background.
pub proof fn lemma_empty_scene_misses(objects: Seq<Primitive>, r: RayV, t0: int, t1: int)
    requires
        objects.len() == 0,
    ensures
        scan_hit(objects, r, t0, t1).is_none(),
{
}

/// Whatever geometry produced it, a reported record's normal never points
/// with the incoming ray.
pub proof fn lemma_scan_normal_opposes(s: Seq<Primitive>, r: RayV, t0: int, t1: int)
    requires
        all_prims_wf(s),
        scan_hit(s, r, t0, t1).is_some(),
    ensures
        crate::vec3::v3_dot_raw(r.dir, scan_hit(s, r, t0, t1).unwrap().normal) <= 0,
{
    lemma_scan_props(s, r, t0, t1);
    let rec = scan_hit(s, r, t0, t1).unwrap();
    let i = choose|i: int|
        0 <= i < s.len() && #[trigger] prim_hit_s(s[i], r, t0, t1) == Some::<HitRecV>(rec);
    lemma_prim_props(s[i], r, t0, t1);
}

} // verus!
