use vstd::prelude::*;

verus! {

use crate::color::Color;
use crate::fx::{
    dfloor, fx_div, fx_div_s, fx_mul, fx_mul_s, fx_sqrt, lemma_dfloor_bound, lemma_fx_div_bound,
    lemma_fx_mul_bound, SCALE,
};
use crate::hittable::HitRecV;
use crate::hittable::HitRecord;
use crate::libs::rand_double;
use crate::ray::{ray_wf, Ray, RayV};
use crate::vec3::{
    dot_wide, lemma_dot_raw_bound, lemma_v3_scale_bound, unit_sample_ok, v3_add, v3_bounded,
    v3_dot_raw, v3_neg, v3_reflect, v3_refract, v3_scale, v3_unit, Vec3, V3,
};

/// Every channel lies in [0, 1]: such a colour can only dim light, never
/// amplify it.
pub open spec fn color01(c: V3) -> bool {
    &&& 0 <= c.x <= SCALE as int
    &&& 0 <= c.y <= SCALE as int
    &&& 0 <= c.z <= SCALE as int
}

/// What a scatter call needs of the record it is handed.
pub open spec fn scatter_rec_wf(h: HitRecV) -> bool {
    v3_bounded(h.p, 0x4000_0000) && v3_bounded(h.normal, 2 * SCALE as int)
}

/// How light scatters off a surface: the call may draw random numbers, so
/// the contract states what holds of every outcome, and each material
/// refines it through `scatter_ok`.
pub trait Material {
    /// The material's own guarantee about any outcome of `scatter`.
    spec fn scatter_ok(
        &self,
        r_in: RayV,
        rec: HitRecV,
        attenuation: V3,
        scattered: RayV,
        b: bool,
    ) -> bool;

    /// The material's parameters lie in the fixed-point ranges the
    /// scattering arithmetic is proved against.
    spec fn wf(&self) -> bool;

    /// Decides whether the ray is scattered or absorbed; on scattering the
    /// attenuation and the outgoing ray are written.
    fn scatter(&self, r_in: &Ray, rec: &HitRecord, attenuation: &mut Color, scattered: &mut Ray)
        -> (b: bool)
        requires
            self.wf(),
            ray_wf(r_in@),
            scatter_rec_wf(rec@),
        ensures
            self.scatter_ok(r_in@, rec@, final(attenuation)@, final(scattered)@, b),
            b ==> ray_wf(final(scattered)@) && final(scattered)@.orig == rec@.p && color01(
                final(attenuation)@,
            ),
    ;
}

/// Ideal diffuse: always scatters toward the normal jittered by a random
/// unit vector, attenuated by the albedo.
pub struct Lambertian {
    pub albedo: Color,
}

/// Specular reflection perturbed by fuzz; a perturbed ray that would
/// re-enter the surface is absorbed instead.
pub struct Metal {
    pub albedo: Color,
    pub fuzz: i64,
}

/// Refractive with no absorption: each ray is either reflected or
/// refracted, never a blend.
pub struct Dielectric {
    pub ior: i64,
}

impl Lambertian {
    pub fn new(albedo: &Color) -> (r: Lambertian)
        ensures
            r.albedo == *albedo,
    {
        Lambertian { albedo: *albedo }
    }
}

impl Metal {
    /// Fuzz is brought back into [0, 1].
    pub fn new(albedo: &Color, fuzz: i64) -> (r: Metal)
        ensures
            r.albedo == *albedo,
            r.fuzz as int == (if fuzz < 0 {
                0
            } else if fuzz > SCALE as int {
                SCALE as int
            } else {
                fuzz as int
            }),
            0 <= r.fuzz <= SCALE,
    {
        let fuzz_c = if fuzz < 0 {
            0
        } else if fuzz > SCALE {
            SCALE
        } else {
            fuzz
        };
        Metal { albedo: *albedo, fuzz: fuzz_c }
    }
}

impl Dielectric {
    pub fn new(ior: i64) -> (r: Dielectric)
        ensures
            r.ior == ior,
    {
        Dielectric { ior }
    }

    /// The Schlick polynomial approximation of Fresnel reflectance.
    pub fn reflectance(cosine: i64, refraction_index: i64) -> (r: i64)
        requires
            -0x10_0000 <= cosine as int <= SCALE as int,
            1 <= refraction_index as int <= 4 * SCALE as int,
        ensures
            r as int == reflectance_s(cosine as int, refraction_index as int),
    {
        proof {
            lemma_fx_div_bound(
                SCALE as int - refraction_index as int,
                SCALE as int + refraction_index as int,
                3 * SCALE as int,
                SCALE as int,
            );
        }
        let r0 = fx_div(SCALE - refraction_index, SCALE + refraction_index);
        proof {
            assert(dfloor(3 * SCALE as int * SCALE as int, SCALE as int) == 196608);
            assert(-196609 <= r0 as int <= 196608);
            lemma_fx_mul_bound(r0 as int, r0 as int, 196609, 196609);
            assert((r0 as int) * (r0 as int) <= 196609 * 196609);
        }
        let r0sq = fx_mul(r0, r0);
        let p = SCALE - cosine;
        proof {
            lemma_fx_mul_bound(p as int, p as int, 0x20_0000, 0x20_0000);
        }
        let p2 = fx_mul(p, p);
        proof {
            lemma_fx_mul_bound(p2 as int, p2 as int, 0x800_0000, 0x800_0000);
        }
        let p4 = fx_mul(p2, p2);
        proof {
            lemma_fx_mul_bound(p4 as int, p as int, 0x80_0000_0000, 0x20_0000);
        }
        let p5 = fx_mul(p4, p);
        proof {
            lemma_fx_mul_bound(SCALE as int - r0sq as int, p5 as int, 0x40_0000, 0x2000_0000_0000);
        }
        r0sq + fx_mul(SCALE - r0sq, p5)
    }
}

/// The refraction geometry rules refraction out: the fixed-point sine of
/// the transmitted angle would exceed one, so the ray must reflect.
pub open spec fn cannot_refract_s(ri: int, unit_dir: V3, n: V3) -> bool {
    let ct0 = crate::vec3::v3_dot_fx(v3_neg(unit_dir), n);
    let cos = if ct0 < SCALE as int {
        ct0
    } else {
        SCALE as int
    };
    let cc = fx_mul_s(cos, cos);
    let under = if SCALE as int - cc >= 0 {
        SCALE as int - cc
    } else {
        0
    };
    fx_mul_s(ri, crate::fx::fx_sqrt_s(under)) > SCALE as int
}

/// The Schlick reflectance, stated over fixed-point mantissas.
pub open spec fn reflectance_s(cosine: int, refraction_index: int) -> int {
    let r0 = fx_div_s(SCALE as int - refraction_index, SCALE as int + refraction_index);
    let r0sq = fx_mul_s(r0, r0);
    let p = SCALE as int - cosine;
    let p5 = fx_mul_s(fx_mul_s(fx_mul_s(p, p), fx_mul_s(p, p)), p);
    r0sq + fx_mul_s(SCALE as int - r0sq, p5)
}

impl Material for Lambertian {
    /// Always scatters: the outgoing ray starts at the hit point along the
    /// normal jittered by some near-unit sample; the bare normal stands in
    /// only when that sum cancelled exactly, and the produced direction is
    /// never the zero vector. The attenuation is exactly the albedo.
    open spec fn scatter_ok(
        &self,
        r_in: RayV,
        rec: HitRecV,
        attenuation: V3,
        scattered: RayV,
        b: bool,
    ) -> bool {
        &&& b
        &&& attenuation == self.albedo@
        &&& scattered.orig == rec.p
        &&& exists|ruv: V3|
            unit_sample_ok(ruv) && scattered.dir == (if v3_add(rec.normal, ruv) == (V3 {
                x: 0,
                y: 0,
                z: 0,
            }) {
                rec.normal
            } else {
                v3_add(rec.normal, ruv)
            })
        &&& !(scattered.dir == (V3 { x: 0, y: 0, z: 0 }))
    }

    open spec fn wf(&self) -> bool {
        color01(self.albedo@)
    }

    fn scatter(&self, r_in: &Ray, rec: &HitRecord, attenuation: &mut Color, scattered: &mut Ray)
        -> (b: bool) {
        let ruv = Vec3::random_unit_vector();
        let mut scatter_dir = rec.normal.add(&ruv);
        let ghost jitter = ruv@;
        let ghost cancelled = v3_add(rec@.normal, jitter) == (V3 { x: 0, y: 0, z: 0 });
        if scatter_dir.near_zero() {
            scatter_dir = rec.normal;
        }
        *scattered = Ray::new(rec.p, scatter_dir);
        *attenuation = self.albedo;
        proof {
            if cancelled {
                // the normal equals the negated nonzero jitter
                assert(rec@.normal.x == -jitter.x && rec@.normal.y == -jitter.y && rec@.normal.z
                    == -jitter.z);
            }
            assert(unit_sample_ok(jitter) && scattered@.dir == (if v3_add(rec@.normal, jitter)
                == (V3 { x: 0, y: 0, z: 0 }) {
                rec@.normal
            } else {
                v3_add(rec@.normal, jitter)
            }));
        }
        true
    }
}

impl Material for Metal {
    /// The outputs are written on every outcome: the attenuation is the
    /// albedo, the ray starts at the hit point along the unit mirror
    /// reflection perturbed by fuzz times a near-unit sample, and the call
    /// scatters exactly when that direction points strictly away from the
    /// surface (positive raw inner product with the normal) - so a fuzzed
    /// direction into the surface is reported absorbed. With fuzz zero the
    /// direction, and hence the decision, is deterministic.
    open spec fn scatter_ok(
        &self,
        r_in: RayV,
        rec: HitRecV,
        attenuation: V3,
        scattered: RayV,
        b: bool,
    ) -> bool {
        &&& attenuation == self.albedo@
        &&& scattered.orig == rec.p
        &&& b == (v3_dot_raw(scattered.dir, rec.normal) > 0)
        &&& exists|ruv: V3|
            unit_sample_ok(ruv) && scattered.dir == v3_add(
                v3_unit(v3_reflect(r_in.dir, rec.normal)),
                v3_scale(ruv, self.fuzz as int),
            )
        &&& self.fuzz == 0 ==> scattered.dir == v3_unit(v3_reflect(r_in.dir, rec.normal))
    }

    open spec fn wf(&self) -> bool {
        color01(self.albedo@) && 0 <= self.fuzz <= SCALE
    }

    fn scatter(&self, r_in: &Ray, rec: &HitRecord, attenuation: &mut Color, scattered: &mut Ray)
        -> (b: bool) {
        proof {
            lemma_dot_raw_bound(r_in@.dir, rec@.normal, 0x4000_0000, 2 * SCALE as int);
            lemma_dfloor_bound(
                crate::vec3::v3_dot_raw(r_in@.dir, rec@.normal),
                SCALE as int,
                3 * ((0x4000_0000 as int) * (2 * SCALE as int)),
            );
            lemma_v3_scale_bound(
                rec@.normal,
                2 * crate::vec3::v3_dot_fx(r_in@.dir, rec@.normal),
                2 * SCALE as int,
                0x10_0000_0000,
            );
        }
        let reflected = Vec3::reflect(&r_in.direction(), &rec.normal);
        let unit_reflected = reflected.unit_vector();
        let ruv = Vec3::random_unit_vector();
        let ghost jitter = ruv@;
        proof {
            lemma_v3_scale_bound(jitter, self.fuzz as int, SCALE as int, SCALE as int);
        }
        let scaled_jitter = ruv.scale(self.fuzz);
        let fuzzed = unit_reflected.add(&scaled_jitter);
        *scattered = Ray::new(rec.p, fuzzed);
        *attenuation = self.albedo;
        let d = dot_wide(&fuzzed, &rec.normal);
        proof {
            assert(unit_sample_ok(jitter) && scattered@.dir == v3_add(
                v3_unit(v3_reflect(r_in@.dir, rec@.normal)),
                v3_scale(jitter, self.fuzz as int),
            ));
            if self.fuzz == 0 {
                assert(fx_mul_s(jitter.x, 0) == 0 && fx_mul_s(jitter.y, 0) == 0 && fx_mul_s(
                    jitter.z,
                    0,
                ) == 0) by (nonlinear_arith);
                assert(v3_scale(jitter, 0) == (V3 { x: 0, y: 0, z: 0 }));
            }
        }
        d > 0
    }
}

impl Material for Dielectric {
    /// Always scatters with no absorption: the attenuation is pure white
    /// and the outgoing direction is either the mirror reflection or the
    /// Snell refraction of the unit incoming direction, with the relative
    /// index chosen by the struck side; when the geometry makes refraction
    /// impossible (total internal reflection) the direction is the
    /// reflection, deterministically.
    open spec fn scatter_ok(
        &self,
        r_in: RayV,
        rec: HitRecV,
        attenuation: V3,
        scattered: RayV,
        b: bool,
    ) -> bool {
        let ri = if rec.front_face {
            fx_div_s(SCALE as int, self.ior as int)
        } else {
            self.ior as int
        };
        let unit_dir = v3_unit(r_in.dir);
        &&& b
        &&& attenuation == (V3 { x: SCALE as int, y: SCALE as int, z: SCALE as int })
        &&& scattered.orig == rec.p
        &&& (scattered.dir == v3_reflect(unit_dir, rec.normal) || scattered.dir == v3_refract(
            unit_dir,
            rec.normal,
            ri,
        ))
        &&& cannot_refract_s(ri, unit_dir, rec.normal) ==> scattered.dir == v3_reflect(
            unit_dir,
            rec.normal,
        )
    }

    open spec fn wf(&self) -> bool {
        16384 <= self.ior <= 4 * SCALE
    }

    fn scatter(&self, r_in: &Ray, rec: &HitRecord, attenuation: &mut Color, scattered: &mut Ray)
        -> (b: bool) {
        *attenuation = Vec3::new(SCALE, SCALE, SCALE);
        let ri = if rec.front_face {
            proof {
                lemma_fx_div_bound(SCALE as int, self.ior as int, SCALE as int, 16384);
                crate::fx::lemma_dfloor_char(0, SCALE as int * SCALE as int, self.ior as int);
                crate::fx::lemma_dfloor_char(1, SCALE as int * SCALE as int, self.ior as int);
                assert(1 * (self.ior as int) <= SCALE as int * SCALE as int) by (nonlinear_arith)
                    requires
                        0 < self.ior as int <= 4 * SCALE as int,
                ;
            }
            fx_div(SCALE, self.ior)
        } else {
            self.ior
        };
        proof {
            assert(dfloor(SCALE as int * SCALE as int, 16384) == 4 * SCALE as int);
        }
        let unit_dir = r_in.direction().unit_vector();
        let minus_unit = unit_dir.neg();
        proof {
            lemma_dot_raw_bound(v3_neg(unit_dir@), rec@.normal, SCALE as int, 2 * SCALE as int);
            lemma_dfloor_bound(
                crate::vec3::v3_dot_raw(v3_neg(unit_dir@), rec@.normal),
                SCALE as int,
                3 * ((SCALE as int) * (2 * SCALE as int)),
            );
        }
        let ct = minus_unit.dot(&rec.normal);
        let cos_theta = if ct < SCALE {
            ct
        } else {
            SCALE
        };
        proof {
            crate::fx::lemma_mul_bound(cos_theta as int, cos_theta as int, 0x10_0000, 0x10_0000);
            assert((cos_theta as int) * (cos_theta as int) >= 0) by (nonlinear_arith);
            crate::fx::lemma_dfloor_char(0, (cos_theta as int) * (cos_theta as int), SCALE as int);
        }
        let cc = fx_mul(cos_theta, cos_theta);
        let under = if SCALE - cc >= 0 {
            SCALE - cc
        } else {
            0
        };
        let sin_theta = fx_sqrt(under);
        proof {
            crate::fx::lemma_sqrt_floor(under as int * 65536);
            assert(sin_theta as int <= 0x20_0000) by (nonlinear_arith)
                requires
                    crate::fx::is_sqrt(under as int * 65536, sin_theta as int),
                    0 <= under as int <= 65536,
            ;
            crate::fx::lemma_mul_bound(ri as int, sin_theta as int, 0x4_0000, 0x20_0000);
        }
        let cannot_refract = fx_mul(ri, sin_theta) > SCALE;
        proof {
            assert(cannot_refract == cannot_refract_s(ri as int, unit_dir@, rec@.normal));
        }
        let dir: Vec3;
        if cannot_refract || Dielectric::reflectance(cos_theta, ri) > rand_double() {
            proof {
                lemma_dot_raw_bound(unit_dir@, rec@.normal, SCALE as int, 2 * SCALE as int);
                lemma_dfloor_bound(
                    crate::vec3::v3_dot_raw(unit_dir@, rec@.normal),
                    SCALE as int,
                    3 * ((SCALE as int) * (2 * SCALE as int)),
                );
                lemma_v3_scale_bound(
                    rec@.normal,
                    2 * crate::vec3::v3_dot_fx(unit_dir@, rec@.normal),
                    2 * SCALE as int,
                    0x80_0000,
                );
            }
            dir = Vec3::reflect(&unit_dir, &rec.normal);
        } else {
            dir = Vec3::refract(&unit_dir, &rec.normal, ri);
            proof {
                lemma_refract_bounded(unit_dir@, rec@.normal, ri as int);
            }
        }
        *scattered = Ray::new(rec.p, dir);
        true
    }
}

/// The refraction formula keeps its output inside the ray range when its
/// inputs are unit-scale.
proof fn lemma_refract_bounded(uv: V3, n: V3, eta: int)
    requires
        v3_bounded(uv, SCALE as int),
        v3_bounded(n, 2 * SCALE as int),
        0 <= eta <= 4 * SCALE as int,
    ensures
        v3_bounded(v3_refract(uv, n, eta), 0x4000_0000),
{
    let cos_theta = if crate::vec3::v3_dot_fx(v3_neg(uv), n) <= SCALE as int {
        crate::vec3::v3_dot_fx(v3_neg(uv), n)
    } else {
        SCALE as int
    };
    lemma_dot_raw_bound(v3_neg(uv), n, SCALE as int, 2 * SCALE as int);
    lemma_dfloor_bound(
        v3_dot_raw(v3_neg(uv), n),
        SCALE as int,
        3 * ((SCALE as int) * (2 * SCALE as int)),
    );
    lemma_v3_scale_bound(n, cos_theta, 2 * SCALE as int, 0x10_0000);
    let scaled_n = v3_scale(n, cos_theta);
    let summed = v3_add(uv, scaled_n);
    lemma_v3_scale_bound(summed, eta, 0x40_0000, 4 * SCALE as int);
    let r_out_perp = v3_scale(summed, eta);
    lemma_dot_raw_bound(r_out_perp, r_out_perp, 0x400_0000, 0x400_0000);
    let perp_len_sq = crate::fx::dfloor(v3_dot_raw(r_out_perp, r_out_perp), SCALE as int);
    lemma_dfloor_bound(
        v3_dot_raw(r_out_perp, r_out_perp),
        SCALE as int,
        3 * ((0x400_0000 as int) * 0x400_0000),
    );
    let under = if SCALE as int - perp_len_sq >= 0 {
        SCALE as int - perp_len_sq
    } else {
        perp_len_sq - SCALE as int
    };
    crate::fx::lemma_sqrt_floor(under * 65536);
    let s = crate::fx::fx_sqrt_s(under);
    assert(s <= 0x1000_0000) by (nonlinear_arith)
        requires
            crate::fx::is_sqrt(under * 65536, s),
            0 <= under <= 0x40_0000_0000,
    ;
    lemma_v3_scale_bound(n, -s, 2 * SCALE as int, 0x1000_0000);
}

/// The closed set of materials a scene may hold, dispatched by variant.
pub enum MaterialKind {
    Lambertian(Lambertian),
    Metal(Metal),
    Dielectric(Dielectric),
}

impl Material for MaterialKind {
    open spec fn scatter_ok(
        &self,
        r_in: RayV,
        rec: HitRecV,
        attenuation: V3,
        scattered: RayV,
        b: bool,
    ) -> bool {
        match self {
            MaterialKind::Lambertian(m) => m.scatter_ok(r_in, rec, attenuation, scattered, b),
            MaterialKind::Metal(m) => m.scatter_ok(r_in, rec, attenuation, scattered, b),
            MaterialKind::Dielectric(m) => m.scatter_ok(r_in, rec, attenuation, scattered, b),
        }
    }

    open spec fn wf(&self) -> bool {
        match self {
            MaterialKind::Lambertian(m) => m.wf(),
            MaterialKind::Metal(m) => m.wf(),
            MaterialKind::Dielectric(m) => m.wf(),
        }
    }

    fn scatter(&self, r_in: &Ray, rec: &HitRecord, attenuation: &mut Color, scattered: &mut Ray)
        -> (b: bool) {
        match self {
            MaterialKind::Lambertian(m) => m.scatter(r_in, rec, attenuation, scattered),
            MaterialKind::Metal(m) => m.scatter(r_in, rec, attenuation, scattered),
            MaterialKind::Dielectric(m) => m.scatter(r_in, rec, attenuation, scattered),
        }
    }
}

/// Attenuating a colour by a [0, 1] colour never raises any channel: along
/// a scattering path the carried light can only shrink or stay.
pub proof fn lemma_attenuation_shrinks(a: V3, c: V3)
    requires
        color01(a),
        color01(c),
    ensures
        color01(crate::vec3::v3_cmul(a, c)),
        crate::vec3::v3_cmul(a, c).x <= c.x,
        crate::vec3::v3_cmul(a, c).y <= c.y,
        crate::vec3::v3_cmul(a, c).z <= c.z,
        crate::vec3::v3_cmul(a, c).x <= a.x,
        crate::vec3::v3_cmul(a, c).y <= a.y,
        crate::vec3::v3_cmul(a, c).z <= a.z,
{
    lemma_channel_shrinks(a.x, c.x);
    lemma_channel_shrinks(a.y, c.y);
    lemma_channel_shrinks(a.z, c.z);
}

proof fn lemma_channel_shrinks(a: int, c: int)
    requires
        0 <= a <= SCALE as int,
        0 <= c <= SCALE as int,
    ensures
        0 <= fx_mul_s(a, c) <= c,
        fx_mul_s(a, c) <= a,
{
    crate::fx::lemma_dfloor_char(0, a * c, SCALE as int);
    crate::fx::lemma_dfloor_char(c + 1, a * c, SCALE as int);
    crate::fx::lemma_dfloor_char(a + 1, a * c, SCALE as int);
    assert(0 * SCALE as int <= a * c && !((c + 1) * SCALE as int <= a * c) && !((a + 1)
        * SCALE as int <= a * c)) by (nonlinear_arith)
        requires
            0 <= a <= SCALE as int,
            0 <= c <= SCALE as int,
    ;
}

/// A black material absorbs everything: attenuating by it yields black,
/// so any path through it contributes nothing.
pub proof fn lemma_black_absorbs(c: V3)
    ensures
        crate::vec3::v3_cmul(V3 { x: 0, y: 0, z: 0 }, c) == (V3 { x: 0, y: 0, z: 0 }),
{
    assert(0 * c.x == 0) by (nonlinear_arith);
    assert(0 * c.y == 0) by (nonlinear_arith);
    assert(0 * c.z == 0) by (nonlinear_arith);
}

} // verus!
