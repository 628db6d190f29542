use vstd::prelude::*;

verus! {

use crate::color::Color;
use crate::fx::{
    dfloor, div_floor_i128, fx_mul, fx_mul_s, lemma_dfloor_bound, lemma_fx_mul_bound,
    lemma_mul_bound, COORD_BOUND,  SCALE, 
};
use crate::hittable::{HitRecord, Hittable};
use crate::interval::Interval;
use crate::libs::{deg_to_rad, deg_to_rad_s, rand_double, tan_fx, tan_fx_s, INFINITY_FX};
use crate::material::{color01, Material, MaterialKind};
use crate::ray::{ray_wf, Ray, RayV};
use crate::vec3::{
    lemma_v3_scale_bound, v3_add, v3_bounded, v3_cmul, v3_cross, v3_neg, v3_scale, v3_sub,
    v3_unit, Vec3, V3,
};

/// The near bound of every colour query: hits closer than this are taken
/// for self-intersection noise and rejected (the mantissa of 0.001).
pub const RAY_T_MIN: i64 = 65;

/// Every material in the arena keeps its parameters in range.
pub open spec fn mats_wf(mats: Seq<MaterialKind>) -> bool {
    forall|i: int| 0 <= i < mats.len() ==> (#[trigger] mats[i]).wf()
}

/// The sky the renderer falls back to when a ray escapes the scene: a
/// vertical blend from white to sky blue by the unit direction's height.
pub open spec fn background_s(r: RayV) -> V3 {
    let unit_dir = v3_unit(r.dir);
    let a = dfloor(unit_dir.y + SCALE as int, 2);
    v3_add(
        v3_scale(V3 { x: SCALE as int, y: SCALE as int, z: SCALE as int }, SCALE as int - a),
        v3_scale(V3 { x: 32768, y: 45875, z: 65536 }, a),
    )
}

/// `x` saturated into [lo, hi].
pub open spec fn saturate_s(x: int, lo: int, hi: int) -> int {
    if x < lo {
        lo
    } else if x > hi {
        hi
    } else {
        x
    }
}

/// Each component divided by `d`, rounded down.
pub open spec fn v3_div_comp(v: V3, d: int) -> V3 {
    V3 { x: dfloor(v.x, d), y: dfloor(v.y, d), z: dfloor(v.z, d) }
}

/// The image height derived from width and aspect ratio, never below one.
pub open spec fn image_height_s(width: int, aspect: int) -> int {
    let h = dfloor(width * SCALE as int, aspect);
    if h < 1 {
        1
    } else {
        h
    }
}

/// The camera's viewing basis, derived from the configured eye, target
/// and up vector.
pub open spec fn cam_w_s(c: Camera) -> V3 {
    v3_unit(v3_sub(c.lookfrom@, c.lookat@))
}

pub open spec fn cam_u_s(c: Camera) -> V3 {
    v3_unit(v3_cross(c.vup@, cam_w_s(c)))
}

pub open spec fn cam_v_s(c: Camera) -> V3 {
    v3_cross(cam_w_s(c), cam_u_s(c))
}

/// The viewport height: twice the half-height spanned by the vertical
/// field of view at the focus distance, saturated into the fixed-point
/// range.
pub open spec fn viewport_height_s(c: Camera) -> int {
    let half_theta = saturate_s(dfloor(deg_to_rad_s(c.vfov as int), 2), 0, 102943);
    2 * saturate_s(fx_mul_s(tan_fx_s(half_theta), c.focus_dist as int), 0, 0x80_0000)
}

/// The viewport width: the height scaled by the realized width-to-height
/// ratio of the image, saturated into the fixed-point range.
pub open spec fn viewport_width_s(c: Camera) -> int {
    let ratio = saturate_s(
        dfloor(
            c.img_width as int * SCALE as int,
            image_height_s(c.img_width as int, c.aspect_ratio as int),
        ),
        8192,
        524288,
    );
    fx_mul_s(viewport_height_s(c), ratio)
}

/// The span across the viewport's top edge.
pub open spec fn viewport_u_s(c: Camera) -> V3 {
    v3_scale(cam_u_s(c), viewport_width_s(c))
}

/// The span down the viewport's left edge.
pub open spec fn viewport_v_s(c: Camera) -> V3 {
    v3_scale(v3_neg(cam_v_s(c)), viewport_height_s(c))
}

/// The step from one pixel to the next along a row.
pub open spec fn pixel_delta_u_s(c: Camera) -> V3 {
    v3_div_comp(viewport_u_s(c), c.img_width as int)
}

/// The step from one row to the next.
pub open spec fn pixel_delta_v_s(c: Camera) -> V3 {
    v3_div_comp(viewport_v_s(c), image_height_s(c.img_width as int, c.aspect_ratio as int))
}

/// The focal-plane location of pixel (0, 0): the upper-left corner of the
/// viewport moved half a pixel inward.
pub open spec fn pixel00_s(c: Camera) -> V3 {
    let upper_left = v3_sub(
        v3_sub(
            v3_sub(c.lookfrom@, v3_scale(cam_w_s(c), c.focus_dist as int)),
            v3_div_comp(viewport_u_s(c), 2),
        ),
        v3_div_comp(viewport_v_s(c), 2),
    );
    v3_add(upper_left, v3_div_comp(v3_add(pixel_delta_u_s(c), pixel_delta_v_s(c)), 2))
}

/// The radius of the defocus disk, saturated into the fixed-point range.
pub open spec fn defocus_radius_s(c: Camera) -> int {
    let half = saturate_s(dfloor(deg_to_rad_s(c.defocus_angle as int), 2), 0, 102943);
    saturate_s(fx_mul_s(c.focus_dist as int, tan_fx_s(half)), 0, 0x40_0000)
}

pub open spec fn defocus_disk_u_s(c: Camera) -> V3 {
    v3_scale(cam_u_s(c), defocus_radius_s(c))
}

pub open spec fn defocus_disk_v_s(c: Camera) -> V3 {
    v3_scale(cam_v_s(c), defocus_radius_s(c))
}

/// What a colour resolved for ray `r` at the given depth can be: black
/// when the depth is exhausted, the exact background blend on a miss, and
/// on a hit either black after an absorption or the attenuation times a
/// colour resolved the same way for the scattered ray - with the
/// attenuation, the scattered ray and the scatter decision being some
/// outcome the struck material's own scatter contract allows.
pub open spec fn ray_color_rel<H: Hittable>(
    world: &H,
    mats: Seq<MaterialKind>,
    r: RayV,
    depth: int,
    col: V3,
) -> bool
    decreases depth,
{
    if depth <= 0 {
        col == (V3 { x: 0, y: 0, z: 0 })
    } else {
        match world.hit_spec(r, RAY_T_MIN as int, INFINITY_FX as int) {
            Option::None => col == background_s(r),
            Option::Some(rec) => exists|att: V3, sc: RayV, b: bool|
                #![trigger mats[rec.mat].scatter_ok(r, rec, att, sc, b)]
                mats[rec.mat].scatter_ok(r, rec, att, sc, b) && if b {
                    &&& ray_wf(sc)
                    &&& sc.orig == rec.p
                    &&& color01(att)
                    &&& exists|col2: V3|
                        #![trigger v3_cmul(att, col2)]
                        ray_color_rel(world, mats, sc, depth - 1, col2) && col == v3_cmul(
                            att,
                            col2,
                        )
                } else {
                    col == (V3 { x: 0, y: 0, z: 0 })
                },
        }
    }
}

/// The focal-plane point that pixel (i, j), jittered by (ox, oy), aims at.
pub open spec fn pixel_sample_s(c: Camera, i: int, j: int, ox: int, oy: int) -> V3 {
    v3_add(
        v3_add(c.pixel00_loc@, v3_scale(c.pixel_delta_u@, i * SCALE as int + ox)),
        v3_scale(c.pixel_delta_v@, j * SCALE as int + oy),
    )
}

/// `o` lies on the camera's defocus disk: the centre offset along the two
/// disk spans by a jitter pair inside the closed unit disk.
pub open spec fn on_defocus_disk(c: Camera, o: V3) -> bool {
    exists|px: int, py: int|
        #![trigger v3_scale(c.defocus_disk_u@, px), v3_scale(c.defocus_disk_v@, py)]
        -(SCALE as int) <= px <= SCALE as int && -(SCALE as int) <= py <= SCALE as int && px * px
            + py * py <= SCALE as int * SCALE as int && o == v3_add(
            v3_add(c.center@, v3_scale(c.defocus_disk_u@, px)),
            v3_scale(c.defocus_disk_v@, py),
        )
}

/// What `get_ray` can hand back for pixel (i, j): a well-formed ray whose
/// origin is the camera centre (or a defocus-disk point when depth of
/// field is on) and whose direction aims at the jittered pixel sample;
/// the viewing-axis fallback is allowed only when that aimed direction
/// leaves the representable ray range.
pub open spec fn gen_ray_ok(c: Camera, i: int, j: int, r: RayV) -> bool {
    &&& ray_wf(r)
    &&& (c.defocus_angle <= 0 ==> r.orig == c.center@)
    &&& (c.defocus_angle > 0 ==> on_defocus_disk(c, r.orig))
    &&& exists|ox: int, oy: int|
        #![trigger pixel_sample_s(c, i, j, ox, oy)]
        -32768 <= ox <= 32767 && -32768 <= oy <= 32767 && {
            let aimed = v3_sub(pixel_sample_s(c, i, j, ox, oy), r.orig);
            r.dir == aimed || (!v3_bounded(aimed, 0x4000_0000) && r.dir == v3_sub(
                c.lookat@,
                r.orig,
            ))
        }
}

/// The componentwise sum of a sequence of colours.
pub open spec fn v3_sum(s: Seq<V3>) -> V3
    decreases s.len(),
{
    if s.len() == 0 {
        V3 { x: 0, y: 0, z: 0 }
    } else {
        v3_add(v3_sum(s.drop_last()), s.last())
    }
}

/// One admissible sample colour for pixel (i, j): a colour the integrator
/// can resolve for some ray the camera can generate for that pixel.
pub open spec fn sample_ok<H: Hittable>(
    c: Camera,
    world: &H,
    mats: Seq<MaterialKind>,
    i: int,
    j: int,
    col: V3,
) -> bool {
    exists|r: RayV|
        #![trigger gen_ray_ok(c, i, j, r)]
        gen_ray_ok(c, i, j, r) && ray_color_rel(world, mats, r, c.max_depth as int, col)
}

/// The three bytes of pixel (i, j) in a row-major image equal the
/// gamma-corrected quantization of the rescaled sum (the average) of
/// `samples_per_pixel` admissible sample colours for that pixel.
pub open spec fn pixel_ok<H: Hittable>(
    out: Seq<u8>,
    c: Camera,
    world: &H,
    mats: Seq<MaterialKind>,
    i: int,
    j: int,
) -> bool {
    exists|samples: Seq<V3>|
        #![trigger v3_sum(samples)]
        samples.len() == c.samples_per_pixel as int && (forall|k: int|
            0 <= k < samples.len() ==> sample_ok(c, world, mats, i, j, #[trigger] samples[k]))
            && ({
            let avg = v3_scale(v3_sum(samples), c.pixel_samples_scale as int);
            let base = 3 * (j * c.img_width as int + i);
            &&& out[base] as int == crate::color::channel_byte_s(avg.x)
            &&& out[base + 1] as int == crate::color::channel_byte_s(avg.y)
            &&& out[base + 2] as int == crate::color::channel_byte_s(avg.z)
        })
}

/// Every pixel before (i, j) in row-major order satisfies `pixel_ok`.
pub open spec fn pixels_done<H: Hittable>(
    out: Seq<u8>,
    c: Camera,
    world: &H,
    mats: Seq<MaterialKind>,
    j: int,
    i: int,
) -> bool {
    forall|pj: int, pi: int|
        0 <= pj && 0 <= pi < c.img_width as int && (pj < j || (pj == j && pi < i))
            ==> #[trigger] pixel_ok(out, c, world, mats, pi, pj)
}

/// Appending bytes to the image disturbs no pixel already emitted.
proof fn lemma_pixels_done_extend<H: Hittable>(
    out1: Seq<u8>,
    out2: Seq<u8>,
    c: Camera,
    world: &H,
    mats: Seq<MaterialKind>,
    j: int,
    i: int,
)
    requires
        pixels_done(out1, c, world, mats, j, i),
        out1.len() >= 3 * (j * c.img_width as int + i),
        out2.len() >= out1.len(),
        forall|k: int| 0 <= k < out1.len() ==> out2[k] == out1[k],
        0 <= j,
        0 <= i <= c.img_width as int,
        c.img_width >= 1,
    ensures
        pixels_done(out2, c, world, mats, j, i),
{
    let w = c.img_width as int;
    assert forall|pj: int, pi: int|
        0 <= pj && 0 <= pi < w && (pj < j || (pj == j && pi < i)) implies #[trigger] pixel_ok(
        out2,
        c,
        world,
        mats,
        pi,
        pj,
    ) by {
        assert(pixel_ok(out1, c, world, mats, pi, pj));
        assert(3 * (pj * w + pi) + 3 <= 3 * (j * w + i)) by (nonlinear_arith)
            requires
                0 <= pi < w,
                0 <= pj,
                0 <= i <= w,
                w >= 1,
                pj < j || (pj == j && pi < i),
        ;
        let samples = choose|samples: Seq<V3>|
            #![trigger v3_sum(samples)]
            samples.len() == c.samples_per_pixel as int && (forall|k: int|
                0 <= k < samples.len() ==> sample_ok(c, world, mats, pi, pj, #[trigger] samples[k]))
                && ({
                let avg = v3_scale(v3_sum(samples), c.pixel_samples_scale as int);
                let base = 3 * (pj * w + pi);
                &&& out1[base] as int == crate::color::channel_byte_s(avg.x)
                &&& out1[base + 1] as int == crate::color::channel_byte_s(avg.y)
                &&& out1[base + 2] as int == crate::color::channel_byte_s(avg.z)
            });
        assert(v3_sum(samples) == v3_sum(samples));
    }
}

/// The virtual camera and integrator: builds per-pixel sample rays and
/// resolves their colour through the scatter contract.
pub struct Camera {
    pub aspect_ratio: i64,
    pub img_width: i32,
    pub samples_per_pixel: i32,
    pub max_depth: i32,
    pub vfov: i64,
    pub lookfrom: Vec3,
    pub lookat: Vec3,
    pub vup: Vec3,
    pub defocus_angle: i64,
    pub focus_dist: i64,
    pub img_height: i32,
    pub pixel_samples_scale: i64,
    pub center: Vec3,
    pub pixel00_loc: Vec3,
    pub pixel_delta_u: Vec3,
    pub pixel_delta_v: Vec3,
    pub u: Vec3,
    pub v: Vec3,
    pub w: Vec3,
    pub defocus_disk_u: Vec3,
    pub defocus_disk_v: Vec3,
}

/// The configuration a render accepts: every field inside the fixed-point
/// ranges the camera arithmetic is proved against.
pub open spec fn cam_wf(c: Camera) -> bool {
    &&& 1 <= c.img_width <= 4096
    &&& 1 <= c.samples_per_pixel <= 4096
    &&& 1 <= c.max_depth <= 64
    &&& 16384 <= c.aspect_ratio <= 262144
    &&& SCALE as int <= c.vfov as int <= 175 * SCALE as int
    &&& v3_bounded(c.lookfrom@, COORD_BOUND as int)
    &&& v3_bounded(c.lookat@, COORD_BOUND as int)
    &&& v3_bounded(c.vup@, COORD_BOUND as int)
    &&& 0 <= c.defocus_angle as int <= 60 * SCALE as int
    &&& 4096 <= c.focus_dist <= 0x40_0000
}

/// What initialization establishes about the derived fields.
pub open spec fn cam_ready(c: Camera) -> bool {
    &&& 1 <= c.img_height <= 0x1_0000
    &&& v3_bounded(c.center@, COORD_BOUND as int)
    &&& v3_bounded(c.lookat@, COORD_BOUND as int)
    &&& v3_bounded(c.pixel00_loc@, 0x4000_0000)
    &&& v3_bounded(c.pixel_delta_u@, 0x2000_0000)
    &&& v3_bounded(c.pixel_delta_v@, 0x2000_0000)
    &&& v3_bounded(c.defocus_disk_u@, 0x200_0000)
    &&& v3_bounded(c.defocus_disk_v@, 0x200_0000)
    &&& c.defocus_angle >= 0
}

impl Default for Camera {
    fn default() -> (r: Camera)
        ensures
            r.aspect_ratio == SCALE,
            r.img_width == 100,
            r.samples_per_pixel == 10,
            r.max_depth == 10,
            r.vfov as int == 90 * SCALE as int,
            r.lookfrom@ == (V3 { x: 0, y: 0, z: 0 }),
            r.lookat@ == (V3 { x: 0, y: 0, z: -(SCALE as int) }),
            r.vup@ == (V3 { x: 0, y: SCALE as int, z: 0 }),
            r.defocus_angle == 0,
            r.focus_dist as int == 10 * SCALE as int,
            cam_wf(r),
    {
        Camera {
            aspect_ratio: SCALE,
            img_width: 100,
            samples_per_pixel: 10,
            max_depth: 10,
            vfov: 90 * SCALE,
            lookfrom: Vec3::new(0, 0, 0),
            lookat: Vec3::new(0, 0, -SCALE),
            vup: Vec3::new(0, SCALE, 0),
            defocus_angle: 0,
            focus_dist: 10 * SCALE,
            img_height: 1,
            pixel_samples_scale: 0,
            center: Vec3::new(0, 0, 0),
            pixel00_loc: Vec3::new(0, 0, 0),
            pixel_delta_u: Vec3::new(0, 0, 0),
            pixel_delta_v: Vec3::new(0, 0, 0),
            u: Vec3::new(0, 0, 0),
            v: Vec3::new(0, 0, 0),
            w: Vec3::new(0, 0, 0),
            defocus_disk_u: Vec3::new(0, 0, 0),
            defocus_disk_v: Vec3::new(0, 0, 0),
        }
    }
}

/// `x` saturated into [lo, hi].
fn clamp_i64(x: i64, lo: i64, hi: i64) -> (r: i64)
    requires
        lo <= hi,
    ensures
        r as int == (if x < lo {
            lo as int
        } else if x > hi {
            hi as int
        } else {
            x as int
        }),
        lo <= r <= hi,
{
    if x < lo {
        lo
    } else if x > hi {
        hi
    } else {
        x
    }
}

impl Camera {
    /// Derives the image height, the orthonormal camera basis, the
    /// viewport spans and the defocus disk from the configuration. The
    /// viewport half-height and the defocus radius are saturated into the
    /// fixed-point range; for every ordinary configuration the saturation
    /// never engages.
    #[verifier::rlimit(100)]
    pub fn initialize(&mut self)
        requires
            cam_wf(*old(self)),
        ensures
            cam_wf(*final(self)),
            cam_ready(*final(self)),
            final(self).aspect_ratio == old(self).aspect_ratio,
            final(self).img_width == old(self).img_width,
            final(self).samples_per_pixel == old(self).samples_per_pixel,
            final(self).max_depth == old(self).max_depth,
            final(self).lookfrom == old(self).lookfrom,
            final(self).lookat == old(self).lookat,
            final(self).vup == old(self).vup,
            final(self).vfov == old(self).vfov,
            final(self).focus_dist == old(self).focus_dist,
            final(self).defocus_angle == old(self).defocus_angle,
            final(self).img_height as int == image_height_s(
                old(self).img_width as int,
                old(self).aspect_ratio as int,
            ),
            final(self).pixel_samples_scale as int == dfloor(
                SCALE as int,
                old(self).samples_per_pixel as int,
            ),
            final(self).center == old(self).lookfrom,
            final(self).w@ == cam_w_s(*old(self)),
            final(self).u@ == cam_u_s(*old(self)),
            final(self).v@ == cam_v_s(*old(self)),
            final(self).pixel_delta_u@ == pixel_delta_u_s(*old(self)),
            final(self).pixel_delta_v@ == pixel_delta_v_s(*old(self)),
            final(self).pixel00_loc@ == pixel00_s(*old(self)),
            final(self).defocus_disk_u@ == defocus_disk_u_s(*old(self)),
            final(self).defocus_disk_v@ == defocus_disk_v_s(*old(self)),
    {
        let h_raw = div_floor_i128((self.img_width as i128) * 65536, self.aspect_ratio as i128);
        proof {
            vstd::arithmetic::div_mod::lemma_div_is_ordered_by_denominator(
                self.img_width as int * 65536,
                16384,
                self.aspect_ratio as int,
            );
        }
        let h = if h_raw < 1 {
            1
        } else {
            h_raw as i32
        };
        self.img_height = h;
        self.pixel_samples_scale = div_floor_i128(
            65536,
            self.samples_per_pixel as i128,
        ) as i64;
        self.center = self.lookfrom;

        // viewport extents from the vertical field of view
        let theta = deg_to_rad(self.vfov);
        proof {
            lemma_dfloor_bound(
                fx_mul_s(self.vfov as int, crate::libs::PI_FX as int),
                180,
                0x6_0000_0000,
            );
            lemma_fx_mul_bound(self.vfov as int, crate::libs::PI_FX as int, 0x200_0000, 0x4_0000);
        }
        let half_theta = div_floor_i128(theta as i128, 2) as i64;
        let half_theta_c = clamp_i64(half_theta, 0, 102943);
        let tan_half = tan_fx(half_theta_c);
        proof {
            lemma_mul_bound(tan_half as int, self.focus_dist as int, 0x10_0000_0001, 0x40_0000);
        }
        let h_fx = clamp_i64(fx_mul(tan_half, self.focus_dist), 0, 0x80_0000);
        let viewport_height = 2 * h_fx;
        let ratio = clamp_i64(
            div_floor_i128((self.img_width as i128) * 65536, self.img_height as i128) as i64,
            8192,
            524288,
        );
        proof {
            lemma_mul_bound(viewport_height as int, ratio as int, 0x100_0000, 0x8_0000);
        }
        let viewport_width = fx_mul(viewport_height, ratio);

        // the camera basis
        let w = self.lookfrom.sub(&self.lookat).unit_vector();
        proof {
            crate::vec3::lemma_v3_cross_bound(self.vup@, w@, COORD_BOUND as int, SCALE as int);
        }
        let u = self.vup.cross(&w).unit_vector();
        let v = w.cross(&u);
        self.w = w;
        self.u = u;
        self.v = v;

        // spans across the viewport and per-pixel deltas
        proof {
            crate::vec3::lemma_v3_cross_bound(w@, u@, SCALE as int, SCALE as int);
            lemma_v3_scale_bound(u@, viewport_width as int, SCALE as int, 0x1000_0000);
            lemma_v3_scale_bound(
                crate::vec3::v3_neg(v@),
                viewport_height as int,
                0x4_0000,
                0x100_0000,
            );
        }
        let viewport_u = u.scale(viewport_width);
        let viewport_v = v.neg().scale(viewport_height);
        let pdu = Vec3::new(
            div_floor_i128(viewport_u.x as i128, self.img_width as i128) as i64,
            div_floor_i128(viewport_u.y as i128, self.img_width as i128) as i64,
            div_floor_i128(viewport_u.z as i128, self.img_width as i128) as i64,
        );
        let pdv = Vec3::new(
            div_floor_i128(viewport_v.x as i128, self.img_height as i128) as i64,
            div_floor_i128(viewport_v.y as i128, self.img_height as i128) as i64,
            div_floor_i128(viewport_v.z as i128, self.img_height as i128) as i64,
        );
        self.pixel_delta_u = pdu;
        self.pixel_delta_v = pdv;

        // the focal-plane location of pixel (0, 0)
        proof {
            lemma_v3_scale_bound(w@, self.focus_dist as int, SCALE as int, 0x40_0000);
        }
        let focus_w = w.scale(self.focus_dist);
        let half_u = Vec3::new(
            div_floor_i128(viewport_u.x as i128, 2) as i64,
            div_floor_i128(viewport_u.y as i128, 2) as i64,
            div_floor_i128(viewport_u.z as i128, 2) as i64,
        );
        let half_v = Vec3::new(
            div_floor_i128(viewport_v.x as i128, 2) as i64,
            div_floor_i128(viewport_v.y as i128, 2) as i64,
            div_floor_i128(viewport_v.z as i128, 2) as i64,
        );
        let viewport_upper_left = self.center.sub(&focus_w).sub(&half_u).sub(&half_v);
        let centering = pdu.add(&pdv);
        let half_centering = Vec3::new(
            div_floor_i128(centering.x as i128, 2) as i64,
            div_floor_i128(centering.y as i128, 2) as i64,
            div_floor_i128(centering.z as i128, 2) as i64,
        );
        self.pixel00_loc = viewport_upper_left.add(&half_centering);

        // the defocus disk
        let half_defocus = div_floor_i128(deg_to_rad(self.defocus_angle) as i128, 2) as i64;
        proof {
            lemma_dfloor_bound(
                fx_mul_s(self.defocus_angle as int, crate::libs::PI_FX as int),
                180,
                0x6_0000_0000,
            );
            lemma_fx_mul_bound(
                self.defocus_angle as int,
                crate::libs::PI_FX as int,
                0x200_0000,
                0x4_0000,
            );
        }
        let half_defocus_c = clamp_i64(half_defocus, 0, 102943);
        let tan_half_defocus = tan_fx(half_defocus_c);
        proof {
            lemma_mul_bound(
                self.focus_dist as int,
                tan_half_defocus as int,
                0x40_0000,
                0x10_0000_0001,
            );
        }
        let defocus_radius = clamp_i64(fx_mul(self.focus_dist, tan_half_defocus), 0, 0x40_0000);
        proof {
            lemma_v3_scale_bound(u@, defocus_radius as int, SCALE as int, 0x40_0000);
            lemma_v3_scale_bound(v@, defocus_radius as int, 0x4_0000, 0x40_0000);
        }
        self.defocus_disk_u = u.scale(defocus_radius);
        self.defocus_disk_v = v.scale(defocus_radius);
    }

    /// A random offset in the unit square centred at the origin.
    fn sample_square() -> (r: Vec3)
        ensures
            -32768 <= r@.x <= 32767,
            -32768 <= r@.y <= 32767,
            r@.z == 0,
    {
        Vec3::new(rand_double() - 32768, rand_double() - 32768, 0)
    }

    /// A random point of the camera's defocus disk.
    /// A point of the defocus disk: a jitter pair is drawn from the unit
    /// square until it falls inside the unit disk (the centre, drawn after
    /// many failures, lies on the disk too) and offsets the camera centre
    /// along the two disk spans.
    fn defocus_disk_sample(&self) -> (r: Vec3)
        requires
            cam_ready(*self),
        ensures
            v3_bounded(r@, 0x2000_0000),
            on_defocus_disk(*self, r@),
    {
        let mut px: i64 = 0;
        let mut py: i64 = 0;
        let mut tries: u64 = 0;
        while tries < 64
            invariant_except_break
                px == 0 && py == 0,
            ensures
                -(SCALE as int) <= px as int <= SCALE as int,
                -(SCALE as int) <= py as int <= SCALE as int,
                (px as int) * (px as int) + (py as int) * (py as int) <= SCALE as int
                    * SCALE as int,
            decreases 64 - tries,
        {
            let cx = crate::libs::rand_range(-SCALE, SCALE);
            let cy = crate::libs::rand_range(-SCALE, SCALE);
            proof {
                lemma_mul_bound(cx as int, cx as int, SCALE as int, SCALE as int);
                lemma_mul_bound(cy as int, cy as int, SCALE as int, SCALE as int);
            }
            if (cx as i128) * (cx as i128) + (cy as i128) * (cy as i128) <= 65536 * 65536 {
                px = cx;
                py = cy;
                break ;
            }
            tries = tries + 1;
        }
        proof {
            lemma_v3_scale_bound(self.defocus_disk_u@, px as int, 0x200_0000, SCALE as int);
            lemma_v3_scale_bound(self.defocus_disk_v@, py as int, 0x200_0000, SCALE as int);
        }
        let out = self.center.add(&self.defocus_disk_u.scale(px)).add(
            &self.defocus_disk_v.scale(py),
        );
        proof {
            assert(-(SCALE as int) <= px as int <= SCALE as int && -(SCALE as int) <= py as int
                <= SCALE as int && (px as int) * (px as int) + (py as int) * (py as int)
                <= SCALE as int * SCALE as int && out@ == v3_add(
                v3_add(self.center@, v3_scale(self.defocus_disk_u@, px as int)),
                v3_scale(self.defocus_disk_v@, py as int),
            ));
        }
        out
    }

    /// The sample ray for pixel (i, j): jittered inside the pixel's
    /// footprint, and started on the defocus disk when depth of field is
    /// on. A direction outside the fixed-point ray range (impossible for
    /// an ordinary configuration) falls back to the viewing axis.
    pub fn get_ray(&self, i: i32, j: i32) -> (r: Ray)
        requires
            cam_ready(*self),
            0 <= i <= 4096,
            0 <= j <= 0x1_0000,
        ensures
            gen_ray_ok(*self, i as int, j as int, r@),
    {
        let offset = Camera::sample_square();
        let si = (i as i64) * SCALE + offset.x;
        let sj = (j as i64) * SCALE + offset.y;
        proof {
            lemma_v3_scale_bound(self.pixel_delta_u@, si as int, 0x2000_0000, 0x1000_0000_0000);
            lemma_v3_scale_bound(self.pixel_delta_v@, sj as int, 0x2000_0000, 0x1000_0000_0000);
        }
        let pixel_sample = self.pixel00_loc.add(&self.pixel_delta_u.scale(si)).add(
            &self.pixel_delta_v.scale(sj),
        );
        let ray_origin = if self.defocus_angle <= 0 {
            self.center
        } else {
            self.defocus_disk_sample()
        };
        let ghost ox = offset@.x;
        let ghost oy = offset@.y;
        proof {
            assert(si as int == i * SCALE as int + ox);
            assert(sj as int == j * SCALE as int + oy);
            assert(pixel_sample@ == pixel_sample_s(*self, i as int, j as int, ox, oy));
        }
        let ray_dir = pixel_sample.sub(&ray_origin);
        if ray_dir.x < -0x4000_0000 || ray_dir.x > 0x4000_0000 || ray_dir.y < -0x4000_0000
            || ray_dir.y > 0x4000_0000 || ray_dir.z < -0x4000_0000 || ray_dir.z > 0x4000_0000 {
            let fallback = Ray::new(ray_origin, self.lookat.sub(&ray_origin));
            proof {
                let aimed = v3_sub(
                    pixel_sample_s(*self, i as int, j as int, ox, oy),
                    fallback@.orig,
                );
                assert(-32768 <= ox <= 32767 && -32768 <= oy <= 32767 && !v3_bounded(
                    aimed,
                    0x4000_0000,
                ) && fallback@.dir == v3_sub(self.lookat@, fallback@.orig));
            }
            return fallback;
        }
        let out = Ray::new(ray_origin, ray_dir);
        proof {
            assert(-32768 <= ox <= 32767 && -32768 <= oy <= 32767 && out@.dir == v3_sub(
                pixel_sample_s(*self, i as int, j as int, ox, oy),
                out@.orig,
            ));
        }
        out
    }

    /// Resolves a ray's colour: exhausted depth is black, a miss is the
    /// background blend, a hit follows the material's scatter decision and
    /// recurses, attenuating as it goes. Every channel stays in [0, 1],
    /// and on a miss the result is exactly the background.
    pub fn ray_color<H: Hittable>(r: &Ray, depth: i32, world: &H, mats: &Vec<MaterialKind>)
        -> (c: Color)
        requires
            world.wf(),
            world.mats_below(mats@.len() as int),
            mats_wf(mats@),
            ray_wf(r@),
        ensures
            color01(c@),
            depth <= 0 ==> c@ == (V3 { x: 0, y: 0, z: 0 }),
            (depth > 0 && world.hit_spec(r@, RAY_T_MIN as int, INFINITY_FX as int).is_none())
                ==> c@ == background_s(r@),
            ray_color_rel(world, mats@, r@, depth as int, c@),
        decreases depth,
    {
        if depth <= 0 {
            return Vec3::new(0, 0, 0);
        }
        let mut rec = HitRecord::default();
        if world.hit(r, Interval::new(RAY_T_MIN, INFINITY_FX), &mut rec) {
            proof {
                world.lemma_hit_wf(
                    r@,
                    RAY_T_MIN as int,
                    INFINITY_FX as int,
                    mats@.len() as int,
                );
            }
            let ghost hrec = world.hit_spec(r@, RAY_T_MIN as int, INFINITY_FX as int).unwrap();
            let m = &mats[rec.mat];
            let mut attenuation = Vec3::new(0, 0, 0);
            let mut scattered = Ray::new(Vec3::new(0, 0, 0), Vec3::new(0, 0, 0));
            if m.scatter(r, &rec, &mut attenuation, &mut scattered) {
                let deeper = Camera::ray_color(&scattered, depth - 1, world, mats);
                proof {
                    crate::material::lemma_attenuation_shrinks(attenuation@, deeper@);
                }
                let out = attenuation.comp_mul(&deeper);
                proof {
                    assert(mats@[hrec.mat].scatter_ok(r@, hrec, attenuation@, scattered@, true));
                    assert(ray_color_rel(world, mats@, scattered@, depth as int - 1, deeper@)
                        && out@ == v3_cmul(attenuation@, deeper@));
                }
                return out;
            }
            let black = Vec3::new(0, 0, 0);
            proof {
                assert(mats@[hrec.mat].scatter_ok(r@, hrec, attenuation@, scattered@, false));
            }
            return black;
        }
        let unit_dir = r.direction().unit_vector();
        let a = div_floor_i128((unit_dir.y + SCALE) as i128, 2) as i64;
        proof {
            lemma_v3_scale_bound(
                V3 { x: SCALE as int, y: SCALE as int, z: SCALE as int },
                SCALE as int - a as int,
                SCALE as int,
                SCALE as int,
            );
            lemma_v3_scale_bound(
                V3 { x: 32768, y: 45875, z: 65536 },
                a as int,
                SCALE as int,
                SCALE as int,
            );
            lemma_background_01(r@);
        }
        let white = Vec3::new(SCALE, SCALE, SCALE);
        let blue = Vec3::new(32768, 45875, 65536);
        white.scale(SCALE - a).add(&blue.scale(a))
    }

    /// Renders the whole image: for every pixel, in row-major order, three
    /// bytes that provably equal the gamma-corrected quantization of the
    /// average of `samples_per_pixel` sample colours, each resolved by the
    /// integrator along a ray the camera can generate for that pixel.
    pub fn render<H: Hittable>(&mut self, world: &H, mats: &Vec<MaterialKind>) -> (out: Vec<u8>)
        requires
            cam_wf(*old(self)),
            world.wf(),
            world.mats_below(mats@.len() as int),
            mats_wf(mats@),
        ensures
            out@.len() == 3 * final(self).img_height * final(self).img_width,
            final(self).img_height as int == image_height_s(
                old(self).img_width as int,
                old(self).aspect_ratio as int,
            ),
            final(self).img_width == old(self).img_width,
            forall|pj: int, pi: int|
                0 <= pj < final(self).img_height as int
                    && 0 <= pi < final(self).img_width as int
                    ==> #[trigger] pixel_ok(out@, *final(self), world, mats@, pi, pj),
    {
        self.initialize();
        let ghost cam = *self;
        let height = self.img_height;
        let width = self.img_width;
        let spp = self.samples_per_pixel;
        let scale = self.pixel_samples_scale;
        proof {
            crate::fx::lemma_dfloor_char(0, SCALE as int, spp as int);
            crate::fx::lemma_dfloor_char(SCALE as int + 1, SCALE as int, spp as int);
            assert(!((SCALE as int + 1) * (spp as int) <= SCALE as int)) by (nonlinear_arith)
                requires
                    1 <= spp as int,
            ;
        }
        let mut out: Vec<u8> = Vec::new();
        let mut j: i32 = 0;
        proof {
            assert(3 * 0 * width == 0) by (nonlinear_arith);
        }
        while j < height
            invariant
                0 <= j <= height,
                1 <= height <= 0x1_0000,
                1 <= width <= 4096,
                1 <= spp <= 4096,
                0 <= scale as int <= SCALE as int,
                *self == cam,
                cam_ready(cam),
                cam.img_height == height,
                cam.img_width == width,
                cam.samples_per_pixel == spp,
                cam.pixel_samples_scale == scale,
                world.wf(),
                world.mats_below(mats@.len() as int),
                mats_wf(mats@),
                out@.len() == 3 * j * width,
                pixels_done(out@, cam, world, mats@, j as int, 0),
            decreases height - j,
        {
            let mut i: i32 = 0;
            proof {
                assert(out@.len() == 3 * j * width + 3 * 0);
            }
            while i < width
                invariant
                    0 <= i <= width,
                    0 <= j < height,
                    1 <= height <= 0x1_0000,
                    1 <= width <= 4096,
                    1 <= spp <= 4096,
                    0 <= scale as int <= SCALE as int,
                    *self == cam,
                    cam_ready(cam),
                    cam.img_height == height,
                    cam.img_width == width,
                    cam.samples_per_pixel == spp,
                    cam.pixel_samples_scale == scale,
                    world.wf(),
                    world.mats_below(mats@.len() as int),
                    mats_wf(mats@),
                    out@.len() == 3 * j * width + 3 * i,
                    pixels_done(out@, cam, world, mats@, j as int, i as int),
                decreases width - i,
            {
                let mut sum = Vec3::new(0, 0, 0);
                let ghost mut samples: Seq<V3> = Seq::empty();
                let mut s: i32 = 0;
                proof {
                    assert(v3_sum(samples) == (V3 { x: 0, y: 0, z: 0 }));
                }
                while s < spp
                    invariant
                        0 <= s <= spp <= 4096,
                        0 <= i <= 4096,
                        0 <= j <= 0x1_0000,
                        *self == cam,
                        cam_ready(cam),
                        world.wf(),
                        world.mats_below(mats@.len() as int),
                        mats_wf(mats@),
                        0 <= sum@.x <= s * SCALE as int,
                        0 <= sum@.y <= s * SCALE as int,
                        0 <= sum@.z <= s * SCALE as int,
                        samples.len() == s as int,
                        sum@ == v3_sum(samples),
                        forall|k: int|
                            0 <= k < samples.len() ==> sample_ok(
                                cam,
                                world,
                                mats@,
                                i as int,
                                j as int,
                                #[trigger] samples[k],
                            ),
                    decreases spp - s,
                {
                    let ray = self.get_ray(i, j);
                    let c = Camera::ray_color(&ray, self.max_depth, world, mats);
                    let next = sum.add(&c);
                    proof {
                        let pushed = samples.push(c@);
                        assert(pushed.drop_last() =~= samples);
                        assert(pushed.last() == c@);
                        assert(v3_sum(pushed) == v3_add(v3_sum(samples), c@));
                        assert(gen_ray_ok(cam, i as int, j as int, ray@));
                        assert(sample_ok(cam, world, mats@, i as int, j as int, c@));
                        samples = pushed;
                    }
                    sum = next;
                    s = s + 1;
                }
                proof {
                    lemma_mul_bound(sum@.x, scale as int, 0x1000_0000, SCALE as int);
                    lemma_mul_bound(sum@.y, scale as int, 0x1000_0000, SCALE as int);
                    lemma_mul_bound(sum@.z, scale as int, 0x1000_0000, SCALE as int);
                }
                let avg = Vec3::new(
                    fx_mul(sum.x, scale),
                    fx_mul(sum.y, scale),
                    fx_mul(sum.z, scale),
                );
                proof {
                    lemma_dfloor_bound(
                        sum@.x * scale as int,
                        SCALE as int,
                        0x1000_0000 * SCALE as int,
                    );
                    lemma_dfloor_bound(
                        sum@.y * scale as int,
                        SCALE as int,
                        0x1000_0000 * SCALE as int,
                    );
                    lemma_dfloor_bound(
                        sum@.z * scale as int,
                        SCALE as int,
                        0x1000_0000 * SCALE as int,
                    );
                    assert(avg@ == v3_scale(v3_sum(samples), cam.pixel_samples_scale as int));
                }
                let bytes = avg.write_color();
                let ghost before = out@;
                out.push(bytes.0);
                out.push(bytes.1);
                out.push(bytes.2);
                proof {
                    let w = cam.img_width as int;
                    let base = 3 * (j as int * w + i as int);
                    assert(3 * (j as int * w + i as int) == 3 * (j as int) * w + 3 * (i as int))
                        by (nonlinear_arith);
                    assert(base == before.len());
                    assert(out@[base] == bytes.0 && out@[base + 1] == bytes.1 && out@[base + 2]
                        == bytes.2);
                    assert(samples.len() == cam.samples_per_pixel as int && (forall|k: int|
                        0 <= k < samples.len() ==> sample_ok(
                            cam,
                            world,
                            mats@,
                            i as int,
                            j as int,
                            #[trigger] samples[k],
                        )) && ({
                        let avg_s = v3_scale(v3_sum(samples), cam.pixel_samples_scale as int);
                        &&& out@[base] as int == crate::color::channel_byte_s(avg_s.x)
                        &&& out@[base + 1] as int == crate::color::channel_byte_s(avg_s.y)
                        &&& out@[base + 2] as int == crate::color::channel_byte_s(avg_s.z)
                    }));
                    assert(pixel_ok(out@, cam, world, mats@, i as int, j as int));
                    lemma_pixels_done_extend(
                        before,
                        out@,
                        cam,
                        world,
                        mats@,
                        j as int,
                        i as int,
                    );
                    assert forall|pj: int, pi: int|
                        0 <= pj && 0 <= pi < w && (pj < j as int || (pj == j as int && pi < i as int
                            + 1)) implies #[trigger] pixel_ok(out@, cam, world, mats@, pi, pj) by {
                        if !(pj < j as int || (pj == j as int && pi < i as int)) {
                            assert(pj == j as int && pi == i as int);
                        }
                    }
                }
                i = i + 1;
            }
            proof {
                assert(3 * (j + 1) * width == 3 * j * width + 3 * width) by (nonlinear_arith);
                assert forall|pj: int, pi: int|
                    0 <= pj && 0 <= pi < cam.img_width as int && (pj < j as int + 1 || (pj == j
                        as int + 1 && pi < 0)) implies #[trigger] pixel_ok(
                    out@,
                    cam,
                    world,
                    mats@,
                    pi,
                    pj,
                ) by {
                    assert(pj < j as int || (pj == j as int && pi < width as int));
                }
            }
            j = j + 1;
        }
        proof {
            assert forall|pj: int, pi: int|
                0 <= pj < cam.img_height as int && 0 <= pi < cam.img_width as int
                    implies #[trigger] pixel_ok(out@, cam, world, mats@, pi, pj) by {
                assert(pj < height as int || (pj == height as int && pi < 0));
            }
        }
        out
    }
}

/// The background blend keeps every channel in [0, 1].
proof fn lemma_background_01(r: RayV)
    ensures
        color01(background_s(r)),
{
    crate::vec3::lemma_unit_components_bounded(r.dir);
    let unit_dir = v3_unit(r.dir);
    let a = dfloor(unit_dir.y + SCALE as int, 2);
    assert(0 <= a <= SCALE as int);
    lemma_mix_01(SCALE as int, 32768, a);
    lemma_mix_01(SCALE as int, 45875, a);
    lemma_mix_01(SCALE as int, 65536, a);
}

/// Blending full intensity toward any channel value in [0, 1] stays in
/// [0, 1].
proof fn lemma_mix_01(w: int, b: int, a: int)
    requires
        w == SCALE as int,
        0 <= b <= SCALE as int,
        0 <= a <= SCALE as int,
    ensures
        0 <= fx_mul_s(w, w - a) + fx_mul_s(b, a) <= SCALE as int,
{
    let s = SCALE as int;
    assert(fx_mul_s(s, s - a) == s - a) by {
        assert(s * (s - a) == (s - a) * s) by (nonlinear_arith);
        vstd::arithmetic::div_mod::lemma_div_by_multiple(s - a, s);
    }
    crate::fx::lemma_fx_mul_bound(b, a, s, a);
    assert(dfloor(s * a, s) == a) by {
        assert(s * a == a * s) by (nonlinear_arith);
        vstd::arithmetic::div_mod::lemma_div_by_multiple(a, s);
    }
    assert(fx_mul_s(b, a) <= dfloor(s * a, s)) by {
        vstd::arithmetic::div_mod::lemma_div_is_ordered(b * a, s * a, s);
        assert(b * a <= s * a) by (nonlinear_arith)
            requires
                0 <= b <= s,
                0 <= a,
        ;
    }
    assert(0 <= fx_mul_s(b, a)) by {
        crate::fx::lemma_dfloor_char(0, b * a, s);
        assert(0 * s <= b * a) by (nonlinear_arith)
            requires
                0 <= b,
                0 <= a,
        ;
    }
}

} // verus!
