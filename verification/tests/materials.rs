use raytracer::hittable::{HitRecord, Hittable, Primitive};
use raytracer::interval::Interval;
use raytracer::libs::INFINITY_FX;
use raytracer::material::{Dielectric, Lambertian, Material, Metal};
use raytracer::ray::Ray;
use raytracer::sphere::Sphere;
use raytracer::vec3::Vec3;

const S: i64 = 65536;

fn hit_record_at(p: Vec3, normal: Vec3, front: bool) -> HitRecord {
    HitRecord { p, normal, t: S, front_face: front, mat: 0 }
}

#[test]
fn lambertian_always_scatters_with_albedo() {
    let albedo = Vec3::new(S / 2, S / 4, S / 8);
    let mat = Lambertian::new(&albedo);
    let ray = Ray::new(Vec3::new(0, 0, 0), Vec3::new(0, 0, -S));
    let rec = hit_record_at(Vec3::new(0, 0, -S), Vec3::new(0, 0, S), true);
    for _ in 0..16 {
        let mut attenuation = Vec3::new(0, 0, 0);
        let mut scattered = Ray::new(Vec3::new(0, 0, 0), Vec3::new(0, 0, 0));
        let b = mat.scatter(&ray, &rec, &mut attenuation, &mut scattered);
        assert!(b);
        assert_eq!(attenuation, albedo);
        assert_eq!(scattered.orig, rec.p);
        // the jittered direction never collapses to the zero vector
        assert!(scattered.dir.x != 0 || scattered.dir.y != 0 || scattered.dir.z != 0);
    }
}

#[test]
fn metal_mirror_reflection() {
    let albedo = Vec3::new(S, S, S);
    let mat = Metal::new(&albedo, 0);
    let ray = Ray::new(Vec3::new(0, 0, 0), Vec3::new(0, 0, -S));
    let rec = hit_record_at(Vec3::new(0, 0, -S), Vec3::new(0, 0, S), true);
    let mut attenuation = Vec3::new(0, 0, 0);
    let mut scattered = Ray::new(Vec3::new(0, 0, 0), Vec3::new(0, 0, 0));
    let b = mat.scatter(&ray, &rec, &mut attenuation, &mut scattered);
    assert!(b);
    assert_eq!(attenuation, albedo);
    // straight-on reflection bounces straight back
    assert_eq!((scattered.dir.x, scattered.dir.y, scattered.dir.z), (0, 0, S));
}

/// A fully fuzzed metal struck so that the mirror direction points into
/// the surface absorbs the ray: no perturbation can bring it back out.
#[test]
fn metal_full_fuzz_below_surface_absorbs() {
    let mat = Metal::new(&Vec3::new(0, 0, 0), S);
    assert_eq!(mat.fuzz, S);
    // incoming along the outward normal: the reflection points inward
    let ray = Ray::new(Vec3::new(0, 0, 0), Vec3::new(0, 0, S));
    let rec = hit_record_at(Vec3::new(0, 0, S), Vec3::new(0, 0, S), false);
    for _ in 0..16 {
        let mut attenuation = Vec3::new(0, 0, 0);
        let mut scattered = Ray::new(Vec3::new(0, 0, 0), Vec3::new(0, 0, 0));
        let b = mat.scatter(&ray, &rec, &mut attenuation, &mut scattered);
        assert!(!b, "a ray reflected into the surface must be absorbed");
    }
}

#[test]
fn metal_fuzz_is_clamped_into_unit_range() {
    let mat = Metal::new(&Vec3::new(S, S, S), 3 * S);
    assert_eq!(mat.fuzz, S);
    let mild = Metal::new(&Vec3::new(S, S, S), S / 4);
    assert_eq!(mild.fuzz, S / 4);
    let negative = Metal::new(&Vec3::new(S, S, S), -S);
    assert_eq!(negative.fuzz, 0);
}

#[test]
fn dielectric_always_scatters_white() {
    let mat = Dielectric::new(98304);  // 1.5
    let ray = Ray::new(Vec3::new(0, 0, 0), Vec3::new(0, 0, -S));
    let rec = hit_record_at(Vec3::new(0, 0, -S), Vec3::new(0, 0, S), true);
    for _ in 0..16 {
        let mut attenuation = Vec3::new(0, 0, 0);
        let mut scattered = Ray::new(Vec3::new(0, 0, 0), Vec3::new(0, 0, 0));
        let b = mat.scatter(&ray, &rec, &mut attenuation, &mut scattered);
        assert!(b);
        assert_eq!((attenuation.x, attenuation.y, attenuation.z), (S, S, S));
        assert_eq!(scattered.orig, rec.p);
        // straight on, reflection and refraction both stay on the axis
        assert_eq!(scattered.dir.x, 0);
        assert_eq!(scattered.dir.y, 0);
        assert!(scattered.dir.z != 0);
    }
}

#[test]
fn schlick_reflectance_at_normal_incidence() {
    // cos = 1: the polynomial collapses to r0 squared
    let r = Dielectric::reflectance(S, 98304);
    // r0 = (1 - 1.5) / (1 + 1.5) = -0.2; squared: 0.04
    let r0 = raytracer::fx::fx_div(S - 98304, S + 98304);
    let expected = raytracer::fx::fx_mul(r0, r0);
    assert_eq!(r, expected);
    assert!((expected - 2621).abs() <= 4, "reflectance 0.04 expected, got {}", expected);
}

/// Attenuating twice through half-gray can only darken: the channel after
/// two bounces is at most the channel after one.
#[test]
fn energy_never_grows_along_a_path() {
    let half = Vec3::new(S / 2, S / 2, S / 2);
    let once = half.comp_mul(&Vec3::new(S, S, S));
    let twice = half.comp_mul(&once);
    assert!(once.x <= S && once.y <= S && once.z <= S);
    assert!(twice.x <= once.x && twice.y <= once.y && twice.z <= once.z);
    assert_eq!((once.x, once.y, once.z), (S / 2, S / 2, S / 2));
    assert_eq!((twice.x, twice.y, twice.z), (S / 4, S / 4, S / 4));
    // a black material stops everything
    let black = Vec3::new(0, 0, 0);
    let stopped = black.comp_mul(&Vec3::new(S, S / 2, S / 4));
    assert_eq!((stopped.x, stopped.y, stopped.z), (0, 0, 0));
}

/// The material index reported by a hit is the index stored in the
/// primitive, so the scene's arena lookup is exact.
#[test]
fn hit_reports_material_index() {
    let prim = Primitive::Sphere(Sphere::new(&Vec3::new(0, 0, -2 * S), S / 2, 3));
    let ray = Ray::new(Vec3::new(0, 0, 0), Vec3::new(0, 0, -S));
    let mut rec = HitRecord::default();
    assert!(prim.hit(&ray, Interval::new(65, INFINITY_FX), &mut rec));
    assert_eq!(rec.mat, 3);
    let b = prim.bounding_box();
    assert!(b.z.max >= rec.p.z && b.z.min <= rec.p.z);
}
