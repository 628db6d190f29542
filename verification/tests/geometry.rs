use raytracer::aabb::AABB;
use raytracer::hittable::{HitRecord, Hittable, Primitive};
use raytracer::interval::Interval;
use raytracer::libs::{deg_to_rad, rand_double, rand_range, tan_fx, INFINITY_FX};
use raytracer::quad::Quad;
use raytracer::ray::Ray;
use raytracer::sphere::Sphere;
use raytracer::vec3::Vec3;

const S: i64 = 65536;

#[test]
fn interval_contains_and_surrounds() {
    let iv = Interval::new(10, 20);
    assert!(iv.contains(10));
    assert!(iv.contains(20));
    assert!(iv.contains(15));
    assert!(!iv.contains(9));
    assert!(!iv.surrounds(10));
    assert!(!iv.surrounds(20));
    assert!(iv.surrounds(11));
}

#[test]
fn interval_clamp_and_expand() {
    let iv = Interval::new(-5, 5);
    assert_eq!(iv.clamp(-100), -5);
    assert_eq!(iv.clamp(100), 5);
    assert_eq!(iv.clamp(3), 3);
    let grown = iv.expand(8);
    assert_eq!(grown.min, -9);
    assert_eq!(grown.max, 9);
    assert_eq!(iv.size(), 10);
}

#[test]
fn interval_union_is_tightest() {
    let a = Interval::new(0, 10);
    let b = Interval::new(-3, 4);
    let u = Interval::from_intervals(&a, &b);
    assert_eq!(u.min, -3);
    assert_eq!(u.max, 10);
}

#[test]
fn aabb_pads_thin_axes() {
    // a flat box: the z axis is a single plane and must gain thickness
    let b = AABB::from_points(Vec3::new(-S, -S, -S), Vec3::new(S, S, -S));
    assert_eq!(b.z.min, -S - 4);
    assert_eq!(b.z.max, -S + 4);
    assert_eq!(b.x.min, -S);
    assert_eq!(b.x.max, S);
}

#[test]
fn aabb_hit_straight_on_and_miss() {
    let b = AABB::from_points(Vec3::new(-S, -S, -3 * S), Vec3::new(S, S, -2 * S));
    let toward = Ray::new(Vec3::new(0, 0, 0), Vec3::new(0, 0, -S));
    let away = Ray::new(Vec3::new(0, 0, 0), Vec3::new(0, 0, S));
    let window = Interval::new(65, INFINITY_FX);
    assert!(b.hit(&toward, window));
    assert!(!b.hit(&away, window));
    let sideways = Ray::new(Vec3::new(4 * S, 0, 0), Vec3::new(0, 0, -S));
    assert!(!b.hit(&sideways, window));
}

#[test]
fn longest_axis_prefers_later_on_ties() {
    let cube = AABB::new(
        Interval::new(0, S),
        Interval::new(0, S),
        Interval::new(0, S),
    );
    assert_eq!(cube.longest_axis(), 2);
    let wide = AABB::new(
        Interval::new(0, 3 * S),
        Interval::new(0, S),
        Interval::new(0, S),
    );
    assert_eq!(wide.longest_axis(), 0);
    let tall = AABB::new(
        Interval::new(0, S),
        Interval::new(0, 3 * S),
        Interval::new(0, S),
    );
    assert_eq!(tall.longest_axis(), 1);
}

#[test]
fn sphere_straight_on_hit() {
    // ray from the origin toward a unit-distance sphere of radius one half
    let sphere = Sphere::new(&Vec3::new(0, 0, -S), S / 2, 0);
    let prim = Primitive::Sphere(sphere);
    let ray = Ray::new(Vec3::new(0, 0, 0), Vec3::new(0, 0, -S));
    let mut rec = HitRecord::default();
    let hit = prim.hit(&ray, Interval::new(65, INFINITY_FX), &mut rec);
    assert!(hit);
    assert_eq!(rec.t, 32768);
    assert_eq!((rec.p.x, rec.p.y, rec.p.z), (0, 0, -32768));
    assert_eq!((rec.normal.x, rec.normal.y, rec.normal.z), (0, 0, S));
    assert!(rec.front_face);
    assert_eq!(rec.mat, 0);
}

#[test]
fn sphere_moved_aside_misses() {
    let sphere = Sphere::new(&Vec3::new(2 * S, 2 * S, -S), S / 2, 0);
    let prim = Primitive::Sphere(sphere);
    let ray = Ray::new(Vec3::new(0, 0, 0), Vec3::new(0, 0, -S));
    let mut rec = HitRecord::default();
    let hit = prim.hit(&ray, Interval::new(65, INFINITY_FX), &mut rec);
    assert!(!hit);
}

#[test]
fn sphere_negative_radius_never_hits() {
    let sphere = Sphere::new(&Vec3::new(0, 0, -S), -S, 0);
    assert_eq!(sphere.radius, 0);
    let prim = Primitive::Sphere(sphere);
    let ray = Ray::new(Vec3::new(0, 0, 0), Vec3::new(0, 0, -S));
    let mut rec = HitRecord::default();
    assert!(!prim.hit(&ray, Interval::new(65, INFINITY_FX), &mut rec));
}

#[test]
fn sphere_inside_reports_back_face() {
    // from the centre of a sphere every hit strikes the inside
    let sphere = Sphere::new(&Vec3::new(0, 0, 0), S, 0);
    let prim = Primitive::Sphere(sphere);
    let ray = Ray::new(Vec3::new(0, 0, 0), Vec3::new(0, 0, -S));
    let mut rec = HitRecord::default();
    assert!(prim.hit(&ray, Interval::new(65, INFINITY_FX), &mut rec));
    assert!(!rec.front_face);
    // the reported normal still opposes the ray
    let dot = rec.normal.x as i128 * 0 + rec.normal.y as i128 * 0
        + rec.normal.z as i128 * (-(S as i128));
    assert!(dot <= 0);
}

#[test]
fn quad_center_hit() {
    // a two-by-two quad in the z = -1 plane, struck in its middle
    let quad = Quad::new(
        &Vec3::new(-S, -S, -S),
        &Vec3::new(2 * S, 0, 0),
        &Vec3::new(0, 2 * S, 0),
        0,
    );
    assert_eq!((quad.normal.x, quad.normal.y, quad.normal.z), (0, 0, S));
    assert_eq!(quad.d, -S);
    let prim = Primitive::Quad(quad);
    let ray = Ray::new(Vec3::new(0, 0, 0), Vec3::new(0, 0, -S));
    let mut rec = HitRecord::default();
    assert!(prim.hit(&ray, Interval::new(65, INFINITY_FX), &mut rec));
    assert_eq!(rec.t, S);
    assert_eq!((rec.p.x, rec.p.y, rec.p.z), (0, 0, -S));
    assert_eq!((rec.normal.x, rec.normal.y, rec.normal.z), (0, 0, S));
    assert!(rec.front_face);
}

#[test]
fn quad_outside_interior_misses() {
    let quad = Quad::new(
        &Vec3::new(-S, -S, -S),
        &Vec3::new(2 * S, 0, 0),
        &Vec3::new(0, 2 * S, 0),
        0,
    );
    let prim = Primitive::Quad(quad);
    // aimed past the corner of the quad
    let ray = Ray::new(Vec3::new(3 * S, 3 * S, 0), Vec3::new(0, 0, -S));
    let mut rec = HitRecord::default();
    assert!(!prim.hit(&ray, Interval::new(65, INFINITY_FX), &mut rec));
}

#[test]
fn quad_parallel_ray_misses() {
    let quad = Quad::new(
        &Vec3::new(-S, -S, -S),
        &Vec3::new(2 * S, 0, 0),
        &Vec3::new(0, 2 * S, 0),
        0,
    );
    let prim = Primitive::Quad(quad);
    let ray = Ray::new(Vec3::new(0, 0, 0), Vec3::new(S, 0, 0));
    let mut rec = HitRecord::default();
    assert!(!prim.hit(&ray, Interval::new(65, INFINITY_FX), &mut rec));
}

#[test]
fn set_face_normal_flips_against_ray() {
    let ray = Ray::new(Vec3::new(0, 0, 0), Vec3::new(0, 0, -S));
    let mut rec = HitRecord::default();
    // outward normal along the ray: struck from behind, so it is flipped
    rec.set_face_normal(&ray, &Vec3::new(0, 0, -S));
    assert!(!rec.front_face);
    assert_eq!((rec.normal.x, rec.normal.y, rec.normal.z), (0, 0, S));
    // outward normal against the ray: kept as is
    rec.set_face_normal(&ray, &Vec3::new(0, 0, S));
    assert!(rec.front_face);
    assert_eq!((rec.normal.x, rec.normal.y, rec.normal.z), (0, 0, S));
}

#[test]
fn ray_at_walks_the_line() {
    let ray = Ray::new(Vec3::new(S, 0, 0), Vec3::new(0, 0, -S));
    let p = ray.at(2 * S);
    assert_eq!((p.x, p.y, p.z), (S, 0, -2 * S));
}

#[test]
fn vector_operations() {
    let a = Vec3::new(S, 2 * S, 3 * S);
    let b = Vec3::new(4 * S, 5 * S, 6 * S);
    let sum = a.add(&b);
    assert_eq!((sum.x, sum.y, sum.z), (5 * S, 7 * S, 9 * S));
    let d = a.dot(&b);
    assert_eq!(d, 32 * S);
    let c = a.cross(&b);
    assert_eq!((c.x, c.y, c.z), (-3 * S, 6 * S, -3 * S));
    let u = Vec3::new(3 * S, 0, 4 * S).unit_vector();
    assert_eq!((u.x, u.y, u.z), (39321, 0, 52428));
    let r = Vec3::reflect(&Vec3::new(S, -S, 0), &Vec3::new(0, S, 0));
    assert_eq!((r.x, r.y, r.z), (S, S, 0));
}

#[test]
fn degrees_and_tangent() {
    assert_eq!(deg_to_rad(180 * S), 205887);
    assert_eq!(tan_fx(0), 0);
    // the tangent of pi/4 lands within a unit of one
    let t = tan_fx(51472);
    assert!((t - S).abs() <= 2, "tan(pi/4) was {}", t);
}

#[test]
fn random_samples_stay_in_range() {
    let mut all_equal = true;
    let mut last = rand_double();
    assert!((0..S).contains(&last));
    for _ in 0..64 {
        let v = rand_double();
        assert!((0..S).contains(&v));
        if v != last {
            all_equal = false;
        }
        last = v;
    }
    assert!(!all_equal, "sixty-five identical uniform draws");
    for _ in 0..64 {
        let v = rand_range(-10, 10);
        assert!((-10..10).contains(&v));
    }
}
