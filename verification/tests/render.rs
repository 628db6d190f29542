use raytracer::bvh_node::BvhNode;
use raytracer::camera::Camera;
use raytracer::color::Color;
use raytracer::hittable::{HitRecord, Hittable, Primitive};
use raytracer::hittable_list::HittableList;
use raytracer::interval::Interval;
use raytracer::libs::INFINITY_FX;
use raytracer::material::{Lambertian, MaterialKind};
use raytracer::ray::Ray;
use raytracer::sphere::Sphere;
use raytracer::vec3::Vec3;

const S: i64 = 65536;

fn demo_spheres() -> Vec<Primitive> {
    vec![
        Primitive::Sphere(Sphere::new(&Vec3::new(0, 0, -2 * S), S / 2, 0)),
        Primitive::Sphere(Sphere::new(&Vec3::new(0, 0, -4 * S), S / 2, 1)),
        Primitive::Sphere(Sphere::new(&Vec3::new(3 * S, 0, -3 * S), S, 2)),
        Primitive::Sphere(Sphere::new(&Vec3::new(-3 * S, S, -5 * S), S, 3)),
        Primitive::Sphere(Sphere::new(&Vec3::new(0, -100 * S, -2 * S), 99 * S, 4)),
    ]
}

fn demo_rays() -> Vec<Ray> {
    vec![
        Ray::new(Vec3::new(0, 0, 0), Vec3::new(0, 0, -S)),
        Ray::new(Vec3::new(0, 0, 0), Vec3::new(S / 2, 0, -S)),
        Ray::new(Vec3::new(0, 0, 0), Vec3::new(-S / 2, S / 4, -S)),
        Ray::new(Vec3::new(0, 0, 0), Vec3::new(0, -S / 2, -S)),
        Ray::new(Vec3::new(S, S, 0), Vec3::new(0, 0, -S)),
        Ray::new(Vec3::new(0, 0, 0), Vec3::new(0, S, 0)),
        Ray::new(Vec3::new(0, 0, 0), Vec3::new(S, S, S)),
    ]
}

/// The hierarchy answers every query exactly as the brute-force scan does.
#[test]
fn bvh_agrees_with_brute_force() {
    let mut list = HittableList::default();
    for p in demo_spheres() {
        list.add(p);
    }
    let mut bvh_list = HittableList::default();
    for p in demo_spheres() {
        bvh_list.add(p);
    }
    let bvh = BvhNode::from_hittable_list(bvh_list);
    let window = Interval::new(65, INFINITY_FX);
    for ray in demo_rays() {
        let mut rec_list = HitRecord::default();
        let mut rec_bvh = HitRecord::default();
        let hit_list = list.hit(&ray, window, &mut rec_list);
        let hit_bvh = bvh.hit(&ray, window, &mut rec_bvh);
        assert_eq!(hit_list, hit_bvh);
        if hit_list {
            assert_eq!(rec_list.t, rec_bvh.t);
            assert_eq!(rec_list.p, rec_bvh.p);
            assert_eq!(rec_list.normal, rec_bvh.normal);
            assert_eq!(rec_list.front_face, rec_bvh.front_face);
            assert_eq!(rec_list.mat, rec_bvh.mat);
        }
    }
}

/// A one-element group builds the shared-leaf tree and still answers
/// exactly like the scan.
#[test]
fn bvh_over_single_object() {
    let mut list = HittableList::default();
    list.add(Primitive::Sphere(Sphere::new(&Vec3::new(0, 0, -2 * S), S / 2, 0)));
    let bvh = BvhNode::from_hittable_list(list);
    let ray = Ray::new(Vec3::new(0, 0, 0), Vec3::new(0, 0, -S));
    let mut rec = HitRecord::default();
    assert!(bvh.hit(&ray, Interval::new(65, INFINITY_FX), &mut rec));
    assert_eq!(rec.t, 98304);
    let miss = Ray::new(Vec3::new(0, 0, 0), Vec3::new(0, 0, S));
    assert!(!bvh.hit(&miss, Interval::new(65, INFINITY_FX), &mut rec));
}

/// With two spheres stacked along the ray, the reported parameter is the
/// smaller one, whichever order the group holds them in.
#[test]
fn closest_hit_wins() {
    let near = Primitive::Sphere(Sphere::new(&Vec3::new(0, 0, -2 * S), S / 2, 0));
    let far = Primitive::Sphere(Sphere::new(&Vec3::new(0, 0, -4 * S), S / 2, 1));
    let ray = Ray::new(Vec3::new(0, 0, 0), Vec3::new(0, 0, -S));
    let window = Interval::new(65, INFINITY_FX);
    for order in [[near, far], [far, near]] {
        let mut list = HittableList::default();
        for p in order {
            list.add(p);
        }
        let mut rec = HitRecord::default();
        assert!(list.hit(&ray, window, &mut rec));
        assert_eq!(rec.t, 98304);
        assert_eq!(rec.mat, 0);
    }
}

/// The record is only overwritten by a strictly closer hit during a scan.
#[test]
fn farther_object_leaves_record_alone() {
    let mut list = HittableList::default();
    list.add(Primitive::Sphere(Sphere::new(&Vec3::new(0, 0, -2 * S), S / 2, 7)));
    let ray = Ray::new(Vec3::new(0, 0, 0), Vec3::new(0, 0, -S));
    let mut rec = HitRecord::default();
    // narrow the window so the sphere lies beyond it: the record is kept
    assert!(!list.hit(&ray, Interval::new(65, 98303), &mut rec));
    assert_eq!(rec.t, 0);
}

/// An empty scene resolves every ray to the pure background blend.
#[test]
fn empty_scene_gives_background() {
    let list = HittableList::default();
    let mats: Vec<MaterialKind> = vec![];
    let ray = Ray::new(Vec3::new(0, 0, 0), Vec3::new(0, 0, -S));
    let c = Camera::ray_color(&ray, 8, &list, &mats);
    assert_eq!((c.x, c.y, c.z), (49152, 55705, 65536));
}

/// A ray that misses every object falls back to the same background.
#[test]
fn miss_gives_background() {
    let mut list = HittableList::default();
    list.add(Primitive::Sphere(Sphere::new(&Vec3::new(2 * S, 2 * S, -S), S / 2, 0)));
    let mats = vec![MaterialKind::Lambertian(Lambertian::new(&Vec3::new(S / 2, S / 2, S / 2)))];
    let ray = Ray::new(Vec3::new(0, 0, 0), Vec3::new(0, 0, -S));
    let c = Camera::ray_color(&ray, 8, &list, &mats);
    assert_eq!((c.x, c.y, c.z), (49152, 55705, 65536));
}

/// An exhausted depth budget yields black.
#[test]
fn depth_zero_is_black() {
    let list = HittableList::default();
    let mats: Vec<MaterialKind> = vec![];
    let ray = Ray::new(Vec3::new(0, 0, 0), Vec3::new(0, 0, -S));
    let c = Camera::ray_color(&ray, 0, &list, &mats);
    assert_eq!((c.x, c.y, c.z), (0, 0, 0));
}

/// Channels are gamma corrected, clamped and quantized exactly as
/// floor(256 * clamp(sqrt(c), 0, 0.999)).
#[test]
fn color_quantization() {
    let c = Vec3::new(S / 4, S, 0);
    assert_eq!(c.write_color(), (128, 255, 0));
    let gray = Vec3::new(S / 2, S / 2, S / 2);
    // sqrt(0.5) = 0.7071...; its mantissa is 46340 and 46340*256/65536 = 181
    assert_eq!(gray.write_color(), (181, 181, 181));
    assert_eq!(Color::linear_to_gamma(S / 4), S / 2);
    assert_eq!(Color::linear_to_gamma(-5), 0);
}

/// A tiny render produces one RGB triple per pixel, row-major.
#[test]
fn render_dimensions() {
    let mut cam = Camera::default();
    cam.img_width = 8;
    cam.samples_per_pixel = 2;
    cam.max_depth = 3;
    let mut list = HittableList::default();
    list.add(Primitive::Sphere(Sphere::new(&Vec3::new(0, 0, -2 * S), S / 2, 0)));
    let mats = vec![MaterialKind::Lambertian(Lambertian::new(&Vec3::new(S / 2, S / 2, S / 2)))];
    let image = cam.render(&list, &mats);
    assert_eq!(cam.img_height, 8);
    assert_eq!(image.len(), 3 * 8 * 8);
}

/// The group keeps its running union box and its member list in step.
#[test]
fn list_add_and_clear() {
    let mut list = HittableList::default();
    assert_eq!(list.objects.len(), 0);
    list.add(Primitive::Sphere(Sphere::new(&Vec3::new(0, 0, -2 * S), S / 2, 0)));
    assert_eq!(list.objects.len(), 1);
    assert!(list.bbox.x.min <= -S / 2 && list.bbox.x.max >= S / 2);
    list.clear();
    assert_eq!(list.objects.len(), 0);
    let single = HittableList::new(Primitive::Sphere(Sphere::new(&Vec3::new(0, 0, 0), S, 1)));
    assert_eq!(single.objects.len(), 1);
    // a one-member group already encloses that member's box
    let b = single.objects[0].bounding_box();
    assert!(single.bbox.x.min <= b.x.min && single.bbox.x.max >= b.x.max);
    assert!(single.bbox.y.min <= b.y.min && single.bbox.y.max >= b.y.max);
    assert!(single.bbox.z.min <= b.z.min && single.bbox.z.max >= b.z.max);
}

/// Whatever is struck, the reported normal never points with the ray.
#[test]
fn reported_normals_oppose_rays() {
    let mut list = HittableList::default();
    for p in demo_spheres() {
        list.add(p);
    }
    list.add(Primitive::Quad(raytracer::quad::Quad::new(
        &Vec3::new(-2 * S, -S, -3 * S),
        &Vec3::new(4 * S, 0, 0),
        &Vec3::new(0, 3 * S, 0),
        5,
    )));
    let window = Interval::new(65, INFINITY_FX);
    for ray in demo_rays() {
        let mut rec = HitRecord::default();
        if list.hit(&ray, window, &mut rec) {
            let dot = ray.dir.x as i128 * rec.normal.x as i128
                + ray.dir.y as i128 * rec.normal.y as i128
                + ray.dir.z as i128 * rec.normal.z as i128;
            assert!(dot <= 0, "normal points along the ray");
        }
    }
}

/// A scene mixing spheres and quads still traverses exactly like the scan.
#[test]
fn bvh_agrees_on_mixed_scene() {
    let quad = Primitive::Quad(raytracer::quad::Quad::new(
        &Vec3::new(-2 * S, -S, -3 * S),
        &Vec3::new(4 * S, 0, 0),
        &Vec3::new(0, 3 * S, 0),
        5,
    ));
    let mut list = HittableList::default();
    let mut for_bvh = HittableList::default();
    for p in demo_spheres() {
        list.add(p);
        for_bvh.add(p);
    }
    list.add(quad);
    for_bvh.add(quad);
    let bvh = BvhNode::from_hittable_list(for_bvh);
    let window = Interval::new(65, INFINITY_FX);
    for ray in demo_rays() {
        let mut rec_list = HitRecord::default();
        let mut rec_bvh = HitRecord::default();
        assert_eq!(list.hit(&ray, window, &mut rec_list), bvh.hit(&ray, window, &mut rec_bvh));
        assert_eq!(rec_list.t, rec_bvh.t);
        assert_eq!(rec_list.mat, rec_bvh.mat);
    }
}
