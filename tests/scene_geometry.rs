use raytracer::camera::Camera;
use raytracer::fixed::ONE;
use raytracer::hittable::{hit_record, Hittable};
use raytracer::hittable_list::HittableList;
use raytracer::material::{Lambertian, Material};
use raytracer::ray::Ray;
use raytracer::render::T_MIN;
use raytracer::rtweekend::INFINITY;
use raytracer::scene::random_scene;
use raytracer::sphere::Sphere;
use raytracer::vec3::Vec3;

fn v(x: i64, y: i64, z: i64) -> Vec3 {
    Vec3::new_with_values(x, y, z)
}

fn diffuse(r: i64, g: i64, b: i64) -> Material {
    Material::Lambertian(Lambertian::new_with_values(v(r, g, b)))
}

fn sphere(center: Vec3, radius: i64, m: Material) -> Sphere {
    Sphere::new_with_values(center, radius, m).unwrap()
}

#[test]
fn ray_at_parameter() {
    let r = Ray::new_with_values(v(ONE, 0, 0), v(0, 2 * ONE, 0));
    assert_eq!(r.at(ONE / 2), v(ONE, ONE, 0));
    assert_eq!(r.origin(), v(ONE, 0, 0));
    assert_eq!(r.direction(), v(0, 2 * ONE, 0));
    let z = Ray::new();
    assert!(z.origin().near_zero() && z.direction().near_zero());
}

#[test]
fn sphere_hit_from_outside() {
    let s = sphere(v(0, 0, -ONE), ONE / 2, diffuse(ONE, 0, 0));
    let r = Ray::new_with_values(v(0, 0, 0), v(0, 0, -ONE));
    let mut rec = hit_record::new();
    assert!(s.hit(&r, T_MIN, INFINITY, &mut rec));
    assert_eq!(rec.t, 500_000_000_000);
    assert_eq!(rec.p, v(0, 0, -500_000_000_000));
    assert_eq!(rec.normal, v(0, 0, ONE));
    assert!(rec.front_face);
    assert_eq!(rec.material, diffuse(ONE, 0, 0));
}

#[test]
fn sphere_hit_from_inside_turns_the_normal() {
    let s = sphere(v(0, 0, 0), ONE, diffuse(ONE, 0, 0));
    let r = Ray::new_with_values(v(0, 0, 0), v(ONE, 0, 0));
    let mut rec = hit_record::new();
    assert!(s.hit(&r, T_MIN, INFINITY, &mut rec));
    assert_eq!(rec.t, ONE);
    assert_eq!(rec.normal, v(-ONE, 0, 0));
    assert!(!rec.front_face);
}

#[test]
fn sphere_miss_leaves_the_record() {
    let s = sphere(v(0, 0, -ONE), ONE / 2, diffuse(ONE, 0, 0));
    let mut rec = hit_record::new();
    rec.t = 42;
    let up = Ray::new_with_values(v(0, 0, 0), v(0, ONE, 0));
    assert!(!s.hit(&up, T_MIN, INFINITY, &mut rec));
    assert_eq!(rec.t, 42);
    let toward = Ray::new_with_values(v(0, 0, 0), v(0, 0, -ONE));
    assert!(!s.hit(&toward, 1000, 400_000_000_000, &mut rec));
    assert_eq!(rec.t, 42);
    let still = Ray::new_with_values(v(0, 0, 0), v(0, 0, 0));
    assert!(!s.hit(&still, T_MIN, INFINITY, &mut rec));
}

#[test]
fn far_root_when_near_root_is_behind() {
    let s = sphere(v(0, 0, -ONE), ONE / 2, diffuse(ONE, 0, 0));
    let r = Ray::new_with_values(v(0, 0, 0), v(0, 0, -ONE));
    let mut rec = hit_record::new();
    assert!(s.hit(&r, 600_000_000_000, INFINITY, &mut rec));
    assert_eq!(rec.t, 1_500_000_000_000);
    assert!(!rec.front_face);
}

#[test]
fn ray_leaving_the_surface_outward_misses() {
    let s = sphere(v(0, 0, -ONE), ONE / 2, diffuse(ONE, 0, 0));
    let surface_points = [
        v(0, 0, -500_000_000_000),
        v(500_000_000_000, 0, -ONE),
        v(300_000_000_000, 400_000_000_000, -ONE),
        v(0, -300_000_000_000, -600_000_000_000),
    ];
    for p in surface_points.iter() {
        let outward = p.sub(v(0, 0, -ONE));
        let r = Ray::new_with_values(*p, outward);
        let mut rec = hit_record::new();
        assert!(!s.hit(&r, T_MIN, INFINITY, &mut rec), "hit from {:?}", p);
    }
    let top = v(0, 0, -500_000_000_000);
    for d in [v(ONE, 0, ONE), v(ONE, 0, 0), v(-3 * ONE, 2 * ONE, 1)].iter() {
        let r = Ray::new_with_values(top, *d);
        let mut rec = hit_record::new();
        assert!(!s.hit(&r, T_MIN, INFINITY, &mut rec), "hit along {:?}", d);
    }
}

#[test]
fn hit_normals_have_unit_length_and_face_the_ray() {
    let s = sphere(v(ONE / 3, -ONE / 7, -3 * ONE), 1_234_567_890_123, diffuse(ONE, 0, 0));
    let dirs = [v(0, 0, -ONE), v(123_456_789, -98_765_432, -ONE), v(300_000_000_000, 0, -2 * ONE)];
    for d in dirs.iter() {
        let r = Ray::new_with_values(v(0, 0, 0), *d);
        let mut rec = hit_record::new();
        assert!(s.hit(&r, T_MIN, INFINITY, &mut rec));
        let len = rec.normal.length();
        assert!(ONE - 1000 <= len && len <= ONE + 1000, "normal length {}", len);
        assert!(Vec3::dot(&rec.normal, d) <= 0);
    }
}

#[test]
fn sphere_radius_must_be_positive() {
    assert!(Sphere::new_with_values(v(0, 0, 0), 0, diffuse(0, 0, 0)).is_none());
    assert!(Sphere::new_with_values(v(0, 0, 0), -ONE, diffuse(0, 0, 0)).is_none());
    assert!(Sphere::new_with_values(v(0, 0, 0), 1, diffuse(0, 0, 0)).is_some());
}

#[test]
fn list_reports_the_closest_hit() {
    let mut world = HittableList::new();
    let far = sphere(v(0, 0, -5 * ONE), ONE, diffuse(0, 0, ONE));
    let near = sphere(v(0, 0, -2 * ONE), ONE / 2, diffuse(ONE, 0, 0));
    world.add(far);
    world.add(near);
    let r = Ray::new_with_values(v(0, 0, 0), v(0, 0, -ONE));
    let mut rec = hit_record::new();
    assert!(world.hit(&r, T_MIN, INFINITY, &mut rec));
    assert_eq!(rec.t, 1_500_000_000_000);
    assert_eq!(rec.material, diffuse(ONE, 0, 0));
    let mut other = HittableList::new();
    other.add(near);
    other.add(far);
    let mut rec2 = hit_record::new();
    assert!(other.hit(&r, T_MIN, INFINITY, &mut rec2));
    assert_eq!(rec2, rec);
}

#[test]
fn empty_and_cleared_lists_hit_nothing() {
    let mut world = HittableList::new();
    let r = Ray::new_with_values(v(0, 0, 0), v(0, 0, -ONE));
    let mut rec = hit_record::new();
    assert!(!world.hit(&r, T_MIN, INFINITY, &mut rec));
    world.add(sphere(v(0, 0, -2 * ONE), ONE / 2, diffuse(ONE, 0, 0)));
    assert!(world.hit(&r, T_MIN, INFINITY, &mut rec));
    world.clear();
    assert!(world.objects.is_empty());
    let mut rec2 = hit_record::new();
    assert!(!world.hit(&r, T_MIN, INFINITY, &mut rec2));
}

fn pinhole() -> Camera {
    Camera::new(v(0, 0, 0), v(0, 0, -ONE), v(0, ONE, 0), ONE, 2 * ONE, 0, ONE).unwrap()
}

#[test]
fn camera_basis_and_viewport() {
    let cam = pinhole();
    assert_eq!(cam.w, v(0, 0, ONE));
    assert_eq!(cam.u, v(ONE, 0, 0));
    assert_eq!(cam.v, v(0, ONE, 0));
    assert_eq!(cam.horizontal, v(4 * ONE, 0, 0));
    assert_eq!(cam.vertical, v(0, 2 * ONE, 0));
    assert_eq!(cam.lower_left_corner, v(-2 * ONE, -ONE, -ONE));
    assert_eq!(cam.lens_radius, 0);
}

#[test]
fn pinhole_camera_rays() {
    let cam = pinhole();
    let centre = cam.get_ray(ONE / 2, ONE / 2);
    assert_eq!(centre.origin(), v(0, 0, 0));
    assert_eq!(centre.direction(), v(0, 0, -ONE));
    let corner = cam.get_ray(0, 0);
    assert_eq!(corner.direction(), v(-2 * ONE, -ONE, -ONE));
}

#[test]
fn lens_offsets_the_origin_within_the_aperture() {
    let cam = Camera::new(v(0, 0, 0), v(0, 0, -ONE), v(0, ONE, 0), ONE, 2 * ONE, 2 * ONE, ONE).unwrap();
    assert_eq!(cam.lens_radius, ONE);
    for _ in 0..100 {
        let r = cam.get_ray(ONE / 2, ONE / 2);
        let o = r.origin();
        assert_eq!(o.z, 0);
        assert!((o.x as i128).pow(2) + (o.y as i128).pow(2) < (ONE as i128).pow(2));
        assert_eq!(r.direction(), v(-o.x, -o.y, -ONE));
    }
    let fixed = cam.get_ray_with(ONE / 2, ONE / 2, v(ONE / 2, 0, 0));
    assert_eq!(fixed.origin(), v(ONE / 2, 0, 0));
}

#[test]
fn pinhole_centre_ray_runs_down_the_axis() {
    for (h, aspect, focus) in [(ONE, 2 * ONE, ONE), (176_326_980_708, 1_777_777_777_778, 10 * ONE), (3 * ONE, ONE, 7)].iter() {
        let cam = Camera::new(v(0, 0, 0), v(0, 0, -ONE), v(0, ONE, 0), *h, *aspect, 0, *focus).unwrap();
        let r = cam.get_ray(ONE / 2, ONE / 2);
        assert_eq!(r.origin(), v(0, 0, 0));
        assert_eq!(r.direction(), v(0, 0, -*focus));
    }
}

#[test]
fn degenerate_cameras_are_refused() {
    assert!(Camera::new(v(ONE, ONE, ONE), v(ONE, ONE, ONE), v(0, ONE, 0), ONE, ONE, 0, ONE).is_none());
    assert!(Camera::new(v(0, 0, 0), v(0, -ONE, 0), v(0, ONE, 0), ONE, ONE, 0, ONE).is_none());
}

#[test]
fn demonstration_scene_layout() {
    let world = random_scene();
    let n = world.objects.len();
    assert!(n >= 4 && n <= 4 + 22 * 22);
    assert_eq!(world.objects[0].radius, 1000 * ONE);
    assert_eq!(world.objects[0].center, v(0, -1000 * ONE, 0));
    for s in world.objects[1..n - 3].iter() {
        assert_eq!(s.radius, 200_000_000_000);
        assert_eq!(s.center.y, 200_000_000_000);
        match s.mat_ptr {
            Material::Lambertian(l) => {
                for c in [l.albedo.x, l.albedo.y, l.albedo.z].iter() {
                    assert!(0 <= *c && *c < ONE);
                }
            }
            Material::Metal(m) => {
                for c in [m.albedo.x, m.albedo.y, m.albedo.z].iter() {
                    assert!(ONE / 2 <= *c && *c < ONE);
                }
                assert!(0 <= m.fuzz && m.fuzz < ONE / 2);
            }
            Material::Dielectric(d) => assert_eq!(d.ir, 1_500_000_000_000),
        }
    }
    assert_eq!(world.objects[n - 1].center, v(4 * ONE, ONE, 0));
    assert_eq!(world.objects[n - 2].center, v(-4 * ONE, ONE, 0));
    assert_eq!(world.objects[n - 3].center, v(0, ONE, 0));
}
