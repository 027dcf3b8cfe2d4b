use raytracer::camera::Camera;
use raytracer::color::color_to_bytes;
use raytracer::fixed::ONE;
use raytracer::hittable::{hit_record, Hittable};
use raytracer::hittable_list::HittableList;
use raytracer::material::{reflectance, refract, Dielectric, Lambertian, Material, Metal};
use raytracer::ray::Ray;
use raytracer::render::{background, pixel_color, ray_color, T_MIN};
use raytracer::rtweekend::INFINITY;
use raytracer::sphere::Sphere;
use raytracer::vec3::{random_unit_vector, reflect, Vec3};

fn v(x: i64, y: i64, z: i64) -> Vec3 {
    Vec3::new_with_values(x, y, z)
}

fn record(p: Vec3, normal: Vec3, front_face: bool, material: Material) -> hit_record {
    let mut rec = hit_record::new();
    rec.p = p;
    rec.normal = normal;
    rec.front_face = front_face;
    rec.material = material;
    rec
}

fn dot(a: &Vec3, b: &Vec3) -> i128 {
    a.x as i128 * b.x as i128 + a.y as i128 * b.y as i128 + a.z as i128 * b.z as i128
}

#[test]
fn lambertian_scatters_toward_the_normal_side() {
    let m = Lambertian::new_with_values(v(ONE / 2, ONE / 2, ONE / 2));
    let normals = [v(0, ONE, 0), v(600_000_000_000, 0, -800_000_000_000), v(0, 0, -ONE)];
    for n in normals.iter() {
        let rec = record(v(0, 0, 0), *n, true, Material::Lambertian(m));
        let r_in = Ray::new_with_values(v(0, 5 * ONE, 0), v(0, -ONE, 0));
        for _ in 0..500 {
            let mut att = Vec3::new();
            let mut sc = Ray::new();
            assert!(m.scatter(&r_in, &rec, &mut att, &mut sc));
            assert_eq!(att, v(ONE / 2, ONE / 2, ONE / 2));
            assert_eq!(sc.origin(), rec.p);
            assert!(dot(&sc.direction(), n) >= 0);
        }
    }
}

#[test]
fn lambertian_falls_back_to_the_normal() {
    let m = Lambertian::new_with_values(v(ONE, 0, 0));
    let rec = record(v(ONE, 0, 0), v(0, ONE, 0), true, Material::Lambertian(m));
    let mut att = Vec3::new();
    let mut sc = Ray::new();
    assert!(m.scatter_with(&rec, v(0, -ONE, 0), &mut att, &mut sc));
    assert_eq!(sc.direction(), v(0, ONE, 0));
    assert!(m.scatter_with(&rec, v(5_000, -ONE + 5_000, 0), &mut att, &mut sc));
    assert_eq!(sc.direction(), v(0, ONE, 0));
    assert!(m.scatter_with(&rec, v(ONE, 0, 0), &mut att, &mut sc));
    assert_eq!(sc.direction(), v(ONE, ONE, 0));
    assert_eq!(sc.origin(), v(ONE, 0, 0));
    assert_eq!(att, v(ONE, 0, 0));
}

#[test]
fn smooth_metal_is_a_mirror() {
    let m = Metal::new_with_values(v(700_000_000_000, 600_000_000_000, 500_000_000_000), 0);
    let n = v(0, ONE, 0);
    let rec = record(v(0, 0, 0), n, true, Material::Metal(m));
    let r_in = Ray::new_with_values(v(-ONE, ONE, 0), v(3 * ONE, -4 * ONE, 0));
    let mirror = reflect(&r_in.direction().unit_vector(), &n);
    assert_eq!(mirror, v(600_000_000_000, 800_000_000_000, 0));
    for _ in 0..50 {
        let mut att = Vec3::new();
        let mut sc = Ray::new();
        assert!(m.scatter(&r_in, &rec, &mut att, &mut sc));
        assert_eq!(sc.direction(), mirror);
        assert_eq!(att, v(700_000_000_000, 600_000_000_000, 500_000_000_000));
    }
}

#[test]
fn metal_fuzz_is_clamped() {
    assert_eq!(Metal::new_with_values(v(0, 0, 0), 2 * ONE).fuzz, ONE);
    assert_eq!(Metal::new_with_values(v(0, 0, 0), -ONE).fuzz, 0);
    assert_eq!(Metal::new_with_values(v(0, 0, 0), 300_000_000_000).fuzz, 300_000_000_000);
    assert_eq!(Metal::new().fuzz, 0);
}

#[test]
fn fuzzy_metal_absorbs_rays_turned_into_the_surface() {
    let m = Metal::new_with_values(v(ONE, ONE, ONE), ONE);
    let rec = record(v(0, 0, 0), v(0, ONE, 0), true, Material::Metal(m));
    let r_in = Ray::new_with_values(v(-ONE, ONE, 0), v(3 * ONE, -4 * ONE, 0));
    let mut att = Vec3::new();
    let mut sc = Ray::new();
    assert!(!m.scatter_with(&r_in, &rec, v(0, -900_000_000_000, 0), &mut att, &mut sc));
    assert_eq!(sc.direction(), v(600_000_000_000, -100_000_000_000, 0));
    assert!(m.scatter_with(&r_in, &rec, v(0, 900_000_000_000, 0), &mut att, &mut sc));
    assert_eq!(sc.direction(), v(600_000_000_000, 1_700_000_000_000, 0));
}

#[test]
fn index_one_glass_does_not_bend() {
    let d = Dielectric::new_with_values(ONE).unwrap();
    let n = v(0, ONE, 0);
    let rec = record(v(0, 0, 0), n, true, Material::Dielectric(d));
    let incoming = [v(600_000_000_000, -800_000_000_000, 0), v(0, -ONE, 0), v(0, -800_000_000_000, 600_000_000_000)];
    for dir in incoming.iter() {
        let r_in = Ray::new_with_values(v(0, ONE, 0), *dir);
        let mut att = Vec3::new();
        let mut sc = Ray::new();
        assert!(d.scatter_with(&r_in, &rec, 500_000_000_000, &mut att, &mut sc));
        assert_eq!(att, v(ONE, ONE, ONE));
        assert_eq!(sc.direction(), *dir);
    }
    let head_on = Ray::new_with_values(v(0, ONE, 0), v(0, -3 * ONE, 0));
    for _ in 0..50 {
        let mut att = Vec3::new();
        let mut sc = Ray::new();
        assert!(d.scatter(&head_on, &rec, &mut att, &mut sc));
        assert_eq!(sc.direction(), v(0, -ONE, 0));
    }
}

#[test]
fn glass_reflects_totally_at_grazing_exit() {
    let d = Dielectric::new_with_values(1_500_000_000_000).unwrap();
    let rec = record(v(0, 0, 0), v(0, -ONE, 0), false, Material::Dielectric(d));
    let r_in = Ray::new_with_values(v(-ONE, -100_000_000_000, 0), v(ONE, 100_000_000_000, 0));
    let mut att = Vec3::new();
    let mut sc = Ray::new();
    assert!(d.scatter_with(&r_in, &rec, ONE - 1, &mut att, &mut sc));
    let u = r_in.direction().unit_vector();
    assert_eq!(sc.direction(), reflect(&u, &v(0, -ONE, 0)).unit_vector());
    let len = sc.direction().length();
    assert!(ONE - 1000 <= len && len <= ONE);
}

#[test]
fn glass_sends_out_unit_directions() {
    let d = Dielectric::new_with_values(1_500_000_000_000).unwrap();
    let n = v(0, ONE, 0);
    for front in [true, false].iter() {
        let normal = if *front { n } else { n.neg() };
        let rec = record(v(0, 0, 0), normal, *front, Material::Dielectric(d));
        let dir = if *front { v(123_456_789_012, -987_654_321_098, 55_555) } else { v(123_456_789_012, 987_654_321_098, 55_555) };
        let r_in = Ray::new_with_values(v(0, 0, 0), dir);
        for _ in 0..50 {
            let mut att = Vec3::new();
            let mut sc = Ray::new();
            assert!(d.scatter(&r_in, &rec, &mut att, &mut sc));
            let len = sc.direction().length();
            assert!(ONE - 1000 <= len && len <= ONE + 1000, "length {}", len);
        }
    }
}

#[test]
fn refraction_index_must_be_positive() {
    assert!(Dielectric::new_with_values(0).is_none());
    assert!(Dielectric::new_with_values(-ONE).is_none());
    assert_eq!(Dielectric::new_with_values(1_500_000_000_000).unwrap().ir, 1_500_000_000_000);
    assert_eq!(Dielectric::new().ir, ONE);
}

#[test]
fn schlick_reflectance_values() {
    assert_eq!(reflectance(ONE, 1_500_000_000_000), 40_000_000_000);
    assert_eq!(reflectance(0, 1_500_000_000_000), ONE);
    assert_eq!(reflectance(ONE, ONE), 0);
    assert_eq!(reflectance(ONE / 2, ONE), 31_250_000_000);
}

#[test]
fn refract_with_ratio_one_keeps_the_direction() {
    let n = v(0, ONE, 0);
    assert_eq!(refract(&v(600_000_000_000, -800_000_000_000, 0), &n, ONE), v(600_000_000_000, -800_000_000_000, 0));
}

#[test]
fn refract_into_denser_medium_bends_toward_the_normal() {
    let n = v(0, ONE, 0);
    let r = refract(&v(600_000_000_000, -800_000_000_000, 0), &n, 500_000_000_000);
    assert_eq!(r.x, 300_000_000_000);
    assert!(r.y < -800_000_000_000);
}

fn two_sphere_world() -> HittableList {
    let mut world = HittableList::new();
    let ground = Material::Lambertian(Lambertian::new_with_values(v(800_000_000_000, 800_000_000_000, 0)));
    let centre = Material::Lambertian(Lambertian::new_with_values(v(100_000_000_000, 200_000_000_000, 500_000_000_000)));
    world.add(Sphere::new_with_values(v(0, -100_500_000_000_000, -ONE), 100 * ONE, ground).unwrap());
    world.add(Sphere::new_with_values(v(0, 0, -ONE), ONE / 2, centre).unwrap());
    world
}

#[test]
fn centre_ray_strikes_the_small_sphere() {
    let world = two_sphere_world();
    let cam = Camera::new(v(0, 0, 0), v(0, 0, -ONE), v(0, ONE, 0), ONE, 2 * ONE, 0, ONE).unwrap();
    let r = cam.get_ray(ONE / 2, ONE / 2);
    assert_eq!(r.direction(), v(0, 0, -ONE));
    let mut rec = hit_record::new();
    assert!(world.hit(&r, T_MIN, INFINITY, &mut rec));
    assert_eq!(rec.t, 500_000_000_000);
    assert_eq!(rec.p, v(0, 0, -500_000_000_000));
    assert_eq!(rec.material, Material::Lambertian(Lambertian::new_with_values(v(100_000_000_000, 200_000_000_000, 500_000_000_000))));
    for _ in 0..20 {
        let c = ray_color(&r, &world, 5);
        assert_ne!(c, background(&r.direction()));
        assert!(c.x <= 100_000_000_000 && c.y <= 200_000_000_000 && c.z <= 500_000_000_000);
    }
}

#[test]
fn no_bounces_left_is_black() {
    let world = two_sphere_world();
    let rays = [
        Ray::new_with_values(v(0, 0, 0), v(0, 0, -ONE)),
        Ray::new_with_values(v(0, 0, 0), v(0, ONE, 0)),
        Ray::new_with_values(v(3 * ONE, -ONE, 2 * ONE), v(-ONE, 0, 0)),
    ];
    for r in rays.iter() {
        assert_eq!(ray_color(r, &world, 0), v(0, 0, 0));
    }
    let empty = HittableList::new();
    assert_eq!(ray_color(&rays[1], &empty, 0), v(0, 0, 0));
}

#[test]
fn escaping_rays_see_the_sky() {
    let empty = HittableList::new();
    let up = Ray::new_with_values(v(0, 0, 0), v(0, ONE, 0));
    assert_eq!(background(&up.direction()), v(ONE / 2, 700_000_000_000, ONE));
    assert_eq!(ray_color(&up, &empty, 3), v(ONE / 2, 700_000_000_000, ONE));
    let down = Ray::new_with_values(v(0, 0, 0), v(0, -2 * ONE, 0));
    assert_eq!(ray_color(&down, &empty, 3), v(ONE, ONE, ONE));
    let level = Ray::new_with_values(v(0, 0, 0), v(ONE, 0, 0));
    assert_eq!(ray_color(&level, &empty, 1), v(750_000_000_000, 850_000_000_000, ONE));
    assert_eq!(background(&v(0, 0, 0)), v(750_000_000_000, 850_000_000_000, ONE));
}

#[test]
fn pixel_estimate_sums_its_samples() {
    let empty = HittableList::new();
    let cam = Camera::new(v(0, 0, 0), v(0, 0, -ONE), v(0, ONE, 0), ONE, 2 * ONE, 0, ONE).unwrap();
    let c = pixel_color(&cam, &empty, 5, 5, 11, 11, 4, 3);
    assert!(c.z == 4 * ONE);
    assert!(c.x >= 4 * (ONE / 2) && c.x <= 4 * ONE);
    let none = pixel_color(&cam, &empty, 0, 0, 2, 2, 0, 3);
    assert_eq!(none, v(0, 0, 0));
}

#[test]
fn bytes_of_a_pixel() {
    assert_eq!(color_to_bytes(v(ONE, ONE, ONE), 1), (255, 255, 255));
    assert_eq!(color_to_bytes(v(ONE, 0, 250_000_000_000), 1), (255, 0, 128));
    assert_eq!(color_to_bytes(v(4 * 250_000_000_000, 0, 0), 4), (128, 0, 0));
    assert_eq!(color_to_bytes(v(-ONE, 2 * ONE, 0), 1), (0, 255, 0));
}

#[test]
fn unit_draws_have_unit_length() {
    for _ in 0..100 {
        let u = random_unit_vector();
        assert!(u.length() <= ONE && u.length() >= ONE - 4);
    }
}
