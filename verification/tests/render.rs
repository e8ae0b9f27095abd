//! Intersection, scattering, and end-to-end rendering.

use raytrace::array3::Array3;
use raytrace::camera::Camera;
use raytrace::fx::{Fx, SCALE};
use raytrace::interval::Interval;
use raytrace::material::{Dielectric, Lambertian, Material, Metal};
use raytrace::ray::{hit_world, HitRecord, Ray};
use raytrace::sphere::Sphere;

fn fx(x: f64) -> Fx {
    Fx {
        v: (x * 65536.0).round() as i64,
    }
}

fn v3(x: f64, y: f64, z: f64) -> Array3 {
    Array3 {
        x: fx(x),
        y: fx(y),
        z: fx(z),
    }
}

fn gray() -> Material {
    Material::Lambertian(Lambertian {
        albedo: v3(0.5, 0.5, 0.5),
    })
}

fn trace_interval() -> Interval {
    Interval::new(fx(0.001), fx(1000000.0))
}

#[test]
fn sphere_hit_straight_at_center() {
    // Origin at distance 3 from the center, aimed straight at it, radius 1:
    // roots 2 and 4, symmetric about the center parameter 3.
    let s = Sphere::new(v3(0.0, 0.0, -3.0), fx(1.0), gray());
    let r = Ray::new(v3(0.0, 0.0, 0.0), v3(0.0, 0.0, -1.0));
    let hit = s.hit(&r, trace_interval()).expect("must hit");
    assert_eq!(hit.t, Fx::from_int(2));
    assert_eq!(hit.p, v3(0.0, 0.0, -2.0));
    assert_eq!(hit.normal, v3(0.0, 0.0, 1.0));
    assert!(hit.front_face);
    // Restricting the interval past the first root exposes the second,
    // symmetric root 4 = 3 + (3 - 2).
    let far = s.hit(&r, Interval::new(fx(3.0), fx(1000000.0))).expect("second root");
    assert_eq!(far.t, Fx::from_int(4));
    assert!(!far.front_face);
}

#[test]
fn sphere_miss_has_negative_discriminant() {
    let s = Sphere::new(v3(0.0, 0.0, -3.0), fx(1.0), gray());
    let up = Ray::new(v3(0.0, 0.0, 0.0), v3(0.0, 1.0, 0.0));
    assert!(s.hit(&up, trace_interval()).is_none());
    let sideways = Ray::new(v3(5.0, 0.0, 0.0), v3(0.0, 0.0, -1.0));
    assert!(s.hit(&sideways, trace_interval()).is_none());
}

#[test]
fn sphere_hit_outside_interval_is_rejected() {
    let s = Sphere::new(v3(0.0, 0.0, -3.0), fx(1.0), gray());
    let r = Ray::new(v3(0.0, 0.0, 0.0), v3(0.0, 0.0, -1.0));
    assert!(s.hit(&r, Interval::new(fx(0.001), fx(1.0))).is_none());
}

#[test]
fn ray_at_evaluates_parametrically() {
    let r = Ray::new(v3(1.0, 2.0, 3.0), v3(0.0, 0.0, -2.0));
    assert_eq!(r.at(fx(0.5)), v3(1.0, 2.0, 2.0));
    assert_eq!(r.at(fx(0.0)), v3(1.0, 2.0, 3.0));
}

#[test]
fn hit_world_keeps_closest_hit() {
    let near = Sphere::new(v3(0.0, 0.0, -3.0), fx(1.0), gray());
    let far = Sphere::new(v3(0.0, 0.0, -8.0), fx(1.0), gray());
    let r = Ray::new(v3(0.0, 0.0, 0.0), v3(0.0, 0.0, -1.0));
    for world in [vec![near, far], vec![far, near]] {
        let hit = hit_world(&world, &r, trace_interval()).expect("must hit");
        assert_eq!(hit.t, Fx::from_int(2));
    }
}

#[test]
fn hit_world_empty_scene_misses() {
    let world: Vec<Sphere> = Vec::new();
    let r = Ray::new(v3(0.0, 0.0, 0.0), v3(0.0, 0.0, -1.0));
    assert!(hit_world(&world, &r, trace_interval()).is_none());
}

fn record(p: Array3, normal: Array3, front_face: bool, mat: Material) -> HitRecord {
    HitRecord {
        p,
        normal,
        t: fx(1.0),
        front_face,
        mat,
    }
}

#[test]
fn lambertian_always_scatters_with_albedo() {
    let albedo = v3(0.8, 0.6, 0.2);
    let mat = Lambertian { albedo };
    let r = Ray::new(v3(0.0, 0.0, 0.0), v3(0.0, 0.0, -1.0));
    let hr = record(v3(0.0, 0.0, -1.0), v3(0.0, 0.0, 1.0), true, gray());
    for _ in 0..20 {
        let (atten, scat) = mat.scatter(&r, &hr).expect("diffuse never absorbs");
        assert_eq!(atten, albedo);
        assert_eq!(scat.origin, hr.p);
        assert!(!scat.direction.near_zero());
    }
}

#[test]
fn metal_with_zero_fuzz_mirrors_exactly() {
    let mat = Metal {
        albedo: v3(0.9, 0.9, 0.9),
        fuzz: fx(0.0),
    };
    // Incoming straight down onto a floor facing up: mirrored straight up.
    let r = Ray::new(v3(0.0, 1.0, 0.0), v3(0.0, -1.0, 0.0));
    let hr = record(v3(0.0, 0.0, 0.0), v3(0.0, 1.0, 0.0), true, gray());
    let (atten, scat) = mat.scatter(&r, &hr).expect("reflection leaves the surface");
    assert_eq!(atten, v3(0.9, 0.9, 0.9));
    assert_eq!(scat.direction, v3(0.0, 1.0, 0.0));
    // A 45-degree strike mirrors exactly as well: the direction is the
    // reflect formula applied to the normalized incoming direction.
    let r2 = Ray::new(v3(-1.0, 1.0, 0.0), v3(1.0, -1.0, 0.0));
    let (_, scat2) = mat.scatter(&r2, &hr).expect("reflection leaves the surface");
    let mirror = raytrace::array3::reflect(&v3(1.0, -1.0, 0.0).unit(), &v3(0.0, 1.0, 0.0));
    assert_eq!(scat2.direction, mirror);
    assert!(scat2.direction.x.v > 0 && scat2.direction.y.v > 0);
}

#[test]
fn metal_negative_fuzz_is_clamped_to_zero() {
    // Roughness is clipped into [0, 1]: a negative fuzz behaves like zero
    // and the reflection is exactly the mirror direction.
    let mat = Metal {
        albedo: v3(0.9, 0.9, 0.9),
        fuzz: fx(-0.5),
    };
    let r = Ray::new(v3(0.0, 1.0, 0.0), v3(0.0, -1.0, 0.0));
    let hr = record(v3(0.0, 0.0, 0.0), v3(0.0, 1.0, 0.0), true, gray());
    let (_, scat) = mat.scatter(&r, &hr).expect("reflection leaves the surface");
    assert_eq!(scat.direction, v3(0.0, 1.0, 0.0));
}

#[test]
fn metal_absorbs_reflection_into_surface() {
    let mat = Metal {
        albedo: v3(0.9, 0.9, 0.9),
        fuzz: fx(0.0),
    };
    // Incoming along the normal itself: the mirror direction points into
    // the surface, so the sample is absorbed.
    let r = Ray::new(v3(0.0, -1.0, 0.0), v3(0.0, 1.0, 0.0));
    let hr = record(v3(0.0, 0.0, 0.0), v3(0.0, 1.0, 0.0), true, gray());
    assert!(mat.scatter(&r, &hr).is_none());
}

#[test]
fn dielectric_index_one_passes_straight_through() {
    let mat = Dielectric { index_r: fx(1.0) };
    // Head-on strike: exactly unchanged.
    let r = Ray::new(v3(0.0, 0.0, 1.0), v3(0.0, 0.0, -1.0));
    let hr = record(v3(0.0, 0.0, 0.0), v3(0.0, 0.0, 1.0), true, gray());
    let (atten, scat) = mat.scatter(&r, &hr).expect("glass never absorbs");
    assert_eq!(atten, v3(1.0, 1.0, 1.0));
    assert_eq!(scat.direction, v3(0.0, 0.0, -1.0));
    // A slightly tilted strike passes through within rounding.
    let tilted = Ray::new(v3(0.0, 0.0, 1.0), v3(0.1, 0.0, -1.0));
    let (_, scat2) = mat.scatter(&tilted, &hr).expect("glass never absorbs");
    let u = tilted.direction.unit();
    assert!((scat2.direction.x.v - u.x.v).abs() <= 64);
    assert!((scat2.direction.y.v - u.y.v).abs() <= 64);
    assert!((scat2.direction.z.v - u.z.v).abs() <= 64);
    // Even at a steep 45-degree strike there is no reflection draw: every
    // call passes through, within rounding.
    let steep = Ray::new(v3(1.0, 0.0, 1.0), v3(1.0, 0.0, -1.0));
    let w = steep.direction.unit();
    for _ in 0..20 {
        let (_, scat3) = mat.scatter(&steep, &hr).expect("glass never absorbs");
        assert!((scat3.direction.x.v - w.x.v).abs() <= 64);
        assert!((scat3.direction.y.v - w.y.v).abs() <= 64);
        assert!((scat3.direction.z.v - w.z.v).abs() <= 64);
    }
}

#[test]
fn dielectric_always_scatters() {
    let mat = Dielectric { index_r: fx(1.5) };
    let hr_front = record(v3(0.0, 0.0, 0.0), v3(0.0, 0.0, 1.0), true, gray());
    let hr_back = record(v3(0.0, 0.0, 0.0), v3(0.0, 0.0, 1.0), false, gray());
    for _ in 0..20 {
        let r = Ray::new(v3(0.3, 0.1, 1.0), v3(-0.3, -0.1, -1.0));
        assert!(mat.scatter(&r, &hr_front).is_some());
        assert!(mat.scatter(&r, &hr_back).is_some());
    }
}

fn simple_camera(width: i32, samples: i32, depth: i32) -> Camera {
    Camera::new(
        fx(1.0),
        width,
        samples,
        depth,
        fx(90.0),
        v3(0.0, 0.0, 0.0),
        v3(0.0, 0.0, -1.0),
        v3(0.0, 1.0, 0.0),
        fx(0.0),
        fx(1.0),
    )
}

#[test]
fn camera_derives_image_height() {
    let c = Camera::new(
        fx(2.0),
        4,
        1,
        1,
        fx(90.0),
        v3(0.0, 0.0, 0.0),
        v3(0.0, 0.0, -1.0),
        v3(0.0, 1.0, 0.0),
        fx(0.0),
        fx(1.0),
    );
    assert_eq!(c.img_width, 4);
    assert_eq!(c.img_height, 2);
    // A very wide aspect ratio still yields at least one row.
    let thin = Camera::new(
        fx(100.0),
        3,
        1,
        1,
        fx(90.0),
        v3(0.0, 0.0, 0.0),
        v3(0.0, 0.0, -1.0),
        v3(0.0, 1.0, 0.0),
        fx(0.0),
        fx(1.0),
    );
    assert_eq!(thin.img_height, 1);
}

#[test]
fn camera_ray_starts_at_eye_without_defocus() {
    let c = simple_camera(4, 1, 1);
    for i in 0..4 {
        for j in 0..4 {
            let r = c.get_ray(i, j);
            assert_eq!(r.origin, v3(0.0, 0.0, 0.0));
        }
    }
}

#[test]
fn ray_color_empty_scene_is_sky_gradient() {
    let c = simple_camera(2, 1, 1);
    let world: Vec<Sphere> = Vec::new();
    // Straight up: fully sky blue.
    let up = Ray::new(v3(0.0, 0.0, 0.0), v3(0.0, 1.0, 0.0));
    let color = c.ray_color(&up, &world, 1);
    assert_eq!(color, v3(0.5, 0.7, 1.0));
    // Straight down: white.
    let down = Ray::new(v3(0.0, 0.0, 0.0), v3(0.0, -1.0, 0.0));
    let color = c.ray_color(&down, &world, 1);
    assert_eq!(color, v3(1.0, 1.0, 1.0));
    // Any direction keeps the blue channel at exactly one.
    let slanted = Ray::new(v3(0.0, 0.0, 0.0), v3(0.3, -0.2, -1.0));
    assert_eq!(c.ray_color(&slanted, &world, 1).z, fx(1.0));
}

#[test]
fn ray_color_depth_zero_is_black() {
    let c = simple_camera(2, 1, 1);
    let world: Vec<Sphere> = Vec::new();
    let r = Ray::new(v3(0.0, 0.0, 0.0), v3(0.0, 1.0, 0.0));
    assert_eq!(c.ray_color(&r, &world, 0), Array3::zero());
}

#[test]
fn ray_color_trapped_in_metal_is_black_not_attenuated() {
    // From the center of a mirror sphere the ray bounces until the depth
    // budget is spent: the result is pure black, never a partial color.
    let c = simple_camera(2, 1, 5);
    let world = vec![Sphere::new(
        v3(0.0, 0.0, 0.0),
        fx(1.0),
        Material::Metal(Metal {
            albedo: v3(0.9, 0.9, 0.9),
            fuzz: fx(0.0),
        }),
    )];
    let r = Ray::new(v3(0.0, 0.0, 0.0), v3(0.0, 0.0, -1.0));
    assert_eq!(c.ray_color(&r, &world, 5), Array3::zero());
}

fn parse_ppm(bytes: &[u8]) -> (i32, i32, Vec<(i32, i32, i32)>) {
    let text = String::from_utf8(bytes.to_vec()).expect("ascii output");
    let mut lines = text.lines();
    assert_eq!(lines.next(), Some("P3"));
    let dims: Vec<i32> = lines
        .next()
        .expect("size line")
        .split(' ')
        .map(|t| t.parse().expect("size"))
        .collect();
    assert_eq!(lines.next(), Some("255"));
    let mut pixels = Vec::new();
    for line in lines {
        let ch: Vec<i32> = line.split(' ').map(|t| t.parse().expect("channel")).collect();
        assert_eq!(ch.len(), 3);
        pixels.push((ch[0], ch[1], ch[2]));
    }
    (dims[0], dims[1], pixels)
}

#[test]
fn render_empty_scene_two_by_two() {
    let c = simple_camera(2, 1, 1);
    let world: Vec<Sphere> = Vec::new();
    let out = c.render(&world);
    let (w, h, pixels) = parse_ppm(&out);
    assert_eq!((w, h), (2, 2));
    assert_eq!(pixels.len(), 4);
    for (r, g, b) in pixels {
        assert!(0 <= r && r <= 255);
        assert!(0 <= g && g <= 255);
        assert!(0 <= b && b <= 255);
        // The sky gradient keeps the blue channel saturated: no black pixel.
        assert_eq!(b, 255);
    }
}

#[test]
fn render_with_defocus_is_well_formed() {
    // A positive defocus angle samples ray origins from the lens disk; the
    // raster stays well formed.
    let c = Camera::new(
        fx(1.0),
        2,
        2,
        2,
        fx(90.0),
        v3(0.0, 0.0, 0.0),
        v3(0.0, 0.0, -1.0),
        v3(0.0, 1.0, 0.0),
        fx(0.6),
        fx(1.0),
    );
    let world = vec![Sphere::new(v3(0.0, 0.0, -2.0), fx(0.5), gray())];
    let (w, h, pixels) = parse_ppm(&c.render(&world));
    assert_eq!((w, h), (2, 2));
    assert_eq!(pixels.len(), 4);
    for (r, g, b) in pixels {
        assert!(0 <= r && r <= 255 && 0 <= g && g <= 255 && 0 <= b && b <= 255);
    }
}

#[test]
fn render_scene_with_sphere_is_well_formed() {
    let c = simple_camera(3, 2, 3);
    let world = vec![Sphere::new(v3(0.0, 0.0, -2.0), fx(0.5), gray())];
    let out = c.render(&world);
    let (w, h, pixels) = parse_ppm(&out);
    assert_eq!((w, h), (3, 3));
    assert_eq!(pixels.len(), 9);
    for (r, g, b) in pixels {
        assert!(0 <= r && r <= 255);
        assert!(0 <= g && g <= 255);
        assert!(0 <= b && b <= 255);
    }
}
