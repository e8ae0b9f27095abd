//! Scalar and vector algebra, intervals, and the pixel text format.

use raytrace::array3::{reflect, refract, Array3};
use raytrace::fx::{Fx, MAX_FX, SCALE};
use raytrace::interval::Interval;
use raytrace::util::{degrees_to_rad, push_dec, random_f64, random_rge_f64, tan_fx, write_pixel};

fn fx(x: f64) -> Fx {
    Fx {
        v: (x * 65536.0).round() as i64,
    }
}

fn v3(x: f64, y: f64, z: f64) -> Array3 {
    Array3 {
        x: fx(x),
        y: fx(y),
        z: fx(z),
    }
}

fn close(a: Fx, b: Fx, tol: i64) -> bool {
    (a.v - b.v).abs() <= tol
}

#[test]
fn fx_arithmetic_exact() {
    let three = Fx::from_int(3);
    let four = Fx::from_int(4);
    assert_eq!(three.add(four), Fx::from_int(7));
    assert_eq!(three.sub(four), Fx::from_int(-1));
    assert_eq!(three.mul(four), Fx::from_int(12));
    assert_eq!(Fx::from_int(12).div(four), three);
    assert_eq!(three.neg(), Fx::from_int(-3));
    assert_eq!(Fx::from_int(-3).abs(), three);
    assert_eq!(fx(0.5).mul(fx(0.5)), fx(0.25));
}

#[test]
fn fx_saturates_instead_of_overflowing() {
    let big = Fx { v: MAX_FX };
    assert_eq!(big.add(big).v, MAX_FX);
    assert_eq!(big.mul(big).v, MAX_FX);
    assert_eq!(big.neg().add(big.neg()).v, -MAX_FX);
}

#[test]
fn fx_sqrt_exact_values() {
    assert_eq!(Fx::from_int(4).sqrt(), Fx::from_int(2));
    assert_eq!(Fx::from_int(1).sqrt(), Fx::from_int(1));
    assert_eq!(fx(0.25).sqrt(), fx(0.5));
    assert_eq!(Fx::from_int(0).sqrt(), Fx { v: 0 });
    assert_eq!(Fx::from_int(-9).sqrt(), Fx { v: 0 });
}

#[test]
fn unit_vector_has_norm_near_one() {
    // A 3-4-5 triangle normalizes exactly.
    let v = v3(3.0, 4.0, 0.0);
    assert_eq!(v.norm(), Fx::from_int(5));
    let u = v.unit();
    assert!(close(u.norm(), Fx { v: SCALE }, 4), "norm {}", u.norm().v);
    // Fractional components stay within a tight tolerance.
    for w in [
        v3(1.5, -2.25, 0.125),
        v3(0.1, 0.2, 0.3),
        v3(-7.0, 2.5, 11.0),
        v3(1000.0, -500.0, 250.0),
    ] {
        let u = w.unit();
        assert!(close(u.norm(), Fx { v: SCALE }, 64), "norm {}", u.norm().v);
    }
}

#[test]
fn dot_is_symmetric_and_cross_antisymmetric() {
    let a = v3(1.25, -2.0, 3.5);
    let b = v3(-0.75, 4.125, 0.5);
    assert_eq!(a.dot(&b), b.dot(&a));
    assert_eq!(a.cross(&b), b.cross(&a).neg());
    assert_eq!(a.cross(&a), Array3::zero());
    let c = v3(0.001, 123.456, -9.875);
    assert_eq!(a.dot(&c), c.dot(&a));
    assert_eq!(a.cross(&c), c.cross(&a).neg());
    assert_eq!(c.cross(&c), Array3::zero());
}

#[test]
fn reflect_head_on_reverses() {
    let n = v3(0.0, 0.0, 1.0);
    let v = n.neg();
    assert_eq!(reflect(&v, &n), n);
    let n2 = v3(0.0, 1.0, 0.0);
    assert_eq!(reflect(&n2.neg(), &n2), n2);
}

#[test]
fn reflect_formula_exact() {
    // v - 2 (v . n) n for v = (1, -1, 0), n = (0, 1, 0): (1, 1, 0).
    let v = v3(1.0, -1.0, 0.0);
    let n = v3(0.0, 1.0, 0.0);
    assert_eq!(reflect(&v, &n), v3(1.0, 1.0, 0.0));
}

#[test]
fn refract_identity_ratio_head_on() {
    let n = v3(0.0, 0.0, 1.0);
    let v = n.neg();
    assert_eq!(refract(&v, &n, Fx { v: SCALE }), v);
}

#[test]
fn refract_bends_toward_normal_entering_glass() {
    // Entering a denser medium: the refracted ray is closer to the normal.
    let v = v3(1.0, 0.0, -1.0).unit();
    let n = v3(0.0, 0.0, 1.0);
    let r = refract(&v, &n, fx(1.0 / 1.5));
    // Horizontal component shrinks by the ratio.
    assert!(close(r.x, v.x.mul(fx(1.0 / 1.5)), 8), "rx {}", r.x.v);
    assert!(r.z.v < 0);
}

#[test]
fn near_zero_detects_only_zero() {
    assert!(Array3::zero().near_zero());
    assert!(!Array3 {
        x: Fx { v: 1 },
        y: Fx { v: 0 },
        z: Fx { v: 0 }
    }
    .near_zero());
    assert!(!v3(0.5, 0.0, 0.0).near_zero());
}

#[test]
fn index_accesses_components() {
    let a = v3(1.0, 2.0, 3.0);
    assert_eq!(a.index(0), fx(1.0));
    assert_eq!(a.index(1), fx(2.0));
    assert_eq!(a.index(2), fx(3.0));
}

#[test]
fn elementwise_and_scalar_ops() {
    let a = v3(1.0, 2.0, 3.0);
    let b = v3(4.0, 5.0, 6.0);
    assert_eq!(a.add(&b), v3(5.0, 7.0, 9.0));
    assert_eq!(b.sub(&a), v3(3.0, 3.0, 3.0));
    assert_eq!(a.mul(&b), v3(4.0, 10.0, 18.0));
    assert_eq!(b.div(&a), v3(4.0, 2.5, 2.0));
    assert_eq!(a.scale(fx(2.0)), v3(2.0, 4.0, 6.0));
    assert_eq!(a.div_scalar(fx(2.0)), v3(0.5, 1.0, 1.5));
}

#[test]
fn empty_interval_contains_nothing() {
    let e = Interval::empty();
    for x in [-1000.0, -1.0, 0.0, 1.0, 1000.0] {
        assert!(!e.contains(fx(x)));
        assert!(!e.surrounds(fx(x)));
    }
    assert!(!e.contains(Fx { v: MAX_FX }));
    assert!(!e.contains(Fx { v: -MAX_FX }));
}

#[test]
fn universe_contains_everything() {
    let u = Interval::universe();
    for x in [-100000.0, -0.5, 0.0, 0.5, 100000.0] {
        assert!(u.contains(fx(x)));
    }
    assert!(u.contains(Fx { v: MAX_FX }));
    assert!(u.contains(Fx { v: -MAX_FX }));
}

#[test]
fn clamp_stays_in_range() {
    let i = Interval::new(fx(0.0), fx(0.999));
    for x in [-5.0, 0.0, 0.4, 0.999, 1.0, 77.0] {
        let c = i.clamp(fx(x));
        assert!(i.contains(c));
    }
    assert_eq!(i.clamp(fx(0.5)), fx(0.5));
    assert_eq!(i.clamp(fx(-1.0)), fx(0.0));
    assert_eq!(i.clamp(fx(2.0)), fx(0.999));
}

#[test]
fn surrounds_is_strict() {
    let i = Interval::new(fx(1.0), fx(2.0));
    assert!(i.contains(fx(1.0)));
    assert!(!i.surrounds(fx(1.0)));
    assert!(i.surrounds(fx(1.5)));
    assert!(!i.surrounds(fx(2.0)));
}

#[test]
fn random_draws_stay_in_range() {
    for _ in 0..200 {
        let u = random_f64();
        assert!(0 <= u.v && u.v < SCALE);
        let r = random_rge_f64(fx(-1.0), fx(1.0));
        assert!(-SCALE <= r.v && r.v < SCALE);
    }
}

#[test]
fn random_unit_has_norm_near_one() {
    for _ in 0..50 {
        let u = Array3::random_unit();
        let n = u.norm();
        assert!(n.v > 0, "never the zero vector");
        assert!((n.v - SCALE).abs() <= SCALE / 10, "norm {}", n.v);
    }
}

#[test]
fn random_on_hemisphere_points_along_normal() {
    let n = v3(0.0, 1.0, 0.0);
    for _ in 0..50 {
        let u = Array3::random_on_hemisphere(&n);
        assert!(u.dot(&n).v >= 0);
    }
}

#[test]
fn degrees_to_rad_values() {
    let pi = degrees_to_rad(fx(180.0));
    assert!(close(pi, Fx { v: 205887 }, 4), "pi {}", pi.v);
    let half = degrees_to_rad(fx(90.0));
    assert!(close(half, Fx { v: 102943 }, 4), "half pi {}", half.v);
}

#[test]
fn tan_of_45_degrees_is_near_one() {
    let t = tan_fx(degrees_to_rad(fx(45.0)));
    assert!(close(t, Fx { v: SCALE }, 400), "tan {}", t.v);
}

#[test]
fn push_dec_writes_decimal_digits() {
    let mut out: Vec<u8> = Vec::new();
    push_dec(&mut out, 0);
    out.push(b' ');
    push_dec(&mut out, 255);
    out.push(b' ');
    push_dec(&mut out, 1200);
    assert_eq!(out, b"0 255 1200");
}

#[test]
fn write_pixel_formats_channels() {
    let white = v3(1.0, 1.0, 1.0);
    assert_eq!(write_pixel(white, 1), b"255 255 255\n");
    let dark = v3(0.25, 0.0, 1.0);
    // sqrt(0.25) = 0.5 -> 128; 0 stays 0; 1.0 clamps to 0.999 -> 255.
    assert_eq!(write_pixel(dark, 1), b"128 0 255\n");
    // Averaging: four accumulated samples of full intensity.
    let sum = v3(4.0, 4.0, 4.0);
    assert_eq!(write_pixel(sum, 4), b"255 255 255\n");
    // Half intensity averaged over two samples: sqrt(0.5)*256 = 181.
    let half = v3(1.0, 1.0, 1.0);
    assert_eq!(write_pixel(half, 2), b"181 181 181\n");
}
