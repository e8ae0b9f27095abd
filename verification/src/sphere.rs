//! The sole geometric primitive: a sphere, intersected by the quadratic
//! formula.

use vstd::prelude::*;
use crate::fx::{Fx, add_s, sub_s, neg_s, mul_s, div_s, sqrt_s};
use crate::array3::{Array3, sub_v, neg_v, sdiv_v, dot_s, square_s};
use crate::interval::{Interval, contains_s};
use crate::material::{Material, valid_material_s};
use crate::ray::{Ray, HitRecord, Hittable, at_s};

verus! {

#[derive(Clone, Copy, Debug, PartialEq, Eq, Structural)]
pub struct Sphere {
    pub center: Array3,
    pub radius: Fx,
    pub material: Material,
}

/// A sphere the intersection and scattering rules are defined for:
/// positive radius and a valid material.
pub open spec fn valid_sphere_s(s: Sphere) -> bool {
    s.radius.v > 0 && valid_material_s(s.material)
}

/// Discriminant of the ray/sphere quadratic, from the half-b form:
/// `h^2 - a c` with `a = |D|^2`, `h = D . (O - C)`, `c = |O - C|^2 - r^2`.
pub open spec fn sphere_discrim_s(s: Sphere, r: Ray) -> Fx {
    let oc = sub_v(r.origin, s.center);
    let a = square_s(r.direction);
    let h = dot_s(r.direction, oc);
    let c = sub_s(square_s(oc), mul_s(s.radius, s.radius));
    sub_s(mul_s(h, h), mul_s(a, c))
}

/// The full intersection rule. A degenerate ray (zero-length direction,
/// whose quadratic is not solvable) and a negative discriminant both yield
/// no hit; otherwise the smaller root is tried first, then the larger, and
/// an accepted root must lie in the queried interval. The reported normal
/// is flipped to oppose the incoming ray when the inside is struck, with
/// `front_face` recording the original orientation.
pub open spec fn sphere_hit_s(s: Sphere, r: Ray, inter: Interval) -> Option<HitRecord>
    recommends
        valid_sphere_s(s),
{
    let oc = sub_v(r.origin, s.center);
    let a = square_s(r.direction);
    let h = dot_s(r.direction, oc);
    let discrim = sphere_discrim_s(s, r);
    if a.v == 0 || discrim.v < 0 {
        None
    } else {
        let sqrtd = sqrt_s(discrim);
        let r1 = div_s(sub_s(neg_s(h), sqrtd), a);
        let r2 = div_s(add_s(neg_s(h), sqrtd), a);
        let root = if contains_s(inter, r1) {
            Some(r1)
        } else if contains_s(inter, r2) {
            Some(r2)
        } else {
            None
        };
        match root {
            Some(t) => {
                let p = at_s(r, t);
                let normal = sdiv_v(sub_v(p, s.center), s.radius);
                let front_face = dot_s(r.direction, normal).v < 0;
                let out_normal = if front_face {
                    normal
                } else {
                    neg_v(normal)
                };
                Some(
                    HitRecord {
                        p,
                        normal: out_normal,
                        t,
                        front_face,
                        mat: s.material,
                    },
                )
            },
            None => None,
        }
    }
}

impl Sphere {
    pub fn new(center: Array3, radius: Fx, material: Material) -> (s: Sphere)
        ensures
            s == (Sphere { center, radius, material }),
    {
        Sphere { center, radius, material }
    }

    /// Whether the intersection and scattering rules apply to this sphere.
    pub fn valid(&self) -> (r: bool)
        ensures
            r == valid_sphere_s(*self),
    {
        self.radius.v > 0 && match self.material {
            Material::Dielectric(d) => d.index_r.v > 0,
            _ => true,
        }
    }

    /// Ray/sphere intersection clipped to `inter`.
    pub fn hit(&self, r: &Ray, inter: Interval) -> (res: Option<HitRecord>)
        requires
            valid_sphere_s(*self),
        ensures
            res == sphere_hit_s(*self, *r, inter),
            sphere_discrim_s(*self, *r).v < 0 ==> res is None,
            res matches Some(hr) ==> contains_s(inter, hr.t) && hr.mat == self.material,
    {
        let along_centers = r.origin.sub(&self.center);

        let a = r.direction.square();
        let h = r.direction.dot(&along_centers);
        let c = along_centers.square().sub(self.radius.mul(self.radius));

        let discrim = h.mul(h).sub(a.mul(c));

        if a.v == 0 || discrim.v < 0 {
            None
        } else {
            let sqrtd = discrim.sqrt();
            let r1 = h.neg().sub(sqrtd).div(a);
            let r2 = h.neg().add(sqrtd).div(a);

            let root = if inter.contains(r1) {
                Some(r1)
            } else if inter.contains(r2) {
                Some(r2)
            } else {
                None
            };

            if let Some(t) = root {
                let p = r.at(t);
                let normal = p.sub(&self.center).div_scalar(self.radius);

                let front_face = r.direction.dot(&normal).v < 0;
                let normal = if front_face {
                    normal
                } else {
                    normal.neg()
                };

                Some(HitRecord { p, normal, t, front_face, mat: self.material })
            } else {
                None
            }
        }
    }
}

impl Hittable for Sphere {
    /// Unvalidated entry point: a degenerate sphere reports no hit.
    fn hit(&self, r: &Ray, vals: Interval) -> Option<HitRecord> {
        if self.valid() {
            Sphere::hit(self, r, vals)
        } else {
            None
        }
    }
}

/// LAW (exact roots lie on the sphere): over exact rational arithmetic, a
/// root `t = p / q` of the ray/sphere quadratic puts the ray's point at
/// exactly radius `rad` from the center: with `oc = O - C` and direction
/// `d`, the point offset `q * oc + p * d` (the numerator of `oc + t d`)
/// has squared length exactly `(q * rad)^2`. The exact outward normal
/// `(at(t) - C) / rad` therefore has exactly unit norm; quantization of
/// the root and of the division is the only source of deviation in the
/// fixed-point hit record.
pub proof fn lemma_exact_root_on_sphere(
    dx: int,
    dy: int,
    dz: int,
    ocx: int,
    ocy: int,
    ocz: int,
    rad: int,
    p: int,
    q: int,
)
    requires
        (dx * dx + dy * dy + dz * dz) * (p * p) + 2 * ((dx * ocx + dy * ocy + dz * ocz) * (p
            * q)) + (ocx * ocx + ocy * ocy + ocz * ocz - rad * rad) * (q * q) == 0,
    ensures
        ({
            let nx = q * ocx + p * dx;
            let ny = q * ocy + p * dy;
            let nz = q * ocz + p * dz;
            nx * nx + ny * ny + nz * nz == (q * rad) * (q * rad)
        }),
{
    lemma_root_comp(q, ocx, p, dx);
    lemma_root_comp(q, ocy, p, dy);
    lemma_root_comp(q, ocz, p, dz);
    assert((dx * dx + dy * dy + dz * dz) * (p * p) == (p * p) * (dx * dx) + (p * p) * (dy * dy)
        + (p * p) * (dz * dz)) by (nonlinear_arith) {
    }
    assert((dx * ocx + dy * ocy + dz * ocz) * (p * q) == (p * q) * (dx * ocx) + (p * q) * (dy
        * ocy) + (p * q) * (dz * ocz)) by (nonlinear_arith) {
    }
    assert((ocx * ocx + ocy * ocy + ocz * ocz - rad * rad) * (q * q) == (q * q) * (ocx * ocx) + (
    q * q) * (ocy * ocy) + (q * q) * (ocz * ocz) - (q * q) * (rad * rad)) by (nonlinear_arith) {
    }
    assert((q * rad) * (q * rad) == (q * q) * (rad * rad)) by (nonlinear_arith) {
    }
}

/// Binomial expansion of one component of `q * oc + p * d`, squared.
proof fn lemma_root_comp(q: int, oc: int, p: int, d: int)
    ensures
        (q * oc + p * d) * (q * oc + p * d) == (q * q) * (oc * oc) + 2 * ((p * q) * (d * oc)) + (
        p * p) * (d * d),
{
    let a = q * oc;
    let b = p * d;
    assert((a + b) * (a + b) == a * a + 2 * (a * b) + b * b) by (nonlinear_arith) {
    }
    assert(a * a == (q * q) * (oc * oc)) by (nonlinear_arith)
        requires
            a == q * oc,
    {
    }
    assert(b * b == (p * p) * (d * d)) by (nonlinear_arith)
        requires
            b == p * d,
    {
    }
    assert(a * b == (p * q) * (d * oc)) by (nonlinear_arith)
        requires
            a == q * oc,
            b == p * d,
    {
    }
}

/// LAW (aimed rays): over exact integer arithmetic, a ray cast from `o`
/// with direction `d = c - o` straight at the center `c` of a sphere of
/// radius `rad > 0` has `h == -a`, a positive discriminant equal to
/// `a * rad^2` (so there are two distinct real roots), and the two root
/// numerators `-h - s` and `-h + s` (for any square root `s` of the
/// discriminant) sum to `2 a`: the roots are symmetric about the parameter
/// `1` of the center, the point of closest approach.
pub proof fn lemma_aimed_ray_roots(dx: int, dy: int, dz: int, rad: int, sq: int)
    requires
        dx != 0 || dy != 0 || dz != 0,
        rad > 0,
        sq * sq == (dx * dx + dy * dy + dz * dz) * (rad * rad),
    ensures
        ({
            let a = dx * dx + dy * dy + dz * dz;
            let h = dx * (-dx) + dy * (-dy) + dz * (-dz);
            let c = a - rad * rad;
            let disc = h * h - a * c;
            &&& h == -a
            &&& disc == a * (rad * rad)
            &&& disc > 0
            &&& (-h - sq) + (-h + sq) == 2 * a
        }),
{
    let a = dx * dx + dy * dy + dz * dz;
    assert(a > 0) by (nonlinear_arith)
        requires
            dx != 0 || dy != 0 || dz != 0,
            a == dx * dx + dy * dy + dz * dz,
    {
    }
    assert(dx * (-dx) + dy * (-dy) + dz * (-dz) == -a) by (nonlinear_arith)
        requires
            a == dx * dx + dy * dy + dz * dz,
    {
    }
    assert((-a) * (-a) - a * (a - rad * rad) == a * (rad * rad)) by (nonlinear_arith) {
    }
    assert(a * (rad * rad) > 0) by (nonlinear_arith)
        requires
            a > 0,
            rad > 0,
    {
    }
}

} // verus!
