//! The closed set of scattering behaviors: diffuse, metallic, dielectric.
//!
//! Each material consumes a hit and produces an attenuation color and an
//! outgoing ray, or signals absorption with `None`.

use vstd::prelude::*;
use crate::fx::{Fx, SCALE, add_s, sub_s, mul_s, div_s, sdiv, sqrt_s};
use crate::array3::{
    Array3, zero_v, one_fx, neg_v, add_v, smul_v, dot_s, near_zero_s, norm_s, unit_s, reflect_s,
    refract_s, reflect, refract,
};
use crate::ray::{Ray, HitRecord};
use crate::util::random_f64;

verus! {

pub trait Scatterable {
    fn scatter(&self, r: &Ray, hr: &HitRecord) -> Option<(Array3, Ray)>;
}

#[derive(Clone, Copy, Debug, PartialEq, Eq, Structural)]
pub enum Material {
    Lambertian(Lambertian),
    Metal(Metal),
    Dielectric(Dielectric),
}

#[derive(Clone, Copy, Debug, PartialEq, Eq, Structural)]
pub struct Lambertian {
    pub albedo: Array3,
}

#[derive(Clone, Copy, Debug, PartialEq, Eq, Structural)]
pub struct Metal {
    pub albedo: Array3,
    pub fuzz: Fx,
}

#[derive(Clone, Copy, Debug, PartialEq, Eq, Structural)]
pub struct Dielectric {
    pub index_r: Fx,
}

/// A material the scattering model is defined for: a dielectric must have a
/// positive refractive index.
pub open spec fn valid_material_s(m: Material) -> bool {
    match m {
        Material::Dielectric(d) => d.index_r.v > 0,
        _ => true,
    }
}

/// Glass does not absorb light: its attenuation is the identity color.
pub open spec fn white_s() -> Array3 {
    Array3 { x: one_fx(), y: one_fx(), z: one_fx() }
}

/// The refraction ratio: inverted when the ray enters from the front face.
pub open spec fn refract_ratio_s(front_face: bool, index_r: Fx) -> Fx
    recommends
        index_r.v != 0,
{
    if front_face {
        div_s(one_fx(), index_r)
    } else {
        index_r
    }
}

/// Cosine of the angle of incidence, clamped to at most one.
pub open spec fn cos_theta_s(u: Array3, n: Array3) -> Fx {
    let dp = dot_s(n, neg_v(u));
    if dp.v < SCALE {
        dp
    } else {
        one_fx()
    }
}

/// Sine of the angle of incidence, from the cosine.
pub open spec fn sin_theta_s(u: Array3, n: Array3) -> Fx {
    sqrt_s(sub_s(one_fx(), mul_s(cos_theta_s(u, n), cos_theta_s(u, n))))
}

/// The attenuation each variant applies when it scatters: its albedo for
/// the diffuse and metallic surfaces, the identity color for glass.
pub open spec fn attenuation_s(m: Material) -> Array3 {
    match m {
        Material::Lambertian(l) => l.albedo,
        Material::Metal(mt) => mt.albedo,
        Material::Dielectric(_) => white_s(),
    }
}

/// A metal's roughness, clipped into `[0, 1]` before use.
pub open spec fn clamped_fuzz_s(f: Fx) -> Fx {
    if f.v < 0 {
        Fx { v: 0 }
    } else if f.v < SCALE {
        f
    } else {
        Fx { v: SCALE }
    }
}

/// Schlick's reflectance approximation `r0 + (1 - r0) * (1 - cos)^5`.
pub open spec fn reflectance_s(cosine: Fx, ref_idx: Fx) -> Fx
    recommends
        add_s(one_fx(), ref_idx).v != 0,
{
    let r0 = div_s(sub_s(one_fx(), ref_idx), add_s(one_fx(), ref_idx));
    let r0s = mul_s(r0, r0);
    let p1 = sub_s(one_fx(), cosine);
    let p5 = mul_s(mul_s(mul_s(mul_s(p1, p1), p1), p1), p1);
    add_s(r0s, mul_s(sub_s(one_fx(), r0s), p5))
}

impl Lambertian {
    /// Diffuse scattering: the outgoing direction is the normal plus a random
    /// unit vector, falling back to the normal itself when the sum cancels.
    /// Never absorbs.
    pub fn scatter(&self, _r: &Ray, hr: &HitRecord) -> (res: Option<(Array3, Ray)>)
        ensures
            res is Some,
            res matches Some((atten, scat)) ==> atten == self.albedo && scat.origin == hr.p,
            !near_zero_s(hr.normal) ==> (res matches Some((atten, scat))
                ==> !near_zero_s(scat.direction)),
            res matches Some((atten, scat)) ==> exists|p: Array3|
                ({
                    let d = add_v(hr.normal, #[trigger] unit_s(p));
                    &&& 0 < norm_s(p).v < SCALE
                    &&& (scat.direction == d || (near_zero_s(d) && scat.direction == hr.normal))
                }),
    {
        let ru = Array3::random_unit();
        let scatter_dir = hr.normal.add(&ru);
        let dir = if scatter_dir.near_zero() {
            hr.normal
        } else {
            scatter_dir
        };
        let ray = Ray::new(hr.p, dir);
        proof {
            let p = choose|p: Array3| #[trigger] unit_s(p) == ru && 0 < norm_s(p).v < SCALE;
            assert(0 < norm_s(p).v < SCALE && (dir == add_v(hr.normal, unit_s(p)) || (
            near_zero_s(add_v(hr.normal, unit_s(p))) && dir == hr.normal)));
        }
        Some((self.albedo, ray))
    }
}

impl Metal {
    /// Mirror reflection of the normalized incoming direction, perturbed by
    /// `fuzz` (clamped into `[0, 1]`) times a drawn unit vector. Absorbs
    /// exactly when that perturbed direction points into or along the
    /// surface. With `fuzz` at most zero the outgoing direction is exactly
    /// the mirror direction.
    pub fn scatter(&self, r: &Ray, hr: &HitRecord) -> (res: Option<(Array3, Ray)>)
        ensures
            res matches Some((atten, scat)) ==> atten == self.albedo && scat.origin == hr.p
                && dot_s(scat.direction, hr.normal).v > 0,
            res matches Some((atten, scat)) ==> exists|p: Array3|
                ({
                    let d = add_v(
                        reflect_s(unit_s(r.direction), hr.normal),
                        smul_v(#[trigger] unit_s(p), clamped_fuzz_s(self.fuzz)),
                    );
                    &&& 0 < norm_s(p).v < SCALE
                    &&& scat.direction == d
                }),
            res is None ==> exists|p: Array3|
                ({
                    let d = add_v(
                        reflect_s(unit_s(r.direction), hr.normal),
                        smul_v(#[trigger] unit_s(p), clamped_fuzz_s(self.fuzz)),
                    );
                    &&& 0 < norm_s(p).v < SCALE
                    &&& dot_s(d, hr.normal).v <= 0
                }),
            self.fuzz.v <= 0 ==> ((res is Some <==> dot_s(
                reflect_s(unit_s(r.direction), hr.normal),
                hr.normal,
            ).v > 0) && (res matches Some((atten, scat)) ==> scat.direction == reflect_s(
                unit_s(r.direction),
                hr.normal,
            ))),
    {
        let f = if self.fuzz.v < 0 {
            Fx { v: 0 }
        } else if self.fuzz.v < SCALE {
            self.fuzz
        } else {
            Fx { v: SCALE }
        };
        let reflection = reflect(&r.direction.unit(), &hr.normal);
        let ru = Array3::random_unit();
        let fuzzed = reflection.add(&ru.scale(f));
        proof {
            assert(f == clamped_fuzz_s(self.fuzz));
            let p = choose|p: Array3| #[trigger] unit_s(p) == ru && 0 < norm_s(p).v < SCALE;
            assert(fuzzed == add_v(
                reflect_s(unit_s(r.direction), hr.normal),
                smul_v(unit_s(p), clamped_fuzz_s(self.fuzz)),
            ));
        }
        if self.fuzz.v <= 0 {
            proof {
                assert(f.v == 0);
                assert((ru.x.v as int) * (f.v as int) == 0) by (nonlinear_arith)
                    requires
                        f.v == 0,
                {
                }
                assert((ru.y.v as int) * (f.v as int) == 0) by (nonlinear_arith)
                    requires
                        f.v == 0,
                {
                }
                assert((ru.z.v as int) * (f.v as int) == 0) by (nonlinear_arith)
                    requires
                        f.v == 0,
                {
                }
                assert(sdiv(0, SCALE as int) == 0);
                assert(smul_v(ru, f) == zero_v());
                assert(fuzzed == reflection);
            }
        }
        let ray = Ray::new(hr.p, fuzzed);
        if ray.direction.dot(&hr.normal).v > 0 {
            Some((self.albedo, ray))
        } else {
            None
        }
    }
}

impl Dielectric {
    /// Schlick's approximation for reflectance.
    fn reflectance(cosine: Fx, ref_idx: Fx) -> (res: Fx)
        requires
            add_s(one_fx(), ref_idx).v != 0,
        ensures
            res == reflectance_s(cosine, ref_idx),
    {
        let one = Fx { v: SCALE };
        let r0 = one.sub(ref_idx).div(one.add(ref_idx));
        let r0s = r0.mul(r0);
        let p1 = one.sub(cosine);
        let p5 = p1.mul(p1).mul(p1).mul(p1).mul(p1);
        r0s.add(one.sub(r0s).mul(p5))
    }

    /// Glass: always scatters with identity attenuation. Reflects on total
    /// internal reflection or on a random draw against the Schlick
    /// reflectance; otherwise refracts by Snell's law. When the refraction
    /// ratio is exactly one the media match, nothing can reflect, and the
    /// ray always passes into the refract branch with no random draw.
    pub fn scatter(&self, r: &Ray, hr: &HitRecord) -> (res: Option<(Array3, Ray)>)
        requires
            self.index_r.v > 0,
        ensures
            res is Some,
            res matches Some((atten, scat)) ==> ({
                let u = unit_s(r.direction);
                let ratio = refract_ratio_s(hr.front_face, self.index_r);
                &&& atten == white_s()
                &&& scat.origin == hr.p
                &&& (scat.direction == reflect_s(u, hr.normal) || scat.direction == refract_s(
                    u,
                    hr.normal,
                    ratio,
                ))
                &&& (mul_s(ratio, sin_theta_s(u, hr.normal)).v > SCALE ==> scat.direction
                    == reflect_s(u, hr.normal))
                &&& ((mul_s(ratio, sin_theta_s(u, hr.normal)).v <= SCALE && reflectance_s(
                    cos_theta_s(u, hr.normal),
                    ratio,
                ).v <= 0) ==> scat.direction == refract_s(u, hr.normal, ratio))
                &&& (ratio == one_fx() ==> scat.direction == refract_s(u, hr.normal, one_fx()))
                &&& (self.index_r == one_fx() ==> scat.direction == refract_s(
                    u,
                    hr.normal,
                    one_fx(),
                ))
            }),
    {
        let one = Fx { v: SCALE };
        let attn = Array3::new([one, one, one]);
        let refract_ratio = if hr.front_face {
            one.div(self.index_r)
        } else {
            self.index_r
        };
        proof {
            assert(refract_ratio.v >= 0);
            assert(add_s(one_fx(), refract_ratio).v != 0);
            if self.index_r == one_fx() {
                crate::fx::lemma_sdiv_mul_exact(SCALE as int, SCALE as int);
                assert(refract_ratio == one_fx());
            }
        }
        let dir = r.direction.unit();
        let dp = hr.normal.dot(&dir.neg());
        let cos_theta = if dp.v < SCALE {
            dp
        } else {
            one
        };
        let sin_theta = one.sub(cos_theta.mul(cos_theta)).sqrt();

        let vec_out = if refract_ratio.v == SCALE {
            proof {
                // at ratio one the total-internal-reflection test cannot
                // fire: the sine is at most one
                assert((cos_theta.v as int) * (cos_theta.v as int) >= 0) by (nonlinear_arith) {
                }
                assert(mul_s(cos_theta, cos_theta).v >= 0);
                assert(sin_theta.v * sin_theta.v <= (SCALE as int) * (SCALE as int) || sin_theta.v
                    == 0);
                assert(sin_theta.v <= SCALE) by (nonlinear_arith)
                    requires
                        sin_theta.v >= 0,
                        sin_theta.v * sin_theta.v <= (SCALE as int) * (SCALE as int) || sin_theta.v
                            == 0,
                {
                }
                crate::array3::lemma_mul_one(sin_theta);
                assert(mul_s(refract_ratio, sin_theta).v <= SCALE);
            }
            refract(&dir, &hr.normal, refract_ratio)
        } else if refract_ratio.mul(sin_theta).v > SCALE || Self::reflectance(
            cos_theta,
            refract_ratio,
        ).v > random_f64().v {
            reflect(&dir, &hr.normal)
        } else {
            refract(&dir, &hr.normal, refract_ratio)
        };
        let ray = Ray::new(hr.p, vec_out);
        Some((attn, ray))
    }
}

impl Material {
    /// Dispatch to the variant's scattering rule. Absorption can only come
    /// from a metal; every scattered ray starts at the hit point.
    pub fn scatter(&self, r: &Ray, hr: &HitRecord) -> (res: Option<(Array3, Ray)>)
        requires
            valid_material_s(*self),
        ensures
            res matches Some((atten, scat)) ==> scat.origin == hr.p && atten == attenuation_s(
                *self,
            ),
            res is None ==> *self matches Material::Metal(_),
            *self matches Material::Lambertian(l) ==> res is Some,
            *self matches Material::Dielectric(d) ==> res is Some,
    {
        match self {
            Material::Lambertian(l) => l.scatter(r, hr),
            Material::Metal(m) => m.scatter(r, hr),
            Material::Dielectric(e) => e.scatter(r, hr),
        }
    }
}

impl Scatterable for Material {
    /// Unvalidated entry point: a degenerate dielectric (nonpositive index)
    /// is treated as absorbing.
    fn scatter(&self, r: &Ray, hr: &HitRecord) -> Option<(Array3, Ray)> {
        let ok = match self {
            Material::Dielectric(d) => d.index_r.v > 0,
            _ => true,
        };
        if ok {
            Material::scatter(self, r, hr)
        } else {
            None
        }
    }
}

impl Scatterable for Lambertian {
    fn scatter(&self, r: &Ray, hr: &HitRecord) -> Option<(Array3, Ray)> {
        Lambertian::scatter(self, r, hr)
    }
}

impl Scatterable for Metal {
    fn scatter(&self, r: &Ray, hr: &HitRecord) -> Option<(Array3, Ray)> {
        Metal::scatter(self, r, hr)
    }
}

impl Scatterable for Dielectric {
    fn scatter(&self, r: &Ray, hr: &HitRecord) -> Option<(Array3, Ray)> {
        if self.index_r.v > 0 {
            Dielectric::scatter(self, r, hr)
        } else {
            None
        }
    }
}

} // verus!
