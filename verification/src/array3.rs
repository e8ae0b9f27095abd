//! Three-component vectors over fixed-point scalars.
//!
//! An `Array3` serves as a point, a direction, and an RGB color. Every
//! operation has an exact spec twin (`add_v`, `dot_s`, ...), and the
//! algebraic laws of the vector calculus are proved at the bottom of the
//! file: symmetry of the dot product, antisymmetry of the cross product,
//! head-on reflection, and normalization of an already-unit vector.

use vstd::prelude::*;
use crate::fx::{
    Fx, SCALE, MAX_FX, wf, absi, clampi, sdiv, add_s, sub_s, neg_s, mul_s, div_s, abs_s,
    from_int_s, sqrt_s, isqrt_i, lemma_isqrt_i, lemma_isqrt_unique, lemma_sdiv_mul_exact,
    lemma_sdiv_neg, lemma_clampi_neg,
};
use crate::util::random_f64;

verus! {

/// Components below this many units count as zero (one fixed-point ulp).
pub const EPS_FX: i64 = 1;

#[derive(Clone, Copy, Debug, PartialEq, Eq, Structural)]
pub struct Array3 {
    pub x: Fx,
    pub y: Fx,
    pub z: Fx,
}

/// All three components lie in the saturation range.
pub open spec fn wf_v(a: Array3) -> bool {
    wf(a.x) && wf(a.y) && wf(a.z)
}

pub open spec fn zero_v() -> Array3 {
    Array3 { x: Fx { v: 0 }, y: Fx { v: 0 }, z: Fx { v: 0 } }
}

pub open spec fn one_fx() -> Fx {
    Fx { v: SCALE }
}

pub open spec fn neg_v(a: Array3) -> Array3 {
    Array3 { x: neg_s(a.x), y: neg_s(a.y), z: neg_s(a.z) }
}

pub open spec fn add_v(a: Array3, b: Array3) -> Array3 {
    Array3 { x: add_s(a.x, b.x), y: add_s(a.y, b.y), z: add_s(a.z, b.z) }
}

pub open spec fn sub_v(a: Array3, b: Array3) -> Array3 {
    Array3 { x: sub_s(a.x, b.x), y: sub_s(a.y, b.y), z: sub_s(a.z, b.z) }
}

/// Elementwise product (used for color attenuation).
pub open spec fn mul_v(a: Array3, b: Array3) -> Array3 {
    Array3 { x: mul_s(a.x, b.x), y: mul_s(a.y, b.y), z: mul_s(a.z, b.z) }
}

/// Elementwise quotient.
pub open spec fn div_v(a: Array3, b: Array3) -> Array3
    recommends
        b.x.v != 0,
        b.y.v != 0,
        b.z.v != 0,
{
    Array3 { x: div_s(a.x, b.x), y: div_s(a.y, b.y), z: div_s(a.z, b.z) }
}

/// Scalar multiple.
pub open spec fn smul_v(a: Array3, t: Fx) -> Array3 {
    Array3 { x: mul_s(a.x, t), y: mul_s(a.y, t), z: mul_s(a.z, t) }
}

/// Scalar quotient.
pub open spec fn sdiv_v(a: Array3, t: Fx) -> Array3
    recommends
        t.v != 0,
{
    Array3 { x: div_s(a.x, t), y: div_s(a.y, t), z: div_s(a.z, t) }
}

/// Dot product, summed left to right as the implementation does.
pub open spec fn dot_s(a: Array3, b: Array3) -> Fx {
    add_s(add_s(mul_s(a.x, b.x), mul_s(a.y, b.y)), mul_s(a.z, b.z))
}

pub open spec fn cross_s(a: Array3, b: Array3) -> Array3 {
    Array3 {
        x: sub_s(mul_s(a.y, b.z), mul_s(a.z, b.y)),
        y: sub_s(mul_s(a.z, b.x), mul_s(a.x, b.z)),
        z: sub_s(mul_s(a.x, b.y), mul_s(a.y, b.x)),
    }
}

pub open spec fn square_s(a: Array3) -> Fx {
    dot_s(a, a)
}

pub open spec fn norm_s(a: Array3) -> Fx {
    sqrt_s(square_s(a))
}

/// Normalization: the zero vector (whose norm rounds to zero) maps to
/// itself; anything else is divided by its norm.
pub open spec fn unit_s(a: Array3) -> Array3 {
    if norm_s(a).v == 0 {
        zero_v()
    } else {
        sdiv_v(a, norm_s(a))
    }
}

pub open spec fn near_zero_s(a: Array3) -> bool {
    absi(a.x.v as int) < EPS_FX && absi(a.y.v as int) < EPS_FX && absi(a.z.v as int) < EPS_FX
}

/// Mirror reflection: `v - 2 (v . n) n`.
pub open spec fn reflect_s(v: Array3, n: Array3) -> Array3 {
    sub_v(v, smul_v(n, mul_s(from_int_s(2), dot_s(v, n))))
}

/// Snell refraction split into perpendicular and parallel parts, with the
/// cosine clamped to at most one.
pub open spec fn refract_s(v: Array3, n: Array3, eta_ratio: Fx) -> Array3 {
    let dp = dot_s(n, neg_v(v));
    let cos_theta = if dp.v < SCALE {
        dp
    } else {
        one_fx()
    };
    let r_out_perp = smul_v(add_v(v, smul_v(n, cos_theta)), eta_ratio);
    let r_out_parallel = smul_v(n, neg_s(sqrt_s(abs_s(sub_s(one_fx(), square_s(r_out_perp))))));
    add_v(r_out_perp, r_out_parallel)
}

impl Array3 {
    pub fn zero() -> (r: Array3)
        ensures
            r == zero_v(),
    {
        Array3 { x: Fx { v: 0 }, y: Fx { v: 0 }, z: Fx { v: 0 } }
    }

    pub fn new(elems: [Fx; 3]) -> (r: Array3)
        ensures
            r.x == elems[0],
            r.y == elems[1],
            r.z == elems[2],
    {
        Array3 { x: elems[0], y: elems[1], z: elems[2] }
    }

    /// Component access; indices above 2 are a caller error.
    pub fn index(&self, i: usize) -> (r: Fx)
        requires
            i < 3,
        ensures
            r == if i == 0 {
                self.x
            } else if i == 1 {
                self.y
            } else {
                self.z
            },
    {
        if i == 0 {
            self.x
        } else if i == 1 {
            self.y
        } else {
            self.z
        }
    }

    /// A vector with each component drawn uniformly from `[0, 1)`.
    pub fn random() -> (r: Array3)
        ensures
            0 <= r.x.v < SCALE,
            0 <= r.y.v < SCALE,
            0 <= r.z.v < SCALE,
    {
        Array3 { x: random_f64(), y: random_f64(), z: random_f64() }
    }

    /// A vector with each component drawn from `[min, max)`.
    pub fn random_rge(min: Fx, max: Fx) -> (r: Array3)
        ensures
            exists|u: Fx| 0 <= u.v < SCALE && r.x == add_s(min, mul_s(sub_s(max, min), u)),
            exists|u: Fx| 0 <= u.v < SCALE && r.y == add_s(min, mul_s(sub_s(max, min), u)),
            exists|u: Fx| 0 <= u.v < SCALE && r.z == add_s(min, mul_s(sub_s(max, min), u)),
    {
        let r = Array3 {
            x: crate::util::random_rge_f64(min, max),
            y: crate::util::random_rge_f64(min, max),
            z: crate::util::random_rge_f64(min, max),
        };
        r
    }

    /// Rejection sampling of a point strictly inside the unit sphere: draw in
    /// the cube `[-1, 1)^3` and retry while the point falls outside, or while
    /// its norm rounds to zero (a degenerate input to normalization). The
    /// retry count is bounded; after that a fixed interior point is returned.
    fn random_in_unit_sphere() -> (r: Array3)
        ensures
            0 < norm_s(r).v < SCALE,
    {
        let one = Fx { v: SCALE };
        let mone = Fx { v: -SCALE };
        let mut tries: u32 = 0;
        while tries < 64
            decreases 64 - tries,
        {
            let p = Self::random_rge(mone, one);
            let n = p.norm();
            if 0 < n.v && n.v < SCALE {
                return p;
            }
            tries = tries + 1;
        }
        let fallback = Array3 { x: Fx { v: 32768 }, y: Fx { v: 0 }, z: Fx { v: 0 } };
        proof {
            assert((32768 as int) * (32768 as int) == 1073741824) by (nonlinear_arith) {
            }
            assert((16384 as int) * (SCALE as int) == 1073741824) by (nonlinear_arith) {
            }
            lemma_sdiv_mul_exact(16384, SCALE as int);
            assert(square_s(fallback).v == 16384);
            assert((32769 as int) * (32769 as int) == 1073807361) by (nonlinear_arith) {
            }
            lemma_isqrt_unique(1073741824, 32768);
            assert(norm_s(fallback).v == 32768);
        }
        fallback
    }

    /// Rejection sampling of a point strictly inside the unit disk in the
    /// x-y plane, bounded like `random_in_unit_sphere`.
    pub fn random_in_unit_disk() -> (r: Array3)
        ensures
            norm_s(r).v < SCALE,
            r.z.v == 0,
    {
        let one = Fx { v: SCALE };
        let mone = Fx { v: -SCALE };
        let mut tries: u32 = 0;
        while tries < 64
            decreases 64 - tries,
        {
            let q = Self::random_rge(mone, one);
            let p = Array3 { x: q.x, y: q.y, z: Fx { v: 0 } };
            if p.norm().v < SCALE {
                return p;
            }
            tries = tries + 1;
        }
        Array3::zero()
    }

    /// A unit-length direction: a point inside the unit sphere, with a
    /// nonzero rounded norm, normalized. The result is never near zero.
    pub fn random_unit() -> (r: Array3)
        ensures
            wf_v(r),
            !near_zero_s(r),
            exists|p: Array3| #[trigger] unit_s(p) == r && 0 < norm_s(p).v < SCALE,
    {
        let p = Self::random_in_unit_sphere();
        let r = p.unit();
        proof {
            lemma_unit_not_near_zero(p);
            assert(unit_s(p) == r && 0 < norm_s(p).v < SCALE);
        }
        r
    }

    /// A unit direction flipped, if needed, into the hemisphere of `normal`:
    /// the result never points against `normal` and is never near zero.
    pub fn random_on_hemisphere(normal: &Array3) -> (r: Array3)
        ensures
            wf_v(r),
            !near_zero_s(r),
            dot_s(r, *normal).v >= 0,
            exists|p: Array3|
                0 < norm_s(p).v < SCALE && (r == #[trigger] unit_s(p) || r == neg_v(unit_s(p))),
    {
        let v = Self::random_unit();
        proof {
            let p = choose|p: Array3| #[trigger] unit_s(p) == v && 0 < norm_s(p).v < SCALE;
            assert(0 < norm_s(p).v < SCALE && (v == unit_s(p) || v == neg_v(unit_s(p))));
            assert(0 < norm_s(p).v < SCALE && (neg_v(v) == unit_s(p) || neg_v(v) == neg_v(
                unit_s(p),
            )));
        }
        if v.dot(normal).v > 0 {
            v
        } else {
            let r = v.neg();
            proof {
                lemma_dot_neg(v, *normal);
                lemma_clampi_neg(v.x.v as int);
                lemma_clampi_neg(v.y.v as int);
                lemma_clampi_neg(v.z.v as int);
                assert(!near_zero_s(r));
            }
            r
        }
    }

    pub fn dot(&self, rhs: &Array3) -> (r: Fx)
        ensures
            r == dot_s(*self, *rhs),
            wf(r),
    {
        self.x.mul(rhs.x).add(self.y.mul(rhs.y)).add(self.z.mul(rhs.z))
    }

    pub fn cross(&self, rhs: &Array3) -> (r: Array3)
        ensures
            r == cross_s(*self, *rhs),
            wf_v(r),
    {
        Array3 {
            x: self.y.mul(rhs.z).sub(self.z.mul(rhs.y)),
            y: self.z.mul(rhs.x).sub(self.x.mul(rhs.z)),
            z: self.x.mul(rhs.y).sub(self.y.mul(rhs.x)),
        }
    }

    pub fn square(&self) -> (r: Fx)
        ensures
            r == square_s(*self),
            wf(r),
    {
        self.dot(self)
    }

    pub fn norm(&self) -> (r: Fx)
        ensures
            r == norm_s(*self),
            r.v >= 0,
            wf(r),
    {
        self.dot(self).sqrt()
    }

    /// Normalize. For the zero vector (norm rounds to zero) this returns the
    /// zero vector; meaningful results need a nonzero input.
    pub fn unit(&self) -> (r: Array3)
        ensures
            r == unit_s(*self),
            wf_v(r),
    {
        let n = self.norm();
        if n.v == 0 {
            Array3::zero()
        } else {
            Array3 { x: self.x.div(n), y: self.y.div(n), z: self.z.div(n) }
        }
    }

    pub fn near_zero(&self) -> (r: bool)
        ensures
            r == near_zero_s(*self),
    {
        -EPS_FX < self.x.v && self.x.v < EPS_FX && -EPS_FX < self.y.v && self.y.v < EPS_FX
            && -EPS_FX < self.z.v && self.z.v < EPS_FX
    }

    pub fn neg(&self) -> (r: Array3)
        ensures
            r == neg_v(*self),
            wf_v(r),
    {
        Array3 { x: self.x.neg(), y: self.y.neg(), z: self.z.neg() }
    }

    pub fn add(&self, rhs: &Array3) -> (r: Array3)
        ensures
            r == add_v(*self, *rhs),
            wf_v(r),
    {
        Array3 { x: self.x.add(rhs.x), y: self.y.add(rhs.y), z: self.z.add(rhs.z) }
    }

    pub fn sub(&self, rhs: &Array3) -> (r: Array3)
        ensures
            r == sub_v(*self, *rhs),
            wf_v(r),
    {
        Array3 { x: self.x.sub(rhs.x), y: self.y.sub(rhs.y), z: self.z.sub(rhs.z) }
    }

    /// Elementwise product.
    pub fn mul(&self, rhs: &Array3) -> (r: Array3)
        ensures
            r == mul_v(*self, *rhs),
            wf_v(r),
    {
        Array3 { x: self.x.mul(rhs.x), y: self.y.mul(rhs.y), z: self.z.mul(rhs.z) }
    }

    /// Elementwise quotient.
    pub fn div(&self, rhs: &Array3) -> (r: Array3)
        requires
            rhs.x.v != 0,
            rhs.y.v != 0,
            rhs.z.v != 0,
        ensures
            r == div_v(*self, *rhs),
            wf_v(r),
    {
        Array3 { x: self.x.div(rhs.x), y: self.y.div(rhs.y), z: self.z.div(rhs.z) }
    }

    /// Scalar multiple.
    pub fn scale(&self, t: Fx) -> (r: Array3)
        ensures
            r == smul_v(*self, t),
            wf_v(r),
    {
        Array3 { x: self.x.mul(t), y: self.y.mul(t), z: self.z.mul(t) }
    }

    /// Scalar quotient.
    pub fn div_scalar(&self, t: Fx) -> (r: Array3)
        requires
            t.v != 0,
        ensures
            r == sdiv_v(*self, t),
            wf_v(r),
    {
        Array3 { x: self.x.div(t), y: self.y.div(t), z: self.z.div(t) }
    }
}

/// Mirror reflection of `vec` about the surface normal `normal`.
pub fn reflect(vec: &Array3, normal: &Array3) -> (r: Array3)
    ensures
        r == reflect_s(*vec, *normal),
        wf_v(r),
{
    let two = Fx::from_int(2);
    vec.sub(&normal.scale(two.mul(vec.dot(normal))))
}

/// Refraction of `vec` through a surface with normal `normal` and ratio of
/// refractive indices `eta_ratio`.
pub fn refract(vec: &Array3, normal: &Array3, eta_ratio: Fx) -> (r: Array3)
    ensures
        r == refract_s(*vec, *normal, eta_ratio),
        wf_v(r),
{
    let dp = normal.dot(&vec.neg());
    let cos_theta = if dp.v < SCALE {
        dp
    } else {
        Fx { v: SCALE }
    };
    let r_out_perp = vec.add(&normal.scale(cos_theta)).scale(eta_ratio);
    let one = Fx { v: SCALE };
    let r_out_parallel = normal.scale(one.sub(r_out_perp.square()).abs().sqrt().neg());
    r_out_perp.add(&r_out_parallel)
}

/// Products with a negated factor: `a * (-b) == (-a) * b == -(a * b)`.
pub proof fn lemma_neg_mul(a: int, b: int)
    ensures
        a * (-b) == -(a * b),
        (-a) * b == -(a * b),
{
    assert(a * (-b) == -(a * b) && (-a) * b == -(a * b)) by (nonlinear_arith) {
    }
}

/// Multiplying a well-formed scalar by one is exact.
pub proof fn lemma_mul_one(x: Fx)
    requires
        wf(x),
    ensures
        mul_s(x, one_fx()) == x,
        mul_s(one_fx(), x) == x,
        mul_s(x, neg_s(one_fx())) == neg_s(x),
{
    lemma_sdiv_mul_exact(x.v as int, SCALE as int);
    assert((SCALE as int) * (x.v as int) == (x.v as int) * (SCALE as int));
    lemma_neg_mul(x.v as int, SCALE as int);
    assert((x.v as int) * (-(SCALE as int)) == (-(x.v as int)) * (SCALE as int));
    lemma_sdiv_mul_exact(-(x.v as int), SCALE as int);
    assert(neg_s(one_fx()).v as int == -(SCALE as int));
}

/// Negating one factor negates a fixed-point product.
pub proof fn lemma_mul_neg_left(a: Fx, b: Fx)
    requires
        wf(a),
    ensures
        mul_s(neg_s(a), b) == neg_s(mul_s(a, b)),
{
    let p = (a.v as int) * (b.v as int);
    assert(neg_s(a).v as int == -(a.v as int));
    lemma_neg_mul(a.v as int, b.v as int);
    lemma_sdiv_neg(p, SCALE as int);
    lemma_clampi_neg(sdiv(p, SCALE as int));
    assert(mul_s(neg_s(a), b).v as int == clampi(sdiv(-p, SCALE as int)) as int);
    assert(neg_s(mul_s(a, b)).v as int == clampi(-(clampi(sdiv(p, SCALE as int)) as int)) as int);
}

/// Negating a vector negates its dot product with any other vector.
pub proof fn lemma_dot_neg(a: Array3, b: Array3)
    requires
        wf_v(a),
    ensures
        dot_s(neg_v(a), b) == neg_s(dot_s(a, b)),
{
    lemma_mul_neg_left(a.x, b.x);
    lemma_mul_neg_left(a.y, b.y);
    lemma_mul_neg_left(a.z, b.z);
    let t0 = mul_s(a.x, b.x);
    let t1 = mul_s(a.y, b.y);
    let t2 = mul_s(a.z, b.z);
    lemma_clampi_neg((t0.v + t1.v) as int);
    let c = add_s(t0, t1);
    lemma_clampi_neg((c.v + t2.v) as int);
}

/// LAW: the dot product is symmetric: `dot(a, b) == dot(b, a)`.
pub proof fn lemma_dot_comm(a: Array3, b: Array3)
    ensures
        dot_s(a, b) == dot_s(b, a),
{
    assert((a.x.v as int) * (b.x.v as int) == (b.x.v as int) * (a.x.v as int));
    assert((a.y.v as int) * (b.y.v as int) == (b.y.v as int) * (a.y.v as int));
    assert((a.z.v as int) * (b.z.v as int) == (b.z.v as int) * (a.z.v as int));
}

/// LAW: the cross product is antisymmetric: `cross(a, b) == -cross(b, a)`.
pub proof fn lemma_cross_antisym(a: Array3, b: Array3)
    ensures
        cross_s(a, b) == neg_v(cross_s(b, a)),
{
    assert((a.y.v as int) * (b.z.v as int) == (b.z.v as int) * (a.y.v as int));
    assert((a.z.v as int) * (b.y.v as int) == (b.y.v as int) * (a.z.v as int));
    assert((a.z.v as int) * (b.x.v as int) == (b.x.v as int) * (a.z.v as int));
    assert((a.x.v as int) * (b.z.v as int) == (b.z.v as int) * (a.x.v as int));
    assert((a.x.v as int) * (b.y.v as int) == (b.y.v as int) * (a.x.v as int));
    assert((a.y.v as int) * (b.x.v as int) == (b.x.v as int) * (a.y.v as int));
    let xab = mul_s(a.y, b.z).v - mul_s(a.z, b.y).v;
    let yab = mul_s(a.z, b.x).v - mul_s(a.x, b.z).v;
    let zab = mul_s(a.x, b.y).v - mul_s(a.y, b.x).v;
    lemma_clampi_neg(-xab);
    lemma_clampi_neg(-yab);
    lemma_clampi_neg(-zab);
}

/// LAW: the cross product of a vector with itself is the zero vector.
pub proof fn lemma_cross_self(a: Array3)
    ensures
        cross_s(a, a) == zero_v(),
{
    assert((a.y.v as int) * (a.z.v as int) == (a.z.v as int) * (a.y.v as int));
    assert((a.z.v as int) * (a.x.v as int) == (a.x.v as int) * (a.z.v as int));
    assert((a.x.v as int) * (a.y.v as int) == (a.y.v as int) * (a.x.v as int));
}

/// A vector whose dot product with itself is one has components of
/// magnitude at most one.
pub proof fn lemma_unit_comp_bound(n: Array3)
    requires
        wf_v(n),
        dot_s(n, n) == one_fx(),
    ensures
        absi(n.x.v as int) <= SCALE as int,
        absi(n.y.v as int) <= SCALE as int,
        absi(n.z.v as int) <= SCALE as int,
{
    let t0 = mul_s(n.x, n.x);
    let t1 = mul_s(n.y, n.y);
    let t2 = mul_s(n.z, n.z);
    assert((n.x.v as int) * (n.x.v as int) >= 0) by (nonlinear_arith) {
    }
    assert((n.y.v as int) * (n.y.v as int) >= 0) by (nonlinear_arith) {
    }
    assert((n.z.v as int) * (n.z.v as int) >= 0) by (nonlinear_arith) {
    }
    assert(t0.v >= 0 && t1.v >= 0 && t2.v >= 0);
    assert(t0.v + t1.v + t2.v == SCALE as int);
    lemma_sq_bound(n.x.v as int, t0.v as int);
    lemma_sq_bound(n.y.v as int, t1.v as int);
    lemma_sq_bound(n.z.v as int, t2.v as int);
}

/// If the scaled-down square of `x` is at most one, `x` is at most one.
proof fn lemma_sq_bound(x: int, t: int)
    requires
        t == clampi(sdiv(x * x, SCALE as int)) as int,
        0 <= t <= SCALE as int,
    ensures
        absi(x) <= SCALE as int,
{
    assert(x * x >= 0) by (nonlinear_arith) {
    }
    let q = sdiv(x * x, SCALE as int);
    assert(q == (x * x) / (SCALE as int));
    if q > MAX_FX as int {
        assert(t == MAX_FX as int);
    }
    assert(q == t);
    assert(x * x < (SCALE as int) * ((q + 1) as int)) by {
        vstd::arithmetic::div_mod::lemma_fundamental_div_mod(x * x, SCALE as int);
    }
    assert(absi(x) <= SCALE as int) by (nonlinear_arith)
        requires
            x * x < (SCALE as int) * ((SCALE as int) + 1),
            SCALE as int == 65536,
    {
    }
}

/// LAW: a ray striking a surface head-on (`v == -n` for a unit normal `n`)
/// reflects straight back along the normal: `reflect(v, n) == n`.
pub proof fn lemma_reflect_head_on(v: Array3, n: Array3)
    requires
        wf_v(n),
        v == neg_v(n),
        dot_s(n, n) == one_fx(),
    ensures
        reflect_s(v, n) == n,
{
    lemma_unit_comp_bound(n);
    lemma_dot_neg(n, n);
    assert(dot_s(v, n) == neg_s(one_fx()));
    assert(dot_s(v, n).v as int == -(SCALE as int));
    let two = from_int_s(2);
    assert(two.v as int == 2 * (SCALE as int));
    let m = mul_s(two, dot_s(v, n));
    assert((2 * (SCALE as int)) * (-(SCALE as int)) == (-(2 * (SCALE as int))) * (
    SCALE as int)) by (nonlinear_arith) {
    }
    lemma_sdiv_mul_exact(-(2 * (SCALE as int)), SCALE as int);
    assert(m.v as int == -(2 * (SCALE as int)));
    lemma_refl_comp(n.x.v as int, m.v as int);
    lemma_refl_comp(n.y.v as int, m.v as int);
    lemma_refl_comp(n.z.v as int, m.v as int);
}

/// One component of the head-on reflection: `-nx - (nx * m / SCALE) == nx`
/// when `m == -2 * SCALE`.
proof fn lemma_refl_comp(nx: int, m: int)
    requires
        m == -(2 * (SCALE as int)),
        absi(nx) <= SCALE as int,
    ensures
        clampi((clampi(-nx) as int) - (clampi(sdiv(nx * m, SCALE as int)) as int)) == nx as i64,
{
    assert(nx * m == (-(2 * nx)) * (SCALE as int)) by (nonlinear_arith)
        requires
            m == -(2 * (SCALE as int)),
    {
    }
    lemma_sdiv_mul_exact(-(2 * nx), SCALE as int);
    assert(sdiv(nx * m, SCALE as int) == -(2 * nx));
}

/// LAW (normalization): a vector whose squared norm is exactly one is fixed
/// by `unit`, and its norm is exactly one.
pub proof fn lemma_unit_norm_one(v: Array3)
    requires
        wf_v(v),
        square_s(v) == one_fx(),
    ensures
        norm_s(v) == one_fx(),
        unit_s(v) == v,
        norm_s(unit_s(v)) == one_fx(),
{
    assert((SCALE as int) * (SCALE as int) < ((SCALE as int) + 1) * ((SCALE as int) + 1))
        by (nonlinear_arith) {
    }
    lemma_isqrt_unique((SCALE as int) * (SCALE as int), SCALE as int);
    assert(norm_s(v).v as int == SCALE as int);
    lemma_sdiv_mul_exact(v.x.v as int, SCALE as int);
    lemma_sdiv_mul_exact(v.y.v as int, SCALE as int);
    lemma_sdiv_mul_exact(v.z.v as int, SCALE as int);
}

/// Squares drop signs, and magnitudes distribute over scaling.
proof fn lemma_absi_facts(x: int, c: int)
    requires
        c > 0,
    ensures
        x * x == absi(x) * absi(x),
        x * x >= 0,
        absi(x * c) == absi(x) * c,
        absi(x) * c >= 0,
{
    assert(x * x == absi(x) * absi(x) && x * x >= 0 && absi(x * c) == absi(x) * c && absi(x) * c
        >= 0) by (nonlinear_arith)
        requires
            c > 0,
    {
    }
}

/// Two nonnegative integers compare as their squares do.
proof fn lemma_sq_lt(a: int, m: int)
    requires
        a >= 0,
        m >= 0,
        a * a < m * m,
    ensures
        a < m,
{
    if a >= m {
        assert(m * m <= a * a) by (nonlinear_arith)
            requires
                a >= m >= 0,
        {
        }
    }
}

/// The scaled-down square of a component of magnitude at most `2^30`:
/// it does not saturate, and its division remainder is named.
proof fn lemma_sq_comp(x: int)
    requires
        absi(x) <= 0x40000000,
    ensures
        ({
            let t = (x * x) / (SCALE as int);
            &&& x * x >= 0
            &&& x * x <= 0x1000000000000000
            &&& clampi(sdiv(x * x, SCALE as int)) as int == t
            &&& 0 <= t <= 0x100000000000
            &&& x * x == (SCALE as int) * t + (x * x) % (SCALE as int)
            &&& 0 <= (x * x) % (SCALE as int) < SCALE as int
        }),
{
    let s = SCALE as int;
    lemma_absi_facts(x, s);
    assert(x * x <= 0x1000000000000000) by (nonlinear_arith)
        requires
            x * x == absi(x) * absi(x),
            0 <= absi(x) <= 0x40000000,
    {
    }
    let t = (x * x) / s;
    assert(t <= (0x1000000000000000 as int) / s && 0 <= t) by {
        vstd::arithmetic::div_mod::lemma_div_is_ordered(x * x, 0x1000000000000000, s);
        vstd::arithmetic::div_mod::lemma_div_is_ordered(0, x * x, s);
    }
    assert(sdiv(x * x, s) == t);
    vstd::arithmetic::div_mod::lemma_fundamental_div_mod(x * x, s);
}

/// One component of a normalization: the quotient's magnitude is at most
/// `SCALE + 2` and it brackets `|x| * SCALE` between multiples of `n`.
proof fn lemma_unit_comp(x: int, n: int)
    requires
        SCALE as int <= n,
        absi(x) <= n + 2,
    ensures
        ({
            let b = absi(sdiv(x * (SCALE as int), n));
            &&& b <= SCALE as int + 2
            &&& b >= 0
            &&& clampi(sdiv(x * (SCALE as int), n)) as int == sdiv(x * (SCALE as int), n)
            &&& n * b <= absi(x) * (SCALE as int)
            &&& absi(x) * (SCALE as int) < n * (b + 1)
        }),
{
    let s = SCALE as int;
    let a = absi(x);
    lemma_absi_facts(x, s);
    let b = (a * s) / n;
    assert(b >= 0) by {
        vstd::arithmetic::div_mod::lemma_div_is_ordered(0, a * s, n);
    }
    assert(absi(sdiv(x * s, n)) == b);
    vstd::arithmetic::div_mod::lemma_fundamental_div_mod(a * s, n);
    assert(n * b <= a * s);
    assert(a * s < n * (b + 1)) by (nonlinear_arith)
        requires
            a * s == n * ((a * s) / n) + (a * s) % n,
            b == (a * s) / n,
            0 <= (a * s) % n < n,
    {
    }
    assert(a * s <= n * (s + 2)) by (nonlinear_arith)
        requires
            a <= n + 2,
            s <= n,
            s > 0,
    {
    }
    assert((n * (s + 2)) / n == s + 2) by {
        vstd::arithmetic::div_mod::lemma_div_multiples_vanish(s + 2, n);
    }
    vstd::arithmetic::div_mod::lemma_div_is_ordered(a * s, n * (s + 2), n);
}

/// LAW (normalization, within tolerance): for any vector of real length at
/// least one whose components stay below `2^14` in magnitude (so no step
/// saturates), both the squared norm and the norm of `unit(v)` lie within
/// ten fixed-point units of one: the norm of a normalized vector is one up
/// to about `1.6e-4`.
pub proof fn lemma_unit_norm_near_one(v: Array3)
    requires
        absi(v.x.v as int) <= 0x40000000,
        absi(v.y.v as int) <= 0x40000000,
        absi(v.z.v as int) <= 0x40000000,
        square_s(v).v >= SCALE,
    ensures
        SCALE as int - 10 <= square_s(unit_s(v)).v as int <= SCALE as int + 6,
        SCALE as int - 10 <= norm_s(unit_s(v)).v as int <= SCALE as int + 6,
{
    let s = SCALE as int;
    let x0 = v.x.v as int;
    let x1 = v.y.v as int;
    let x2 = v.z.v as int;
    lemma_sq_comp(x0);
    lemma_sq_comp(x1);
    lemma_sq_comp(x2);
    let t0 = (x0 * x0) / s;
    let t1 = (x1 * x1) / s;
    let t2 = (x2 * x2) / s;
    assert(square_s(v).v as int == t0 + t1 + t2);
    let sq = t0 + t1 + t2;
    let xx = x0 * x0 + x1 * x1 + x2 * x2;
    let rr = xx - s * sq;
    assert(0 <= rr < 3 * s);

    // The norm brackets sq * s, lies between SCALE and sq, and is nonzero.
    assert(sq * s >= 0 && sq * s >= s * s) by (nonlinear_arith)
        requires
            sq >= s,
            s == 65536,
    {
    }
    lemma_isqrt_i(sq * s);
    let n = isqrt_i(sq * s);
    assert(n * n <= sq * s < (n + 1) * (n + 1));
    assert(sq * s < 0x4000000000000000) by (nonlinear_arith)
        requires
            0 <= sq <= 0x300000000000,
            s == 65536,
    {
    }
    assert(n <= 0x80000000) by (nonlinear_arith)
        requires
            n >= 0,
            n * n < 0x4000000000000000,
    {
    }
    assert(norm_s(v).v as int == n);
    assert(n >= s) by {
        if n < s {
            assert((n + 1) * (n + 1) <= s * s) by (nonlinear_arith)
                requires
                    0 <= n + 1 <= s,
            {
            }
        }
    }
    assert(n <= sq) by {
        if n > sq {
            assert(sq * s <= sq * sq) by (nonlinear_arith)
                requires
                    sq >= s,
                    s > 0,
            {
            }
            assert(sq * sq < n * n) by (nonlinear_arith)
                requires
                    0 <= sq < n,
            {
            }
        }
    }
    assert(norm_s(v).v != 0);

    // Components are not much longer than the norm.
    lemma_absi_facts(x0, s);
    lemma_absi_facts(x1, s);
    lemma_absi_facts(x2, s);
    assert((n + 3) * (n + 3) == (n + 1) * (n + 1) + 4 * n + 8) by (nonlinear_arith) {
    }
    assert(xx < (n + 3) * (n + 3));
    lemma_abs_le_n3(x0, xx, n);
    lemma_abs_le_n3(x1, xx, n);
    lemma_abs_le_n3(x2, xx, n);
    lemma_unit_comp(x0, n);
    lemma_unit_comp(x1, n);
    lemma_unit_comp(x2, n);
    let b0 = absi(sdiv(x0 * s, n));
    let b1 = absi(sdiv(x1 * s, n));
    let b2 = absi(sdiv(x2 * s, n));
    let uu = b0 * b0 + b1 * b1 + b2 * b2;

    // Upper bound on the sum of squares: n^2 uu <= xx s^2, so uu <= s^2 + 6s.
    lemma_sq_prod_le(n, b0, absi(x0), s);
    lemma_sq_prod_le(n, b1, absi(x1), s);
    lemma_sq_prod_le(n, b2, absi(x2), s);
    assert((n * n) * uu == (n * n) * (b0 * b0) + (n * n) * (b1 * b1) + (n * n) * (
    b2 * b2)) by (nonlinear_arith)
        requires
            uu == b0 * b0 + b1 * b1 + b2 * b2,
    {
    }
    assert(xx * (s * s) == (x0 * x0) * (s * s) + (x1 * x1) * (s * s) + (x2 * x2) * (
    s * s)) by (nonlinear_arith)
        requires
            xx == x0 * x0 + x1 * x1 + x2 * x2,
    {
    }
    assert((n * n) * uu <= xx * (s * s));
    lemma_uu_upper(uu, sq, n, xx, rr, s);

    // Lower bound: xx s^2 < n^2 (uu + 6s + 15), so uu >= s^2 - 6s - 14.
    lemma_sq_prod_lt(n, b0, absi(x0), s);
    lemma_sq_prod_lt(n, b1, absi(x1), s);
    lemma_sq_prod_lt(n, b2, absi(x2), s);
    let vv = (b0 + 1) * (b0 + 1) + (b1 + 1) * (b1 + 1) + (b2 + 1) * (b2 + 1);
    assert(vv <= uu + 6 * s + 15) by (nonlinear_arith)
        requires
            uu == b0 * b0 + b1 * b1 + b2 * b2,
            vv == (b0 + 1) * (b0 + 1) + (b1 + 1) * (b1 + 1) + (b2 + 1) * (b2 + 1),
            0 <= b0 <= s + 2,
            0 <= b1 <= s + 2,
            0 <= b2 <= s + 2,
    {
    }
    assert((n * n) * vv == (n * n) * ((b0 + 1) * (b0 + 1)) + (n * n) * ((b1 + 1) * (b1 + 1)) + (
    n * n) * ((b2 + 1) * (b2 + 1))) by (nonlinear_arith)
        requires
            vv == (b0 + 1) * (b0 + 1) + (b1 + 1) * (b1 + 1) + (b2 + 1) * (b2 + 1),
    {
    }
    assert((n * n) * vv <= (n * n) * (uu + 6 * s + 15)) by (nonlinear_arith)
        requires
            vv <= uu + 6 * s + 15,
            n * n >= 0,
    {
    }
    assert(xx * (s * s) < (n * n) * (uu + 6 * s + 15));
    lemma_uu_lower(uu, sq, n, xx, rr, s);

    // The squared norm of the normalized vector.
    lemma_unit_sq_comp(sdiv(x0 * s, n), b0);
    lemma_unit_sq_comp(sdiv(x1 * s, n), b1);
    lemma_unit_sq_comp(sdiv(x2 * s, n), b2);
    let q0 = (b0 * b0) / s;
    let q1 = (b1 * b1) / s;
    let q2 = (b2 * b2) / s;
    assert(square_s(unit_s(v)).v as int == q0 + q1 + q2);
    let qq = q0 + q1 + q2;
    assert(s * qq <= uu && uu < s * qq + 3 * s) by (nonlinear_arith)
        requires
            uu == b0 * b0 + b1 * b1 + b2 * b2,
            qq == q0 + q1 + q2,
            b0 * b0 == s * q0 + (b0 * b0) % s,
            b1 * b1 == s * q1 + (b1 * b1) % s,
            b2 * b2 == s * q2 + (b2 * b2) % s,
            0 <= (b0 * b0) % s < s,
            0 <= (b1 * b1) % s < s,
            0 <= (b2 * b2) % s < s,
    {
    }
    assert(s - 10 <= qq <= s + 6) by (nonlinear_arith)
        requires
            s == 65536,
            s * qq <= uu,
            uu < s * qq + 3 * s,
            s * s - 6 * s - 14 <= uu,
            uu <= s * s + 6 * s,
    {
    }

    // The norm follows by bracketing the square root.
    assert(qq * s > 0) by (nonlinear_arith)
        requires
            qq >= s - 10,
            s == 65536,
    {
    }
    lemma_isqrt_i(qq * s);
    let m = isqrt_i(qq * s);
    assert(qq * s < 0x200000000) by (nonlinear_arith)
        requires
            0 <= qq <= s + 6,
            s == 65536,
    {
    }
    assert(m <= 0x20000) by (nonlinear_arith)
        requires
            m >= 0,
            m * m < 0x200000000,
    {
    }
    assert(norm_s(unit_s(v)).v as int == m);
    assert(s - 10 <= m <= s + 6) by (nonlinear_arith)
        requires
            s == 65536,
            s - 10 <= qq <= s + 6,
            m >= 0,
            m * m <= qq * s,
            qq * s < (m + 1) * (m + 1),
    {
    }
}

/// A component whose square is below `(n + 3)^2` is below `n + 3`.
proof fn lemma_abs_le_n3(x: int, xx: int, n: int)
    requires
        x * x <= xx,
        xx < (n + 3) * (n + 3),
        n >= 0,
        x * x == absi(x) * absi(x),
    ensures
        absi(x) <= n + 2,
{
    lemma_sq_lt(absi(x), n + 3);
}

/// Squaring both sides of `n b <= a s` for nonnegative quantities.
proof fn lemma_sq_prod_le(n: int, b: int, a: int, s: int)
    requires
        0 <= n * b,
        n * b <= a * s,
    ensures
        (n * n) * (b * b) <= (a * a) * (s * s),
{
    assert((n * n) * (b * b) <= (a * a) * (s * s)) by (nonlinear_arith)
        requires
            0 <= n * b,
            n * b <= a * s,
    {
    }
}

/// Squaring both sides of `a s < n (b + 1)` for nonnegative quantities.
proof fn lemma_sq_prod_lt(n: int, b: int, a: int, s: int)
    requires
        0 <= a * s,
        a * s < n * (b + 1),
    ensures
        (a * a) * (s * s) < (n * n) * ((b + 1) * (b + 1)),
{
    assert((a * a) * (s * s) < (n * n) * ((b + 1) * (b + 1))) by (nonlinear_arith)
        requires
            0 <= a * s,
            a * s < n * (b + 1),
    {
    }
}

/// From `n^2 uu <= xx s^2` conclude `uu <= s^2 + 6 s`.
proof fn lemma_uu_upper(uu: int, sq: int, n: int, xx: int, rr: int, s: int)
    requires
        s == 65536,
        (n * n) * uu <= xx * (s * s),
        xx == s * sq + rr,
        0 <= rr < 3 * s,
        sq * s < (n + 1) * (n + 1),
        s <= n,
        n <= sq,
        sq >= s,
        uu >= 0,
    ensures
        uu <= s * s + 6 * s,
{
    if uu > s * s + 6 * s {
        assert(n * n >= sq * s - 2 * n) by (nonlinear_arith)
            requires
                sq * s < (n + 1) * (n + 1),
        {
        }
        assert(sq * s - 2 * n >= sq * (s - 2)) by (nonlinear_arith)
            requires
                n <= sq,
        {
        }
        assert(sq * (s - 2) >= 0) by (nonlinear_arith)
            requires
                sq >= 0,
                s >= 2,
        {
        }
        assert((sq * s - 2 * n) * uu <= (n * n) * uu) by (nonlinear_arith)
            requires
                n * n >= sq * s - 2 * n,
                uu >= 0,
        {
        }
        assert(xx * (s * s) < (s * sq) * (s * s) + (3 * s) * (s * s)) by (nonlinear_arith)
            requires
                xx == s * sq + rr,
                rr < 3 * s,
                s > 0,
        {
        }
        assert((sq * s - 2 * n) * (s * s + 6 * s + 1) <= (sq * s - 2 * n) * uu) by (nonlinear_arith)
            requires
                uu >= s * s + 6 * s + 1,
                sq * s - 2 * n >= 0,
        {
        }
        assert((sq * s - 2 * n) * (s * s + 6 * s + 1) == (s * sq) * (s * s) + sq * (6 * s * s + s)
            - (2 * n) * (s * s + 6 * s + 1)) by (nonlinear_arith) {
        }
        assert(sq * (6 * s * s + s) < (3 * s) * (s * s) + (2 * n) * (s * s + 6 * s + 1));
        assert((2 * n) * (s * s + 6 * s + 1) <= (2 * sq) * (s * s + 6 * s + 1)) by (nonlinear_arith)
            requires
                n <= sq,
                s > 0,
        {
        }
        assert((3 * s) * (s * s) <= sq * (3 * s * s)) by (nonlinear_arith)
            requires
                sq >= s,
                s > 0,
        {
        }
        assert(sq * (6 * s * s + s) < sq * (3 * s * s) + (2 * sq) * (s * s + 6 * s + 1));
        assert(false) by (nonlinear_arith)
            requires
                s == 65536,
                sq >= 1,
                sq * (6 * s * s + s) < sq * (3 * s * s) + (2 * sq) * (s * s + 6 * s + 1),
        {
        }
    }
}

/// From `xx s^2 < n^2 (uu + 6 s + 15)` conclude `uu >= s^2 - 6 s - 14`.
proof fn lemma_uu_lower(uu: int, sq: int, n: int, xx: int, rr: int, s: int)
    requires
        s == 65536,
        xx * (s * s) < (n * n) * (uu + 6 * s + 15),
        xx == s * sq + rr,
        rr >= 0,
        n * n <= sq * s,
        sq >= s,
        uu >= 0,
    ensures
        uu >= s * s - 6 * s - 14,
{
    assert((s * sq) * (s * s) <= xx * (s * s)) by (nonlinear_arith)
        requires
            xx == s * sq + rr,
            rr >= 0,
            s > 0,
    {
    }
    assert((n * n) * (uu + 6 * s + 15) <= (sq * s) * (uu + 6 * s + 15)) by (nonlinear_arith)
        requires
            n * n <= sq * s,
            uu + 6 * s + 15 >= 0,
    {
    }
    assert((s * sq) * (s * s) < (sq * s) * (uu + 6 * s + 15));
    if uu + 6 * s + 15 <= s * s {
        assert((sq * s) * (uu + 6 * s + 15) <= (sq * s) * (s * s)) by (nonlinear_arith)
            requires
                uu + 6 * s + 15 <= s * s,
                sq * s >= 0,
        {
        }
        assert((s * sq) * (s * s) == (sq * s) * (s * s)) by (nonlinear_arith) {
        }
    }
}

/// The scaled-down square of one normalized component, with its remainder.
proof fn lemma_unit_sq_comp(u: int, b: int)
    requires
        b == absi(u),
        b <= SCALE as int + 2,
    ensures
        ({
            let q = (b * b) / (SCALE as int);
            &&& u * u == b * b
            &&& clampi(sdiv(u * u, SCALE as int)) as int == q
            &&& b * b == (SCALE as int) * q + (b * b) % (SCALE as int)
            &&& 0 <= (b * b) % (SCALE as int) < SCALE as int
            &&& 0 <= q <= SCALE as int + 5
        }),
{
    let s = SCALE as int;
    lemma_absi_facts(u, s);
    assert(b * b <= (s + 2) * (s + 2)) by (nonlinear_arith)
        requires
            0 <= b <= s + 2,
    {
    }
    assert(sdiv(u * u, s) == (b * b) / s);
    vstd::arithmetic::div_mod::lemma_fundamental_div_mod(b * b, s);
    assert((s + 2) * (s + 2) <= s * (s + 5)) by (nonlinear_arith)
        requires
            s == 65536,
    {
    }
    assert((b * b) / s <= (s * (s + 5)) / s && 0 <= (b * b) / s) by {
        vstd::arithmetic::div_mod::lemma_div_is_ordered(b * b, s * (s + 5), s);
        vstd::arithmetic::div_mod::lemma_div_is_ordered(0, b * b, s);
    }
    assert((s * (s + 5)) / s == s + 5) by {
        vstd::arithmetic::div_mod::lemma_div_multiples_vanish(s + 5, s);
    }
}

/// The normalized component for the longest axis is at least half a unit:
/// the norm is at most twice the longest component's magnitude.
proof fn lemma_big_quot(x: int, n: int)
    requires
        n >= 1,
        n * n <= 3 * (absi(x) * absi(x)),
    ensures
        absi(sdiv(x * (SCALE as int), n)) >= 32768,
{
    let s = SCALE as int;
    let a = absi(x);
    assert(a >= 1) by (nonlinear_arith)
        requires
            n >= 1,
            n * n <= 3 * (a * a),
            a >= 0,
    {
    }
    assert(n <= 2 * a) by {
        if n >= 2 * a + 1 {
            assert((2 * a + 1) * (2 * a + 1) > 3 * (a * a)) by (nonlinear_arith)
                requires
                    a >= 0,
            {
            }
            assert(n * n >= (2 * a + 1) * (2 * a + 1)) by (nonlinear_arith)
                requires
                    n >= 2 * a + 1,
                    2 * a + 1 >= 0,
            {
            }
        }
    }
    lemma_absi_facts(x, s);
    assert((a * s) / n >= 0) by {
        vstd::arithmetic::div_mod::lemma_div_is_ordered(0, a * s, n);
    }
    assert(absi(sdiv(x * s, n)) == (a * s) / n);
    vstd::arithmetic::div_mod::lemma_div_is_ordered_by_denominator(a * s, n, 2 * a);
    assert(a * s == (2 * a) * 32768) by (nonlinear_arith)
        requires
            s == 65536,
    {
    }
    assert(((2 * a) * 32768) / (2 * a) == 32768) by {
        vstd::arithmetic::div_mod::lemma_div_multiples_vanish(32768, 2 * a);
    }
}

/// LAW (no vanishing normalization): a vector whose rounded norm is
/// nonzero normalizes to a vector that is not near zero: its longest
/// component keeps a magnitude of at least half a unit.
pub proof fn lemma_unit_not_near_zero(v: Array3)
    requires
        norm_s(v).v != 0,
    ensures
        !near_zero_s(unit_s(v)),
{
    let s = SCALE as int;
    let x0 = v.x.v as int;
    let x1 = v.y.v as int;
    let x2 = v.z.v as int;
    let sqv = square_s(v).v as int;
    assert(sqv > 0);
    assert(sqv * s > 0) by (nonlinear_arith)
        requires
            sqv > 0,
            s > 0,
    {
    }
    lemma_isqrt_i(sqv * s);
    let n = isqrt_i(sqv * s);
    assert(sqv * s < 0x100000000000000000000) by (nonlinear_arith)
        requires
            sqv <= 0x7fffffffffffffff,
            s == 65536,
    {
    }
    assert(n <= 0x10000000000) by (nonlinear_arith)
        requires
            n >= 0,
            n * n < 0x100000000000000000000,
    {
    }
    assert(norm_s(v).v as int == n);
    assert(n >= 1);
    lemma_absi_facts(x0, s);
    lemma_absi_facts(x1, s);
    lemma_absi_facts(x2, s);
    let t0 = clampi(sdiv(x0 * x0, s)) as int;
    let t1 = clampi(sdiv(x1 * x1, s)) as int;
    let t2 = clampi(sdiv(x2 * x2, s)) as int;
    assert((x0 * x0) / s >= 0 && (x1 * x1) / s >= 0 && (x2 * x2) / s >= 0) by {
        vstd::arithmetic::div_mod::lemma_div_is_ordered(0, x0 * x0, s);
        vstd::arithmetic::div_mod::lemma_div_is_ordered(0, x1 * x1, s);
        vstd::arithmetic::div_mod::lemma_div_is_ordered(0, x2 * x2, s);
    }
    assert(0 <= t0 <= (x0 * x0) / s);
    assert(0 <= t1 <= (x1 * x1) / s);
    assert(0 <= t2 <= (x2 * x2) / s);
    assert(sqv <= t0 + t1 + t2);
    let a0 = absi(x0);
    let a1 = absi(x1);
    let a2 = absi(x2);
    if a0 >= a1 && a0 >= a2 {
        lemma_norm_le_3max(x0, x1, x2, a0, n, sqv, t0 + t1 + t2);
        lemma_big_quot(x0, n);
        assert(absi(unit_s(v).x.v as int) >= 32768);
    } else if a1 >= a2 {
        lemma_norm_le_3max(x0, x1, x2, a1, n, sqv, t0 + t1 + t2);
        lemma_big_quot(x1, n);
        assert(absi(unit_s(v).y.v as int) >= 32768);
    } else {
        lemma_norm_le_3max(x0, x1, x2, a2, n, sqv, t0 + t1 + t2);
        lemma_big_quot(x2, n);
        assert(absi(unit_s(v).z.v as int) >= 32768);
    }
}

/// The squared norm is at most three times the square of the longest
/// component, so `n^2 <= 3 a^2`.
proof fn lemma_norm_le_3max(x0: int, x1: int, x2: int, a: int, n: int, sqv: int, tsum: int)
    requires
        a == absi(x0) || a == absi(x1) || a == absi(x2),
        absi(x0) <= a,
        absi(x1) <= a,
        absi(x2) <= a,
        sqv <= tsum,
        tsum <= (x0 * x0) / (SCALE as int) + (x1 * x1) / (SCALE as int) + (x2 * x2) / (
        SCALE as int),
        x0 * x0 == absi(x0) * absi(x0),
        x1 * x1 == absi(x1) * absi(x1),
        x2 * x2 == absi(x2) * absi(x2),
        n * n <= sqv * (SCALE as int),
    ensures
        n * n <= 3 * (a * a),
{
    let s = SCALE as int;
    assert(x0 * x0 <= a * a && x1 * x1 <= a * a && x2 * x2 <= a * a) by (nonlinear_arith)
        requires
            x0 * x0 == absi(x0) * absi(x0),
            x1 * x1 == absi(x1) * absi(x1),
            x2 * x2 == absi(x2) * absi(x2),
            0 <= absi(x0) <= a,
            0 <= absi(x1) <= a,
            0 <= absi(x2) <= a,
    {
    }
    let m = (a * a) / s;
    assert((x0 * x0) / s <= m && (x1 * x1) / s <= m && (x2 * x2) / s <= m) by {
        vstd::arithmetic::div_mod::lemma_div_is_ordered(x0 * x0, a * a, s);
        vstd::arithmetic::div_mod::lemma_div_is_ordered(x1 * x1, a * a, s);
        vstd::arithmetic::div_mod::lemma_div_is_ordered(x2 * x2, a * a, s);
    }
    assert(sqv <= 3 * m);
    assert(s * m <= a * a) by {
        vstd::arithmetic::div_mod::lemma_fundamental_div_mod(a * a, s);
    }
    assert(sqv * s <= (3 * m) * s) by (nonlinear_arith)
        requires
            sqv <= 3 * m,
            s > 0,
    {
    }
    assert((3 * m) * s <= 3 * (a * a)) by (nonlinear_arith)
        requires
            s * m <= a * a,
    {
    }
}

/// LAW (refraction with matching indices): when the refraction ratio is one
/// and the ray strikes head-on, the direction passes through unchanged.
pub proof fn lemma_refract_identity(v: Array3, n: Array3)
    requires
        wf_v(n),
        v == neg_v(n),
        dot_s(n, n) == one_fx(),
    ensures
        refract_s(v, n, one_fx()) == v,
{
    lemma_unit_comp_bound(n);
    assert(neg_v(v) == n) by {
        lemma_clampi_neg(n.x.v as int);
        lemma_clampi_neg(n.y.v as int);
        lemma_clampi_neg(n.z.v as int);
    }
    let dp = dot_s(n, neg_v(v));
    assert(dp == one_fx());
    lemma_mul_one(n.x);
    lemma_mul_one(n.y);
    lemma_mul_one(n.z);
    assert(smul_v(n, one_fx()) == n);
    let s = add_v(v, n);
    assert(s == zero_v());
    lemma_mul_one(Fx { v: 0 });
    assert(smul_v(zero_v(), one_fx()) == zero_v());
    assert(square_s(zero_v()).v == 0);
    assert(sub_s(one_fx(), square_s(zero_v())) == one_fx());
    assert(abs_s(one_fx()) == one_fx());
    assert((SCALE as int) * (SCALE as int) < ((SCALE as int) + 1) * ((SCALE as int) + 1))
        by (nonlinear_arith) {
    }
    lemma_isqrt_unique((SCALE as int) * (SCALE as int), SCALE as int);
    assert(sqrt_s(one_fx()) == one_fx());
    assert(smul_v(n, neg_s(one_fx())) == neg_v(n)) by {
        lemma_mul_one(n.x);
        lemma_mul_one(n.y);
        lemma_mul_one(n.z);
    }
    assert(add_v(zero_v(), neg_v(n)) == neg_v(n)) by {
        lemma_clampi_neg(n.x.v as int);
        lemma_clampi_neg(n.y.v as int);
        lemma_clampi_neg(n.z.v as int);
    }
}

} // verus!
