//! Fixed-point scalars.
//!
//! A real number `x` is represented by the integer `round(x * SCALE)` held in
//! an `Fx`. Every operation clamps its result into `[-MAX_FX, MAX_FX]`, so all
//! operations are total and no overflow can occur anywhere in the renderer.
//! Division truncates toward zero, like integer division of the magnitudes.

use vstd::prelude::*;
use vstd::arithmetic::div_mod::lemma_div_multiples_vanish;

verus! {

/// Number of fixed-point units per whole unit: values carry 16 fractional bits.
pub const SCALE: i64 = 65536;

/// Largest representable magnitude; results saturate here instead of wrapping.
pub const MAX_FX: i64 = 140737488355327;

/// A fixed-point scalar: the real value `v / SCALE`.
#[derive(Clone, Copy, Debug, PartialEq, Eq, Structural)]
pub struct Fx {
    pub v: i64,
}

/// A scalar is well formed when it lies in the saturation range.
/// Every operation below returns a well-formed scalar.
pub open spec fn wf(a: Fx) -> bool {
    -(MAX_FX as int) <= a.v <= MAX_FX as int
}

/// Magnitude of a mathematical integer.
pub open spec fn absi(a: int) -> int {
    if a < 0 {
        -a
    } else {
        a
    }
}

/// Saturation of a mathematical integer into the representable range.
pub open spec fn clampi(x: int) -> i64 {
    if x > MAX_FX as int {
        MAX_FX
    } else if x < -(MAX_FX as int) {
        (-(MAX_FX as int)) as i64
    } else {
        x as i64
    }
}

/// Signed division truncating toward zero: magnitudes divide, signs combine.
pub open spec fn sdiv(a: int, b: int) -> int
    recommends
        b != 0,
{
    if (a < 0) != (b < 0) {
        -(absi(a) / absi(b))
    } else {
        absi(a) / absi(b)
    }
}

pub open spec fn add_s(a: Fx, b: Fx) -> Fx {
    Fx { v: clampi(a.v + b.v) }
}

pub open spec fn sub_s(a: Fx, b: Fx) -> Fx {
    Fx { v: clampi(a.v - b.v) }
}

pub open spec fn neg_s(a: Fx) -> Fx {
    Fx { v: clampi(-a.v) }
}

pub open spec fn mul_s(a: Fx, b: Fx) -> Fx {
    Fx { v: clampi(sdiv(a.v * b.v, SCALE as int)) }
}

pub open spec fn div_s(a: Fx, b: Fx) -> Fx
    recommends
        b.v != 0,
{
    Fx { v: clampi(sdiv(a.v * SCALE, b.v as int)) }
}

pub open spec fn abs_s(a: Fx) -> Fx {
    Fx { v: clampi(absi(a.v as int)) }
}

pub open spec fn from_int_s(i: int) -> Fx {
    Fx { v: clampi(i * SCALE) }
}

/// Integer square root, by halving: `isqrt_i(n)` is the floor of the square
/// root of `n` for `n >= 0` (shown by `lemma_isqrt_i`).
pub open spec fn isqrt_i(n: int) -> int
    decreases n,
{
    if n < 1 {
        0
    } else {
        let h = isqrt_i(n / 4);
        if (2 * h + 1) * (2 * h + 1) <= n {
            2 * h + 1
        } else {
            2 * h
        }
    }
}

pub open spec fn sqrt_s(x: Fx) -> Fx {
    if x.v <= 0 {
        Fx { v: 0 }
    } else {
        Fx { v: isqrt_i(x.v * SCALE) as i64 }
    }
}

pub proof fn lemma_isqrt_i(n: int)
    requires
        n >= 0,
    ensures
        0 <= isqrt_i(n),
        isqrt_i(n) * isqrt_i(n) <= n,
        n < (isqrt_i(n) + 1) * (isqrt_i(n) + 1),
    decreases n,
{
    if n < 1 {
    } else {
        let q = n / 4;
        lemma_isqrt_i(q);
        let h = isqrt_i(q);
        assert(n == 4 * q + n % 4 && 0 <= n % 4 < 4) by {
            vstd::arithmetic::div_mod::lemma_fundamental_div_mod(n, 4);
        }
        assert((2 * h) * (2 * h) <= n && n < (2 * h + 2) * (2 * h + 2)) by (nonlinear_arith)
            requires
                h * h <= q,
                q < (h + 1) * (h + 1),
                0 <= h,
                n == 4 * q + n % 4,
                0 <= n % 4 < 4,
        {
        }
        if (2 * h + 1) * (2 * h + 1) <= n {
            assert(isqrt_i(n) == 2 * h + 1);
        } else {
            assert(isqrt_i(n) == 2 * h);
        }
    }
}

/// The floor square root is unique: any `r` bracketing `n` is `isqrt_i(n)`.
pub proof fn lemma_isqrt_unique(n: int, r: int)
    requires
        n >= 0,
        r >= 0,
        r * r <= n,
        n < (r + 1) * (r + 1),
    ensures
        r == isqrt_i(n),
{
    lemma_isqrt_i(n);
    let q = isqrt_i(n);
    if r < q {
        assert((r + 1) * (r + 1) <= q * q) by (nonlinear_arith)
            requires
                0 <= r,
                r < q,
        {
        }
    } else if q < r {
        assert((q + 1) * (q + 1) <= r * r) by (nonlinear_arith)
            requires
                0 <= q,
                q < r,
        {
        }
    }
}

/// Products of 64-bit-sized factors stay well inside the 128-bit range.
proof fn lemma_i64_mul_fits(a: int, b: int)
    requires
        -0x8000000000000000 <= a <= 0x8000000000000000,
        -0x8000000000000000 <= b <= 0x8000000000000000,
    ensures
        -0x40000000000000000000000000000000 <= a * b <= 0x40000000000000000000000000000000,
        (a >= 0 && b >= 0) ==> a * b >= 0,
{
    assert(-0x40000000000000000000000000000000 <= a * b
        <= 0x40000000000000000000000000000000) by (nonlinear_arith)
        requires
            -0x8000000000000000 <= a <= 0x8000000000000000,
            -0x8000000000000000 <= b <= 0x8000000000000000,
    {
    }
    assert((a >= 0 && b >= 0) ==> a * b >= 0) by (nonlinear_arith) {
    }
}

/// Saturation commutes with negation: the range is symmetric.
pub proof fn lemma_clampi_neg(w: int)
    ensures
        clampi(-w) as int == -(clampi(w) as int),
{
}

/// Negating the dividend negates a truncating quotient.
pub proof fn lemma_sdiv_neg(a: int, b: int)
    requires
        b != 0,
    ensures
        sdiv(-a, b) == -sdiv(a, b),
{
}

/// Dividing an exact multiple of the divisor is exact.
pub proof fn lemma_sdiv_mul_exact(k: int, d: int)
    requires
        d > 0,
    ensures
        sdiv(k * d, d) == k,
{
    if k >= 0 {
        assert(k * d >= 0) by (nonlinear_arith)
            requires
                k >= 0,
                d > 0,
        {
        }
        lemma_div_multiples_vanish(k, d);
        assert(d * k == k * d);
        assert(sdiv(k * d, d) == (k * d) / d);
    } else {
        assert(k * d < 0) by (nonlinear_arith)
            requires
                k < 0,
                d > 0,
        {
        }
        lemma_div_multiples_vanish(-k, d);
        assert(d * (-k) == -(k * d)) by (nonlinear_arith) {
        }
        assert(absi(k * d) == -(k * d));
        assert(sdiv(k * d, d) == -((-(k * d)) / d));
    }
}

/// A truncating quotient is no larger in magnitude than `|a| / b`.
pub proof fn lemma_sdiv_abs(a: int, b: int)
    requires
        b > 0,
    ensures
        absi(sdiv(a, b)) == absi(a) / b,
        0 <= absi(a) / b,
{
    assert(0 <= absi(a) / b);
}

impl Fx {
    /// The scalar representing the whole number `i`, saturated if out of range.
    pub fn from_int(i: i64) -> (r: Fx)
        ensures
            r == from_int_s(i as int),
            wf(r),
    {
        proof {
            lemma_i64_mul_fits(i as int, SCALE as int);
        }
        let p: i128 = (i as i128) * (SCALE as i128);
        Fx { v: clamp128(p) }
    }

    pub fn add(self, o: Fx) -> (r: Fx)
        ensures
            r == add_s(self, o),
            wf(r),
    {
        let s: i128 = (self.v as i128) + (o.v as i128);
        Fx { v: clamp128(s) }
    }

    pub fn sub(self, o: Fx) -> (r: Fx)
        ensures
            r == sub_s(self, o),
            wf(r),
    {
        let s: i128 = (self.v as i128) - (o.v as i128);
        Fx { v: clamp128(s) }
    }

    pub fn neg(self) -> (r: Fx)
        ensures
            r == neg_s(self),
            wf(r),
    {
        let s: i128 = -(self.v as i128);
        Fx { v: clamp128(s) }
    }

    pub fn mul(self, o: Fx) -> (r: Fx)
        ensures
            r == mul_s(self, o),
            wf(r),
    {
        proof {
            lemma_i64_mul_fits(self.v as int, o.v as int);
        }
        let p: i128 = (self.v as i128) * (o.v as i128);
        let q: i128 = div_i128(p, SCALE as i128);
        Fx { v: clamp128(q) }
    }

    pub fn div(self, o: Fx) -> (r: Fx)
        requires
            o.v != 0,
        ensures
            r == div_s(self, o),
            wf(r),
    {
        proof {
            lemma_i64_mul_fits(self.v as int, SCALE as int);
        }
        let p: i128 = (self.v as i128) * (SCALE as i128);
        let q: i128 = div_i128(p, o.v as i128);
        Fx { v: clamp128(q) }
    }

    pub fn abs(self) -> (r: Fx)
        ensures
            r == abs_s(self),
            wf(r),
    {
        if self.v < 0 {
            let s: i128 = -(self.v as i128);
            Fx { v: clamp128(s) }
        } else {
            let s: i128 = self.v as i128;
            Fx { v: clamp128(s) }
        }
    }

    /// Fixed-point square root: the floor of `sqrt(v / SCALE) * SCALE`.
    /// Nonpositive inputs map to zero.
    pub fn sqrt(self) -> (r: Fx)
        ensures
            r == sqrt_s(self),
            r.v >= 0,
            wf(r),
            self.v > 0 ==> r.v * r.v <= self.v * SCALE < (r.v + 1) * (r.v + 1),
    {
        if self.v <= 0 {
            Fx { v: 0 }
        } else {
            proof {
                lemma_i64_mul_fits(self.v as int, SCALE as int);
                assert((self.v as int) * (SCALE as int) < 0x100000000000000000000)
                    by (nonlinear_arith)
                    requires
                        0 <= self.v as int <= 0x7fffffffffffffff,
                        SCALE as int == 65536,
                {
                }
            }
            let n: u128 = (self.v as u128) * (SCALE as u128);
            let q: u128 = isqrt_u128(n);
            proof {
                lemma_isqrt_unique(n as int, q as int);
                assert(q < 0x10000000000) by (nonlinear_arith)
                    requires
                        q * q <= n,
                        (n as int) < 0x100000000000000000000,
                {
                }
            }
            Fx { v: q as i64 }
        }
    }
}

/// Saturate a wide intermediate into the representable range.
fn clamp128(x: i128) -> (r: i64)
    ensures
        r == clampi(x as int),
        wf((Fx { v: r })),
{
    if x > MAX_FX as i128 {
        MAX_FX
    } else if x < -(MAX_FX as i128) {
        -MAX_FX
    } else {
        x as i64
    }
}

/// Signed division of wide intermediates, truncating toward zero.
fn div_i128(a: i128, b: i128) -> (r: i128)
    requires
        b != 0,
        a != i128::MIN,
        b != i128::MIN,
    ensures
        r as int == sdiv(a as int, b as int),
{
    let na: u128 = if a < 0 {
        (-a) as u128
    } else {
        a as u128
    };
    let nb: u128 = if b < 0 {
        (-b) as u128
    } else {
        b as u128
    };
    let q: u128 = na / nb;
    assert(q <= na);
    if (a < 0) != (b < 0) {
        -(q as i128)
    } else {
        q as i128
    }
}

/// Integer square root of a 128-bit value, by bisection.
fn isqrt_u128(n: u128) -> (r: u128)
    ensures
        r * r <= n,
        n < (r + 1) * (r + 1),
{
    let mut lo: u128 = 0;
    let mut hi: u128 = 0x10000000000000000;
    while hi - lo > 1
        invariant
            lo < hi,
            hi <= 0x10000000000000000,
            lo * lo <= n,
            (n as int) < (hi as int) * (hi as int),
        decreases hi - lo,
    {
        let mid: u128 = lo + (hi - lo) / 2;
        proof {
            assert(mid * mid <= 0xfffffffffffffffe0000000000000001) by (nonlinear_arith)
                requires
                    mid <= 0xffffffffffffffff,
            {
            }
        }
        if mid * mid <= n {
            lo = mid;
        } else {
            hi = mid;
        }
    }
    lo
}

} // verus!
