//! Randomness, angle conversion, trigonometry, and the pixel output format.

use vstd::prelude::*;
use vstd::arithmetic::div_mod::lemma_div_is_ordered;
use crate::fx::{
    Fx, SCALE, MAX_FX, sdiv, add_s, sub_s, mul_s, div_s, from_int_s, sqrt_s,
    lemma_sdiv_mul_exact, lemma_isqrt_unique,
};
use crate::array3::Array3;
use crate::interval::{Interval, clamp_s};

verus! {

/// `pi * SCALE`, rounded to the nearest unit.
pub const PI_FX: i64 = 205887;

/// Relies on `rand::random`: a value drawn from the thread-local generator.
/// Nothing can be promised of a random draw.
pub assume_specification<T>[ rand::random::<T> ]() -> (r: T)
    where
        rand::distributions::Standard: rand::distributions::Distribution<T>,
;

/// A scalar drawn uniformly from `[0, 1)`: one of the `SCALE` representable
/// values in that range, from 16 fresh random bits.
pub fn random_f64() -> (r: Fx)
    ensures
        0 <= r.v < SCALE,
{
    let x: u32 = rand::random();
    let m: u32 = x % 65536;
    Fx { v: m as i64 }
}

/// A scalar drawn from `[min, max)`: `min + (max - min) * u` for a draw
/// `u` in `[0, 1)`.
pub fn random_rge_f64(min: Fx, max: Fx) -> (r: Fx)
    ensures
        exists|u: Fx|
            0 <= u.v < SCALE && r == add_s(min, mul_s(sub_s(max, min), u)),
{
    let u = random_f64();
    let r = min.add(max.sub(min).mul(u));
    proof {
        assert(0 <= u.v < SCALE && r == add_s(min, mul_s(sub_s(max, min), u)));
    }
    r
}

pub open spec fn deg2rad_s(d: Fx) -> Fx {
    div_s(mul_s(d, Fx { v: PI_FX }), from_int_s(180))
}

/// Degrees to radians: multiply by `pi`, divide by 180.
pub fn degrees_to_rad(degrees: Fx) -> (r: Fx)
    ensures
        r == deg2rad_s(degrees),
{
    let d180 = Fx::from_int(180);
    assert(d180.v == 11796480);
    degrees.mul(Fx { v: PI_FX }).div(d180)
}

pub open spec fn sin_s(x: Fx) -> Fx {
    let x2 = mul_s(x, x);
    let x3 = mul_s(x2, x);
    let x5 = mul_s(x3, x2);
    let x7 = mul_s(x5, x2);
    sub_s(
        add_s(sub_s(x, div_s(x3, from_int_s(6))), div_s(x5, from_int_s(120))),
        div_s(x7, from_int_s(5040)),
    )
}

pub open spec fn cos_s(x: Fx) -> Fx {
    let x2 = mul_s(x, x);
    let x4 = mul_s(x2, x2);
    let x6 = mul_s(x4, x2);
    sub_s(
        add_s(sub_s(Fx { v: SCALE }, div_s(x2, from_int_s(2))), div_s(x4, from_int_s(24))),
        div_s(x6, from_int_s(720)),
    )
}

/// Tangent as the quotient of the two polynomials; where the cosine
/// approximation is not positive the result saturates.
pub open spec fn tan_s(x: Fx) -> Fx {
    if cos_s(x).v <= 0 {
        Fx { v: MAX_FX }
    } else {
        div_s(sin_s(x), cos_s(x))
    }
}

/// Seventh-order polynomial approximation of the sine, intended for
/// arguments within about a half turn of zero.
pub fn sin_fx(x: Fx) -> (r: Fx)
    ensures
        r == sin_s(x),
{
    let c6 = Fx::from_int(6);
    let c120 = Fx::from_int(120);
    let c5040 = Fx::from_int(5040);
    assert(c6.v == 393216 && c120.v == 7864320 && c5040.v == 330301440);
    let x2 = x.mul(x);
    let x3 = x2.mul(x);
    let x5 = x3.mul(x2);
    let x7 = x5.mul(x2);
    x.sub(x3.div(c6)).add(x5.div(c120)).sub(x7.div(c5040))
}

/// Sixth-order polynomial approximation of the cosine, like `sin_fx`.
pub fn cos_fx(x: Fx) -> (r: Fx)
    ensures
        r == cos_s(x),
{
    let c2 = Fx::from_int(2);
    let c24 = Fx::from_int(24);
    let c720 = Fx::from_int(720);
    assert(c2.v == 131072 && c24.v == 1572864 && c720.v == 47185920);
    let x2 = x.mul(x);
    let x4 = x2.mul(x2);
    let x6 = x4.mul(x2);
    Fx { v: SCALE }.sub(x2.div(c2)).add(x4.div(c24)).sub(x6.div(c720))
}

/// Tangent from the two polynomial approximations.
pub fn tan_fx(x: Fx) -> (r: Fx)
    ensures
        r == tan_s(x),
{
    let s = sin_fx(x);
    let c = cos_fx(x);
    if c.v <= 0 {
        Fx { v: MAX_FX }
    } else {
        s.div(c)
    }
}

/// Decimal ASCII digits of a nonnegative integer, most significant first.
pub open spec fn dec_s(n: int) -> Seq<u8>
    recommends
        n >= 0,
    decreases n,
{
    if n < 10 {
        seq![(48 + n) as u8]
    } else {
        dec_s(n / 10).push((48 + n % 10) as u8)
    }
}

/// Append the decimal digits of `n` to `out`.
pub fn push_dec(out: &mut Vec<u8>, n: u32)
    ensures
        final(out)@ == old(out)@ + dec_s(n as int),
    decreases n,
{
    if n < 10 {
        out.push(48 + (n as u8));
        proof {
            assert(out@ =~= old(out)@ + dec_s(n as int));
        }
    } else {
        push_dec(out, n / 10);
        out.push(48 + ((n % 10) as u8));
        proof {
            assert(out@ =~= old(out)@ + dec_s(n as int));
        }
    }
}

/// The clamp range for output channels: `[0, 0.999]`.
pub open spec fn intensity_s() -> Interval {
    Interval { min: Fx { v: 0 }, max: Fx { v: 65470 } }
}

/// One output channel: average by the sample count, gamma-correct with a
/// square root, clamp to `[0, 0.999]`, scale by 256, and floor.
pub open spec fn quantize_s(c: Fx, samples: int) -> int
    recommends
        samples >= 1,
{
    let avg = div_s(c, from_int_s(samples));
    let g = sqrt_s(avg);
    let cl = clamp_s(intensity_s(), g);
    sdiv(mul_s(from_int_s(256), cl).v as int, SCALE as int)
}

/// Gamma correction with exponent one half.
fn lin_to_gamma(x: Fx) -> (r: Fx)
    ensures
        r == sqrt_s(x),
{
    x.sqrt()
}

/// One channel quantized to `0..=255`.
fn quantize(c: Fx, samples: i32) -> (q: u32)
    requires
        samples >= 1,
    ensures
        q as int == quantize_s(c, samples as int),
        q <= 255,
{
    let s = Fx::from_int(samples as i64);
    proof {
        assert(s.v >= SCALE);
    }
    let avg = c.div(s);
    let g = lin_to_gamma(avg);
    let intensity = Interval::new(Fx { v: 0 }, Fx { v: 65470 });
    let cl = intensity.clamp(g);
    let w256 = Fx::from_int(256);
    assert(w256.v == 16777216);
    let q256 = w256.mul(cl);
    proof {
        assert((16777216 as int) * (cl.v as int) == (256 * (cl.v as int)) * (
        SCALE as int)) by (nonlinear_arith) {
        }
        lemma_sdiv_mul_exact(256 * (cl.v as int), SCALE as int);
        assert(0 <= cl.v <= 65470);
        assert(q256.v == 256 * (cl.v as int));
        lemma_div_is_ordered(256 * (cl.v as int), 16760320, SCALE as int);
        assert((16760320 as int) / (SCALE as int) == 255);
        assert(sdiv(q256.v as int, SCALE as int) == (q256.v as int) / (SCALE as int));
    }
    let qv: u64 = (q256.v as u64) / 65536;
    qv as u32
}

/// The text form of one pixel row: three decimal channels separated by
/// spaces, ending in a newline.
pub open spec fn pixel_line_s(pix: Array3, samples: int) -> Seq<u8>
    recommends
        samples >= 1,
{
    dec_s(quantize_s(pix.x, samples)) + seq![32u8] + dec_s(quantize_s(pix.y, samples)) + seq![
        32u8,
    ] + dec_s(quantize_s(pix.z, samples)) + seq![10u8]
}

/// Format one accumulated pixel as its output line.
pub fn write_pixel(pix: Array3, samples: i32) -> (line: Vec<u8>)
    requires
        samples >= 1,
    ensures
        line@ == pixel_line_s(pix, samples as int),
{
    let mut line: Vec<u8> = Vec::new();
    let r = quantize(pix.x, samples);
    let g = quantize(pix.y, samples);
    let b = quantize(pix.z, samples);
    push_dec(&mut line, r);
    line.push(32);
    push_dec(&mut line, g);
    line.push(32);
    push_dec(&mut line, b);
    line.push(10);
    proof {
        assert(line@ =~= pixel_line_s(pix, samples as int));
    }
    line
}

/// LAW: a channel that accumulated full intensity (one per sample) over
/// `samples` samples quantizes to exactly 255.
pub proof fn lemma_quantize_full(samples: int)
    requires
        1 <= samples <= 0x7fffffff,
    ensures
        quantize_s((Fx { v: (samples * (SCALE as int)) as i64 }), samples) == 255,
{
    let c = Fx { v: (samples * (SCALE as int)) as i64 };
    assert(SCALE as int <= samples * (SCALE as int) <= 0x7fffffff * 65536);
    assert(c.v as int == samples * (SCALE as int));
    assert(from_int_s(samples).v as int == samples * (SCALE as int));
    let d = from_int_s(samples).v as int;
    assert((c.v as int) * (SCALE as int) == (SCALE as int) * d) by (nonlinear_arith)
        requires
            c.v as int == d,
    {
    }
    lemma_sdiv_mul_exact(SCALE as int, d);
    assert(div_s(c, from_int_s(samples)) == Fx { v: SCALE });
    assert((SCALE as int) * (SCALE as int) < ((SCALE as int) + 1) * ((SCALE as int) + 1))
        by (nonlinear_arith) {
    }
    lemma_isqrt_unique((SCALE as int) * (SCALE as int), SCALE as int);
    assert(sqrt_s(Fx { v: SCALE }) == Fx { v: SCALE });
    assert(clamp_s(intensity_s(), Fx { v: SCALE }) == Fx { v: 65470 });
    assert((16777216 as int) * 65470 == (256 * 65470) * (SCALE as int)) by (nonlinear_arith) {
    }
    lemma_sdiv_mul_exact((256 * 65470) as int, SCALE as int);
    assert(mul_s(from_int_s(256), Fx { v: 65470 }).v == 16760320);
    assert((16760320 as int) / (SCALE as int) == 255);
}

} // verus!
