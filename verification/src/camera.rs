//! The camera: viewport geometry derived from the configuration, jittered
//! per-pixel ray generation with optional defocus blur, the recursive color
//! evaluation, and the render loop that produces the plain-text raster.

use vstd::prelude::*;
use crate::fx::{
    Fx, SCALE, MAX_FX, wf, absi, sdiv, add_s, sub_s, mul_s, div_s, from_int_s, lemma_sdiv_abs,
};
use crate::array3::{
    Array3, wf_v, zero_v, one_fx, neg_v, add_v, sub_v, mul_v, smul_v, sdiv_v, cross_s, norm_s,
    unit_s, lemma_mul_one,
};
use crate::interval::Interval;
use crate::ray::{Ray, hit_world, hit_world_s, lemma_hit_world_material};
use crate::sphere::{Sphere, valid_sphere_s};
use crate::material::{Material, white_s, attenuation_s};
use crate::util::{
    random_f64, degrees_to_rad, deg2rad_s, tan_fx, tan_s, write_pixel, push_dec, pixel_line_s,
    quantize_s, dec_s, lemma_quantize_full,
};

verus! {

/// A color accumulated for one pixel.
pub type Pixel = Array3;

#[derive(Clone, Copy, Debug, PartialEq, Eq, Structural)]
pub struct Camera {
    pub img_width: i32,
    pub img_height: i32,
    pub cam: Array3,
    pub pix00_loc: Array3,
    pub delta_u: Array3,
    pub delta_v: Array3,
    pub samples: i32,
    pub max_depth: i32,
    pub defocus_angle: Fx,
    pub defocus_disk_u: Array3,
    pub defocus_disk_v: Array3,
}

/// The geometry derived once from the configuration: image height from the
/// aspect ratio (floored, at least one), viewport size from the field of
/// view and focus distance, the orthonormal basis `{u, v, w}`, per-pixel
/// deltas, the location of pixel (0,0), and the defocus disk vectors.
///
/// The tangent is the polynomial approximation of `tan_s`: it is accurate
/// for vertical fields of view comfortably below a half turn (say up to
/// about 170 degrees) and saturates where the cosine polynomial is not
/// positive; extreme fields of view get a degenerate viewport, exactly as
/// `camera_s` states.
pub open spec fn camera_s(
    aspect_ratio: Fx,
    img_width: i32,
    samples: i32,
    max_depth: i32,
    vfov: Fx,
    lookfrom: Array3,
    lookat: Array3,
    vup: Array3,
    defocus_angle: Fx,
    focus_dist: Fx,
) -> Camera
    recommends
        img_width >= 1,
        aspect_ratio.v > 0,
{
    let hw = from_int_s(img_width as int);
    let ih0 = sdiv(div_s(hw, aspect_ratio).v as int, SCALE as int);
    let img_height = if ih0 < 1 {
        1
    } else {
        ih0
    };
    let theta = deg2rad_s(vfov);
    let h = tan_s(div_s(theta, from_int_s(2)));
    let viewport_height = mul_s(mul_s(from_int_s(2), h), focus_dist);
    let viewport_width = mul_s(viewport_height, div_s(hw, from_int_s(img_height)));
    let cam = lookfrom;
    let w = unit_s(sub_v(lookfrom, lookat));
    let u = unit_s(cross_s(vup, w));
    let v = cross_s(w, u);
    let vp_u = smul_v(u, viewport_width);
    let vp_v = smul_v(neg_v(v), viewport_height);
    let delta_u = sdiv_v(vp_u, hw);
    let delta_v = sdiv_v(vp_v, from_int_s(img_height));
    let viewport_upper_left = sub_v(
        sub_v(sub_v(cam, smul_v(w, focus_dist)), sdiv_v(vp_u, from_int_s(2))),
        sdiv_v(vp_v, from_int_s(2)),
    );
    let pix00_loc = add_v(viewport_upper_left, smul_v(add_v(delta_u, delta_v), Fx { v: 32768 }));
    let defocus_radius = mul_s(focus_dist, tan_s(deg2rad_s(div_s(defocus_angle, from_int_s(2)))));
    let defocus_disk_u = smul_v(u, defocus_radius);
    let defocus_disk_v = smul_v(v, defocus_radius);
    Camera {
        img_width,
        img_height: img_height as i32,
        cam,
        pix00_loc,
        delta_u,
        delta_v,
        samples,
        max_depth,
        defocus_angle,
        defocus_disk_u,
        defocus_disk_v,
    }
}

/// A camera the render loop is defined for.
pub open spec fn camera_wf(c: Camera) -> bool {
    c.img_width >= 1 && c.img_height >= 1 && c.samples >= 1 && c.max_depth >= 0
}

/// The search range for intersections: the lower bound excludes parameters
/// near zero to avoid self-intersection at a ray's own origin.
pub open spec fn t_interval_s() -> Interval {
    Interval { min: Fx { v: 65 }, max: Fx { v: MAX_FX } }
}

/// The center of pixel `(i, j)` on the viewport.
pub open spec fn pixel_center_s(c: Camera, i: int, j: int) -> Array3 {
    add_v(
        add_v(c.pix00_loc, smul_v(c.delta_u, from_int_s(i))),
        smul_v(c.delta_v, from_int_s(j)),
    )
}

/// The sky: a vertical white-to-blue gradient over the normalized ray
/// direction's vertical component, remapped from `[-1, 1]` to `[0, 1]`.
pub open spec fn sky_color_s(r: Ray) -> Array3 {
    let unit_vec = unit_s(r.direction);
    let a = mul_s(Fx { v: 32768 }, add_s(unit_vec.y, one_fx()));
    add_v(smul_v(white_s(), sub_s(one_fx(), a)), smul_v(sky_blue_s(), a))
}

/// The horizon-to-zenith blue, with a full blue channel.
pub open spec fn sky_blue_s() -> Array3 {
    Array3 { x: Fx { v: 32768 }, y: Fx { v: 45875 }, z: one_fx() }
}

impl Camera {
    /// Derive the full viewport geometry from the configuration.
    pub fn new(
        aspect_ratio: Fx,
        img_width: i32,
        samples: i32,
        max_depth: i32,
        vfov: Fx,
        lookfrom: Array3,
        lookat: Array3,
        vup: Array3,
        defocus_angle: Fx,
        focus_dist: Fx,
    ) -> (res: Camera)
        requires
            img_width >= 1,
            aspect_ratio.v > 0,
            samples >= 1,
            max_depth >= 0,
        ensures
            res == camera_s(
                aspect_ratio,
                img_width,
                samples,
                max_depth,
                vfov,
                lookfrom,
                lookat,
                vup,
                defocus_angle,
                focus_dist,
            ),
            camera_wf(res),
    {
        let hw = Fx::from_int(img_width as i64);
        proof {
            assert(hw.v >= SCALE);
        }
        let q = hw.div(aspect_ratio);
        proof {
            assert(q.v >= 0);
            assert(sdiv(q.v as int, SCALE as int) == (q.v as int) / (SCALE as int));
        }
        let ihu: u64 = (q.v as u64) / 65536;
        proof {
            assert(ihu < 0x80000000);
        }
        let ih: i32 = ihu as i32;
        let img_height: i32 = if ih < 1 {
            1
        } else {
            ih
        };

        let two = Fx::from_int(2);
        assert(two.v == 131072);
        let theta = degrees_to_rad(vfov);
        let h = tan_fx(theta.div(two));
        let viewport_height = two.mul(h).mul(focus_dist);
        let hh = Fx::from_int(img_height as i64);
        proof {
            assert(hh.v >= SCALE);
        }
        let viewport_width = viewport_height.mul(hw.div(hh));
        let cam = lookfrom;

        let w = lookfrom.sub(&lookat).unit();
        let u = vup.cross(&w).unit();
        let v = w.cross(&u);

        let vp_u = u.scale(viewport_width);
        let vp_v = v.neg().scale(viewport_height);

        let delta_u = vp_u.div_scalar(hw);
        let delta_v = vp_v.div_scalar(hh);

        let viewport_upper_left = cam.sub(&w.scale(focus_dist)).sub(&vp_u.div_scalar(two)).sub(
            &vp_v.div_scalar(two),
        );
        let pix00_loc = viewport_upper_left.add(&delta_u.add(&delta_v).scale(Fx { v: 32768 }));

        let defocus_radius = focus_dist.mul(tan_fx(degrees_to_rad(defocus_angle.div(two))));
        let defocus_disk_u = u.scale(defocus_radius);
        let defocus_disk_v = v.scale(defocus_radius);

        Camera {
            img_width,
            img_height,
            cam,
            pix00_loc,
            delta_u,
            delta_v,
            samples,
            max_depth,
            defocus_angle,
            defocus_disk_u,
            defocus_disk_v,
        }
    }

    /// A jitter of up to half a pixel in each viewport direction.
    fn pixel_sample_square(&self) -> (res: Array3)
        ensures
            wf_v(res),
            exists|pu: Fx, pv: Fx|
                -32768 <= pu.v < 32768 && -32768 <= pv.v < 32768 && res == #[trigger] add_v(
                    smul_v(self.delta_u, pu),
                    smul_v(self.delta_v, pv),
                ),
    {
        let half = Fx { v: -32768 };
        let pu = half.add(random_f64());
        let pv = half.add(random_f64());
        let res = self.delta_u.scale(pu).add(&self.delta_v.scale(pv));
        proof {
            assert(-32768 <= pu.v < 32768 && -32768 <= pv.v < 32768 && res == add_v(
                smul_v(self.delta_u, pu),
                smul_v(self.delta_v, pv),
            ));
        }
        res
    }

    /// A point on the defocus disk around the eye: the eye offset along the
    /// disk's basis vectors by a point drawn inside the unit disk.
    fn defocus_disk_sample(&self) -> (res: Array3)
        ensures
            wf_v(res),
            exists|p: Array3|
                norm_s(p).v < SCALE && p.z.v == 0 && res == add_v(
                    add_v(self.cam, #[trigger] smul_v(self.defocus_disk_u, p.x)),
                    smul_v(self.defocus_disk_v, p.y),
                ),
    {
        let p = Array3::random_in_unit_disk();
        let res = self.cam.add(&self.defocus_disk_u.scale(p.index(0))).add(
            &self.defocus_disk_v.scale(p.index(1)),
        );
        proof {
            assert(norm_s(p).v < SCALE && p.z.v == 0 && res == add_v(
                add_v(self.cam, smul_v(self.defocus_disk_u, p.x)),
                smul_v(self.defocus_disk_v, p.y),
            ));
        }
        res
    }

    /// The ray for one sample of pixel `(i, j)`: from the eye (or a defocus
    /// disk point when the defocus angle is positive) through a jittered
    /// point in the pixel's square.
    pub fn get_ray(&self, i: i32, j: i32) -> (res: Ray)
        ensures
            self.defocus_angle.v <= 0 ==> res.origin == self.cam,
            self.defocus_angle.v > 0 ==> exists|p: Array3|
                norm_s(p).v < SCALE && p.z.v == 0 && res.origin == add_v(
                    add_v(self.cam, #[trigger] smul_v(self.defocus_disk_u, p.x)),
                    smul_v(self.defocus_disk_v, p.y),
                ),
            exists|pu: Fx, pv: Fx|
                -32768 <= pu.v < 32768 && -32768 <= pv.v < 32768 && res.direction
                    == #[trigger] sub_v(
                    add_v(
                        pixel_center_s(*self, i as int, j as int),
                        add_v(smul_v(self.delta_u, pu), smul_v(self.delta_v, pv)),
                    ),
                    res.origin,
                ),
    {
        let pixel_center = self.pix00_loc.add(&self.delta_u.scale(Fx::from_int(i as i64))).add(
            &self.delta_v.scale(Fx::from_int(j as i64)),
        );
        let sq = self.pixel_sample_square();
        let pixel_sample = pixel_center.add(&sq);

        let ray_orig = if self.defocus_angle.v <= 0 {
            self.cam
        } else {
            self.defocus_disk_sample()
        };
        let ray_dir = pixel_sample.sub(&ray_orig);
        let res = Ray { origin: ray_orig, direction: ray_dir };
        proof {
            let (pu, pv) = choose|pu: Fx, pv: Fx|
                -32768 <= pu.v < 32768 && -32768 <= pv.v < 32768 && sq == #[trigger] add_v(
                    smul_v(self.delta_u, pu),
                    smul_v(self.delta_v, pv),
                );
            assert(res.direction == sub_v(
                add_v(
                    pixel_center_s(*self, i as int, j as int),
                    add_v(smul_v(self.delta_u, pu), smul_v(self.delta_v, pv)),
                ),
                res.origin,
            ));
        }
        res
    }

    /// Recursive color evaluation: black once the depth budget is spent;
    /// on a hit, the material either scatters (recurse and attenuate) or
    /// absorbs (black); on a miss, the sky gradient.
    pub fn ray_color(&self, r: &Ray, world: &Vec<Sphere>, depth: i32) -> (res: Pixel)
        requires
            depth >= 0,
            forall|k: int| 0 <= k < world@.len() ==> valid_sphere_s(#[trigger] world@[k]),
        ensures
            depth == 0 ==> res == zero_v(),
            depth > 0 && hit_world_s(world@, *r, t_interval_s()) is None ==> res == sky_color_s(
                *r,
            ),
            world@.len() == 0 && depth > 0 ==> res == sky_color_s(*r),
            depth > 0 ==> (hit_world_s(world@, *r, t_interval_s()) matches Some(h) ==> (res
                == zero_v() || exists|rec: Pixel|
                res == #[trigger] mul_v(attenuation_s(h.mat), rec))),
        decreases depth,
    {
        if depth == 0 {
            return Array3::zero();
        }
        proof {
            if world@.len() == 0 {
                assert(world@ =~= Seq::<Sphere>::empty());
            }
        }
        let record = hit_world(world, r, Interval::new(Fx { v: 65 }, Fx { v: MAX_FX }));

        if let Some(hit) = record {
            proof {
                let k = choose|k: int|
                    0 <= k < world@.len() && (#[trigger] world@[k]).material == hit.mat;
                assert(valid_sphere_s(world@[k]));
            }
            let pair = hit.mat.scatter(r, &hit);
            if let Some((attenuation, scattered)) = pair {
                let rec = self.ray_color(&scattered, world, depth - 1);
                let res = attenuation.mul(&rec);
                proof {
                    assert(res == mul_v(attenuation_s(hit.mat), rec));
                }
                res
            } else {
                Array3::zero()
            }
        } else {
            let unit_vec = r.direction.unit();
            let one = Fx { v: SCALE };
            let a = Fx { v: 32768 }.mul(unit_vec.y.add(one));

            let white = Array3::new([one, one, one]);
            let blue = Array3::new([Fx { v: 32768 }, Fx { v: 45875 }, one]);
            white.scale(one.sub(a)).add(&blue.scale(a))
        }
    }

    /// Render the scene: the PPM header, then one line per pixel in raster
    /// order, each pixel averaging `samples` jittered rays.
    pub fn render(&self, world: &Vec<Sphere>) -> (out: Vec<u8>)
        requires
            camera_wf(*self),
            forall|k: int| 0 <= k < world@.len() ==> valid_sphere_s(#[trigger] world@[k]),
        ensures
            ppm_ok(
                world@,
                out@,
                self.img_width as int,
                self.img_height as int,
                self.samples as int,
                world@.len() == 0 && self.max_depth >= 1,
            ),
    {
        let mut out: Vec<u8> = Vec::new();
        out.push(80);
        out.push(51);
        out.push(10);
        push_dec(&mut out, self.img_width as u32);
        out.push(32);
        push_dec(&mut out, self.img_height as u32);
        out.push(10);
        out.push(50);
        out.push(53);
        out.push(53);
        out.push(10);
        proof {
            assert(out@ =~= ppm_header_s(self.img_width as int, self.img_height as int));
        }
        let ghost header = out@;
        let ghost mut body: Seq<u8> = Seq::empty();
        proof {
            assert(out@ =~= header + body);
        }

        let mut j: i32 = 0;
        while j < self.img_height
            invariant
                0 <= j <= self.img_height,
                camera_wf(*self),
                forall|k: int| 0 <= k < world@.len() ==> valid_sphere_s(#[trigger] world@[k]),
                header == ppm_header_s(self.img_width as int, self.img_height as int),
                out@ == header + body,
                lines_ok(
                    world@,
                    body,
                    j * self.img_width,
                    self.samples as int,
                    world@.len() == 0 && self.max_depth >= 1,
                ),
            decreases self.img_height - j,
        {
            let mut i: i32 = 0;
            while i < self.img_width
                invariant
                    0 <= j < self.img_height,
                    0 <= i <= self.img_width,
                    camera_wf(*self),
                    forall|k: int| 0 <= k < world@.len() ==> valid_sphere_s(#[trigger] world@[k]),
                    header == ppm_header_s(self.img_width as int, self.img_height as int),
                    out@ == header + body,
                    lines_ok(
                        world@,
                        body,
                        j * self.img_width + i,
                        self.samples as int,
                        world@.len() == 0 && self.max_depth >= 1,
                    ),
                decreases self.img_width - i,
            {
                let mut pix = Array3::zero();
                let mut s: i32 = 0;
                while s < self.samples
                    invariant
                        0 <= s <= self.samples,
                        camera_wf(*self),
                        forall|k: int|
                            0 <= k < world@.len() ==> valid_sphere_s(#[trigger] world@[k]),
                        (world@.len() == 0 && self.max_depth >= 1) ==> pix.z.v as int == s * (
                        SCALE as int),
                        accum_ok(world@, pix, s as int),
                    decreases self.samples - s,
                {
                    let r = self.get_ray(i, j);
                    let color = self.ray_color(&r, world, self.max_depth);
                    proof {
                        if world@.len() == 0 && self.max_depth >= 1 {
                            lemma_sky_blue_channel(r);
                            assert(color.z == one_fx());
                            assert((s + 1) * (SCALE as int) == s * (SCALE as int) + (
                            SCALE as int)) by (nonlinear_arith) {
                            }
                        }
                        if self.max_depth == 0 {
                            assert(color == zero_v());
                        } else {
                            lemma_hit_world_material(world@, r, t_interval_s());
                            match hit_world_s(world@, r, t_interval_s()) {
                                Option::None => {
                                    assert(color == sky_color_s(r));
                                },
                                Option::Some(h) => {
                                    if color != zero_v() {
                                        let rec = choose|rec: Pixel|
                                            color == #[trigger] mul_v(attenuation_s(h.mat), rec);
                                        assert(color == mul_v(attenuation_s(h.mat), rec)
                                            && exists|k: int|
                                            0 <= k < world@.len() && (#[trigger] world@[k]).material
                                                == h.mat);
                                    }
                                },
                            }
                        }
                        assert(sample_color_ok(world@, color));
                    }
                    let new_pix = pix.add(&color);
                    proof {
                        assert(new_pix == add_v(pix, color));
                        assert(accum_ok(world@, new_pix, s as int + 1));
                    }
                    pix = new_pix;
                    s = s + 1;
                }
                let mut line = write_pixel(pix, self.samples);
                let ghost line_seq = line@;
                out.append(&mut line);
                proof {
                    if world@.len() == 0 && self.max_depth >= 1 {
                        lemma_quantize_full(self.samples as int);
                        assert(pix.z == (Fx {
                            v: ((self.samples as int) * (SCALE as int)) as i64,
                        }));
                        assert(quantize_s(pix.z, self.samples as int) == 255);
                    }
                    lemma_lines_ok_snoc(
                        world@,
                        body,
                        j * self.img_width + i,
                        pix,
                        self.samples as int,
                        world@.len() == 0 && self.max_depth >= 1,
                    );
                    body = body + line_seq;
                    assert(out@ =~= header + body);
                }
                i = i + 1;
            }
            proof {
                assert(j * self.img_width + self.img_width == (j + 1)
                    * self.img_width) by (nonlinear_arith) {
                }
            }
            j = j + 1;
        }
        proof {
            assert((self.img_height as int) * (self.img_width as int) == (self.img_width as int)
                * (self.img_height as int));
            assert(out@ == ppm_header_s(self.img_width as int, self.img_height as int) + body);
        }
        out
    }
}

/// The stream header: `P3`, the image size, and the channel maximum 255.
pub open spec fn ppm_header_s(w: int, h: int) -> Seq<u8> {
    seq![80u8, 51u8, 10u8] + dec_s(w) + seq![32u8] + dec_s(h) + seq![10u8] + seq![
        50u8,
        53u8,
        53u8,
        10u8,
    ]
}

/// One sample's color, of a shape the color evaluation can produce for
/// this scene: black, a sky gradient color, or a recursive color
/// attenuated by the material of one of the scene's objects.
pub open spec fn sample_color_ok(world: Seq<Sphere>, c: Array3) -> bool {
    ||| c == zero_v()
    ||| exists|r: Ray| c == #[trigger] sky_color_s(r)
    ||| exists|m: Material, rec: Array3|
        c == #[trigger] mul_v(attenuation_s(m), rec) && exists|k: int|
            0 <= k < world.len() && (#[trigger] world[k]).material == m
}

/// A pixel accumulated from exactly `k` sample colors for this scene.
pub open spec fn accum_ok(world: Seq<Sphere>, pix: Array3, k: int) -> bool
    decreases k,
{
    if k <= 0 {
        pix == zero_v()
    } else {
        exists|prev: Array3, c: Array3|
            pix == #[trigger] add_v(prev, c) && sample_color_ok(world, c) && accum_ok(
                world,
                prev,
                k - 1,
            )
    }
}

/// `s` consists of exactly `n` pixel lines, each the text of a pixel
/// accumulated from `samples` sample colors for this scene; with
/// `full_blue`, every line's blue channel is 255.
pub open spec fn lines_ok(
    world: Seq<Sphere>,
    s: Seq<u8>,
    n: int,
    samples: int,
    full_blue: bool,
) -> bool
    decreases n,
{
    if n <= 0 {
        s.len() == 0
    } else {
        exists|pix: Array3, rest: Seq<u8>|
            {
                &&& s == #[trigger] (pixel_line_s(pix, samples) + rest)
                &&& accum_ok(world, pix, samples)
                &&& (full_blue ==> quantize_s(pix.z, samples) == 255)
                &&& lines_ok(world, rest, n - 1, samples, full_blue)
            }
    }
}

/// `s` is a complete raster: the header for a `w` by `h` image followed by
/// `w * h` pixel lines.
pub open spec fn ppm_ok(
    world: Seq<Sphere>,
    s: Seq<u8>,
    w: int,
    h: int,
    samples: int,
    full_blue: bool,
) -> bool {
    exists|body: Seq<u8>|
        s == #[trigger] (ppm_header_s(w, h) + body) && lines_ok(
            world,
            body,
            h * w,
            samples,
            full_blue,
        )
}

/// Appending one more pixel line keeps a body of lines well formed.
#[verifier::rlimit(100)]
pub proof fn lemma_lines_ok_snoc(
    world: Seq<Sphere>,
    body: Seq<u8>,
    n: int,
    pix: Array3,
    samples: int,
    full_blue: bool,
)
    requires
        n >= 0,
        lines_ok(world, body, n, samples, full_blue),
        accum_ok(world, pix, samples),
        full_blue ==> quantize_s(pix.z, samples) == 255,
    ensures
        lines_ok(world, body + pixel_line_s(pix, samples), n + 1, samples, full_blue),
    decreases n,
{
    if n <= 0 {
        assert(body.len() == 0);
        assert(body + pixel_line_s(pix, samples) =~= pixel_line_s(pix, samples)
            + Seq::<u8>::empty());
        assert(lines_ok(world, Seq::<u8>::empty(), 0, samples, full_blue));
    } else {
        let (p0, rest0) = choose|p0: Array3, rest0: Seq<u8>|
            {
                &&& body == #[trigger] (pixel_line_s(p0, samples) + rest0)
                &&& accum_ok(world, p0, samples)
                &&& (full_blue ==> quantize_s(p0.z, samples) == 255)
                &&& lines_ok(world, rest0, n - 1, samples, full_blue)
            };
        lemma_lines_ok_snoc(world, rest0, n - 1, pix, samples, full_blue);
        assert(body + pixel_line_s(pix, samples) =~= pixel_line_s(p0, samples) + (rest0
            + pixel_line_s(pix, samples)));
    }
}

/// LAW (sky): the sky gradient keeps the blue channel at exactly one for
/// every ray, so an empty scene can never produce a black pixel.
pub proof fn lemma_sky_blue_channel(r: Ray)
    ensures
        sky_color_s(r).z == one_fx(),
{
    let u = unit_s(r.direction);
    let wv = add_s(u.y, one_fx());
    let a = mul_s(Fx { v: 32768 }, wv);
    assert(absi(32768 * (wv.v as int)) == 32768 * absi(wv.v as int)) by (nonlinear_arith) {
    }
    lemma_sdiv_abs(32768 * (wv.v as int), SCALE as int);
    assert(absi(wv.v as int) <= MAX_FX as int);
    assert(32768 * absi(wv.v as int) <= 32768 * (MAX_FX as int)) by (nonlinear_arith)
        requires
            absi(wv.v as int) <= MAX_FX as int,
    {
    }
    assert((32768 * absi(wv.v as int)) / (SCALE as int) <= (32768 * (MAX_FX as int)) / (
    SCALE as int)) by {
        vstd::arithmetic::div_mod::lemma_div_is_ordered(
            32768 * absi(wv.v as int),
            32768 * (MAX_FX as int),
            SCALE as int,
        );
    }
    assert((32768 * (MAX_FX as int)) / (SCALE as int) == 70368744177663);
    assert(absi(a.v as int) <= 70368744177663);
    let t = sub_s(one_fx(), a);
    assert(wf(t) && wf(a));
    lemma_mul_one(t);
    lemma_mul_one(a);
    assert(mul_s(white_s().z, t) == t);
    assert(mul_s(sky_blue_s().z, a) == a);
    assert(t.v as int == SCALE as int - a.v as int);
    assert(add_s(t, a).v == SCALE);
}

} // verus!
