//! Rays, hit records, the intersection protocol, and scene traversal.

use vstd::prelude::*;
use crate::fx::Fx;
use crate::array3::{Array3, add_v, smul_v};
use crate::interval::{Interval, contains_s};
use crate::material::Material;
use crate::sphere::{Sphere, sphere_hit_s, valid_sphere_s};

verus! {

#[derive(Clone, Copy, Debug, PartialEq, Eq, Structural)]
pub struct Ray {
    pub origin: Array3,
    pub direction: Array3,
}

pub open spec fn at_s(r: Ray, t: Fx) -> Array3 {
    add_v(r.origin, smul_v(r.direction, t))
}

impl Ray {
    pub fn new(origin: Array3, direction: Array3) -> (r: Ray)
        ensures
            r == (Ray { origin, direction }),
    {
        Ray { origin, direction }
    }

    /// The point `origin + t * direction`.
    pub fn at(&self, t: Fx) -> (r: Array3)
        ensures
            r == at_s(*self, t),
    {
        self.origin.add(&self.direction.scale(t))
    }
}

/// One intersection: hit point, outward-corrected unit-scale normal,
/// parameter along the ray, which face was struck, and the struck
/// object's material (materials are plain values and are copied).
#[derive(Clone, Copy, Debug, PartialEq, Eq, Structural)]
pub struct HitRecord {
    pub p: Array3,
    pub normal: Array3,
    pub t: Fx,
    pub front_face: bool,
    pub mat: Material,
}

/// The intersection protocol: a hit is reported only when its parameter
/// lies within the queried interval.
pub trait Hittable {
    fn hit(&self, r: &Ray, vals: Interval) -> Option<HitRecord>;
}

/// Traversal of the remaining scene suffix with the current search interval
/// and best record: each accepted hit shrinks the interval's upper bound to
/// its parameter, so later objects replace the best only when strictly
/// closer.
pub open spec fn hit_world_from_s(
    objs: Seq<Sphere>,
    r: Ray,
    vals: Interval,
    best: Option<HitRecord>,
) -> Option<HitRecord>
    decreases objs.len(),
{
    if objs.len() == 0 {
        best
    } else {
        match sphere_hit_s(objs[0], r, vals) {
            Some(h) => hit_world_from_s(
                objs.skip(1),
                r,
                Interval { min: vals.min, max: h.t },
                Some(h),
            ),
            None => hit_world_from_s(objs.skip(1), r, vals, best),
        }
    }
}

pub open spec fn hit_world_s(objs: Seq<Sphere>, r: Ray, vals: Interval) -> Option<HitRecord> {
    hit_world_from_s(objs, r, vals, None)
}

/// Scan every object and keep the closest accepted hit.
pub fn hit_world(world: &Vec<Sphere>, r: &Ray, vals: Interval) -> (res: Option<HitRecord>)
    requires
        forall|k: int| 0 <= k < world@.len() ==> valid_sphere_s(#[trigger] world@[k]),
    ensures
        res == hit_world_s(world@, *r, vals),
        res matches Some(h) ==> contains_s(vals, h.t),
        res matches Some(h) ==> exists|k: int|
            0 <= k < world@.len() && (#[trigger] world@[k]).material == h.mat,
{
    proof {
        lemma_hit_world_in_interval(world@, *r, vals);
    }
    let mut record: Option<HitRecord> = None;
    let mut cur = vals;
    let mut i: usize = 0;
    proof {
        assert(world@.skip(0) =~= world@);
    }
    while i < world.len()
        invariant
            0 <= i <= world@.len(),
            forall|k: int| 0 <= k < world@.len() ==> valid_sphere_s(#[trigger] world@[k]),
            hit_world_from_s(world@.skip(i as int), *r, cur, record) == hit_world_s(
                world@,
                *r,
                vals,
            ),
            record matches Some(h) ==> exists|k: int|
                0 <= k < world@.len() && (#[trigger] world@[k]).material == h.mat,
        decreases world@.len() - i,
    {
        let obj = &world[i];
        proof {
            assert(world@.skip(i as int)[0] == world@[i as int]);
            assert(world@.skip(i as int).skip(1) =~= world@.skip(i as int + 1));
        }
        if let Some(hit) = obj.hit(r, cur) {
            cur = Interval { min: cur.min, max: hit.t };
            record = Some(hit);
            proof {
                assert(0 <= i < world@.len() && world@[i as int].material == hit.mat);
            }
        }
        i = i + 1;
    }
    record
}

/// LAW: an empty scene is never hit.
pub proof fn lemma_hit_world_empty(r: Ray, vals: Interval)
    ensures
        hit_world_s(Seq::<Sphere>::empty(), r, vals) is None,
{
}

/// LAW: a hit reported by scene traversal carries the material of one of
/// the scene's objects.
pub proof fn lemma_hit_world_material(objs: Seq<Sphere>, r: Ray, vals: Interval)
    ensures
        hit_world_s(objs, r, vals) matches Some(h) ==> exists|k: int|
            0 <= k < objs.len() && (#[trigger] objs[k]).material == h.mat,
{
    lemma_hit_world_from_material(objs, r, vals, None);
}

/// The traversal invariant behind `lemma_hit_world_material`: the result is
/// the inherited best record or a hit on one of the remaining objects.
proof fn lemma_hit_world_from_material(
    objs: Seq<Sphere>,
    r: Ray,
    vals: Interval,
    best: Option<HitRecord>,
)
    ensures
        hit_world_from_s(objs, r, vals, best) matches Some(h) ==> ((best matches Some(b) && h
            == b) || exists|k: int| 0 <= k < objs.len() && (#[trigger] objs[k]).material == h.mat),
    decreases objs.len(),
{
    if objs.len() == 0 {
    } else {
        match sphere_hit_s(objs[0], r, vals) {
            Some(h0) => {
                assert(h0.mat == objs[0].material);
                lemma_hit_world_from_material(
                    objs.skip(1),
                    r,
                    Interval { min: vals.min, max: h0.t },
                    Some(h0),
                );
                match hit_world_from_s(objs, r, vals, best) {
                    Some(h) => {
                        if h == h0 {
                            assert(0 <= 0 < objs.len() && objs[0].material == h.mat);
                        } else {
                            let k = choose|k: int|
                                0 <= k < objs.skip(1).len() && (#[trigger] objs.skip(1)[k]).material
                                    == h.mat;
                            assert(objs[k + 1] == objs.skip(1)[k]);
                        }
                    },
                    None => {},
                }
            },
            None => {
                lemma_hit_world_from_material(objs.skip(1), r, vals, best);
                match hit_world_from_s(objs, r, vals, best) {
                    Some(h) => {
                        if !(best matches Some(b) && h == b) {
                            let k = choose|k: int|
                                0 <= k < objs.skip(1).len() && (#[trigger] objs.skip(1)[k]).material
                                    == h.mat;
                            assert(objs[k + 1] == objs.skip(1)[k]);
                        }
                    },
                    None => {},
                }
            },
        }
    }
}

/// LAW: a hit reported by scene traversal lies within the queried interval.
pub proof fn lemma_hit_world_in_interval(objs: Seq<Sphere>, r: Ray, vals: Interval)
    ensures
        hit_world_s(objs, r, vals) matches Some(h) ==> contains_s(vals, h.t),
{
    lemma_hit_world_from_in_interval(objs, r, vals, None, vals);
}

/// The traversal invariant behind `lemma_hit_world_in_interval`: the search
/// interval only ever shrinks from above, and each accepted hit was inside
/// the interval it was accepted from.
proof fn lemma_hit_world_from_in_interval(
    objs: Seq<Sphere>,
    r: Ray,
    cur: Interval,
    best: Option<HitRecord>,
    orig: Interval,
)
    requires
        cur.min == orig.min,
        cur.max.v <= orig.max.v,
        best matches Some(b) ==> contains_s(orig, b.t),
    ensures
        hit_world_from_s(objs, r, cur, best) matches Some(h) ==> contains_s(orig, h.t),
    decreases objs.len(),
{
    if objs.len() == 0 {
    } else {
        match sphere_hit_s(objs[0], r, cur) {
            Some(h) => {
                assert(contains_s(cur, h.t));
                lemma_hit_world_from_in_interval(
                    objs.skip(1),
                    r,
                    Interval { min: cur.min, max: h.t },
                    Some(h),
                    orig,
                );
            },
            None => {
                lemma_hit_world_from_in_interval(objs.skip(1), r, cur, best, orig);
            },
        }
    }
}

} // verus!
