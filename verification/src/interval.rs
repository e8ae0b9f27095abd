//! Closed ranges of fixed-point scalars, used to clip intersection
//! parameters and to clamp color channels.

use vstd::prelude::*;
use crate::fx::{Fx, MAX_FX, wf};

verus! {

#[derive(Clone, Copy, Debug, PartialEq, Eq, Structural)]
pub struct Interval {
    pub min: Fx,
    pub max: Fx,
}

pub open spec fn contains_s(i: Interval, x: Fx) -> bool {
    i.min.v <= x.v <= i.max.v
}

pub open spec fn surrounds_s(i: Interval, x: Fx) -> bool {
    i.min.v < x.v < i.max.v
}

pub open spec fn clamp_s(i: Interval, x: Fx) -> Fx {
    if x.v < i.min.v {
        i.min
    } else if x.v > i.max.v {
        i.max
    } else {
        x
    }
}

pub open spec fn empty_s() -> Interval {
    Interval { min: Fx { v: MAX_FX }, max: Fx { v: (-(MAX_FX as int)) as i64 } }
}

pub open spec fn universe_s() -> Interval {
    Interval { min: Fx { v: (-(MAX_FX as int)) as i64 }, max: Fx { v: MAX_FX } }
}

impl Interval {
    /// The empty range: its lower bound is the largest scalar and its upper
    /// bound the smallest, so it contains nothing.
    pub fn empty() -> (r: Interval)
        ensures
            r == empty_s(),
    {
        Interval { min: Fx { v: MAX_FX }, max: Fx { v: -MAX_FX } }
    }

    /// The range of every representable scalar.
    pub fn universe() -> (r: Interval)
        ensures
            r == universe_s(),
    {
        Interval { min: Fx { v: -MAX_FX }, max: Fx { v: MAX_FX } }
    }

    pub fn new(min: Fx, max: Fx) -> (r: Interval)
        ensures
            r == (Interval { min, max }),
    {
        Interval { min, max }
    }

    /// Inclusive membership.
    pub fn contains(&self, x: Fx) -> (r: bool)
        ensures
            r == contains_s(*self, x),
    {
        self.min.v <= x.v && x.v <= self.max.v
    }

    /// Strict membership.
    pub fn surrounds(&self, x: Fx) -> (r: bool)
        ensures
            r == surrounds_s(*self, x),
    {
        self.min.v < x.v && x.v < self.max.v
    }

    /// Clip `x` into the range.
    pub fn clamp(&self, x: Fx) -> (r: Fx)
        ensures
            r == clamp_s(*self, x),
    {
        if x.v < self.min.v {
            self.min
        } else if x.v > self.max.v {
            self.max
        } else {
            x
        }
    }
}

/// LAW: the empty interval contains no scalar at all.
pub proof fn lemma_empty_contains_nothing(x: Fx)
    ensures
        !contains_s(empty_s(), x),
{
}

/// LAW: the universal interval contains every representable scalar.
pub proof fn lemma_universe_contains_all(x: Fx)
    requires
        wf(x),
    ensures
        contains_s(universe_s(), x),
{
}

/// LAW: on a nonempty interval, `clamp` never returns a value outside
/// `[min, max]`, and it fixes values already inside.
pub proof fn lemma_clamp_in_range(i: Interval, x: Fx)
    requires
        i.min.v <= i.max.v,
    ensures
        contains_s(i, clamp_s(i, x)),
        contains_s(i, x) ==> clamp_s(i, x) == x,
{
}

} // verus!
