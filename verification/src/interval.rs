use vstd::prelude::*;

verus! {

use crate::fx::dfloor;

/// A closed range of fixed-point values. It may be empty (min > max); the
/// default interval is empty with its bounds pushed far beyond any
/// well-formed coordinate, standing in for the infinities of a real range.
#[derive(Clone, Copy, Debug, PartialEq, Eq, Structural)]
pub struct Interval {
    pub min: i64,
    pub max: i64,
}

/// The mathematical shadow of an Interval.
pub ghost struct IvV {
    pub min: int,
    pub max: int,
}

impl View for Interval {
    type V = IvV;

    open spec fn view(&self) -> IvV {
        IvV { min: self.min as int, max: self.max as int }
    }
}

/// The stand-in for an infinite bound: far beyond any well-formed
/// coordinate, yet far from the edge of i64 arithmetic.
pub const IV_INF: i64 = 0x8_0000_0000;

pub open spec fn iv_contains(iv: IvV, x: int) -> bool {
    iv.min <= x <= iv.max
}

pub open spec fn iv_surrounds(iv: IvV, x: int) -> bool {
    iv.min < x < iv.max
}

pub open spec fn iv_clamp(iv: IvV, x: int) -> int {
    if x < iv.min {
        iv.min
    } else if x > iv.max {
        iv.max
    } else {
        x
    }
}

pub open spec fn iv_size(iv: IvV) -> int {
    iv.max - iv.min
}

/// The tightest interval containing both arguments.
pub open spec fn iv_union(a: IvV, b: IvV) -> IvV {
    IvV {
        min: if a.min <= b.min { a.min } else { b.min },
        max: if a.max >= b.max { a.max } else { b.max },
    }
}

/// The interval grown symmetrically by half of `delta` on each side.
pub open spec fn iv_expand(iv: IvV, delta: int) -> IvV {
    IvV { min: iv.min - dfloor(delta, 2), max: iv.max + dfloor(delta, 2) }
}

/// Both bounds lie within [-b, b].
pub open spec fn iv_wf(iv: IvV, b: int) -> bool {
    -b <= iv.min <= b && -b <= iv.max <= b
}

impl Interval {
    pub fn new(min: i64, max: i64) -> (r: Interval)
        ensures
            r@ == (IvV { min: min as int, max: max as int }),
    {
        Interval { min, max }
    }

    /// The empty interval: its lower bound above its upper one, both at
    /// the stand-in for infinity.
    pub fn empty() -> (r: Interval)
        ensures
            r@ == (IvV { min: IV_INF as int, max: -IV_INF as int }),
    {
        Interval { min: IV_INF, max: -IV_INF }
    }

    /// The interval containing every representable value.
    pub fn universe() -> (r: Interval)
        ensures
            r@ == (IvV { min: -IV_INF as int, max: IV_INF as int }),
    {
        Interval { min: -IV_INF, max: IV_INF }
    }

    /// The tightest interval enclosing both inputs.
    pub fn from_intervals(a: &Interval, b: &Interval) -> (r: Interval)
        ensures
            r@ == iv_union(a@, b@),
    {
        let min = if a.min <= b.min { a.min } else { b.min };
        let max = if a.max >= b.max { a.max } else { b.max };
        Interval { min, max }
    }

    pub fn size(&self) -> (r: i64)
        requires
            iv_wf(self@, 0x2000_0000_0000_0000),
        ensures
            r as int == iv_size(self@),
    {
        self.max - self.min
    }

    /// Inclusive containment test.
    pub fn contains(&self, x: i64) -> (r: bool)
        ensures
            r == iv_contains(self@, x as int),
    {
        x >= self.min && x <= self.max
    }

    /// Exclusive containment test, used to reject hits exactly at the ends
    /// of a query range.
    pub fn surrounds(&self, x: i64) -> (r: bool)
        ensures
            r == iv_surrounds(self@, x as int),
    {
        x > self.min && x < self.max
    }

    /// `x` saturated into the range.
    pub fn clamp(&self, x: i64) -> (r: i64)
        ensures
            r as int == iv_clamp(self@, x as int),
    {
        if x < self.min {
            return self.min;
        }
        if x > self.max {
            return self.max;
        }
        x
    }

    /// The interval grown symmetrically by half of `delta` on each side.
    pub fn expand(&self, delta: i64) -> (r: Interval)
        requires
            iv_wf(self@, 0x2000_0000_0000_0000),
            0 <= delta <= 0x1_0000_0000,
        ensures
            r@ == iv_expand(self@, delta as int),
    {
        let padding = ((delta as u64) / 2) as i64;
        Interval { min: self.min - padding, max: self.max + padding }
    }
}

impl Default for Interval {
    /// The default interval is empty.
    fn default() -> (r: Interval)
        ensures
            r@ == (IvV { min: IV_INF as int, max: -IV_INF as int }),
    {
        Interval::empty()
    }
}

} // verus!
