//! Intervals over the 32-bit signed range and spatial extents.

use vstd::prelude::*;

verus! {

/// A non-empty description of a range of 32-bit signed values: bounded below,
/// bounded above, or both (inclusive).
#[derive(Clone, Copy, Debug, PartialEq, Eq, Structural)]
pub enum Interval {
    Min(i32),
    Max(i32),
    Bounded(i32, i32),
}

impl Interval {
    /// Whether `v` lies in the interval.
    pub open spec fn contains(self, v: int) -> bool {
        match self {
            Interval::Min(lo) => lo <= v,
            Interval::Max(hi) => v <= hi,
            Interval::Bounded(lo, hi) => lo <= v <= hi,
        }
    }

    /// The interval with the given optional bounds, if at least one is given.
    pub open spec fn spec_new(min: Option<i32>, max: Option<i32>) -> Option<Interval> {
        match (min, max) {
            (Some(lo), Some(hi)) => Some(Interval::Bounded(lo, hi)),
            (Some(lo), None) => Some(Interval::Min(lo)),
            (None, Some(hi)) => Some(Interval::Max(hi)),
            (None, None) => None,
        }
    }

    /// Builds the interval with the given optional bounds; there is none when
    /// both bounds are absent.
    pub fn new(min: Option<i32>, max: Option<i32>) -> (r: Option<Interval>)
        ensures
            r == Interval::spec_new(min, max),
    {
        match (min, max) {
            (Some(lo), Some(hi)) => Some(Interval::Bounded(lo, hi)),
            (Some(lo), None) => Some(Interval::Min(lo)),
            (None, Some(hi)) => Some(Interval::Max(hi)),
            (None, None) => None,
        }
    }

    /// Tests membership of `v`.
    pub fn includes(&self, v: i32) -> (r: bool)
        ensures
            r == self.contains(v as int),
    {
        match *self {
            Interval::Min(lo) => lo <= v,
            Interval::Max(hi) => v <= hi,
            Interval::Bounded(lo, hi) => lo <= v && v <= hi,
        }
    }
}

/// An absolute block position.
#[derive(Clone, Copy, Debug, PartialEq, Eq, Structural)]
pub struct Pos {
    pub x: i32,
    pub y: i32,
    pub z: i32,
}

/// The space that a placed program point occupies.
#[derive(Clone, Copy, Debug, PartialEq, Eq, Structural)]
pub enum Extent {
    Empty,
    MinMax(Pos, Pos),
}

} // verus!
