//! Points of a polyline.

use vstd::prelude::*;
use crate::ieee::{finite, is_finite};

verus! {

/// A point of the plane; each coordinate is the bit pattern of a binary64 value.
#[derive(Clone, Copy, Debug, PartialEq, Eq, Structural)]
pub struct Point {
    pub x: u64,
    pub y: u64,
}

impl Point {
    /// Whether both coordinates are finite numbers.
    pub open spec fn finite(self) -> bool {
        is_finite(self.x) && is_finite(self.y)
    }

    /// Tests both coordinates for being finite numbers.
    pub fn is_finite(&self) -> (b: bool)
        ensures
            b == self.finite(),
    {
        finite(self.x) && finite(self.y)
    }
}

/// Whether every point of the sequence has finite coordinates.
pub open spec fn all_finite(points: Seq<Point>) -> bool {
    forall|i: int| 0 <= i < points.len() ==> (#[trigger] points[i]).finite()
}

/// Whether `i` is the position of the first point with a coordinate that is
/// not a finite number.
pub open spec fn is_first_non_finite(points: Seq<Point>, i: int) -> bool {
    &&& 0 <= i < points.len()
    &&& !points[i].finite()
    &&& forall|j: int| 0 <= j < i ==> (#[trigger] points[j]).finite()
}

/// Looks for the first point with a coordinate that is not a finite number.
pub fn first_non_finite(points: &Vec<Point>) -> (found: Option<usize>)
    ensures
        match found {
            Some(i) => is_first_non_finite(points@, i as int),
            None => all_finite(points@),
        },
{
    let mut i: usize = 0;
    while i < points.len()
        invariant
            i <= points.len(),
            forall|j: int| 0 <= j < i ==> (#[trigger] points@[j]).finite(),
        decreases points.len() - i,
    {
        if !points[i].is_finite() {
            return Some(i);
        }
        i = i + 1;
    }
    None
}

} // verus!
