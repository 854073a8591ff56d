//! The layout of a coordinate buffer: one pair of bit patterns for each
//! point, first `x`, then `y`.

use vstd::prelude::*;
use crate::point::Point;

verus! {

/// The point that a pair of the buffer stands for.
pub open spec fn point_of(pair: [u64; 2]) -> Point {
    Point { x: pair@[0], y: pair@[1] }
}

/// The points that the pairs of a buffer stand for, in their order.
pub open spec fn unpacked(pairs: Seq<[u64; 2]>) -> Seq<Point> {
    Seq::new(pairs.len(), |i: int| point_of(pairs[i]))
}

/// Reads the points of a buffer.
pub fn points_from_pairs(pairs: &Vec<[u64; 2]>) -> (points: Vec<Point>)
    ensures
        points@ == unpacked(pairs@),
{
    let mut points: Vec<Point> = Vec::new();
    let mut i: usize = 0;
    while i < pairs.len()
        invariant
            i <= pairs.len(),
            points@.len() == i,
            forall|j: int| 0 <= j < i ==> #[trigger] points@[j] == point_of(pairs@[j]),
        decreases pairs.len() - i,
    {
        let pair: [u64; 2] = pairs[i];
        points.push(Point { x: pair[0], y: pair[1] });
        i = i + 1;
    }
    assert(points@ =~= unpacked(pairs@));
    points
}

/// Lays points out as a buffer.
pub fn pairs_from_points(points: &Vec<Point>) -> (pairs: Vec<[u64; 2]>)
    ensures
        unpacked(pairs@) == points@,
        pairs@.len() == points@.len(),
{
    let mut pairs: Vec<[u64; 2]> = Vec::new();
    let mut i: usize = 0;
    while i < points.len()
        invariant
            i <= points.len(),
            pairs@.len() == i,
            forall|j: int| 0 <= j < i ==> point_of(#[trigger] pairs@[j]) == points@[j],
        decreases points.len() - i,
    {
        let p: Point = points[i];
        let pair: [u64; 2] = [p.x, p.y];
        pairs.push(pair);
        i = i + 1;
    }
    assert(unpacked(pairs@) =~= points@);
    pairs
}

} // verus!
