//! Positions into a polyline, and the points found there.

use vstd::prelude::*;
use crate::point::Point;

verus! {

/// The positions `0, 1, .., n - 1`.
pub open spec fn all_positions(n: nat) -> Seq<int> {
    Seq::new(n, |i: int| i)
}

/// A sequence of positions read as mathematical integers.
pub open spec fn positions(indices: Seq<usize>) -> Seq<int> {
    Seq::new(indices.len(), |k: int| indices[k] as int)
}

/// The points found at the given positions, in the order of the positions.
pub open spec fn gather(points: Seq<Point>, indices: Seq<int>) -> Seq<Point> {
    Seq::new(indices.len(), |k: int| points[indices[k]])
}

/// Whether every position lies within a sequence of `n` points.
pub open spec fn within(indices: Seq<int>, n: nat) -> bool {
    forall|k: int| 0 <= k < indices.len() ==> 0 <= #[trigger] indices[k] < n
}

/// Collects the points at the given positions.
///
/// Nothing is returned if a position lies outside `points`.
pub fn select(points: &Vec<Point>, indices: &Vec<usize>) -> (chosen: Option<Vec<Point>>)
    ensures
        chosen is Some <==> within(positions(indices@), points@.len()),
        chosen matches Some(out) ==> out@ == gather(points@, positions(indices@)),
{
    let mut out: Vec<Point> = Vec::new();
    let mut k: usize = 0;
    while k < indices.len()
        invariant
            k <= indices.len(),
            out@.len() == k,
            forall|j: int| 0 <= j < k ==> 0 <= #[trigger] positions(indices@)[j] < points@.len(),
            forall|j: int| 0 <= j < k ==> #[trigger] out@[j] == points@[indices@[j] as int],
        decreases indices.len() - k,
    {
        let i: usize = indices[k];
        if i >= points.len() {
            assert(positions(indices@)[k as int] == i);
            return None;
        }
        out.push(points[i]);
        k = k + 1;
    }
    assert(out@ =~= gather(points@, positions(indices@)));
    Some(out)
}

/// The positions `0, 1, .., n - 1` as a vector.
pub fn every_position(n: usize) -> (all: Vec<usize>)
    ensures
        positions(all@) == all_positions(n as nat),
{
    let mut all: Vec<usize> = Vec::new();
    let mut i: usize = 0;
    while i < n
        invariant
            i <= n,
            all@.len() == i,
            forall|j: int| 0 <= j < i ==> #[trigger] all@[j] == j,
        decreases n - i,
    {
        all.push(i);
        i = i + 1;
    }
    assert(positions(all@) =~= all_positions(n as nat));
    all
}

/// Whether the positions grow strictly from each to the next.
pub open spec fn increasing(indices: Seq<int>) -> bool {
    forall|j: int, k: int| 0 <= j < k < indices.len() ==> indices[j] < indices[k]
}

/// Whether the positions are a selection from a polyline of `n` points that
/// keeps its two ends: they grow strictly, begin with the first point and
/// end with the last.
pub open spec fn spans(indices: Seq<int>, n: nat) -> bool {
    &&& increasing(indices)
    &&& within(indices, n)
    &&& (n == 0 ==> indices.len() == 0)
    &&& (n > 0 ==> indices.len() > 0 && indices[0] == 0 && indices.last() == n - 1)
}

/// Among strictly growing positions each value stands at one place only.
pub proof fn lemma_place_is_unique(indices: Seq<int>, k: int)
    requires
        increasing(indices),
        0 <= k < indices.len(),
    ensures
        indices.index_of(indices[k]) == k,
        indices.contains(indices[k]),
{
    let found = indices.index_of(indices[k]);
    assert(0 <= found < indices.len() && indices[found] == indices[k]);
    if found < k {
        assert(indices[found] < indices[k]);
    } else if k < found {
        assert(indices[k] < indices[found]);
    }
}

/// All positions of a polyline, in order, are a selection that keeps its ends.
pub proof fn lemma_all_positions_span(n: nat)
    ensures
        spans(all_positions(n), n),
{
}

} // verus!
