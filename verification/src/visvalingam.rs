//! The Visvalingam-Whyatt simplifier: the point whose triangle with its two
//! retained neighbours has the least area is removed, again and again, until
//! that least area is above the tolerance.

use vstd::prelude::*;
use crate::adjacency::{lemma_remove_keeps_span, AdjacencyTable};
use crate::engine::run;
use crate::error::{rejection, screen, SimplifyError};
use crate::ieee::{above, rank};
use crate::measure::{answers_all, computes};
use crate::point::Point;
use crate::preserve::{decides, lemma_permissive_is_plain};
use crate::select::{all_positions, every_position, gather, lemma_all_positions_span, positions,
    select, spans};

verus! {

/// The area of the triangle that the retained point at place `k` forms with
/// the retained points before and after it.
pub open spec fn triangle(
    points: Seq<Point>,
    area: spec_fn(Point, Point, Point) -> u64,
    kept: Seq<int>,
    k: int,
) -> u64 {
    area(points[kept[k - 1]], points[kept[k]], points[kept[k + 1]])
}

/// The place among `1..=k` whose triangle has the least area; of several
/// such places, the first.
pub open spec fn least(
    points: Seq<Point>,
    area: spec_fn(Point, Point, Point) -> u64,
    kept: Seq<int>,
    k: int,
) -> int
    decreases k,
{
    if k <= 1 {
        1
    } else {
        let m = least(points, area, kept, k - 1);
        if rank(triangle(points, area, kept, k)) < rank(triangle(points, area, kept, m)) {
            k
        } else {
            m
        }
    }
}

/// What is left of the retained positions `kept` when the simplifier has run
/// from there: as long as three or more are retained and the least triangle
/// is not above the tolerance, the point of that triangle is removed.
pub open spec fn eliminate(
    points: Seq<Point>,
    area: spec_fn(Point, Point, Point) -> u64,
    epsilon: u64,
    kept: Seq<int>,
) -> Seq<int>
    decreases kept.len(),
{
    if kept.len() < 3 {
        kept
    } else {
        let k = least(points, area, kept, kept.len() - 2);
        if 0 < k < kept.len() - 1 && !above(triangle(points, area, kept, k), epsilon) {
            eliminate(points, area, epsilon, kept.remove(k))
        } else {
            kept
        }
    }
}

/// The positions that the simplifier retains of `points`.
pub open spec fn vw_indices(
    points: Seq<Point>,
    area: spec_fn(Point, Point, Point) -> u64,
    epsilon: u64,
) -> Seq<int> {
    eliminate(points, area, epsilon, all_positions(points.len()))
}

/// The points that the simplifier retains of `points`.
pub open spec fn vw_points(
    points: Seq<Point>,
    area: spec_fn(Point, Point, Point) -> u64,
    epsilon: u64,
) -> Seq<Point> {
    gather(points, vw_indices(points, area, epsilon))
}

/// The place that `least` names lies among `1..=m`, no triangle among these
/// places is smaller than the one there, and every triangle before it is
/// greater.
pub proof fn lemma_least_is_least(
    points: Seq<Point>,
    area: spec_fn(Point, Point, Point) -> u64,
    kept: Seq<int>,
    m: int,
)
    requires
        1 <= m,
    ensures
        1 <= least(points, area, kept, m) <= m,
        forall|j: int|
            1 <= j <= m ==> rank(triangle(points, area, kept, least(points, area, kept, m)))
                <= rank(#[trigger] triangle(points, area, kept, j)),
        forall|j: int|
            1 <= j < least(points, area, kept, m) ==> rank(
                triangle(points, area, kept, least(points, area, kept, m)),
            ) < rank(#[trigger] triangle(points, area, kept, j)),
    decreases m,
{
    if m > 1 {
        lemma_least_is_least(points, area, kept, m - 1);
    }
}

/// Runs the simplifier and says which positions it retains.
///
/// `area` gives the area of the triangle of three points, as the bit pattern
/// of a binary64 value; it is asked about a retained point, handed over
/// between its left and its right neighbour. Areas are compared by rank,
/// so an area that is no number counts as above every tolerance; of two
/// points with triangles of equal area the one that comes first in the
/// polyline is removed first. A polyline of fewer than three points is
/// retained whole.
pub fn simplify_visvalingam_idx<F: Fn(Point, Point, Point) -> u64>(
    points: &Vec<Point>,
    epsilon: u64,
    area: F,
) -> (result: Result<Vec<usize>, SimplifyError>)
    requires
        answers_all(area),
    ensures
        match rejection(points@, epsilon) {
            Some(e) => result == Err::<Vec<usize>, SimplifyError>(e),
            None => result matches Ok(kept) && forall|m: spec_fn(Point, Point, Point) -> u64|
                #[trigger] computes(area, m) ==> positions(kept@) == vw_indices(
                    points@,
                    m,
                    epsilon,
                ),
        },
        result matches Ok(kept) ==> spans(positions(kept@), points@.len()),
        result matches Ok(kept) ==> points@.len() < 3 ==> positions(kept@) == all_positions(
            points@.len(),
        ),
{
    let n: usize = points.len();
    if n < 3 {
        proof {
            lemma_all_positions_span(n as nat);
        }
        return Ok(every_position(n));
    }
    match screen(points, epsilon) {
        Some(e) => {
            return Err(e);
        },
        None => {},
    }
    let unconditional = |table: &AdjacencyTable, i: usize| -> (permitted: bool)
        ensures
            permitted,
        { true };
    let kept: Vec<usize> = run(points, epsilon, &area, &unconditional);
    proof {
        let always = |retained: Seq<int>, i: int| true;
        assert(decides(unconditional, always));
        assert forall|m: spec_fn(Point, Point, Point) -> u64| #[trigger]
            computes(area, m) implies positions(kept@) == vw_indices(points@, m, epsilon) by {
            lemma_permissive_is_plain(points@, m, always, epsilon, all_positions(n as nat));
        }
    }
    Ok(kept)
}

/// Runs the simplifier and hands back the points it retains.
///
/// `area` and the comparison of areas are those of
/// `simplify_visvalingam_idx`.
pub fn simplify_visvalingam<F: Fn(Point, Point, Point) -> u64>(
    points: &Vec<Point>,
    epsilon: u64,
    area: F,
) -> (result: Result<Vec<Point>, SimplifyError>)
    requires
        answers_all(area),
    ensures
        match rejection(points@, epsilon) {
            Some(e) => result == Err::<Vec<Point>, SimplifyError>(e),
            None => result matches Ok(out) && forall|m: spec_fn(Point, Point, Point) -> u64|
                #[trigger] computes(area, m) ==> out@ == vw_points(points@, m, epsilon),
        },
        result matches Ok(out) ==> points@.len() > 0 ==> out@.len() > 0 && out@[0] == points@[0]
            && out@.last() == points@.last(),
        result matches Ok(out) ==> points@.len() < 3 ==> out@ == points@,
{
    match simplify_visvalingam_idx(points, epsilon, area) {
        Ok(kept) => {
            let out: Vec<Point> = select(points, &kept).unwrap();
            proof {
                if points@.len() < 3 {
                    assert(out@ =~= points@);
                }
            }
            Ok(out)
        },
        Err(e) => Err(e),
    }
}

/// The run of the simplifier removes places only.
pub proof fn lemma_eliminate_shrinks(
    points: Seq<Point>,
    area: spec_fn(Point, Point, Point) -> u64,
    epsilon: u64,
    kept: Seq<int>,
)
    ensures
        eliminate(points, area, epsilon, kept).len() <= kept.len(),
    decreases kept.len(),
{
    if kept.len() >= 3 {
        let k = least(points, area, kept, kept.len() - 2);
        if 0 < k < kept.len() - 1 && !above(triangle(points, area, kept, k), epsilon) {
            lemma_eliminate_shrinks(points, area, epsilon, kept.remove(k));
        }
    }
}

/// What the simplifier leaves keeps the two ends and the order of the
/// polyline, and every triangle left in it is above the tolerance.
pub proof fn lemma_eliminate_settles(
    points: Seq<Point>,
    area: spec_fn(Point, Point, Point) -> u64,
    epsilon: u64,
    kept: Seq<int>,
)
    requires
        spans(kept, points.len()),
    ensures
        spans(eliminate(points, area, epsilon, kept), points.len()),
        forall|k: int|
            0 < k < eliminate(points, area, epsilon, kept).len() - 1 ==> above(
                #[trigger] triangle(points, area, eliminate(points, area, epsilon, kept), k),
                epsilon,
            ),
    decreases kept.len(),
{
    if kept.len() >= 3 {
        let k = least(points, area, kept, kept.len() - 2);
        lemma_least_is_least(points, area, kept, kept.len() - 2);
        if !above(triangle(points, area, kept, k), epsilon) {
            lemma_remove_keeps_span(kept, points.len(), k);
            lemma_eliminate_settles(points, area, epsilon, kept.remove(k));
        }
    }
}

/// Simplifying what the simplifier returned, with the same tolerance,
/// changes nothing: the result is accepted and comes back as it is.
pub proof fn lemma_vw_is_idempotent(
    points: Seq<Point>,
    area: spec_fn(Point, Point, Point) -> u64,
    epsilon: u64,
)
    ensures
        vw_points(vw_points(points, area, epsilon), area, epsilon) == vw_points(
            points,
            area,
            epsilon,
        ),
        rejection(points, epsilon) is None ==> rejection(vw_points(points, area, epsilon), epsilon)
            is None,
{
    let kept = vw_indices(points, area, epsilon);
    let again = vw_points(points, area, epsilon);
    let all = all_positions(again.len());
    lemma_all_positions_span(points.len());
    lemma_eliminate_settles(points, area, epsilon, all_positions(points.len()));
    lemma_eliminate_shrinks(points, area, epsilon, all_positions(points.len()));
    if again.len() >= 3 {
        let k = least(again, area, all, all.len() - 2);
        lemma_least_is_least(again, area, all, all.len() - 2);
        assert(triangle(again, area, all, k) == triangle(points, area, kept, k));
        assert(eliminate(again, area, epsilon, all) == all);
    }
    assert(vw_indices(again, area, epsilon) == all);
    assert(vw_points(again, area, epsilon) =~= again);
    if rejection(points, epsilon) is None && again.len() >= 3 {
        assert forall|i: int| 0 <= i < again.len() implies (#[trigger] again[i]).finite() by {
            assert(0 <= kept[i] < points.len());
            assert(points[kept[i]].finite());
        }
    }
}

/// A greater tolerance retains no more points, from whatever the simplifier
/// starts with.
pub proof fn lemma_eliminate_is_monotonic(
    points: Seq<Point>,
    area: spec_fn(Point, Point, Point) -> u64,
    smaller: u64,
    greater: u64,
    kept: Seq<int>,
)
    requires
        rank(smaller) <= rank(greater),
    ensures
        eliminate(points, area, greater, kept).len() <= eliminate(
            points,
            area,
            smaller,
            kept,
        ).len(),
    decreases kept.len(),
{
    if kept.len() >= 3 {
        let k = least(points, area, kept, kept.len() - 2);
        if 0 < k < kept.len() - 1 {
            if !above(triangle(points, area, kept, k), smaller) {
                lemma_eliminate_is_monotonic(points, area, smaller, greater, kept.remove(k));
            } else {
                lemma_eliminate_shrinks(points, area, greater, kept);
            }
        }
    }
}

/// For one polyline, the number of retained points does not grow as the
/// tolerance grows.
pub proof fn lemma_vw_is_monotonic(
    points: Seq<Point>,
    area: spec_fn(Point, Point, Point) -> u64,
    smaller: u64,
    greater: u64,
)
    requires
        rank(smaller) <= rank(greater),
    ensures
        vw_points(points, area, greater).len() <= vw_points(points, area, smaller).len(),
        vw_indices(points, area, greater).len() <= vw_indices(points, area, smaller).len(),
{
    lemma_eliminate_is_monotonic(points, area, smaller, greater, all_positions(points.len()));
}

/// The two forms of the simplifier agree: the points that one returns are
/// the points found at the positions that the other returns, in the same
/// order.
pub proof fn lemma_vw_points_stand_at_indices(
    points: Seq<Point>,
    area: spec_fn(Point, Point, Point) -> u64,
    epsilon: u64,
    kept: Seq<usize>,
    out: Seq<Point>,
)
    requires
        positions(kept) == vw_indices(points, area, epsilon),
        out == vw_points(points, area, epsilon),
    ensures
        out == gather(points, positions(kept)),
        out.len() == kept.len(),
        forall|k: int| 0 <= k < kept.len() ==> #[trigger] out[k] == points[kept[k] as int],
{
}

} // verus!
