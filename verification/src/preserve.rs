//! Visvalingam-Whyatt under a condition: a point whose turn has come is
//! removed only if a condition on the retained line permits it.
//!
//! A point that was refused stays where it is and is not considered again
//! until one of its neighbours has been removed: only then has its triangle
//! changed.

use vstd::prelude::*;
use crate::adjacency::{lemma_remove_keeps_span, AdjacencyTable};
use crate::engine::run;
use crate::error::{rejection, screen, SimplifyError};
use crate::ieee::{above, rank};
use crate::measure::{answers_all, computes};
use crate::point::Point;
use crate::select::{all_positions, every_position, gather, lemma_all_positions_span, positions,
    select, spans};
use crate::visvalingam::{eliminate, least, lemma_least_is_least, triangle};

verus! {

/// Whether `p` may be asked about any retained inner position of any table.
pub open spec fn answers_inner<P: Fn(&AdjacencyTable, usize) -> bool>(p: P) -> bool {
    forall|table: AdjacencyTable, i: usize|
        table.wf() && table.interior(i as int) ==> #[trigger] p.requires((&table, i))
}

/// Whether `p` decides as the mathematical function `r` does: whatever it
/// answers about a position of a table is the value of `r` for the retained
/// positions and that position.
///
/// The contracts say what is retained in terms of every such `r`. A
/// condition whose answer depends on anything but the retained positions
/// and the position asked about decides as no `r` does, and nothing is said
/// of what is retained under it.
pub open spec fn decides<P: Fn(&AdjacencyTable, usize) -> bool>(
    p: P,
    r: spec_fn(Seq<int>, int) -> bool,
) -> bool {
    forall|table: AdjacencyTable, i: usize, b: bool| #[trigger]
        p.ensures((&table, i), b) ==> b == r(table@, i as int)
}

/// How many of the places `1..=k` hold a position that is not barred.
pub open spec fn open_count(kept: Seq<int>, barred: Set<int>, k: int) -> nat
    decreases k,
{
    if k <= 0 {
        0
    } else {
        open_count(kept, barred, k - 1) + if barred.contains(kept[k]) {
            0nat
        } else {
            1nat
        }
    }
}

/// Barring one more position leaves no more places open, and fewer if the
/// position stood open at one of them.
pub proof fn lemma_barring_closes(kept: Seq<int>, barred: Set<int>, k: int, p: int)
    ensures
        open_count(kept, barred.insert(kept[p]), k) <= open_count(kept, barred, k),
        1 <= p <= k && !barred.contains(kept[p]) ==> open_count(kept, barred.insert(kept[p]), k)
            < open_count(kept, barred, k),
    decreases k,
{
    if k > 0 {
        lemma_barring_closes(kept, barred, k - 1, p);
    }
}

/// The place among `1..=k` whose triangle has the least area of those whose
/// position is not barred; of several such places, the first; 0 if all are
/// barred.
pub open spec fn least_open(
    points: Seq<Point>,
    area: spec_fn(Point, Point, Point) -> u64,
    kept: Seq<int>,
    barred: Set<int>,
    k: int,
) -> int
    decreases k,
{
    if k <= 0 {
        0
    } else {
        let m = least_open(points, area, kept, barred, k - 1);
        if barred.contains(kept[k]) {
            m
        } else if m == 0 || rank(triangle(points, area, kept, k)) < rank(
            triangle(points, area, kept, m),
        ) {
            k
        } else {
            m
        }
    }
}

/// What is left of the retained positions `kept` when the simplifier has
/// run from there under the condition `permits`, with the positions in
/// `barred` refused since their neighbours last changed.
///
/// As long as some retained inner point is not barred, and the least
/// triangle of such points is not above the tolerance, the point of that
/// triangle is put to the condition. If its removal is permitted it is
/// removed, and its two neighbours are no longer barred; if not, it is
/// barred.
pub open spec fn eliminate_where(
    points: Seq<Point>,
    area: spec_fn(Point, Point, Point) -> u64,
    permits: spec_fn(Seq<int>, int) -> bool,
    epsilon: u64,
    kept: Seq<int>,
    barred: Set<int>,
) -> Seq<int>
    decreases kept.len(), open_count(kept, barred, kept.len() - 2),
{
    if kept.len() < 3 {
        kept
    } else {
        let k = least_open(points, area, kept, barred, kept.len() - 2);
        if 0 < k < kept.len() - 1 && !barred.contains(kept[k]) && !above(
            triangle(points, area, kept, k),
            epsilon,
        ) {
            if permits(kept, kept[k]) {
                eliminate_where(
                    points,
                    area,
                    permits,
                    epsilon,
                    kept.remove(k),
                    barred.remove(kept[k - 1]).remove(kept[k + 1]),
                )
            } else {
                proof {
                    lemma_barring_closes(kept, barred, kept.len() - 2, k);
                }
                eliminate_where(points, area, permits, epsilon, kept, barred.insert(kept[k]))
            }
        } else {
            kept
        }
    }
}

/// The positions that the simplifier retains of `points` under the
/// condition `permits`.
pub open spec fn vwp_indices(
    points: Seq<Point>,
    area: spec_fn(Point, Point, Point) -> u64,
    permits: spec_fn(Seq<int>, int) -> bool,
    epsilon: u64,
) -> Seq<int> {
    eliminate_where(points, area, permits, epsilon, all_positions(points.len()), Set::empty())
}

/// The points that the simplifier retains of `points` under the condition
/// `permits`.
pub open spec fn vwp_points(
    points: Seq<Point>,
    area: spec_fn(Point, Point, Point) -> u64,
    permits: spec_fn(Seq<int>, int) -> bool,
    epsilon: u64,
) -> Seq<Point> {
    gather(points, vwp_indices(points, area, permits, epsilon))
}

/// The place that `least_open` names is 0 exactly if every place among
/// `1..=m` is barred. Otherwise it lies among them and is not barred, no
/// open place among them has a smaller triangle, and every open place
/// before it has a greater one.
pub proof fn lemma_least_open_is_least(
    points: Seq<Point>,
    area: spec_fn(Point, Point, Point) -> u64,
    kept: Seq<int>,
    barred: Set<int>,
    m: int,
)
    ensures
        0 <= least_open(points, area, kept, barred, m),
        least_open(points, area, kept, barred, m) <= m || m < 0,
        least_open(points, area, kept, barred, m) == 0 <==> forall|j: int|
            1 <= j <= m ==> barred.contains(#[trigger] kept[j]),
        least_open(points, area, kept, barred, m) > 0 ==> !barred.contains(
            kept[least_open(points, area, kept, barred, m)],
        ),
        forall|j: int|
            1 <= j <= m && !barred.contains(kept[j]) ==> rank(
                triangle(points, area, kept, least_open(points, area, kept, barred, m)),
            ) <= rank(#[trigger] triangle(points, area, kept, j)),
        forall|j: int|
            1 <= j < least_open(points, area, kept, barred, m) && !barred.contains(kept[j])
                ==> rank(triangle(points, area, kept, least_open(points, area, kept, barred, m)))
                < rank(#[trigger] triangle(points, area, kept, j)),
    decreases m,
{
    if m > 0 {
        lemma_least_open_is_least(points, area, kept, barred, m - 1);
        let before = least_open(points, area, kept, barred, m - 1);
        if before == 0 && barred.contains(kept[m]) {
            assert forall|j: int| 1 <= j <= m implies barred.contains(#[trigger] kept[j]) by {
                if j < m {
                    assert(barred.contains(kept[j]));
                }
            }
        }
    }
}

/// An open place among `1..=m` with no smaller triangle at an open place
/// among them and only greater ones at the open places before it is the
/// place that `least_open` names.
pub proof fn lemma_least_open_is_unique(
    points: Seq<Point>,
    area: spec_fn(Point, Point, Point) -> u64,
    kept: Seq<int>,
    barred: Set<int>,
    m: int,
    k: int,
)
    requires
        1 <= k <= m,
        !barred.contains(kept[k]),
        forall|j: int|
            1 <= j <= m && !barred.contains(kept[j]) ==> rank(triangle(points, area, kept, k))
                <= rank(#[trigger] triangle(points, area, kept, j)),
        forall|j: int|
            1 <= j < k && !barred.contains(kept[j]) ==> rank(triangle(points, area, kept, k))
                < rank(#[trigger] triangle(points, area, kept, j)),
    ensures
        least_open(points, area, kept, barred, m) == k,
{
    lemma_least_open_is_least(points, area, kept, barred, m);
    let l = least_open(points, area, kept, barred, m);
    if l == 0 {
        assert(barred.contains(kept[k]));
    } else if l < k {
        assert(rank(triangle(points, area, kept, k)) < rank(triangle(points, area, kept, l)));
        assert(rank(triangle(points, area, kept, l)) <= rank(triangle(points, area, kept, k)));
    } else if k < l {
        assert(rank(triangle(points, area, kept, l)) < rank(triangle(points, area, kept, k)));
        assert(rank(triangle(points, area, kept, k)) <= rank(triangle(points, area, kept, l)));
    }
}

/// With nothing barred, the least open place is the place of the least
/// triangle.
pub proof fn lemma_least_open_of_none_barred(
    points: Seq<Point>,
    area: spec_fn(Point, Point, Point) -> u64,
    kept: Seq<int>,
    m: int,
)
    requires
        1 <= m,
    ensures
        least_open(points, area, kept, Set::empty(), m) == least(points, area, kept, m),
    decreases m,
{
    if m > 1 {
        lemma_least_open_of_none_barred(points, area, kept, m - 1);
        lemma_least_is_least(points, area, kept, m - 1);
    } else {
        assert(least_open(points, area, kept, Set::empty(), 0) == 0);
    }
}

/// Under a condition that permits every removal the simplifier retains
/// what it retains without a condition.
pub proof fn lemma_permissive_is_plain(
    points: Seq<Point>,
    area: spec_fn(Point, Point, Point) -> u64,
    permits: spec_fn(Seq<int>, int) -> bool,
    epsilon: u64,
    kept: Seq<int>,
)
    requires
        forall|retained: Seq<int>, i: int| #[trigger] permits(retained, i),
    ensures
        eliminate_where(points, area, permits, epsilon, kept, Set::empty()) == eliminate(
            points,
            area,
            epsilon,
            kept,
        ),
    decreases kept.len(),
{
    if kept.len() >= 3 {
        lemma_least_open_of_none_barred(points, area, kept, kept.len() - 2);
        let k = least(points, area, kept, kept.len() - 2);
        if 0 < k < kept.len() - 1 && !above(triangle(points, area, kept, k), epsilon) {
            assert(Set::<int>::empty().remove(kept[k - 1]).remove(kept[k + 1]) =~= Set::<
                int,
            >::empty());
            assert(permits(kept, kept[k]));
            lemma_permissive_is_plain(points, area, permits, epsilon, kept.remove(k));
        }
    }
}

/// What the simplifier leaves under a condition keeps the two ends and the
/// order of the polyline.
pub proof fn lemma_eliminate_where_spans(
    points: Seq<Point>,
    area: spec_fn(Point, Point, Point) -> u64,
    permits: spec_fn(Seq<int>, int) -> bool,
    epsilon: u64,
    kept: Seq<int>,
    barred: Set<int>,
)
    requires
        spans(kept, points.len()),
    ensures
        spans(eliminate_where(points, area, permits, epsilon, kept, barred), points.len()),
    decreases kept.len(), open_count(kept, barred, kept.len() - 2),
{
    if kept.len() >= 3 {
        let k = least_open(points, area, kept, barred, kept.len() - 2);
        if 0 < k < kept.len() - 1 && !barred.contains(kept[k]) && !above(
            triangle(points, area, kept, k),
            epsilon,
        ) {
            if permits(kept, kept[k]) {
                lemma_remove_keeps_span(kept, points.len(), k);
                lemma_eliminate_where_spans(
                    points,
                    area,
                    permits,
                    epsilon,
                    kept.remove(k),
                    barred.remove(kept[k - 1]).remove(kept[k + 1]),
                );
            } else {
                lemma_barring_closes(kept, barred, kept.len() - 2, k);
                lemma_eliminate_where_spans(
                    points,
                    area,
                    permits,
                    epsilon,
                    kept,
                    barred.insert(kept[k]),
                );
            }
        }
    }
}

/// Runs the simplifier under a condition and says which positions it
/// retains.
///
/// `area` and the comparison of areas are those of the simplifier without a
/// condition. `permits` is asked, for the table of retained positions and a
/// retained inner position whose turn has come, whether that point may be
/// removed. A refused point is retained for the time being: it is
/// considered again when one of its neighbours has been removed. A polyline
/// of fewer than three points is retained whole.
pub fn simplify_visvalingamp_idx<
    F: Fn(Point, Point, Point) -> u64,
    P: Fn(&AdjacencyTable, usize) -> bool,
>(points: &Vec<Point>, epsilon: u64, area: F, permits: P) -> (result: Result<
    Vec<usize>,
    SimplifyError,
>)
    requires
        answers_all(area),
        answers_inner(permits),
    ensures
        match rejection(points@, epsilon) {
            Some(e) => result == Err::<Vec<usize>, SimplifyError>(e),
            None => result matches Ok(kept) && forall|
                m: spec_fn(Point, Point, Point) -> u64,
                r: spec_fn(Seq<int>, int) -> bool,
            | #[trigger]
                computes(area, m) && #[trigger] decides(permits, r) ==> positions(kept@)
                    == vwp_indices(points@, m, r, epsilon),
        },
        result matches Ok(kept) ==> spans(positions(kept@), points@.len()),
        result matches Ok(kept) ==> points@.len() < 3 ==> positions(kept@) == all_positions(
            points@.len(),
        ),
{
    let n: usize = points.len();
    if n < 3 {
        proof {
            lemma_all_positions_span(n as nat);
        }
        return Ok(every_position(n));
    }
    match screen(points, epsilon) {
        Some(e) => Err(e),
        None => Ok(run(points, epsilon, &area, &permits)),
    }
}

/// Runs the simplifier under a condition and hands back the points it
/// retains.
///
/// `area`, `permits` and the comparison of areas are those of
/// `simplify_visvalingamp_idx`.
pub fn simplify_visvalingamp<
    F: Fn(Point, Point, Point) -> u64,
    P: Fn(&AdjacencyTable, usize) -> bool,
>(points: &Vec<Point>, epsilon: u64, area: F, permits: P) -> (result: Result<
    Vec<Point>,
    SimplifyError,
>)
    requires
        answers_all(area),
        answers_inner(permits),
    ensures
        match rejection(points@, epsilon) {
            Some(e) => result == Err::<Vec<Point>, SimplifyError>(e),
            None => result matches Ok(out) && forall|
                m: spec_fn(Point, Point, Point) -> u64,
                r: spec_fn(Seq<int>, int) -> bool,
            | #[trigger]
                computes(area, m) && #[trigger] decides(permits, r) ==> out@ == vwp_points(
                    points@,
                    m,
                    r,
                    epsilon,
                ),
        },
        result matches Ok(out) ==> points@.len() > 0 ==> out@.len() > 0 && out@[0] == points@[0]
            && out@.last() == points@.last(),
        result matches Ok(out) ==> points@.len() < 3 ==> out@ == points@,
{
    match simplify_visvalingamp_idx(points, epsilon, area, permits) {
        Ok(kept) => {
            let out: Vec<Point> = select(points, &kept).unwrap();
            proof {
                if points@.len() < 3 {
                    assert(out@ =~= points@);
                }
            }
            Ok(out)
        },
        Err(e) => Err(e),
    }
}

} // verus!
