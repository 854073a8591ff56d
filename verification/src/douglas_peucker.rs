//! The Ramer-Douglas-Peucker simplifier: a stretch of the polyline is
//! replaced by its chord unless some point of it deviates from the chord by
//! more than the tolerance; then it is divided at the point that deviates
//! most, and each part is treated in the same way.

use vstd::prelude::*;
use crate::error::{rejection, screen, SimplifyError};
use crate::ieee::{above, exceeds, rank, rank_of};
use crate::measure::{answers_all, computes};
use crate::point::Point;
use crate::select::{all_positions, every_position, gather, increasing, positions, select, spans,
    within};

verus! {

/// How far the point at position `i` lies from the chord between the points
/// at positions `s` and `e`.
pub open spec fn deviation(
    points: Seq<Point>,
    distance: spec_fn(Point, Point, Point) -> u64,
    s: int,
    e: int,
    i: int,
) -> u64 {
    distance(points[i], points[s], points[e])
}

/// The position after `s` and up to `k` that deviates most from the chord
/// between `s` and `e`; of several such positions, the last.
pub open spec fn farthest(
    points: Seq<Point>,
    distance: spec_fn(Point, Point, Point) -> u64,
    s: int,
    e: int,
    k: int,
) -> int
    decreases k - s,
{
    if k <= s + 1 {
        s + 1
    } else {
        let m = farthest(points, distance, s, e, k - 1);
        if rank(deviation(points, distance, s, e, k)) >= rank(
            deviation(points, distance, s, e, m),
        ) {
            k
        } else {
            m
        }
    }
}

/// The positions retained of the stretch from `s` to `e`, both ends
/// included.
pub open spec fn reduce(
    points: Seq<Point>,
    distance: spec_fn(Point, Point, Point) -> u64,
    epsilon: u64,
    s: int,
    e: int,
) -> Seq<int>
    decreases e - s,
{
    if e <= s {
        seq![s]
    } else if e - s < 2 {
        seq![s, e]
    } else {
        let m = farthest(points, distance, s, e, e - 1);
        if s < m < e && above(deviation(points, distance, s, e, m), epsilon) {
            reduce(points, distance, epsilon, s, m) + reduce(
                points,
                distance,
                epsilon,
                m,
                e,
            ).drop_first()
        } else {
            seq![s, e]
        }
    }
}

/// The positions that the simplifier retains of `points`.
pub open spec fn rdp_indices(
    points: Seq<Point>,
    distance: spec_fn(Point, Point, Point) -> u64,
    epsilon: u64,
) -> Seq<int> {
    if points.len() == 0 {
        Seq::empty()
    } else {
        reduce(points, distance, epsilon, 0, points.len() - 1)
    }
}

/// The points that the simplifier retains of `points`.
pub open spec fn rdp_points(
    points: Seq<Point>,
    distance: spec_fn(Point, Point, Point) -> u64,
    epsilon: u64,
) -> Seq<Point> {
    gather(points, rdp_indices(points, distance, epsilon))
}

/// The position that `farthest` names lies after `s` and not after `k`; no
/// position in that range deviates more, and every later one deviates less.
pub proof fn lemma_farthest_is_farthest(
    points: Seq<Point>,
    distance: spec_fn(Point, Point, Point) -> u64,
    s: int,
    e: int,
    k: int,
)
    requires
        s < k,
    ensures
        s < farthest(points, distance, s, e, k) <= k,
        forall|i: int|
            s < i <= k ==> rank(#[trigger] deviation(points, distance, s, e, i)) <= rank(
                deviation(points, distance, s, e, farthest(points, distance, s, e, k)),
            ),
        forall|i: int|
            farthest(points, distance, s, e, k) < i <= k ==> rank(
                #[trigger] deviation(points, distance, s, e, i),
            ) < rank(deviation(points, distance, s, e, farthest(points, distance, s, e, k))),
    decreases k - s,
{
    if k > s + 1 {
        lemma_farthest_is_farthest(points, distance, s, e, k - 1);
    }
}

/// What is retained of a stretch begins with its first position, ends with
/// its last, grows strictly and stays within the stretch.
pub proof fn lemma_reduce_keeps_ends(
    points: Seq<Point>,
    distance: spec_fn(Point, Point, Point) -> u64,
    epsilon: u64,
    s: int,
    e: int,
)
    requires
        s <= e,
    ensures
        reduce(points, distance, epsilon, s, e).len() >= 1,
        s < e ==> reduce(points, distance, epsilon, s, e).len() >= 2,
        reduce(points, distance, epsilon, s, e)[0] == s,
        reduce(points, distance, epsilon, s, e).last() == e,
        increasing(reduce(points, distance, epsilon, s, e)),
        forall|j: int|
            0 <= j < reduce(points, distance, epsilon, s, e).len() ==> s <= #[trigger] reduce(
                points,
                distance,
                epsilon,
                s,
                e,
            )[j] <= e,
    decreases e - s,
{
    if e - s >= 2 {
        let m = farthest(points, distance, s, e, e - 1);
        if s < m < e && above(deviation(points, distance, s, e, m), epsilon) {
            lemma_reduce_keeps_ends(points, distance, epsilon, s, m);
            lemma_reduce_keeps_ends(points, distance, epsilon, m, e);
            let head = reduce(points, distance, epsilon, s, m);
            let tail = reduce(points, distance, epsilon, m, e).drop_first();
            let whole = reduce(points, distance, epsilon, s, e);
            assert(whole == head + tail);
            assert forall|j: int| 0 <= j < whole.len() implies s <= #[trigger] whole[j] <= e by {
                if j >= head.len() {
                    assert(whole[j] == reduce(points, distance, epsilon, m, e)[j - head.len()
                        + 1]);
                }
            }
            assert forall|a: int, b: int| 0 <= a < b < whole.len() implies whole[a] < whole[b] by {
                let full = reduce(points, distance, epsilon, m, e);
                if b < head.len() {
                } else if a >= head.len() {
                    assert(whole[a] == full[a - head.len() + 1]);
                    assert(whole[b] == full[b - head.len() + 1]);
                } else {
                    assert(whole[b] == full[b - head.len() + 1]);
                    assert(full[0] < full[b - head.len() + 1]);
                    assert(head[a] <= m);
                }
            }
        }
    }
}

/// The stretches that are still to be treated, the next one last.
pub open spec fn pending(
    points: Seq<Point>,
    distance: spec_fn(Point, Point, Point) -> u64,
    epsilon: u64,
    stack: Seq<(usize, usize)>,
) -> Seq<int>
    decreases stack.len(),
{
    if stack.len() == 0 {
        Seq::empty()
    } else {
        reduce(
            points,
            distance,
            epsilon,
            stack.last().0 as int,
            stack.last().1 as int,
        ).drop_first() + pending(points, distance, epsilon, stack.drop_last())
    }
}

/// A bound on the number of steps that the stretches on the stack can
/// still take.
pub open spec fn work(stack: Seq<(usize, usize)>) -> int
    decreases stack.len(),
{
    if stack.len() == 0 {
        0
    } else {
        2 * (stack.last().1 - stack.last().0) - 1 + work(stack.drop_last())
    }
}

proof fn lemma_work_is_positive(stack: Seq<(usize, usize)>)
    requires
        forall|i: int| 0 <= i < stack.len() ==> (#[trigger] stack[i]).0 < stack[i].1,
    ensures
        work(stack) >= 0,
        stack.len() > 0 ==> work(stack) > 0,
    decreases stack.len(),
{
    if stack.len() > 0 {
        assert(stack.last().0 < stack.last().1);
        lemma_work_is_positive(stack.drop_last());
    }
}

/// Finds the position strictly between `s` and `e` that deviates most from
/// the chord between them, and its deviation.
fn farthest_between<F: Fn(Point, Point, Point) -> u64>(
    points: &Vec<Point>,
    distance: &F,
    s: usize,
    e: usize,
) -> (found: (usize, u64))
    requires
        answers_all(*distance),
        s + 1 < e < points@.len(),
    ensures
        s < found.0 < e,
        forall|m: spec_fn(Point, Point, Point) -> u64| #[trigger]
            computes(*distance, m) ==> found.0 == farthest(points@, m, s as int, e as int, e - 1)
                && found.1 == deviation(points@, m, s as int, e as int, found.0 as int),
{
    let a: Point = points[s];
    let b: Point = points[e];
    let mut best: usize = s + 1;
    let mut most: u64 = distance(points[best], a, b);
    let mut most_rank: i64 = rank_of(most);
    let mut i: usize = s + 2;
    while i < e
        invariant
            answers_all(*distance),
            s + 1 < e < points@.len(),
            a == points@[s as int],
            b == points@[e as int],
            s + 2 <= i <= e,
            s < best < i,
            most_rank == rank(most),
            forall|m: spec_fn(Point, Point, Point) -> u64| #[trigger]
                computes(*distance, m) ==> best == farthest(
                    points@,
                    m,
                    s as int,
                    e as int,
                    i - 1,
                ) && most == deviation(points@, m, s as int, e as int, best as int),
        decreases e - i,
    {
        let d: u64 = distance(points[i], a, b);
        let r: i64 = rank_of(d);
        if r >= most_rank {
            best = i;
            most = d;
            most_rank = r;
        }
        i = i + 1;
    }
    (best, most)
}

/// Runs the simplifier and says which positions it retains.
///
/// `distance` gives the distance of its first point from the line through
/// its second and third, as the bit pattern of a binary64 value. Distances
/// are compared by rank, so a distance that is no number counts as above
/// every tolerance; of several points at the greatest distance from a chord
/// the last divides it. A polyline of fewer than three points is retained
/// whole.
pub fn simplify_rdp_idx<F: Fn(Point, Point, Point) -> u64>(
    points: &Vec<Point>,
    epsilon: u64,
    distance: F,
) -> (result: Result<Vec<usize>, SimplifyError>)
    requires
        answers_all(distance),
    ensures
        match rejection(points@, epsilon) {
            Some(e) => result == Err::<Vec<usize>, SimplifyError>(e),
            None => result matches Ok(kept) && forall|m: spec_fn(Point, Point, Point) -> u64|
                #[trigger] computes(distance, m) ==> positions(kept@) == rdp_indices(
                    points@,
                    m,
                    epsilon,
                ),
        },
        result matches Ok(kept) ==> spans(positions(kept@), points@.len()),
        result matches Ok(kept) ==> points@.len() < 3 ==> positions(kept@) == all_positions(
            points@.len(),
        ),
{
    let n: usize = points.len();
    if n < 3 {
        let all = every_position(n);
        proof {
            assert forall|m: spec_fn(Point, Point, Point) -> u64| #[trigger]
                computes(distance, m) implies positions(all@) == rdp_indices(
                points@,
                m,
                epsilon,
            ) by {
                assert(rdp_indices(points@, m, epsilon) =~= all_positions(n as nat));
            }
        }
        return Ok(all);
    }
    match screen(points, epsilon) {
        Some(e) => {
            return Err(e);
        },
        None => {},
    }
    let mut kept: Vec<usize> = Vec::new();
    kept.push(0);
    let mut stack: Vec<(usize, usize)> = Vec::new();
    stack.push((0, n - 1));
    proof {
        assert(stack@.drop_last() =~= Seq::<(usize, usize)>::empty());
        assert(stack@.last() == (0usize, (n - 1) as usize));
        assert forall|m: spec_fn(Point, Point, Point) -> u64| #[trigger]
            computes(distance, m) implies positions(kept@) + pending(points@, m, epsilon, stack@)
            == rdp_indices(points@, m, epsilon) by {
            let whole = reduce(points@, m, epsilon, 0, n - 1);
            lemma_reduce_keeps_ends(points@, m, epsilon, 0, n - 1);
            assert(pending(points@, m, epsilon, stack@.drop_last()) =~= Seq::<int>::empty());
            assert(pending(points@, m, epsilon, stack@) =~= whole.drop_first());
            assert(positions(kept@) + whole.drop_first() =~= whole);
        }
    }
    while stack.len() > 0
        invariant
            n == points@.len(),
            n >= 3,
            answers_all(distance),
            kept@.len() >= 1,
            kept@[0] == 0,
            forall|i: int| 0 <= i < stack@.len() ==> (#[trigger] stack@[i]).0 < stack@[i].1 < n,
            stack@.len() == 0 ==> kept@.last() == n - 1,
            forall|j: int, k: int| 0 <= j < k < kept@.len() ==> kept@[j] < kept@[k],
            forall|j: int| 0 <= j < kept@.len() ==> kept@[j] <= if stack@.len() > 0 {
                stack@.last().0
            } else {
                (n - 1) as usize
            },
            stack@.len() > 0 ==> kept@.last() == stack@.last().0 && stack@[0].1 == n - 1,
            forall|i: int| 0 < i < stack@.len() ==> (#[trigger] stack@[i]).1 == stack@[i - 1].0,
            forall|m: spec_fn(Point, Point, Point) -> u64| #[trigger]
                computes(distance, m) ==> positions(kept@) + pending(
                    points@,
                    m,
                    epsilon,
                    stack@,
                ) == rdp_indices(points@, m, epsilon),
        decreases work(stack@),
    {
        let ghost before = stack@;
        let ghost rest = stack@.drop_last();
        let ghost done = positions(kept@);
        proof {
            lemma_work_is_positive(before);
            lemma_work_is_positive(rest);
        }
        let (s, e): (usize, usize) = stack.pop().unwrap();
        assert(stack@ =~= rest);
        assert((s, e) == before.last());
        let mut divide: Option<usize> = None;
        if e - s >= 2 {
            let (at, d): (usize, u64) = farthest_between(points, &distance, s, e);
            if exceeds(d, epsilon) {
                divide = Some(at);
            }
        }
        match divide {
            Some(at) => {
                stack.push((at, e));
                let ghost lower = stack@;
                stack.push((s, at));
                proof {
                    assert(lower.drop_last() =~= rest);
                    assert(stack@.drop_last() =~= lower);
                    assert(work(lower) == 2 * (e - at) - 1 + work(rest));
                    assert(work(stack@) == 2 * (at - s) - 1 + work(lower));
                    assert forall|m: spec_fn(Point, Point, Point) -> u64| #[trigger]
                        computes(distance, m) implies positions(kept@) + pending(
                        points@,
                        m,
                        epsilon,
                        stack@,
                    ) == rdp_indices(points@, m, epsilon) by {
                        let stretch = reduce(points@, m, epsilon, s as int, e as int);
                        let head = reduce(points@, m, epsilon, s as int, at as int);
                        let tail = reduce(points@, m, epsilon, at as int, e as int);
                        lemma_reduce_keeps_ends(points@, m, epsilon, s as int, at as int);
                        lemma_reduce_keeps_ends(points@, m, epsilon, at as int, e as int);
                        assert(stretch == head + tail.drop_first());
                        assert(stretch.drop_first() =~= head.drop_first() + tail.drop_first());
                        assert(pending(points@, m, epsilon, lower) == tail.drop_first() + pending(
                            points@,
                            m,
                            epsilon,
                            rest,
                        ));
                        assert(pending(points@, m, epsilon, stack@) == head.drop_first() + pending(
                            points@,
                            m,
                            epsilon,
                            lower,
                        ));
                        assert(pending(points@, m, epsilon, stack@) =~= pending(
                            points@,
                            m,
                            epsilon,
                            before,
                        ));
                    }
                }
            },
            None => {
                kept.push(e);
                proof {
                    assert forall|m: spec_fn(Point, Point, Point) -> u64| #[trigger]
                        computes(distance, m) implies positions(kept@) + pending(
                        points@,
                        m,
                        epsilon,
                        stack@,
                    ) == rdp_indices(points@, m, epsilon) by {
                        let stretch = reduce(points@, m, epsilon, s as int, e as int);
                        assert(stretch =~= seq![s as int, e as int]);
                        assert(positions(kept@) =~= done + stretch.drop_first());
                        assert(positions(kept@) + pending(points@, m, epsilon, rest) =~= done
                            + pending(points@, m, epsilon, before));
                    }
                }
            },
        }
    }
    proof {
        assert forall|m: spec_fn(Point, Point, Point) -> u64| #[trigger]
            computes(distance, m) implies positions(kept@) == rdp_indices(points@, m, epsilon) by {
            assert(pending(points@, m, epsilon, stack@) =~= Seq::<int>::empty());
            assert(positions(kept@) =~= positions(kept@) + Seq::<int>::empty());
        }
    }
    Ok(kept)
}

/// Runs the simplifier and hands back the points it retains.
///
/// `distance` and the comparison of distances are those of
/// `simplify_rdp_idx`.
pub fn simplify_rdp<F: Fn(Point, Point, Point) -> u64>(
    points: &Vec<Point>,
    epsilon: u64,
    distance: F,
) -> (result: Result<Vec<Point>, SimplifyError>)
    requires
        answers_all(distance),
    ensures
        match rejection(points@, epsilon) {
            Some(e) => result == Err::<Vec<Point>, SimplifyError>(e),
            None => result matches Ok(out) && forall|m: spec_fn(Point, Point, Point) -> u64|
                #[trigger] computes(distance, m) ==> out@ == rdp_points(points@, m, epsilon),
        },
        result matches Ok(out) ==> points@.len() > 0 ==> out@.len() > 0 && out@[0] == points@[0]
            && out@.last() == points@.last(),
        result matches Ok(out) ==> points@.len() < 3 ==> out@ == points@,
{
    match simplify_rdp_idx(points, epsilon, distance) {
        Ok(kept) => {
            let out: Vec<Point> = select(points, &kept).unwrap();
            proof {
                if points@.len() < 3 {
                    assert(out@ =~= points@);
                }
            }
            Ok(out)
        },
        Err(e) => Err(e),
    }
}

/// A position after `s` and not after `k` from which no position in that
/// range deviates more and every later one deviates less is the position
/// that `farthest` names.
pub proof fn lemma_farthest_is_unique(
    points: Seq<Point>,
    distance: spec_fn(Point, Point, Point) -> u64,
    s: int,
    e: int,
    k: int,
    m: int,
)
    requires
        s < m <= k,
        forall|i: int|
            s < i <= k ==> rank(#[trigger] deviation(points, distance, s, e, i)) <= rank(
                deviation(points, distance, s, e, m),
            ),
        forall|i: int|
            m < i <= k ==> rank(#[trigger] deviation(points, distance, s, e, i)) < rank(
                deviation(points, distance, s, e, m),
            ),
    ensures
        farthest(points, distance, s, e, k) == m,
{
    lemma_farthest_is_farthest(points, distance, s, e, k);
    let f = farthest(points, distance, s, e, k);
    if f < m {
        assert(rank(deviation(points, distance, s, e, m)) < rank(
            deviation(points, distance, s, e, f),
        ));
        assert(rank(deviation(points, distance, s, e, f)) <= rank(
            deviation(points, distance, s, e, m),
        ));
    } else if m < f {
        assert(rank(deviation(points, distance, s, e, f)) < rank(
            deviation(points, distance, s, e, m),
        ));
        assert(rank(deviation(points, distance, s, e, m)) <= rank(
            deviation(points, distance, s, e, f),
        ));
    }
}

/// The positions `a, a + 1, .., a + n - 1`.
pub open spec fn run(a: int, n: nat) -> Seq<int> {
    Seq::new(n, |j: int| a + j)
}

/// Where the points retained of a stretch stand side by side in another
/// polyline, the simplifier retains every one of them there.
pub proof fn lemma_reduce_again(
    points: Seq<Point>,
    distance: spec_fn(Point, Point, Point) -> u64,
    epsilon: u64,
    s: int,
    e: int,
    again: Seq<Point>,
    a: int,
)
    requires
        0 <= s <= e < points.len(),
        0 <= a,
        a + reduce(points, distance, epsilon, s, e).len() <= again.len(),
        forall|j: int|
            0 <= j < reduce(points, distance, epsilon, s, e).len() ==> #[trigger] again[a + j]
                == points[reduce(points, distance, epsilon, s, e)[j]],
    ensures
        reduce(
            again,
            distance,
            epsilon,
            a,
            a + reduce(points, distance, epsilon, s, e).len() - 1,
        ) == run(a, reduce(points, distance, epsilon, s, e).len()),
    decreases e - s,
{
    let kept = reduce(points, distance, epsilon, s, e);
    let b = a + kept.len() - 1;
    lemma_reduce_keeps_ends(points, distance, epsilon, s, e);
    if e <= s {
        assert(reduce(again, distance, epsilon, a, b) =~= run(a, kept.len()));
    } else if e - s < 2 {
        assert(reduce(again, distance, epsilon, a, b) =~= run(a, kept.len()));
    } else {
        let m = farthest(points, distance, s, e, e - 1);
        lemma_farthest_is_farthest(points, distance, s, e, e - 1);
        if above(deviation(points, distance, s, e, m), epsilon) {
            let head = reduce(points, distance, epsilon, s, m);
            let tail = reduce(points, distance, epsilon, m, e);
            lemma_reduce_keeps_ends(points, distance, epsilon, s, m);
            lemma_reduce_keeps_ends(points, distance, epsilon, m, e);
            assert(kept == head + tail.drop_first());
            let mid = a + head.len() - 1;
            assert(again[a + 0] == points[kept[0]]);
            assert(again[a + (kept.len() - 1)] == points[kept[kept.len() - 1]]);
            assert(kept[head.len() - 1] == m);
            assert forall|i: int| a < i <= b - 1 implies deviation(again, distance, a, b, i)
                == deviation(points, distance, s, e, kept[i - a]) && s < kept[i - a] < e by {
                assert(again[a + (i - a)] == points[kept[i - a]]);
                assert(kept[0] < kept[i - a]);
                assert(kept[i - a] < kept[kept.len() - 1]);
            }
            assert forall|i: int| a < i <= b - 1 implies rank(
                #[trigger] deviation(again, distance, a, b, i),
            ) <= rank(deviation(again, distance, a, b, mid)) by {
                assert(deviation(again, distance, a, b, i) == deviation(
                    points,
                    distance,
                    s,
                    e,
                    kept[i - a],
                ));
            }
            assert forall|i: int| mid < i <= b - 1 implies rank(
                #[trigger] deviation(again, distance, a, b, i),
            ) < rank(deviation(again, distance, a, b, mid)) by {
                assert(deviation(again, distance, a, b, i) == deviation(
                    points,
                    distance,
                    s,
                    e,
                    kept[i - a],
                ));
                assert(kept[head.len() - 1] < kept[i - a]);
            }
            lemma_farthest_is_unique(again, distance, a, b, b - 1, mid);
            assert forall|j: int| 0 <= j < head.len() implies #[trigger] again[a + j]
                == points[head[j]] by {
                assert(kept[j] == head[j]);
            }
            lemma_reduce_again(points, distance, epsilon, s, m, again, a);
            assert forall|j: int| 0 <= j < tail.len() implies #[trigger] again[mid + j]
                == points[tail[j]] by {
                assert(again[a + (head.len() - 1 + j)] == points[kept[head.len() - 1 + j]]);
                if j > 0 {
                    assert(kept[head.len() - 1 + j] == tail.drop_first()[j - 1]);
                }
            }
            lemma_reduce_again(points, distance, epsilon, m, e, again, mid);
            assert(mid + tail.len() - 1 == b);
            assert(reduce(again, distance, epsilon, a, b) == reduce(
                again,
                distance,
                epsilon,
                a,
                mid,
            ) + reduce(again, distance, epsilon, mid, b).drop_first());
            assert(run(a, head.len()) + run(mid, tail.len()).drop_first() =~= run(
                a,
                kept.len(),
            ));
        } else {
            assert(kept =~= seq![s, e]);
            assert(reduce(again, distance, epsilon, a, b) =~= run(a, kept.len()));
        }
    }
}

/// Simplifying what the simplifier returned, with the same tolerance,
/// changes nothing: the result is accepted and comes back as it is.
pub proof fn lemma_rdp_is_idempotent(
    points: Seq<Point>,
    distance: spec_fn(Point, Point, Point) -> u64,
    epsilon: u64,
)
    ensures
        rdp_points(rdp_points(points, distance, epsilon), distance, epsilon) == rdp_points(
            points,
            distance,
            epsilon,
        ),
        rejection(points, epsilon) is None ==> rejection(
            rdp_points(points, distance, epsilon),
            epsilon,
        ) is None,
{
    let kept = rdp_indices(points, distance, epsilon);
    let again = rdp_points(points, distance, epsilon);
    if points.len() > 0 {
        lemma_reduce_keeps_ends(points, distance, epsilon, 0, points.len() - 1);
        assert forall|j: int| 0 <= j < kept.len() implies #[trigger] again[0 + j]
            == points[kept[j]] by {}
        lemma_reduce_again(points, distance, epsilon, 0, points.len() - 1, again, 0);
        assert(rdp_indices(again, distance, epsilon) =~= all_positions(again.len()));
    }
    assert(rdp_points(again, distance, epsilon) =~= again);
    if rejection(points, epsilon) is None && again.len() >= 3 {
        assert(kept.len() >= 3);
        assert(points.len() >= 3) by {
            if points.len() < 3 {
                assert(kept =~= all_positions(points.len()));
            }
        }
        assert forall|i: int| 0 <= i < again.len() implies (#[trigger] again[i]).finite() by {
            assert(0 <= kept[i] < points.len());
            assert(points[kept[i]].finite());
        }
    }
}

/// A greater tolerance retains no more points.
pub proof fn lemma_reduce_is_monotonic(
    points: Seq<Point>,
    distance: spec_fn(Point, Point, Point) -> u64,
    smaller: u64,
    greater: u64,
    s: int,
    e: int,
)
    requires
        rank(smaller) <= rank(greater),
        s <= e,
    ensures
        reduce(points, distance, greater, s, e).len() <= reduce(
            points,
            distance,
            smaller,
            s,
            e,
        ).len(),
    decreases e - s,
{
    if e - s >= 2 {
        let m = farthest(points, distance, s, e, e - 1);
        lemma_reduce_keeps_ends(points, distance, smaller, s, e);
        if s < m < e && above(deviation(points, distance, s, e, m), greater) {
            lemma_reduce_is_monotonic(points, distance, smaller, greater, s, m);
            lemma_reduce_is_monotonic(points, distance, smaller, greater, m, e);
            lemma_reduce_keeps_ends(points, distance, smaller, m, e);
            lemma_reduce_keeps_ends(points, distance, greater, m, e);
        }
    }
}

/// For one polyline, the number of retained points does not grow as the
/// tolerance grows.
pub proof fn lemma_rdp_is_monotonic(
    points: Seq<Point>,
    distance: spec_fn(Point, Point, Point) -> u64,
    smaller: u64,
    greater: u64,
)
    requires
        rank(smaller) <= rank(greater),
    ensures
        rdp_points(points, distance, greater).len() <= rdp_points(
            points,
            distance,
            smaller,
        ).len(),
        rdp_indices(points, distance, greater).len() <= rdp_indices(
            points,
            distance,
            smaller,
        ).len(),
{
    if points.len() > 0 {
        lemma_reduce_is_monotonic(points, distance, smaller, greater, 0, points.len() - 1);
    }
}

/// The two forms of the simplifier agree: the points that one returns are
/// the points found at the positions that the other returns, in the same
/// order.
pub proof fn lemma_rdp_points_stand_at_indices(
    points: Seq<Point>,
    distance: spec_fn(Point, Point, Point) -> u64,
    epsilon: u64,
    kept: Seq<usize>,
    out: Seq<Point>,
)
    requires
        positions(kept) == rdp_indices(points, distance, epsilon),
        out == rdp_points(points, distance, epsilon),
    ensures
        out == gather(points, positions(kept)),
        out.len() == kept.len(),
        forall|k: int| 0 <= k < kept.len() ==> #[trigger] out[k] == points[kept[k] as int],
{
}

} // verus!
