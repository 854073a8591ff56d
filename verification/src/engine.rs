//! The engine of the Visvalingam-Whyatt simplifiers: a queue of candidates
//! ordered by area, an adjacency table, and lazy invalidation. A candidate
//! that no longer names the present neighbours of its point is dropped when
//! it is popped; nothing is ever taken out of the middle of the queue.

use vstd::prelude::*;
use vstd::multiset::Multiset;
use crate::adjacency::{link, AdjacencyTable};
use crate::ieee::{exceeds, rank};
use crate::measure::{answers_all, computes};
use crate::point::Point;
use crate::preserve::{answers_inner, decides, eliminate_where, least_open,
    lemma_least_open_is_least, lemma_least_open_is_unique, vwp_indices};
use crate::queue::{Candidate, CandidateQueue};
use crate::select::{all_positions, lemma_place_is_unique, positions, spans};
use crate::visvalingam::triangle;

verus! {

/// The candidate that stands for the retained point at place `k`.
pub open spec fn candidate_at(
    points: Seq<Point>,
    area: spec_fn(Point, Point, Point) -> u64,
    kept: Seq<int>,
    k: int,
) -> Candidate {
    Candidate {
        area: triangle(points, area, kept, k),
        current: kept[k] as usize,
        left: kept[k - 1] as usize,
        right: kept[k + 1] as usize,
    }
}

/// Whether the queue holds, for every retained inner point, the candidate
/// made of its present neighbours: once if the point is not barred, and not
/// at all if it is.
pub open spec fn covers(
    queue: Multiset<Candidate>,
    points: Seq<Point>,
    area: spec_fn(Point, Point, Point) -> u64,
    kept: Seq<int>,
    barred: Set<int>,
) -> bool {
    forall|k: int|
        0 < k < kept.len() - 1 ==> queue.count(#[trigger] candidate_at(points, area, kept, k))
            == if barred.contains(kept[k]) {
            0nat
        } else {
            1nat
        }
}

/// Whether every candidate in the queue names three positions in growing
/// order and carries the area of the triangle of the points there.
pub open spec fn sound(
    queue: Multiset<Candidate>,
    points: Seq<Point>,
    area: spec_fn(Point, Point, Point) -> u64,
) -> bool {
    forall|c: Candidate| #[trigger]
        queue.contains(c) ==> c.left < c.current < c.right < points.len() && c.area == area(
            points[c.left as int],
            points[c.current as int],
            points[c.right as int],
        )
}

/// Whether every candidate in the queue for a retained inner point names
/// neighbours no farther from it than the present ones.
pub open spec fn narrow(queue: Multiset<Candidate>, kept: Seq<int>) -> bool {
    forall|c: Candidate, j: int| #[trigger]
        queue.contains(c) && 0 < j < kept.len() - 1 && #[trigger] kept[j] == c.current
            ==> kept[j - 1] <= c.left && c.right <= kept[j + 1]
}

/// The invariant of the engine.
pub open spec fn tracks(
    queue: Multiset<Candidate>,
    points: Seq<Point>,
    area: spec_fn(Point, Point, Point) -> u64,
    kept: Seq<int>,
    barred: Set<int>,
) -> bool {
    &&& covers(queue, points, area, kept, barred)
    &&& sound(queue, points, area)
    &&& narrow(queue, kept)
}

/// Whether the candidate is the one made of the present neighbours of a
/// retained point.
pub open spec fn current_in(kept: Seq<int>, c: Candidate) -> bool {
    &&& kept.contains(c.current as int)
    &&& link(kept, kept.index_of(c.current as int) - 1) == Some(c.left)
    &&& link(kept, kept.index_of(c.current as int) + 1) == Some(c.right)
}

/// Whether the queue holds the candidates of the places `1..i` of the
/// polyline as it is given, each once, and nothing else.
pub open spec fn seeded(
    queue: Multiset<Candidate>,
    points: Seq<Point>,
    area: spec_fn(Point, Point, Point) -> u64,
    i: int,
) -> bool {
    &&& forall|x: Candidate| #[trigger]
        queue.contains(x) ==> 0 < x.current < i && x == candidate_at(
            points,
            area,
            all_positions(points.len()),
            x.current as int,
        )
    &&& forall|k: int|
        0 < k < i ==> queue.count(
            #[trigger] candidate_at(points, area, all_positions(points.len()), k),
        ) == 1
}

/// Pushing the candidate of place `i` seeds one place more.
proof fn lemma_seeded_after_push(
    queue: Multiset<Candidate>,
    points: Seq<Point>,
    area: spec_fn(Point, Point, Point) -> u64,
    i: int,
)
    requires
        seeded(queue, points, area, i),
        0 < i < points.len() - 1,
        points.len() <= usize::MAX,
    ensures
        seeded(
            queue.insert(candidate_at(points, area, all_positions(points.len()), i)),
            points,
            area,
            i + 1,
        ),
{
    broadcast use vstd::multiset::group_multiset_axioms;

    let all = all_positions(points.len());
    let c = candidate_at(points, area, all, i);
    let more = queue.insert(c);
    assert(!queue.contains(c));
    assert forall|x: Candidate| #[trigger] more.contains(x) implies 0 < x.current < i + 1 && x
        == candidate_at(points, area, all, x.current as int) by {
        if x != c {
            assert(queue.contains(x));
        }
    }
    assert forall|k: int| 0 < k < i + 1 implies more.count(
        #[trigger] candidate_at(points, area, all, k),
    ) == 1 by {
        if k < i {
            assert(queue.count(candidate_at(points, area, all, k)) == 1);
            assert(candidate_at(points, area, all, k) != c);
        }
    }
}

/// A queue seeded with every inner place satisfies the invariant of the
/// engine for the polyline as it is given, with nothing barred.
proof fn lemma_seeded_tracks(
    queue: Multiset<Candidate>,
    points: Seq<Point>,
    area: spec_fn(Point, Point, Point) -> u64,
)
    requires
        seeded(queue, points, area, points.len() - 1),
        points.len() <= usize::MAX,
    ensures
        tracks(queue, points, area, all_positions(points.len()), Set::empty()),
{
    let all = all_positions(points.len());
    assert forall|x: Candidate| #[trigger] queue.contains(x) implies x.left < x.current < x.right
        < points.len() && x.area == area(
        points[x.left as int],
        points[x.current as int],
        points[x.right as int],
    ) by {
        assert(x == candidate_at(points, area, all, x.current as int));
    }
    assert forall|x: Candidate, j: int| #[trigger]
        queue.contains(x) && 0 < j < all.len() - 1 && #[trigger] all[j]
            == x.current implies all[j - 1] <= x.left && x.right <= all[j + 1] by {
        assert(x == candidate_at(points, area, all, x.current as int));
    }
}

/// Fills the queue with the candidates of the polyline as it is given.
fn first_candidates<F: Fn(Point, Point, Point) -> u64>(points: &Vec<Point>, area: &F) -> (queue:
    CandidateQueue)
    requires
        answers_all(*area),
        points@.len() >= 3,
    ensures
        queue.wf(),
        forall|m: spec_fn(Point, Point, Point) -> u64| #[trigger]
            computes(*area, m) ==> tracks(
                queue@,
                points@,
                m,
                all_positions(points@.len()),
                Set::empty(),
            ),
{
    let n: usize = points.len();
    let mut queue = CandidateQueue::new();
    let mut i: usize = 1;
    while i < n - 1
        invariant
            n == points@.len(),
            n >= 3,
            1 <= i <= n - 1,
            answers_all(*area),
            queue.wf(),
            forall|m: spec_fn(Point, Point, Point) -> u64| #[trigger]
                computes(*area, m) ==> seeded(queue@, points@, m, i as int),
        decreases n - i,
    {
        let a: u64 = area(points[i - 1], points[i], points[i + 1]);
        let c = Candidate { area: a, current: i, left: i - 1, right: i + 1 };
        let ghost earlier = queue@;
        queue.push(c);
        proof {
            assert forall|m: spec_fn(Point, Point, Point) -> u64| #[trigger]
                computes(*area, m) implies seeded(queue@, points@, m, i + 1) by {
                assert(c == candidate_at(points@, m, all_positions(points@.len()), i as int));
                lemma_seeded_after_push(earlier, points@, m, i as int);
            }
        }
        i = i + 1;
    }
    proof {
        assert forall|m: spec_fn(Point, Point, Point) -> u64| #[trigger]
            computes(*area, m) implies tracks(
            queue@,
            points@,
            m,
            all_positions(points@.len()),
            Set::empty(),
        ) by {
            lemma_seeded_tracks(queue@, points@, m);
        }
    }
    queue
}

/// A candidate made of the present neighbours of its point stands at an
/// inner place.
proof fn lemma_linked_is_inner(kept: Seq<int>, n: nat, c: Candidate)
    requires
        spans(kept, n),
        n <= usize::MAX,
        current_in(kept, c),
    ensures
        0 < kept.index_of(c.current as int) < kept.len() - 1,
        kept[kept.index_of(c.current as int)] == c.current,
        kept[kept.index_of(c.current as int) - 1] == c.left,
        kept[kept.index_of(c.current as int) + 1] == c.right,
{
    let k = kept.index_of(c.current as int);
    assert(0 <= kept[k - 1] < n);
    assert(0 <= kept[k + 1] < n);
}

/// A candidate of present neighbours that comes first in the queue stands
/// at the least open place.
proof fn lemma_first_is_least_open(
    points: Seq<Point>,
    area: spec_fn(Point, Point, Point) -> u64,
    kept: Seq<int>,
    barred: Set<int>,
    waiting: Multiset<Candidate>,
    c: Candidate,
)
    requires
        spans(kept, points.len()),
        points.len() <= usize::MAX,
        tracks(waiting, points, area, kept, barred),
        waiting.contains(c),
        forall|x: Candidate| #[trigger] waiting.contains(x) ==> c.before(x),
        current_in(kept, c),
    ensures
        0 < kept.index_of(c.current as int) < kept.len() - 1,
        kept[kept.index_of(c.current as int)] == c.current,
        c == candidate_at(points, area, kept, kept.index_of(c.current as int)),
        !barred.contains(c.current as int),
        least_open(points, area, kept, barred, kept.len() - 2) == kept.index_of(c.current as int),
{
    let k = kept.index_of(c.current as int);
    assert(0 <= kept[k - 1] < points.len());
    assert(0 <= kept[k + 1] < points.len());
    assert(c == candidate_at(points, area, kept, k));
    assert(waiting.count(candidate_at(points, area, kept, k)) > 0);
    assert forall|j: int|
        1 <= j <= kept.len() - 2 && !barred.contains(kept[j]) implies rank(
        triangle(points, area, kept, k),
    ) <= rank(#[trigger] triangle(points, area, kept, j)) by {
        assert(waiting.count(candidate_at(points, area, kept, j)) == 1);
        assert(waiting.contains(candidate_at(points, area, kept, j)));
    }
    assert forall|j: int| 1 <= j < k && !barred.contains(kept[j]) implies rank(
        triangle(points, area, kept, k),
    ) < rank(#[trigger] triangle(points, area, kept, j)) by {
        assert(waiting.count(candidate_at(points, area, kept, j)) == 1);
        assert(waiting.contains(candidate_at(points, area, kept, j)));
        assert(c.before(candidate_at(points, area, kept, j)));
        assert(0 <= kept[j] < kept[k] < points.len());
    }
    lemma_least_open_is_unique(points, area, kept, barred, kept.len() - 2, k);
}

/// With an empty queue every retained inner point is barred.
proof fn lemma_nothing_waits(
    points: Seq<Point>,
    area: spec_fn(Point, Point, Point) -> u64,
    kept: Seq<int>,
    barred: Set<int>,
    waiting: Multiset<Candidate>,
)
    requires
        tracks(waiting, points, area, kept, barred),
        waiting.len() == 0,
    ensures
        least_open(points, area, kept, barred, kept.len() - 2) == 0 || kept.len() < 3,
{
    broadcast use vstd::multiset::group_multiset_axioms;

    lemma_least_open_is_least(points, area, kept, barred, kept.len() - 2);
    assert forall|j: int| 1 <= j <= kept.len() - 2 implies barred.contains(#[trigger] kept[j]) by {
        let x = candidate_at(points, area, kept, j);
        if !barred.contains(kept[j]) {
            assert(waiting.count(x) == 1);
            assert(waiting.contains(x));
            assert(waiting.len() > 0);
        }
    }
}

/// Dropping a candidate that is not made of present neighbours changes
/// nothing for those that are.
proof fn lemma_tracks_after_discard(
    points: Seq<Point>,
    area: spec_fn(Point, Point, Point) -> u64,
    kept: Seq<int>,
    barred: Set<int>,
    waiting: Multiset<Candidate>,
    c: Candidate,
)
    requires
        spans(kept, points.len()),
        points.len() <= usize::MAX,
        tracks(waiting, points, area, kept, barred),
        waiting.contains(c),
        !current_in(kept, c),
    ensures
        tracks(waiting.remove(c), points, area, kept, barred),
{
    broadcast use vstd::multiset::group_multiset_axioms;

    let rest = waiting.remove(c);
    assert forall|k: int| 0 < k < kept.len() - 1 implies rest.count(
        #[trigger] candidate_at(points, area, kept, k),
    ) == if barred.contains(kept[k]) {
        0nat
    } else {
        1nat
    } by {
        let x = candidate_at(points, area, kept, k);
        lemma_place_is_unique(kept, k);
        assert(0 <= kept[k - 1] < points.len());
        assert(0 <= kept[k] < points.len());
        assert(0 <= kept[k + 1] < points.len());
        assert(current_in(kept, x));
        assert(x != c);
    }
    assert forall|x: Candidate| #[trigger] rest.contains(x) implies waiting.contains(x) by {}
}

/// Barring the point of the first candidate, which has just left the
/// queue, keeps the invariant.
proof fn lemma_tracks_after_refusal(
    points: Seq<Point>,
    area: spec_fn(Point, Point, Point) -> u64,
    kept: Seq<int>,
    barred: Set<int>,
    waiting: Multiset<Candidate>,
    c: Candidate,
)
    requires
        spans(kept, points.len()),
        points.len() <= usize::MAX,
        tracks(waiting, points, area, kept, barred),
        waiting.contains(c),
        0 < kept.index_of(c.current as int) < kept.len() - 1,
        kept[kept.index_of(c.current as int)] == c.current,
        c == candidate_at(points, area, kept, kept.index_of(c.current as int)),
        !barred.contains(c.current as int),
    ensures
        tracks(waiting.remove(c), points, area, kept, barred.insert(c.current as int)),
{
    broadcast use vstd::multiset::group_multiset_axioms;

    let k = kept.index_of(c.current as int);
    let rest = waiting.remove(c);
    let more = barred.insert(c.current as int);
    assert(waiting.count(c) == 1);
    assert forall|j: int| 0 < j < kept.len() - 1 implies rest.count(
        #[trigger] candidate_at(points, area, kept, j),
    ) == if more.contains(kept[j]) {
        0nat
    } else {
        1nat
    } by {
        let x = candidate_at(points, area, kept, j);
        assert(0 <= kept[j] < points.len());
        if j < k {
            assert(kept[j] < kept[k]);
            assert(x != c);
        } else if j > k {
            assert(kept[k] < kept[j]);
            assert(x != c);
        }
    }
    assert forall|x: Candidate| #[trigger] rest.contains(x) implies waiting.contains(x) by {}
}

/// The queue after the point of the first candidate has been removed and
/// the candidates of its two neighbours have been pushed.
pub open spec fn refilled(
    points: Seq<Point>,
    area: spec_fn(Point, Point, Point) -> u64,
    kept: Seq<int>,
    waiting: Multiset<Candidate>,
    c: Candidate,
) -> Multiset<Candidate> {
    let k = kept.index_of(c.current as int);
    let rest = waiting.remove(c);
    let with_left = if k - 1 > 0 {
        rest.insert(candidate_at(points, area, kept.remove(k), k - 1))
    } else {
        rest
    };
    if k < kept.len() - 2 {
        with_left.insert(candidate_at(points, area, kept.remove(k), k))
    } else {
        with_left
    }
}

/// Taking place `k` out of `kept` moves every later place down by one.
proof fn lemma_places_after_removal(kept: Seq<int>, n: nat, k: int)
    requires
        spans(kept, n),
        0 < k < kept.len() - 1,
    ensures
        forall|j: int|
            0 <= j < kept.remove(k).len() ==> 0 <= #[trigger] kept.remove(k)[j] < n
                && kept.remove(k)[j] == kept[if j < k {
                j
            } else {
                j + 1
            }],
{
    let fewer = kept.remove(k);
    assert forall|j: int| 0 <= j < fewer.len() implies 0 <= #[trigger] fewer[j] < n && fewer[j]
        == kept[if j < k {
        j
    } else {
        j + 1
    }] by {
        let j0 = if j < k { j } else { j + 1 };
        assert(0 <= kept[j0] < n);
    }
}

/// Neither of the two candidates that are pushed after a removal is in the
/// queue before.
proof fn lemma_new_candidates_are_new(
    points: Seq<Point>,
    area: spec_fn(Point, Point, Point) -> u64,
    kept: Seq<int>,
    barred: Set<int>,
    waiting: Multiset<Candidate>,
    c: Candidate,
)
    requires
        spans(kept, points.len()),
        points.len() <= usize::MAX,
        tracks(waiting, points, area, kept, barred),
        waiting.contains(c),
        0 < kept.index_of(c.current as int) < kept.len() - 1,
        kept[kept.index_of(c.current as int)] == c.current,
        c == candidate_at(points, area, kept, kept.index_of(c.current as int)),
    ensures
        ({
            let k = kept.index_of(c.current as int);
            let rest = waiting.remove(c);
            &&& k - 1 > 0 ==> rest.count(candidate_at(points, area, kept.remove(k), k - 1)) == 0
            &&& k < kept.len() - 2 ==> rest.count(candidate_at(points, area, kept.remove(k), k))
                == 0
            &&& candidate_at(points, area, kept.remove(k), k - 1).current == kept[k - 1]
            &&& candidate_at(points, area, kept.remove(k), k).current == kept[k + 1]
        }),
{
    broadcast use vstd::multiset::group_multiset_axioms;

    let k = kept.index_of(c.current as int);
    let fewer = kept.remove(k);
    let rest = waiting.remove(c);
    let on_left = candidate_at(points, area, fewer, k - 1);
    let on_right = candidate_at(points, area, fewer, k);
    lemma_places_after_removal(kept, points.len(), k);
    assert(fewer[k - 1] == kept[k - 1]);
    assert(fewer[k] == kept[k + 1]);
    assert(kept[k - 1] < kept[k] < kept[k + 1]);
    assert(0 <= kept[k - 1] && kept[k + 1] < points.len());
    if k - 1 > 0 {
        assert(fewer[k - 2] == kept[k - 2]);
        if waiting.contains(on_left) {
            assert(kept[k - 1] == on_left.current);
            assert(on_left.right <= kept[k]);
        }
        assert(waiting.count(on_left) == 0);
    }
    if k < kept.len() - 2 {
        assert(fewer[k + 1] == kept[k + 2]);
        if waiting.contains(on_right) {
            assert(kept[k + 1] == on_right.current);
            assert(kept[k] <= on_right.left);
        }
        assert(waiting.count(on_right) == 0);
    }
}

/// After a removal the queue again holds each open candidate once and no
/// barred one.
proof fn lemma_covers_after_removal(
    points: Seq<Point>,
    area: spec_fn(Point, Point, Point) -> u64,
    kept: Seq<int>,
    barred: Set<int>,
    waiting: Multiset<Candidate>,
    c: Candidate,
)
    requires
        spans(kept, points.len()),
        points.len() <= usize::MAX,
        tracks(waiting, points, area, kept, barred),
        waiting.contains(c),
        0 < kept.index_of(c.current as int) < kept.len() - 1,
        kept[kept.index_of(c.current as int)] == c.current,
        c == candidate_at(points, area, kept, kept.index_of(c.current as int)),
    ensures
        covers(
            refilled(points, area, kept, waiting, c),
            points,
            area,
            kept.remove(kept.index_of(c.current as int)),
            barred.remove(kept[kept.index_of(c.current as int) - 1]).remove(
                kept[kept.index_of(c.current as int) + 1],
            ),
        ),
{
    broadcast use vstd::multiset::group_multiset_axioms;

    let k = kept.index_of(c.current as int);
    let fewer = kept.remove(k);
    let rest = waiting.remove(c);
    let after = refilled(points, area, kept, waiting, c);
    let fewer_barred = barred.remove(kept[k - 1]).remove(kept[k + 1]);
    let on_left = candidate_at(points, area, fewer, k - 1);
    let on_right = candidate_at(points, area, fewer, k);
    lemma_places_after_removal(kept, points.len(), k);
    lemma_new_candidates_are_new(points, area, kept, barred, waiting, c);
    assert(kept[k - 1] < kept[k] < kept[k + 1]);
    assert(on_left.current != on_right.current);
    assert forall|j: int| 0 < j < fewer.len() - 1 implies after.count(
        #[trigger] candidate_at(points, area, fewer, j),
    ) == if fewer_barred.contains(fewer[j]) {
        0nat
    } else {
        1nat
    } by {
        let x = candidate_at(points, area, fewer, j);
        if j < k - 1 {
            assert(fewer[j - 1] == kept[j - 1] && fewer[j] == kept[j] && fewer[j + 1] == kept[j
                + 1]);
            assert(x == candidate_at(points, area, kept, j));
            assert(kept[j] < kept[k - 1]);
            assert(x.current != c.current && x.current != on_left.current && x.current
                != on_right.current);
            assert(rest.count(x) == waiting.count(x));
            assert(after.count(x) == rest.count(x));
        } else if j == k - 1 {
            assert(x == on_left);
            assert(!fewer_barred.contains(fewer[j]));
            assert(after.count(x) == 1);
        } else if j == k {
            assert(x == on_right);
            assert(!fewer_barred.contains(fewer[j]));
            assert(after.count(x) == 1);
        } else {
            assert(fewer[j - 1] == kept[j] && fewer[j] == kept[j + 1] && fewer[j + 1] == kept[j
                + 2]);
            assert(x == candidate_at(points, area, kept, j + 1));
            assert(kept[k + 1] < kept[j + 1]);
            assert(x.current != c.current && x.current != on_left.current && x.current
                != on_right.current);
            assert(rest.count(x) == waiting.count(x));
            assert(after.count(x) == rest.count(x));
        }
    }
}

/// After a removal every candidate in the queue is sound.
proof fn lemma_sound_after_removal(
    points: Seq<Point>,
    area: spec_fn(Point, Point, Point) -> u64,
    kept: Seq<int>,
    barred: Set<int>,
    waiting: Multiset<Candidate>,
    c: Candidate,
)
    requires
        spans(kept, points.len()),
        points.len() <= usize::MAX,
        tracks(waiting, points, area, kept, barred),
        waiting.contains(c),
        0 < kept.index_of(c.current as int) < kept.len() - 1,
        kept[kept.index_of(c.current as int)] == c.current,
        c == candidate_at(points, area, kept, kept.index_of(c.current as int)),
    ensures
        sound(refilled(points, area, kept, waiting, c), points, area),
{
    broadcast use vstd::multiset::group_multiset_axioms;

    let k = kept.index_of(c.current as int);
    let fewer = kept.remove(k);
    let rest = waiting.remove(c);
    let after = refilled(points, area, kept, waiting, c);
    let on_left = candidate_at(points, area, fewer, k - 1);
    let on_right = candidate_at(points, area, fewer, k);
    lemma_places_after_removal(kept, points.len(), k);
    assert(kept[k - 1] < kept[k] < kept[k + 1]);
    assert forall|x: Candidate| #[trigger] after.contains(x) implies x.left < x.current < x.right
        < points.len() && x.area == area(
        points[x.left as int],
        points[x.current as int],
        points[x.right as int],
    ) by {
        if k - 1 > 0 && x == on_left {
            assert(fewer[k - 2] == kept[k - 2] && fewer[k - 1] == kept[k - 1] && fewer[k] == kept[k
                + 1]);
            assert(kept[k - 2] < kept[k - 1]);
        } else if k < kept.len() - 2 && x == on_right {
            assert(fewer[k - 1] == kept[k - 1] && fewer[k] == kept[k + 1] && fewer[k + 1] == kept[k
                + 2]);
            assert(kept[k + 1] < kept[k + 2]);
        } else {
            assert(rest.contains(x));
            assert(waiting.contains(x));
        }
    }
}

/// After a removal no candidate in the queue names neighbours farther than
/// the present ones.
proof fn lemma_narrow_after_removal(
    points: Seq<Point>,
    area: spec_fn(Point, Point, Point) -> u64,
    kept: Seq<int>,
    barred: Set<int>,
    waiting: Multiset<Candidate>,
    c: Candidate,
)
    requires
        spans(kept, points.len()),
        points.len() <= usize::MAX,
        tracks(waiting, points, area, kept, barred),
        waiting.contains(c),
        0 < kept.index_of(c.current as int) < kept.len() - 1,
        kept[kept.index_of(c.current as int)] == c.current,
        c == candidate_at(points, area, kept, kept.index_of(c.current as int)),
    ensures
        narrow(
            refilled(points, area, kept, waiting, c),
            kept.remove(kept.index_of(c.current as int)),
        ),
{
    broadcast use vstd::multiset::group_multiset_axioms;

    let k = kept.index_of(c.current as int);
    let fewer = kept.remove(k);
    let rest = waiting.remove(c);
    let after = refilled(points, area, kept, waiting, c);
    let on_left = candidate_at(points, area, fewer, k - 1);
    let on_right = candidate_at(points, area, fewer, k);
    lemma_places_after_removal(kept, points.len(), k);
    assert forall|x: Candidate, j: int| #[trigger]
        after.contains(x) && 0 < j < fewer.len() - 1 && #[trigger] fewer[j]
            == x.current implies fewer[j - 1] <= x.left && x.right <= fewer[j + 1] by {
        let j0 = if j < k { j } else { j + 1 };
        assert(fewer[j] == kept[j0]);
        assert(0 <= fewer[j] < points.len());
        if k - 1 > 0 && x == on_left {
            assert(0 <= fewer[k - 1] < points.len());
            if j < k - 1 {
                assert(fewer[j] < fewer[k - 1]);
            } else if j > k - 1 {
                assert(fewer[k - 1] < fewer[j]);
            }
        } else if k < kept.len() - 2 && x == on_right {
            assert(0 <= fewer[k] < points.len());
            if j < k {
                assert(fewer[j] < fewer[k]);
            } else if j > k {
                assert(fewer[k] < fewer[j]);
            }
        } else {
            assert(rest.contains(x));
            assert(waiting.contains(x));
            assert(kept[j0] == x.current);
            assert(kept[j0 - 1] <= x.left && x.right <= kept[j0 + 1]);
            assert(fewer[j - 1] <= kept[j0 - 1]) by {
                if j - 1 < k {
                    assert(fewer[j - 1] == kept[j - 1]);
                    if j0 - 1 > j - 1 {
                        assert(kept[j - 1] < kept[j0 - 1]);
                    }
                } else {
                    assert(fewer[j - 1] == kept[j]);
                }
            }
            assert(kept[j0 + 1] <= fewer[j + 1]) by {
                if j + 1 < k {
                    assert(fewer[j + 1] == kept[j + 1]);
                } else {
                    assert(fewer[j + 1] == kept[j + 2]);
                    if j0 + 1 < j + 2 {
                        assert(kept[j0 + 1] < kept[j + 2]);
                    }
                }
            }
        }
    }
}

/// After the point of the first candidate has been removed and the
/// candidates of its two neighbours have been pushed, the invariant holds
/// with these two neighbours no longer barred.
proof fn lemma_tracks_after_removal(
    points: Seq<Point>,
    area: spec_fn(Point, Point, Point) -> u64,
    kept: Seq<int>,
    barred: Set<int>,
    waiting: Multiset<Candidate>,
    c: Candidate,
)
    requires
        spans(kept, points.len()),
        points.len() <= usize::MAX,
        tracks(waiting, points, area, kept, barred),
        waiting.contains(c),
        0 < kept.index_of(c.current as int) < kept.len() - 1,
        kept[kept.index_of(c.current as int)] == c.current,
        c == candidate_at(points, area, kept, kept.index_of(c.current as int)),
    ensures
        tracks(
            refilled(points, area, kept, waiting, c),
            points,
            area,
            kept.remove(kept.index_of(c.current as int)),
            barred.remove(kept[kept.index_of(c.current as int) - 1]).remove(
                kept[kept.index_of(c.current as int) + 1],
            ),
        ),
{
    lemma_covers_after_removal(points, area, kept, barred, waiting, c);
    lemma_sound_after_removal(points, area, kept, barred, waiting, c);
    lemma_narrow_after_removal(points, area, kept, barred, waiting, c);
}

/// Runs the simplifier on a polyline of three or more points and says which
/// positions it retains.
pub(crate) fn run<F: Fn(Point, Point, Point) -> u64, P: Fn(&AdjacencyTable, usize) -> bool>(
    points: &Vec<Point>,
    epsilon: u64,
    area: &F,
    permits: &P,
) -> (kept: Vec<usize>)
    requires
        answers_all(*area),
        answers_inner(*permits),
        points@.len() >= 3,
    ensures
        spans(positions(kept@), points@.len()),
        forall|m: spec_fn(Point, Point, Point) -> u64, r: spec_fn(Seq<int>, int) -> bool|
            #[trigger] computes(*area, m) && #[trigger] decides(*permits, r) ==> positions(kept@)
                == vwp_indices(points@, m, r, epsilon),
{
    let n: usize = points.len();
    let mut table = AdjacencyTable::new(n);
    let mut queue = first_candidates(points, area);
    let ghost mut barred: Set<int> = Set::empty();
    loop
        invariant_except_break
            queue.wf(),
            forall|m: spec_fn(Point, Point, Point) -> u64| #[trigger]
                computes(*area, m) ==> tracks(queue@, points@, m, table@, barred),
            forall|m: spec_fn(Point, Point, Point) -> u64, r: spec_fn(Seq<int>, int) -> bool|
                #[trigger] computes(*area, m) && #[trigger] decides(*permits, r)
                    ==> eliminate_where(points@, m, r, epsilon, table@, barred) == vwp_indices(
                    points@,
                    m,
                    r,
                    epsilon,
                ),
        invariant
            n == points@.len(),
            n >= 3,
            answers_all(*area),
            answers_inner(*permits),
            table.wf(),
            table.size() == n,
        ensures
            table.wf(),
            table.size() == n,
            forall|m: spec_fn(Point, Point, Point) -> u64, r: spec_fn(Seq<int>, int) -> bool|
                #[trigger] computes(*area, m) && #[trigger] decides(*permits, r) ==> table@
                    == vwp_indices(points@, m, r, epsilon),
        decreases queue@.len() + 2 * table@.len(),
    {
        let ghost kept = table@;
        let ghost waiting = queue@;
        match queue.pop() {
            None => {
                proof {
                    assert forall|
                        m: spec_fn(Point, Point, Point) -> u64,
                        r: spec_fn(Seq<int>, int) -> bool,
                    | #[trigger] computes(*area, m) && #[trigger] decides(*permits, r) implies kept
                        == vwp_indices(points@, m, r, epsilon) by {
                        lemma_nothing_waits(points@, m, kept, barred, waiting);
                    }
                }
                break;
            },
            Some(c) => {
                if table.links(c.current, c.left, c.right) {
                    let ghost k = kept.index_of(c.current as int);
                    proof {
                        lemma_linked_is_inner(kept, n as nat, c);
                    }
                    if exceeds(c.area, epsilon) {
                        proof {
                            assert forall|
                                m: spec_fn(Point, Point, Point) -> u64,
                                r: spec_fn(Seq<int>, int) -> bool,
                            | #[trigger] computes(*area, m) && #[trigger] decides(
                                *permits,
                                r,
                            ) implies kept == vwp_indices(points@, m, r, epsilon) by {
                                lemma_first_is_least_open(points@, m, kept, barred, waiting, c);
                            }
                        }
                        break;
                    }
                    if permits(&table, c.current) {
                        let done: bool = table.remove(c.current);
                        assert(done);
                        proof {
                            lemma_place_is_unique(kept, k - 1);
                            lemma_place_is_unique(kept, k + 1);
                            lemma_place_is_unique(table@, k - 1);
                            lemma_place_is_unique(table@, k);
                        }
                        match table.left(c.left) {
                            Some(before) => {
                                let a: u64 = area(points[before], points[c.left], points[c.right]);
                                queue.push(
                                    Candidate {
                                        area: a,
                                        current: c.left,
                                        left: before,
                                        right: c.right,
                                    },
                                );
                            },
                            None => {},
                        }
                        match table.right(c.right) {
                            Some(after) => {
                                let a: u64 = area(points[c.left], points[c.right], points[after]);
                                queue.push(
                                    Candidate {
                                        area: a,
                                        current: c.right,
                                        left: c.left,
                                        right: after,
                                    },
                                );
                            },
                            None => {},
                        }
                        let ghost fewer_barred = barred.remove(kept[k - 1]).remove(kept[k + 1]);
                        proof {
                            assert forall|m: spec_fn(Point, Point, Point) -> u64| #[trigger]
                                computes(*area, m) implies tracks(
                                queue@,
                                points@,
                                m,
                                table@,
                                fewer_barred,
                            ) by {
                                lemma_first_is_least_open(points@, m, kept, barred, waiting, c);
                                assert(queue@ == refilled(points@, m, kept, waiting, c));
                                lemma_tracks_after_removal(points@, m, kept, barred, waiting, c);
                            }
                            assert forall|
                                m: spec_fn(Point, Point, Point) -> u64,
                                r: spec_fn(Seq<int>, int) -> bool,
                            | #[trigger] computes(*area, m) && #[trigger] decides(
                                *permits,
                                r,
                            ) implies eliminate_where(
                                points@,
                                m,
                                r,
                                epsilon,
                                table@,
                                fewer_barred,
                            ) == vwp_indices(points@, m, r, epsilon) by {
                                lemma_first_is_least_open(points@, m, kept, barred, waiting, c);
                                assert(r(kept, kept[k]));
                            }
                            barred = fewer_barred;
                        }
                    } else {
                        let ghost more_barred = barred.insert(kept[k]);
                        proof {
                            assert forall|m: spec_fn(Point, Point, Point) -> u64| #[trigger]
                                computes(*area, m) implies tracks(
                                queue@,
                                points@,
                                m,
                                table@,
                                more_barred,
                            ) by {
                                lemma_first_is_least_open(points@, m, kept, barred, waiting, c);
                                lemma_tracks_after_refusal(points@, m, kept, barred, waiting, c);
                            }
                            assert forall|
                                m: spec_fn(Point, Point, Point) -> u64,
                                r: spec_fn(Seq<int>, int) -> bool,
                            | #[trigger] computes(*area, m) && #[trigger] decides(
                                *permits,
                                r,
                            ) implies eliminate_where(
                                points@,
                                m,
                                r,
                                epsilon,
                                table@,
                                more_barred,
                            ) == vwp_indices(points@, m, r, epsilon) by {
                                lemma_first_is_least_open(points@, m, kept, barred, waiting, c);
                                assert(!r(kept, kept[k]));
                            }
                            barred = more_barred;
                        }
                    }
                } else {
                    proof {
                        assert forall|m: spec_fn(Point, Point, Point) -> u64| #[trigger]
                            computes(*area, m) implies tracks(
                            queue@,
                            points@,
                            m,
                            table@,
                            barred,
                        ) by {
                            lemma_tracks_after_discard(points@, m, kept, barred, waiting, c);
                        }
                    }
                }
            },
        }
    }
    table.survivors()
}

} // verus!
