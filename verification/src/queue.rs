//! The queue of removal candidates: a binary min-heap ordered by triangle
//! area, with the candidate's own position as the second key.

use vstd::prelude::*;
use vstd::multiset::Multiset;
use vstd::seq_lib::{to_multiset_build, to_multiset_remove, to_multiset_update, to_multiset_len, to_multiset_contains};
use crate::ieee::{rank, rank_of};

verus! {

/// The triangle that a point formed with its two neighbours at the time the
/// candidate was made.
#[derive(Clone, Copy, Debug, PartialEq, Eq, Structural)]
pub struct Candidate {
    /// Bit pattern of the triangle's area.
    pub area: u64,
    /// Position of the point that would be removed.
    pub current: usize,
    /// Position of its neighbour on the left at that time.
    pub left: usize,
    /// Position of its neighbour on the right at that time.
    pub right: usize,
}

impl Candidate {
    /// The order of the queue: by area, and among equal areas by position.
    /// It is reflexive, transitive and total.
    pub open spec fn before(self, other: Candidate) -> bool {
        rank(self.area) < rank(other.area) || (rank(self.area) == rank(other.area) && self.current
            <= other.current)
    }

    /// Decides the order of the queue.
    pub fn precedes(&self, other: &Candidate) -> (b: bool)
        ensures
            b == self.before(*other),
    {
        let mine: i64 = rank_of(self.area);
        let theirs: i64 = rank_of(other.area);
        mine < theirs || (mine == theirs && self.current <= other.current)
    }
}

/// The slot above slot `i` in the heap.
pub open spec fn parent(i: int) -> int {
    (i - 1) / 2
}

/// Whether every slot but the root holds a candidate that does not come
/// before the one in the slot above it.
pub open spec fn heap_ordered(s: Seq<Candidate>) -> bool {
    forall|i: int| 0 < i < s.len() ==> s[parent(i)].before(#[trigger] s[i])
}

/// Heap order everywhere but between slot `hole` and the slot above it;
/// the slots below `hole` are in order with the slot above it.
pub open spec fn ordered_but_above(s: Seq<Candidate>, hole: int) -> bool {
    &&& forall|i: int| 0 < i < s.len() && i != hole ==> s[parent(i)].before(#[trigger] s[i])
    &&& forall|i: int|
        0 < i < s.len() && parent(i) == hole && hole > 0 ==> s[parent(hole)].before(
            #[trigger] s[i],
        )
}

/// Heap order everywhere but between slot `hole` and the slots below it;
/// those are in order with the slot above `hole`.
pub open spec fn ordered_but_below(s: Seq<Candidate>, hole: int) -> bool {
    &&& forall|i: int|
        0 < i < s.len() && parent(i) != hole ==> s[parent(i)].before(#[trigger] s[i])
    &&& forall|i: int|
        0 < i < s.len() && parent(i) == hole && hole > 0 ==> s[parent(hole)].before(
            #[trigger] s[i],
        )
}

/// In a heap the root comes before every other slot.
pub proof fn lemma_root_is_first(s: Seq<Candidate>, i: int)
    requires
        heap_ordered(s),
        0 <= i < s.len(),
    ensures
        s[0].before(s[i]),
    decreases i,
{
    if i > 0 {
        lemma_root_is_first(s, parent(i));
        assert(s[parent(i)].before(s[i]));
    }
}

/// Exchanging two slots leaves the same candidates in the sequence.
pub proof fn lemma_exchange_keeps_candidates(s: Seq<Candidate>, i: int, j: int)
    requires
        0 <= i < s.len(),
        0 <= j < s.len(),
    ensures
        s.update(i, s[j]).update(j, s[i]).to_multiset() == s.to_multiset(),
{
    broadcast use vstd::multiset::group_multiset_axioms;

    let s1 = s.update(i, s[j]);
    to_multiset_update(s, i, s[j]);
    to_multiset_update(s1, j, s[i]);
    to_multiset_contains(s, s[i]);
    to_multiset_contains(s, s[j]);
    assert(s.contains(s[i]));
    assert(s.contains(s[j]));
    assert(s1.update(j, s[i]).to_multiset() =~= s.to_multiset());
}

fn exchange(heap: &mut Vec<Candidate>, i: usize, j: usize)
    requires
        i < old(heap)@.len(),
        j < old(heap)@.len(),
    ensures
        final(heap)@ == old(heap)@.update(i as int, old(heap)@[j as int]).update(
            j as int,
            old(heap)@[i as int],
        ),
        final(heap)@.to_multiset() == old(heap)@.to_multiset(),
        final(heap)@.len() == old(heap)@.len(),
{
    let a: Candidate = heap[i];
    let b: Candidate = heap[j];
    heap.set(i, b);
    heap.set(j, a);
    proof {
        lemma_exchange_keeps_candidates(old(heap)@, i as int, j as int);
    }
}

fn sift_up(heap: &mut Vec<Candidate>, start: usize)
    requires
        start < old(heap)@.len(),
        ordered_but_above(old(heap)@, start as int),
    ensures
        heap_ordered(final(heap)@),
        final(heap)@.to_multiset() == old(heap)@.to_multiset(),
        final(heap)@.len() == old(heap)@.len(),
{
    let mut i: usize = start;
    while i > 0
        invariant
            i < heap@.len(),
            ordered_but_above(heap@, i as int),
            heap@.to_multiset() == old(heap)@.to_multiset(),
            heap@.len() == old(heap)@.len(),
        ensures
            heap_ordered(heap@),
            heap@.to_multiset() == old(heap)@.to_multiset(),
            heap@.len() == old(heap)@.len(),
        decreases i,
    {
        let p: usize = (i - 1) / 2;
        if heap[p].precedes(&heap[i]) {
            break;
        }
        let ghost before_exchange = heap@;
        exchange(heap, p, i);
        proof {
            assert(before_exchange[i as int].before(before_exchange[p as int]));
            assert forall|j: int| 0 < j < heap@.len() && j != p as int implies heap@[parent(
                j,
            )].before(#[trigger] heap@[j]) by {
                if j == i as int {
                } else if parent(j) == i as int {
                    assert(before_exchange[parent(i as int)].before(before_exchange[j]));
                } else if parent(j) == p as int {
                    assert(before_exchange[parent(j)].before(before_exchange[j]));
                } else {
                    assert(before_exchange[parent(j)].before(before_exchange[j]));
                }
            }
            assert forall|j: int|
                0 < j < heap@.len() && parent(j) == p as int && p > 0 implies heap@[parent(
                p as int,
            )].before(#[trigger] heap@[j]) by {
                assert(before_exchange[parent(p as int)].before(before_exchange[p as int]));
                if j != i as int {
                    assert(before_exchange[parent(j)].before(before_exchange[j]));
                }
            }
        }
        i = p;
    }
}

fn sift_down(heap: &mut Vec<Candidate>, start: usize)
    requires
        start < old(heap)@.len(),
        ordered_but_below(old(heap)@, start as int),
    ensures
        heap_ordered(final(heap)@),
        final(heap)@.to_multiset() == old(heap)@.to_multiset(),
        final(heap)@.len() == old(heap)@.len(),
{
    let n: usize = heap.len();
    let mut i: usize = start;
    while i < n / 2
        invariant
            i < n,
            n == heap@.len(),
            ordered_but_below(heap@, i as int),
            heap@.to_multiset() == old(heap)@.to_multiset(),
            heap@.len() == old(heap)@.len(),
        ensures
            heap_ordered(heap@),
            heap@.to_multiset() == old(heap)@.to_multiset(),
            heap@.len() == old(heap)@.len(),
        decreases n - i,
    {
        let l: usize = 2 * i + 1;
        let r: usize = l + 1;
        let c: usize = if r < n && !heap[l].precedes(&heap[r]) {
            r
        } else {
            l
        };
        if heap[i].precedes(&heap[c]) {
            proof {
                assert forall|j: int| 0 < j < heap@.len() implies heap@[parent(j)].before(
                    #[trigger] heap@[j],
                ) by {
                    if parent(j) == i as int {
                        assert(j == l as int || j == r as int);
                    }
                }
            }
            break;
        }
        let ghost before_exchange = heap@;
        exchange(heap, i, c);
        proof {
            assert(before_exchange[c as int].before(before_exchange[i as int]));
            assert forall|j: int|
                0 < j < heap@.len() && parent(j) != c as int implies heap@[parent(j)].before(
                #[trigger] heap@[j],
            ) by {
                if j == c as int {
                } else if parent(j) == i as int {
                    assert(j == l as int || j == r as int);
                } else if j == i as int {
                    assert(before_exchange[parent(i as int)].before(before_exchange[c as int]));
                } else {
                    assert(before_exchange[parent(j)].before(before_exchange[j]));
                }
            }
            assert forall|j: int|
                0 < j < heap@.len() && parent(j) == c as int && c > 0 implies heap@[parent(
                c as int,
            )].before(#[trigger] heap@[j]) by {
                assert(before_exchange[parent(j)].before(before_exchange[j]));
            }
        }
        i = c;
    }
}

/// A min-queue of candidates.
pub struct CandidateQueue {
    heap: Vec<Candidate>,
}

impl View for CandidateQueue {
    type V = Multiset<Candidate>;

    /// The candidates in the queue, each as often as it was pushed and not
    /// yet popped.
    closed spec fn view(&self) -> Multiset<Candidate> {
        self.heap@.to_multiset()
    }
}

impl CandidateQueue {
    /// The heap order of the slots.
    pub closed spec fn wf(&self) -> bool {
        heap_ordered(self.heap@)
    }

    /// An empty queue.
    pub fn new() -> (q: Self)
        ensures
            q.wf(),
            q@ == Multiset::<Candidate>::empty(),
    {
        let q = CandidateQueue { heap: Vec::new() };
        proof {
            broadcast use vstd::multiset::group_multiset_axioms;
            to_multiset_len(q.heap@);
            assert(q.heap@.to_multiset() =~= Multiset::<Candidate>::empty());
        }
        q
    }

    /// The number of candidates in the queue.
    pub fn len(&self) -> (n: usize)
        ensures
            n == self@.len(),
    {
        proof {
            to_multiset_len(self.heap@);
        }
        self.heap.len()
    }

    /// Adds a candidate.
    pub fn push(&mut self, candidate: Candidate)
        requires
            old(self).wf(),
        ensures
            final(self).wf(),
            final(self)@ == old(self)@.insert(candidate),
            final(self)@.len() == old(self)@.len() + 1,
    {
        proof {
            to_multiset_build(self.heap@, candidate);
            to_multiset_len(self.heap@);
        }
        self.heap.push(candidate);
        let last: usize = self.heap.len() - 1;
        proof {
            to_multiset_len(self.heap@);
            assert forall|i: int|
                0 < i < self.heap@.len() && i != last as int implies self.heap@[parent(
                i,
            )].before(#[trigger] self.heap@[i]) by {
                assert(old(self).heap@[parent(i)].before(old(self).heap@[i]));
            }
        }
        sift_up(&mut self.heap, last);
    }

    /// Takes out a candidate that comes before every other in the queue, if
    /// there is any.
    pub fn pop(&mut self) -> (first: Option<Candidate>)
        requires
            old(self).wf(),
        ensures
            final(self).wf(),
            match first {
                Some(c) => {
                    &&& old(self)@.contains(c)
                    &&& final(self)@ == old(self)@.remove(c)
                    &&& final(self)@.len() == old(self)@.len() - 1
                    &&& forall|x: Candidate| #[trigger] old(self)@.contains(x) ==> c.before(x)
                },
                None => old(self)@.len() == 0 && final(self)@ == old(self)@,
            },
    {
        proof {
            to_multiset_len(self.heap@);
        }
        if self.heap.len() == 0 {
            return None;
        }
        let top: Candidate = self.heap[0];
        let ghost before = self.heap@;
        proof {
            assert forall|x: Candidate| #[trigger] before.to_multiset().contains(x) implies top.before(
                x,
            ) by {
                to_multiset_contains(before, x);
                let i = choose|i: int| 0 <= i < before.len() && before[i] == x;
                lemma_root_is_first(before, i);
            }
            to_multiset_contains(before, top);
            assert(before.contains(top));
        }
        let last: Candidate = self.heap.pop().unwrap();
        proof {
            to_multiset_remove(before, before.len() - 1);
            assert(self.heap@ =~= before.remove(before.len() - 1));
            to_multiset_len(self.heap@);
        }
        if self.heap.len() > 0 {
            let ghost shorter = self.heap@;
            self.heap.set(0, last);
            proof {
                broadcast use vstd::multiset::group_multiset_axioms;
                to_multiset_update(shorter, 0, last);
                to_multiset_len(self.heap@);
                to_multiset_contains(before, last);
                assert(before[before.len() - 1] == last);
                assert(before.contains(last));
                assert(self.heap@.to_multiset() =~= before.to_multiset().remove(top));
                assert forall|i: int|
                    0 < i < self.heap@.len() && parent(i) != 0 implies self.heap@[parent(
                    i,
                )].before(#[trigger] self.heap@[i]) by {
                    assert(before[parent(i)].before(before[i]));
                }
            }
            sift_down(&mut self.heap, 0);
        } else {
            proof {
                assert(before.len() == 1);
                assert(last == top);
            }
        }
        Some(top)
    }
}

} // verus!
