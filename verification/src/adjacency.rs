//! The adjacency table: a doubly linked list over the positions of a
//! polyline, kept in an array with one slot for each position.

use vstd::prelude::*;
use crate::select::{all_positions, lemma_place_is_unique, positions, spans};

verus! {

/// What the table holds for one position.
#[derive(Clone, Copy, Debug)]
pub enum Slot {
    /// The point has been removed.
    Removed,
    /// The point is retained. `left` and `right` are the nearest retained
    /// positions on either side; at an end of the chain there is none.
    Live { left: Option<usize>, right: Option<usize> },
}

/// The position at place `k` of `order`, if there is such a place.
pub open spec fn link(order: Seq<int>, k: int) -> Option<usize> {
    if 0 <= k < order.len() {
        Some(order[k] as usize)
    } else {
        None
    }
}

/// Whether the slots say what `order` says: each position in `order` is
/// linked to the positions before and after it there, and every other slot
/// is marked as removed.
pub open spec fn agrees(slots: Seq<Slot>, order: Seq<int>) -> bool {
    &&& forall|k: int|
        0 <= k < order.len() ==> #[trigger] slots[order[k]] == (Slot::Live {
            left: link(order, k - 1),
            right: link(order, k + 1),
        })
    &&& forall|i: int|
        0 <= i < slots.len() && !order.contains(i) ==> #[trigger] slots[i] == Slot::Removed
}

/// The slots after the position at place `k` of `order` has been spliced out.
pub open spec fn spliced(slots: Seq<Slot>, order: Seq<int>, k: int) -> Seq<Slot> {
    slots.update(
        order[k - 1],
        Slot::Live { left: link(order, k - 2), right: link(order, k + 1) },
    ).update(order[k + 1], Slot::Live { left: link(order, k - 1), right: link(order, k + 2) }).update(
        order[k],
        Slot::Removed,
    )
}

/// Taking an inner place out of a selection that keeps the ends of the
/// polyline leaves such a selection; it holds the same positions but the
/// one taken out.
pub proof fn lemma_remove_keeps_span(order: Seq<int>, n: nat, k: int)
    requires
        spans(order, n),
        0 < k < order.len() - 1,
    ensures
        spans(order.remove(k), n),
        !order.remove(k).contains(order[k]),
        forall|p: int| order.contains(p) && p != order[k] ==> order.remove(k).contains(p),
        forall|p: int| order.remove(k).contains(p) ==> order.contains(p),
{
    let t = order.remove(k);
    assert forall|a: int, b: int| 0 <= a < b < t.len() implies t[a] < t[b] by {
        let a0 = if a < k { a } else { a + 1 };
        let b0 = if b < k { b } else { b + 1 };
        assert(t[a] == order[a0] && t[b] == order[b0]);
    }
    assert forall|j: int| 0 <= j < t.len() implies 0 <= #[trigger] t[j] < n by {
        let j0 = if j < k { j } else { j + 1 };
        assert(t[j] == order[j0]);
    }
    assert(t[0] == order[0]);
    assert(t.last() == order.last());
    assert forall|p: int| t.contains(p) implies order.contains(p) by {
        let j = t.index_of(p);
        let j0 = if j < k { j } else { j + 1 };
        assert(order[j0] == p);
    }
    assert forall|p: int| order.contains(p) && p != order[k] implies t.contains(p) by {
        let q = order.index_of(p);
        let q1 = if q < k { q } else { q - 1 };
        assert(t[q1] == p);
    }
    if t.contains(order[k]) {
        let j = t.index_of(order[k]);
        let j0 = if j < k { j } else { j + 1 };
        assert(order[j0] == order[k]);
        if j0 < k {
            assert(order[j0] < order[k]);
        } else {
            assert(order[k] < order[j0]);
        }
    }
}

/// Splicing a position out of the slots is taking its place out of the order.
pub proof fn lemma_splice_agrees(slots: Seq<Slot>, order: Seq<int>, k: int)
    requires
        agrees(slots, order),
        spans(order, slots.len()),
        0 < k < order.len() - 1,
    ensures
        agrees(spliced(slots, order, k), order.remove(k)),
{
    let t = order.remove(k);
    let after = spliced(slots, order, k);
    let l = order[k - 1];
    let c = order[k];
    let r = order[k + 1];
    assert(l < c < r);
    assert(0 <= l && r < slots.len());
    lemma_remove_keeps_span(order, slots.len(), k);
    assert forall|j: int| 0 <= j < t.len() implies #[trigger] after[t[j]] == (Slot::Live {
        left: link(t, j - 1),
        right: link(t, j + 1),
    }) by {
        let j0 = if j < k { j } else { j + 1 };
        assert(t[j] == order[j0]);
        assert(0 <= order[j0] < slots.len());
        assert(slots[order[j0]] == (Slot::Live {
            left: link(order, j0 - 1),
            right: link(order, j0 + 1),
        }));
        if j0 < k - 1 {
            assert(order[j0] < l);
            assert(link(t, j - 1) == link(order, j0 - 1));
            assert(link(t, j + 1) == link(order, j0 + 1));
        } else if j0 == k - 1 {
            assert(link(t, j - 1) == link(order, k - 2));
            assert(link(t, j + 1) == link(order, k + 1));
        } else if j0 == k + 1 {
            assert(link(t, j - 1) == link(order, k - 1));
            assert(link(t, j + 1) == link(order, k + 2));
        } else {
            assert(r < order[j0]);
            assert(link(t, j - 1) == link(order, j0 - 1));
            assert(link(t, j + 1) == link(order, j0 + 1));
        }
    }
    assert forall|p: int| 0 <= p < after.len() && !t.contains(p) implies #[trigger] after[p]
        == Slot::Removed by {
        if p != c {
            assert(!order.contains(p));
            lemma_place_is_unique(order, k - 1);
            lemma_place_is_unique(order, k + 1);
            assert(p != l && p != r);
        }
    }
}

/// The retained positions of a polyline, linked in the order of the polyline.
pub struct AdjacencyTable {
    slots: Vec<Slot>,
    order: Ghost<Seq<int>>,
}

impl View for AdjacencyTable {
    type V = Seq<int>;

    /// The retained positions, in growing order.
    closed spec fn view(&self) -> Seq<int> {
        self.order@
    }
}

impl AdjacencyTable {
    /// The number of positions in the table, retained or removed.
    pub closed spec fn size(&self) -> nat {
        self.slots@.len()
    }

    /// Whether the slots say what the view says: each retained position is
    /// linked to the retained positions before and after it, and every
    /// other slot is marked as removed.
    pub closed spec fn linked(&self) -> bool {
        agrees(self.slots@, self.order@)
    }

    /// The invariant of the table: the retained positions keep their
    /// order in the polyline, the two ends are among them, and the slots agree.
    pub open spec fn wf(&self) -> bool {
        &&& spans(self@, self.size())
        &&& self.linked()
    }

    /// Whether position `i` is retained and is neither end of the chain.
    pub open spec fn interior(&self, i: int) -> bool {
        self@.contains(i) && 0 < self@.index_of(i) < self@.len() - 1
    }

    /// The nearest retained position on the left of a retained position.
    pub open spec fn left_of(&self, i: int) -> Option<usize> {
        if self@.contains(i) {
            link(self@, self@.index_of(i) - 1)
        } else {
            None
        }
    }

    /// The nearest retained position on the right of a retained position.
    pub open spec fn right_of(&self, i: int) -> Option<usize> {
        if self@.contains(i) {
            link(self@, self@.index_of(i) + 1)
        } else {
            None
        }
    }

    /// A table for `n` points, none of them removed: each position is linked
    /// to the one before and the one after it.
    pub fn new(n: usize) -> (table: Self)
        ensures
            table.wf(),
            table.size() == n,
            table@ == all_positions(n as nat),
    {
        let mut slots: Vec<Slot> = Vec::new();
        let mut i: usize = 0;
        while i < n
            invariant
                i <= n,
                slots@.len() == i,
                forall|k: int|
                    0 <= k < i ==> #[trigger] slots@[k] == (Slot::Live {
                        left: link(all_positions(n as nat), k - 1),
                        right: link(all_positions(n as nat), k + 1),
                    }),
            decreases n - i,
        {
            let left: Option<usize> = if i == 0 {
                None
            } else {
                Some(i - 1)
            };
            let right: Option<usize> = if i + 1 < n {
                Some(i + 1)
            } else {
                None
            };
            slots.push(Slot::Live { left, right });
            i = i + 1;
        }
        let table = AdjacencyTable { slots, order: Ghost(all_positions(n as nat)) };
        proof {
            assert forall|i: int| 0 <= i < n implies all_positions(n as nat).contains(i) by {
                assert(all_positions(n as nat)[i] == i);
            }
        }
        table
    }

    /// The number of positions in the table, retained or removed.
    pub fn len(&self) -> (n: usize)
        ensures
            n == self.size(),
    {
        self.slots.len()
    }

    /// Whether the point at position `i` has been removed. A position
    /// outside the table counts as removed.
    pub fn is_removed(&self, i: usize) -> (gone: bool)
        requires
            self.wf(),
        ensures
            gone == !self@.contains(i as int),
    {
        if i >= self.slots.len() {
            return true;
        }
        proof {
            self.lemma_slot(i as int);
        }
        match self.slots[i] {
            Slot::Removed => true,
            Slot::Live { left: _, right: _ } => false,
        }
    }

    /// The nearest retained position on the left of position `i`; none if
    /// `i` is removed, outside the table or the first position.
    pub fn left(&self, i: usize) -> (l: Option<usize>)
        requires
            self.wf(),
        ensures
            l == self.left_of(i as int),
    {
        if i >= self.slots.len() {
            return None;
        }
        proof {
            self.lemma_slot(i as int);
        }
        match self.slots[i] {
            Slot::Removed => None,
            Slot::Live { left, right: _ } => left,
        }
    }

    /// The nearest retained position on the right of position `i`; none if
    /// `i` is removed, outside the table or the last position.
    pub fn right(&self, i: usize) -> (r: Option<usize>)
        requires
            self.wf(),
        ensures
            r == self.right_of(i as int),
    {
        if i >= self.slots.len() {
            return None;
        }
        proof {
            self.lemma_slot(i as int);
        }
        match self.slots[i] {
            Slot::Removed => None,
            Slot::Live { left: _, right } => right,
        }
    }

    /// Whether position `current` is retained with exactly `left` and
    /// `right` as its retained neighbours.
    pub fn links(&self, current: usize, left: usize, right: usize) -> (b: bool)
        requires
            self.wf(),
        ensures
            b == (self.left_of(current as int) == Some(left) && self.right_of(current as int)
                == Some(right)),
    {
        let l: Option<usize> = self.left(current);
        let r: Option<usize> = self.right(current);
        match (l, r) {
            (Some(a), Some(b)) => a == left && b == right,
            _ => false,
        }
    }

    /// Splices position `i` out of the chain, if it is retained and not an
    /// end: its two neighbours become each other's neighbours and its own
    /// slot is marked as removed. Says whether it did so; otherwise nothing
    /// changes.
    pub fn remove(&mut self, i: usize) -> (done: bool)
        requires
            old(self).wf(),
        ensures
            final(self).wf(),
            final(self).size() == old(self).size(),
            done == old(self).interior(i as int),
            done ==> final(self)@ == old(self)@.remove(old(self)@.index_of(i as int)),
            !done ==> final(self)@ == old(self)@,
    {
        if i >= self.slots.len() {
            return false;
        }
        proof {
            self.lemma_slot(i as int);
        }
        let (l, r): (usize, usize) = match self.slots[i] {
            Slot::Live { left: Some(l), right: Some(r) } => (l, r),
            _ => {
                return false;
            },
        };
        let ghost s = self.order@;
        let ghost k = s.index_of(i as int);
        proof {
            lemma_place_is_unique(s, k - 1);
            lemma_place_is_unique(s, k + 1);
            assert(self.slots@[s[k - 1]] == (Slot::Live {
                left: link(s, k - 2),
                right: link(s, k),
            }));
            assert(self.slots@[s[k + 1]] == (Slot::Live {
                left: link(s, k),
                right: link(s, k + 2),
            }));
        }
        let before: Option<usize> = self.left(l);
        let after: Option<usize> = self.right(r);
        self.slots.set(l, Slot::Live { left: before, right: Some(r) });
        self.slots.set(r, Slot::Live { left: Some(l), right: after });
        self.slots.set(i, Slot::Removed);
        self.order = Ghost(s.remove(k));
        proof {
            assert(self.slots@ == spliced(old(self).slots@, s, k));
            lemma_splice_agrees(old(self).slots@, s, k);
            lemma_remove_keeps_span(s, old(self).slots@.len(), k);
        }
        true
    }

    /// The retained positions, in growing order.
    pub fn survivors(&self) -> (kept: Vec<usize>)
        requires
            self.wf(),
        ensures
            positions(kept@) == self@,
    {
        let mut kept: Vec<usize> = Vec::new();
        let n: usize = self.slots.len();
        if n == 0 {
            assert(positions(kept@) =~= self@);
            return kept;
        }
        let mut at: usize = 0;
        kept.push(at);
        let ghost mut k: int = 0;
        loop
            invariant
                self.wf(),
                self.size() == n,
                0 <= k < self@.len(),
                at == self@[k],
                kept@.len() == k + 1,
                forall|j: int| 0 <= j <= k ==> #[trigger] kept@[j] == self@[j],
            ensures
                positions(kept@) == self@,
            decreases self@.len() - k,
        {
            proof {
                lemma_place_is_unique(self@, k);
            }
            match self.right(at) {
                Some(next) => {
                    proof {
                        assert(self.right_of(at as int) == link(self@, k + 1));
                        assert(0 <= self@[k + 1] < self.size());
                        assert(next == self@[k + 1]);
                    }
                    kept.push(next);
                    at = next;
                    proof {
                        k = k + 1;
                    }
                },
                None => {
                    assert(positions(kept@) =~= self@);
                    break;
                },
            }
        }
        kept
    }

    /// What the slot of a position within the table holds.
    proof fn lemma_slot(&self, i: int)
        requires
            self.wf(),
            0 <= i < self.size(),
        ensures
            self@.contains(i) ==> self.slots@[i] == (Slot::Live {
                left: self.left_of(i),
                right: self.right_of(i),
            }),
            !self@.contains(i) ==> self.slots@[i] == Slot::Removed,
            self@.contains(i) ==> 0 <= self@.index_of(i) < self@.len() && self@[self@.index_of(i)]
                == i,
            self.interior(i) <==> (self.slots@[i] matches Slot::Live {
                left: Some(_),
                right: Some(_),
            }),
    {
        if self@.contains(i) {
            let k = self@.index_of(i);
            assert(self.slots@[self.order@[k]] == (Slot::Live {
                left: link(self.order@, k - 1),
                right: link(self.order@, k + 1),
            }));
        }
    }
}

} // verus!
