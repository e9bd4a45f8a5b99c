//! The searches' open list: a frontier of cells keyed by a two-part
//! priority. `pop` removes the entry with the smallest key, breaking key
//! ties by cell coordinate, exactly as a binary heap over the same total
//! order would. Duplicate (stale) entries for one cell are allowed; the
//! searches detect and skip them.

use vstd::prelude::*;
use crate::grid::Coord;

verus! {

/// One frontier entry: a cell and the two-part key it was enqueued with.
#[derive(Clone, Copy)]
pub struct Entry {
    pub coord: Coord,
    pub k1: u64,
    pub k2: u64,
}

pub open spec fn coord_lt(a: Coord, b: Coord) -> bool {
    a.0 < b.0 || (a.0 == b.0 && a.1 < b.1)
}

/// `a` leaves the list before `b`: smaller `k1` first, then smaller `k2`;
/// equal keys are ordered by coordinate, the direction chosen per list.
pub open spec fn pops_before(a: Entry, b: Entry, tie_high: bool) -> bool {
    if a.k1 != b.k1 {
        a.k1 < b.k1
    } else if a.k2 != b.k2 {
        a.k2 < b.k2
    } else if tie_high {
        coord_lt(b.coord, a.coord)
    } else {
        coord_lt(a.coord, b.coord)
    }
}

/// What `pop` did: it removed the first occurrence `j` of an entry `e`
/// that no other entry precedes.
pub open spec fn popped(pre: Seq<Entry>, post: Seq<Entry>, e: Entry, j: int, tie_high: bool) -> bool {
    &&& 0 <= j < pre.len()
    &&& pre[j] == e
    &&& post == pre.remove(j)
    &&& forall|i: int| 0 <= i < pre.len() && i != j ==> pops_before(e, #[trigger] pre[i], tie_high) || pre[i] == e
    &&& forall|i: int| 0 <= i < j ==> #[trigger] pre[i] != e
}

/// `pop` turned `pre` into `post` by removing entry `e`.
pub open spec fn popped_any(pre: Seq<Entry>, post: Seq<Entry>, e: Entry, tie_high: bool) -> bool {
    exists|j: int| popped(pre, post, e, j, tie_high)
}

pub struct OpenList {
    entries: Vec<Entry>,
    tie_high: bool,
}

impl View for OpenList {
    type V = Seq<Entry>;

    closed spec fn view(&self) -> Seq<Entry> {
        self.entries@
    }
}

fn before(a: &Entry, b: &Entry, tie_high: bool) -> (r: bool)
    ensures
        r == pops_before(*a, *b, tie_high),
{
    if a.k1 != b.k1 {
        a.k1 < b.k1
    } else if a.k2 != b.k2 {
        a.k2 < b.k2
    } else if tie_high {
        b.coord.0 < a.coord.0 || (b.coord.0 == a.coord.0 && b.coord.1 < a.coord.1)
    } else {
        a.coord.0 < b.coord.0 || (a.coord.0 == b.coord.0 && a.coord.1 < b.coord.1)
    }
}

impl OpenList {
    pub closed spec fn tie(&self) -> bool {
        self.tie_high
    }

    /// An empty list whose key ties resolve toward the higher coordinate
    /// when `tie_high` is set, toward the lower one otherwise.
    pub fn new(tie_high: bool) -> (r: OpenList)
        ensures
            r@ == Seq::<Entry>::empty(),
            r.tie() == tie_high,
    {
        OpenList { entries: Vec::new(), tie_high }
    }

    pub fn len(&self) -> (r: usize)
        ensures
            r == self@.len(),
    {
        self.entries.len()
    }

    pub fn push(&mut self, e: Entry)
        ensures
            final(self)@ == old(self)@.push(e),
            final(self).tie() == old(self).tie(),
    {
        self.entries.push(e);
    }

    /// Return the frontmost entry without removing it: the same entry
    /// `pop` would remove.
    pub fn peek(&self) -> (r: Option<Entry>)
        ensures
            self@.len() == 0 ==> r is None,
            self@.len() > 0 ==> r is Some && exists|j: int|
                0 <= j < self@.len() && self@[j] == r.unwrap() && forall|i: int|
                    0 <= i < self@.len() && i != j ==> pops_before(
                        r.unwrap(),
                        #[trigger] self@[i],
                        self.tie(),
                    ) || self@[i] == r.unwrap(),
    {
        if self.entries.len() == 0 {
            return None;
        }
        let mut best: usize = 0;
        let mut i: usize = 1;
        while i < self.entries.len()
            invariant
                0 < i <= self.entries.len(),
                best < i,
                forall|k: int|
                    0 <= k < i && k != best ==> pops_before(
                        self.entries@[best as int],
                        #[trigger] self.entries@[k],
                        self.tie_high,
                    ) || self.entries@[k] == self.entries@[best as int],
            decreases self.entries.len() - i,
        {
            if before(&self.entries[i], &self.entries[best], self.tie_high) {
                best = i;
            }
            i = i + 1;
        }
        let e = self.entries[best];
        proof {
            let ghost j = best as int;
            assert(self@[j] == e);
        }
        Some(e)
    }

    /// Remove and return the frontmost entry, `None` on an empty list.
    pub fn pop(&mut self) -> (r: Option<Entry>)
        ensures
            final(self).tie() == old(self).tie(),
            old(self)@.len() == 0 ==> r is None && final(self)@ == old(self)@,
            old(self)@.len() > 0 ==> r is Some && popped_any(
                old(self)@,
                final(self)@,
                r.unwrap(),
                old(self).tie(),
            ),
    {
        if self.entries.len() == 0 {
            return None;
        }
        let mut best: usize = 0;
        let mut i: usize = 1;
        while i < self.entries.len()
            invariant
                0 < i <= self.entries.len(),
                best < i,
                forall|k: int|
                    0 <= k < i && k != best ==> pops_before(
                        self.entries@[best as int],
                        #[trigger] self.entries@[k],
                        self.tie_high,
                    ) || self.entries@[k] == self.entries@[best as int],
                forall|k: int| 0 <= k < best ==> #[trigger] self.entries@[k] != self.entries@[best as int],
            decreases self.entries.len() - i,
        {
            if before(&self.entries[i], &self.entries[best], self.tie_high) {
                best = i;
            }
            i = i + 1;
        }
        let e = self.entries.remove(best);
        proof {
            assert(popped(old(self)@, self@, e, best as int, old(self).tie()));
            assert(popped_any(old(self)@, self@, e, old(self).tie()));
        }
        Some(e)
    }
}

} // verus!
