//! Grid-indexed engine state: the visited set and the per-position maps
//! (predecessors, path costs). Each is a dense row-major table sized to the
//! grid, so membership, lookup and insertion are all plain vector reads and
//! writes whose behaviour is pinned exactly.

use vstd::prelude::*;
use vstd::pervasive::VecAdditionalExecFns;
use crate::Position;
use crate::grid::index_spec;

verus! {

/// How many entries of a row-major flag vector are set.
pub open spec fn count_trues(s: Seq<bool>) -> int
    decreases s.len(),
{
    if s.len() == 0 {
        0
    } else {
        count_trues(s.drop_last()) + if s.last() {
            1int
        } else {
            0int
        }
    }
}

/// A flag count never exceeds the vector's length.
proof fn lemma_count_trues_le(s: Seq<bool>)
    ensures
        0 <= count_trues(s) <= s.len(),
    decreases s.len(),
{
    if s.len() > 0 {
        lemma_count_trues_le(s.drop_last());
    }
}

/// Raising one unset flag raises the count by one.
proof fn lemma_count_trues_update(s: Seq<bool>, i: int)
    requires
        0 <= i < s.len(),
        !s[i],
    ensures
        count_trues(s.update(i, true)) == count_trues(s) + 1,
    decreases s.len(),
{
    let t = s.update(i, true);
    if i == s.len() - 1 {
        assert(t.drop_last() =~= s.drop_last());
    } else {
        assert(t.drop_last() =~= s.drop_last().update(i, true));
        lemma_count_trues_update(s.drop_last(), i);
    }
}

/// The set of positions enqueued into a search's frontier at least once,
/// in discovery order. A dense flag table gives constant-time membership;
/// the item list remembers the order and never holds a position twice.
pub struct VisitedTable {
    pub width: usize,
    pub height: usize,
    pub present: Vec<bool>,
    pub items: Vec<Position>,
}

impl VisitedTable {
    /// A position addressable by this table.
    pub open spec fn in_dims(&self, p: Position) -> bool {
        p.0 < self.width && p.1 < self.height
    }

    /// The flag table matches the dimensions, and the item list holds
    /// exactly the flagged positions, each once.
    pub open spec fn wf(&self) -> bool {
        &&& self.present@.len() == self.width * self.height
        &&& self.width * self.height <= usize::MAX
        &&& self.width <= 0x4000_0000
        &&& self.height <= 0x4000_0000
        &&& self.items@.len() == count_trues(self.present@)
        &&& forall|p: Position|
            self.in_dims(p) ==> (#[trigger] self.present@[index_spec(p, self.width as int)]
                <==> self.items@.contains(p))
        &&& forall|i: int| 0 <= i < self.items@.len() ==> self.in_dims(#[trigger] self.items@[i])
        &&& self.items@.no_duplicates()
    }

    /// Whether `p` has been visited.
    pub open spec fn has(&self, p: Position) -> bool {
        self.items@.contains(p)
    }

    /// The visited positions as a set.
    pub open spec fn set_view(&self) -> Set<Position> {
        self.items@.to_set()
    }

    proof fn lemma_index_in_range(&self, p: Position)
        requires
            self.wf(),
            self.in_dims(p),
        ensures
            0 <= index_spec(p, self.width as int) < self.present@.len(),
            index_spec(p, self.width as int) <= usize::MAX,
    {
        lemma_index_range(p, self.width as int, self.height as int);
    }

    /// An empty table for a `width` by `height` grid.
    pub fn new(width: usize, height: usize) -> (r: VisitedTable)
        requires
            width <= 0x4000_0000,
            height <= 0x4000_0000,
            width * height <= usize::MAX,
        ensures
            r.wf(),
            r.width == width,
            r.height == height,
            r.items@ == Seq::<Position>::empty(),
            forall|p: Position| !r.has(p),
    {
        let n = width * height;
        let mut present: Vec<bool> = Vec::new();
        let mut i: usize = 0;
        while i < n
            invariant
                i <= n,
                present@.len() == i,
                forall|j: int| 0 <= j < i ==> !present@[j],
                count_trues(present@) == 0,
            decreases n - i,
        {
            let ghost p0 = present@;
            present.push(false);
            proof {
                assert(present@.drop_last() =~= p0);
            }
            i = i + 1;
        }
        let r = VisitedTable { width, height, present, items: Vec::new() };
        proof {
            assert(forall|p: Position| !r.items@.contains(p));
            assert forall|p: Position|
                r.in_dims(p) implies !(#[trigger] r.present@[index_spec(
                p,
                r.width as int,
            )]) by {
                lemma_index_range(p, width as int, height as int);
            }
        }
        r
    }

    /// No more positions can be visited than the grid has cells.
    pub proof fn lemma_card(&self)
        requires
            self.wf(),
        ensures
            self.items@.len() <= self.width * self.height,
    {
        lemma_count_trues_le(self.present@);
    }

    /// How many positions have been visited.
    pub fn len(&self) -> (r: usize)
        ensures
            r == self.items@.len(),
    {
        self.items.len()
    }

    /// Whether `p` has been visited.
    pub fn contains(&self, p: Position) -> (r: bool)
        requires
            self.wf(),
            self.in_dims(p),
        ensures
            r == self.has(p),
    {
        proof {
            self.lemma_index_in_range(p);
        }
        self.present[crate::grid::index(p, self.width)]
    }

    /// Record a first visit of `p`.
    pub fn insert(&mut self, p: Position)
        requires
            old(self).wf(),
            old(self).in_dims(p),
            !old(self).has(p),
        ensures
            final(self).wf(),
            final(self).width == old(self).width,
            final(self).height == old(self).height,
            final(self).items@ == old(self).items@.push(p),
            forall|q: Position| final(self).has(q) <==> old(self).has(q) || q == p,
    {
        proof {
            self.lemma_index_in_range(p);
        }
        let ghost pre = self.present@;
        let ghost its = self.items@;
        let idx = crate::grid::index(p, self.width);
        self.present.set(idx, true);
        self.items.push(p);
        proof {
            lemma_count_trues_update(pre, idx as int);
            assert(self.items@[self.items@.len() - 1] == p);
            assert forall|q: Position| its.contains(q) implies self.items@.contains(q) by {
                let i = choose|i: int| 0 <= i < its.len() && its[i] == q;
                assert(self.items@[i] == q);
            }
            assert forall|q: Position| self.items@.contains(q) implies its.contains(q) || q
                == p by {
                let i = choose|i: int| 0 <= i < self.items@.len() && self.items@[i] == q;
                if i < its.len() {
                    assert(its[i] == q);
                }
            }
            assert(self.items@.contains(p));
            assert forall|q: Position|
                self.in_dims(q) implies (#[trigger] self.present@[index_spec(
                q,
                self.width as int,
            )] <==> self.items@.contains(q)) by {
                lemma_index_range(q, self.width as int, self.height as int);
                if q != p {
                    lemma_row_major_injective(q, p, self.width as int);
                    assert(old(self).present@[index_spec(q, self.width as int)]
                        <==> old(self).items@.contains(q));
                    assert(self.present@[index_spec(q, self.width as int)] == old(
                        self,
                    ).present@[index_spec(q, self.width as int)]);
                }
            }
        }
    }

    /// A deep copy, for saving a search mid-run.
    pub fn duplicate(&self) -> (r: VisitedTable)
        ensures
            r.width == self.width,
            r.height == self.height,
            r.present@ == self.present@,
            r.items@ == self.items@,
    {
        let mut present: Vec<bool> = Vec::new();
        let mut i: usize = 0;
        while i < self.present.len()
            invariant
                i <= self.present@.len(),
                present@ == self.present@.take(i as int),
            decreases self.present@.len() - i,
        {
            present.push(self.present[i]);
            proof {
                assert(present@ =~= self.present@.take(i + 1));
            }
            i = i + 1;
        }
        let items = self.to_vec();
        proof {
            assert(self.present@.take(self.present@.len() as int) =~= self.present@);
        }
        VisitedTable { width: self.width, height: self.height, present, items }
    }

    /// The visited positions in discovery order, as a fresh vector.
    pub fn to_vec(&self) -> (r: Vec<Position>)
        ensures
            r@ == self.items@,
    {
        let mut r: Vec<Position> = Vec::new();
        let mut i: usize = 0;
        while i < self.items.len()
            invariant
                i <= self.items@.len(),
                r@ == self.items@.take(i as int),
            decreases self.items@.len() - i,
        {
            r.push(self.items[i]);
            proof {
                assert(r@ =~= self.items@.take(i + 1));
            }
            i = i + 1;
        }
        proof {
            assert(self.items@.take(self.items@.len() as int) =~= self.items@);
        }
        r
    }
}

/// The total of all recorded scores in a slot vector.
pub open spec fn sum_slots(s: Seq<Option<usize>>) -> int
    decreases s.len(),
{
    if s.len() == 0 {
        0
    } else {
        sum_slots(s.drop_last()) + (match s.last() {
            Some(v) => v as int,
            None => 0,
        })
    }
}

/// A slot total is never negative.
pub proof fn lemma_sum_slots_nonneg(s: Seq<Option<usize>>)
    ensures
        sum_slots(s) >= 0,
    decreases s.len(),
{
    if s.len() > 0 {
        lemma_sum_slots_nonneg(s.drop_last());
    }
}

/// Overwriting one slot moves the total by exactly the difference.
pub proof fn lemma_sum_slots_update(s: Seq<Option<usize>>, i: int, v: usize)
    requires
        0 <= i < s.len(),
    ensures
        sum_slots(s.update(i, Some(v))) == sum_slots(s) + v - (match s[i] {
            Some(o) => o as int,
            None => 0,
        }),
    decreases s.len(),
{
    let t = s.update(i, Some(v));
    if i == s.len() - 1 {
        assert(t.drop_last() =~= s.drop_last());
    } else {
        assert(t.drop_last() =~= s.drop_last().update(i, Some(v)));
        lemma_sum_slots_update(s.drop_last(), i, v);
    }
}

/// A row-major index stays below the table size.
pub proof fn lemma_index_range(p: Position, w: int, h: int)
    requires
        p.0 < w,
        p.1 < h,
    ensures
        0 <= index_spec(p, w) < w * h,
{
    assert(p.1 * w + p.0 < h * w && h * w == w * h) by (nonlinear_arith)
        requires
            p.0 < w,
            p.1 < h,
            0 <= p.0,
            0 <= p.1,
    ;
}

/// Distinct in-bounds positions have distinct row-major indices.
pub proof fn lemma_row_major_injective(p: Position, q: Position, w: int)
    requires
        p.0 < w,
        q.0 < w,
        p != q,
    ensures
        index_spec(p, w) != index_spec(q, w),
{
    if p.1 == q.1 {
        assert(p.0 != q.0);
    } else {
        assert(p.1 * w + p.0 != q.1 * w + q.0) by (nonlinear_arith)
            requires
                0 <= p.0 < w,
                0 <= q.0 < w,
                p.1 != q.1,
                0 <= p.1,
                0 <= q.1,
        ;
    }
}

/// A partial map from grid positions to values, stored densely in
/// row-major order.
pub struct PosTable<V> {
    pub width: usize,
    pub height: usize,
    pub slots: Vec<Option<V>>,
}

impl<V> PosTable<V> {
    /// A position addressable by this table.
    pub open spec fn in_dims(&self, p: Position) -> bool {
        p.0 < self.width && p.1 < self.height
    }

    /// The slot vector matches the dimensions.
    pub open spec fn wf(&self) -> bool {
        &&& self.slots@.len() == self.width * self.height
        &&& self.width * self.height <= usize::MAX
        &&& self.width <= 0x4000_0000
        &&& self.height <= 0x4000_0000
    }

    /// The table as a mathematical map.
    pub open spec fn map_view(&self) -> Map<Position, V> {
        Map::new(
            |p: Position|
                self.in_dims(p) && self.slots@[index_spec(p, self.width as int)] is Some,
            |p: Position|
                match self.slots@[index_spec(p, self.width as int)] {
                    Some(v) => v,
                    None => arbitrary(),
                },
        )
    }

    proof fn lemma_index_in_range(&self, p: Position)
        requires
            self.wf(),
            self.in_dims(p),
        ensures
            0 <= index_spec(p, self.width as int) < self.slots@.len(),
            index_spec(p, self.width as int) <= usize::MAX,
    {
        lemma_index_range(p, self.width as int, self.height as int);
    }

    /// An empty table for a `width` by `height` grid.
    pub fn new(width: usize, height: usize) -> (r: PosTable<V>)
        requires
            width <= 0x4000_0000,
            height <= 0x4000_0000,
            width * height <= usize::MAX,
        ensures
            r.wf(),
            r.width == width,
            r.height == height,
            r.map_view() == Map::<Position, V>::empty(),
    {
        let n = width * height;
        let mut slots: Vec<Option<V>> = Vec::new();
        let mut i: usize = 0;
        while i < n
            invariant
                i <= n,
                slots@.len() == i,
                forall|j: int| 0 <= j < i ==> slots@[j] is None,
            decreases n - i,
        {
            slots.push(None);
            i = i + 1;
        }
        let r = PosTable { width, height, slots };
        proof {
            assert forall|p: Position| !(r.map_view().dom().contains(p)) by {
                if r.in_dims(p) {
                    lemma_index_range(p, width as int, height as int);
                }
            }
            assert(r.map_view() =~= Map::<Position, V>::empty());
        }
        r
    }

    /// Record `v` for `p`, replacing any earlier value.
    pub fn insert(&mut self, p: Position, v: V)
        requires
            old(self).wf(),
            old(self).in_dims(p),
        ensures
            final(self).wf(),
            final(self).width == old(self).width,
            final(self).height == old(self).height,
            final(self).map_view() == old(self).map_view().insert(p, v),
            final(self).slots@ == old(self).slots@.update(
                index_spec(p, old(self).width as int),
                Some(v),
            ),
    {
        proof {
            self.lemma_index_in_range(p);
        }
        let idx = crate::grid::index(p, self.width);
        self.slots.set(idx, Some(v));
        proof {
            let m0 = old(self).map_view().insert(p, v);
            let m1 = self.map_view();
            lemma_index_range(p, self.width as int, self.height as int);
            assert forall|q: Position| #[trigger]
                m1.dom().contains(q) implies m0.dom().contains(q) && m1[q] == m0[q] by {
                lemma_index_range(q, self.width as int, self.height as int);
                if q != p {
                    lemma_row_major_injective(q, p, self.width as int);
                }
            }
            assert forall|q: Position| #[trigger]
                m0.dom().contains(q) implies m1.dom().contains(q) by {
                if self.in_dims(q) {
                    lemma_index_range(q, self.width as int, self.height as int);
                    if q != p {
                        lemma_row_major_injective(q, p, self.width as int);
                    }
                }
            }
            assert(m1 =~= m0);
        }
    }
}

impl<V: Copy> PosTable<V> {
    /// A deep copy, for saving a search mid-run.
    pub fn duplicate(&self) -> (r: PosTable<V>)
        ensures
            r.width == self.width,
            r.height == self.height,
            r.slots@ == self.slots@,
    {
        let mut slots: Vec<Option<V>> = Vec::new();
        let mut i: usize = 0;
        while i < self.slots.len()
            invariant
                i <= self.slots@.len(),
                slots@ == self.slots@.take(i as int),
            decreases self.slots@.len() - i,
        {
            slots.push(self.slots[i]);
            proof {
                assert(slots@ =~= self.slots@.take(i + 1));
            }
            i = i + 1;
        }
        proof {
            assert(self.slots@.take(self.slots@.len() as int) =~= self.slots@);
        }
        PosTable { width: self.width, height: self.height, slots }
    }

    /// The value recorded for `p`, if any.
    pub fn get(&self, p: Position) -> (r: Option<V>)
        requires
            self.wf(),
            self.in_dims(p),
        ensures
            r is Some <==> self.map_view().dom().contains(p),
            r matches Some(v) ==> v == self.map_view()[p],
    {
        proof {
            self.lemma_index_in_range(p);
        }
        self.slots[crate::grid::index(p, self.width)]
    }
}

} // verus!
