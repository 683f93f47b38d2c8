//! The world substrate: a rectangular grid of per-cell classifications.

use vstd::prelude::*;
use crate::Position;

verus! {

/// The semantic classification of one grid cell. `Start`, `Goal` and
/// `Impassable` belong to the world definition; the remaining tags are
/// overlay annotations a presentation layer may project onto a cell.
#[derive(Clone, Copy, PartialEq, Eq, Hash, Debug)]
pub enum Field {
    Start,
    Goal,
    Path,
    Current,
    Passable,
    Impassable,
    Visited,
    Frontier,
}

impl Field {
    /// Every classification except `Impassable` can be walked through.
    pub fn is_passable(&self) -> (r: bool)
        ensures
            r == !(*self is Impassable),
    {
        match *self {
            Field::Impassable => false,
            _ => true,
        }
    }
}

/// Row-major cell index of a position.
pub open spec fn index_spec(pos: Position, width: int) -> int {
    pos.1 * width + pos.0
}

/// Row-major cell index: `y * width + x`.
pub fn index(pos: Position, width: usize) -> (r: usize)
    requires
        index_spec(pos, width as int) <= usize::MAX,
    ensures
        r == index_spec(pos, width as int),
{
    let (x, y): (usize, usize) = pos;
    y * width + x
}

/// The world: dimensions and a row-major vector of cell classifications.
/// It is immutable input to a search; engines only ever read it.
#[derive(Clone, PartialEq, Eq, Hash)]
pub struct Grid {
    pub width: usize,
    pub height: usize,
    pub fields: Vec<Field>,
}

impl Grid {
    /// A grid fit for searching: the cell vector matches the dimensions, and
    /// the dimensions leave enough headroom for index and distance
    /// arithmetic on any machine.
    pub open spec fn wf(&self) -> bool {
        &&& self.fields@.len() == self.width * self.height
        &&& self.width <= 0x4000_0000
        &&& self.height <= 0x4000_0000
        &&& self.width * self.height + 2 * self.width + 2 * self.height + 2 <= usize::MAX
    }

    /// Both coordinates lie inside the dimensions.
    pub open spec fn in_bounds(&self, pos: Position) -> bool {
        pos.0 < self.width && pos.1 < self.height
    }

    /// The classification of the cell at `pos`.
    pub open spec fn field_at(&self, pos: Position) -> Field {
        self.fields@[index_spec(pos, self.width as int)]
    }

    proof fn lemma_index_in_range(&self, pos: Position)
        requires
            self.wf(),
            self.in_bounds(pos),
        ensures
            0 <= index_spec(pos, self.width as int) < self.fields@.len(),
            index_spec(pos, self.width as int) <= usize::MAX,
    {
        let w = self.width as int;
        let h = self.height as int;
        assert(pos.1 * w + pos.0 < h * w) by (nonlinear_arith)
            requires
                pos.0 < w,
                pos.1 < h,
                0 <= pos.0,
                0 <= pos.1,
        ;
    }

    /// Read one cell.
    pub fn at(&self, pos: Position) -> (r: Field)
        requires
            self.wf(),
            self.in_bounds(pos),
        ensures
            r == self.field_at(pos),
    {
        proof {
            self.lemma_index_in_range(pos);
        }
        self.fields[index(pos, self.width)]
    }

    /// All cells tagged `Start`, in row-major order.
    pub fn start(&self) -> (r: Vec<Position>)
        requires
            self.wf(),
        ensures
            forall|i: int|
                0 <= i < r@.len() ==> self.in_bounds(#[trigger] r@[i]) && self.field_at(r@[i])
                    is Start,
            forall|p: Position| self.in_bounds(p) && self.field_at(p) is Start ==> r@.contains(p),
            forall|i: int, j: int|
                0 <= i < j < r@.len() ==> index_spec(r@[i], self.width as int) < index_spec(
                    r@[j],
                    self.width as int,
                ),
    {
        self.tagged(Field::Start)
    }

    /// All cells tagged `Goal`, in row-major order.
    pub fn goals(&self) -> (r: Vec<Position>)
        requires
            self.wf(),
        ensures
            forall|i: int|
                0 <= i < r@.len() ==> self.in_bounds(#[trigger] r@[i]) && self.field_at(r@[i])
                    is Goal,
            forall|p: Position| self.in_bounds(p) && self.field_at(p) is Goal ==> r@.contains(p),
            forall|i: int, j: int|
                0 <= i < j < r@.len() ==> index_spec(r@[i], self.width as int) < index_spec(
                    r@[j],
                    self.width as int,
                ),
    {
        self.tagged(Field::Goal)
    }

    /// All cells carrying the given tag, in row-major order.
    pub(crate) fn tagged(&self, tag: Field) -> (r: Vec<Position>)
        requires
            self.wf(),
        ensures
            forall|i: int|
                0 <= i < r@.len() ==> self.in_bounds(#[trigger] r@[i]) && self.field_at(r@[i])
                    == tag,
            forall|p: Position| self.in_bounds(p) && self.field_at(p) == tag ==> r@.contains(p),
            forall|i: int, j: int|
                0 <= i < j < r@.len() ==> index_spec(r@[i], self.width as int) < index_spec(
                    r@[j],
                    self.width as int,
                ),
    {
        let mut r: Vec<Position> = Vec::new();
        let mut y: usize = 0;
        while y < self.height
            invariant
                self.wf(),
                y <= self.height,
                forall|i: int|
                    0 <= i < r@.len() ==> self.in_bounds(#[trigger] r@[i]) && self.field_at(r@[i])
                        == tag,
                forall|p: Position|
                    self.in_bounds(p) && self.field_at(p) == tag && p.1 < y ==> r@.contains(p),
                forall|i: int|
                    0 <= i < r@.len() ==> index_spec(#[trigger] r@[i], self.width as int)
                        < y * self.width,
                forall|i: int, j: int|
                    0 <= i < j < r@.len() ==> index_spec(r@[i], self.width as int) < index_spec(
                        r@[j],
                        self.width as int,
                    ),
            decreases self.height - y,
        {
            let mut x: usize = 0;
            while x < self.width
                invariant
                    self.wf(),
                    y < self.height,
                    x <= self.width,
                    forall|i: int|
                        0 <= i < r@.len() ==> self.in_bounds(#[trigger] r@[i]) && self.field_at(
                            r@[i],
                        ) == tag,
                    forall|p: Position|
                        self.in_bounds(p) && self.field_at(p) == tag && (p.1 < y || (p.1 == y && p.0
                            < x)) ==> r@.contains(p),
                    forall|i: int|
                        0 <= i < r@.len() ==> index_spec(#[trigger] r@[i], self.width as int) < y
                            * self.width + x,
                    forall|i: int, j: int|
                        0 <= i < j < r@.len() ==> index_spec(r@[i], self.width as int) < index_spec(
                            r@[j],
                            self.width as int,
                        ),
                decreases self.width - x,
            {
                let ghost r0 = r@;
                if self.at((x, y)).eq_tag(tag) {
                    r.push((x, y));
                    proof {
                        assert(r@[r@.len() - 1] == (x, y));
                        assert forall|p: Position| r0.contains(p) implies r@.contains(p) by {
                            let i = choose|i: int| 0 <= i < r0.len() && r0[i] == p;
                            assert(r@[i] == p);
                        }
                    }
                }
                x = x + 1;
            }
            proof {
                assert(y * self.width + self.width == (y + 1) * self.width) by (nonlinear_arith);
                assert(forall|p: Position|
                    self.in_bounds(p) && p.1 == y ==> index_spec(p, self.width as int) < y
                        * self.width + self.width);
            }
            y = y + 1;
        }
        proof {
            assert(forall|p: Position|
                self.in_bounds(p) && self.field_at(p) == tag ==> p.1 < self.height && r@.contains(
                    p,
                ));
        }
        r
    }

    /// A grid with the same dimensions and the same cells, cell for cell.
    pub fn duplicate(&self) -> (r: Grid)
        ensures
            same_world(r, *self),
    {
        let mut fields: Vec<Field> = Vec::new();
        let mut i: usize = 0;
        while i < self.fields.len()
            invariant
                i <= self.fields@.len(),
                fields@ == self.fields@.take(i as int),
            decreases self.fields@.len() - i,
        {
            fields.push(self.fields[i]);
            proof {
                assert(fields@ =~= self.fields@.take(i + 1));
            }
            i = i + 1;
        }
        proof {
            assert(self.fields@.take(self.fields@.len() as int) =~= self.fields@);
        }
        Grid { width: self.width, height: self.height, fields }
    }

    /// A row-major cursor over every position of the grid.
    pub fn positions(&self) -> (r: MapPositions)
        requires
            self.width * self.height <= usize::MAX,
        ensures
            r == (MapPositions {
                x: 0usize,
                y: 0usize,
                width: self.width,
                size: (self.width * self.height) as usize,
            }),
    {
        MapPositions { x: 0, y: 0, width: self.width, size: self.width * self.height }
    }
}

impl Field {
    /// Compare two tags; usable from verified code, unlike a derived `==`.
    pub fn eq_tag(&self, other: Field) -> (r: bool)
        ensures
            r == (*self == other),
    {
        match (*self, other) {
            (Field::Start, Field::Start) => true,
            (Field::Goal, Field::Goal) => true,
            (Field::Path, Field::Path) => true,
            (Field::Current, Field::Current) => true,
            (Field::Passable, Field::Passable) => true,
            (Field::Impassable, Field::Impassable) => true,
            (Field::Visited, Field::Visited) => true,
            (Field::Frontier, Field::Frontier) => true,
            _ => false,
        }
    }
}

/// Two grids describe the same world: equal dimensions and equal cells.
pub open spec fn same_world(a: Grid, b: Grid) -> bool {
    a.width == b.width && a.height == b.height && a.fields@ == b.fields@
}

/// A cursor that yields every position of a `width`-wide grid in row-major
/// order, stopping after `size` cells.
#[derive(Clone, Copy)]
pub struct MapPositions {
    pub x: usize,
    pub y: usize,
    pub width: usize,
    pub size: usize,
}

impl MapPositions {
    /// The next position in row-major order, or `None` once `size` cells
    /// have been yielded.
    pub fn next(&mut self) -> (r: Option<Position>)
        requires
            old(self).y * old(self).width + old(self).x <= usize::MAX,
        ensures
            old(self).width == 0 || index_spec((old(self).x, old(self).y), old(self).width as int)
                >= old(self).size ==> r is None && *final(self) == *old(self),
            old(self).width > 0 && index_spec((old(self).x, old(self).y), old(self).width as int)
                < old(self).size ==> r == Some((old(self).x, old(self).y)) && final(self).width
                == old(self).width && final(self).size == old(self).size && (if old(self).x + 1
                < old(self).width {
                final(self).x == old(self).x + 1 && final(self).y == old(self).y
            } else {
                final(self).x == 0 && final(self).y == old(self).y + 1
            }),
    {
        if self.width == 0 {
            return None;
        }
        let xy = (self.x, self.y);
        if index(xy, self.width) >= self.size {
            None
        } else {
            proof {
                assert(self.y <= self.y * self.width) by (nonlinear_arith)
                    requires
                        self.width >= 1,
                        self.y >= 0,
                ;
            }
            if self.x < self.width - 1 {
                self.x = self.x + 1;
            } else {
                self.x = 0;
                self.y = self.y + 1;
            }
            Some(xy)
        }
    }
}

} // verus!
