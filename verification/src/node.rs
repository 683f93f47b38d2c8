//! The node abstraction: a position plus a shared read-only handle to the
//! grid, answering the identity, goal and neighbour queries every search
//! strategy uses. This is the only place topology and passability combine.

use vstd::prelude::*;
use std::rc::Rc;
use crate::Position;
use crate::grid::{Field, Grid};
use crate::topology::{shape_moves, shape_moves_spec, WorldShape};

verus! {

/// The interface every search strategy drives its nodes through.
pub trait SearchNode: Sized {
    /// The validity a node must keep for its queries to be answerable.
    spec fn inv(&self) -> bool;

    /// The position the node stands for; the dedup key everywhere.
    fn id(&self) -> Position
        requires
            self.inv(),
    ;

    /// Whether the world classifies this node's position as a goal.
    fn is_goal(&self) -> bool
        requires
            self.inv(),
    ;

    /// The passable nodes adjacent to this one under the world's topology.
    fn neighbours(&self) -> (r: Vec<Self>)
        requires
            self.inv(),
        ensures
            forall|i: int| 0 <= i < r@.len() ==> (#[trigger] r@[i]).inv(),
    ;
}

/// Anything that can place itself on a plane, or in a zero-depth volume.
pub trait Positionable {
    /// The planar position.
    spec fn spec2d(&self) -> (usize, usize);

    /// The planar position.
    fn pos2d(&self) -> (r: (usize, usize))
        ensures
            r == self.spec2d(),
    ;

    /// The planar position lifted to depth zero.
    fn pos3d(&self) -> (r: (usize, usize, usize))
        ensures
            r == (self.spec2d().0, self.spec2d().1, 0usize),
    ;
}

impl Positionable for (usize, usize) {
    open spec fn spec2d(&self) -> (usize, usize) {
        *self
    }

    fn pos2d(&self) -> (r: (usize, usize)) {
        (self.0, self.1)
    }

    fn pos3d(&self) -> (r: (usize, usize, usize)) {
        (self.0, self.1, 0)
    }
}

/// Relies on std's `Rc::clone`: the returned handle points at the very
/// same grid.
#[verifier::external_body]
pub(crate) fn rc_clone(rc: &Rc<Grid>) -> (r: Rc<Grid>)
    ensures
        r == *rc,
{
    rc.clone()
}

/// The shape's dimensions agree with the grid's.
pub open spec fn shape_matches(shape: WorldShape, g: Grid) -> bool {
    match shape {
        WorldShape::Rectangle { width, height } => width == g.width && height == g.height,
        WorldShape::Torus { width, height } => width == g.width && height == g.height,
    }
}

/// The candidates of `s` whose cells the grid lets a search walk
/// through, in order.
pub open spec fn filter_passable(g: Grid, s: Seq<Position>) -> Seq<Position>
    decreases s.len(),
{
    if s.len() == 0 {
        Seq::empty()
    } else if !(g.field_at(s.last()) is Impassable) {
        filter_passable(g, s.drop_last()).push(s.last())
    } else {
        filter_passable(g, s.drop_last())
    }
}

/// The neighbour positions of `pos`: the shape's candidates with the
/// impassable ones dropped, in clockwise order from North.
pub open spec fn neighbours_spec(g: Grid, shape: WorldShape, pos: Position) -> Seq<Position> {
    filter_passable(g, shape_moves_spec(shape, pos))
}

/// A kept candidate comes from the unfiltered list and is passable.
proof fn lemma_filter_passable_member(g: Grid, s: Seq<Position>, x: Position)
    requires
        filter_passable(g, s).contains(x),
    ensures
        s.contains(x),
        !(g.field_at(x) is Impassable),
    decreases s.len(),
{
    if s.len() > 0 {
        let f = filter_passable(g, s);
        let pf = filter_passable(g, s.drop_last());
        if !(g.field_at(s.last()) is Impassable) && x == s.last() {
            assert(s[s.len() - 1] == x);
        } else {
            assert(pf.contains(x)) by {
                let i = choose|i: int| 0 <= i < f.len() && f[i] == x;
                if !(g.field_at(s.last()) is Impassable) {
                    assert(f == pf.push(s.last()));
                    assert(pf[i] == x);
                }
            }
            lemma_filter_passable_member(g, s.drop_last(), x);
            let j = choose|j: int| 0 <= j < s.drop_last().len() && s.drop_last()[j] == x;
            assert(s[j] == x);
        }
    }
}

/// Grids with the same cells keep the same candidates.
proof fn lemma_filter_passable_same_world(a: Grid, b: Grid, s: Seq<Position>)
    requires
        crate::grid::same_world(a, b),
    ensures
        filter_passable(a, s) == filter_passable(b, s),
    decreases s.len(),
{
    if s.len() > 0 {
        lemma_filter_passable_same_world(a, b, s.drop_last());
    }
}

/// Grids with the same cells give every position the same neighbours.
pub proof fn lemma_neighbours_same_world(a: Grid, b: &Grid, shape: WorldShape, pos: Position)
    requires
        crate::grid::same_world(a, *b),
    ensures
        neighbours_spec(a, shape, pos) == neighbours_spec(*b, shape, pos),
{
    lemma_filter_passable_same_world(a, *b, shape_moves_spec(shape, pos));
}

/// A neighbour is one of the shape's candidates, and its cell is
/// passable.
pub proof fn lemma_neighbour_is_candidate(g: Grid, shape: WorldShape, pos: Position, q: Position)
    requires
        neighbours_spec(g, shape, pos).contains(q),
    ensures
        shape_moves_spec(shape, pos).contains(q),
        !(g.field_at(q) is Impassable),
{
    lemma_filter_passable_member(g, shape_moves_spec(shape, pos), q);
}

/// Every recorded predecessor edge crosses one legal move: the position
/// each entry discovered is among the discoverer's neighbours.
pub open spec fn steps_linked(m: Map<Position, Position>, g: Grid, shape: WorldShape) -> bool {
    forall|p: Position| #[trigger]
        m.dom().contains(p) ==> neighbours_spec(g, shape, m[p]).contains(p)
}

/// One cell of the world, holding a shared reference to the grid it lives
/// in. Two nodes are the same node exactly when their positions are equal;
/// one search only ever uses one grid.
pub struct MapField {
    pub pos: Position,
    pub map: Rc<Grid>,
    pub shape: WorldShape,
}

impl MapField {
    /// The grid is searchable, the position lies on it, and the shape wraps
    /// or crops at exactly the grid's dimensions.
    pub open spec fn wf(&self) -> bool {
        &&& self.map.wf()
        &&& self.map.in_bounds(self.pos)
        &&& shape_matches(self.shape, *self.map)
    }

    /// The neighbour positions this node will expand to.
    pub open spec fn nbrs_of(&self) -> Seq<Position> {
        neighbours_spec(*self.map, self.shape, self.pos)
    }

    /// The node's position.
    pub fn id(&self) -> (r: Position)
        ensures
            r == self.pos,
    {
        self.pos
    }

    /// Whether the grid classifies this node's position as `Goal`.
    pub fn is_goal(&self) -> (r: bool)
        requires
            self.wf(),
        ensures
            r == (self.map.field_at(self.pos) is Goal),
    {
        self.map.at(self.pos).eq_tag(Field::Goal)
    }

    /// The neighbouring nodes: candidate positions under the shape,
    /// impassable cells dropped, each wrapping the same grid.
    pub fn neighbours(&self) -> (r: Vec<MapField>)
        requires
            self.wf(),
        ensures
            r@.map_values(|n: MapField| n.pos) == neighbours_spec(*self.map, self.shape, self.pos),
            forall|i: int|
                0 <= i < r@.len() ==> (#[trigger] r@[i]).map == self.map && r@[i].shape
                    == self.shape && r@[i].wf(),
    {
        proof {
            crate::topology::lemma_shape_moves_in_bounds(&self.map, self.shape, self.pos);
        }
        let cand = shape_moves(self.shape, self.pos);
        let mut r: Vec<MapField> = Vec::new();
        let ghost cs = shape_moves_spec(self.shape, self.pos);
        let mut i: usize = 0;
        while i < cand.len()
            invariant
                self.wf(),
                cand@ == cs,
                i <= cs.len(),
                forall|j: int| 0 <= j < cs.len() ==> self.map.in_bounds(#[trigger] cs[j]),
                r@.map_values(|n: MapField| n.pos) == filter_passable(*self.map, cs.take(i as int)),
                forall|j: int|
                    0 <= j < r@.len() ==> (#[trigger] r@[j]).map == self.map && r@[j].shape
                        == self.shape && r@[j].wf(),
            decreases cand@.len() - i,
        {
            let p = cand[i];
            let ghost taken = cs.take(i as int);
            proof {
                assert(cs.take(i + 1) == taken.push(p)) by {
                    assert(cs.take(i + 1) =~= taken.push(p));
                }
                assert(taken.push(p).drop_last() =~= taken);
                assert(taken.push(p).last() == p);
            }
            if self.map.at(p).is_passable() {
                let n = MapField { pos: p, map: rc_clone(&self.map), shape: self.shape };
                let ghost r0 = r@;
                r.push(n);
                proof {
                    assert(r@.map_values(|n: MapField| n.pos) =~= r0.map_values(
                        |n: MapField| n.pos,
                    ).push(p));
                }
            }
            i = i + 1;
        }
        proof {
            assert(cs.take(cs.len() as int) =~= cs);
        }
        r
    }
}

impl SearchNode for MapField {
    open spec fn inv(&self) -> bool {
        self.wf()
    }

    fn id(&self) -> Position {
        MapField::id(self)
    }

    fn is_goal(&self) -> bool {
        MapField::is_goal(self)
    }

    fn neighbours(&self) -> (r: Vec<MapField>) {
        MapField::neighbours(self)
    }
}

} // verus!
