//! Adjacency and distance under a world shape.
//!
//! A position has up to eight candidate neighbours, generated clockwise from
//! North. A `Rectangle` drops candidates that leave the bounds; a `Torus`
//! wraps every candidate modulo the dimensions. The distance estimate used
//! by the informed strategies is the Euclidean distance rounded to the
//! nearest integer, measured on the shortest per-axis offsets for a torus.

use vstd::prelude::*;
use vstd::arithmetic::div_mod::{lemma_mod_add_multiples_vanish, lemma_small_mod};
use crate::Position;

verus! {

/// The eight compass directions, clockwise from North.
#[derive(Clone, Copy, PartialEq, Eq, Debug)]
pub enum Direction {
    N,
    NE,
    E,
    SE,
    S,
    SW,
    W,
    NW,
}

/// The adjacency rule of the world: a hard boundary or a wrap-around.
#[derive(Clone, Copy, PartialEq, Eq, Debug)]
pub enum WorldShape {
    Rectangle { width: usize, height: usize },
    Torus { width: usize, height: usize },
}

/// The unit displacement of the direction with clockwise rank `d`
/// (`0` is North).
pub open spec fn displacement_spec(d: int) -> (int, int) {
    if d == 0 {
        (0, -1)
    } else if d == 1 {
        (1, -1)
    } else if d == 2 {
        (1, 0)
    } else if d == 3 {
        (1, 1)
    } else if d == 4 {
        (0, 1)
    } else if d == 5 {
        (-1, 1)
    } else if d == 6 {
        (-1, 0)
    } else {
        (-1, -1)
    }
}

impl Direction {
    /// The direction with clockwise rank `d`, `None` past the last one.
    pub fn from_u8(d: u8) -> (r: Option<Direction>)
        ensures
            d < 8 ==> r is Some,
            d >= 8 ==> r is None,
            r matches Some(dir) ==> dir.rank() == d,
    {
        match d {
            0 => Some(Direction::N),
            1 => Some(Direction::NE),
            2 => Some(Direction::E),
            3 => Some(Direction::SE),
            4 => Some(Direction::S),
            5 => Some(Direction::SW),
            6 => Some(Direction::W),
            7 => Some(Direction::NW),
            _ => None,
        }
    }

    /// The clockwise rank of the direction, `0` for North.
    pub open spec fn rank(self) -> int {
        match self {
            Direction::N => 0,
            Direction::NE => 1,
            Direction::E => 2,
            Direction::SE => 3,
            Direction::S => 4,
            Direction::SW => 5,
            Direction::W => 6,
            Direction::NW => 7,
        }
    }

    /// The unit displacement of this direction.
    pub fn displacement(self) -> (r: (isize, isize))
        ensures
            (r.0 as int, r.1 as int) == displacement_spec(self.rank()),
    {
        match self {
            Direction::N => (0, -1),
            Direction::NE => (1, -1),
            Direction::E => (1, 0),
            Direction::SE => (1, 1),
            Direction::S => (0, 1),
            Direction::SW => (-1, 1),
            Direction::W => (-1, 0),
            Direction::NW => (-1, -1),
        }
    }
}

/// Keep a candidate only when it lies inside `[0, w) x [0, h)`.
pub open spec fn crop_spec(x: int, y: int, w: int, h: int) -> Option<Position> {
    if 0 <= x < w && 0 <= y < h {
        Some((x as usize, y as usize))
    } else {
        None
    }
}

/// The in-bounds neighbours of `pos` among the first `n` directions of a
/// `w` by `h` rectangle, in clockwise order.
pub open spec fn rect_moves_spec(pos: Position, w: int, h: int, n: int) -> Seq<Position>
    decreases n,
{
    if n <= 0 {
        Seq::empty()
    } else {
        let prefix = rect_moves_spec(pos, w, h, n - 1);
        let d = displacement_spec(n - 1);
        match crop_spec(pos.0 + d.0, pos.1 + d.1, w, h) {
            Some(p) => prefix.push(p),
            None => prefix,
        }
    }
}

/// `v` moved by `delta` and wrapped into `[0, dim)`.
pub open spec fn wrap_spec(v: int, delta: int, dim: int) -> int {
    (v + delta + dim) % dim
}

/// The eight wrapped neighbours of `pos` on a `w` by `h` torus, in
/// clockwise order; duplicate effective positions are kept.
pub open spec fn torus_moves_spec(pos: Position, w: int, h: int, n: int) -> Seq<Position>
    decreases n,
{
    if n <= 0 {
        Seq::empty()
    } else {
        let prefix = torus_moves_spec(pos, w, h, n - 1);
        let d = displacement_spec(n - 1);
        prefix.push(
            (wrap_spec(pos.0 as int, d.0, w) as usize, wrap_spec(pos.1 as int, d.1, h) as usize),
        )
    }
}

/// The candidate neighbours of `pos` under the given shape, in clockwise
/// order starting from North.
pub open spec fn shape_moves_spec(shape: WorldShape, pos: Position) -> Seq<Position> {
    match shape {
        WorldShape::Rectangle { width, height } => rect_moves_spec(
            pos,
            width as int,
            height as int,
            8,
        ),
        WorldShape::Torus { width, height } => torus_moves_spec(
            pos,
            width as int,
            height as int,
            8,
        ),
    }
}

/// Dimensions small enough for neighbour and distance arithmetic, and a
/// position the shape can wrap or crop.
pub open spec fn shape_fits(shape: WorldShape, pos: Position) -> bool {
    match shape {
        WorldShape::Rectangle { width, height } => width <= 0x4000_0000 && height <= 0x4000_0000
            && pos.0 <= 0x3FFF_FFFF && pos.1 <= 0x3FFF_FFFF,
        WorldShape::Torus { width, height } => 0 < width <= 0x4000_0000 && 0 < height
            <= 0x4000_0000 && pos.0 < width && pos.1 < height,
    }
}

/// Every rectangle candidate that survives the crop lies in bounds.
proof fn lemma_rect_moves_in_bounds(pos: Position, w: int, h: int, n: int)
    requires
        w <= usize::MAX,
        h <= usize::MAX,
    ensures
        forall|j: int|
            0 <= j < rect_moves_spec(pos, w, h, n).len() ==> (#[trigger] rect_moves_spec(
                pos,
                w,
                h,
                n,
            )[j]).0 < w && rect_moves_spec(pos, w, h, n)[j].1 < h,
    decreases n,
{
    if n > 0 {
        lemma_rect_moves_in_bounds(pos, w, h, n - 1);
        let s = rect_moves_spec(pos, w, h, n);
        let prefix = rect_moves_spec(pos, w, h, n - 1);
        let d = displacement_spec(n - 1);
        match crop_spec(pos.0 + d.0, pos.1 + d.1, w, h) {
            Some(p) => {
                assert(s == prefix.push(p));
                assert forall|j: int| 0 <= j < s.len() implies (s[j]).0 < w && s[j].1 < h by {
                    if j < prefix.len() {
                        assert(s[j] == prefix[j]);
                    } else {
                        assert(s[j] == p);
                    }
                }
            },
            None => {
                assert(s == prefix);
            },
        }
    }
}

/// Every wrapped torus candidate lies in bounds.
proof fn lemma_torus_moves_in_bounds(pos: Position, w: int, h: int, n: int)
    requires
        1 <= w <= usize::MAX,
        1 <= h <= usize::MAX,
    ensures
        forall|j: int|
            0 <= j < torus_moves_spec(pos, w, h, n).len() ==> (#[trigger] torus_moves_spec(
                pos,
                w,
                h,
                n,
            )[j]).0 < w && torus_moves_spec(pos, w, h, n)[j].1 < h,
    decreases n,
{
    if n > 0 {
        lemma_torus_moves_in_bounds(pos, w, h, n - 1);
        let d = displacement_spec(n - 1);
        vstd::arithmetic::div_mod::lemma_mod_pos_bound(pos.0 + d.0 + w, w);
        vstd::arithmetic::div_mod::lemma_mod_pos_bound(pos.1 + d.1 + h, h);
        let s = torus_moves_spec(pos, w, h, n);
        let prefix = torus_moves_spec(pos, w, h, n - 1);
        let p = (wrap_spec(pos.0 as int, d.0, w) as usize, wrap_spec(pos.1 as int, d.1, h) as usize);
        assert(s == prefix.push(p));
        assert forall|j: int| 0 <= j < s.len() implies (s[j]).0 < w && s[j].1 < h by {
            if j < prefix.len() {
                assert(s[j] == prefix[j]);
            } else {
                assert(s[j] == p);
            }
        }
    }
}

/// Every candidate a shape yields for an in-bounds position of a matching
/// grid lies in that grid's bounds.
pub proof fn lemma_shape_moves_in_bounds(g: &crate::grid::Grid, shape: WorldShape, pos: Position)
    requires
        crate::node::shape_matches(shape, *g),
        g.in_bounds(pos),
    ensures
        forall|j: int|
            0 <= j < shape_moves_spec(shape, pos).len() ==> g.in_bounds(
                #[trigger] shape_moves_spec(shape, pos)[j],
            ),
{
    match shape {
        WorldShape::Rectangle { width, height } => {
            lemma_rect_moves_in_bounds(pos, width as int, height as int, 8);
        },
        WorldShape::Torus { width, height } => {
            lemma_torus_moves_in_bounds(pos, width as int, height as int, 8);
        },
    }
}

/// An interior cell of a rectangle — neither coordinate on the boundary —
/// has exactly eight neighbours.
pub proof fn lemma_rect_interior_neighbours(pos: Position, w: int, h: int)
    requires
        0 < pos.0,
        pos.0 + 1 < w,
        0 < pos.1,
        pos.1 + 1 < h,
    ensures
        rect_moves_spec(pos, w, h, 8).len() == 8,
{
    reveal_with_fuel(rect_moves_spec, 9);
}

/// A corner cell of a rectangle has at most three neighbours.
pub proof fn lemma_rect_corner_neighbours(pos: Position, w: int, h: int)
    requires
        pos.0 < w,
        pos.1 < h,
        pos.0 == 0 || pos.0 + 1 == w,
        pos.1 == 0 || pos.1 + 1 == h,
    ensures
        rect_moves_spec(pos, w, h, 8).len() <= 3,
{
    reveal_with_fuel(rect_moves_spec, 9);
}

/// A boundary cell of a rectangle has at most five neighbours.
pub proof fn lemma_rect_edge_neighbours(pos: Position, w: int, h: int)
    requires
        pos.0 < w,
        pos.1 < h,
        pos.0 == 0 || pos.0 + 1 == w || pos.1 == 0 || pos.1 + 1 == h,
    ensures
        rect_moves_spec(pos, w, h, 8).len() <= 5,
{
    reveal_with_fuel(rect_moves_spec, 9);
}

/// How one wrap step lands, spelled out per delta.
proof fn lemma_wrap_cases(v: int, dim: int)
    requires
        0 <= v < dim,
    ensures
        wrap_spec(v, 0, dim) == v,
        wrap_spec(v, 1, dim) == if v + 1 < dim {
            v + 1
        } else {
            0
        },
        wrap_spec(v, -1, dim) == if v >= 1 {
            v - 1
        } else {
            dim - 1
        },
{
    lemma_mod_add_multiples_vanish(v, dim);
    lemma_small_mod(v as nat, dim as nat);
    lemma_mod_add_multiples_vanish(v + 1, dim);
    if v + 1 < dim {
        lemma_small_mod((v + 1) as nat, dim as nat);
    } else {
        vstd::arithmetic::div_mod::lemma_mod_self_0(dim);
    }
    lemma_mod_add_multiples_vanish(v - 1, dim);
    if v >= 1 {
        lemma_small_mod((v - 1) as nat, dim as nat);
    } else {
        lemma_small_mod((dim - 1) as nat, dim as nat);
    }
}

/// A torus never drops a candidate: every cell has exactly eight
/// neighbour entries, duplicates included.
pub proof fn lemma_torus_eight(pos: Position, w: int, h: int)
    ensures
        torus_moves_spec(pos, w, h, 8).len() == 8,
{
    reveal_with_fuel(torus_moves_spec, 9);
}

/// On a torus with both dimensions at least three, every cell has exactly
/// eight pairwise distinct neighbours.
pub proof fn lemma_torus_neighbours_distinct(pos: Position, w: int, h: int)
    requires
        3 <= w <= usize::MAX,
        3 <= h <= usize::MAX,
        pos.0 < w,
        pos.1 < h,
    ensures
        torus_moves_spec(pos, w, h, 8).len() == 8,
        torus_moves_spec(pos, w, h, 8).no_duplicates(),
{
    reveal_with_fuel(torus_moves_spec, 9);
    lemma_wrap_cases(pos.0 as int, w);
    lemma_wrap_cases(pos.1 as int, h);
    let x = pos.0 as int;
    let y = pos.1 as int;
    let xp = wrap_spec(x, 1, w);
    let xm = wrap_spec(x, -1, w);
    let yp = wrap_spec(y, 1, h);
    let ym = wrap_spec(y, -1, h);
    assert(x != xp && x != xm && xp != xm);
    assert(y != yp && y != ym && yp != ym);
    assert(wrap_spec(x, 0, w) == x && wrap_spec(y, 0, h) == y);
    assert(0 <= xp < w && 0 <= xm < w && 0 <= yp < h && 0 <= ym < h);
    let s = torus_moves_spec(pos, w, h, 8);
    assert(s.len() == 8);
    assert(s[0] == ((x as usize, ym as usize)));
    assert(s[1] == ((xp as usize, ym as usize)));
    assert(s[2] == ((xp as usize, y as usize)));
    assert(s[3] == ((xp as usize, yp as usize)));
    assert(s[4] == ((x as usize, yp as usize)));
    assert(s[5] == ((xm as usize, yp as usize)));
    assert(s[6] == ((xm as usize, y as usize)));
    assert(s[7] == ((xm as usize, ym as usize)));
    assert forall|i: int, j: int| 0 <= i < j < s.len() implies s[i] != s[j] by {
        assert(x as usize as int == x && xp as usize as int == xp && xm as usize as int == xm);
        assert(y as usize as int == y && yp as usize as int == yp && ym as usize as int == ym);
    }
}

/// Keep `(x0, y0)` only when it lies inside a `width` by `height` box.
pub fn crop(candidate: (isize, isize), dimensions: (isize, isize)) -> (r: Option<Position>)
    ensures
        r == crop_spec(
            candidate.0 as int,
            candidate.1 as int,
            dimensions.0 as int,
            dimensions.1 as int,
        ),
{
    let (x0, y0): (isize, isize) = candidate;
    let (width, height): (isize, isize) = dimensions;
    if x0 >= 0 && x0 < width && y0 >= 0 && y0 < height {
        Some((x0 as usize, y0 as usize))
    } else {
        None
    }
}

/// The in-bounds neighbours of `pos` in a rectangle of the given
/// dimensions, clockwise from North.
pub fn moves(pos: Position, dimensions: (isize, isize)) -> (r: Vec<Position>)
    requires
        pos.0 <= 0x4000_0000,
        pos.1 <= 0x4000_0000,
    ensures
        r@ == rect_moves_spec(pos, dimensions.0 as int, dimensions.1 as int, 8),
{
    let (x0, y0): (isize, isize) = (pos.0 as isize, pos.1 as isize);
    let mut r: Vec<Position> = Vec::new();
    let mut d: u8 = 0;
    while d < 8
        invariant
            d <= 8,
            x0 == pos.0 as int,
            y0 == pos.1 as int,
            pos.0 <= 0x4000_0000,
            pos.1 <= 0x4000_0000,
            r@ == rect_moves_spec(pos, dimensions.0 as int, dimensions.1 as int, d as int),
        decreases 8 - d,
    {
        let dir = Direction::from_u8(d).unwrap();
        let (dx, dy): (isize, isize) = dir.displacement();
        match crop((x0 + dx, y0 + dy), dimensions) {
            Some(p) => r.push(p),
            None => (),
        }
        d = d + 1;
    }
    r
}

/// `v` moved one step (`delta` in `{-1, 0, 1}`) around a ring of `dim`
/// cells.
fn wrap(v: usize, delta: isize, dim: usize) -> (r: usize)
    requires
        0 < dim <= 0x4000_0000,
        v < dim,
        -1 <= delta <= 1,
    ensures
        r == wrap_spec(v as int, delta as int, dim as int),
        r < dim,
{
    if delta == -1 {
        (v + dim - 1) % dim
    } else if delta == 1 {
        proof {
            lemma_mod_add_multiples_vanish(v as int + 1, dim as int);
            if v + 1 == dim {
                vstd::arithmetic::div_mod::lemma_mod_self_0(dim as int);
            } else {
                lemma_small_mod((v + 1) as nat, dim as nat);
            }
        }
        if v + 1 == dim {
            0
        } else {
            v + 1
        }
    } else {
        proof {
            lemma_mod_add_multiples_vanish(v as int, dim as int);
            lemma_small_mod(v as nat, dim as nat);
        }
        v
    }
}

/// The eight wrapped neighbours of `pos` on a torus of the given
/// dimensions, clockwise from North.
pub fn torus_moves(pos: Position, width: usize, height: usize) -> (r: Vec<Position>)
    requires
        0 < width <= 0x4000_0000,
        0 < height <= 0x4000_0000,
        pos.0 < width,
        pos.1 < height,
    ensures
        r@ == torus_moves_spec(pos, width as int, height as int, 8),
{
    let mut r: Vec<Position> = Vec::new();
    let mut d: u8 = 0;
    while d < 8
        invariant
            d <= 8,
            0 < width <= 0x4000_0000,
            0 < height <= 0x4000_0000,
            pos.0 < width,
            pos.1 < height,
            r@ == torus_moves_spec(pos, width as int, height as int, d as int),
        decreases 8 - d,
    {
        let dir = Direction::from_u8(d).unwrap();
        let (dx, dy): (isize, isize) = dir.displacement();
        let p = (wrap(pos.0, dx, width), wrap(pos.1, dy, height));
        r.push(p);
        d = d + 1;
    }
    r
}

/// `r` is `sqrt(n)` rounded to the nearest integer: the unique `r >= 0`
/// with `(2r - 1)^2 <= 4n < (2r + 1)^2` (taking `r == 0` for `n == 0`).
pub open spec fn is_rounded_sqrt(n: int, r: int) -> bool {
    r >= 0 && 4 * n < (2 * r + 1) * (2 * r + 1) && (r == 0 || (2 * r - 1) * (2 * r - 1) <= 4 * n)
}

/// `sqrt(n)` rounded to the nearest integer, as a function.
pub open spec fn rounded_sqrt(n: int) -> int {
    choose|r: int| is_rounded_sqrt(n, r)
}

/// No two integers round `sqrt(n)` both ways.
pub proof fn lemma_rounded_sqrt_unique(n: int, r: int)
    requires
        is_rounded_sqrt(n, r),
    ensures
        rounded_sqrt(n) == r,
{
    assert(is_rounded_sqrt(n, rounded_sqrt(n)));
    let s = rounded_sqrt(n);
    if s != r {
        let (lo, hi) = if s < r {
            (s, r)
        } else {
            (r, s)
        };
        assert(hi >= 1);
        assert((2 * hi - 1) * (2 * hi - 1) <= 4 * n);
        assert(4 * n < (2 * lo + 1) * (2 * lo + 1));
        assert(2 * lo + 1 <= 2 * hi - 1);
        assert((2 * lo + 1) * (2 * lo + 1) <= (2 * hi - 1) * (2 * hi - 1)) by (nonlinear_arith)
            requires
                1 <= 2 * lo + 1 <= 2 * hi - 1,
        ;
    }
}

/// A rounded square root never exceeds `m` when `n <= m * m`.
pub proof fn lemma_rounded_sqrt_bound(n: int, r: int, m: int)
    requires
        is_rounded_sqrt(n, r),
        0 <= n <= m * m,
        m >= 0,
    ensures
        r <= m,
{
    if r > m {
        assert(r >= 1);
        assert((2 * r - 1) * (2 * r - 1) <= 4 * n);
        assert(4 * n <= 4 * (m * m));
        assert(2 * m + 1 <= 2 * r - 1);
        assert(4 * (m * m) < (2 * m + 1) * (2 * m + 1)) by (nonlinear_arith)
            requires
                m >= 0,
        ;
        assert((2 * m + 1) * (2 * m + 1) <= (2 * r - 1) * (2 * r - 1)) by (nonlinear_arith)
            requires
                1 <= 2 * m + 1 <= 2 * r - 1,
        ;
    }
}

/// The square root of `n`, rounded to the nearest integer.
fn isqrt_rounded(n: u64) -> (r: u64)
    ensures
        is_rounded_sqrt(n as int, r as int),
        r <= 0x1_0000_0000,
{
    let mut lo: u64 = 0;
    let mut hi: u64 = 0x1_0000_0000;
    proof {
        assert((0x1_0000_0000u64 as int) * (0x1_0000_0000u64 as int) > u64::MAX as int);
    }
    while lo + 1 < hi
        invariant
            lo < hi <= 0x1_0000_0000,
            lo * lo <= n,
            (hi as int) * (hi as int) > n,
        decreases hi - lo,
    {
        let mid: u64 = lo + (hi - lo) / 2;
        proof {
            assert((mid as int) * (mid as int) <= 0x1_0000_0000 * 0x1_0000_0000)
                by (nonlinear_arith)
                requires
                    0 <= mid <= 0x1_0000_0000,
            ;
        }
        let m2: u128 = (mid as u128) * (mid as u128);
        if m2 <= n as u128 {
            lo = mid;
        } else {
            hi = mid;
        }
    }
    // here lo is the floor square root: lo^2 <= n < (lo + 1)^2
    proof {
        assert(lo * lo <= 0xFFFF_FFFF * 0xFFFF_FFFF) by (nonlinear_arith)
            requires
                0 <= lo <= 0xFFFF_FFFF,
        ;
    }
    let s2: u64 = lo * lo;
    let r: u64 = if n - s2 > lo {
        lo + 1
    } else {
        lo
    };
    proof {
        let l = lo as int;
        let k = n as int;
        assert(l * l <= k < (l + 1) * (l + 1));
        if k - l * l > l {
            assert(4 * k >= 4 * (l * l) + 4 * l + 4);
            assert((2 * (l + 1) - 1) * (2 * (l + 1) - 1) == 4 * (l * l) + 4 * l + 1)
                by (nonlinear_arith);
            assert(4 * k < 4 * ((l + 1) * (l + 1)));
            assert(4 * ((l + 1) * (l + 1)) < (2 * (l + 1) + 1) * (2 * (l + 1) + 1))
                by (nonlinear_arith)
                requires
                    l >= 0,
            ;
        } else {
            assert(4 * k <= 4 * (l * l) + 4 * l);
            assert((2 * l + 1) * (2 * l + 1) == 4 * (l * l) + 4 * l + 1) by (nonlinear_arith);
            if l > 0 {
                assert((2 * l - 1) * (2 * l - 1) == 4 * (l * l) - 4 * l + 1) by (nonlinear_arith);
            }
        }
    }
    r
}

/// The absolute horizontal and vertical offsets between two positions.
pub open spec fn axis_deltas(a: Position, b: Position) -> (int, int) {
    (
        if b.0 >= a.0 {
            b.0 - a.0
        } else {
            a.0 - b.0
        },
        if b.1 >= a.1 {
            b.1 - a.1
        } else {
            a.1 - b.1
        },
    )
}

/// Euclidean distance between two positions of a rectangle, rounded to the
/// nearest integer.
pub open spec fn rect_dist(a: Position, b: Position) -> int {
    let d = axis_deltas(a, b);
    rounded_sqrt(d.0 * d.0 + d.1 * d.1)
}

/// The shortest offset between `u` and `v` around a ring of `dim` cells.
pub open spec fn ring_delta(u: int, v: int, dim: int) -> int {
    let d = if v >= u {
        v - u
    } else {
        u - v
    };
    if d <= dim - d {
        d
    } else {
        dim - d
    }
}

/// Euclidean distance on the shortest per-axis wrap-around offsets of a
/// `w` by `h` torus, rounded to the nearest integer.
pub open spec fn torus_dist(a: Position, b: Position, w: int, h: int) -> int {
    let dx = ring_delta(a.0 as int, b.0 as int, w);
    let dy = ring_delta(a.1 as int, b.1 as int, h);
    rounded_sqrt(dx * dx + dy * dy)
}

/// The sum of the per-axis offsets the shape's distance is built from:
/// a crude upper bound on the distance estimate.
pub open spec fn shape_delta_sum(shape: WorldShape, a: Position, b: Position) -> int {
    match shape {
        WorldShape::Rectangle { width, height } => {
            let d = axis_deltas(a, b);
            d.0 + d.1
        },
        WorldShape::Torus { width, height } => ring_delta(a.0 as int, b.0 as int, width as int)
            + ring_delta(a.1 as int, b.1 as int, height as int),
    }
}

/// The distance estimate between two positions under `shape`.
pub open spec fn shape_dist_spec(shape: WorldShape, a: Position, b: Position) -> int {
    match shape {
        WorldShape::Rectangle { width, height } => rect_dist(a, b),
        WorldShape::Torus { width, height } => torus_dist(a, b, width as int, height as int),
    }
}

/// The rounded square root of `dx^2 + dy^2`, as an `isize`.
fn dist_of_deltas(dx: u64, dy: u64) -> (r: isize)
    requires
        dx <= 0x3FFF_FFFF,
        dy <= 0x3FFF_FFFF,
    ensures
        r as int == rounded_sqrt(dx * dx + dy * dy),
        0 <= r as int <= dx + dy,
{
    proof {
        assert(dx * dx <= 0x3FFF_FFFF * 0x3FFF_FFFF && dy * dy <= 0x3FFF_FFFF * 0x3FFF_FFFF)
            by (nonlinear_arith)
            requires
                0 <= dx <= 0x3FFF_FFFF,
                0 <= dy <= 0x3FFF_FFFF,
        ;
    }
    let n: u64 = dx * dx + dy * dy;
    let s: u64 = isqrt_rounded(n);
    proof {
        lemma_rounded_sqrt_unique(n as int, s as int);
        assert(dx * dx + dy * dy <= (dx + dy) * (dx + dy)) by (nonlinear_arith)
            requires
                0 <= dx,
                0 <= dy,
        ;
        lemma_rounded_sqrt_bound(n as int, s as int, dx as int + dy as int);
    }
    s as isize
}

/// Euclidean distance between two rectangle positions, rounded to the
/// nearest integer. The estimate the informed strategies order their
/// frontiers by; the true cost of a move is always 1.
pub fn distance(a: Position, b: Position) -> (r: isize)
    requires
        a.0 <= 0x3FFF_FFFF,
        a.1 <= 0x3FFF_FFFF,
        b.0 <= 0x3FFF_FFFF,
        b.1 <= 0x3FFF_FFFF,
    ensures
        r as int == rect_dist(a, b),
        r as int <= axis_deltas(a, b).0 + axis_deltas(a, b).1,
        r >= 0,
{
    let dx: u64 = if b.0 >= a.0 {
        (b.0 - a.0) as u64
    } else {
        (a.0 - b.0) as u64
    };
    let dy: u64 = if b.1 >= a.1 {
        (b.1 - a.1) as u64
    } else {
        (a.1 - b.1) as u64
    };
    dist_of_deltas(dx, dy)
}

/// The distance estimate between two positions under `shape`.
pub fn shape_distance(shape: WorldShape, a: Position, b: Position) -> (r: isize)
    requires
        shape_fits(shape, a),
        shape_fits(shape, b),
    ensures
        r as int == shape_dist_spec(shape, a, b),
        r as int <= shape_delta_sum(shape, a, b),
        r >= 0,
{
    match shape {
        WorldShape::Rectangle { width, height } => distance(a, b),
        WorldShape::Torus { width, height } => {
            let dxr: usize = if b.0 >= a.0 {
                b.0 - a.0
            } else {
                a.0 - b.0
            };
            let dyr: usize = if b.1 >= a.1 {
                b.1 - a.1
            } else {
                a.1 - b.1
            };
            let dx: usize = if dxr <= width - dxr {
                dxr
            } else {
                width - dxr
            };
            let dy: usize = if dyr <= height - dyr {
                dyr
            } else {
                height - dyr
            };
            dist_of_deltas(dx as u64, dy as u64)
        },
    }
}

/// The rating the greedy strategy orders its frontier by: the negated
/// rectangle distance to the goal, paired with the position itself.
pub fn appraise(pos: Position, goal: Position) -> (r: (isize, Position))
    requires
        pos.0 <= 0x3FFF_FFFF,
        pos.1 <= 0x3FFF_FFFF,
        goal.0 <= 0x3FFF_FFFF,
        goal.1 <= 0x3FFF_FFFF,
    ensures
        r.0 as int == -rect_dist(pos, goal),
        r.1 == pos,
{
    (-distance(pos, goal), pos)
}

/// The candidate neighbours of `pos` under `shape`, clockwise from North.
pub fn shape_moves(shape: WorldShape, pos: Position) -> (r: Vec<Position>)
    requires
        shape_fits(shape, pos),
    ensures
        r@ == shape_moves_spec(shape, pos),
{
    match shape {
        WorldShape::Rectangle { width, height } => {
            let w: isize = width as isize;
            let h: isize = height as isize;
            moves(pos, (w, h))
        },
        WorldShape::Torus { width, height } => torus_moves(pos, width, height),
    }
}

} // verus!
