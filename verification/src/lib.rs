//! A resumable grid path-search library.
//!
//! A rectangular grid of fields (start, goal, passable, impassable cells) is
//! explored one step at a time by one of three strategies: breadth-first,
//! greedy best-first, or A*. Each strategy is a small state machine that an
//! external driver advances by calling `step()`, reading back the visited
//! set, the frontier and, on completion, the reconstructed path.

use vstd::prelude::*;

pub use crate::astar::{astar, astar_search, AStarSearch};
pub use crate::bfs::{bfs, bfs_with_shape, do_bfs, BFSSearch};
pub use crate::engine::{
    build_path, reconstruct_path, GraphSearch, Node2d, NodeState, SearchState,
};
pub use crate::frame_counter::{FrameCounter, FrameUpdate};
pub use crate::greedy::{greedy, greedy_search, GreedySearch};
pub use crate::grid::{index, Field, Grid, MapPositions};
pub use crate::image::{draw_points, from_png, map_to_png, Image, Pixels};
pub use crate::image_buffer::{image_bytes, map_to_image_buffer, MapImage};
pub use crate::node::{MapField, Positionable, SearchNode};
pub use crate::topology::{
    appraise, crop, distance, moves, shape_distance, shape_moves, torus_moves, Direction,
    WorldShape,
};

pub mod astar;
pub mod bfs;
pub mod engine;
pub mod frame_counter;
pub mod greedy;
pub mod grid;
pub mod image;
pub mod image_buffer;
pub mod node;
pub mod tables;
pub mod topology;

verus! {

/// A cell address: `(x, y)` with `0 <= x < width`, `0 <= y < height`.
pub type Position = (usize, usize);

/// A reconstructed route, goal first, start last.
pub type Path = Vec<Position>;

/// The one domain error: every cell reachable from the start was expanded
/// and no goal was among them.
#[derive(Clone, Debug, PartialEq, Eq)]
pub enum Error {
    GoalUnreachable,
}

/// What a completed search hands back: where it started, what it sought,
/// the paths it found and every position it expanded.
pub struct Search {
    pub start: Vec<Position>,
    pub goals: Vec<Position>,
    pub paths: Vec<Path>,
    pub visited: Vec<Position>,
}

/// A completed search, or the reason there is none.
pub type SearchResult = Result<Search, Error>;

} // verus!
