//! The breadth-first strategy: a FIFO frontier, a visited-on-enqueue set
//! and a predecessor map, advanced one expansion at a time.

use vstd::prelude::*;
use std::rc::Rc;
use crate::Position;
use crate::engine::{
    acyclic, add_preds, expand_new, is_walk, lemma_index_of_push_contained,
    lemma_index_of_push_new, lemma_index_of_props, lemma_steps_ordered_acyclic, steps_ordered,
    unreachable_msg, walk_of, GraphSearch, Node2d, NodeState, SearchState, StateView,
};
use crate::grid::Grid;
use crate::Error;
use crate::node::{neighbours_spec, shape_matches, steps_linked, MapField};
use crate::tables::{PosTable, VisitedTable};
use crate::topology::WorldShape;

verus! {

/// A breadth-first search in progress. The frontier is first-in-first-out,
/// so the first path found uses the fewest moves; a position enters the
/// visited set the moment it is enqueued and is never enqueued again.
pub struct BFSSearch {
    pub result: SearchState,
    pub frontier: Vec<MapField>,
    pub visited: VisitedTable,
    pub steps: PosTable<Position>,
    pub map: Rc<Grid>,
    pub shape: WorldShape,
}

/// What one breadth-first `step()` does, as a relation between the state
/// before and the state after, phrased over views. Every case pins the
/// after-views as a function of the before-views, so stepping is
/// deterministic.
pub open spec fn bfs_step_rel(pre: BFSSearch, post: BFSSearch) -> bool {
    &&& post.map == pre.map
    &&& post.shape == pre.shape
    &&& if pre.result.is_over_spec() {
        post == pre
    } else if pre.frontier@.len() == 0 {
        &&& post.result.view_state() == StateView::Failed("goal unreachable"@)
        &&& post.frontier@ == pre.frontier@
        &&& post.visited_view() == pre.visited_view()
        &&& post.steps_view() == pre.steps_view()
    } else if pre.map.field_at(pre.frontier@[0].pos) is Goal {
        &&& post.result.view_state() == StateView::Finished(
            walk_of(pre.steps_view(), pre.frontier@[0].pos),
        )
        &&& post.frontier@ == pre.frontier@.drop_first()
        &&& post.visited_view() == pre.visited_view()
        &&& post.steps_view() == pre.steps_view()
    } else {
        let cur = pre.frontier@[0].pos;
        let ns = neighbours_spec(*pre.map, pre.shape, cur);
        let fresh = expand_new(ns, pre.visited_view().to_set());
        &&& post.result is InProgress
        &&& post.frontier_view() == pre.frontier_view().drop_first() + fresh
        &&& post.visited_view() == pre.visited_view() + fresh
        &&& post.steps_view() == add_preds(pre.steps_view(), fresh, cur)
    }
}

impl BFSSearch {
    /// The frontier as the sequence of its positions, oldest first.
    pub open spec fn frontier_view(&self) -> Seq<Position> {
        self.frontier@.map_values(|n: MapField| n.pos)
    }

    /// The visited positions in discovery order.
    pub open spec fn visited_view(&self) -> Seq<Position> {
        self.visited.items@
    }

    /// The predecessor map: who first discovered each visited position.
    pub open spec fn steps_view(&self) -> Map<Position, Position> {
        self.steps.map_view()
    }

    /// Every part sized to the one shared grid, every frontier node on
    /// that grid and already visited, and every predecessor recorded
    /// earlier in discovery order than the position it discovered.
    pub open spec fn wf(&self) -> bool {
        &&& self.map.wf()
        &&& shape_matches(self.shape, *self.map)
        &&& self.visited.wf()
        &&& self.visited.width == self.map.width
        &&& self.visited.height == self.map.height
        &&& self.steps.wf()
        &&& self.steps.width == self.map.width
        &&& self.steps.height == self.map.height
        &&& forall|i: int|
            0 <= i < self.frontier@.len() ==> (#[trigger] self.frontier@[i]).wf()
                && self.frontier@[i].map == self.map && self.frontier@[i].shape == self.shape
        &&& forall|i: int|
            0 <= i < self.frontier@.len() ==> self.visited.has(
                (#[trigger] self.frontier@[i]).pos,
            )
        &&& steps_ordered(self.steps_view(), self.visited.items@)
        &&& steps_linked(self.steps_view(), *self.map, self.shape)
    }

    /// A well-formed engine's predecessor map can be walked back safely.
    pub proof fn lemma_reconstructible(&self)
        requires
            self.wf(),
        ensures
            acyclic(self.steps_view()),
            forall|p: Position| #[trigger]
                self.steps_view().dom().contains(p) ==> self.steps.in_dims(self.steps_view()[p]),
    {
        lemma_steps_ordered_acyclic(self.steps_view(), self.visited.items@);
        assert forall|p: Position| #[trigger]
            self.steps_view().dom().contains(p) implies self.steps.in_dims(
            self.steps_view()[p],
        ) by {
            lemma_index_of_props(self.visited.items@, self.steps_view()[p]);
        }
    }

    /// One expansion. Terminal states are left untouched; an empty
    /// frontier fails the search; a dequeued goal finishes it with the
    /// backward walk of the predecessor map; otherwise the dequeued node's
    /// unvisited neighbours are enqueued, marked visited and recorded as
    /// discovered by it, in clockwise order.
    pub fn step(&mut self)
        requires
            old(self).wf(),
        ensures
            final(self).wf(),
            bfs_step_rel(*old(self), *final(self)),
    {
        if self.result.is_over() {
            return ;
        }
        if self.frontier.len() == 0 {
            self.result = SearchState::Failed(unreachable_msg());
            return ;
        }
        let current = self.frontier.remove(0);
        proof {
            assert(old(self).frontier@.remove(0) =~= old(self).frontier@.drop_first());
            assert(self.frontier_view() =~= old(self).frontier_view().drop_first());
        }
        if current.is_goal() {
            proof {
                self.lemma_reconstructible();
            }
            let path = crate::engine::build_path(&self.steps, current.id());
            self.result = SearchState::Finished(path);
            return ;
        }
        let cur_pos = current.id();
        let ghost cpos = current.pos;
        let ghost ns_full = current.nbrs_of();
        let mut nbrs = current.neighbours();
        let ghost items0 = self.visited.items@;
        let ghost fr0 = self.frontier_view();
        let ghost m0 = self.steps.map_view();
        let ghost vis0 = items0.to_set();
        let ghost mut i: int = 0;
        proof {
            assert(nbrs@.map_values(|n: MapField| n.pos) == ns_full);
            assert(ns_full.skip(0) =~= ns_full);
        }
        while nbrs.len() > 0
            invariant
                self.wf(),
                self.map == old(self).map,
                self.shape == old(self).shape,
                self.result == old(self).result,
                current.wf(),
                current.map == self.map,
                current.shape == self.shape,
                cpos == current.pos,
                cur_pos == cpos,
                self.visited.has(cpos),
                ns_full == neighbours_spec(*self.map, self.shape, cpos),
                0 <= i <= ns_full.len(),
                nbrs@.len() == ns_full.len() - i,
                nbrs@.map_values(|n: MapField| n.pos) == ns_full.skip(i),
                forall|j: int|
                    0 <= j < nbrs@.len() ==> (#[trigger] nbrs@[j]).wf() && nbrs@[j].map == self.map
                        && nbrs@[j].shape == self.shape,
                self.visited.items@ + expand_new(ns_full.skip(i), self.visited.items@.to_set())
                    == items0 + expand_new(ns_full, vis0),
                self.frontier_view() + expand_new(
                    ns_full.skip(i),
                    self.visited.items@.to_set(),
                ) == fr0 + expand_new(ns_full, vis0),
                add_preds(
                    self.steps.map_view(),
                    expand_new(ns_full.skip(i), self.visited.items@.to_set()),
                    cpos,
                ) == add_preds(m0, expand_new(ns_full, vis0), cpos),
            decreases nbrs@.len(),
        {
            let ghost nb0 = nbrs@;
            let n = nbrs.remove(0);
            let np = n.id();
            proof {
                assert(nbrs@ =~= nb0.drop_first());
                assert(n == nb0[0]);
                assert(nb0.map_values(|m: MapField| m.pos)[0] == np);
                assert(ns_full.skip(i)[0] == np);
                assert(ns_full.skip(i).drop_first() =~= ns_full.skip(i + 1));
                assert(nbrs@.map_values(|m: MapField| m.pos) =~= nb0.map_values(
                    |m: MapField| m.pos,
                ).drop_first());
                assert(ns_full.skip(i).len() > 0);
            }
            let ghost vis_now = self.visited.items@.to_set();
            if !self.visited.contains(np) {
                let ghost items_before = self.visited.items@;
                let ghost fr_before = self.frontier_view();
                let ghost m_before = self.steps.map_view();
                self.visited.insert(np);
                self.steps.insert(np, cur_pos);
                let ghost fr_b0 = self.frontier@;
                self.frontier.push(n);
                proof {
                    assert(self.frontier@.drop_last() =~= fr_b0);
                    assert(self.frontier_view() =~= fr_before.push(np));
                    crate::engine::lemma_push_to_set(items_before, np);
                    assert(self.visited.items@.to_set() =~= vis_now.insert(np));
                    assert(expand_new(ns_full.skip(i), vis_now) =~= seq![np] + expand_new(
                        ns_full.skip(i + 1),
                        vis_now.insert(np),
                    ));
                    assert(items_before + expand_new(ns_full.skip(i), vis_now)
                        =~= self.visited.items@ + expand_new(
                        ns_full.skip(i + 1),
                        self.visited.items@.to_set(),
                    ));
                    assert(fr_before + expand_new(ns_full.skip(i), vis_now) =~= self.frontier_view()
                        + expand_new(ns_full.skip(i + 1), self.visited.items@.to_set()));
                    assert((seq![np] + expand_new(ns_full.skip(i + 1), vis_now.insert(np)))[0]
                        == np);
                    assert((seq![np] + expand_new(ns_full.skip(i + 1), vis_now.insert(np))).drop_first()
                        =~= expand_new(ns_full.skip(i + 1), vis_now.insert(np)));
                    assert(add_preds(m_before, expand_new(ns_full.skip(i), vis_now), cpos)
                        == add_preds(
                        self.steps.map_view(),
                        expand_new(ns_full.skip(i + 1), self.visited.items@.to_set()),
                        cpos,
                    ));
                    lemma_expand_preserves_order(
                        m_before,
                        items_before,
                        self.steps.map_view(),
                        self.visited.items@,
                        np,
                        cpos,
                    );
                    assert(ns_full[i] == np);
                    assert(neighbours_spec(*self.map, self.shape, cpos).contains(np));
                    i = i + 1;
                }
            } else {
                proof {
                    assert(vis_now.contains(np));
                    assert(expand_new(ns_full.skip(i), vis_now) == expand_new(
                        ns_full.skip(i + 1),
                        vis_now,
                    ));
                    i = i + 1;
                }
            }
        }
        proof {
            assert(ns_full.skip(ns_full.len() as int) =~= Seq::<Position>::empty());
            assert(self.visited.items@ + expand_new(
                ns_full.skip(ns_full.len() as int),
                self.visited.items@.to_set(),
            ) =~= self.visited.items@);
            assert(self.frontier_view() + expand_new(
                ns_full.skip(ns_full.len() as int),
                self.visited.items@.to_set(),
            ) =~= self.frontier_view());
        }
        self.result = SearchState::InProgress;
    }
}

/// A freshly seeded breadth-first engine over `map`: status `NotStarted`,
/// no predecessors, and the frontier and visited set both holding exactly
/// the grid's `Start` cells, in row-major order.
pub open spec fn bfs_seeded(e: BFSSearch, map: Grid, shape: WorldShape) -> bool {
    &&& *e.map == map
    &&& e.shape == shape
    &&& e.result is NotStarted
    &&& e.steps_view() == Map::<Position, Position>::empty()
    &&& e.frontier_view() == e.visited_view()
    &&& forall|i: int|
        0 <= i < e.visited_view().len() ==> map.in_bounds(#[trigger] e.visited_view()[i])
            && map.field_at(e.visited_view()[i]) is Start
    &&& forall|p: Position| map.in_bounds(p) && map.field_at(p) is Start ==> e.visited_view().contains(p)
    &&& forall|i: int, j: int|
        0 <= i < j < e.visited_view().len() ==> crate::grid::index_spec(
            e.visited_view()[i],
            map.width as int,
        ) < crate::grid::index_spec(e.visited_view()[j], map.width as int)
}

/// A breadth-first engine over `map` under the given shape, seeded with
/// every `Start` cell.
pub fn bfs_with_shape(map: Grid, shape: WorldShape) -> (r: BFSSearch)
    requires
        map.wf(),
        shape_matches(shape, map),
    ensures
        r.wf(),
        bfs_seeded(r, map, shape),
{
    let width = map.width;
    let height = map.height;
    let starts = map.start();
    let rc = std::rc::Rc::new(map);
    let mut visited = VisitedTable::new(width, height);
    let steps: PosTable<Position> = PosTable::new(width, height);
    let mut frontier: Vec<MapField> = Vec::new();
    let mut i: usize = 0;
    while i < starts.len()
        invariant
            rc.wf(),
            *rc == map,
            shape_matches(shape, map),
            width == map.width,
            height == map.height,
            i <= starts@.len(),
            forall|k: int|
                0 <= k < starts@.len() ==> map.in_bounds(#[trigger] starts@[k]) && map.field_at(
                    starts@[k],
                ) is Start,
            forall|p: Position| map.in_bounds(p) && map.field_at(p) is Start ==> starts@.contains(
                p,
            ),
            forall|k: int, l: int|
                0 <= k < l < starts@.len() ==> crate::grid::index_spec(starts@[k], map.width as int)
                    < crate::grid::index_spec(starts@[l], map.width as int),
            visited.wf(),
            visited.width == width,
            visited.height == height,
            visited.items@ == starts@.take(i as int),
            steps.wf(),
            steps.width == width,
            steps.height == height,
            steps.map_view() == Map::<Position, Position>::empty(),
            frontier@.len() == i,
            forall|k: int|
                0 <= k < i ==> (#[trigger] frontier@[k]).pos == starts@[k] && frontier@[k].map == rc
                    && frontier@[k].shape == shape && frontier@[k].wf(),
        decreases starts@.len() - i,
    {
        let p = starts[i];
        proof {
            if visited.items@.contains(p) {
                let k = choose|k: int| 0 <= k < i && starts@.take(i as int)[k] == p;
                assert(starts@[k] == p);
                assert(crate::grid::index_spec(starts@[k], map.width as int)
                    < crate::grid::index_spec(starts@[i as int], map.width as int));
            }
        }
        visited.insert(p);
        frontier.push(MapField { pos: p, map: crate::node::rc_clone(&rc), shape });
        proof {
            assert(visited.items@ =~= starts@.take(i + 1));
        }
        i = i + 1;
    }
    proof {
        assert(starts@.take(starts@.len() as int) =~= starts@);
    }
    let r = BFSSearch {
        result: SearchState::NotStarted,
        frontier,
        visited,
        steps,
        map: rc,
        shape,
    };
    proof {
        assert(r.frontier_view() =~= r.visited_view());
    }
    r
}

/// A breadth-first engine over `map` as a hard-bounded rectangle, seeded
/// with every `Start` cell.
pub fn bfs(map: Grid) -> (r: BFSSearch)
    requires
        map.wf(),
    ensures
        r.wf(),
        bfs_seeded(
            r,
            map,
            (WorldShape::Rectangle { width: map.width, height: map.height }),
        ),
{
    let shape = WorldShape::Rectangle { width: map.width, height: map.height };
    bfs_with_shape(map, shape)
}

impl BFSSearch {
    /// A deep copy of the whole search state, for save and restore; the
    /// grid itself stays shared, being immutable to the search.
    pub fn snapshot(&self) -> (r: BFSSearch)
        requires
            self.wf(),
        ensures
            r.wf(),
            same_view(*self, r),
    {
        let mut frontier: Vec<MapField> = Vec::new();
        let mut i: usize = 0;
        while i < self.frontier.len()
            invariant
                self.wf(),
                i <= self.frontier@.len(),
                frontier@.len() == i,
                forall|j: int|
                    0 <= j < i ==> (#[trigger] frontier@[j]).pos == self.frontier@[j].pos
                        && frontier@[j].map == self.map && frontier@[j].shape == self.shape
                        && frontier@[j].wf(),
            decreases self.frontier@.len() - i,
        {
            let pos = self.frontier[i].id();
            frontier.push(MapField { pos, map: crate::node::rc_clone(&self.map), shape: self.shape });
            i = i + 1;
        }
        let r = BFSSearch {
            result: self.result.duplicate(),
            frontier,
            visited: self.visited.duplicate(),
            steps: self.steps.duplicate(),
            map: crate::node::rc_clone(&self.map),
            shape: self.shape,
        };
        proof {
            assert(r.frontier_view() =~= self.frontier_view());
            assert(r.steps.map_view() =~= self.steps.map_view());
            assert forall|j: int| 0 <= j < r.frontier@.len() implies r.visited.has(
                (#[trigger] r.frontier@[j]).pos,
            ) by {
                assert(self.visited.has(self.frontier@[j].pos));
            }
        }
        r
    }
}

/// The display projection of an engine: its visited cells, then its
/// frontier cells, then — once finished — its path cells.
pub open spec fn nodes_view(e: BFSSearch) -> Seq<Node2d> {
    e.visited_view().map_values(|p: Position| Node2d(p, NodeState::Visited))
        + e.frontier_view().map_values(|p: Position| Node2d(p, NodeState::Frontier)) + (
    match e.result {
        SearchState::Finished(path) => path@.map_values(|p: Position| Node2d(p, NodeState::Path)),
        _ => Seq::<Node2d>::empty(),
    })
}

impl BFSSearch {
    /// The visited, frontier and path cells, tagged for a renderer.
    pub fn nodes(&self) -> (r: Vec<Node2d>)
        ensures
            r@ == nodes_view(*self),
    {
        let mut r: Vec<Node2d> = Vec::new();
        let mut i: usize = 0;
        while i < self.visited.items.len()
            invariant
                i <= self.visited.items@.len(),
                r@ == self.visited.items@.take(i as int).map_values(
                    |p: Position| Node2d(p, NodeState::Visited),
                ),
            decreases self.visited.items@.len() - i,
        {
            r.push(Node2d(self.visited.items[i], NodeState::Visited));
            proof {
                assert(self.visited.items@.take(i + 1) =~= self.visited.items@.take(
                    i as int,
                ).push(self.visited.items@[i as int]));
                assert(r@ =~= self.visited.items@.take(i + 1).map_values(
                    |p: Position| Node2d(p, NodeState::Visited),
                ));
            }
            i = i + 1;
        }
        proof {
            assert(self.visited.items@.take(self.visited.items@.len() as int)
                =~= self.visited.items@);
        }
        let ghost part1 = r@;
        let mut j: usize = 0;
        while j < self.frontier.len()
            invariant
                j <= self.frontier@.len(),
                part1 == self.visited.items@.map_values(|p: Position| Node2d(p, NodeState::Visited)),
                r@ == part1 + self.frontier@.take(j as int).map_values(
                    |n: MapField| n.pos,
                ).map_values(|p: Position| Node2d(p, NodeState::Frontier)),
            decreases self.frontier@.len() - j,
        {
            let np = self.frontier[j].id();
            r.push(Node2d(np, NodeState::Frontier));
            proof {
                assert(self.frontier@.take(j + 1) =~= self.frontier@.take(j as int).push(
                    self.frontier@[j as int],
                ));
                assert(r@ =~= part1 + self.frontier@.take(j + 1).map_values(
                    |n: MapField| n.pos,
                ).map_values(|p: Position| Node2d(p, NodeState::Frontier)));
            }
            j = j + 1;
        }
        proof {
            assert(self.frontier@.take(self.frontier@.len() as int) =~= self.frontier@);
        }
        let ghost part2 = r@;
        match &self.result {
            SearchState::Finished(path) => {
                let mut k: usize = 0;
                while k < path.len()
                    invariant
                        k <= path@.len(),
                        self.result == SearchState::Finished(*path),
                        part2 == self.visited.items@.map_values(
                            |p: Position| Node2d(p, NodeState::Visited),
                        ) + self.frontier_view().map_values(
                            |p: Position| Node2d(p, NodeState::Frontier),
                        ),
                        r@ == part2 + path@.take(k as int).map_values(
                            |p: Position| Node2d(p, NodeState::Path),
                        ),
                    decreases path@.len() - k,
                {
                    r.push(Node2d(path[k], NodeState::Path));
                    proof {
                        assert(path@.take(k + 1) =~= path@.take(k as int).push(path@[k as int]));
                        assert(r@ =~= part2 + path@.take(k + 1).map_values(
                            |p: Position| Node2d(p, NodeState::Path),
                        ));
                    }
                    k = k + 1;
                }
                proof {
                    assert(path@.take(path@.len() as int) =~= path@);
                }
            },
            _ => {
                proof {
                    assert(r@ =~= nodes_view(*self));
                }
            },
        }
        r
    }
}

impl GraphSearch for BFSSearch {
    open spec fn inv(&self) -> bool {
        self.wf()
    }

    fn step(&mut self) {
        BFSSearch::step(self)
    }

    fn nodes(&self) -> Vec<Node2d> {
        BFSSearch::nodes(self)
    }
}

/// Two engines agree on everything a step can observe: the same grid
/// value, shape, status, frontier positions, visited order and
/// predecessor map.
pub open spec fn same_view(a: BFSSearch, b: BFSSearch) -> bool {
    &&& *a.map == *b.map
    &&& a.shape == b.shape
    &&& a.result.view_state() == b.result.view_state()
    &&& a.frontier_view() == b.frontier_view()
    &&& a.visited_view() == b.visited_view()
    &&& a.steps_view() == b.steps_view()
}

/// Determinism: two breadth-first engines in agreeing states step into
/// agreeing states — what a step does depends on nothing but the engine's
/// state.
pub proof fn lemma_bfs_step_deterministic(
    pre1: BFSSearch,
    pre2: BFSSearch,
    post1: BFSSearch,
    post2: BFSSearch,
)
    requires
        same_view(pre1, pre2),
        bfs_step_rel(pre1, post1),
        bfs_step_rel(pre2, post2),
    ensures
        same_view(post1, post2),
{
    if !pre1.result.is_over_spec() && pre1.frontier@.len() > 0 {
        assert(pre1.frontier_view().len() == pre1.frontier@.len());
        assert(pre2.frontier_view().len() == pre2.frontier@.len());
        assert(pre1.frontier@[0].pos == pre1.frontier_view()[0]);
        assert(pre2.frontier@[0].pos == pre2.frontier_view()[0]);
        assert(pre1.frontier@[0].pos == pre2.frontier@[0].pos);
        assert(pre1.frontier_view().drop_first() =~= pre2.frontier_view().drop_first());
        if !(pre1.map.field_at(pre1.frontier@[0].pos) is Goal) {
            assert(post1.frontier@.map_values(|n: MapField| n.pos) == post1.frontier_view());
        } else {
            assert(post1.frontier@ == pre1.frontier@.drop_first());
            assert(post1.frontier_view() =~= pre1.frontier_view().drop_first());
            assert(post2.frontier_view() =~= pre2.frontier_view().drop_first());
        }
    }
}

/// A run of the breadth-first engine: a nonempty chain of states, each
/// one step after the one before.
pub open spec fn bfs_trace(tr: Seq<BFSSearch>) -> bool {
    &&& tr.len() >= 1
    &&& forall|k: int| 1 <= k < tr.len() ==> bfs_step_rel(tr[k - 1], #[trigger] tr[k])
}

/// Once terminal, always the very same state: a whole run of steps after
/// `Finished` or `Failed` leaves the engine untouched.
pub proof fn lemma_bfs_terminal_steps_idempotent(tr: Seq<BFSSearch>, i: int)
    requires
        bfs_trace(tr),
        tr[0].result.is_over_spec(),
        0 <= i < tr.len(),
    ensures
        tr[i] == tr[0],
    decreases i,
{
    if i > 0 {
        lemma_bfs_terminal_steps_idempotent(tr, i - 1);
        assert(bfs_step_rel(tr[i - 1], tr[i]));
    }
}

/// Recording one fresh position with an already-visited discoverer keeps
/// every predecessor edge pointing backward in discovery order.
pub(crate) proof fn lemma_expand_preserves_order(
    m0: Map<Position, Position>,
    items0: Seq<Position>,
    m1: Map<Position, Position>,
    items1: Seq<Position>,
    np: Position,
    cpos: Position,
)
    requires
        steps_ordered(m0, items0),
        items0.no_duplicates(),
        !items0.contains(np),
        items0.contains(cpos),
        m1 == m0.insert(np, cpos),
        items1 == items0.push(np),
    ensures
        steps_ordered(m1, items1),
{
    lemma_index_of_push_new(items0, np);
    lemma_index_of_props(items0, cpos);
    lemma_index_of_push_contained(items0, np, cpos);
    assert forall|p: Position| #[trigger] m1.dom().contains(p) implies items1.contains(p)
        && items1.contains(m1[p]) && items1.index_of(m1[p]) < items1.index_of(p) by {
        if p == np {
            assert(items1[items0.len() as int] == np);
            assert(items1.contains(np));
            assert(items1.index_of(np) == items0.len());
            assert(items1[items0.index_of(cpos)] == cpos);
            assert(items1.contains(cpos));
            assert(items1.index_of(cpos) == items0.index_of(cpos));
        } else {
            assert(m0.dom().contains(p));
            assert(items0.contains(p) && items0.contains(m0[p]));
            lemma_index_of_props(items0, p);
            lemma_index_of_props(items0, m0[p]);
            lemma_index_of_push_contained(items0, np, p);
            lemma_index_of_push_contained(items0, np, m0[p]);
            assert(items1[items0.index_of(p)] == p);
            assert(items1.contains(p));
            assert(items1[items0.index_of(m0[p])] == m0[p]);
            assert(items1.contains(m0[p]));
        }
    }
}

/// What one expansion of `cur` would newly visit, given the engine's
/// current grid, shape and visited set.
pub open spec fn bfs_fresh_of(pre: BFSSearch, cur: Position) -> Seq<Position> {
    expand_new(neighbours_spec(*pre.map, pre.shape, cur), pre.visited_view().to_set())
}

/// No position is ever pushed into the visited set twice: the discovery
/// order of a well-formed engine has no duplicates.
pub proof fn lemma_bfs_visited_once(e: BFSSearch)
    requires
        e.wf(),
    ensures
        e.visited_view().no_duplicates(),
{
}

/// A step only ever appends to the visited set: the old discovery order
/// is a prefix of the new one.
pub proof fn lemma_bfs_visited_monotone(pre: BFSSearch, post: BFSSearch)
    requires
        bfs_step_rel(pre, post),
    ensures
        pre.visited_view().is_prefix_of(post.visited_view()),
{
    assert(pre.visited_view().is_prefix_of(pre.visited_view()));
}

/// A completed breadth-first run: seeded over `g`, stepped state to
/// state, stopped at the first terminal state.
pub open spec fn bfs_run(tr: Seq<BFSSearch>, g: Grid, shape: WorldShape) -> bool {
    &&& tr.len() >= 1
    &&& bfs_seeded(tr[0], g, shape)
    &&& forall|k: int| 0 <= k < tr.len() ==> (#[trigger] tr[k]).wf()
    &&& forall|k: int| 1 <= k < tr.len() ==> bfs_step_rel(tr[k - 1], #[trigger] tr[k])
    &&& tr.last().result.is_over_spec()
    &&& forall|k: int| 0 <= k < tr.len() - 1 ==> !(#[trigger] tr[k]).result.is_over_spec()
}

/// Run a breadth-first search over `map` as a rectangle to completion:
/// the shortest path from a `Start` cell to a `Goal` cell in moves, or
/// the failure that every reachable cell was expanded in vain.
pub fn do_bfs(map: Grid) -> (r: Result<Vec<Position>, Error>)
    requires
        map.wf(),
    ensures
        exists|tr: Seq<BFSSearch>|
            #![trigger bfs_run(tr, map, (WorldShape::Rectangle { width: map.width, height: map.height }))]
            bfs_run(tr, map, (WorldShape::Rectangle { width: map.width, height: map.height }))
                && (match r {
                Ok(p) => tr.last().result.view_state() == StateView::Finished(p@),
                Err(e) => tr.last().result is Failed && e == Error::GoalUnreachable,
            }),
        r matches Ok(p) ==> p@.len() >= 1 && map.in_bounds(p@[0]) && map.field_at(p@[0]) is Goal
            && map.in_bounds(p@.last()) && map.field_at(p@.last()) is Start && (forall|i: int|
            0 <= i < p@.len() - 1 ==> neighbours_spec(
                map,
                (WorldShape::Rectangle { width: map.width, height: map.height }),
                #[trigger] p@[i + 1],
            ).contains(p@[i])),
{
    let ghost gsnap = map;
    let shape = WorldShape::Rectangle { width: map.width, height: map.height };
    let mut eng = bfs(map);
    let ghost eng0 = eng;
    let ghost mut tr: Seq<BFSSearch> = seq![eng];
    loop
        invariant_except_break
            eng.wf(),
            bfs_seeded(eng0, gsnap, shape),
            tr.len() >= 1,
            tr[0] == eng0,
            tr.last() == eng,
            forall|k: int| 0 <= k < tr.len() ==> (#[trigger] tr[k]).wf(),
            forall|k: int| 1 <= k < tr.len() ==> bfs_step_rel(tr[k - 1], #[trigger] tr[k]),
            forall|k: int| 0 <= k < tr.len() - 1 ==> !(#[trigger] tr[k]).result.is_over_spec(),
        ensures
            eng.wf(),
            tr.len() >= 1,
            tr[0] == eng0,
            tr.last() == eng,
            forall|k: int| 0 <= k < tr.len() ==> (#[trigger] tr[k]).wf(),
            forall|k: int| 1 <= k < tr.len() ==> bfs_step_rel(tr[k - 1], #[trigger] tr[k]),
            forall|k: int| 0 <= k < tr.len() - 1 ==> !(#[trigger] tr[k]).result.is_over_spec(),
            eng.result.is_over_spec(),
        decreases
            eng.map.width * eng.map.height - eng.visited.items@.len(),
            eng.frontier@.len(),
            (if eng.result.is_over_spec() {
                0int
            } else {
                1int
            }),
    {
        if eng.result.is_over() {
            break ;
        }
        let ghost pre = eng;
        proof {
            eng.visited.lemma_card();
        }
        eng.step();
        proof {
            eng.visited.lemma_card();
            if pre.frontier@.len() > 0 {
                let cur = pre.frontier@[0].pos;
                if pre.map.field_at(cur) is Goal {
                    assert(eng.frontier@.len() == pre.frontier@.len() - 1);
                } else {
                    let fresh = bfs_fresh_of(pre, cur);
                    assert(eng.visited.items@.len() == pre.visited.items@.len() + fresh.len());
                    if fresh.len() == 0 {
                        assert(eng.frontier_view() =~= pre.frontier_view().drop_first());
                        assert(eng.frontier@.len() == pre.frontier@.len() - 1);
                    }
                }
            }
            let ghost tr0 = tr;
            tr = tr.push(eng);
            assert(tr.last() == eng);
            assert forall|k: int| 0 <= k < tr.len() implies (#[trigger] tr[k]).wf() by {
                if k < tr0.len() {
                    assert(tr[k] == tr0[k]);
                } else {
                    assert(tr[k] == eng);
                }
            }
            assert forall|k: int| 1 <= k < tr.len() implies bfs_step_rel(
                tr[k - 1],
                #[trigger] tr[k],
            ) by {
                if k < tr.len() - 1 {
                    assert(tr[k] == tr0[k] && tr[k - 1] == tr0[k - 1]);
                } else {
                    assert(tr[k] == eng && tr[k - 1] == pre);
                }
            }
            assert forall|k: int|
                0 <= k < tr.len() - 1 implies !(#[trigger] tr[k]).result.is_over_spec() by {
                if k < tr0.len() - 1 {
                    assert(tr[k] == tr0[k]);
                } else {
                    assert(tr[k] == pre);
                }
            }
        }
    }
    match eng.result {
        SearchState::Finished(path) => {
            let r: Result<Vec<Position>, Error> = Ok(path);
            proof {
                assert(bfs_run(tr, gsnap, shape));
                lemma_bfs_finished_path_connected(tr, gsnap, shape, path@);
            }
            r
        },
        SearchState::Failed(msg) => {
            let r: Result<Vec<Position>, Error> = Err(Error::GoalUnreachable);
            proof {
                assert(bfs_run(tr, gsnap, shape));
            }
            r
        },
        _ => {
            proof {
                assert(false);
            }
            Err(Error::GoalUnreachable)
        },
    }
}

/// Along any chain of steps the grid handle and the shape never change.
proof fn lemma_bfs_trace_same_map(tr: Seq<BFSSearch>, i: int)
    requires
        tr.len() >= 1,
        forall|k: int| 1 <= k < tr.len() ==> bfs_step_rel(tr[k - 1], #[trigger] tr[k]),
        0 <= i < tr.len(),
    ensures
        tr[i].map == tr[0].map,
        tr[i].shape == tr[0].shape,
    decreases i,
{
    if i > 0 {
        lemma_bfs_trace_same_map(tr, i - 1);
        assert(bfs_step_rel(tr[i - 1], tr[i]));
    }
}

/// A visited position nothing discovered was there from the seeding:
/// every later visit gets a predecessor the moment it enters the set.
proof fn lemma_bfs_unparented_are_seeds(tr: Seq<BFSSearch>, i: int, p: Position)
    requires
        tr.len() >= 1,
        forall|k: int| 1 <= k < tr.len() ==> bfs_step_rel(tr[k - 1], #[trigger] tr[k]),
        0 <= i < tr.len(),
        tr[i].visited_view().contains(p),
        !tr[i].steps_view().dom().contains(p),
    ensures
        tr[0].visited_view().contains(p),
    decreases i,
{
    if i > 0 {
        let pre = tr[i - 1];
        let post = tr[i];
        assert(bfs_step_rel(pre, post));
        if pre.result.is_over_spec() {
            lemma_bfs_unparented_are_seeds(tr, i - 1, p);
        } else if pre.frontier@.len() == 0 {
            lemma_bfs_unparented_are_seeds(tr, i - 1, p);
        } else if pre.map.field_at(pre.frontier@[0].pos) is Goal {
            lemma_bfs_unparented_are_seeds(tr, i - 1, p);
        } else {
            let cur = pre.frontier@[0].pos;
            let fresh = bfs_fresh_of(pre, cur);
            crate::engine::lemma_add_preds_dom(pre.steps_view(), fresh, cur);
            crate::engine::lemma_concat_contains(pre.visited_view(), fresh, p);
            assert(!fresh.to_set().contains(p));
            assert(pre.visited_view().contains(p));
            assert(!pre.steps_view().dom().contains(p));
            lemma_bfs_unparented_are_seeds(tr, i - 1, p);
        }
    }
}

/// What a finished breadth-first run's path is made of, end to end: it
/// begins at a goal cell, every move along it steps between neighbouring
/// passable cells, and it ends at one of the world's start cells.
pub proof fn lemma_bfs_finished_path_connected(
    tr: Seq<BFSSearch>,
    g: Grid,
    shape: WorldShape,
    p: Seq<Position>,
)
    requires
        bfs_run(tr, g, shape),
        tr.last().result.view_state() == StateView::Finished(p),
    ensures
        p.len() >= 1,
        g.in_bounds(p[0]),
        g.field_at(p[0]) is Goal,
        forall|i: int|
            0 <= i < p.len() - 1 ==> neighbours_spec(g, shape, #[trigger] p[i + 1]).contains(
                p[i],
            ),
        g.in_bounds(p.last()),
        g.field_at(p.last()) is Start,
{
    lemma_bfs_finished_path(tr, g, shape, p);
    let k = tr.len() - 2;
    let pre = tr[k];
    let m = pre.steps_view();
    lemma_bfs_trace_same_map(tr, k);
    assert(pre.wf());
    let cur = pre.frontier@[0].pos;
    assert(!pre.result.is_over_spec());
    assert(bfs_step_rel(pre, tr[k + 1]));
    assert(pre.frontier@.len() > 0 && pre.map.field_at(cur) is Goal && p == walk_of(m, cur)) by {
        if pre.frontier@.len() == 0 {
            assert(tr[k + 1].result.view_state() is Failed);
        }
    }
    assert(p[0] == cur) by {
        lemma_steps_ordered_acyclic(m, pre.visited.items@);
        let rank = choose|rank: spec_fn(Position) -> nat| crate::engine::rank_ok(m, rank);
        crate::engine::lemma_walk_exists(m, cur, rank);
        assert(is_walk(m, cur, walk_of(m, cur)));
    }
    assert forall|i: int|
        0 <= i < p.len() - 1 implies neighbours_spec(g, shape, #[trigger] p[i + 1]).contains(
        p[i],
    ) by {
        assert(m.dom().contains(p[i]) && m[p[i]] == p[i + 1]);
    }
    assert(pre.visited_view().contains(p.last())) by {
        if p.len() == 1 {
            assert(pre.visited.has(pre.frontier@[0].pos));
        } else {
            assert(m.dom().contains(p[p.len() - 2]) && m[p[p.len() - 2]] == p.last());
        }
    }
    lemma_bfs_unparented_are_seeds(tr, k, p.last());
    assert(g.field_at(p.last()) is Start && g.in_bounds(p.last())) by {
        let s0 = tr[0].visited_view();
        let i = choose|i: int| 0 <= i < s0.len() && s0[i] == p.last();
        assert(g.in_bounds(s0[i]) && g.field_at(s0[i]) is Start);
    }
}

/// What a finished breadth-first run's path is: it begins at a cell the
/// world classifies as a goal, and it is the complete backward walk of
/// the predecessor map as it stood when that goal was dequeued — each
/// entry's discoverer is the next entry, down to a cell nothing
/// discovered.
pub proof fn lemma_bfs_finished_path(
    tr: Seq<BFSSearch>,
    g: Grid,
    shape: WorldShape,
    p: Seq<Position>,
)
    requires
        bfs_run(tr, g, shape),
        tr.last().result.view_state() == StateView::Finished(p),
    ensures
        p.len() >= 1,
        g.in_bounds(p[0]),
        g.field_at(p[0]) is Goal,
        is_walk(tr[tr.len() - 2].steps_view(), p[0], p),
    decreases tr.len(),
{
    assert(tr.len() >= 2) by {
        assert(!tr[0].result.is_over_spec());
    }
    let k = tr.len() - 2;
    let pre = tr[k];
    let post = tr[k + 1];
    assert(!pre.result.is_over_spec());
    assert(bfs_step_rel(pre, post));
    assert(pre.wf());
    lemma_bfs_trace_same_map(tr, k);
    assert(*pre.map == g);
    if pre.frontier@.len() == 0 {
        assert(post.result.view_state() is Failed);
        assert(false);
    } else if pre.map.field_at(pre.frontier@[0].pos) is Goal {
        let cur = pre.frontier@[0].pos;
        assert(p == walk_of(pre.steps_view(), cur));
        assert(pre.frontier@[0].wf());
        assert(g.in_bounds(cur));
        lemma_steps_ordered_acyclic(pre.steps_view(), pre.visited.items@);
        let rank = choose|rank: spec_fn(Position) -> nat|
            crate::engine::rank_ok(pre.steps_view(), rank);
        crate::engine::lemma_walk_exists(pre.steps_view(), cur, rank);
        assert(is_walk(pre.steps_view(), cur, walk_of(pre.steps_view(), cur)));
    } else {
        assert(post.result is InProgress);
        assert(false);
    }
}

} // verus!
