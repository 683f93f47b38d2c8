//! The greedy best-first strategy: like breadth-first search, but the
//! frontier is ordered by the heuristic distance to the single goal, and
//! the closest-looking entry is expanded first. Visited-on-enqueue still
//! holds, so a position found again by a geometrically closer route is
//! never re-queued: speed is traded for optimality, deliberately.

use vstd::prelude::*;
use std::rc::Rc;
use crate::Position;
use crate::engine::{
    acyclic, add_preds, expand_new, is_walk, lemma_index_of_props, lemma_steps_ordered_acyclic,
    steps_ordered, unreachable_msg, walk_of, GraphSearch, Node2d, NodeState, SearchState,
    StateView,
};
use crate::grid::{same_world, Grid};
use crate::{Error, Search, SearchResult};
use crate::node::{neighbours_spec, shape_matches, steps_linked, MapField};
use crate::tables::{PosTable, VisitedTable};
use crate::topology::{shape_dist_spec, shape_distance, WorldShape};

verus! {

/// A greedy best-first search in progress. Each frontier entry carries
/// the heuristic distance from its position to the goal, computed when it
/// was enqueued.
pub struct GreedySearch {
    pub result: SearchState,
    pub frontier: Vec<(usize, MapField)>,
    pub visited: VisitedTable,
    pub steps: PosTable<Position>,
    pub map: Rc<Grid>,
    pub shape: WorldShape,
    pub goal: Position,
}

/// Strictly later in one coordinate-wise ordering of positions: the
/// tie-break among equally distant frontier entries.
pub open spec fn pos_gt(a: Position, b: Position) -> bool {
    a.0 > b.0 || (a.0 == b.0 && a.1 > b.1)
}

/// `a` is dequeued in preference to `b`: strictly smaller heuristic
/// distance to the goal, or the same distance and the later position.
pub open spec fn gbetter(shape: WorldShape, goal: Position, a: Position, b: Position) -> bool {
    let da = shape_dist_spec(shape, a, goal);
    let db = shape_dist_spec(shape, b, goal);
    da < db || (da == db && pos_gt(a, b))
}

/// The index of the entry a greedy dequeue takes: the preferred one, the
/// earliest among exact ties.
pub open spec fn best_index(shape: WorldShape, goal: Position, fv: Seq<Position>) -> int
    decreases fv.len(),
{
    if fv.len() <= 1 {
        0
    } else {
        let b = best_index(shape, goal, fv.drop_last());
        if gbetter(shape, goal, fv.last(), fv[b]) {
            fv.len() - 1
        } else {
            b
        }
    }
}

/// The dequeue index is a real index.
pub proof fn lemma_best_index_in_range(shape: WorldShape, goal: Position, fv: Seq<Position>)
    requires
        fv.len() >= 1,
    ensures
        0 <= best_index(shape, goal, fv) < fv.len(),
    decreases fv.len(),
{
    if fv.len() > 1 {
        lemma_best_index_in_range(shape, goal, fv.drop_last());
    }
}

/// What one greedy `step()` does, as a relation between the state before
/// and the state after, phrased over views. Every case pins the
/// after-views as a function of the before-views.
pub open spec fn greedy_step_rel(pre: GreedySearch, post: GreedySearch) -> bool {
    &&& post.map == pre.map
    &&& post.shape == pre.shape
    &&& post.goal == pre.goal
    &&& if pre.result.is_over_spec() {
        post == pre
    } else if pre.frontier@.len() == 0 {
        &&& post.result.view_state() == StateView::Failed("goal unreachable"@)
        &&& post.frontier@ == pre.frontier@
        &&& post.visited_view() == pre.visited_view()
        &&& post.steps_view() == pre.steps_view()
    } else {
        let bi = best_index(pre.shape, pre.goal, pre.frontier_view());
        let cur = pre.frontier_view()[bi];
        if pre.map.field_at(cur) is Goal {
            &&& post.result.view_state() == StateView::Finished(
                walk_of(pre.steps_view(), cur),
            )
            &&& post.frontier_view() == pre.frontier_view().remove(bi)
            &&& post.visited_view() == pre.visited_view()
            &&& post.steps_view() == pre.steps_view()
        } else {
            let ns = neighbours_spec(*pre.map, pre.shape, cur);
            let fresh = expand_new(ns, pre.visited_view().to_set());
            &&& post.result is InProgress
            &&& post.frontier_view() == pre.frontier_view().remove(bi) + fresh
            &&& post.visited_view() == pre.visited_view() + fresh
            &&& post.steps_view() == add_preds(pre.steps_view(), fresh, cur)
        }
    }
}

impl GreedySearch {
    /// The frontier as the sequence of its positions, in queue order.
    pub open spec fn frontier_view(&self) -> Seq<Position> {
        self.frontier@.map_values(|e: (usize, MapField)| e.1.pos)
    }

    /// The visited positions in discovery order.
    pub open spec fn visited_view(&self) -> Seq<Position> {
        self.visited.items@
    }

    /// The predecessor map: who first discovered each visited position.
    pub open spec fn steps_view(&self) -> Map<Position, Position> {
        self.steps.map_view()
    }

    /// As for breadth-first search, with two additions: the goal lies on
    /// the grid, and every frontier entry carries exactly the heuristic
    /// distance from its position to the goal.
    pub open spec fn wf(&self) -> bool {
        &&& self.map.wf()
        &&& shape_matches(self.shape, *self.map)
        &&& self.map.in_bounds(self.goal)
        &&& self.visited.wf()
        &&& self.visited.width == self.map.width
        &&& self.visited.height == self.map.height
        &&& self.steps.wf()
        &&& self.steps.width == self.map.width
        &&& self.steps.height == self.map.height
        &&& forall|i: int|
            0 <= i < self.frontier@.len() ==> (#[trigger] self.frontier@[i]).1.wf()
                && self.frontier@[i].1.map == self.map && self.frontier@[i].1.shape == self.shape
        &&& forall|i: int|
            0 <= i < self.frontier@.len() ==> self.visited.has(
                (#[trigger] self.frontier@[i]).1.pos,
            )
        &&& forall|i: int|
            0 <= i < self.frontier@.len() ==> (#[trigger] self.frontier@[i]).0 == shape_dist_spec(
                self.shape,
                self.frontier@[i].1.pos,
                self.goal,
            )
        &&& steps_ordered(self.steps_view(), self.visited.items@)
        &&& steps_linked(self.steps_view(), *self.map, self.shape)
    }

    /// A well-formed engine's predecessor map can be walked back safely.
    pub proof fn lemma_reconstructible(&self)
        requires
            self.wf(),
        ensures
            acyclic(self.steps_view()),
            forall|p: Position| #[trigger]
                self.steps_view().dom().contains(p) ==> self.steps.in_dims(self.steps_view()[p]),
    {
        lemma_steps_ordered_acyclic(self.steps_view(), self.visited.items@);
        assert forall|p: Position| #[trigger]
            self.steps_view().dom().contains(p) implies self.steps.in_dims(
            self.steps_view()[p],
        ) by {
            lemma_index_of_props(self.visited.items@, self.steps_view()[p]);
        }
    }

    /// The index the next dequeue will take, by one scan of the frontier.
    fn find_best(&self) -> (r: usize)
        requires
            self.wf(),
            self.frontier@.len() > 0,
        ensures
            r == best_index(self.shape, self.goal, self.frontier_view()),
            r < self.frontier@.len(),
    {
        let ghost fv = self.frontier_view();
        let mut bi: usize = 0;
        let mut bk: usize = self.frontier[0].0;
        let mut bp: Position = self.frontier[0].1.id();
        let mut j: usize = 1;
        proof {
            assert(fv.take(1).len() == 1);
            assert(best_index(self.shape, self.goal, fv.take(1)) == 0);
            assert(fv.take(1)[0] == fv[0]);
        }
        while j < self.frontier.len()
            invariant
                self.wf(),
                fv == self.frontier_view(),
                fv.len() == self.frontier@.len(),
                1 <= j <= fv.len(),
                bi < j,
                bi == best_index(self.shape, self.goal, fv.take(j as int)),
                bp == fv[bi as int],
                bk == shape_dist_spec(self.shape, bp, self.goal),
            decreases fv.len() - j,
        {
            let k = self.frontier[j].0;
            let p = self.frontier[j].1.id();
            proof {
                assert(fv.take(j + 1).drop_last() =~= fv.take(j as int));
                assert(fv.take(j + 1).last() == fv[j as int]);
                lemma_best_index_in_range(self.shape, self.goal, fv.take(j as int));
                assert(fv.take(j + 1)[bi as int] == fv[bi as int]);
            }
            if k < bk || (k == bk && (p.0 > bp.0 || (p.0 == bp.0 && p.1 > bp.1))) {
                bi = j;
                bk = k;
                bp = p;
            }
            j = j + 1;
        }
        proof {
            assert(fv.take(fv.len() as int) =~= fv);
        }
        bi
    }

    /// One expansion. Terminal states are left untouched; an empty queue
    /// fails the search; a dequeued goal finishes it with the backward
    /// walk of the predecessor map; otherwise the dequeued node's
    /// unvisited neighbours are enqueued with their distances, marked
    /// visited and recorded as discovered by it, in clockwise order.
    pub fn step(&mut self)
        requires
            old(self).wf(),
        ensures
            final(self).wf(),
            greedy_step_rel(*old(self), *final(self)),
    {
        if self.result.is_over() {
            return ;
        }
        if self.frontier.len() == 0 {
            self.result = SearchState::Failed(unreachable_msg());
            return ;
        }
        let bi = self.find_best();
        let entry = self.frontier.remove(bi);
        let current = entry.1;
        proof {
            assert(self.frontier_view() =~= old(self).frontier_view().remove(bi as int));
        }
        if current.is_goal() {
            proof {
                self.lemma_reconstructible();
            }
            let path = crate::engine::build_path(&self.steps, current.id());
            self.result = SearchState::Finished(path);
            return ;
        }
        let cur_pos = current.id();
        let ghost cpos = current.pos;
        let ghost ns_full = current.nbrs_of();
        let mut nbrs = current.neighbours();
        let ghost items0 = self.visited.items@;
        let ghost fr0 = self.frontier_view();
        let ghost m0 = self.steps.map_view();
        let ghost vis0 = items0.to_set();
        let ghost mut i: int = 0;
        proof {
            assert(nbrs@.map_values(|n: MapField| n.pos) == ns_full);
            assert(ns_full.skip(0) =~= ns_full);
        }
        while nbrs.len() > 0
            invariant
                self.wf(),
                self.map == old(self).map,
                self.shape == old(self).shape,
                self.goal == old(self).goal,
                self.result == old(self).result,
                current.wf(),
                current.map == self.map,
                current.shape == self.shape,
                cpos == current.pos,
                cur_pos == cpos,
                self.visited.has(cpos),
                ns_full == neighbours_spec(*self.map, self.shape, cpos),
                0 <= i <= ns_full.len(),
                nbrs@.len() == ns_full.len() - i,
                nbrs@.map_values(|n: MapField| n.pos) == ns_full.skip(i),
                forall|j: int|
                    0 <= j < nbrs@.len() ==> (#[trigger] nbrs@[j]).wf() && nbrs@[j].map == self.map
                        && nbrs@[j].shape == self.shape,
                self.visited.items@ + expand_new(ns_full.skip(i), self.visited.items@.to_set())
                    == items0 + expand_new(ns_full, vis0),
                self.frontier_view() + expand_new(
                    ns_full.skip(i),
                    self.visited.items@.to_set(),
                ) == fr0 + expand_new(ns_full, vis0),
                add_preds(
                    self.steps.map_view(),
                    expand_new(ns_full.skip(i), self.visited.items@.to_set()),
                    cpos,
                ) == add_preds(m0, expand_new(ns_full, vis0), cpos),
            decreases nbrs@.len(),
        {
            let ghost nb0 = nbrs@;
            let n = nbrs.remove(0);
            let np = n.id();
            proof {
                assert(nbrs@ =~= nb0.drop_first());
                assert(n == nb0[0]);
                assert(nb0.map_values(|m: MapField| m.pos)[0] == np);
                assert(ns_full.skip(i)[0] == np);
                assert(ns_full.skip(i).drop_first() =~= ns_full.skip(i + 1));
                assert(nbrs@.map_values(|m: MapField| m.pos) =~= nb0.map_values(
                    |m: MapField| m.pos,
                ).drop_first());
                assert(ns_full.skip(i).len() > 0);
            }
            let ghost vis_now = self.visited.items@.to_set();
            if !self.visited.contains(np) {
                let ghost items_before = self.visited.items@;
                let ghost fr_before = self.frontier_view();
                let ghost m_before = self.steps.map_view();
                self.visited.insert(np);
                self.steps.insert(np, cur_pos);
                let key = shape_distance(self.shape, np, self.goal);
                let ghost fr_b0 = self.frontier@;
                self.frontier.push((key as usize, n));
                proof {
                    assert(self.frontier@.drop_last() =~= fr_b0);
                    assert(self.frontier_view() =~= fr_before.push(np));
                    crate::engine::lemma_push_to_set(items_before, np);
                    assert(self.visited.items@.to_set() =~= vis_now.insert(np));
                    assert(expand_new(ns_full.skip(i), vis_now) =~= seq![np] + expand_new(
                        ns_full.skip(i + 1),
                        vis_now.insert(np),
                    ));
                    assert(items_before + expand_new(ns_full.skip(i), vis_now)
                        =~= self.visited.items@ + expand_new(
                        ns_full.skip(i + 1),
                        self.visited.items@.to_set(),
                    ));
                    assert(fr_before + expand_new(ns_full.skip(i), vis_now) =~= self.frontier_view()
                        + expand_new(ns_full.skip(i + 1), self.visited.items@.to_set()));
                    assert((seq![np] + expand_new(ns_full.skip(i + 1), vis_now.insert(np)))[0]
                        == np);
                    assert((seq![np] + expand_new(
                        ns_full.skip(i + 1),
                        vis_now.insert(np),
                    )).drop_first() =~= expand_new(ns_full.skip(i + 1), vis_now.insert(np)));
                    assert(add_preds(m_before, expand_new(ns_full.skip(i), vis_now), cpos)
                        == add_preds(
                        self.steps.map_view(),
                        expand_new(ns_full.skip(i + 1), self.visited.items@.to_set()),
                        cpos,
                    ));
                    crate::bfs::lemma_expand_preserves_order(
                        m_before,
                        items_before,
                        self.steps.map_view(),
                        self.visited.items@,
                        np,
                        cpos,
                    );
                    assert(ns_full[i] == np);
                    assert(neighbours_spec(*self.map, self.shape, cpos).contains(np));
                    i = i + 1;
                }
            } else {
                proof {
                    assert(vis_now.contains(np));
                    assert(expand_new(ns_full.skip(i), vis_now) == expand_new(
                        ns_full.skip(i + 1),
                        vis_now,
                    ));
                    i = i + 1;
                }
            }
        }
        proof {
            assert(ns_full.skip(ns_full.len() as int) =~= Seq::<Position>::empty());
            assert(self.visited.items@ + expand_new(
                ns_full.skip(ns_full.len() as int),
                self.visited.items@.to_set(),
            ) =~= self.visited.items@);
            assert(self.frontier_view() + expand_new(
                ns_full.skip(ns_full.len() as int),
                self.visited.items@.to_set(),
            ) =~= self.frontier_view());
        }
        self.result = SearchState::InProgress;
    }

    /// The visited, frontier and path cells, tagged for a renderer.
    pub fn nodes(&self) -> (r: Vec<Node2d>)
        ensures
            r@ == greedy_nodes_view(*self),
    {
        let mut r: Vec<Node2d> = Vec::new();
        let mut i: usize = 0;
        while i < self.visited.items.len()
            invariant
                i <= self.visited.items@.len(),
                r@ == self.visited.items@.take(i as int).map_values(
                    |p: Position| Node2d(p, NodeState::Visited),
                ),
            decreases self.visited.items@.len() - i,
        {
            r.push(Node2d(self.visited.items[i], NodeState::Visited));
            proof {
                assert(self.visited.items@.take(i + 1) =~= self.visited.items@.take(
                    i as int,
                ).push(self.visited.items@[i as int]));
                assert(r@ =~= self.visited.items@.take(i + 1).map_values(
                    |p: Position| Node2d(p, NodeState::Visited),
                ));
            }
            i = i + 1;
        }
        proof {
            assert(self.visited.items@.take(self.visited.items@.len() as int)
                =~= self.visited.items@);
        }
        let ghost part1 = r@;
        let mut j: usize = 0;
        while j < self.frontier.len()
            invariant
                j <= self.frontier@.len(),
                part1 == self.visited.items@.map_values(|p: Position| Node2d(p, NodeState::Visited)),
                r@ == part1 + self.frontier@.take(j as int).map_values(
                    |e: (usize, MapField)| e.1.pos,
                ).map_values(|p: Position| Node2d(p, NodeState::Frontier)),
            decreases self.frontier@.len() - j,
        {
            let np = self.frontier[j].1.id();
            r.push(Node2d(np, NodeState::Frontier));
            proof {
                assert(self.frontier@.take(j + 1) =~= self.frontier@.take(j as int).push(
                    self.frontier@[j as int],
                ));
                assert(r@ =~= part1 + self.frontier@.take(j + 1).map_values(
                    |e: (usize, MapField)| e.1.pos,
                ).map_values(|p: Position| Node2d(p, NodeState::Frontier)));
            }
            j = j + 1;
        }
        proof {
            assert(self.frontier@.take(self.frontier@.len() as int) =~= self.frontier@);
        }
        let ghost part2 = r@;
        match &self.result {
            SearchState::Finished(path) => {
                let mut k: usize = 0;
                while k < path.len()
                    invariant
                        k <= path@.len(),
                        self.result == SearchState::Finished(*path),
                        part2 == self.visited.items@.map_values(
                            |p: Position| Node2d(p, NodeState::Visited),
                        ) + self.frontier_view().map_values(
                            |p: Position| Node2d(p, NodeState::Frontier),
                        ),
                        r@ == part2 + path@.take(k as int).map_values(
                            |p: Position| Node2d(p, NodeState::Path),
                        ),
                    decreases path@.len() - k,
                {
                    r.push(Node2d(path[k], NodeState::Path));
                    proof {
                        assert(path@.take(k + 1) =~= path@.take(k as int).push(path@[k as int]));
                        assert(r@ =~= part2 + path@.take(k + 1).map_values(
                            |p: Position| Node2d(p, NodeState::Path),
                        ));
                    }
                    k = k + 1;
                }
                proof {
                    assert(path@.take(path@.len() as int) =~= path@);
                }
            },
            _ => {
                proof {
                    assert(r@ =~= greedy_nodes_view(*self));
                }
            },
        }
        r
    }
}

/// The display projection of a greedy engine: visited cells, then
/// frontier cells, then — once finished — path cells.
pub open spec fn greedy_nodes_view(e: GreedySearch) -> Seq<Node2d> {
    e.visited_view().map_values(|p: Position| Node2d(p, NodeState::Visited))
        + e.frontier_view().map_values(|p: Position| Node2d(p, NodeState::Frontier)) + (
    match e.result {
        SearchState::Finished(path) => path@.map_values(|p: Position| Node2d(p, NodeState::Path)),
        _ => Seq::<Node2d>::empty(),
    })
}

impl GraphSearch for GreedySearch {
    open spec fn inv(&self) -> bool {
        self.wf()
    }

    fn step(&mut self) {
        GreedySearch::step(self)
    }

    fn nodes(&self) -> Vec<Node2d> {
        GreedySearch::nodes(self)
    }
}

/// A freshly seeded greedy engine: status `NotStarted`, no predecessors,
/// and the frontier and visited set holding exactly the one start.
pub open spec fn greedy_seeded(
    e: GreedySearch,
    g: Grid,
    shape: WorldShape,
    start: Position,
    goal: Position,
) -> bool {
    &&& *e.map == g
    &&& e.shape == shape
    &&& e.goal == goal
    &&& e.result is NotStarted
    &&& e.steps_view() == Map::<Position, Position>::empty()
    &&& e.frontier_view() == seq![start]
    &&& e.visited_view() == seq![start]
}

/// A greedy engine over `map` under the given shape, seeded with one
/// start and bound to one goal.
pub fn greedy_search(map: Grid, shape: WorldShape, start: Position, goal: Position) -> (r:
    GreedySearch)
    requires
        map.wf(),
        shape_matches(shape, map),
        map.in_bounds(start),
        map.in_bounds(goal),
    ensures
        r.wf(),
        greedy_seeded(r, map, shape, start, goal),
{
    let width = map.width;
    let height = map.height;
    let rc = Rc::new(map);
    let mut visited = VisitedTable::new(width, height);
    let steps: PosTable<Position> = PosTable::new(width, height);
    visited.insert(start);
    let key = shape_distance(shape, start, goal);
    let node = MapField { pos: start, map: crate::node::rc_clone(&rc), shape };
    let mut frontier: Vec<(usize, MapField)> = Vec::new();
    frontier.push((key as usize, node));
    let r = GreedySearch {
        result: SearchState::NotStarted,
        frontier,
        visited,
        steps,
        map: rc,
        shape,
        goal,
    };
    proof {
        assert(r.frontier_view() =~= seq![start]);
        assert(r.visited_view() =~= seq![start]);
    }
    r
}

/// A run of the greedy engine: a nonempty chain of states, each one step
/// after the one before.
pub open spec fn greedy_trace(tr: Seq<GreedySearch>) -> bool {
    &&& tr.len() >= 1
    &&& forall|k: int| 1 <= k < tr.len() ==> greedy_step_rel(tr[k - 1], #[trigger] tr[k])
}

/// What one expansion of `cur` would newly visit, given the engine's
/// current grid, shape and visited set.
pub open spec fn greedy_fresh_of(pre: GreedySearch, cur: Position) -> Seq<Position> {
    expand_new(neighbours_spec(*pre.map, pre.shape, cur), pre.visited_view().to_set())
}

/// Two greedy engines agree on everything a step can observe.
pub open spec fn greedy_same_view(a: GreedySearch, b: GreedySearch) -> bool {
    &&& *a.map == *b.map
    &&& a.shape == b.shape
    &&& a.goal == b.goal
    &&& a.result.view_state() == b.result.view_state()
    &&& a.frontier_view() == b.frontier_view()
    &&& a.visited_view() == b.visited_view()
    &&& a.steps_view() == b.steps_view()
}

/// Determinism: two greedy engines in agreeing states step into agreeing
/// states.
pub proof fn lemma_greedy_step_deterministic(
    pre1: GreedySearch,
    pre2: GreedySearch,
    post1: GreedySearch,
    post2: GreedySearch,
)
    requires
        greedy_same_view(pre1, pre2),
        greedy_step_rel(pre1, post1),
        greedy_step_rel(pre2, post2),
    ensures
        greedy_same_view(post1, post2),
{
    if !pre1.result.is_over_spec() && pre1.frontier@.len() > 0 {
        assert(pre1.frontier_view().len() == pre1.frontier@.len());
        assert(pre2.frontier_view().len() == pre2.frontier@.len());
    }
}

/// Once terminal, always the very same state.
pub proof fn lemma_greedy_terminal_steps_idempotent(tr: Seq<GreedySearch>, i: int)
    requires
        greedy_trace(tr),
        tr[0].result.is_over_spec(),
        0 <= i < tr.len(),
    ensures
        tr[i] == tr[0],
    decreases i,
{
    if i > 0 {
        lemma_greedy_terminal_steps_idempotent(tr, i - 1);
        assert(greedy_step_rel(tr[i - 1], tr[i]));
    }
}

/// No position is ever pushed into the visited set twice.
pub proof fn lemma_greedy_visited_once(e: GreedySearch)
    requires
        e.wf(),
    ensures
        e.visited_view().no_duplicates(),
{
}

/// A step only ever appends to the visited set.
pub proof fn lemma_greedy_visited_monotone(pre: GreedySearch, post: GreedySearch)
    requires
        greedy_step_rel(pre, post),
    ensures
        pre.visited_view().is_prefix_of(post.visited_view()),
{
    assert(pre.visited_view().is_prefix_of(pre.visited_view()));
}

/// A completed greedy run: seeded over `g`, stepped state to state,
/// stopped at the first terminal state.
pub open spec fn greedy_run(
    tr: Seq<GreedySearch>,
    g: Grid,
    shape: WorldShape,
    start: Position,
    goal: Position,
) -> bool {
    &&& tr.len() >= 1
    &&& greedy_seeded(tr[0], g, shape, start, goal)
    &&& forall|k: int| 0 <= k < tr.len() ==> (#[trigger] tr[k]).wf()
    &&& forall|k: int| 1 <= k < tr.len() ==> greedy_step_rel(tr[k - 1], #[trigger] tr[k])
    &&& tr.last().result.is_over_spec()
    &&& forall|k: int| 0 <= k < tr.len() - 1 ==> !(#[trigger] tr[k]).result.is_over_spec()
}

/// Along any chain of steps the grid handle and the shape never change.
proof fn lemma_greedy_trace_same_map(tr: Seq<GreedySearch>, i: int)
    requires
        tr.len() >= 1,
        forall|k: int| 1 <= k < tr.len() ==> greedy_step_rel(tr[k - 1], #[trigger] tr[k]),
        0 <= i < tr.len(),
    ensures
        tr[i].map == tr[0].map,
        tr[i].shape == tr[0].shape,
    decreases i,
{
    if i > 0 {
        lemma_greedy_trace_same_map(tr, i - 1);
        assert(greedy_step_rel(tr[i - 1], tr[i]));
    }
}

/// A visited position nothing discovered was there from the seeding.
proof fn lemma_greedy_unparented_are_seeds(tr: Seq<GreedySearch>, i: int, p: Position)
    requires
        tr.len() >= 1,
        forall|k: int| 1 <= k < tr.len() ==> greedy_step_rel(tr[k - 1], #[trigger] tr[k]),
        0 <= i < tr.len(),
        tr[i].visited_view().contains(p),
        !tr[i].steps_view().dom().contains(p),
    ensures
        tr[0].visited_view().contains(p),
    decreases i,
{
    if i > 0 {
        let pre = tr[i - 1];
        let post = tr[i];
        assert(greedy_step_rel(pre, post));
        if !pre.result.is_over_spec() && pre.frontier@.len() > 0 {
            let bi = best_index(pre.shape, pre.goal, pre.frontier_view());
            let cur = pre.frontier_view()[bi];
            if !(pre.map.field_at(cur) is Goal) {
                let fresh = greedy_fresh_of(pre, cur);
                crate::engine::lemma_add_preds_dom(pre.steps_view(), fresh, cur);
                crate::engine::lemma_concat_contains(pre.visited_view(), fresh, p);
                assert(!fresh.to_set().contains(p));
                assert(pre.visited_view().contains(p));
                assert(!pre.steps_view().dom().contains(p));
            }
        }
        lemma_greedy_unparented_are_seeds(tr, i - 1, p);
    }
}

/// What a finished greedy run's path is made of, end to end: it begins
/// at a goal cell, every move along it steps between neighbouring
/// passable cells, and it ends at the search's one start.
pub proof fn lemma_greedy_finished_path_connected(
    tr: Seq<GreedySearch>,
    g: Grid,
    shape: WorldShape,
    start: Position,
    goal: Position,
    p: Seq<Position>,
)
    requires
        greedy_run(tr, g, shape, start, goal),
        tr.last().result.view_state() == StateView::Finished(p),
    ensures
        p.len() >= 1,
        g.in_bounds(p[0]),
        g.field_at(p[0]) is Goal,
        forall|i: int|
            0 <= i < p.len() - 1 ==> neighbours_spec(g, shape, #[trigger] p[i + 1]).contains(
                p[i],
            ),
        p.last() == start,
{
    assert(tr.len() >= 2) by {
        assert(!tr[0].result.is_over_spec());
    }
    let k = tr.len() - 2;
    let pre = tr[k];
    let m = pre.steps_view();
    assert(!pre.result.is_over_spec());
    assert(greedy_step_rel(pre, tr[k + 1]));
    assert(pre.wf());
    lemma_greedy_trace_same_map(tr, k);
    assert(*pre.map == g);
    let bi = best_index(pre.shape, pre.goal, pre.frontier_view());
    let cur = pre.frontier_view()[bi];
    assert(pre.frontier@.len() > 0 && pre.map.field_at(cur) is Goal && p == walk_of(m, cur)) by {
        if pre.frontier@.len() == 0 {
            assert(tr[k + 1].result.view_state() is Failed);
        }
    }
    lemma_best_index_in_range(pre.shape, pre.goal, pre.frontier_view());
    assert(pre.frontier_view().len() == pre.frontier@.len());
    assert(cur == pre.frontier@[bi].1.pos);
    assert(pre.frontier@[bi].1.wf());
    assert(g.in_bounds(cur));
    assert(p[0] == cur && is_walk(m, cur, p)) by {
        lemma_steps_ordered_acyclic(m, pre.visited.items@);
        let rank = choose|rank: spec_fn(Position) -> nat| crate::engine::rank_ok(m, rank);
        crate::engine::lemma_walk_exists(m, cur, rank);
        assert(is_walk(m, cur, walk_of(m, cur)));
    }
    assert forall|i: int|
        0 <= i < p.len() - 1 implies neighbours_spec(g, shape, #[trigger] p[i + 1]).contains(
        p[i],
    ) by {
        assert(m.dom().contains(p[i]) && m[p[i]] == p[i + 1]);
    }
    assert(pre.visited_view().contains(p.last())) by {
        if p.len() == 1 {
            assert(pre.visited.has(pre.frontier@[bi].1.pos));
        } else {
            assert(m.dom().contains(p[p.len() - 2]) && m[p[p.len() - 2]] == p.last());
        }
    }
    lemma_greedy_unparented_are_seeds(tr, k, p.last());
    assert(tr[0].visited_view() == seq![start]);
    assert(p.last() == start) by {
        let s0 = tr[0].visited_view();
        let i = choose|i: int| 0 <= i < s0.len() && s0[i] == p.last();
    }
}

/// What `greedy` promises: some complete greedy run over a grid with the
/// same cells as the caller's, from the one start to the one goal, whose
/// terminal state carries exactly the returned path or failure.
pub open spec fn greedy_outcome(
    tr: Seq<GreedySearch>,
    g2: Grid,
    map: Grid,
    start: Seq<Position>,
    goals: Seq<Position>,
    r: SearchResult,
) -> bool {
    &&& same_world(g2, map)
    &&& greedy_run(
        tr,
        g2,
        (WorldShape::Rectangle { width: map.width, height: map.height }),
        start[0],
        goals[0],
    )
    &&& match r {
        Ok(s) => {
            &&& s.paths@.len() == 1
            &&& tr.last().result.view_state() == StateView::Finished(s.paths@[0]@)
            &&& s.start@ == start
            &&& s.goals@ == goals
            &&& s.visited@ == tr.last().visited_view()
        },
        Err(e) => tr.last().result is Failed && e == Error::GoalUnreachable,
    }
}

/// Run a greedy best-first search from the one start to the one goal over
/// `map` as a rectangle, to completion.
#[verifier::rlimit(60)]
pub fn greedy(start: Vec<Position>, vgoals: Vec<Position>, map: &Grid) -> (r: SearchResult)
    requires
        map.wf(),
        start@.len() == 1,
        vgoals@.len() == 1,
        map.in_bounds(start@[0]),
        map.in_bounds(vgoals@[0]),
    ensures
        exists|tr: Seq<GreedySearch>, g2: Grid| greedy_outcome(tr, g2, *map, start@, vgoals@, r),
        r matches Ok(s) ==> s.paths@.len() == 1 && s.paths@[0]@.len() >= 1 && map.in_bounds(
            s.paths@[0]@[0],
        ) && map.field_at(s.paths@[0]@[0]) is Goal && s.paths@[0]@.last() == start@[0] && (
        forall|i: int|
            0 <= i < s.paths@[0]@.len() - 1 ==> neighbours_spec(
                *map,
                (WorldShape::Rectangle { width: map.width, height: map.height }),
                #[trigger] s.paths@[0]@[i + 1],
            ).contains(s.paths@[0]@[i])),
{
    let g0 = map.duplicate();
    let shape = WorldShape::Rectangle { width: g0.width, height: g0.height };
    let s0: Position = start[0];
    let goal0: Position = vgoals[0];
    let mut eng = greedy_search(g0, shape, s0, goal0);
    let ghost eng0 = eng;
    let ghost mut tr: Seq<GreedySearch> = seq![eng];
    loop
        invariant_except_break
            eng.wf(),
            greedy_seeded(eng0, g0, shape, s0, goal0),
            tr.len() >= 1,
            tr[0] == eng0,
            tr.last() == eng,
            forall|k: int| 0 <= k < tr.len() ==> (#[trigger] tr[k]).wf(),
            forall|k: int| 1 <= k < tr.len() ==> greedy_step_rel(tr[k - 1], #[trigger] tr[k]),
            forall|k: int| 0 <= k < tr.len() - 1 ==> !(#[trigger] tr[k]).result.is_over_spec(),
        ensures
            eng.wf(),
            tr.len() >= 1,
            tr[0] == eng0,
            tr.last() == eng,
            forall|k: int| 0 <= k < tr.len() ==> (#[trigger] tr[k]).wf(),
            forall|k: int| 1 <= k < tr.len() ==> greedy_step_rel(tr[k - 1], #[trigger] tr[k]),
            forall|k: int| 0 <= k < tr.len() - 1 ==> !(#[trigger] tr[k]).result.is_over_spec(),
            eng.result.is_over_spec(),
        decreases
            eng.map.width * eng.map.height - eng.visited.items@.len(),
            eng.frontier@.len(),
            (if eng.result.is_over_spec() {
                0int
            } else {
                1int
            }),
    {
        if eng.result.is_over() {
            break ;
        }
        let ghost pre = eng;
        proof {
            eng.visited.lemma_card();
        }
        eng.step();
        proof {
            eng.visited.lemma_card();
            if pre.frontier@.len() > 0 {
                let bi = best_index(pre.shape, pre.goal, pre.frontier_view());
                lemma_best_index_in_range(pre.shape, pre.goal, pre.frontier_view());
                if pre.map.field_at(pre.frontier_view()[bi]) is Goal {
                    assert(eng.frontier_view() == pre.frontier_view().remove(bi));
                    assert(eng.frontier@.len() == pre.frontier@.len() - 1);
                } else {
                    let fresh = greedy_fresh_of(pre, pre.frontier_view()[bi]);
                    assert(eng.visited.items@.len() == pre.visited.items@.len() + fresh.len());
                    if fresh.len() == 0 {
                        assert(eng.frontier_view() =~= pre.frontier_view().remove(bi));
                        assert(eng.frontier@.len() == pre.frontier@.len() - 1);
                    }
                }
            }
            let ghost tr0 = tr;
            tr = tr.push(eng);
            assert(tr.last() == eng);
            assert forall|k: int| 0 <= k < tr.len() implies (#[trigger] tr[k]).wf() by {
                if k < tr0.len() {
                    assert(tr[k] == tr0[k]);
                } else {
                    assert(tr[k] == eng);
                }
            }
            assert forall|k: int| 1 <= k < tr.len() implies greedy_step_rel(
                tr[k - 1],
                #[trigger] tr[k],
            ) by {
                if k < tr.len() - 1 {
                    assert(tr[k] == tr0[k] && tr[k - 1] == tr0[k - 1]);
                } else {
                    assert(tr[k] == eng && tr[k - 1] == pre);
                }
            }
            assert forall|k: int|
                0 <= k < tr.len() - 1 implies !(#[trigger] tr[k]).result.is_over_spec() by {
                if k < tr0.len() - 1 {
                    assert(tr[k] == tr0[k]);
                } else {
                    assert(tr[k] == pre);
                }
            }
        }
    }
    let visited_out = eng.visited.to_vec();
    match eng.result {
        SearchState::Finished(path) => {
            proof {
                assert(greedy_run(tr, g0, shape, s0, goal0));
                lemma_greedy_finished_path_connected(tr, g0, shape, s0, goal0, path@);
            }
            let s = Search { start, goals: vgoals, paths: vec![path], visited: visited_out };
            let r: SearchResult = Ok(s);
            proof {
                assert(greedy_outcome(tr, g0, *map, start@, vgoals@, r));
                assert(s.paths@.len() == 1 && s.paths@[0] == path);
                assert forall|i: int|
                    0 <= i < path@.len() - 1 implies neighbours_spec(
                    *map,
                    shape,
                    #[trigger] path@[i + 1],
                ).contains(path@[i]) by {
                    crate::node::lemma_neighbours_same_world(g0, map, shape, path@[i + 1]);
                }
            }
            r
        },
        SearchState::Failed(msg) => {
            let r: SearchResult = Err(Error::GoalUnreachable);
            proof {
                assert(greedy_run(tr, g0, shape, s0, goal0));
                assert(greedy_outcome(tr, g0, *map, start@, vgoals@, r));
            }
            r
        },
        _ => {
            proof {
                assert(false);
            }
            Err(Error::GoalUnreachable)
        },
    }
}

} // verus!
