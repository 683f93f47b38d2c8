//! The A* strategy: alongside the visited set and predecessor map it
//! keeps, per position, the best known path cost from the start (the
//! g-score) and that cost plus the heuristic distance to the goal (the
//! f-score); the frontier is ordered by ascending f-score.
//!
//! A deliberate, documented design choice: relaxing a position's score
//! re-queues it, but the visited flag is never cleared, so expansions
//! that already happened are not undone. Under a heuristic that rounding
//! has made inadmissible this can yield a suboptimal path; a caller that
//! needs the shortest path in moves should prefer the breadth-first
//! strategy.

use vstd::prelude::*;
use std::rc::Rc;
use crate::Position;
use crate::engine::{
    acyclic, is_walk, lemma_steps_g_ordered_acyclic, steps_g_ordered, unreachable_msg, walk_of,
    GraphSearch, Node2d, NodeState, SearchState, StateView,
};
use crate::grid::{same_world, Grid};
use crate::{Error, Search, SearchResult};
use crate::node::{neighbours_spec, shape_matches, steps_linked, MapField};
use crate::tables::{sum_slots, PosTable, VisitedTable};
use crate::topology::{shape_delta_sum, shape_dist_spec, shape_distance, WorldShape};
use crate::greedy::pos_gt;

verus! {

/// An A* search in progress.
pub struct AStarSearch {
    pub result: SearchState,
    pub frontier: Vec<(usize, MapField)>,
    pub visited: VisitedTable,
    pub steps: PosTable<Position>,
    pub g_score: PosTable<usize>,
    pub f_score: PosTable<usize>,
    pub map: Rc<Grid>,
    pub shape: WorldShape,
    pub goal: Position,
}

/// `a` is dequeued in preference to `b`: strictly smaller f-score, or the
/// same f-score and the later position.
pub open spec fn abetter(a: (usize, Position), b: (usize, Position)) -> bool {
    a.0 < b.0 || (a.0 == b.0 && pos_gt(a.1, b.1))
}

/// The index of the entry an A* dequeue takes: the preferred one, the
/// earliest among exact ties.
pub open spec fn abest_index(fv: Seq<(usize, Position)>) -> int
    decreases fv.len(),
{
    if fv.len() <= 1 {
        0
    } else {
        let b = abest_index(fv.drop_last());
        if abetter(fv.last(), fv[b]) {
            fv.len() - 1
        } else {
            b
        }
    }
}

/// The dequeue index is a real index.
pub proof fn lemma_abest_index_in_range(fv: Seq<(usize, Position)>)
    requires
        fv.len() >= 1,
    ensures
        0 <= abest_index(fv) < fv.len(),
    decreases fv.len(),
{
    if fv.len() > 1 {
        lemma_abest_index_in_range(fv.drop_last());
    }
}

/// The mutable half of an A* engine, over views: what one expansion round
/// threads through its neighbours.
pub ghost struct AExp {
    pub vis: Seq<Position>,
    pub fr: Seq<(usize, Position)>,
    pub steps: Map<Position, Position>,
    pub g: Map<Position, usize>,
    pub f: Map<Position, usize>,
}

/// One A* expansion round over the neighbour list `ns`: each neighbour
/// that is unvisited, or already visited but now reached in strictly
/// fewer moves, gets its scores set, is (re-)queued under its new
/// f-score, is marked visited and has `cur` recorded as its predecessor.
/// The tentative cost reads the g-score as it stands at that point in the
/// round.
pub open spec fn astar_expand(
    st: AExp,
    ns: Seq<Position>,
    cur: Position,
    shape: WorldShape,
    goal: Position,
) -> AExp
    decreases ns.len(),
{
    if ns.len() == 0 {
        st
    } else {
        let n = ns[0];
        let t = st.g[cur] + 1;
        let key = t + shape_dist_spec(shape, n, goal);
        let relevant = !st.vis.contains(n) || (st.g.dom().contains(n) && t < st.g[n]);
        let st1 = if relevant {
            AExp {
                vis: if st.vis.contains(n) {
                    st.vis
                } else {
                    st.vis.push(n)
                },
                fr: st.fr.push((key as usize, n)),
                steps: st.steps.insert(n, cur),
                g: st.g.insert(n, t as usize),
                f: st.f.insert(n, key as usize),
            }
        } else {
            st
        };
        astar_expand(st1, ns.drop_first(), cur, shape, goal)
    }
}

/// What one A* `step()` does, as a relation between the state before and
/// the state after, phrased over views. Every case pins the after-views
/// as a function of the before-views.
pub open spec fn astar_step_rel(pre: AStarSearch, post: AStarSearch) -> bool {
    &&& post.map == pre.map
    &&& post.shape == pre.shape
    &&& post.goal == pre.goal
    &&& if pre.result.is_over_spec() {
        post == pre
    } else if pre.frontier@.len() == 0 {
        &&& post.result.view_state() == StateView::Failed("goal unreachable"@)
        &&& post.frontier@ == pre.frontier@
        &&& post.visited == pre.visited
        &&& post.steps == pre.steps
        &&& post.g_score == pre.g_score
        &&& post.f_score == pre.f_score
    } else {
        let bi = abest_index(pre.fkeys());
        let cur = pre.fkeys()[bi].1;
        if pre.map.field_at(cur) is Goal {
            &&& post.result.view_state() == StateView::Finished(
                walk_of(pre.steps_view(), cur),
            )
            &&& post.fkeys() == pre.fkeys().remove(bi)
            &&& post.visited == pre.visited
            &&& post.steps == pre.steps
            &&& post.g_score == pre.g_score
            &&& post.f_score == pre.f_score
        } else {
            let st0 = AExp {
                vis: pre.visited_view(),
                fr: pre.fkeys().remove(bi),
                steps: pre.steps_view(),
                g: pre.g_view(),
                f: pre.f_view(),
            };
            let st1 = astar_expand(
                st0,
                neighbours_spec(*pre.map, pre.shape, cur),
                cur,
                pre.shape,
                pre.goal,
            );
            &&& post.result is InProgress
            &&& post.visited_view() == st1.vis
            &&& post.fkeys() == st1.fr
            &&& post.steps_view() == st1.steps
            &&& post.g_view() == st1.g
            &&& post.f_view() == st1.f
        }
    }
}

impl AStarSearch {
    /// The frontier as (f-score, position) entries, in queue order.
    pub open spec fn fkeys(&self) -> Seq<(usize, Position)> {
        self.frontier@.map_values(|e: (usize, MapField)| (e.0, e.1.pos))
    }

    /// The visited positions in discovery order.
    pub open spec fn visited_view(&self) -> Seq<Position> {
        self.visited.items@
    }

    /// The predecessor map.
    pub open spec fn steps_view(&self) -> Map<Position, Position> {
        self.steps.map_view()
    }

    /// The best known path cost from the start, per position.
    pub open spec fn g_view(&self) -> Map<Position, usize> {
        self.g_score.map_view()
    }

    /// The recorded f-score, per position.
    pub open spec fn f_view(&self) -> Map<Position, usize> {
        self.f_score.map_view()
    }

    /// The total of all recorded g-scores; it shrinks whenever a score is
    /// relaxed, which is what bounds a run of expansions.
    pub open spec fn g_total(&self) -> int {
        sum_slots(self.g_score.slots@)
    }

    /// As for the other engines, plus: exactly the visited positions
    /// carry a g-score, no g-score exceeds the number of visited
    /// positions, and every predecessor edge points from a costlier
    /// position to a cheaper one.
    pub open spec fn wf(&self) -> bool {
        &&& self.map.wf()
        &&& shape_matches(self.shape, *self.map)
        &&& self.map.in_bounds(self.goal)
        &&& self.visited.wf()
        &&& self.visited.width == self.map.width
        &&& self.visited.height == self.map.height
        &&& self.steps.wf()
        &&& self.steps.width == self.map.width
        &&& self.steps.height == self.map.height
        &&& self.g_score.wf()
        &&& self.g_score.width == self.map.width
        &&& self.g_score.height == self.map.height
        &&& self.f_score.wf()
        &&& self.f_score.width == self.map.width
        &&& self.f_score.height == self.map.height
        &&& forall|i: int|
            0 <= i < self.frontier@.len() ==> (#[trigger] self.frontier@[i]).1.wf()
                && self.frontier@[i].1.map == self.map && self.frontier@[i].1.shape == self.shape
        &&& forall|i: int|
            0 <= i < self.frontier@.len() ==> self.visited.has(
                (#[trigger] self.frontier@[i]).1.pos,
            )
        &&& forall|p: Position| #[trigger]
            self.g_view().dom().contains(p) ==> self.visited.items@.contains(p)
        &&& forall|p: Position| #[trigger]
            self.visited.items@.contains(p) ==> self.g_view().dom().contains(p)
        &&& forall|p: Position| #[trigger]
            self.g_view().dom().contains(p) ==> self.g_view()[p] <= self.visited.items@.len()
        &&& steps_g_ordered(self.steps_view(), self.g_view())
        &&& steps_linked(self.steps_view(), *self.map, self.shape)
    }

    /// A well-formed engine's predecessor map can be walked back safely.
    pub proof fn lemma_reconstructible(&self)
        requires
            self.wf(),
        ensures
            acyclic(self.steps_view()),
            forall|p: Position| #[trigger]
                self.steps_view().dom().contains(p) ==> self.steps.in_dims(self.steps_view()[p]),
    {
        lemma_steps_g_ordered_acyclic(self.steps_view(), self.g_view());
        assert forall|p: Position| #[trigger]
            self.steps_view().dom().contains(p) implies self.steps.in_dims(
            self.steps_view()[p],
        ) by {
            crate::engine::lemma_index_of_props(self.visited.items@, self.steps_view()[p]);
        }
    }

    /// The index the next dequeue will take, by one scan of the frontier.
    fn find_best(&self) -> (r: usize)
        requires
            self.frontier@.len() > 0,
        ensures
            r == abest_index(self.fkeys()),
            r < self.frontier@.len(),
    {
        let ghost fv = self.fkeys();
        let mut bi: usize = 0;
        let mut bk: usize = self.frontier[0].0;
        let mut bp: Position = self.frontier[0].1.id();
        let mut j: usize = 1;
        proof {
            assert(fv.take(1).len() == 1);
            assert(abest_index(fv.take(1)) == 0);
            assert(fv.take(1)[0] == fv[0]);
        }
        while j < self.frontier.len()
            invariant
                fv == self.fkeys(),
                fv.len() == self.frontier@.len(),
                1 <= j <= fv.len(),
                bi < j,
                bi == abest_index(fv.take(j as int)),
                (bk, bp) == fv[bi as int],
            decreases fv.len() - j,
        {
            let k = self.frontier[j].0;
            let p = self.frontier[j].1.id();
            proof {
                assert(fv.take(j + 1).drop_last() =~= fv.take(j as int));
                assert(fv.take(j + 1).last() == fv[j as int]);
                lemma_abest_index_in_range(fv.take(j as int));
                assert(fv.take(j + 1)[bi as int] == fv[bi as int]);
            }
            if k < bk || (k == bk && (p.0 > bp.0 || (p.0 == bp.0 && p.1 > bp.1))) {
                bi = j;
                bk = k;
                bp = p;
            }
            j = j + 1;
        }
        proof {
            assert(fv.take(fv.len() as int) =~= fv);
        }
        bi
    }

    /// One expansion, as the relation above says; additionally, an
    /// expanding step makes measurable progress: it visits a new
    /// position, or lowers the g-score total, or shortens the frontier.
    pub fn step(&mut self)
        requires
            old(self).wf(),
        ensures
            final(self).wf(),
            astar_step_rel(*old(self), *final(self)),
            astar_needs_progress(*old(self)) ==> astar_progress(*old(self), *final(self)),
    {
        if self.result.is_over() {
            return ;
        }
        if self.frontier.len() == 0 {
            self.result = SearchState::Failed(unreachable_msg());
            return ;
        }
        let bi = self.find_best();
        let entry = self.frontier.remove(bi);
        let current = entry.1;
        proof {
            assert(self.fkeys() =~= old(self).fkeys().remove(bi as int));
        }
        if current.is_goal() {
            proof {
                self.lemma_reconstructible();
            }
            let path = crate::engine::build_path(&self.steps, current.id());
            self.result = SearchState::Finished(path);
            return ;
        }
        let cur_pos = current.id();
        let ghost cpos = current.pos;
        let ghost ns_full = current.nbrs_of();
        let mut nbrs = current.neighbours();
        let ghost items0 = self.visited.items@;
        let ghost frlen0 = self.frontier@.len();
        let ghost gsum0 = self.g_total();
        let ghost st0 = AExp {
            vis: self.visited.items@,
            fr: self.fkeys(),
            steps: self.steps.map_view(),
            g: self.g_view(),
            f: self.f_view(),
        };
        let ghost target = astar_expand(st0, ns_full, cpos, self.shape, self.goal);
        let ghost mut i: int = 0;
        proof {
            assert(nbrs@.map_values(|n: MapField| n.pos) == ns_full);
            assert(ns_full.skip(0) =~= ns_full);
            assert(self.cur_exp() == st0);
        }
        while nbrs.len() > 0
            invariant
                self.wf(),
                self.map == old(self).map,
                self.shape == old(self).shape,
                self.goal == old(self).goal,
                self.result == old(self).result,
                current.wf(),
                current.map == self.map,
                current.shape == self.shape,
                cpos == current.pos,
                cur_pos == cpos,
                self.visited.has(cpos),
                ns_full == neighbours_spec(*self.map, self.shape, cpos),
                0 <= i <= ns_full.len(),
                nbrs@.len() == ns_full.len() - i,
                nbrs@.map_values(|n: MapField| n.pos) == ns_full.skip(i),
                forall|j: int|
                    0 <= j < nbrs@.len() ==> (#[trigger] nbrs@[j]).wf() && nbrs@[j].map == self.map
                        && nbrs@[j].shape == self.shape,
                astar_expand(self.cur_exp(), ns_full.skip(i), cpos, self.shape, self.goal)
                    == target,
                items0.len() < self.visited.items@.len() || (self.visited.items@ == items0 && (
                self.g_total() < gsum0 || (self.g_total() == gsum0 && self.frontier@.len()
                    == frlen0))),
            decreases nbrs@.len(),
        {
            let ghost nb0 = nbrs@;
            let n = nbrs.remove(0);
            let np = n.id();
            proof {
                assert(nbrs@ =~= nb0.drop_first());
                assert(n == nb0[0]);
                assert(nb0.map_values(|m: MapField| m.pos)[0] == np);
                assert(ns_full.skip(i)[0] == np);
                assert(ns_full.skip(i).drop_first() =~= ns_full.skip(i + 1));
                assert(nbrs@.map_values(|m: MapField| m.pos) =~= nb0.map_values(
                    |m: MapField| m.pos,
                ).drop_first());
                assert(ns_full.skip(i).len() > 0);
                self.visited.lemma_card();
            }
            let gcur = match self.g_score.get(cur_pos) {
                Some(v) => v,
                None => {
                    proof {
                        assert(false);
                    }
                    0
                },
            };
            let tentative = gcur + 1;
            let ghost pre_step = self.cur_exp();
            let fresh = !self.visited.contains(np);
            let relax = if !fresh {
                match self.g_score.get(np) {
                    Some(gn) => tentative < gn,
                    None => false,
                }
            } else {
                false
            };
            if fresh || relax {
                proof {
                    assert(pre_step.g.dom().contains(cpos));
                    assert(np != cpos);
                    crate::tables::lemma_index_range(
                        np,
                        self.g_score.width as int,
                        self.g_score.height as int,
                    );
                }
                let ghost pre_exp = self.cur_exp();
                let ghost gslots = self.g_score.slots@;
                let ghost gidx = crate::grid::index_spec(np, self.g_score.width as int);
                if fresh {
                    self.visited.insert(np);
                    proof {
                        crate::engine::lemma_push_to_set(pre_exp.vis, np);
                    }
                }
                self.steps.insert(np, cur_pos);
                self.g_score.insert(np, tentative);
                let h = shape_distance(self.shape, np, self.goal);
                proof {
                    assert(shape_delta_sum(self.shape, np, self.goal) < self.map.width
                        + self.map.height);
                }
                let fkey = tentative + (h as usize);
                self.f_score.insert(np, fkey);
                let ghost fr_b0 = self.frontier@;
                self.frontier.push((fkey, n));
                proof {
                    assert(self.frontier@.drop_last() =~= fr_b0);
                    assert(self.fkeys() =~= pre_exp.fr.push((fkey, np)));
                    crate::tables::lemma_sum_slots_update(gslots, gidx, tentative);
                    lemma_astar_insert_keeps_order(
                        pre_exp.steps,
                        pre_exp.g,
                        np,
                        cpos,
                        tentative,
                    );
                    assert(self.visited.items@.contains(np)) by {
                        if fresh {
                            assert(self.visited.items@[self.visited.items@.len() - 1] == np);
                        }
                    }
                    assert forall|p: Position| #[trigger]
                        self.g_view().dom().contains(p) implies self.visited.items@.contains(
                        p,
                    ) by {
                        if p != np {
                            assert(pre_exp.g.dom().contains(p));
                            assert(pre_exp.vis.contains(p));
                            if fresh {
                                let k = choose|k: int|
                                    0 <= k < pre_exp.vis.len() && pre_exp.vis[k] == p;
                                assert(self.visited.items@[k] == p);
                            }
                        }
                    }
                    assert forall|p: Position| #[trigger]
                        self.visited.items@.contains(p) implies self.g_view().dom().contains(
                        p,
                    ) by {
                        if p != np {
                            if fresh {
                                let k = choose|k: int|
                                    0 <= k < self.visited.items@.len() && self.visited.items@[k]
                                        == p;
                                assert(k < pre_exp.vis.len());
                                assert(pre_exp.vis[k] == p);
                            }
                            assert(pre_exp.vis.contains(p));
                        }
                    }
                    assert forall|p: Position| #[trigger]
                        self.g_view().dom().contains(p) implies self.g_view()[p]
                        <= self.visited.items@.len() by {
                        if p != np {
                            assert(pre_exp.g.dom().contains(p));
                        }
                    }
                    assert(ns_full[i] == np);
                    assert(neighbours_spec(*self.map, self.shape, cpos).contains(np));
                    assert(self.cur_exp() == astar_expand_one(
                        pre_exp,
                        np,
                        cpos,
                        self.shape,
                        self.goal,
                    )) by {
                        assert(pre_exp.g[cpos] == gcur);
                        assert(fkey as int == pre_exp.g[cpos] + 1 + shape_dist_spec(
                            self.shape,
                            np,
                            self.goal,
                        ));
                        assert(self.fkeys() == pre_exp.fr.push((fkey, np)));
                        assert(self.visited.items@ == astar_expand_one(
                            pre_exp,
                            np,
                            cpos,
                            self.shape,
                            self.goal,
                        ).vis);
                    }
                    i = i + 1;
                }
            } else {
                proof {
                    i = i + 1;
                }
            }
        }
        proof {
            assert(ns_full.skip(ns_full.len() as int) =~= Seq::<Position>::empty());
        }
        self.result = SearchState::InProgress;
    }

    /// The engine's mutable half, bundled over views.
    pub open spec fn cur_exp(&self) -> AExp {
        AExp {
            vis: self.visited.items@,
            fr: self.fkeys(),
            steps: self.steps.map_view(),
            g: self.g_view(),
            f: self.f_view(),
        }
    }
}

/// What one relevant neighbour does to the engine's mutable half.
pub open spec fn astar_expand_one(
    st: AExp,
    n: Position,
    cur: Position,
    shape: WorldShape,
    goal: Position,
) -> AExp {
    let t = st.g[cur] + 1;
    let key = t + shape_dist_spec(shape, n, goal);
    AExp {
        vis: if st.vis.contains(n) {
            st.vis
        } else {
            st.vis.push(n)
        },
        fr: st.fr.push((key as usize, n)),
        steps: st.steps.insert(n, cur),
        g: st.g.insert(n, t as usize),
        f: st.f.insert(n, key as usize),
    }
}

/// The step about to happen is an expansion: not terminal, a nonempty
/// frontier, and the entry to be dequeued is no goal.
pub open spec fn astar_needs_progress(pre: AStarSearch) -> bool {
    &&& !pre.result.is_over_spec()
    &&& pre.frontier@.len() > 0
    &&& !(pre.map.field_at(pre.fkeys()[abest_index(pre.fkeys())].1) is Goal)
}

/// An expanding step visits a new position, or lowers the g-score total,
/// or leaves both alone and only shortens the frontier by its dequeue.
pub open spec fn astar_progress(pre: AStarSearch, post: AStarSearch) -> bool {
    ||| pre.visited.items@.len() < post.visited.items@.len()
    ||| (post.visited.items@ == pre.visited.items@ && post.g_total() < pre.g_total())
    ||| (post.visited.items@ == pre.visited.items@ && post.g_total() == pre.g_total()
        && post.frontier@.len() < pre.frontier@.len())
}

impl AStarSearch {
    /// The visited, frontier and path cells, tagged for a renderer.
    pub fn nodes(&self) -> (r: Vec<Node2d>)
        ensures
            r@ == astar_nodes_view(*self),
    {
        let mut r: Vec<Node2d> = Vec::new();
        let mut i: usize = 0;
        while i < self.visited.items.len()
            invariant
                i <= self.visited.items@.len(),
                r@ == self.visited.items@.take(i as int).map_values(
                    |p: Position| Node2d(p, NodeState::Visited),
                ),
            decreases self.visited.items@.len() - i,
        {
            r.push(Node2d(self.visited.items[i], NodeState::Visited));
            proof {
                assert(self.visited.items@.take(i + 1) =~= self.visited.items@.take(
                    i as int,
                ).push(self.visited.items@[i as int]));
                assert(r@ =~= self.visited.items@.take(i + 1).map_values(
                    |p: Position| Node2d(p, NodeState::Visited),
                ));
            }
            i = i + 1;
        }
        proof {
            assert(self.visited.items@.take(self.visited.items@.len() as int)
                =~= self.visited.items@);
        }
        let ghost part1 = r@;
        let mut j: usize = 0;
        while j < self.frontier.len()
            invariant
                j <= self.frontier@.len(),
                part1 == self.visited.items@.map_values(|p: Position| Node2d(p, NodeState::Visited)),
                r@ == part1 + self.frontier@.take(j as int).map_values(
                    |e: (usize, MapField)| e.1.pos,
                ).map_values(|p: Position| Node2d(p, NodeState::Frontier)),
            decreases self.frontier@.len() - j,
        {
            let np = self.frontier[j].1.id();
            r.push(Node2d(np, NodeState::Frontier));
            proof {
                assert(self.frontier@.take(j + 1) =~= self.frontier@.take(j as int).push(
                    self.frontier@[j as int],
                ));
                assert(r@ =~= part1 + self.frontier@.take(j + 1).map_values(
                    |e: (usize, MapField)| e.1.pos,
                ).map_values(|p: Position| Node2d(p, NodeState::Frontier)));
            }
            j = j + 1;
        }
        proof {
            assert(self.frontier@.take(self.frontier@.len() as int) =~= self.frontier@);
        }
        let ghost part2 = r@;
        match &self.result {
            SearchState::Finished(path) => {
                let mut k: usize = 0;
                while k < path.len()
                    invariant
                        k <= path@.len(),
                        self.result == SearchState::Finished(*path),
                        part2 == self.visited.items@.map_values(
                            |p: Position| Node2d(p, NodeState::Visited),
                        ) + self.frontier@.map_values(|e: (usize, MapField)| e.1.pos).map_values(
                            |p: Position| Node2d(p, NodeState::Frontier),
                        ),
                        r@ == part2 + path@.take(k as int).map_values(
                            |p: Position| Node2d(p, NodeState::Path),
                        ),
                    decreases path@.len() - k,
                {
                    r.push(Node2d(path[k], NodeState::Path));
                    proof {
                        assert(path@.take(k + 1) =~= path@.take(k as int).push(path@[k as int]));
                        assert(r@ =~= part2 + path@.take(k + 1).map_values(
                            |p: Position| Node2d(p, NodeState::Path),
                        ));
                    }
                    k = k + 1;
                }
                proof {
                    assert(path@.take(path@.len() as int) =~= path@);
                }
            },
            _ => {
                proof {
                    assert(r@ =~= astar_nodes_view(*self));
                }
            },
        }
        r
    }
}

/// The display projection of an A* engine: visited cells, then frontier
/// cells, then — once finished — path cells.
pub open spec fn astar_nodes_view(e: AStarSearch) -> Seq<Node2d> {
    e.visited_view().map_values(|p: Position| Node2d(p, NodeState::Visited))
        + e.frontier@.map_values(|en: (usize, MapField)| en.1.pos).map_values(
        |p: Position| Node2d(p, NodeState::Frontier),
    ) + (match e.result {
        SearchState::Finished(path) => path@.map_values(|p: Position| Node2d(p, NodeState::Path)),
        _ => Seq::<Node2d>::empty(),
    })
}

impl GraphSearch for AStarSearch {
    open spec fn inv(&self) -> bool {
        self.wf()
    }

    fn step(&mut self) {
        AStarSearch::step(self)
    }

    fn nodes(&self) -> Vec<Node2d> {
        AStarSearch::nodes(self)
    }
}

/// A freshly seeded A* engine: the one start is visited, carries a
/// g-score of zero and an f-score of its heuristic distance to the goal,
/// and waits alone in the frontier.
pub open spec fn astar_seeded(
    e: AStarSearch,
    g: Grid,
    shape: WorldShape,
    start: Position,
    goal: Position,
) -> bool {
    &&& *e.map == g
    &&& e.shape == shape
    &&& e.goal == goal
    &&& e.result is NotStarted
    &&& e.steps_view() == Map::<Position, Position>::empty()
    &&& e.visited_view() == seq![start]
    &&& e.g_view() == Map::<Position, usize>::empty().insert(start, 0usize)
    &&& e.f_view() == Map::<Position, usize>::empty().insert(
        start,
        shape_dist_spec(shape, start, goal) as usize,
    )
    &&& e.fkeys() == seq![(shape_dist_spec(shape, start, goal) as usize, start)]
}

/// An A* engine over `map` under the given shape, seeded with one start
/// and bound to one goal.
pub fn astar_search(map: Grid, shape: WorldShape, start: Position, goal: Position) -> (r:
    AStarSearch)
    requires
        map.wf(),
        shape_matches(shape, map),
        map.in_bounds(start),
        map.in_bounds(goal),
    ensures
        r.wf(),
        astar_seeded(r, map, shape, start, goal),
{
    let width = map.width;
    let height = map.height;
    let rc = Rc::new(map);
    let mut visited = VisitedTable::new(width, height);
    let steps: PosTable<Position> = PosTable::new(width, height);
    let mut g_score: PosTable<usize> = PosTable::new(width, height);
    let mut f_score: PosTable<usize> = PosTable::new(width, height);
    visited.insert(start);
    g_score.insert(start, 0);
    let h = shape_distance(shape, start, goal);
    f_score.insert(start, h as usize);
    let node = MapField { pos: start, map: crate::node::rc_clone(&rc), shape };
    let mut frontier: Vec<(usize, MapField)> = Vec::new();
    frontier.push((h as usize, node));
    let r = AStarSearch {
        result: SearchState::NotStarted,
        frontier,
        visited,
        steps,
        g_score,
        f_score,
        map: rc,
        shape,
        goal,
    };
    proof {
        assert(r.visited_view() =~= seq![start]);
        assert(r.fkeys() =~= seq![(shape_dist_spec(shape, start, goal) as usize, start)]);
        assert(r.visited.items@[0] == start);
        assert(r.visited.items@.contains(start));
        assert forall|p: Position| #[trigger]
            r.visited.items@.contains(p) implies r.g_view().dom().contains(p) by {
            assert(seq![start].contains(p));
        }
    }
    r
}

/// A completed A* run: seeded over `g`, stepped state to state, stopped
/// at the first terminal state.
pub open spec fn astar_run(
    tr: Seq<AStarSearch>,
    g: Grid,
    shape: WorldShape,
    start: Position,
    goal: Position,
) -> bool {
    &&& tr.len() >= 1
    &&& astar_seeded(tr[0], g, shape, start, goal)
    &&& forall|k: int| 0 <= k < tr.len() ==> (#[trigger] tr[k]).wf()
    &&& forall|k: int| 1 <= k < tr.len() ==> astar_step_rel(tr[k - 1], #[trigger] tr[k])
    &&& tr.last().result.is_over_spec()
    &&& forall|k: int| 0 <= k < tr.len() - 1 ==> !(#[trigger] tr[k]).result.is_over_spec()
}

/// Recording a predecessor whose cost is strictly below the new cost
/// keeps every edge pointing from costlier to cheaper.
proof fn lemma_astar_insert_keeps_order(
    m: Map<Position, Position>,
    g: Map<Position, usize>,
    n: Position,
    cur: Position,
    t: usize,
)
    requires
        steps_g_ordered(m, g),
        g.dom().contains(cur),
        t == g[cur] + 1,
        n != cur,
        !g.dom().contains(n) || t < g[n],
    ensures
        steps_g_ordered(m.insert(n, cur), g.insert(n, t)),
{
    let m1 = m.insert(n, cur);
    let g1 = g.insert(n, t);
    assert forall|p: Position| #[trigger] m1.dom().contains(p) implies g1.dom().contains(p)
        && g1.dom().contains(m1[p]) && g1[m1[p]] < g1[p] by {
        if p == n {
        } else {
            assert(m.dom().contains(p));
            if m[p] == n {
                assert(g.dom().contains(n));
                assert(t < g[n]);
            }
        }
    }
}

/// The neighbour list an engine would expand `cur` with.
pub open spec fn astar_nbrs_of(pre: AStarSearch, cur: Position) -> Seq<Position> {
    neighbours_spec(*pre.map, pre.shape, cur)
}

/// Two A* engines agree on everything a step can observe.
pub open spec fn astar_same_view(a: AStarSearch, b: AStarSearch) -> bool {
    &&& *a.map == *b.map
    &&& a.shape == b.shape
    &&& a.goal == b.goal
    &&& a.result.view_state() == b.result.view_state()
    &&& a.fkeys() == b.fkeys()
    &&& a.visited_view() == b.visited_view()
    &&& a.steps_view() == b.steps_view()
    &&& a.g_view() == b.g_view()
    &&& a.f_view() == b.f_view()
}

/// Determinism: two A* engines in agreeing states step into agreeing
/// states.
pub proof fn lemma_astar_step_deterministic(
    pre1: AStarSearch,
    pre2: AStarSearch,
    post1: AStarSearch,
    post2: AStarSearch,
)
    requires
        astar_same_view(pre1, pre2),
        astar_step_rel(pre1, post1),
        astar_step_rel(pre2, post2),
    ensures
        astar_same_view(post1, post2),
{
    if !pre1.result.is_over_spec() && pre1.frontier@.len() > 0 {
        assert(pre1.fkeys().len() == pre1.frontier@.len());
        assert(pre2.fkeys().len() == pre2.frontier@.len());
    }
}

/// A run of the A* engine: a nonempty chain of states, each one step
/// after the one before.
pub open spec fn astar_trace(tr: Seq<AStarSearch>) -> bool {
    &&& tr.len() >= 1
    &&& forall|k: int| 1 <= k < tr.len() ==> astar_step_rel(tr[k - 1], #[trigger] tr[k])
}

/// Once terminal, always the very same state.
pub proof fn lemma_astar_terminal_steps_idempotent(tr: Seq<AStarSearch>, i: int)
    requires
        astar_trace(tr),
        tr[0].result.is_over_spec(),
        0 <= i < tr.len(),
    ensures
        tr[i] == tr[0],
    decreases i,
{
    if i > 0 {
        lemma_astar_terminal_steps_idempotent(tr, i - 1);
        assert(astar_step_rel(tr[i - 1], tr[i]));
    }
}

/// No position is ever pushed into the visited set twice; relaxing a
/// score never re-inserts one.
pub proof fn lemma_astar_visited_once(e: AStarSearch)
    requires
        e.wf(),
    ensures
        e.visited_view().no_duplicates(),
{
}

/// A step only ever appends to the visited set.
pub proof fn lemma_astar_visited_monotone(pre: AStarSearch, post: AStarSearch)
    requires
        astar_step_rel(pre, post),
    ensures
        pre.visited_view().is_prefix_of(post.visited_view()),
{
    if !pre.result.is_over_spec() && pre.frontier@.len() > 0 {
        let bi = abest_index(pre.fkeys());
        let cur = pre.fkeys()[bi].1;
        if !(pre.map.field_at(cur) is Goal) {
            let st0 = AExp {
                vis: pre.visited_view(),
                fr: pre.fkeys().remove(bi),
                steps: pre.steps_view(),
                g: pre.g_view(),
                f: pre.f_view(),
            };
            lemma_astar_expand_vis_monotone(st0, astar_nbrs_of(pre, cur), cur, pre.shape, pre.goal);
        } else {
            assert(pre.visited_view().is_prefix_of(pre.visited_view()));
        }
    } else {
        assert(pre.visited_view().is_prefix_of(pre.visited_view()));
    }
}

/// An expansion round only ever appends to its visited order.
proof fn lemma_astar_expand_vis_monotone(
    st: AExp,
    ns: Seq<Position>,
    cur: Position,
    shape: WorldShape,
    goal: Position,
)
    ensures
        st.vis.is_prefix_of(astar_expand(st, ns, cur, shape, goal).vis),
    decreases ns.len(),
{
    if ns.len() == 0 {
        assert(st.vis.is_prefix_of(st.vis));
    } else {
        let n = ns[0];
        let t = st.g[cur] + 1;
        let relevant = !st.vis.contains(n) || (st.g.dom().contains(n) && t < st.g[n]);
        let st1 = if relevant {
            astar_expand_one(st, n, cur, shape, goal)
        } else {
            st
        };
        lemma_astar_expand_vis_monotone(st1, ns.drop_first(), cur, shape, goal);
        let fin = astar_expand(st, ns, cur, shape, goal).vis;
        if relevant && !st.vis.contains(n) {
            assert(st1.vis == st.vis.push(n));
            assert(st.vis.is_prefix_of(fin)) by {
                assert(fin.subrange(0, st.vis.len() as int) =~= st.vis);
            }
        }
    }
}

/// Along any chain of steps the grid handle and the shape never change.
proof fn lemma_astar_trace_same_map(tr: Seq<AStarSearch>, i: int)
    requires
        tr.len() >= 1,
        forall|k: int| 1 <= k < tr.len() ==> astar_step_rel(tr[k - 1], #[trigger] tr[k]),
        0 <= i < tr.len(),
    ensures
        tr[i].map == tr[0].map,
        tr[i].shape == tr[0].shape,
    decreases i,
{
    if i > 0 {
        lemma_astar_trace_same_map(tr, i - 1);
        assert(astar_step_rel(tr[i - 1], tr[i]));
    }
}

/// An expansion round never strips a position of its predecessor, and
/// only visits positions it also gives one.
proof fn lemma_astar_expand_unparented(
    st: AExp,
    ns: Seq<Position>,
    cur: Position,
    shape: WorldShape,
    goal: Position,
    p: Position,
)
    requires
        astar_expand(st, ns, cur, shape, goal).vis.contains(p),
        !astar_expand(st, ns, cur, shape, goal).steps.dom().contains(p),
    ensures
        st.vis.contains(p),
        !st.steps.dom().contains(p),
    decreases ns.len(),
{
    if ns.len() > 0 {
        let n = ns[0];
        let t = st.g[cur] + 1;
        let relevant = !st.vis.contains(n) || (st.g.dom().contains(n) && t < st.g[n]);
        let st1 = if relevant {
            astar_expand_one(st, n, cur, shape, goal)
        } else {
            st
        };
        lemma_astar_expand_unparented(st1, ns.drop_first(), cur, shape, goal, p);
        if relevant {
            assert(p != n);
            if !st.vis.contains(n) {
                assert(st1.vis == st.vis.push(n));
                assert(st.vis.contains(p)) by {
                    let i = choose|i: int| 0 <= i < st1.vis.len() && st1.vis[i] == p;
                    assert(i < st.vis.len());
                    assert(st.vis[i] == p);
                }
            }
        }
    }
}

/// A visited position nothing discovered was there from the seeding.
proof fn lemma_astar_unparented_are_seeds(tr: Seq<AStarSearch>, i: int, p: Position)
    requires
        tr.len() >= 1,
        forall|k: int| 1 <= k < tr.len() ==> astar_step_rel(tr[k - 1], #[trigger] tr[k]),
        0 <= i < tr.len(),
        tr[i].visited_view().contains(p),
        !tr[i].steps_view().dom().contains(p),
    ensures
        tr[0].visited_view().contains(p),
    decreases i,
{
    if i > 0 {
        let pre = tr[i - 1];
        let post = tr[i];
        assert(astar_step_rel(pre, post));
        if !pre.result.is_over_spec() && pre.frontier@.len() > 0 {
            let bi = abest_index(pre.fkeys());
            let cur = pre.fkeys()[bi].1;
            if !(pre.map.field_at(cur) is Goal) {
                let st0 = AExp {
                    vis: pre.visited_view(),
                    fr: pre.fkeys().remove(bi),
                    steps: pre.steps_view(),
                    g: pre.g_view(),
                    f: pre.f_view(),
                };
                lemma_astar_expand_unparented(
                    st0,
                    astar_nbrs_of(pre, cur),
                    cur,
                    pre.shape,
                    pre.goal,
                    p,
                );
            }
        }
        lemma_astar_unparented_are_seeds(tr, i - 1, p);
    }
}

/// What a finished A* run's path is made of, end to end: it begins at a
/// goal cell, every move along it steps between neighbouring passable
/// cells, and it ends at the search's one start.
pub proof fn lemma_astar_finished_path_connected(
    tr: Seq<AStarSearch>,
    g: Grid,
    shape: WorldShape,
    start: Position,
    goal: Position,
    p: Seq<Position>,
)
    requires
        astar_run(tr, g, shape, start, goal),
        tr.last().result.view_state() == StateView::Finished(p),
    ensures
        p.len() >= 1,
        g.in_bounds(p[0]),
        g.field_at(p[0]) is Goal,
        forall|i: int|
            0 <= i < p.len() - 1 ==> neighbours_spec(g, shape, #[trigger] p[i + 1]).contains(
                p[i],
            ),
        p.last() == start,
{
    assert(tr.len() >= 2) by {
        assert(!tr[0].result.is_over_spec());
    }
    let k = tr.len() - 2;
    let pre = tr[k];
    let m = pre.steps_view();
    assert(!pre.result.is_over_spec());
    assert(astar_step_rel(pre, tr[k + 1]));
    assert(pre.wf());
    lemma_astar_trace_same_map(tr, k);
    assert(*pre.map == g);
    let bi = abest_index(pre.fkeys());
    let cur = pre.fkeys()[bi].1;
    assert(pre.frontier@.len() > 0 && pre.map.field_at(cur) is Goal && p == walk_of(m, cur)) by {
        if pre.frontier@.len() == 0 {
            assert(tr[k + 1].result.view_state() is Failed);
        }
    }
    lemma_abest_index_in_range(pre.fkeys());
    assert(pre.fkeys().len() == pre.frontier@.len());
    assert(cur == pre.frontier@[bi].1.pos);
    assert(pre.frontier@[bi].1.wf());
    assert(g.in_bounds(cur));
    assert(p[0] == cur && is_walk(m, cur, p)) by {
        lemma_steps_g_ordered_acyclic(m, pre.g_view());
        let rank = choose|rank: spec_fn(Position) -> nat| crate::engine::rank_ok(m, rank);
        crate::engine::lemma_walk_exists(m, cur, rank);
        assert(is_walk(m, cur, walk_of(m, cur)));
    }
    assert forall|i: int|
        0 <= i < p.len() - 1 implies neighbours_spec(g, shape, #[trigger] p[i + 1]).contains(
        p[i],
    ) by {
        assert(m.dom().contains(p[i]) && m[p[i]] == p[i + 1]);
    }
    assert(pre.visited_view().contains(p.last())) by {
        if p.len() == 1 {
            assert(pre.visited.has(pre.frontier@[bi].1.pos));
        } else {
            assert(m.dom().contains(p[p.len() - 2]) && m[p[p.len() - 2]] == p.last());
            assert(pre.g_view().dom().contains(p.last()));
        }
    }
    lemma_astar_unparented_are_seeds(tr, k, p.last());
    assert(tr[0].visited_view() == seq![start]);
    assert(p.last() == start) by {
        let s0 = tr[0].visited_view();
        let i = choose|i: int| 0 <= i < s0.len() && s0[i] == p.last();
    }
}

/// What `astar` promises: some complete A* run over a grid with the same
/// cells as the caller's, from the one start to the one goal, whose
/// terminal state carries exactly the returned path or failure.
pub open spec fn astar_outcome(
    tr: Seq<AStarSearch>,
    g2: Grid,
    map: Grid,
    start: Seq<Position>,
    goals: Seq<Position>,
    r: SearchResult,
) -> bool {
    &&& same_world(g2, map)
    &&& astar_run(
        tr,
        g2,
        (WorldShape::Rectangle { width: map.width, height: map.height }),
        start[0],
        goals[0],
    )
    &&& match r {
        Ok(s) => {
            &&& s.paths@.len() == 1
            &&& tr.last().result.view_state() == StateView::Finished(s.paths@[0]@)
            &&& s.start@ == start
            &&& s.goals@ == goals
            &&& s.visited@ == tr.last().visited_view()
        },
        Err(e) => tr.last().result is Failed && e == Error::GoalUnreachable,
    }
}

/// Run an A* search from the one start to the one goal over `map` as a
/// rectangle, to completion.
pub fn astar(start: Vec<Position>, vgoals: Vec<Position>, map: &Grid) -> (r: SearchResult)
    requires
        map.wf(),
        start@.len() == 1,
        vgoals@.len() == 1,
        map.in_bounds(start@[0]),
        map.in_bounds(vgoals@[0]),
    ensures
        exists|tr: Seq<AStarSearch>, g2: Grid| astar_outcome(tr, g2, *map, start@, vgoals@, r),
        r matches Ok(s) ==> s.paths@.len() == 1 && s.paths@[0]@.len() >= 1 && map.in_bounds(
            s.paths@[0]@[0],
        ) && map.field_at(s.paths@[0]@[0]) is Goal && s.paths@[0]@.last() == start@[0] && (
        forall|i: int|
            0 <= i < s.paths@[0]@.len() - 1 ==> neighbours_spec(
                *map,
                (WorldShape::Rectangle { width: map.width, height: map.height }),
                #[trigger] s.paths@[0]@[i + 1],
            ).contains(s.paths@[0]@[i])),
{
    let g0 = map.duplicate();
    let shape = WorldShape::Rectangle { width: g0.width, height: g0.height };
    let s0: Position = start[0];
    let goal0: Position = vgoals[0];
    let mut eng = astar_search(g0, shape, s0, goal0);
    let ghost eng0 = eng;
    let ghost mut tr: Seq<AStarSearch> = seq![eng];
    loop
        invariant_except_break
            eng.wf(),
            astar_seeded(eng0, g0, shape, s0, goal0),
            tr.len() >= 1,
            tr[0] == eng0,
            tr.last() == eng,
            forall|k: int| 0 <= k < tr.len() ==> (#[trigger] tr[k]).wf(),
            forall|k: int| 1 <= k < tr.len() ==> astar_step_rel(tr[k - 1], #[trigger] tr[k]),
            forall|k: int| 0 <= k < tr.len() - 1 ==> !(#[trigger] tr[k]).result.is_over_spec(),
        ensures
            eng.wf(),
            tr.len() >= 1,
            tr[0] == eng0,
            tr.last() == eng,
            forall|k: int| 0 <= k < tr.len() ==> (#[trigger] tr[k]).wf(),
            forall|k: int| 1 <= k < tr.len() ==> astar_step_rel(tr[k - 1], #[trigger] tr[k]),
            forall|k: int| 0 <= k < tr.len() - 1 ==> !(#[trigger] tr[k]).result.is_over_spec(),
            eng.result.is_over_spec(),
        decreases
            eng.map.width * eng.map.height - eng.visited.items@.len(),
            eng.g_total(),
            eng.frontier@.len(),
            (if eng.result.is_over_spec() {
                0int
            } else {
                1int
            }),
    {
        if eng.result.is_over() {
            break ;
        }
        let ghost pre = eng;
        proof {
            eng.visited.lemma_card();
            crate::tables::lemma_sum_slots_nonneg(eng.g_score.slots@);
        }
        eng.step();
        proof {
            eng.visited.lemma_card();
            crate::tables::lemma_sum_slots_nonneg(eng.g_score.slots@);
            if pre.frontier@.len() > 0 {
                let bi = abest_index(pre.fkeys());
                lemma_abest_index_in_range(pre.fkeys());
                if pre.map.field_at(pre.fkeys()[bi].1) is Goal {
                    assert(eng.fkeys() == pre.fkeys().remove(bi));
                    assert(eng.fkeys().len() == pre.fkeys().len() - 1);
                    assert(eng.frontier@.len() == pre.frontier@.len() - 1);
                } else {
                    assert(astar_needs_progress(pre));
                    assert(astar_progress(pre, eng));
                }
            }
            let ghost tr0 = tr;
            tr = tr.push(eng);
            assert(tr.last() == eng);
            assert forall|k: int| 0 <= k < tr.len() implies (#[trigger] tr[k]).wf() by {
                if k < tr0.len() {
                    assert(tr[k] == tr0[k]);
                } else {
                    assert(tr[k] == eng);
                }
            }
            assert forall|k: int| 1 <= k < tr.len() implies astar_step_rel(
                tr[k - 1],
                #[trigger] tr[k],
            ) by {
                if k < tr.len() - 1 {
                    assert(tr[k] == tr0[k] && tr[k - 1] == tr0[k - 1]);
                } else {
                    assert(tr[k] == eng && tr[k - 1] == pre);
                }
            }
            assert forall|k: int|
                0 <= k < tr.len() - 1 implies !(#[trigger] tr[k]).result.is_over_spec() by {
                if k < tr0.len() - 1 {
                    assert(tr[k] == tr0[k]);
                } else {
                    assert(tr[k] == pre);
                }
            }
        }
    }
    let visited_out = eng.visited.to_vec();
    match eng.result {
        SearchState::Finished(path) => {
            proof {
                assert(astar_run(tr, g0, shape, s0, goal0));
                lemma_astar_finished_path_connected(tr, g0, shape, s0, goal0, path@);
            }
            let s = Search { start, goals: vgoals, paths: vec![path], visited: visited_out };
            let r: SearchResult = Ok(s);
            proof {
                assert(astar_outcome(tr, g0, *map, start@, vgoals@, r));
                assert(s.paths@.len() == 1 && s.paths@[0] == path);
                assert forall|i: int|
                    0 <= i < path@.len() - 1 implies neighbours_spec(
                    *map,
                    shape,
                    #[trigger] path@[i + 1],
                ).contains(path@[i]) by {
                    crate::node::lemma_neighbours_same_world(g0, map, shape, path@[i + 1]);
                }
            }
            r
        },
        SearchState::Failed(msg) => {
            let r: SearchResult = Err(Error::GoalUnreachable);
            proof {
                assert(astar_run(tr, g0, shape, s0, goal0));
                assert(astar_outcome(tr, g0, *map, start@, vgoals@, r));
            }
            r
        },
        _ => {
            proof {
                assert(false);
            }
            Err(Error::GoalUnreachable)
        },
    }
}

} // verus!
