//! What the three strategies share: the engine status, path
//! reconstruction over a predecessor map, and the mathematical model of one
//! expansion round (which neighbours enter the visited set, the frontier
//! and the predecessor map, and in what order).

use vstd::prelude::*;
use crate::Position;
use crate::tables::PosTable;

verus! {

/// The status of a search engine. Once `Finished` or `Failed` it never
/// changes again: `step()` becomes a no-op.
#[derive(Clone, Debug, PartialEq, Eq)]
pub enum SearchState {
    NotStarted,
    InProgress,
    Finished(Vec<Position>),
    Failed(String),
}

/// A `SearchState` with its containers abstracted to their views.
pub ghost enum StateView {
    NotStarted,
    InProgress,
    Finished(Seq<Position>),
    Failed(Seq<char>),
}

impl SearchState {
    /// The status over views.
    pub open spec fn view_state(&self) -> StateView {
        match self {
            SearchState::NotStarted => StateView::NotStarted,
            SearchState::InProgress => StateView::InProgress,
            SearchState::Finished(path) => StateView::Finished(path@),
            SearchState::Failed(msg) => StateView::Failed(msg@),
        }
    }

    /// Terminal means `Finished` or `Failed`.
    pub open spec fn is_over_spec(&self) -> bool {
        self is Finished || self is Failed
    }

    /// A deep copy carrying the same status and, if any, the same path
    /// or reason.
    pub fn duplicate(&self) -> (r: SearchState)
        ensures
            r.view_state() == self.view_state(),
    {
        match self {
            SearchState::NotStarted => SearchState::NotStarted,
            SearchState::InProgress => SearchState::InProgress,
            SearchState::Finished(path) => {
                let mut copy: Vec<Position> = Vec::new();
                let mut i: usize = 0;
                while i < path.len()
                    invariant
                        i <= path@.len(),
                        copy@ == path@.take(i as int),
                    decreases path@.len() - i,
                {
                    copy.push(path[i]);
                    proof {
                        assert(copy@ =~= path@.take(i + 1));
                    }
                    i = i + 1;
                }
                proof {
                    assert(path@.take(path@.len() as int) =~= path@);
                }
                SearchState::Finished(copy)
            },
            SearchState::Failed(reason) => SearchState::Failed(reason.clone()),
        }
    }

    /// Whether the search has reached a terminal status.
    pub fn is_over(&self) -> (r: bool)
        ensures
            r == self.is_over_spec(),
    {
        match *self {
            SearchState::Finished(_) => true,
            SearchState::Failed(_) => true,
            SearchState::NotStarted => false,
            SearchState::InProgress => false,
        }
    }
}

/// The overlay tag a position carries when an engine's state is projected
/// for display.
#[derive(Clone, Copy, Debug, PartialEq, Eq)]
pub enum NodeState {
    Visited,
    Frontier,
    Path,
}

/// One displayable cell: a position and its overlay tag.
#[derive(Clone, Copy, Debug, PartialEq, Eq)]
pub struct Node2d(pub (usize, usize), pub NodeState);

/// The driving interface of a search engine: advance one step, or project
/// the current state for display.
pub trait GraphSearch {
    /// The engine invariant every step preserves.
    spec fn inv(&self) -> bool;

    /// Advance the search by one expansion (a no-op once terminal).
    fn step(&mut self)
        requires
            old(self).inv(),
        ensures
            final (self).inv(),
    ;

    /// The visited, frontier and path cells, in that order, for a renderer.
    fn nodes(&self) -> Vec<Node2d>
        requires
            self.inv(),
    ;
}

/// The reason every strategy reports when its frontier runs dry.
pub fn unreachable_msg() -> (r: String)
    ensures
        r@ == "goal unreachable"@,
{
    "goal unreachable".to_string()
}

/// `path` is the complete backward walk of `m` from `goal`: it starts at
/// `goal`, each entry's predecessor is the next entry, and it stops exactly
/// where no predecessor is recorded.
pub open spec fn is_walk(m: Map<Position, Position>, goal: Position, path: Seq<Position>) -> bool {
    &&& path.len() >= 1
    &&& path[0] == goal
    &&& forall|i: int|
        0 <= i < path.len() - 1 ==> m.dom().contains(#[trigger] path[i]) && m[path[i]] == path[i
            + 1]
    &&& !m.dom().contains(path.last())
}

/// The complete backward walk of `m` from `goal`, as a function.
pub open spec fn walk_of(m: Map<Position, Position>, goal: Position) -> Seq<Position> {
    choose|path: Seq<Position>| is_walk(m, goal, path)
}

/// Two complete walks from the same goal agree entrywise.
proof fn lemma_walk_prefix(
    m: Map<Position, Position>,
    goal: Position,
    s1: Seq<Position>,
    s2: Seq<Position>,
    i: int,
)
    requires
        is_walk(m, goal, s1),
        is_walk(m, goal, s2),
        0 <= i < s1.len(),
        i < s2.len(),
    ensures
        s1[i] == s2[i],
    decreases i,
{
    if i > 0 {
        lemma_walk_prefix(m, goal, s1, s2, i - 1);
    }
}

/// A predecessor map determines its complete walk uniquely.
pub proof fn lemma_walk_unique(
    m: Map<Position, Position>,
    goal: Position,
    s1: Seq<Position>,
    s2: Seq<Position>,
)
    requires
        is_walk(m, goal, s1),
        is_walk(m, goal, s2),
    ensures
        s1 == s2,
{
    if s1.len() < s2.len() {
        lemma_walk_prefix(m, goal, s1, s2, s1.len() - 1);
        assert(m.dom().contains(s2[s1.len() - 1]));
        assert(false);
    } else if s2.len() < s1.len() {
        lemma_walk_prefix(m, goal, s1, s2, s2.len() - 1);
        assert(m.dom().contains(s1[s2.len() - 1]));
        assert(false);
    } else {
        assert forall|i: int| 0 <= i < s1.len() implies s1[i] == s2[i] by {
            lemma_walk_prefix(m, goal, s1, s2, i);
        }
        assert(s1 =~= s2);
    }
}

/// `rank` drops along every predecessor edge of `m`.
pub open spec fn rank_ok(m: Map<Position, Position>, rank: spec_fn(Position) -> nat) -> bool {
    forall|p: Position| #[trigger] m.dom().contains(p) ==> rank(m[p]) < rank(p)
}

/// The map has no predecessor cycles: some measure drops along every edge.
pub open spec fn acyclic(m: Map<Position, Position>) -> bool {
    exists|rank: spec_fn(Position) -> nat| rank_ok(m, rank)
}

/// Under a ranked (acyclic) predecessor map, every position has a
/// complete backward walk.
pub proof fn lemma_walk_exists(
    m: Map<Position, Position>,
    goal: Position,
    rank: spec_fn(Position) -> nat,
)
    requires
        rank_ok(m, rank),
    ensures
        exists|s: Seq<Position>| is_walk(m, goal, s),
    decreases (if m.dom().contains(goal) {
        rank(goal) + 1
    } else {
        0
    }),
{
    if m.dom().contains(goal) {
        lemma_walk_exists(m, m[goal], rank);
        let s2 = choose|s: Seq<Position>| is_walk(m, m[goal], s);
        let s = seq![goal] + s2;
        assert(is_walk(m, goal, s)) by {
            assert(s[0] == goal);
            assert(s.last() == s2.last());
            assert forall|i: int|
                0 <= i < s.len() - 1 implies m.dom().contains(#[trigger] s[i]) && m[s[i]] == s[i
                + 1] by {
                if i == 0 {
                    assert(s[1] == s2[0]);
                } else {
                    assert(s[i] == s2[i - 1] && s[i + 1] == s2[i]);
                }
            }
        }
    } else {
        let s = seq![goal];
        assert(is_walk(m, goal, s));
    }
}

/// Walk a predecessor map backward from `goal`, collecting positions until
/// one has no predecessor: the reconstructed path, goal first.
pub fn build_path(steps: &PosTable<Position>, goal: Position) -> (r: Vec<Position>)
    requires
        steps.wf(),
        steps.in_dims(goal),
        forall|p: Position| #[trigger]
            steps.map_view().dom().contains(p) ==> steps.in_dims(steps.map_view()[p]),
        acyclic(steps.map_view()),
    ensures
        is_walk(steps.map_view(), goal, r@),
        r@ == walk_of(steps.map_view(), goal),
{
    let ghost m = steps.map_view();
    let ghost rank = choose|rank: spec_fn(Position) -> nat| rank_ok(m, rank);
    let mut path: Vec<Position> = Vec::new();
    let mut last = goal;
    loop
        invariant_except_break
            steps.wf(),
            m == steps.map_view(),
            rank_ok(m, rank),
            forall|p: Position| #[trigger] m.dom().contains(p) ==> steps.in_dims(m[p]),
            steps.in_dims(last),
            if path@.len() == 0 {
                last == goal
            } else {
                path@[0] == goal
            },
            forall|i: int|
                0 <= i < path@.len() ==> m.dom().contains(#[trigger] path@[i]) && m[path@[i]] == (
                if i + 1 < path@.len() {
                    path@[i + 1]
                } else {
                    last
                }),
        ensures
            is_walk(m, goal, path@),
        decreases (if m.dom().contains(last) {
            rank(last) + 1
        } else {
            0
        }),
    {
        let ghost path0 = path@;
        path.push(last);
        match steps.get(last) {
            None => {
                proof {
                    assert(path@[0] == goal);
                    assert(path@.last() == last);
                }
                break ;
            },
            Some(q) => {
                last = q;
            },
        }
    }
    proof {
        assert(is_walk(m, goal, walk_of(m, goal))) by {
            assert(is_walk(m, goal, path@));
        }
        lemma_walk_unique(m, goal, path@, walk_of(m, goal));
    }
    path
}

/// Appending an element inserts it into the sequence's set of elements.
pub proof fn lemma_push_to_set(s: Seq<Position>, x: Position)
    ensures
        s.push(x).to_set() =~= s.to_set().insert(x),
{
    let t = s.push(x);
    assert(t[s.len() as int] == x);
    assert(t.contains(x));
    assert forall|a: Position| t.contains(a) implies s.contains(a) || a == x by {
        let i = choose|i: int| 0 <= i < t.len() && t[i] == a;
        if i < s.len() {
            assert(s[i] == a);
        }
    }
    assert forall|a: Position| s.contains(a) implies t.contains(a) by {
        let i = choose|i: int| 0 <= i < s.len() && s[i] == a;
        assert(t[i] == a);
    }
}

/// An element's index is a real index holding that element.
pub proof fn lemma_index_of_props(s: Seq<Position>, q: Position)
    requires
        s.contains(q),
    ensures
        0 <= s.index_of(q) < s.len(),
        s[s.index_of(q)] == q,
{
}

/// Appending a different element does not move an element's index.
pub proof fn lemma_index_of_push_contained(s: Seq<Position>, x: Position, q: Position)
    requires
        s.no_duplicates(),
        s.contains(q),
        q != x,
    ensures
        s.push(x).index_of(q) == s.index_of(q),
{
    lemma_index_of_props(s, q);
    let t = s.push(x);
    assert(t[s.index_of(q)] == q);
    assert(t.contains(q));
    lemma_index_of_props(t, q);
    let j = t.index_of(q);
    if j < s.len() {
        assert(s[j] == q);
    }
}

/// A fresh element lands at the end, and that is its index.
pub proof fn lemma_index_of_push_new(s: Seq<Position>, x: Position)
    requires
        !s.contains(x),
    ensures
        s.push(x).index_of(x) == s.len(),
{
    let t = s.push(x);
    assert(t[s.len() as int] == x);
    assert(t.contains(x));
    lemma_index_of_props(t, x);
    let j = t.index_of(x);
    if j < s.len() {
        assert(s[j] == x);
    }
}

/// Concatenation holds exactly the elements of its two halves.
pub proof fn lemma_concat_contains(a: Seq<Position>, b: Seq<Position>, x: Position)
    ensures
        (a + b).contains(x) <==> a.contains(x) || b.contains(x),
{
    if (a + b).contains(x) {
        let i = choose|i: int| 0 <= i < (a + b).len() && (a + b)[i] == x;
        if i < a.len() {
            assert(a[i] == x);
        } else {
            assert(b[i - a.len()] == x);
        }
    }
    if a.contains(x) {
        let i = choose|i: int| 0 <= i < a.len() && a[i] == x;
        assert((a + b)[i] == x);
    }
    if b.contains(x) {
        let i = choose|i: int| 0 <= i < b.len() && b[i] == x;
        assert((a + b)[a.len() + i] == x);
    }
}

/// A nonempty sequence's elements are its first plus the rest's.
proof fn lemma_first_to_set(s: Seq<Position>)
    requires
        s.len() > 0,
    ensures
        s.to_set() =~= s.drop_first().to_set().insert(s[0]),
{
    assert forall|x: Position| s.to_set().contains(x) implies s.drop_first().to_set().insert(
        s[0],
    ).contains(x) by {
        let i = choose|i: int| 0 <= i < s.len() && s[i] == x;
        if i > 0 {
            assert(s.drop_first()[i - 1] == x);
        }
    }
    assert forall|x: Position|
        s.drop_first().to_set().insert(s[0]).contains(x) implies s.to_set().contains(x) by {
        if x == s[0] {
            assert(s[0] == x);
        } else {
            let i = choose|i: int| 0 <= i < s.drop_first().len() && s.drop_first()[i] == x;
            assert(s[i + 1] == x);
        }
    }
}

/// Recording predecessors for `ps` extends the map's domain by exactly
/// the positions of `ps`.
pub proof fn lemma_add_preds_dom(m: Map<Position, Position>, ps: Seq<Position>, c: Position)
    ensures
        add_preds(m, ps, c).dom() =~= m.dom() + ps.to_set(),
    decreases ps.len(),
{
    if ps.len() == 0 {
        assert(ps.to_set() =~= Set::<Position>::empty()) by {
            assert(forall|x: Position| !ps.contains(x));
        }
    } else {
        lemma_add_preds_dom(m.insert(ps[0], c), ps.drop_first(), c);
        lemma_first_to_set(ps);
    }
}

/// Every predecessor edge points from a later-discovered position to an
/// earlier-discovered one, `items` being the discovery order.
pub open spec fn steps_ordered(m: Map<Position, Position>, items: Seq<Position>) -> bool {
    forall|p: Position| #[trigger]
        m.dom().contains(p) ==> items.contains(p) && items.contains(m[p]) && items.index_of(m[p])
            < items.index_of(p)
}

/// Discovery order is a rank, so such a map is acyclic.
pub proof fn lemma_steps_ordered_acyclic(m: Map<Position, Position>, items: Seq<Position>)
    requires
        steps_ordered(m, items),
    ensures
        acyclic(m),
{
    let rank = |p: Position|
        if items.contains(p) {
            items.index_of(p) as nat
        } else {
            0nat
        };
    assert forall|p: Position| #[trigger] m.dom().contains(p) implies rank(m[p]) < rank(p) by {
        lemma_index_of_props(items, p);
        lemma_index_of_props(items, m[p]);
    }
    assert(rank_ok(m, rank));
}

/// Every predecessor edge points from a costlier position to a cheaper
/// one, `g` being the recorded path costs.
pub open spec fn steps_g_ordered(m: Map<Position, Position>, g: Map<Position, usize>) -> bool {
    forall|p: Position| #[trigger]
        m.dom().contains(p) ==> g.dom().contains(p) && g.dom().contains(m[p]) && g[m[p]] < g[p]
}

/// Recorded path cost is a rank, so such a map is acyclic.
pub proof fn lemma_steps_g_ordered_acyclic(m: Map<Position, Position>, g: Map<Position, usize>)
    requires
        steps_g_ordered(m, g),
    ensures
        acyclic(m),
{
    let rank = |p: Position|
        if g.dom().contains(p) {
            g[p] as nat
        } else {
            0nat
        };
    assert(rank_ok(m, rank));
}

/// Walk a predecessor map backward from `goal` until a position with no
/// predecessor: the reconstructed path, goal first; callers wanting
/// start-to-goal order reverse it.
pub fn reconstruct_path(goal: Position, steps: &PosTable<Position>) -> (r: Vec<Position>)
    requires
        steps.wf(),
        steps.in_dims(goal),
        forall|p: Position| #[trigger]
            steps.map_view().dom().contains(p) ==> steps.in_dims(steps.map_view()[p]),
        acyclic(steps.map_view()),
    ensures
        is_walk(steps.map_view(), goal, r@),
        r@ == walk_of(steps.map_view(), goal),
{
    build_path(steps, goal)
}

/// The positions of `ns` not yet in `vis`, first occurrences only, in
/// order: exactly what one expansion round appends to the visited set and
/// the frontier.
pub open spec fn expand_new(ns: Seq<Position>, vis: Set<Position>) -> Seq<Position>
    decreases ns.len(),
{
    if ns.len() == 0 {
        Seq::empty()
    } else if vis.contains(ns[0]) {
        expand_new(ns.drop_first(), vis)
    } else {
        seq![ns[0]] + expand_new(ns.drop_first(), vis.insert(ns[0]))
    }
}

/// `m` with every position of `ps` mapped to the discoverer `c`.
pub open spec fn add_preds(
    m: Map<Position, Position>,
    ps: Seq<Position>,
    c: Position,
) -> Map<Position, Position>
    decreases ps.len(),
{
    if ps.len() == 0 {
        m
    } else {
        add_preds(m.insert(ps[0], c), ps.drop_first(), c)
    }
}

} // verus!
