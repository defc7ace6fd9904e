//! The state of a search for a shortest route, and why the search is right.
//!
//! The search keeps a list of open nodes and marks on the cells. What makes
//! it find a shortest route is gathered in [`Search::inv`]: the marks form a
//! tree of ways from the start, every step out of a finished cell has been
//! looked at, and no walk reaches a finished cell in fewer steps than the
//! search did.

use crate::grid::step;
use crate::grid::Cell;
use crate::grid::Direction;
use crate::grid::Grid;
use crate::pathfinding::heuristic;
use crate::pathfinding::manhattan;
use crate::pathfinding::cheapest_of;
use crate::pathfinding::expanded;
use crate::pathfinding::finished;
use crate::pathfinding::initial;
use crate::pathfinding::is_first_at;
use crate::pathfinding::is_first_cheapest;
use crate::pathfinding::place_of;
use crate::pathfinding::relaxed;
use crate::pathfinding::route;
use crate::pathfinding::traced;
use crate::pathfinding::Frontier;
use crate::pathfinding::PathNode;
use crate::pathfinding::STEP_COST;
use vstd::prelude::*;
use vstd::set_lib::*;

verus! {

/// What the search knows about the cells: which wait in the open set, which
/// are finished, in how many steps each was reached and from where.
pub(crate) struct Marks {
    pub open: Set<(int, int)>,
    pub closed: Set<(int, int)>,
    pub steps: Map<(int, int), int>,
    pub from: Map<(int, int), (int, int)>,
}

impl Marks {
    pub(crate) open spec fn seen(self, p: (int, int)) -> bool {
        self.open.contains(p) || self.closed.contains(p)
    }

    /// The marks describe a tree rooted at `s`: every cell seen so far was
    /// reached by one step from a finished cell, one step later than it.
    pub(crate) open spec fn wf(self, grid: Grid, s: (int, int)) -> bool {
        &&& forall|p: (int, int)| #[trigger] self.steps.dom().contains(p)
        &&& forall|p: (int, int)| #[trigger] self.from.dom().contains(p)
        &&& forall|p: (int, int)| #[trigger]
            self.open.contains(p) ==> grid.in_bounds(p) && !self.closed.contains(p)
        &&& forall|p: (int, int)| #[trigger] self.closed.contains(p) ==> grid.in_bounds(p)
        &&& self.seen(s)
        &&& self.steps[s] == 0
        &&& forall|p: (int, int)|
            self.seen(p) && p != s ==> {
                &&& self.closed.contains(#[trigger] self.from[p])
                &&& grid.linked(self.from[p], p)
                &&& self.steps[p] == self.steps[self.from[p]] + 1
            }
        &&& forall|p: (int, int)| self.seen(p) ==> #[trigger] self.steps[p] >= 0
    }

    /// The step from the finished cell `p` towards `d` has been looked at:
    /// where it leads, the cell is finished or waits with a cost no higher
    /// than through `p`.
    pub(crate) open spec fn settled(self, grid: Grid, p: (int, int), d: Direction) -> bool {
        grid.passable(p, d) ==> {
            ||| self.closed.contains(step(p, d))
            ||| (self.open.contains(step(p, d)) && self.steps[step(p, d)] <= self.steps[p] + 1)
        }
    }

    /// Every step from a finished cell is settled, but those from `cur`
    /// towards the directions numbered `upto` and above.
    pub(crate) open spec fn all_settled(self, grid: Grid, cur: (int, int), upto: int) -> bool {
        forall|p: (int, int), d: Direction|
            self.closed.contains(p) && !(p == cur && d.idx() >= upto) ==> #[trigger] self.settled(
                grid,
                p,
                d,
            )
    }

    /// No walk from `s` reaches a finished cell in fewer steps than the
    /// search did.
    pub(crate) open spec fn closed_optimal(self, grid: Grid, s: (int, int)) -> bool {
        forall|w: Seq<(int, int)>|
            #[trigger] grid.is_walk(w) && w[0] == s && self.closed.contains(w.last())
                ==> self.steps[w.last()] <= w.len() - 1
    }
}

impl PathNode {
    /// The node agrees with the marks on its cell and carries its costs.
    pub(crate) open spec fn ok(self, grid: Grid, t: (int, int), m: Marks) -> bool {
        &&& m.open.contains(self.pos())
        &&& self.cell == grid.at(self.pos())
        &&& self.g_cost == STEP_COST * m.steps[self.pos()]
        &&& self.h_cost == manhattan(self.pos(), t)
        &&& self.f_cost == self.g_cost + self.h_cost
    }
}

/// Whether some node of `list` stands at `p`.
pub(crate) open spec fn listed(list: Seq<PathNode>, p: (int, int)) -> bool {
    exists|k: int| 0 <= k < list.len() && #[trigger] list[k].pos() == p
}

/// The open set holds one node for each waiting cell, and no other.
pub(crate) open spec fn list_ok(grid: Grid, t: (int, int), m: Marks, list: Seq<PathNode>) -> bool {
    &&& forall|k: int| 0 <= k < list.len() ==> (#[trigger] list[k]).ok(grid, t, m)
    &&& forall|a: int, b: int|
        0 <= a < b < list.len() ==> (#[trigger] list[a]).pos() != (#[trigger] list[b]).pos()
    &&& forall|p: (int, int)| #[trigger] m.open.contains(p) ==> listed(list, p)
}

/// A step changes the Manhattan distance to any cell by at most one.
pub(crate) proof fn lemma_heuristic_step(grid: Grid, a: (int, int), b: (int, int), t: (int, int))
    requires
        grid.linked(a, b),
    ensures
        manhattan(a, t) <= manhattan(b, t) + 1,
{
}

/// Along a walk the Manhattan distance to `t` falls by at most one a step.
pub(crate) proof fn lemma_heuristic_along(
    grid: Grid,
    w: Seq<(int, int)>,
    a: int,
    b: int,
    t: (int, int),
)
    requires
        grid.is_walk(w),
        0 <= a <= b < w.len(),
    ensures
        manhattan(w[a], t) <= manhattan(w[b], t) + (b - a),
    decreases b - a,
{
    if a < b {
        lemma_heuristic_along(grid, w, a + 1, b, t);
        assert(grid.linked(w[a], w[a + 1]));
        lemma_heuristic_step(grid, w[a], w[a + 1], t);
    }
}

/// On a walk from `s`, either the cell numbered `n` is finished and was
/// reached in at most `n` steps, or some cell up to it waits in the open
/// set, reached in no more steps than the walk took to it.
pub(crate) proof fn lemma_frontier(grid: Grid, s: (int, int), m: Marks, w: Seq<(int, int)>, n: int)
    requires
        grid.wf(),
        m.wf(grid, s),
        m.all_settled(grid, s, 4),
        m.closed_optimal(grid, s),
        grid.is_walk(w),
        w[0] == s,
        0 <= n < w.len(),
    ensures
        (m.closed.contains(w[n]) && m.steps[w[n]] <= n) || exists|k: int|
            0 <= k <= n && m.open.contains(#[trigger] w[k]) && m.steps[w[k]] <= k,
    decreases n,
{
    if n == 0 {
        if !m.closed.contains(s) {
            assert(m.open.contains(w[0]));
        }
    } else {
        lemma_frontier(grid, s, m, w, n - 1);
        if m.closed.contains(w[n - 1]) && m.steps[w[n - 1]] <= n - 1 {
            let p = w[n - 1];
            assert(grid.linked(w[n - 1], w[n - 1 + 1]));
            let d = if grid.passable(p, Direction::North) && w[n] == step(p, Direction::North) {
                Direction::North
            } else if grid.passable(p, Direction::East) && w[n] == step(p, Direction::East) {
                Direction::East
            } else if grid.passable(p, Direction::South) && w[n] == step(p, Direction::South) {
                Direction::South
            } else {
                Direction::West
            };
            assert(grid.passable(p, d) && w[n] == step(p, d));
            assert(m.settled(grid, p, d));
            if m.closed.contains(w[n]) {
                grid.lemma_walk_prefix(w, n);
                let v = w.subrange(0, n + 1);
                assert(grid.is_walk(v));
                assert(v.last() == w[n]);
            } else {
                assert(m.open.contains(w[n]) && m.steps[w[n]] <= n);
            }
        } else {
            let k = choose|k: int|
                0 <= k <= n - 1 && m.open.contains(#[trigger] w[k]) && m.steps[w[k]] <= k;
            assert(0 <= k <= n && m.open.contains(w[k]) && m.steps[w[k]] <= k);
        }
    }
}

/// The open node of least total cost was reached in as few steps as any
/// walk from `s` takes to it.
pub(crate) proof fn lemma_pick_optimal(
    grid: Grid,
    s: (int, int),
    t: (int, int),
    m: Marks,
    list: Seq<PathNode>,
    u: int,
    w: Seq<(int, int)>,
)
    requires
        grid.wf(),
        m.wf(grid, s),
        m.all_settled(grid, s, 4),
        m.closed_optimal(grid, s),
        list_ok(grid, t, m, list),
        0 <= u < list.len(),
        forall|k: int| 0 <= k < list.len() ==> list[u].f_cost <= (#[trigger] list[k]).f_cost,
        grid.joins(w, s, list[u].pos()),
    ensures
        m.steps[list[u].pos()] <= w.len() - 1,
{
    let n = w.len() - 1;
    let up = list[u].pos();
    assert(list[u].ok(grid, t, m));
    lemma_frontier(grid, s, m, w, n);
    assert(!m.closed.contains(up));
    let k = choose|k: int| 0 <= k <= n && m.open.contains(#[trigger] w[k]) && m.steps[w[k]] <= k;
    let y = w[k];
    assert(listed(list, y));
    let q = choose|q: int| 0 <= q < list.len() && #[trigger] list[q].pos() == y;
    assert(list[q].ok(grid, t, m));
    assert(list[u].f_cost <= list[q].f_cost);
    lemma_heuristic_along(grid, w, k, n, t);
}

impl Marks {
    /// The marks after the waiting cell `cur` is finished.
    pub(crate) open spec fn closing(self, cur: (int, int)) -> Marks {
        Marks { open: self.open.remove(cur), closed: self.closed.insert(cur), ..self }
    }

    /// The marks after `v` is reached by one step from `cur`.
    pub(crate) open spec fn reaching(self, cur: (int, int), v: (int, int)) -> Marks {
        Marks {
            open: self.open.insert(v),
            closed: self.closed,
            steps: self.steps.insert(v, self.steps[cur] + 1),
            from: self.from.insert(v, cur),
        }
    }
}

/// Finishing the open node of least total cost keeps the marks and the open
/// set in order; the steps from the finished cell remain to be looked at.
pub(crate) proof fn lemma_close(
    grid: Grid,
    s: (int, int),
    t: (int, int),
    m: Marks,
    list: Seq<PathNode>,
    u: int,
)
    requires
        grid.wf(),
        m.wf(grid, s),
        m.all_settled(grid, s, 4),
        m.closed_optimal(grid, s),
        !m.closed.contains(t),
        list_ok(grid, t, m, list),
        0 <= u < list.len(),
        forall|k: int| 0 <= k < list.len() ==> list[u].f_cost <= (#[trigger] list[k]).f_cost,
        list[u].pos() != t,
    ensures
        m.closing(list[u].pos()).wf(grid, s),
        m.closing(list[u].pos()).all_settled(grid, list[u].pos(), 0),
        m.closing(list[u].pos()).closed_optimal(grid, s),
        !m.closing(list[u].pos()).closed.contains(t),
        list_ok(grid, t, m.closing(list[u].pos()), list.remove(u)),
{
    let cur = list[u].pos();
    let m2 = m.closing(cur);
    let list2 = list.remove(u);
    assert(list[u].ok(grid, t, m));
    assert forall|p: (int, int)| m2.seen(p) && p != s implies {
        &&& m2.closed.contains(#[trigger] m2.from[p])
        &&& grid.linked(m2.from[p], p)
        &&& m2.steps[p] == m2.steps[m2.from[p]] + 1
    } by {
        assert(m.seen(p));
        assert(m.closed.contains(m.from[p]));
    }
    assert forall|p: (int, int)| m2.seen(p) implies #[trigger] m2.steps[p] >= 0 by {
        assert(m.seen(p));
    }
    assert(m2.seen(s)) by {
        assert(m.seen(s));
    }
    assert forall|p: (int, int), d: Direction|
        m2.closed.contains(p) && !(p == cur && d.idx() >= 0) implies #[trigger] m2.settled(
        grid,
        p,
        d,
    ) by {
        assert(m.settled(grid, p, d));
    }
    assert forall|w: Seq<(int, int)>|
        #[trigger] grid.is_walk(w) && w[0] == s && m2.closed.contains(w.last())
        implies m2.steps[w.last()] <= w.len() - 1 by {
        if w.last() == cur {
            lemma_pick_optimal(grid, s, t, m, list, u, w);
        }
    }
    assert forall|k: int| 0 <= k < list2.len() implies (#[trigger] list2[k]).ok(grid, t, m2) by {
        let k0 = if k < u {
            k
        } else {
            k + 1
        };
        assert(list2[k] == list[k0]);
        assert(list[k0].ok(grid, t, m));
        if k0 < u {
            assert(list[k0].pos() != list[u].pos());
        } else {
            assert(list[u].pos() != list[k0].pos());
        }
    }
    assert forall|a: int, b: int| 0 <= a < b < list2.len() implies (#[trigger] list2[a]).pos() != (
    #[trigger] list2[b]).pos() by {
        let a0 = if a < u {
            a
        } else {
            a + 1
        };
        let b0 = if b < u {
            b
        } else {
            b + 1
        };
        assert(list2[a] == list[a0]);
        assert(list2[b] == list[b0]);
        assert(list[a0].pos() != list[b0].pos());
    }
    assert forall|p: (int, int)| #[trigger] m2.open.contains(p) implies listed(list2, p) by {
        assert(m.open.contains(p));
        assert(listed(list, p));
        let k0 = choose|k: int| 0 <= k < list.len() && #[trigger] list[k].pos() == p;
        let k = if k0 < u {
            k0
        } else {
            k0 - 1
        };
        assert(list2[k] == list[k0]);
        assert(list2[k].pos() == p);
    }
}

/// A step from `cur` that is settled as it stands needs no change.
pub(crate) proof fn lemma_relax_skip(grid: Grid, m: Marks, cur: (int, int), d: Direction)
    requires
        m.all_settled(grid, cur, d.idx()),
        m.settled(grid, cur, d),
    ensures
        m.all_settled(grid, cur, d.idx() + 1),
{
    assert forall|p: (int, int), e: Direction|
        m.closed.contains(p) && !(p == cur && e.idx() >= d.idx() + 1) implies #[trigger] m.settled(
        grid,
        p,
        e,
    ) by {
        if p == cur && e.idx() == d.idx() {
            assert(e == d);
        }
    }
}

/// Reaching `v` from the finished cell `cur`, for the first time or in fewer
/// steps than before, keeps the marks in order and settles that step.
pub(crate) proof fn lemma_reach(grid: Grid, s: (int, int), m: Marks, cur: (int, int), d: Direction)
    requires
        grid.wf(),
        m.wf(grid, s),
        m.all_settled(grid, cur, d.idx()),
        m.closed_optimal(grid, s),
        m.closed.contains(cur),
        grid.passable(cur, d),
        !m.closed.contains(step(cur, d)),
        m.open.contains(step(cur, d)) ==> m.steps[cur] + 1 < m.steps[step(cur, d)],
    ensures
        m.reaching(cur, step(cur, d)).wf(grid, s),
        m.reaching(cur, step(cur, d)).all_settled(grid, cur, d.idx() + 1),
        m.reaching(cur, step(cur, d)).closed_optimal(grid, s),
{
    let v = step(cur, d);
    let m2 = m.reaching(cur, v);
    assert(m.seen(cur));
    assert(m.steps[cur] >= 0);
    assert(v != s) by {
        if v == s {
            assert(m.seen(s));
        }
    }
    assert(grid.linked(cur, v));
    assert forall|p: (int, int)| m2.seen(p) && p != s implies {
        &&& m2.closed.contains(#[trigger] m2.from[p])
        &&& grid.linked(m2.from[p], p)
        &&& m2.steps[p] == m2.steps[m2.from[p]] + 1
    } by {
        if p != v {
            assert(m.seen(p));
            assert(m.closed.contains(m.from[p]));
        }
    }
    assert forall|p: (int, int)| m2.seen(p) implies #[trigger] m2.steps[p] >= 0 by {
        if p != v {
            assert(m.seen(p));
        }
    }
    assert(m2.seen(s)) by {
        assert(m.seen(s));
    }
    assert forall|p: (int, int), e: Direction|
        m2.closed.contains(p) && !(p == cur && e.idx() >= d.idx() + 1)
        implies #[trigger] m2.settled(grid, p, e) by {
        if p == cur && e.idx() == d.idx() {
            assert(e == d);
        } else {
            assert(m.settled(grid, p, e));
        }
    }
    assert forall|w: Seq<(int, int)>|
        #[trigger] grid.is_walk(w) && w[0] == s && m2.closed.contains(w.last())
        implies m2.steps[w.last()] <= w.len() - 1 by {
        assert(w.last() != v);
    }
}

/// The open set after the node at `q` takes the cost of a cheaper way to
/// its cell.
pub(crate) proof fn lemma_list_update(
    grid: Grid,
    t: (int, int),
    m: Marks,
    list: Seq<PathNode>,
    cur: (int, int),
    q: int,
    node: PathNode,
)
    requires
        list_ok(grid, t, m, list),
        0 <= q < list.len(),
        node.ok(grid, t, m.reaching(cur, list[q].pos())),
        node.pos() == list[q].pos(),
    ensures
        list_ok(grid, t, m.reaching(cur, list[q].pos()), list.update(q, node)),
{
    let v = list[q].pos();
    let m2 = m.reaching(cur, v);
    let list2 = list.update(q, node);
    assert forall|k: int| 0 <= k < list2.len() implies (#[trigger] list2[k]).ok(grid, t, m2) by {
        if k != q {
            assert(list[k].ok(grid, t, m));
            if k < q {
                assert(list[k].pos() != list[q].pos());
            } else {
                assert(list[q].pos() != list[k].pos());
            }
        }
    }
    assert forall|a: int, b: int| 0 <= a < b < list2.len() implies (#[trigger] list2[a]).pos() != (
    #[trigger] list2[b]).pos() by {
        assert(list[a].pos() != list[b].pos());
    }
    assert forall|p: (int, int)| #[trigger] m2.open.contains(p) implies listed(list2, p) by {
        if p == v {
            assert(list2[q].pos() == p);
        } else {
            assert(m.open.contains(p));
            let k = choose|k: int| 0 <= k < list.len() && #[trigger] list[k].pos() == p;
            assert(list2[k].pos() == p);
        }
    }
}

/// The open set after a node for a cell reached for the first time joins it.
pub(crate) proof fn lemma_list_push(
    grid: Grid,
    t: (int, int),
    m: Marks,
    list: Seq<PathNode>,
    cur: (int, int),
    node: PathNode,
)
    requires
        list_ok(grid, t, m, list),
        !listed(list, node.pos()),
        node.ok(grid, t, m.reaching(cur, node.pos())),
    ensures
        list_ok(grid, t, m.reaching(cur, node.pos()), list.push(node)),
{
    let v = node.pos();
    let m2 = m.reaching(cur, v);
    let list2 = list.push(node);
    assert forall|k: int| 0 <= k < list2.len() implies (#[trigger] list2[k]).ok(grid, t, m2) by {
        if k < list.len() {
            assert(list[k].ok(grid, t, m));
            assert(list[k].pos() != v);
        }
    }
    assert forall|a: int, b: int| 0 <= a < b < list2.len() implies (#[trigger] list2[a]).pos() != (
    #[trigger] list2[b]).pos() by {
        if b < list.len() {
            assert(list[a].pos() != list[b].pos());
        } else {
            assert(list[a].pos() != v);
        }
    }
    assert forall|p: (int, int)| #[trigger] m2.open.contains(p) implies listed(list2, p) by {
        if p == v {
            assert(list2[list.len() as int].pos() == p);
        } else {
            assert(m.open.contains(p));
            let k = choose|k: int| 0 <= k < list.len() && #[trigger] list[k].pos() == p;
            assert(list2[k].pos() == p);
        }
    }
}

/// The coordinates held in a pair of machine integers.
pub(crate) open spec fn as_pos(c: (usize, usize)) -> (int, int) {
    (c.0 as int, c.1 as int)
}

/// Position in `list` of the first node of least total cost.
pub(crate) fn cheapest(list: &Vec<PathNode>) -> (u: usize)
    requires
        list.len() > 0,
    ensures
        is_first_cheapest(list@, u as int),
        u == cheapest_of(list@),
{
    let mut lowest: usize = 0;
    let mut k: usize = 1;
    while k < list.len()
        invariant
            lowest < k <= list.len(),
            forall|x: int| 0 <= x < k ==> list[lowest as int].f_cost <= (#[trigger] list[x]).f_cost,
            forall|x: int|
                0 <= x < lowest ==> list[lowest as int].f_cost < (#[trigger] list[x]).f_cost,
        decreases list.len() - k,
    {
        if list[k].f_cost < list[lowest].f_cost {
            lowest = k;
        }
        k += 1;
    }
    proof {
        lemma_first_cheapest_is_one(list@, lowest as int, cheapest_of(list@));
    }
    lowest
}

/// Only one node is the first among those of least total cost.
pub(crate) proof fn lemma_first_cheapest_is_one(list: Seq<PathNode>, u: int, v: int)
    requires
        is_first_cheapest(list, u),
        is_first_cheapest(list, v),
    ensures
        u == v,
{
    if u < v {
        assert(list[v].f_cost < list[u].f_cost);
        assert(list[u].f_cost <= list[v].f_cost);
    } else if v < u {
        assert(list[u].f_cost < list[v].f_cost);
        assert(list[v].f_cost <= list[u].f_cost);
    }
}

/// Position in `list` of the node that stands at column `i`, row `j`.
pub(crate) fn position_in(list: &Vec<PathNode>, i: usize, j: usize) -> (found: Option<usize>)
    ensures
        found matches Some(q) ==> is_first_at(list@, (i as int, j as int), q as int)
            && place_of(list@, (i as int, j as int)) == Some(q as int),
        found is None ==> !listed(list@, (i as int, j as int)) && place_of(
            list@,
            (i as int, j as int),
        ) is None,
{
    let ghost p = (i as int, j as int);
    let mut k: usize = 0;
    while k < list.len()
        invariant
            k <= list.len(),
            p == (i as int, j as int),
            forall|x: int| 0 <= x < k ==> (#[trigger] list[x]).pos() != p,
        decreases list.len() - k,
    {
        if list[k].cell.i == i && list[k].cell.j == j {
            proof {
                assert(is_first_at(list@, p, k as int));
                let q = choose|q: int| is_first_at(list@, p, q);
                if q < k {
                    assert(list[q].pos() != p);
                } else if k < q {
                    assert(list[k as int].pos() != p);
                }
            }
            return Some(k);
        }
        k += 1;
    }
    proof {
        assert forall|q: int| !is_first_at(list@, p, q) by {
            if is_first_at(list@, p, q) {
                assert(list[q].pos() != p);
            }
        }
    }
    None
}

/// The state of a search from `s` to `t`.
pub(crate) struct Search {
    pub open_set: Vec<PathNode>,
    pub closed_set: Vec<bool>,
    pub came_from: Vec<(usize, usize)>,
    pub marks: Ghost<Marks>,
    pub done: Ghost<Set<int>>,
}

impl Search {
    /// What holds of a search while the steps from `cur` towards the
    /// directions numbered `upto` and above are still to be looked at.
    pub(crate) open spec fn inv(
        self,
        grid: Grid,
        s: (int, int),
        t: (int, int),
        cur: (int, int),
        upto: int,
    ) -> bool {
        let m = self.marks@;
        &&& grid.wf()
        &&& grid.in_bounds(s)
        &&& grid.in_bounds(t)
        &&& s != t
        &&& self.closed_set.len() == grid.cells.len()
        &&& self.came_from.len() == grid.cells.len()
        &&& m.wf(grid, s)
        &&& m.all_settled(grid, cur, upto)
        &&& m.closed_optimal(grid, s)
        &&& !m.closed.contains(t)
        &&& list_ok(grid, t, m, self.open_set@)
        &&& self.arrays_ok(grid, s)
        &&& self.counted(grid)
    }

    /// The search as the open set, the finished cells and the record of
    /// where each cell was reached from.
    pub(crate) open spec fn frontier(self) -> Frontier {
        Frontier { open: self.open_set@, closed: self.marks@.closed, from: self.marks@.from }
    }

    /// The vectors agree with the marks.
    pub(crate) open spec fn arrays_ok(self, grid: Grid, s: (int, int)) -> bool {
        let m = self.marks@;
        &&& forall|p: (int, int)|
            grid.in_bounds(p) ==> self.closed_set@[#[trigger] grid.spec_index(p)]
                == m.closed.contains(p)
        &&& forall|p: (int, int)|
            m.seen(p) && p != s ==> as_pos(self.came_from@[#[trigger] grid.spec_index(p)])
                == m.from[p]
    }

    /// `done` holds the storage positions of the finished cells, and no cell
    /// was reached in more steps than there are finished cells.
    pub(crate) open spec fn counted(self, grid: Grid) -> bool {
        let m = self.marks@;
        &&& self.done@.finite()
        &&& self.done@.len() <= grid.cells.len()
        &&& forall|k: int| #[trigger] self.done@.contains(k) ==> 0 <= k < grid.cells.len()
        &&& forall|p: (int, int)|
            grid.in_bounds(p) ==> self.done@.contains(#[trigger] grid.spec_index(p))
                == m.closed.contains(p)
        &&& forall|p: (int, int)| m.seen(p) ==> #[trigger] m.steps[p] <= self.done@.len()
    }
}

impl Search {
    /// Looks at the step from the finished node `current` towards `d`: a
    /// neighbour reached for the first time joins the open set, and one that
    /// waits there at a higher cost takes the lower one.
    pub(crate) fn relax(
        &mut self,
        grid: &Grid,
        goal_cell: &Cell,
        current: &PathNode,
        d: Direction,
        Ghost(s): Ghost<(int, int)>,
    )
        requires
            old(self).inv(*grid, s, goal_cell.pos(), current.pos(), d.idx()),
            old(self).marks@.closed.contains(current.pos()),
            current.cell == grid.at(current.pos()),
            current.g_cost == STEP_COST * old(self).marks@.steps[current.pos()],
            old(self).marks@.steps[current.pos()] < old(self).done@.len(),
        ensures
            final(self).inv(*grid, s, goal_cell.pos(), current.pos(), d.idx() + 1),
            final(self).done@ == old(self).done@,
            final(self).marks@.closed == old(self).marks@.closed,
            final(self).marks@.steps[current.pos()] == old(self).marks@.steps[current.pos()],
            final(self).frontier() == relaxed(
                *grid,
                goal_cell.pos(),
                old(self).frontier(),
                *current,
                d,
            ),
    {
        let ghost t = goal_cell.pos();
        let ghost cur = current.pos();
        let ghost m = self.marks@;
        let ghost v = step(cur, d);
        if !grid.can_step(current.cell.i, current.cell.j, d) {
            proof {
                lemma_relax_skip(*grid, m, cur, d);
            }
            return ;
        }
        let (ni, nj) = grid.neighbor(current.cell.i, current.cell.j, d).unwrap();
        let nidx = grid.index(ni, nj);
        assert((ni as int, nj as int) == v);
        assert(nidx == grid.spec_index(v));
        if self.closed_set[nidx] {
            proof {
                lemma_relax_skip(*grid, m, cur, d);
            }
            return ;
        }
        let tentative: u128 = current.g_cost + STEP_COST;
        let found = position_in(&self.open_set, ni, nj);
        match found {
            Some(q) => {
                let waiting = self.open_set[q];
                assert(waiting.ok(*grid, t, m));
                if waiting.g_cost <= tentative {
                    proof {
                        lemma_relax_skip(*grid, m, cur, d);
                    }
                    return ;
                }
                let node = PathNode {
                    cell: waiting.cell,
                    g_cost: tentative,
                    h_cost: waiting.h_cost,
                    f_cost: tentative + waiting.h_cost,
                };
                self.open_set[q] = node;
                proof {
                    lemma_reach(*grid, s, m, cur, d);
                    lemma_list_update(*grid, t, m, old(self).open_set@, cur, q as int, node);
                }
            },
            None => {
                let cell = grid.cells[nidx];
                let h = heuristic(&cell, goal_cell);
                let node = PathNode { cell, g_cost: tentative, h_cost: h, f_cost: tentative + h };
                assert(grid.in_bounds(v));
                assert(cell == grid.cells@[nidx as int]);
                assert(cell == grid.at(v));
                assert(grid.at(v).pos() == v);
                assert(!m.open.contains(v));
                self.open_set.push(node);
                proof {
                    lemma_reach(*grid, s, m, cur, d);
                    lemma_list_push(*grid, t, m, old(self).open_set@, cur, node);
                }
            },
        }
        self.came_from[nidx] = (current.cell.i, current.cell.j);
        self.marks = Ghost(m.reaching(cur, v));
        proof {
            let m2 = self.marks@;
            assert forall|p: (int, int)| m2.seen(p) && p != s implies as_pos(
                self.came_from@[#[trigger] grid.spec_index(p)],
            ) == m2.from[p] by {
                if p != v {
                    assert(m.seen(p));
                    grid.lemma_index_in_range(p);
                    if grid.spec_index(p) == grid.spec_index(v) {
                        grid.lemma_index_injective(p, v);
                    }
                }
            }
            assert forall|p: (int, int)| m2.seen(p) implies #[trigger] m2.steps[p]
                <= self.done@.len() by {
                if p != v {
                    assert(m.seen(p));
                }
            }
        }
    }
}

impl Search {
    /// The cells from the goal back to the one that follows the start, read
    /// off the record of where each cell was reached from. The goal is the
    /// cell of the open node at `u`.
    pub(crate) fn trace(&self, grid: &Grid, start_cell: &Cell, u: usize) -> (path: Vec<Cell>)
        requires
            self.inv(
                *grid,
                start_cell.pos(),
                self.open_set[u as int].pos(),
                start_cell.pos(),
                4,
            ),
            u < self.open_set.len(),
        ensures
            grid.joins(
                route(start_cell.pos(), path@),
                start_cell.pos(),
                self.open_set[u as int].pos(),
            ),
            forall|k: int| 0 <= k < path.len() ==> (#[trigger] path[k]) == grid.at(path[k].pos()),
            path.len() == self.marks@.steps[self.open_set[u as int].pos()],
            path@ == traced(
                *grid,
                self.marks@.from,
                start_cell.pos(),
                self.open_set[u as int].pos(),
                grid.cells.len() as nat,
            ),
    {
        let goal = &self.open_set[u];
        let ghost t = goal.pos();
        assert(goal.ok(*grid, t, self.marks@));
        let ghost s = start_cell.pos();
        let ghost m = self.marks@;
        let mut path: Vec<Cell> = Vec::new();
        let mut ci: usize = goal.cell.i;
        let mut cj: usize = goal.cell.j;
        while !(ci == start_cell.i && cj == start_cell.j)
            invariant
                self.inv(*grid, s, t, s, 4),
                s == start_cell.pos(),
                m == self.marks@,
                m.seen((ci as int, cj as int)),
                m.steps[(ci as int, cj as int)] + path.len() == m.steps[t],
                path.len() == 0 ==> (ci as int, cj as int) == t,
                path.len() > 0 ==> path[0].pos() == t && grid.linked(
                    (ci as int, cj as int),
                    path[path.len() - 1].pos(),
                ),
                forall|k: int|
                    0 < k < path.len() ==> grid.linked(
                        (#[trigger] path[k]).pos(),
                        path[k - 1].pos(),
                    ),
                forall|k: int|
                    0 <= k < path.len() ==> (#[trigger] path[k]) == grid.at(path[k].pos()),
                m.steps[t] <= grid.cells.len(),
                path@ + traced(
                    *grid,
                    m.from,
                    s,
                    (ci as int, cj as int),
                    (grid.cells.len() - path.len()) as nat,
                ) == traced(*grid, m.from, s, t, grid.cells.len() as nat),
            decreases m.steps[(ci as int, cj as int)],
        {
            let ghost c = (ci as int, cj as int);
            let ghost before = path@;
            let ghost fuel = (grid.cells.len() - path.len()) as nat;
            let k = grid.index(ci, cj);
            let cell = grid.cells[k];
            assert(cell == grid.at(c) && cell.pos() == c);
            assert(m.closed.contains(m.from[c]));
            let parent = self.came_from[k];
            assert(as_pos(parent) == m.from[c]);
            assert(m.steps[m.from[c]] >= 0) by {
                assert(m.seen(m.from[c]));
            }
            proof {
                let rest = traced(*grid, m.from, s, m.from[c], (fuel - 1) as nat);
                assert(traced(*grid, m.from, s, c, fuel) == seq![cell] + rest);
                assert(before.push(cell) + rest =~= before + (seq![cell] + rest));
            }
            path.push(cell);
            ci = parent.0;
            cj = parent.1;
        }
        proof {
            let w = route(s, path@);
            let n = path.len() as int;
            assert(n > 0);
            assert(path@ + Seq::<Cell>::empty() =~= path@);
            assert forall|k: int| 0 <= k < w.len() - 1 implies grid.linked(
                #[trigger] w[k],
                w[k + 1],
            ) by {
                if k > 0 {
                    assert(grid.linked(path[n - k].pos(), path[n - k - 1].pos()));
                }
            }
        }
        path
    }
}

/// The search after the steps from `cur` towards the directions numbered
/// below `upto` are looked at.
pub(crate) open spec fn expanded_upto(
    grid: Grid,
    t: (int, int),
    f: Frontier,
    cur: PathNode,
    upto: int,
) -> Frontier {
    let north = relaxed(grid, t, f, cur, Direction::North);
    let east = relaxed(grid, t, north, cur, Direction::East);
    let south = relaxed(grid, t, east, cur, Direction::South);
    if upto <= 0 {
        f
    } else if upto == 1 {
        north
    } else if upto == 2 {
        east
    } else if upto == 3 {
        south
    } else {
        relaxed(grid, t, south, cur, Direction::West)
    }
}

impl Search {
    /// A search that has seen nothing but the cell it starts from.
    pub(crate) fn begin(grid: &Grid, start_cell: &Cell, goal_cell: &Cell) -> (search: Search)
        requires
            grid.wf(),
            grid.in_bounds(start_cell.pos()),
            grid.in_bounds(goal_cell.pos()),
            start_cell.pos() != goal_cell.pos(),
        ensures
            search.inv(*grid, start_cell.pos(), goal_cell.pos(), start_cell.pos(), 4),
            search.frontier() == initial(*grid, start_cell.pos(), goal_cell.pos()),
            search.done@.len() == 0,
    {
        let ghost s = start_cell.pos();
        let ghost t = goal_cell.pos();
        let n = grid.cells.len();
        let si = grid.index(start_cell.i, start_cell.j);
        let origin = grid.cells[si];
        let h = heuristic(&origin, goal_cell);
        let first = PathNode { cell: origin, g_cost: 0, h_cost: h, f_cost: h };
        let mut open_set: Vec<PathNode> = Vec::new();
        open_set.push(first);
        let ghost m0 = Marks {
            open: set![s],
            closed: Set::empty(),
            steps: Map::total(|p: (int, int)| 0int),
            from: Map::total(|p: (int, int)| s),
        };
        let search = Search {
            open_set,
            closed_set: vec![false; n],
            came_from: vec![(0usize, 0usize); n],
            marks: Ghost(m0),
            done: Ghost(Set::empty()),
        };
        proof {
            assert(origin == grid.at(s));
            assert(grid.at(s).pos() == s);
            assert(first.ok(*grid, t, m0));
            assert(search.open_set@[0].pos() == s);
            assert forall|p: (int, int)| #[trigger] m0.open.contains(p) implies listed(
                search.open_set@,
                p,
            ) by {
                assert(search.open_set@[0].pos() == p);
            }
            assert forall|p: (int, int)|
                grid.in_bounds(p) implies search.closed_set@[#[trigger] grid.spec_index(p)]
                == m0.closed.contains(p) by {
                grid.lemma_index_in_range(p);
            }
        }
        search
    }

    /// Takes the open node at `u`, one of least total cost, off the open
    /// set and marks its cell as finished.
    pub(crate) fn close(
        &mut self,
        grid: &Grid,
        goal_cell: &Cell,
        u: usize,
        Ghost(s): Ghost<(int, int)>,
    ) -> (current: PathNode)
        requires
            old(self).inv(*grid, s, goal_cell.pos(), s, 4),
            u < old(self).open_set.len(),
            forall|k: int|
                0 <= k < old(self).open_set.len() ==> old(self).open_set[u as int].f_cost <= (
                #[trigger] old(self).open_set[k]).f_cost,
            old(self).open_set[u as int].pos() != goal_cell.pos(),
        ensures
            current == old(self).open_set[u as int],
            final(self).inv(*grid, s, goal_cell.pos(), current.pos(), 0),
            final(self).marks@.closed.contains(current.pos()),
            current.cell == grid.at(current.pos()),
            current.g_cost == STEP_COST * final(self).marks@.steps[current.pos()],
            final(self).marks@.steps[current.pos()] < final(self).done@.len(),
            final(self).done@.len() == old(self).done@.len() + 1,
            final(self).frontier() == finished(old(self).frontier(), u as int),
    {
        let ghost t = goal_cell.pos();
        let ghost m = self.marks@;
        let ghost list = self.open_set@;
        let ghost done = self.done@;
        let n = grid.cells.len();
        let current = self.open_set.remove(u);
        let ghost cur = current.pos();
        assert(current.ok(*grid, t, m));
        let ci = grid.index(current.cell.i, current.cell.j);
        self.closed_set[ci] = true;
        self.marks = Ghost(m.closing(cur));
        self.done = Ghost(done.insert(ci as int));
        proof {
            lemma_close(*grid, s, t, m, list, u as int);
            let m2 = self.marks@;
            assert(m.seen(cur));
            assert(!done.contains(ci as int));
            assert forall|p: (int, int)|
                grid.in_bounds(p) implies self.closed_set@[#[trigger] grid.spec_index(p)]
                == m2.closed.contains(p) by {
                grid.lemma_index_in_range(p);
                if p != cur && grid.spec_index(p) == grid.spec_index(cur) {
                    grid.lemma_index_injective(p, cur);
                }
            }
            assert forall|p: (int, int)| m2.seen(p) && p != s implies as_pos(
                self.came_from@[#[trigger] grid.spec_index(p)],
            ) == m2.from[p] by {
                assert(m.seen(p));
                grid.lemma_index_in_range(p);
            }
            assert forall|p: (int, int)|
                grid.in_bounds(p) implies self.done@.contains(#[trigger] grid.spec_index(p))
                == m2.closed.contains(p) by {
                if p != cur && grid.spec_index(p) == grid.spec_index(cur) {
                    grid.lemma_index_injective(p, cur);
                }
            }
            assert forall|p: (int, int)| m2.seen(p) implies #[trigger] m2.steps[p]
                <= self.done@.len() by {
                assert(m.seen(p));
            }
            lemma_int_range(0, n as int);
            assert(self.done@.subset_of(set_int_range(0, n as int)));
            lemma_len_subset(self.done@, set_int_range(0, n as int));
        }
        current
    }

    /// Looks at the steps from the finished node `current` towards north,
    /// east, south and west, in this order.
    pub(crate) fn expand(
        &mut self,
        grid: &Grid,
        goal_cell: &Cell,
        current: &PathNode,
        Ghost(s): Ghost<(int, int)>,
    )
        requires
            old(self).inv(*grid, s, goal_cell.pos(), current.pos(), 0),
            old(self).marks@.closed.contains(current.pos()),
            current.cell == grid.at(current.pos()),
            current.g_cost == STEP_COST * old(self).marks@.steps[current.pos()],
            old(self).marks@.steps[current.pos()] < old(self).done@.len(),
        ensures
            final(self).inv(*grid, s, goal_cell.pos(), s, 4),
            final(self).done@ == old(self).done@,
            final(self).frontier() == expanded(
                *grid,
                goal_cell.pos(),
                old(self).frontier(),
                *current,
            ),
    {
        let ghost t = goal_cell.pos();
        let ghost cur = current.pos();
        let ghost f0 = self.frontier();
        let mut k: usize = 0;
        while k < 4
            invariant
                k <= 4,
                self.frontier() == expanded_upto(*grid, t, f0, *current, k as int),
                self.inv(*grid, s, t, cur, k as int),
                self.marks@.closed.contains(cur),
                cur == current.pos(),
                t == goal_cell.pos(),
                current.cell == grid.at(cur),
                current.g_cost == STEP_COST * self.marks@.steps[cur],
                self.marks@.steps[cur] < self.done@.len(),
                self.done@ == old(self).done@,
            decreases 4 - k,
        {
            let d = Direction::from_code(k).unwrap();
            self.relax(grid, goal_cell, current, d, Ghost(s));
            k += 1;
        }
        proof {
            let m = self.marks@;
            assert forall|p: (int, int), d: Direction|
                m.closed.contains(p) && !(p == s && d.idx() >= 4) implies #[trigger] m.settled(
                *grid,
                p,
                d,
            ) by {
                assert(d.idx() < 4);
            }
        }
    }

    /// While a cell waits, not every cell is finished.
    pub(crate) proof fn lemma_not_all_done(self, grid: Grid, s: (int, int), t: (int, int))
        requires
            self.inv(grid, s, t, s, 4),
            self.open_set.len() > 0,
        ensures
            self.done@.len() < grid.cells.len(),
    {
        let p = self.open_set[0].pos();
        assert(self.open_set@[0].ok(grid, t, self.marks@));
        grid.lemma_index_in_range(p);
        let k = grid.spec_index(p);
        assert(!self.done@.contains(k));
        let more = self.done@.insert(k);
        let n = grid.cells.len() as int;
        lemma_int_range(0, n);
        assert(more.subset_of(set_int_range(0, n)));
        lemma_len_subset(more, set_int_range(0, n));
    }
}

} // verus!
