//! Shortest routes on the grid, found by an A* search.
//!
//! A step leaves a cell through one of its open sides and costs
//! [`STEP_COST`]; the estimate of what remains is the Manhattan distance.
//! Only the side of the cell being left decides whether a step is possible.
//! Among the open nodes of least total cost the one that entered the open
//! set first is expanded, and a node that is reached again more cheaply while
//! it waits keeps its place in the open set.

use crate::grid::step;
use crate::grid::Cell;
use crate::grid::Direction;
use crate::grid::Grid;
use crate::search::cheapest;
use crate::search::lemma_frontier;
use crate::search::lemma_pick_optimal;
use crate::search::listed;
use crate::search::Search;
use vstd::prelude::*;

verus! {

/// Cost of one step between neighbouring cells.
pub const STEP_COST: u128 = 10;

/// Number of steps between `a` and `b` on a grid without walls.
pub open spec fn manhattan(a: (int, int), b: (int, int)) -> int {
    (if a.0 >= b.0 {
        a.0 - b.0
    } else {
        b.0 - a.0
    }) + (if a.1 >= b.1 {
        a.1 - b.1
    } else {
        b.1 - a.1
    })
}

/// The walk of someone who stands at `start` and takes the cells of `path`
/// one by one from its end.
pub open spec fn route(start: (int, int), path: Seq<Cell>) -> Seq<(int, int)> {
    Seq::new(
        path.len() + 1,
        |k: int|
            if k == 0 {
                start
            } else {
                path[path.len() - k].pos()
            },
    )
}

/// A node of the search: a cell with the cost of reaching it, the estimate
/// of the cost that remains, and their sum.
#[derive(Debug, Clone, Copy, PartialEq, Eq)]
pub struct PathNode {
    pub cell: Cell,
    pub g_cost: u128,
    pub h_cost: u128,
    pub f_cost: u128,
}

impl PathNode {
    /// The coordinates of the node's cell.
    pub open spec fn pos(self) -> (int, int) {
        self.cell.pos()
    }
}

/// What a search holds between two expansions: the open set in the order in
/// which its nodes entered, the cells that are finished, and for each cell
/// that was reached the cell it was reached from.
pub struct Frontier {
    pub open: Seq<PathNode>,
    pub closed: Set<(int, int)>,
    pub from: Map<(int, int), (int, int)>,
}

/// Whether the node at `u` is the first of `open` among those of least
/// total cost.
pub open spec fn is_first_cheapest(open: Seq<PathNode>, u: int) -> bool {
    &&& 0 <= u < open.len()
    &&& forall|k: int| 0 <= k < open.len() ==> open[u].f_cost <= (#[trigger] open[k]).f_cost
    &&& forall|k: int| 0 <= k < u ==> open[u].f_cost < (#[trigger] open[k]).f_cost
}

/// Position in `open` of the node that is expanded next.
pub open spec fn cheapest_of(open: Seq<PathNode>) -> int {
    choose|u: int| is_first_cheapest(open, u)
}

/// Whether the node at `q` is the first of `open` that stands at `p`.
pub open spec fn is_first_at(open: Seq<PathNode>, p: (int, int), q: int) -> bool {
    &&& 0 <= q < open.len()
    &&& open[q].pos() == p
    &&& forall|k: int| 0 <= k < q ==> (#[trigger] open[k]).pos() != p
}

/// Position in `open` of the node that stands at `p`, if there is one.
pub open spec fn place_of(open: Seq<PathNode>, p: (int, int)) -> Option<int> {
    if exists|q: int| is_first_at(open, p, q) {
        Some(choose|q: int| is_first_at(open, p, q))
    } else {
        None
    }
}

/// The node for the cell at `v`, reached at the cost `g` on a search for
/// `t`.
pub open spec fn node_at(grid: Grid, t: (int, int), v: (int, int), g: u128) -> PathNode {
    PathNode {
        cell: grid.at(v),
        g_cost: g,
        h_cost: manhattan(v, t) as u128,
        f_cost: (g + manhattan(v, t)) as u128,
    }
}

/// The search before its first expansion: the start waits alone.
pub open spec fn initial(grid: Grid, s: (int, int), t: (int, int)) -> Frontier {
    Frontier {
        open: seq![node_at(grid, t, s, 0)],
        closed: Set::empty(),
        from: Map::total(|p: (int, int)| s),
    }
}

/// The search after the node at `u` leaves the open set and its cell is
/// finished.
pub open spec fn finished(f: Frontier, u: int) -> Frontier {
    Frontier { open: f.open.remove(u), closed: f.closed.insert(f.open[u].pos()), from: f.from }
}

/// The search after the step from the finished node `cur` towards `d` is
/// looked at. Nothing changes if the step is not possible, if it leads to a
/// finished cell, or if it leads to a cell that waits at no higher cost. A
/// cell that waits at a higher cost takes the lower one, in its place; a
/// cell reached for the first time joins the end of the open set.
pub open spec fn relaxed(
    grid: Grid,
    t: (int, int),
    f: Frontier,
    cur: PathNode,
    d: Direction,
) -> Frontier {
    let v = step(cur.pos(), d);
    let g = (cur.g_cost + STEP_COST) as u128;
    if !grid.passable(cur.pos(), d) || f.closed.contains(v) {
        f
    } else {
        match place_of(f.open, v) {
            Some(q) => if f.open[q].g_cost <= g {
                f
            } else {
                Frontier {
                    open: f.open.update(
                        q,
                        PathNode { g_cost: g, f_cost: (g + f.open[q].h_cost) as u128, ..f.open[q] },
                    ),
                    closed: f.closed,
                    from: f.from.insert(v, cur.pos()),
                }
            },
            None => Frontier {
                open: f.open.push(node_at(grid, t, v, g)),
                closed: f.closed,
                from: f.from.insert(v, cur.pos()),
            },
        }
    }
}

/// The search after the steps from the finished node `cur` are looked at,
/// towards north, east, south and west in this order.
pub open spec fn expanded(grid: Grid, t: (int, int), f: Frontier, cur: PathNode) -> Frontier {
    relaxed(
        grid,
        t,
        relaxed(
            grid,
            t,
            relaxed(grid, t, relaxed(grid, t, f, cur, Direction::North), cur, Direction::East),
            cur,
            Direction::South,
        ),
        cur,
        Direction::West,
    )
}

/// The cells from `p` back to the one that was reached from `s`, each
/// followed by the cell it was reached from; at most `fuel` of them.
pub open spec fn traced(
    grid: Grid,
    from: Map<(int, int), (int, int)>,
    s: (int, int),
    p: (int, int),
    fuel: nat,
) -> Seq<Cell>
    decreases fuel,
{
    if fuel == 0 || p == s {
        Seq::empty()
    } else {
        seq![grid.at(p)] + traced(grid, from, s, from[p], (fuel - 1) as nat)
    }
}

/// What a search from `s` for `t` comes to that stands at `f` and has
/// `fuel` expansions left: the node that is first among those of least
/// total cost is taken; if it is the goal, the way is read off, and else the
/// node is finished and expanded. An empty open set means that there is no
/// way.
pub open spec fn searched(
    grid: Grid,
    s: (int, int),
    t: (int, int),
    f: Frontier,
    fuel: nat,
) -> Option<Seq<Cell>>
    decreases fuel,
{
    if fuel == 0 || f.open.len() == 0 {
        None
    } else {
        let u = cheapest_of(f.open);
        let cur = f.open[u];
        if cur.pos() == t {
            Some(traced(grid, f.from, s, t, grid.cells.len() as nat))
        } else {
            searched(grid, s, t, expanded(grid, t, finished(f, u), cur), (fuel - 1) as nat)
        }
    }
}

/// The way that the search finds from `s` to `t`, with the goal first and
/// the cell next to the start last, if it finds one.
pub open spec fn astar(grid: Grid, s: (int, int), t: (int, int)) -> Option<Seq<Cell>> {
    if !grid.in_bounds(s) || !grid.in_bounds(t) || s == t {
        None
    } else {
        searched(grid, s, t, initial(grid, s, t), grid.cells.len() as nat)
    }
}

/// Manhattan distance between the coordinates of two cells.
pub fn heuristic(a: &Cell, b: &Cell) -> (h: u128)
    ensures
        h == manhattan(a.pos(), b.pos()),
{
    let diff_i: usize = if a.i >= b.i {
        a.i - b.i
    } else {
        b.i - a.i
    };
    let diff_j: usize = if a.j >= b.j {
        a.j - b.j
    } else {
        b.j - a.j
    };
    diff_i as u128 + diff_j as u128
}

/// Taking the cells of a way from its end, one enters a neighbour of the
/// start first and the goal last.
pub proof fn lemma_route_endpoints(grid: Grid, s: (int, int), t: (int, int), path: Seq<Cell>)
    requires
        path.len() > 0,
        grid.joins(route(s, path), s, t),
    ensures
        grid.linked(s, path.last().pos()),
        path[0].pos() == t,
{
    let w = route(s, path);
    assert(grid.linked(w[0], w[0int + 1]));
}

/// No walk leads to a cell that cannot be entered: if each neighbour of `t`
/// has the side that faces `t` closed, nothing but `t` itself reaches `t`.
pub proof fn lemma_sealed_goal_unreachable(grid: Grid, s: (int, int), t: (int, int))
    requires
        s != t,
        forall|d: Direction| !#[trigger] grid.side_open(step(t, d), d.spec_opposite()),
    ensures
        !grid.reachable(s, t),
{
    assert forall|w: Seq<(int, int)>| !grid.joins(w, s, t) by {
        if grid.joins(w, s, t) {
            let n = w.len() - 1;
            let p = w[n - 1];
            assert(grid.linked(w[n - 1], w[n - 1 + 1]));
            assert(!grid.side_open(step(t, Direction::South), Direction::South.spec_opposite()));
            assert(!grid.side_open(step(t, Direction::West), Direction::West.spec_opposite()));
            assert(!grid.side_open(step(t, Direction::North), Direction::North.spec_opposite()));
            assert(!grid.side_open(step(t, Direction::East), Direction::East.spec_opposite()));
        }
    }
}

/// Where neighbours agree on the sides they share, a cell with all its
/// sides closed is reached by nothing but itself.
pub proof fn lemma_walled_goal_unreachable(grid: Grid, s: (int, int), t: (int, int))
    requires
        grid.symmetric(),
        s != t,
        forall|d: Direction| !#[trigger] grid.side_open(t, d),
    ensures
        !grid.reachable(s, t),
{
    if grid.in_bounds(t) {
        assert forall|d: Direction| !#[trigger] grid.side_open(step(t, d), d.spec_opposite()) by {
            let q = step(t, d);
            let e = d.spec_opposite();
            if grid.in_bounds(q) {
                assert(step(q, e) == t);
                assert(e.spec_opposite() == d);
                assert(grid.side_open(q, e) == grid.side_open(step(q, e), e.spec_opposite()));
                assert(!grid.side_open(t, d));
            }
        }
        lemma_sealed_goal_unreachable(grid, s, t);
    } else {
        assert forall|w: Seq<(int, int)>| !grid.joins(w, s, t) by {
            if grid.joins(w, s, t) {
                grid.lemma_walk_in_bounds(w, w.len() - 1);
            }
        }
    }
}

/// A cell with all its sides closed reaches nothing but itself.
pub proof fn lemma_walled_start_reaches_nothing(grid: Grid, s: (int, int), t: (int, int))
    requires
        s != t,
        forall|d: Direction| !#[trigger] grid.side_open(s, d),
    ensures
        !grid.reachable(s, t),
{
    assert forall|w: Seq<(int, int)>| !grid.joins(w, s, t) by {
        if grid.joins(w, s, t) {
            assert(grid.linked(w[0], w[0int + 1]));
            assert(!grid.side_open(s, Direction::North));
            assert(!grid.side_open(s, Direction::East));
            assert(!grid.side_open(s, Direction::South));
            assert(!grid.side_open(s, Direction::West));
        }
    }
}

/// A shortest way from `start_cell` to `goal_cell`, as the cells to enter in
/// reverse order: the goal comes first and the cell next to the start last,
/// so that popping from the end walks the way forward.
///
/// There is no way to report when the two cells are the same, when either
/// lies outside the grid, or when no walk joins them. Of several shortest
/// ways the one is returned that [`astar`] describes.
pub fn find_path(grid: &Grid, start_cell: &Cell, goal_cell: &Cell) -> (result: Option<Vec<Cell>>)
    requires
        grid.wf(),
    ensures
        result is Some <==> start_cell.pos() != goal_cell.pos() && grid.reachable(
            start_cell.pos(),
            goal_cell.pos(),
        ),
        result matches Some(path) ==> {
            &&& grid.joins(route(start_cell.pos(), path@), start_cell.pos(), goal_cell.pos())
            &&& forall|k: int|
                0 <= k < path.len() ==> (#[trigger] path[k]) == grid.at(path[k].pos())
            &&& forall|w: Seq<(int, int)>| #[trigger]
                grid.joins(w, start_cell.pos(), goal_cell.pos()) ==> path.len() <= w.len() - 1
        },
        match result {
            Some(path) => astar(*grid, start_cell.pos(), goal_cell.pos()) == Some(path@),
            None => astar(*grid, start_cell.pos(), goal_cell.pos()) is None,
        },
{
    let ghost s = start_cell.pos();
    let ghost t = goal_cell.pos();
    if !grid.contains(start_cell.i, start_cell.j) || !grid.contains(goal_cell.i, goal_cell.j) {
        proof {
            assert forall|w: Seq<(int, int)>| !grid.joins(w, s, t) by {
                if grid.joins(w, s, t) {
                    grid.lemma_walk_in_bounds(w, w.len() - 1);
                }
            }
        }
        return None;
    }
    if start_cell.same_place(goal_cell) {
        return None;
    }
    let mut search = Search::begin(grid, start_cell, goal_cell);
    while search.open_set.len() > 0
        invariant
            search.inv(*grid, s, t, s, 4),
            s == start_cell.pos(),
            t == goal_cell.pos(),
            search.done@.len() <= grid.cells.len(),
            searched(
                *grid,
                s,
                t,
                search.frontier(),
                (grid.cells.len() - search.done@.len()) as nat,
            ) == astar(*grid, s, t),
        decreases grid.cells.len() - search.done@.len(),
    {
        proof {
            search.lemma_not_all_done(*grid, s, t);
        }
        let u = cheapest(&search.open_set);
        if search.open_set[u].cell.same_place(goal_cell) {
            let path = search.trace(grid, start_cell, u);
            proof {
                assert forall|w: Seq<(int, int)>| #[trigger] grid.joins(w, s, t) implies path.len()
                    <= w.len() - 1 by {
                    lemma_pick_optimal(*grid, s, t, search.marks@, search.open_set@, u as int, w);
                }
                assert(grid.joins(route(s, path@), s, t));
            }
            return Some(path);
        }
        let current = search.close(grid, goal_cell, u, Ghost(s));
        search.expand(grid, goal_cell, &current, Ghost(s));
    }
    proof {
        let m = search.marks@;
        assert forall|w: Seq<(int, int)>| !grid.joins(w, s, t) by {
            if grid.joins(w, s, t) {
                lemma_frontier(*grid, s, m, w, w.len() - 1);
                let k = choose|k: int|
                    0 <= k <= w.len() - 1 && m.open.contains(#[trigger] w[k]) && m.steps[w[k]] <= k;
                assert(listed(search.open_set@, w[k]));
            }
        }
    }
    None
}

} // verus!
