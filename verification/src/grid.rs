//! The cell grid: a dense, row-major rectangle of cells, each recording which
//! of its four sides can be crossed.

use vstd::prelude::*;

verus! {

/// One of the four axis-aligned directions, in the order in which the grid
/// stores a cell's sides.
#[derive(Debug, Clone, Copy, PartialEq, Eq, Structural)]
pub enum Direction {
    North,
    East,
    South,
    West,
}

impl Direction {
    /// Position of this direction in a cell's side arrays.
    pub open spec fn idx(self) -> int {
        match self {
            Direction::North => 0,
            Direction::East => 1,
            Direction::South => 2,
            Direction::West => 3,
        }
    }

    /// Change of the column coordinate on a step this way.
    pub open spec fn di(self) -> int {
        match self {
            Direction::East => 1,
            Direction::West => -1,
            _ => 0,
        }
    }

    /// Change of the row coordinate on a step this way.
    pub open spec fn dj(self) -> int {
        match self {
            Direction::South => 1,
            Direction::North => -1,
            _ => 0,
        }
    }

    /// The direction that leads back.
    pub open spec fn spec_opposite(self) -> Direction {
        match self {
            Direction::North => Direction::South,
            Direction::East => Direction::West,
            Direction::South => Direction::North,
            Direction::West => Direction::East,
        }
    }

    /// Position of this direction in a cell's side arrays.
    pub fn code(self) -> (c: usize)
        ensures
            c == self.idx(),
            c < 4,
    {
        match self {
            Direction::North => 0,
            Direction::East => 1,
            Direction::South => 2,
            Direction::West => 3,
        }
    }

    /// The direction stored at position `code`, if there is one.
    pub fn from_code(code: usize) -> (d: Option<Direction>)
        ensures
            code < 4 ==> d is Some && d->0.idx() == code,
            code >= 4 ==> d is None,
    {
        if code == 0 {
            Some(Direction::North)
        } else if code == 1 {
            Some(Direction::East)
        } else if code == 2 {
            Some(Direction::South)
        } else if code == 3 {
            Some(Direction::West)
        } else {
            None
        }
    }

    #[verifier::when_used_as_spec(spec_opposite)]
    pub fn opposite(self) -> (d: Direction)
        ensures
            d == self.spec_opposite(),
    {
        match self {
            Direction::North => Direction::South,
            Direction::East => Direction::West,
            Direction::South => Direction::North,
            Direction::West => Direction::East,
        }
    }
}

/// The cell reached from `p` by one step towards `d`.
pub open spec fn step(p: (int, int), d: Direction) -> (int, int) {
    (p.0 + d.di(), p.1 + d.dj())
}

/// What stands on a side of a cell.
#[derive(Debug, Clone, Copy, PartialEq, Eq, Structural)]
pub enum SideView {
    /// Nothing: the side is open.
    Open,
    /// A doorway: the side is open and marked with a door.
    Door,
    /// A wall: the side is closed.
    Wall,
}

/// One unit of the grid.
#[derive(Debug, Default, Clone, Copy, PartialEq, Eq)]
pub struct Cell {
    /// Whether the cell can be left towards each direction.
    pub open_sides: [bool; 4],
    /// Whether a door is shown on each side.
    pub doors: [bool; 4],
    /// Column of the cell.
    pub i: usize,
    /// Row of the cell.
    pub j: usize,
}

impl Cell {
    /// The coordinates the cell carries.
    pub open spec fn pos(self) -> (int, int) {
        (self.i as int, self.j as int)
    }

    /// Whether the side towards `d` can be crossed.
    pub open spec fn open(self, d: Direction) -> bool {
        self.open_sides[d.idx()]
    }

    /// Whether the side towards `d` shows a door.
    pub open spec fn door(self, d: Direction) -> bool {
        self.doors[d.idx()]
    }

    /// What stands on the side towards `d`. A closed side is a wall, with
    /// or without a door mark.
    pub open spec fn view_of(self, d: Direction) -> SideView {
        if !self.open(d) {
            SideView::Wall
        } else if self.door(d) {
            SideView::Door
        } else {
            SideView::Open
        }
    }

    /// What stands on the side towards `d`.
    pub fn side_view(&self, d: Direction) -> (v: SideView)
        ensures
            v == self.view_of(d),
    {
        if !self.is_open(d) {
            SideView::Wall
        } else if self.has_door(d) {
            SideView::Door
        } else {
            SideView::Open
        }
    }

    /// Whether the side towards `d` can be crossed.
    pub fn is_open(&self, d: Direction) -> (b: bool)
        ensures
            b == self.open(d),
    {
        self.open_sides[d.code()]
    }

    /// Whether the side towards `d` shows a door.
    pub fn has_door(&self, d: Direction) -> (b: bool)
        ensures
            b == self.door(d),
    {
        self.doors[d.code()]
    }

    /// Whether two cells stand at the same coordinates. The search and the
    /// guards identify cells this way.
    pub fn same_place(&self, other: &Cell) -> (b: bool)
        ensures
            b == (self.pos() == other.pos()),
    {
        self.i == other.i && self.j == other.j
    }
}

/// A rectangle of `width` columns and `length` rows, stored row by row.
#[derive(Debug, PartialEq, Eq)]
pub struct Grid {
    pub width: usize,
    pub length: usize,
    pub cells: Vec<Cell>,
}

impl Grid {
    /// Whether `p` names a cell of the grid.
    pub open spec fn in_bounds(&self, p: (int, int)) -> bool {
        0 <= p.0 < self.width && 0 <= p.1 < self.length
    }

    /// Where the cell at `p` is stored.
    pub open spec fn spec_index(&self, p: (int, int)) -> int {
        p.1 * self.width + p.0
    }

    /// The cell at `p`.
    pub open spec fn at(&self, p: (int, int)) -> Cell {
        self.cells[self.spec_index(p)]
    }

    /// The grid holds one cell for each pair of coordinates, and each cell
    /// carries its own.
    pub open spec fn wf(&self) -> bool {
        &&& self.cells.len() == self.width * self.length
        &&& forall|p: (int, int)| self.in_bounds(p) ==> (#[trigger] self.at(p)).pos() == p
    }

    /// Whether `p` is a cell whose side towards `d` is open.
    pub open spec fn side_open(&self, p: (int, int), d: Direction) -> bool {
        self.in_bounds(p) && self.at(p).open(d)
    }

    /// Whether `p` is a cell whose side towards `d` shows a door.
    pub open spec fn side_door(&self, p: (int, int), d: Direction) -> bool {
        self.in_bounds(p) && self.at(p).door(d)
    }

    /// Whether one can walk from `p` to its neighbour towards `d`: both are
    /// cells of the grid, and the side of `p` that faces the neighbour is
    /// open. Only the side of the cell being left is consulted.
    pub open spec fn passable(&self, p: (int, int), d: Direction) -> bool {
        self.side_open(p, d) && self.in_bounds(step(p, d))
    }

    /// Whether a single step leads from `a` to `b`.
    pub open spec fn linked(&self, a: (int, int), b: (int, int)) -> bool {
        ||| (self.passable(a, Direction::North) && b == step(a, Direction::North))
        ||| (self.passable(a, Direction::East) && b == step(a, Direction::East))
        ||| (self.passable(a, Direction::South) && b == step(a, Direction::South))
        ||| (self.passable(a, Direction::West) && b == step(a, Direction::West))
    }

    /// Every side that faces the outside of the grid is closed.
    pub open spec fn boundary_closed(&self) -> bool {
        forall|p: (int, int), d: Direction|
            self.in_bounds(p) && !self.in_bounds(step(p, d)) ==> !#[trigger] self.side_open(p, d)
    }

    /// Two neighbouring cells agree on whether the side they share is open.
    pub open spec fn symmetric(&self) -> bool {
        forall|p: (int, int), d: Direction|
            self.in_bounds(p) && self.in_bounds(step(p, d)) ==> (#[trigger] self.side_open(p, d)
                == self.side_open(step(p, d), d.spec_opposite()))
    }

    /// Two neighbouring cells agree on whether the side they share has a door.
    pub open spec fn doors_symmetric(&self) -> bool {
        forall|p: (int, int), d: Direction|
            self.in_bounds(p) && self.in_bounds(step(p, d)) ==> (#[trigger] self.side_door(p, d)
                == self.side_door(step(p, d), d.spec_opposite()))
    }

    /// Whether the side of `q` towards `e` is the wall that `p` has towards
    /// `d`, seen from `p` itself or from the neighbour across it.
    pub open spec fn same_wall(p: (int, int), d: Direction, q: (int, int), e: Direction) -> bool {
        (q == p && e == d) || (q == step(p, d) && e == d.spec_opposite())
    }

    /// Whether the grid is as it is before any room is carved: every side
    /// between two cells is open, every side that faces the outside is
    /// closed, and there is no door.
    pub open spec fn is_blank(&self) -> bool {
        &&& self.wf()
        &&& forall|p: (int, int), d: Direction|
            self.in_bounds(p) ==> (#[trigger] self.side_open(p, d) == self.in_bounds(step(p, d)))
        &&& forall|p: (int, int), d: Direction| !#[trigger] self.side_door(p, d)
    }

    /// Whether `w` lists the cells of a walk: it is not empty, it begins at
    /// a cell of the grid, and each cell is linked to the next.
    pub open spec fn is_walk(&self, w: Seq<(int, int)>) -> bool {
        &&& w.len() > 0
        &&& self.in_bounds(w[0])
        &&& forall|k: int| 0 <= k < w.len() - 1 ==> self.linked(#[trigger] w[k], w[k + 1])
    }

    /// Whether `w` is a walk that begins at `a` and ends at `b`.
    pub open spec fn joins(&self, w: Seq<(int, int)>, a: (int, int), b: (int, int)) -> bool {
        self.is_walk(w) && w[0] == a && w.last() == b
    }

    /// Whether some walk leads from `a` to `b`.
    pub open spec fn reachable(&self, a: (int, int), b: (int, int)) -> bool {
        exists|w: Seq<(int, int)>| self.joins(w, a, b)
    }

    /// Every cell of a walk is a cell of the grid.
    pub proof fn lemma_walk_in_bounds(&self, w: Seq<(int, int)>, k: int)
        requires
            self.is_walk(w),
            0 <= k < w.len(),
        ensures
            self.in_bounds(w[k]),
        decreases k,
    {
        if k > 0 {
            self.lemma_walk_in_bounds(w, k - 1);
            assert(self.linked(w[k - 1], w[k - 1 + 1]));
        }
    }

    /// The first `n + 1` cells of a walk are a walk to its cell number `n`.
    pub proof fn lemma_walk_prefix(&self, w: Seq<(int, int)>, n: int)
        requires
            self.is_walk(w),
            0 <= n < w.len(),
        ensures
            self.joins(w.subrange(0, n + 1), w[0], w[n]),
    {
        let v = w.subrange(0, n + 1);
        assert forall|k: int| 0 <= k < v.len() - 1 implies self.linked(
            #[trigger] v[k],
            v[k + 1],
        ) by {
            assert(self.linked(w[k], w[k + 1]));
        }
    }

    /// The storage position of an in-bounds pair lies within the cells.
    pub proof fn lemma_index_in_range(&self, p: (int, int))
        requires
            self.cells.len() == self.width * self.length,
            self.in_bounds(p),
        ensures
            0 <= self.spec_index(p) < self.cells.len(),
    {
        let w = self.width as int;
        let l = self.length as int;
        assert(0 <= p.1 * w && p.1 * w + w <= w * l) by (nonlinear_arith)
            requires
                0 <= p.1 < l,
                0 <= w,
        ;
    }

    /// Distinct cells are stored at distinct positions.
    pub proof fn lemma_index_injective(&self, p: (int, int), q: (int, int))
        requires
            self.wf(),
            self.in_bounds(p),
            self.in_bounds(q),
            self.spec_index(p) == self.spec_index(q),
        ensures
            p == q,
    {
        assert(self.at(p).pos() == p);
        assert(self.at(q).pos() == q);
    }

    /// Where the cell at column `i`, row `j` is stored.
    pub fn index(&self, i: usize, j: usize) -> (k: usize)
        requires
            self.wf(),
            self.in_bounds((i as int, j as int)),
        ensures
            k == self.spec_index((i as int, j as int)),
            k < self.cells.len(),
    {
        proof {
            self.lemma_index_in_range((i as int, j as int));
            assert(0 <= j * self.width <= self.width * self.length) by (nonlinear_arith)
                requires
                    0 <= j < self.length,
                    0 <= self.width,
            ;
        }
        j * self.width + i
    }

    /// Whether the grid holds one cell for each pair of coordinates, each
    /// carrying its own.
    pub fn valid(&self) -> (b: bool)
        ensures
            b == self.wf(),
    {
        let n = match self.width.checked_mul(self.length) {
            Some(n) => n,
            None => {
                return false;
            },
        };
        if self.cells.len() != n {
            return false;
        }
        let mut j: usize = 0;
        while j < self.length
            invariant
                j <= self.length,
                self.cells.len() == self.width * self.length,
                forall|p: (int, int)|
                    self.in_bounds(p) && p.1 < j ==> (#[trigger] self.at(p)).pos() == p,
            decreases self.length - j,
        {
            let mut i: usize = 0;
            while i < self.width
                invariant
                    i <= self.width,
                    j < self.length,
                    self.cells.len() == self.width * self.length,
                    forall|p: (int, int)|
                        self.in_bounds(p) && p.1 < j ==> (#[trigger] self.at(p)).pos() == p,
                    forall|p: (int, int)|
                        self.in_bounds(p) && p.1 == j && p.0 < i ==> (#[trigger] self.at(p)).pos()
                            == p,
                decreases self.width - i,
            {
                proof {
                    self.lemma_index_in_range((i as int, j as int));
                }
                let cell = &self.cells[j * self.width + i];
                if cell.i != i || cell.j != j {
                    assert(self.at((i as int, j as int)).pos() != (i as int, j as int));
                    return false;
                }
                i += 1;
            }
            j += 1;
        }
        true
    }

    /// Whether column `i`, row `j` names a cell of the grid.
    pub fn contains(&self, i: usize, j: usize) -> (b: bool)
        ensures
            b == self.in_bounds((i as int, j as int)),
    {
        i < self.width && j < self.length
    }

    /// The cell at column `i`, row `j`, if the grid has one.
    pub fn cell(&self, i: usize, j: usize) -> (c: Option<Cell>)
        requires
            self.wf(),
        ensures
            c is Some <==> self.in_bounds((i as int, j as int)),
            c is Some ==> c->0 == self.at((i as int, j as int)),
    {
        if self.contains(i, j) {
            let k = self.index(i, j);
            Some(self.cells[k])
        } else {
            None
        }
    }

    /// The coordinates one step from column `i`, row `j` towards `d`, if
    /// they name a cell of the grid.
    pub fn neighbor(&self, i: usize, j: usize, d: Direction) -> (n: Option<(usize, usize)>)
        ensures
            n is Some <==> self.in_bounds(step((i as int, j as int), d)),
            n matches Some(q) ==> (q.0 as int, q.1 as int) == step((i as int, j as int), d),
    {
        match d {
            Direction::North => if j > 0 && j - 1 < self.length && i < self.width {
                Some((i, j - 1))
            } else {
                None
            },
            Direction::East => if i < usize::MAX && i + 1 < self.width && j < self.length {
                Some((i + 1, j))
            } else {
                None
            },
            Direction::South => if j < usize::MAX && j + 1 < self.length && i < self.width {
                Some((i, j + 1))
            } else {
                None
            },
            Direction::West => if i > 0 && i - 1 < self.width && j < self.length {
                Some((i - 1, j))
            } else {
                None
            },
        }
    }

    /// Whether one can walk from column `i`, row `j` to the neighbour
    /// towards `d`.
    pub fn can_step(&self, i: usize, j: usize, d: Direction) -> (b: bool)
        requires
            self.wf(),
        ensures
            b == self.passable((i as int, j as int), d),
    {
        if !self.contains(i, j) {
            return false;
        }
        let k = self.index(i, j);
        self.cells[k].is_open(d) && self.neighbor(i, j, d).is_some()
    }

    /// Opens or closes the side towards `d` of the cell at column `i`, row
    /// `j`, and leaves the neighbour across it as it is.
    pub fn set_side(&mut self, i: usize, j: usize, d: Direction, open: bool)
        requires
            old(self).wf(),
            old(self).in_bounds((i as int, j as int)),
        ensures
            final(self).wf(),
            final(self).width == old(self).width,
            final(self).length == old(self).length,
            forall|q: (int, int), e: Direction| #[trigger]
                final(self).side_open(q, e) == (if q == (i as int, j as int) && e == d {
                    open
                } else {
                    old(self).side_open(q, e)
                }),
            forall|q: (int, int), e: Direction| #[trigger]
                final(self).side_door(q, e) == old(self).side_door(q, e),
    {
        let k = self.index(i, j);
        let c = d.code();
        self.cells[k].open_sides[c] = open;
        proof {
            let p = (i as int, j as int);
            assert(old(self).at(p).pos() == p);
            assert forall|q: (int, int)| self.in_bounds(q) && q != p implies #[trigger] self.at(q)
                == old(self).at(q) by {
                old(self).lemma_index_in_range(q);
                if old(self).spec_index(q) == old(self).spec_index(p) {
                    old(self).lemma_index_injective(q, p);
                }
            }
            assert forall|q: (int, int)| self.in_bounds(q) implies (#[trigger] self.at(q)).pos()
                == q by {
                assert(old(self).at(q).pos() == q);
            }
            assert forall|q: (int, int), e: Direction| #[trigger]
                self.side_open(q, e) == (if q == p && e == d {
                    open
                } else {
                    old(self).side_open(q, e)
                }) by {
                if self.in_bounds(q) && q != p {
                    assert(self.at(q) == old(self).at(q));
                }
            }
            assert forall|q: (int, int), e: Direction| #[trigger]
                self.side_door(q, e) == old(self).side_door(q, e) by {
                if self.in_bounds(q) && q != p {
                    assert(self.at(q) == old(self).at(q));
                }
            }
        }
    }

    /// Shows or removes a door on the side towards `d` of the cell at column
    /// `i`, row `j`, and leaves the neighbour across it as it is.
    pub fn set_door(&mut self, i: usize, j: usize, d: Direction, door: bool)
        requires
            old(self).wf(),
            old(self).in_bounds((i as int, j as int)),
        ensures
            final(self).wf(),
            final(self).width == old(self).width,
            final(self).length == old(self).length,
            forall|q: (int, int), e: Direction| #[trigger]
                final(self).side_door(q, e) == (if q == (i as int, j as int) && e == d {
                    door
                } else {
                    old(self).side_door(q, e)
                }),
            forall|q: (int, int), e: Direction| #[trigger]
                final(self).side_open(q, e) == old(self).side_open(q, e),
    {
        let k = self.index(i, j);
        let c = d.code();
        self.cells[k].doors[c] = door;
        proof {
            let p = (i as int, j as int);
            assert(old(self).at(p).pos() == p);
            assert forall|q: (int, int)| self.in_bounds(q) && q != p implies #[trigger] self.at(q)
                == old(self).at(q) by {
                old(self).lemma_index_in_range(q);
                if old(self).spec_index(q) == old(self).spec_index(p) {
                    old(self).lemma_index_injective(q, p);
                }
            }
            assert forall|q: (int, int)| self.in_bounds(q) implies (#[trigger] self.at(q)).pos()
                == q by {
                assert(old(self).at(q).pos() == q);
            }
            assert forall|q: (int, int), e: Direction| #[trigger]
                self.side_door(q, e) == (if q == p && e == d {
                    door
                } else {
                    old(self).side_door(q, e)
                }) by {
                if self.in_bounds(q) && q != p {
                    assert(self.at(q) == old(self).at(q));
                }
            }
            assert forall|q: (int, int), e: Direction| #[trigger]
                self.side_open(q, e) == old(self).side_open(q, e) by {
                if self.in_bounds(q) && q != p {
                    assert(self.at(q) == old(self).at(q));
                }
            }
        }
    }

    /// Closes the wall that the cell at column `i`, row `j` has towards `d`:
    /// the side of the cell, and the facing side of the neighbour where
    /// there is one.
    pub fn close_wall(&mut self, i: usize, j: usize, d: Direction)
        requires
            old(self).wf(),
            old(self).in_bounds((i as int, j as int)),
        ensures
            final(self).wf(),
            final(self).width == old(self).width,
            final(self).length == old(self).length,
            forall|q: (int, int), e: Direction| #[trigger]
                final(self).side_open(q, e) == (old(self).side_open(q, e) && !Grid::same_wall(
                    (i as int, j as int),
                    d,
                    q,
                    e,
                )),
            forall|q: (int, int), e: Direction| #[trigger]
                final(self).side_door(q, e) == old(self).side_door(q, e),
    {
        self.set_side(i, j, d, false);
        match self.neighbor(i, j, d) {
            Some((ni, nj)) => {
                self.set_side(ni, nj, d.opposite(), false);
            },
            None => {},
        }
    }

    /// Marks a door on the wall that the cell at column `i`, row `j` has
    /// towards `d`: on the side of the cell, and on the facing side of the
    /// neighbour where there is one.
    pub fn door_wall(&mut self, i: usize, j: usize, d: Direction)
        requires
            old(self).wf(),
            old(self).in_bounds((i as int, j as int)),
        ensures
            final(self).wf(),
            final(self).width == old(self).width,
            final(self).length == old(self).length,
            forall|q: (int, int), e: Direction| #[trigger]
                final(self).side_door(q, e) == (old(self).side_door(q, e) || (final(self).in_bounds(
                    q,
                ) && Grid::same_wall((i as int, j as int), d, q, e))),
            forall|q: (int, int), e: Direction| #[trigger]
                final(self).side_open(q, e) == old(self).side_open(q, e),
    {
        self.set_door(i, j, d, true);
        match self.neighbor(i, j, d) {
            Some((ni, nj)) => {
                self.set_door(ni, nj, d.opposite(), true);
            },
            None => {},
        }
    }

    /// A grid of `width` columns and `length` rows before any room is carved.
    pub fn blank(width: usize, length: usize) -> (grid: Grid)
        requires
            width * length <= usize::MAX,
        ensures
            grid.is_blank(),
            grid.width == width,
            grid.length == length,
    {
        let mut cells: Vec<Cell> = Vec::new();
        let mut j: usize = 0;
        while j < length
            invariant
                j <= length,
                width * length <= usize::MAX,
                cells.len() == j * width,
                forall|p: (int, int)|
                    0 <= p.0 < width && 0 <= p.1 < j ==> #[trigger] cells@[p.1 * width + p.0]
                        == blank_cell(width, length, p),
            decreases length - j,
        {
            let mut i: usize = 0;
            while i < width
                invariant
                    i <= width,
                    j < length,
                    width * length <= usize::MAX,
                    cells.len() == j * width + i,
                    forall|p: (int, int)|
                        0 <= p.0 < width && 0 <= p.1 < j ==> #[trigger] cells@[p.1 * width + p.0]
                            == blank_cell(width, length, p),
                    forall|p: (int, int)|
                        0 <= p.0 < i && p.1 == j ==> #[trigger] cells@[p.1 * width + p.0]
                            == blank_cell(width, length, p),
                decreases width - i,
            {
                let ghost before = cells@;
                let cell = Cell {
                    open_sides: [j != 0, i != width - 1, j != length - 1, i != 0],
                    doors: [false, false, false, false],
                    i,
                    j,
                };
                cells.push(cell);
                proof {
                    assert(cell == blank_cell(width, length, (i as int, j as int)));
                    assert forall|p: (int, int)|
                        0 <= p.0 < width && 0 <= p.1 < j implies #[trigger] cells@[p.1 * width
                        + p.0] == blank_cell(width, length, p) by {
                        lemma_row_major(width as int, p, j as int);
                        assert(cells@[p.1 * width + p.0] == before[p.1 * width + p.0]);
                    }
                }
                i += 1;
            }
            proof {
                assert(j * width + width == (j + 1) * width) by (nonlinear_arith);
                assert((j + 1) * width <= length * width) by (nonlinear_arith)
                    requires
                        j + 1 <= length,
                        0 <= width,
                ;
                assert(length * width == width * length) by (nonlinear_arith);
            }
            j += 1;
        }
        let grid = Grid { width, length, cells };
        proof {
            assert(length * width == width * length) by (nonlinear_arith);
            assert forall|p: (int, int)| grid.in_bounds(p) implies (#[trigger] grid.at(p)).pos()
                == p by {
                assert(grid.at(p) == blank_cell(width, length, p));
            }
            assert forall|p: (int, int), d: Direction| grid.in_bounds(p) implies (
            #[trigger] grid.side_open(p, d) == grid.in_bounds(step(p, d))) by {
                assert(grid.at(p) == blank_cell(width, length, p));
            }
            assert forall|p: (int, int), d: Direction| !#[trigger] grid.side_door(p, d) by {
                if grid.in_bounds(p) {
                    assert(grid.at(p) == blank_cell(width, length, p));
                }
            }
        }
        grid
    }
}

/// The cell that a grid holds at `p` before any room is carved.
pub open spec fn blank_cell(width: usize, length: usize, p: (int, int)) -> Cell {
    Cell {
        open_sides: [p.1 != 0, p.0 != width - 1, p.1 != length - 1, p.0 != 0],
        doors: [false, false, false, false],
        i: p.0 as usize,
        j: p.1 as usize,
    }
}

/// A cell of an earlier row is stored before the rows from `j` on.
proof fn lemma_row_major(width: int, p: (int, int), j: int)
    requires
        0 <= p.0 < width,
        0 <= p.1 < j,
    ensures
        0 <= p.1 * width + p.0 < j * width,
{
    assert(0 <= p.1 * width && p.1 * width + width <= j * width) by (nonlinear_arith)
        requires
            0 <= p.1 < j,
            0 <= width,
    ;
}

} // verus!
