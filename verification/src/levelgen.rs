//! Level generation by binary space partitioning.
//!
//! The grid is cut into partitions by a tree of splits whose orientation
//! alternates from one level to the next. A split leaves both halves at least
//! a minimum wide along the cut, beside a corridor between them. Two passes
//! with different minimums grow the same tree: the first lays out sections
//! with corridors between them, the second cuts the sections into rooms.
//! Each final partition is then walled in, but for one door in a column and
//! one in a row.

use crate::grid::step;
use crate::grid::Direction;
use crate::grid::Grid;
use crate::random::draw_below;
use crate::random::draw_bool;
use crate::random::draw_through;
use rand::rngs::StdRng;
use vstd::prelude::*;

verus! {

/// Width of the corridor that a split of the first pass leaves between its
/// halves.
pub const HALL_WIDTH: usize = 2;

/// A node of the partition tree: the rectangle of columns `x1..x2` and rows
/// `y1..y2`, split into two children or not.
#[derive(Debug, PartialEq, Eq)]
pub struct Leaf {
    pub x1: usize,
    pub y1: usize,
    pub x2: usize,
    pub y2: usize,
    pub is_leaf: bool,
    pub left_child: Option<Box<Leaf>>,
    pub right_child: Option<Box<Leaf>>,
}

impl Leaf {
    /// The leaf with the given rectangle.
    pub open spec fn fresh(x1: usize, y1: usize, x2: usize, y2: usize) -> Leaf {
        Leaf { x1, y1, x2, y2, is_leaf: true, left_child: None, right_child: None }
    }

    /// Where the rectangle begins along the axis that a split cuts.
    pub open spec fn low(self, vertical: bool) -> int {
        if vertical {
            self.x1 as int
        } else {
            self.y1 as int
        }
    }

    /// Where the rectangle ends along the axis that a split cuts.
    pub open spec fn high(self, vertical: bool) -> int {
        if vertical {
            self.x2 as int
        } else {
            self.y2 as int
        }
    }

    /// Size of the rectangle along the axis that a split cuts.
    pub open spec fn extent(self, vertical: bool) -> int {
        self.high(vertical) - self.low(vertical)
    }

    /// Whether two nodes have the same rectangle.
    pub open spec fn same_rect(self, other: Leaf) -> bool {
        self.x1 == other.x1 && self.y1 == other.y1 && self.x2 == other.x2 && self.y2 == other.y2
    }

    /// Number of splits on the longest way down from this node.
    pub open spec fn depth(self) -> nat
        decreases self,
    {
        if self.left_child is Some && self.right_child is Some {
            let l = self.left_child->0.depth();
            let r = self.right_child->0.depth();
            if l >= r {
                l + 1
            } else {
                r + 1
            }
        } else {
            0
        }
    }

    /// Throughout the tree the rectangles are not inverted, and a node is
    /// marked as a leaf exactly when it has no children.
    pub open spec fn wf(self) -> bool
        decreases self,
    {
        &&& self.x1 <= self.x2
        &&& self.y1 <= self.y2
        &&& if self.is_leaf {
            self.left_child is None && self.right_child is None
        } else {
            &&& self.left_child is Some
            &&& self.right_child is Some
            &&& self.left_child->0.wf()
            &&& self.right_child->0.wf()
        }
    }

    /// Whether a leaf with this rectangle is to be split: there is room for
    /// two halves of `min_size` and the corridor between them.
    pub open spec fn splittable(self, vertical: bool, min_size: int, hall_width: int) -> bool {
        self.extent(vertical) >= 2 * min_size + hall_width
    }

    /// Whether the children are the halves that a cut leaves which keeps
    /// both at least `min_size` wide. The left one ends at the cut; the right
    /// one begins `hall_width` after it.
    pub open spec fn halved(self, vertical: bool, min_size: int, hall_width: int) -> bool {
        let l = *self.left_child->0;
        let r = *self.right_child->0;
        let cut = l.high(vertical);
        &&& self.left_child is Some
        &&& self.right_child is Some
        &&& self.low(vertical) + min_size <= cut <= self.high(vertical) - hall_width - min_size
        &&& l.low(vertical) == self.low(vertical)
        &&& r.low(vertical) == cut + hall_width
        &&& r.high(vertical) == self.high(vertical)
        &&& l.low(!vertical) == self.low(!vertical)
        &&& l.high(!vertical) == self.high(!vertical)
        &&& r.low(!vertical) == self.low(!vertical)
        &&& r.high(!vertical) == self.high(!vertical)
    }

    /// Whether this tree is what one pass of splitting makes of `before`:
    /// the rectangles and the splits of `before` are kept, and below each of
    /// its leaves stands all that the pass grows there. A leaf that is
    /// splittable along its orientation is halved, and its halves are
    /// treated alike with the other orientation; one that is not stays a
    /// leaf.
    pub open spec fn refines(
        self,
        before: Leaf,
        vertical: bool,
        min_size: int,
        hall_width: int,
    ) -> bool
        decreases self,
    {
        &&& self.same_rect(before)
        &&& if !before.is_leaf {
            &&& !self.is_leaf
            &&& self.left_child is Some
            &&& self.right_child is Some
            &&& before.left_child is Some
            &&& before.right_child is Some
            &&& self.left_child->0.refines(*before.left_child->0, !vertical, min_size, hall_width)
            &&& self.right_child->0.refines(*before.right_child->0, !vertical, min_size, hall_width)
        } else if before.splittable(vertical, min_size, hall_width) {
            let l = *self.left_child->0;
            let r = *self.right_child->0;
            &&& !self.is_leaf
            &&& self.halved(vertical, min_size, hall_width)
            &&& l.refines(Leaf::fresh(l.x1, l.y1, l.x2, l.y2), !vertical, min_size, hall_width)
            &&& r.refines(Leaf::fresh(r.x1, r.y1, r.x2, r.y2), !vertical, min_size, hall_width)
        } else {
            self.is_leaf && self.left_child is None && self.right_child is None
        }
    }

    /// Whether every split in the tree left both halves at least `min_size`
    /// wide along the axis it cut, the orientation alternating from
    /// `vertical` at this node.
    pub open spec fn floor_kept(self, vertical: bool, min_size: int) -> bool
        decreases self,
    {
        self.left_child is Some && self.right_child is Some ==> {
            &&& self.left_child->0.extent(vertical) >= min_size
            &&& self.right_child->0.extent(vertical) >= min_size
            &&& self.left_child->0.floor_kept(!vertical, min_size)
            &&& self.right_child->0.floor_kept(!vertical, min_size)
        }
    }

    /// Whether every leaf of the tree is a rectangle of at least one cell
    /// within a grid of `width` columns and `length` rows.
    pub open spec fn leaves_fit(self, width: int, length: int) -> bool
        decreases self,
    {
        if self.left_child is Some && self.right_child is Some {
            self.left_child->0.leaves_fit(width, length) && self.right_child->0.leaves_fit(
                width,
                length,
            )
        } else {
            self.x1 < self.x2 <= width && self.y1 < self.y2 <= length
        }
    }

    /// Whether `p` is a cell of the rectangle that lies on its border
    /// towards `d`.
    pub open spec fn edge_cell(self, p: (int, int), d: Direction) -> bool {
        &&& self.x1 <= p.0 < self.x2
        &&& self.y1 <= p.1 < self.y2
        &&& match d {
            Direction::North => p.1 == self.y1,
            Direction::East => p.0 == self.x2 - 1,
            Direction::South => p.1 == self.y2 - 1,
            Direction::West => p.0 == self.x1,
        }
    }

    /// Whether the side of `q` towards `e` lies on the border of the
    /// rectangle, seen from the cell inside or from the one outside.
    pub open spec fn on_border(self, q: (int, int), e: Direction) -> bool {
        self.edge_cell(q, e) || self.edge_cell(step(q, e), e.spec_opposite())
    }

    /// Whether carving with doors in column `door_col` and row `door_row`
    /// closes the side of `q` towards `e`, once the columns before `ci` and
    /// the rows before `cj` are done.
    pub open spec fn walls_upto(
        self,
        door_col: int,
        door_row: int,
        ci: int,
        cj: int,
        q: (int, int),
        e: Direction,
    ) -> bool {
        self.on_border(q, e) && !in_door_line(door_col, door_row, q, e) && reached(ci, cj, q, e)
    }

    /// Whether carving with doors in column `door_col` and row `door_row`
    /// marks a door on the side of `q` towards `e`, once the columns before
    /// `ci` and the rows before `cj` are done.
    pub open spec fn doors_upto(
        self,
        door_col: int,
        door_row: int,
        ci: int,
        cj: int,
        q: (int, int),
        e: Direction,
    ) -> bool {
        self.on_border(q, e) && in_door_line(door_col, door_row, q, e) && reached(ci, cj, q, e)
    }

    /// Whether `after` is `before` with the columns before `ci` and the rows
    /// before `cj` of the rectangle's border carved.
    pub open spec fn carved_upto(
        self,
        before: Grid,
        after: Grid,
        door_col: int,
        door_row: int,
        ci: int,
        cj: int,
    ) -> bool {
        &&& after.wf()
        &&& after.width == before.width
        &&& after.length == before.length
        &&& forall|q: (int, int), e: Direction| #[trigger]
            after.side_open(q, e) == (before.side_open(q, e) && !self.walls_upto(
                door_col,
                door_row,
                ci,
                cj,
                q,
                e,
            ))
        &&& forall|q: (int, int), e: Direction| #[trigger]
            after.side_door(q, e) == (before.side_door(q, e) || (after.in_bounds(q)
                && self.doors_upto(door_col, door_row, ci, cj, q, e)))
    }

    /// Whether `after` is `before` with this rectangle walled in: every side
    /// on its border is closed, on the cell inside and on the cell outside,
    /// but those in column `door_col` that face north or south and those in
    /// row `door_row` that face east or west, which are marked as doors and
    /// otherwise left as they were. Nothing else differs.
    pub open spec fn carved(self, before: Grid, after: Grid, door_col: int, door_row: int) -> bool {
        self.carved_upto(before, after, door_col, door_row, self.x2 as int, self.y2 as int)
    }

    /// Whether `after` is what walling in the leaves of this tree, the left
    /// subtree before the right one, makes of `before`, each leaf with a door
    /// column and a door row of its own.
    pub open spec fn built(self, before: Grid, after: Grid) -> bool
        decreases self,
    {
        if self.left_child is Some && self.right_child is Some {
            exists|mid: Grid|
                #![trigger mid.wf()]
                mid.wf() && self.left_child->0.built(before, mid) && self.right_child->0.built(
                    mid,
                    after,
                )
        } else {
            exists|door_col: int, door_row: int|
                self.x1 <= door_col < self.x2 && self.y1 <= door_row < self.y2
                    && #[trigger] self.carved(before, after, door_col, door_row)
        }
    }

    /// A leaf with the given rectangle.
    pub fn new(x1: usize, y1: usize, x2: usize, y2: usize) -> (leaf: Leaf)
        ensures
            leaf == Leaf::fresh(x1, y1, x2, y2),
    {
        Leaf { x1, y1, x2, y2, is_leaf: true, left_child: None, right_child: None }
    }

    /// Whether a leaf with this rectangle is to be split.
    pub fn can_split(&self, vertical: bool, min_size: usize, hall_width: usize) -> (b: bool)
        requires
            self.x1 <= self.x2,
            self.y1 <= self.y2,
        ensures
            b == self.splittable(vertical, min_size as int, hall_width as int),
    {
        let extent = if vertical {
            self.x2 - self.x1
        } else {
            self.y2 - self.y1
        };
        extent >= hall_width && (extent - hall_width) / 2 >= min_size
    }

    /// Splits this leaf at `cut`: the left child ends there, and the right
    /// one begins `hall_width` further on.
    pub fn split(&mut self, vertical: bool, cut: usize, hall_width: usize)
        requires
            old(self).is_leaf,
            old(self).wf(),
            old(self).low(vertical) <= cut,
            cut + hall_width <= old(self).high(vertical),
        ensures
            final(self).same_rect(*old(self)),
            !final(self).is_leaf,
            final(self).left_child == Some(
                Box::new(
                    if vertical {
                        Leaf::fresh(old(self).x1, old(self).y1, cut, old(self).y2)
                    } else {
                        Leaf::fresh(old(self).x1, old(self).y1, old(self).x2, cut)
                    },
                ),
            ),
            final(self).right_child == Some(
                Box::new(
                    if vertical {
                        Leaf::fresh(
                            (cut + hall_width) as usize,
                            old(self).y1,
                            old(self).x2,
                            old(self).y2,
                        )
                    } else {
                        Leaf::fresh(
                            old(self).x1,
                            (cut + hall_width) as usize,
                            old(self).x2,
                            old(self).y2,
                        )
                    },
                ),
            ),
            final(self).wf(),
    {
        let left_child;
        let right_child;
        if vertical {
            left_child = Leaf::new(self.x1, self.y1, cut, self.y2);
            right_child = Leaf::new(cut + hall_width, self.y1, self.x2, self.y2);
        } else {
            left_child = Leaf::new(self.x1, self.y1, self.x2, cut);
            right_child = Leaf::new(self.x1, cut + hall_width, self.x2, self.y2);
        }
        assert(left_child.wf() && right_child.wf());
        self.is_leaf = false;
        self.left_child = Some(Box::new(left_child));
        self.right_child = Some(Box::new(right_child));
    }
}

/// Whether the side of `q` towards `e` lies in the door column, if it faces
/// north or south, or in the door row, if it faces east or west.
pub open spec fn in_door_line(door_col: int, door_row: int, q: (int, int), e: Direction) -> bool {
    match e {
        Direction::North | Direction::South => q.0 == door_col,
        Direction::East | Direction::West => q.1 == door_row,
    }
}

/// Whether the side of `q` towards `e` lies in a column before `ci`, if it
/// faces north or south, or in a row before `cj`, if it faces east or west.
pub open spec fn reached(ci: int, cj: int, q: (int, int), e: Direction) -> bool {
    match e {
        Direction::North | Direction::South => q.0 < ci,
        Direction::East | Direction::West => q.1 < cj,
    }
}

/// Grows the tree under `parent` by one pass of splitting: every leaf that
/// has room for two halves of `min_size` and a corridor of `hall_width`
/// along its orientation is cut at a random place that leaves that room, and
/// its halves are treated alike with the other orientation.
pub fn create_rooms(
    parent: &mut Leaf,
    vertical: bool,
    min_size: usize,
    hall_width: usize,
    rng: &mut StdRng,
)
    requires
        old(parent).wf(),
        min_size >= 1,
    ensures
        final(parent).wf(),
        final(parent).refines(*old(parent), vertical, min_size as int, hall_width as int),
    decreases old(parent).depth(), old(parent).extent(true) + old(parent).extent(false),
{
    if parent.is_leaf {
        if !parent.can_split(vertical, min_size, hall_width) {
            return ;
        }
        let cut_pos = if vertical {
            draw_through(rng, parent.x1 + min_size, parent.x2 - hall_width - min_size)
        } else {
            draw_through(rng, parent.y1 + min_size, parent.y2 - hall_width - min_size)
        };
        parent.split(vertical, cut_pos, hall_width);
    }
    match &mut parent.left_child {
        Some(child) => {
            create_rooms(&mut **child, !vertical, min_size, hall_width, rng);
        },
        None => {},
    }
    match &mut parent.right_child {
        Some(child) => {
            create_rooms(&mut **child, !vertical, min_size, hall_width, rng);
        },
        None => {},
    }
}

/// Walls in the rectangle of `leaf` on `map`, with doors in column
/// `door_col` and row `door_row`.
pub fn carve_leaf(leaf: &Leaf, map: &mut Grid, door_col: usize, door_row: usize)
    requires
        old(map).wf(),
        leaf.x1 < leaf.x2 <= old(map).width,
        leaf.y1 < leaf.y2 <= old(map).length,
    ensures
        leaf.carved(*old(map), *final(map), door_col as int, door_row as int),
{
    let ghost before = *map;
    let ghost dc = door_col as int;
    let ghost dr = door_row as int;
    let mut i: usize = leaf.x1;
    while i < leaf.x2
        invariant
            leaf.x1 <= i <= leaf.x2,
            leaf.x1 < leaf.x2 <= before.width,
            leaf.y1 < leaf.y2 <= before.length,
            dc == door_col,
            leaf.carved_upto(before, *map, dc, dr, i as int, leaf.y1 as int),
        decreases leaf.x2 - i,
    {
        let ghost at_top = (i as int, leaf.y1 as int);
        let ghost at_bottom = (i as int, leaf.y2 - 1);
        let ghost prev = *map;
        if i != door_col {
            map.close_wall(i, leaf.y1, Direction::North);
            map.close_wall(i, leaf.y2 - 1, Direction::South);
        } else {
            map.door_wall(i, leaf.y1, Direction::North);
            map.door_wall(i, leaf.y2 - 1, Direction::South);
        }
        proof {
            assert forall|q: (int, int), e: Direction|
                (Grid::same_wall(at_top, Direction::North, q, e) || Grid::same_wall(
                    at_bottom,
                    Direction::South,
                    q,
                    e,
                )) == (leaf.on_border(q, e) && reached(i + 1, leaf.y1 as int, q, e) && !reached(
                    i as int,
                    leaf.y1 as int,
                    q,
                    e,
                )) by {}
            assert forall|q: (int, int), e: Direction| #[trigger]
                map.side_open(q, e) == (before.side_open(q, e) && !leaf.walls_upto(
                    dc,
                    dr,
                    i + 1,
                    leaf.y1 as int,
                    q,
                    e,
                )) by {
                assert(prev.side_open(q, e) == (before.side_open(q, e) && !leaf.walls_upto(
                    dc,
                    dr,
                    i as int,
                    leaf.y1 as int,
                    q,
                    e,
                )));
            }
            assert forall|q: (int, int), e: Direction| #[trigger]
                map.side_door(q, e) == (before.side_door(q, e) || (map.in_bounds(q)
                    && leaf.doors_upto(dc, dr, i + 1, leaf.y1 as int, q, e))) by {
                assert(prev.side_door(q, e) == (before.side_door(q, e) || (prev.in_bounds(q)
                    && leaf.doors_upto(dc, dr, i as int, leaf.y1 as int, q, e))));
            }
        }
        i += 1;
    }
    let mut j: usize = leaf.y1;
    while j < leaf.y2
        invariant
            leaf.y1 <= j <= leaf.y2,
            leaf.x1 < leaf.x2 <= before.width,
            leaf.y1 < leaf.y2 <= before.length,
            dr == door_row,
            leaf.carved_upto(before, *map, dc, dr, leaf.x2 as int, j as int),
        decreases leaf.y2 - j,
    {
        let ghost at_left = (leaf.x1 as int, j as int);
        let ghost at_right = (leaf.x2 - 1, j as int);
        let ghost prev = *map;
        if j != door_row {
            map.close_wall(leaf.x1, j, Direction::West);
            map.close_wall(leaf.x2 - 1, j, Direction::East);
        } else {
            map.door_wall(leaf.x1, j, Direction::West);
            map.door_wall(leaf.x2 - 1, j, Direction::East);
        }
        proof {
            assert forall|q: (int, int), e: Direction|
                (Grid::same_wall(at_left, Direction::West, q, e) || Grid::same_wall(
                    at_right,
                    Direction::East,
                    q,
                    e,
                )) == (leaf.on_border(q, e) && reached(leaf.x2 as int, j + 1, q, e) && !reached(
                    leaf.x2 as int,
                    j as int,
                    q,
                    e,
                )) by {}
            assert forall|q: (int, int), e: Direction| #[trigger]
                map.side_open(q, e) == (before.side_open(q, e) && !leaf.walls_upto(
                    dc,
                    dr,
                    leaf.x2 as int,
                    j + 1,
                    q,
                    e,
                )) by {
                assert(prev.side_open(q, e) == (before.side_open(q, e) && !leaf.walls_upto(
                    dc,
                    dr,
                    leaf.x2 as int,
                    j as int,
                    q,
                    e,
                )));
            }
            assert forall|q: (int, int), e: Direction| #[trigger]
                map.side_door(q, e) == (before.side_door(q, e) || (map.in_bounds(q)
                    && leaf.doors_upto(dc, dr, leaf.x2 as int, j + 1, q, e))) by {
                assert(prev.side_door(q, e) == (before.side_door(q, e) || (prev.in_bounds(q)
                    && leaf.doors_upto(dc, dr, leaf.x2 as int, j as int, q, e))));
            }
        }
        j += 1;
    }
}

/// Walls in every leaf of the tree on `map`, the left subtree before the
/// right one. Each leaf gets a door in a random column and one in a random
/// row of its own.
pub fn build_map(leaf: &Leaf, map: &mut Grid, rng: &mut StdRng)
    requires
        leaf.wf(),
        leaf.leaves_fit(old(map).width as int, old(map).length as int),
        old(map).wf(),
    ensures
        leaf.built(*old(map), *final(map)),
        final(map).wf(),
        final(map).width == old(map).width,
        final(map).length == old(map).length,
    decreases leaf,
{
    if !leaf.is_leaf {
        match &leaf.left_child {
            Some(child) => {
                build_map(child, map, rng);
            },
            None => {},
        }
        let ghost mid = *map;
        match &leaf.right_child {
            Some(child) => {
                build_map(child, map, rng);
            },
            None => {},
        }
        assert(mid.wf() && leaf.left_child->0.built(*old(map), mid) && leaf.right_child->0.built(
            mid,
            *map,
        ));
        return ;
    }
    let door_col = draw_below(rng, leaf.x1, leaf.x2);
    let door_row = draw_below(rng, leaf.y1, leaf.y2);
    carve_leaf(leaf, map, door_col, door_row);
    assert(leaf.carved(*old(map), *map, door_col as int, door_row as int));
}

/// Walling in a rectangle keeps what holds of a level: sides are closed and
/// never opened, doors are marked and never removed, and neighbours that
/// agreed on the side they share still agree.
pub proof fn lemma_carved_keeps(leaf: Leaf, before: Grid, after: Grid, door_col: int, door_row: int)
    requires
        leaf.carved(before, after, door_col, door_row),
    ensures
        after.wf(),
        after.width == before.width,
        after.length == before.length,
        forall|q: (int, int), e: Direction| #[trigger]
            after.side_open(q, e) ==> before.side_open(q, e),
        forall|q: (int, int), e: Direction| #[trigger]
            before.side_door(q, e) ==> after.side_door(q, e),
        before.boundary_closed() ==> after.boundary_closed(),
        before.symmetric() ==> after.symmetric(),
        before.doors_symmetric() ==> after.doors_symmetric(),
{
    let ci = leaf.x2 as int;
    let cj = leaf.y2 as int;
    assert forall|q: (int, int), e: Direction|
        leaf.walls_upto(door_col, door_row, ci, cj, q, e) == leaf.walls_upto(
            door_col,
            door_row,
            ci,
            cj,
            step(q, e),
            e.spec_opposite(),
        ) by {}
    assert forall|q: (int, int), e: Direction|
        leaf.doors_upto(door_col, door_row, ci, cj, q, e) == leaf.doors_upto(
            door_col,
            door_row,
            ci,
            cj,
            step(q, e),
            e.spec_opposite(),
        ) by {}
    if before.boundary_closed() {
        assert forall|p: (int, int), d: Direction|
            after.in_bounds(p) && !after.in_bounds(step(p, d)) implies !#[trigger] after.side_open(
            p,
            d,
        ) by {
            assert(!before.side_open(p, d));
        }
    }
    if before.symmetric() {
        assert forall|p: (int, int), d: Direction|
            after.in_bounds(p) && after.in_bounds(step(p, d)) implies (#[trigger] after.side_open(
            p,
            d,
        ) == after.side_open(step(p, d), d.spec_opposite())) by {
            assert(before.side_open(p, d) == before.side_open(step(p, d), d.spec_opposite()));
        }
    }
    if before.doors_symmetric() {
        assert forall|p: (int, int), d: Direction|
            after.in_bounds(p) && after.in_bounds(step(p, d)) implies (#[trigger] after.side_door(
            p,
            d,
        ) == after.side_door(step(p, d), d.spec_opposite())) by {
            assert(before.side_door(p, d) == before.side_door(step(p, d), d.spec_opposite()));
        }
    }
}

/// Walling in the leaves of a tree keeps what holds of a level: sides are
/// closed and never opened, doors are marked and never removed, and
/// neighbours that agreed on the side they share still agree.
pub proof fn lemma_built_keeps(tree: Leaf, before: Grid, after: Grid)
    requires
        tree.built(before, after),
    ensures
        after.wf(),
        after.width == before.width,
        after.length == before.length,
        forall|q: (int, int), e: Direction| #[trigger]
            after.side_open(q, e) ==> before.side_open(q, e),
        forall|q: (int, int), e: Direction| #[trigger]
            before.side_door(q, e) ==> after.side_door(q, e),
        before.boundary_closed() ==> after.boundary_closed(),
        before.symmetric() ==> after.symmetric(),
        before.doors_symmetric() ==> after.doors_symmetric(),
    decreases tree,
{
    if tree.left_child is Some && tree.right_child is Some {
        let mid = choose|mid: Grid|
            #![trigger mid.wf()]
            mid.wf() && tree.left_child->0.built(before, mid) && tree.right_child->0.built(
                mid,
                after,
            );
        lemma_built_keeps(*tree.left_child->0, before, mid);
        lemma_built_keeps(*tree.right_child->0, mid, after);
        assert forall|q: (int, int), e: Direction| #[trigger]
            after.side_open(q, e) implies before.side_open(q, e) by {
            assert(mid.side_open(q, e));
        }
        assert forall|q: (int, int), e: Direction| #[trigger]
            before.side_door(q, e) implies after.side_door(q, e) by {
            assert(mid.side_door(q, e));
        }
    } else {
        let (door_col, door_row) = choose|door_col: int, door_row: int|
            tree.x1 <= door_col < tree.x2 && tree.y1 <= door_row < tree.y2
                && #[trigger] tree.carved(before, after, door_col, door_row);
        lemma_carved_keeps(tree, before, after, door_col, door_row);
    }
}

/// A pass of splitting leaves every leaf with at least one cell, within
/// the same grid as before.
pub proof fn lemma_refines_fit(
    tree: Leaf,
    before: Leaf,
    vertical: bool,
    min_size: int,
    hall_width: int,
    width: int,
    length: int,
)
    requires
        tree.refines(before, vertical, min_size, hall_width),
        before.wf(),
        before.leaves_fit(width, length),
        min_size >= 1,
        hall_width >= 0,
    ensures
        tree.leaves_fit(width, length),
    decreases tree,
{
    if !before.is_leaf {
        lemma_refines_fit(
            *tree.left_child->0,
            *before.left_child->0,
            !vertical,
            min_size,
            hall_width,
            width,
            length,
        );
        lemma_refines_fit(
            *tree.right_child->0,
            *before.right_child->0,
            !vertical,
            min_size,
            hall_width,
            width,
            length,
        );
    } else if before.splittable(vertical, min_size, hall_width) {
        let l = *tree.left_child->0;
        let r = *tree.right_child->0;
        lemma_refines_fit(
            l,
            Leaf::fresh(l.x1, l.y1, l.x2, l.y2),
            !vertical,
            min_size,
            hall_width,
            width,
            length,
        );
        lemma_refines_fit(
            r,
            Leaf::fresh(r.x1, r.y1, r.x2, r.y2),
            !vertical,
            min_size,
            hall_width,
            width,
            length,
        );
    }
}

/// A pass splits a leaf exactly if the leaf has room for two halves of the
/// minimum and the corridor between them, and then both halves are at least
/// the minimum wide along the axis of the cut.
pub proof fn lemma_split_keeps_minimum(
    tree: Leaf,
    before: Leaf,
    vertical: bool,
    min_size: int,
    hall_width: int,
)
    requires
        before.is_leaf,
        tree.refines(before, vertical, min_size, hall_width),
    ensures
        !tree.is_leaf <==> before.splittable(vertical, min_size, hall_width),
        !tree.is_leaf ==> {
            &&& tree.left_child is Some
            &&& tree.right_child is Some
            &&& tree.left_child->0.extent(vertical) >= min_size
            &&& tree.right_child->0.extent(vertical) >= min_size
        },
{
}

/// No split of a pass leaves a half smaller than the pass's minimum along
/// the axis it cuts: a tree that kept a floor of `floor` before the pass
/// keeps it afterwards, if the minimum of the pass is no lower.
pub proof fn lemma_refines_keeps_floor(
    tree: Leaf,
    before: Leaf,
    vertical: bool,
    min_size: int,
    hall_width: int,
    floor: int,
)
    requires
        tree.refines(before, vertical, min_size, hall_width),
        before.wf(),
        before.floor_kept(vertical, floor),
        floor <= min_size,
        min_size >= 0,
        hall_width >= 0,
    ensures
        tree.floor_kept(vertical, floor),
    decreases tree,
{
    reveal_with_fuel(Leaf::refines, 2);
    if !before.is_leaf {
        lemma_refines_keeps_floor(
            *tree.left_child->0,
            *before.left_child->0,
            !vertical,
            min_size,
            hall_width,
            floor,
        );
        lemma_refines_keeps_floor(
            *tree.right_child->0,
            *before.right_child->0,
            !vertical,
            min_size,
            hall_width,
            floor,
        );
    } else if before.splittable(vertical, min_size, hall_width) {
        let l = *tree.left_child->0;
        let r = *tree.right_child->0;
        lemma_refines_keeps_floor(
            l,
            Leaf::fresh(l.x1, l.y1, l.x2, l.y2),
            !vertical,
            min_size,
            hall_width,
            floor,
        );
        lemma_refines_keeps_floor(
            r,
            Leaf::fresh(r.x1, r.y1, r.x2, r.y2),
            !vertical,
            min_size,
            hall_width,
            floor,
        );
    }
}

/// Whether `map` is a level of `width` columns and `length` rows generated
/// with the given minimums: `sections` is what the first pass, with
/// corridors, makes of the whole rectangle, `rooms` is what the second pass
/// makes of `sections`, and `map` is the blank grid with the leaves of
/// `rooms` walled in.
pub open spec fn generated(
    width: usize,
    length: usize,
    min_section_size: usize,
    min_room_size: usize,
    vertical: bool,
    sections: Leaf,
    rooms: Leaf,
    blank: Grid,
    map: Grid,
) -> bool {
    &&& sections.refines(
        Leaf::fresh(0, 0, width, length),
        vertical,
        min_section_size as int,
        HALL_WIDTH as int,
    )
    &&& rooms.refines(sections, vertical, min_room_size as int, 0)
    &&& blank.is_blank()
    &&& blank.width == width
    &&& blank.length == length
    &&& rooms.built(blank, map)
}

/// Generates a level of `level_width` columns and `level_length` rows.
///
/// The orientation of the first split is random. The first pass splits with
/// `min_section_size` and leaves corridors of [`HALL_WIDTH`]; the second
/// splits what it left with `min_room_size` and no corridor. The leaves are
/// then walled in on a grid whose inner sides are all open. A minimum that
/// the grid has no room for leaves it one open room.
pub fn generate_level(
    level_width: usize,
    level_length: usize,
    min_section_size: usize,
    min_room_size: usize,
    rng: &mut StdRng,
) -> (map: Grid)
    requires
        level_width >= 1,
        level_length >= 1,
        level_width * level_length <= usize::MAX,
        min_section_size >= 1,
        min_room_size >= 1,
    ensures
        map.wf(),
        map.width == level_width,
        map.length == level_length,
        map.boundary_closed(),
        map.symmetric(),
        map.doors_symmetric(),
        exists|vertical: bool, sections: Leaf, rooms: Leaf, blank: Grid| #[trigger]
            generated(
                level_width,
                level_length,
                min_section_size,
                min_room_size,
                vertical,
                sections,
                rooms,
                blank,
                map,
            ),
{
    let mut root = Leaf::new(0, 0, level_width, level_length);
    let ghost whole = root;
    let start_vertical = draw_bool(rng);
    create_rooms(&mut root, start_vertical, min_section_size, HALL_WIDTH, rng);
    let ghost sections = root;
    create_rooms(&mut root, start_vertical, min_room_size, 0, rng);
    let mut map = Grid::blank(level_width, level_length);
    let ghost blank = map;
    proof {
        assert(whole.wf());
        lemma_refines_fit(
            sections,
            whole,
            start_vertical,
            min_section_size as int,
            HALL_WIDTH as int,
            level_width as int,
            level_length as int,
        );
        lemma_refines_fit(
            root,
            sections,
            start_vertical,
            min_room_size as int,
            0,
            level_width as int,
            level_length as int,
        );
    }
    build_map(&root, &mut map, rng);
    proof {
        assert(blank.boundary_closed());
        assert(blank.symmetric());
        assert(blank.doors_symmetric());
        lemma_built_keeps(root, blank, map);
        assert(generated(
            level_width,
            level_length,
            min_section_size,
            min_room_size,
            start_vertical,
            sections,
            root,
            blank,
            map,
        ));
    }
    map
}

} // verus!
