//! The navigation grid of a level: which cells can be walked on, and in
//! which of the eight compass directions each cell is connected.

use crate::flow::{Flow, has_direction, lemma_mask_empty, lemma_mask_insert, neighbor_of};
use crate::grid::{
    flag_cells, flags_filled, flags_get, flags_put, Grid, in_shape, mask_cells, masks_filled,
    masks_get, masks_put, MAX_CELLS,
};
use vstd::prelude::*;

verus! {

/// The largest number of cells along one side of a navigation grid, border included.
pub const MAX_SIDE: usize = 4096;

/// Why a navigation grid could not be built.
#[derive(Clone, Copy, Debug, PartialEq, Eq, Structural)]
pub enum NavGridError {
    /// The level has more cells along a side than `MAX_SIDE` allows.
    TooLarge,
}

/// What a navigation grid is, as mathematics: a square of `side` by `side`
/// cells, a flag per cell and a connectivity mask per cell.
pub struct NavModel {
    pub side: int,
    pub walkable: Map<(int, int), bool>,
    pub masks: Map<(int, int), u8>,
}

impl NavModel {
    /// The cell lies in the grid.
    pub open spec fn contains(self, p: (int, int)) -> bool {
        in_shape(self.side, self.side, p)
    }

    /// The cell lies in the grid and not on its outermost ring.
    pub open spec fn interior(self, p: (int, int)) -> bool {
        1 <= p.0 < self.side - 1 && 1 <= p.1 < self.side - 1
    }

    /// A step against `flow` from the interior cell `p` stays on walkable
    /// ground: the cell it leads to is walkable, and for a diagonal step so
    /// are the two cells beside the corner that is cut.
    pub open spec fn open_toward(self, p: (int, int), flow: Flow) -> bool {
        let n = neighbor_of(p, flow);
        &&& self.walkable[n]
        &&& flow.is_diagonal() ==> self.walkable[(p.0, n.1)] && self.walkable[(n.0, p.1)]
    }

    /// The two grids have the same square shape, the border ring is closed,
    /// and every mask says exactly which steps are open.
    pub open spec fn wf(self) -> bool {
        &&& 2 <= self.side <= MAX_SIDE
        &&& forall|p: (int, int)| self.walkable.dom().contains(p) <==> #[trigger] self.contains(p)
        &&& forall|p: (int, int)| self.masks.dom().contains(p) <==> #[trigger] self.contains(p)
        &&& forall|p: (int, int)|
            #[trigger] self.contains(p) && !self.interior(p) ==> !self.walkable[p] && self.masks[p]
                == 0
        &&& forall|p: (int, int), flow: Flow|
            self.interior(p) && flow.is_compass() ==> (#[trigger] has_direction(
                self.masks[p],
                flow,
            ) <==> self.open_toward(p, flow))
    }

    /// An agent may step from `neighbor_of(p, flow)` to `p`, following `flow`:
    /// the mask of `p` has the bit of `flow`.
    pub open spec fn linked(self, p: (int, int), flow: Flow) -> bool {
        self.contains(p) && flow.is_compass() && has_direction(self.masks[p], flow)
    }
}

/// Only interior cells have links, and a link leads to a cell of the grid.
pub proof fn lemma_linked_interior(nav: NavModel, p: (int, int), flow: Flow)
    requires
        nav.wf(),
        nav.linked(p, flow),
    ensures
        nav.interior(p),
        nav.contains(neighbor_of(p, flow)),
        nav.walkable[neighbor_of(p, flow)],
{
    if !nav.interior(p) {
        lemma_mask_empty(flow);
    }
}

/// The number of samples, less one, taken along the line from `s` to `e`:
/// the larger of the two coordinate differences.
pub open spec fn ray_steps(s: (int, int), e: (int, int)) -> int {
    let dx = if e.0 >= s.0 {
        e.0 - s.0
    } else {
        s.0 - e.0
    };
    let dy = if e.1 >= s.1 {
        e.1 - s.1
    } else {
        s.1 - e.1
    };
    if dx >= dy {
        dx
    } else {
        dy
    }
}

/// One coordinate of the `k`-th of `steps` equal parts of the way from `s` to
/// `e`, rounded to the nearest whole number, halves upwards.
pub open spec fn ray_coordinate(s: int, e: int, steps: int, k: int) -> int {
    (2 * (s * steps + k * (e - s)) + steps) / (2 * steps)
}

/// The cell of the `k`-th sample on the line from `s` to `e`.
pub open spec fn ray_cell(s: (int, int), e: (int, int), k: int) -> (int, int) {
    let steps = ray_steps(s, e);
    if steps == 0 {
        s
    } else {
        (ray_coordinate(s.0, e.0, steps, k), ray_coordinate(s.1, e.1, steps, k))
    }
}

impl NavModel {
    /// Every sample on the line from `s` to `e` falls on a walkable cell.
    pub open spec fn ray_clear(self, s: (int, int), e: (int, int)) -> bool {
        forall|k: int|
            0 <= k <= ray_steps(s, e) ==> self.walkable.dom().contains(#[trigger] ray_cell(s, e, k))
                && self.walkable[ray_cell(s, e, k)]
    }
}

/// How many rings of cells lie between two cells: the larger of the two
/// coordinate differences.
pub open spec fn ring_distance(a: (int, int), b: (int, int)) -> int {
    ray_steps(a, b)
}

/// `a` is `b` or comes before it when cells are read column by column.
pub open spec fn comes_first(a: (int, int), b: (int, int)) -> bool {
    a.0 < b.0 || (a.0 == b.0 && a.1 <= b.1)
}

/// The cell of the grid that lies nearest to the index `p`.
pub open spec fn clamped(side: int, p: (int, int)) -> (int, int) {
    (
        if p.0 < side {
            p.0
        } else {
            side - 1
        },
        if p.1 < side {
            p.1
        } else {
            side - 1
        },
    )
}

impl NavModel {
    /// `c` is a walkable cell, no walkable cell lies on a nearer ring around
    /// `from`, and of the walkable cells on its own ring `c` is the first: the
    /// one with the least `x`, and among those the one with the least `y`.
    pub open spec fn nearest_walkable(self, from: (int, int), c: (int, int)) -> bool {
        &&& self.contains(c)
        &&& self.walkable[c]
        &&& forall|p: (int, int)|
            self.contains(p) && #[trigger] self.walkable[p] ==> ring_distance(from, c)
                < ring_distance(from, p) || (ring_distance(from, c) == ring_distance(from, p)
                && comes_first(c, p))
    }

    /// The grid has no walkable cell at all.
    pub open spec fn closed(self) -> bool {
        forall|p: (int, int)| self.contains(p) ==> !#[trigger] self.walkable[p]
    }
}

/// The cell that a position falls into. Positions are counted in half cells
/// from the corner of the level; the border ring pushes every index up by one.
/// A position before the border falls into cell zero.
pub open spec fn cell_of_position(h: int) -> int {
    if h < -2 {
        0
    } else {
        h / 2 + 1
    }
}

/// The position of the centre of a cell, in half cells.
pub open spec fn center_of_cell(i: int) -> int {
    2 * i - 1
}

/// The centre of the cell that a position falls into lies in that same cell,
/// no more than half a cell from the position; and the cell of a centre is
/// the cell itself.
pub proof fn lemma_position_round_trip(h: int, i: int)
    requires
        -2 <= h,
        0 <= i,
    ensures
        cell_of_position(center_of_cell(cell_of_position(h))) == cell_of_position(h),
        h <= center_of_cell(cell_of_position(h)) <= h + 1,
        cell_of_position(center_of_cell(i)) == i,
{
}

/// The navigation grid of a level.
///
/// The grid is a square of cells, indexed `[x, y]`. Its outermost ring is a
/// border that is never walkable, so that a search started inside never
/// leaves the grid.
pub struct NavGridInner {
    side: usize,
    walkable: Grid<bool>,
    grid: Grid<u8>,
}

impl View for NavGridInner {
    type V = NavModel;

    closed spec fn view(&self) -> NavModel {
        NavModel {
            side: self.side as int,
            walkable: flag_cells(self.walkable),
            masks: mask_cells(self.grid),
        }
    }
}

/// Whether `cell` occurs in the list `blocked`.
pub open spec fn is_blocked(blocked: Seq<[usize; 2]>, cell: (int, int)) -> bool {
    exists|i: int| 0 <= i < blocked.len() && #[trigger] blocked[i][0] == cell.0 && blocked[i][1] == cell.1
}

impl NavGridInner {
    /// The invariant of the type.
    pub open spec fn wf(&self) -> bool {
        self@.wf()
    }

    /// Builds the grid of a level with `interior` cells along each side, of
    /// which the cells listed in `blocked` are covered by an obstacle.
    ///
    /// One border cell is added on each side. Entries of `blocked` on the
    /// border or outside the grid change nothing.
    pub fn new(interior: usize, blocked: &Vec<[usize; 2]>) -> (r: Result<NavGridInner, NavGridError>)
        ensures
            interior + 2 > MAX_SIDE <==> r is Err,
            r matches Err(e) ==> e == NavGridError::TooLarge,
            r matches Ok(nav) ==> {
                &&& nav.wf()
                &&& nav@.side == interior + 2
                &&& forall|p: (int, int)| nav@.contains(p) ==>
                    (#[trigger] nav@.walkable[p] <==> nav@.interior(p) && !is_blocked(blocked@, p))
            },
    {
        if interior > MAX_SIDE - 2 {
            return Err(NavGridError::TooLarge);
        }
        let side = interior + 2;
        assert(side * side <= MAX_CELLS) by (nonlinear_arith)
            requires
                0 <= side <= 4096,
        ;
        let walkable = open_ground(side, blocked);
        let grid = connect(side, &walkable);
        Ok(NavGridInner { side, walkable, grid })
    }

    /// The number of cells along one side, border included.
    pub fn side(&self) -> (n: usize)
        ensures
            n == self@.side,
    {
        self.side
    }

    /// The walkability flags.
    pub fn walkable(&self) -> (g: &Grid<bool>)
        ensures
            flag_cells(*g) == self@.walkable,
    {
        &self.walkable
    }

    /// The connectivity masks.
    pub fn grid(&self) -> (g: &Grid<u8>)
        ensures
            mask_cells(*g) == self@.masks,
    {
        &self.grid
    }

    /// Whether `idx` is a walkable cell; `false` outside the grid.
    pub fn is_walkable(&self, idx: [usize; 2]) -> (b: bool)
        ensures
            b == (self@.walkable.dom().contains((idx[0] as int, idx[1] as int))
                && self@.walkable[(idx[0] as int, idx[1] as int)]),
    {
        match flags_get(&self.walkable, idx[0], idx[1]) {
            Some(w) => w,
            None => false,
        }
    }

    /// The connectivity mask of `idx`; zero outside the grid.
    pub fn mask_at(&self, idx: [usize; 2]) -> (m: u8)
        ensures
            m == if self@.masks.dom().contains((idx[0] as int, idx[1] as int)) {
                self@.masks[(idx[0] as int, idx[1] as int)]
            } else {
                0
            },
    {
        match masks_get(&self.grid, idx[0], idx[1]) {
            Some(m) => m,
            None => 0,
        }
    }

    /// Whether the straight line from `start` to `end` passes over walkable
    /// cells only. The line is sampled once per cell of its longer extent, both
    /// ends included.
    pub fn raycast_walkable_dda(&self, start: [usize; 2], end: [usize; 2]) -> (b: bool)
        requires
            self.wf(),
            self@.contains((start[0] as int, start[1] as int)),
            self@.contains((end[0] as int, end[1] as int)),
        ensures
            b == self@.ray_clear(
                (start[0] as int, start[1] as int),
                (end[0] as int, end[1] as int),
            ),
    {
        let ghost s = (start[0] as int, start[1] as int);
        let ghost e = (end[0] as int, end[1] as int);
        let dx = if end[0] >= start[0] {
            end[0] - start[0]
        } else {
            start[0] - end[0]
        };
        let dy = if end[1] >= start[1] {
            end[1] - start[1]
        } else {
            start[1] - end[1]
        };
        let steps = if dx >= dy {
            dx
        } else {
            dy
        };
        if steps == 0 {
            let clear = self.is_walkable(start);
            proof {
                assert(ray_cell(s, e, 0) == s);
            }
            return clear;
        }
        let mut k: usize = 0;
        while k <= steps
            invariant
                self.wf(),
                s == (start[0] as int, start[1] as int),
                e == (end[0] as int, end[1] as int),
                self@.contains(s),
                self@.contains(e),
                steps == ray_steps(s, e),
                1 <= steps < MAX_SIDE,
                0 <= k <= steps + 1,
                forall|j: int|
                    0 <= j < k ==> self@.walkable.dom().contains(#[trigger] ray_cell(s, e, j))
                        && self@.walkable[ray_cell(s, e, j)],
            decreases steps + 1 - k,
        {
            let cx = ray_sample(start[0], end[0], steps, k);
            let cy = ray_sample(start[1], end[1], steps, k);
            assert((cx as int, cy as int) == ray_cell(s, e, k as int));
            if !self.is_walkable([cx, cy]) {
                return false;
            }
            k += 1;
        }
        true
    }

    /// The index of the cell that the position `pos` falls into. The position is
    /// given in half cells from the corner of the level, rounded down. The
    /// index may lie outside the grid when the position lies outside the level.
    pub fn pos_to_index(&self, pos: [i64; 2]) -> (idx: [usize; 2])
        ensures
            cell_of_position(pos[0] as int) <= usize::MAX ==> idx[0] == cell_of_position(
                pos[0] as int,
            ),
            cell_of_position(pos[0] as int) > usize::MAX ==> idx[0] == usize::MAX,
            cell_of_position(pos[1] as int) <= usize::MAX ==> idx[1] == cell_of_position(
                pos[1] as int,
            ),
            cell_of_position(pos[1] as int) > usize::MAX ==> idx[1] == usize::MAX,
    {
        [coordinate_to_index(pos[0]), coordinate_to_index(pos[1])]
    }

    /// The position of the centre of the cell `index`, in half cells from the
    /// corner of the level. The position has to fit 64 bits with a sign.
    pub fn index_to_pos(index: [usize; 2]) -> (pos: [i64; 2])
        requires
            center_of_cell(index[0] as int) <= i64::MAX,
            center_of_cell(index[1] as int) <= i64::MAX,
        ensures
            pos[0] == center_of_cell(index[0] as int),
            pos[1] == center_of_cell(index[1] as int),
    {
        [2 * (index[0] as i64 - 1) + 1, 2 * (index[1] as i64 - 1) + 1]
    }

    /// The index moved into the grid: each coordinate is cut off at the last cell.
    pub fn clamp_index(&self, idx: [usize; 2]) -> (c: [usize; 2])
        requires
            self.wf(),
        ensures
            (c[0] as int, c[1] as int) == clamped(self@.side, (idx[0] as int, idx[1] as int)),
            self@.contains((c[0] as int, c[1] as int)),
    {
        let x = if idx[0] < self.side {
            idx[0]
        } else {
            self.side - 1
        };
        let y = if idx[1] < self.side {
            idx[1]
        } else {
            self.side - 1
        };
        [x, y]
    }

    /// The first walkable cell of column `x` between the rows `lo` and `hi`, both included.
    fn scan_column(&self, x: usize, lo: usize, hi: usize) -> (r: Option<usize>)
        requires
            self.wf(),
            x < self@.side,
            hi < self@.side,
        ensures
            r matches Some(y) ==> lo <= y <= hi && self@.walkable[(x as int, y as int)] && forall|
                j: int,
            |
                lo <= j < y ==> !#[trigger] self@.walkable[(x as int, j)],
            r is None ==> forall|y: int| lo <= y <= hi ==> !#[trigger] self@.walkable[(x as int, y)],
    {
        let mut y = lo;
        while y <= hi
            invariant
                self.wf(),
                x < self@.side,
                hi < self@.side,
                lo <= y,
                forall|j: int| lo <= j < y && j <= hi ==> !#[trigger] self@.walkable[(x as int, j)],
            decreases hi + 1 - y,
        {
            assert(self@.contains((x as int, y as int)));
            if self.is_walkable([x, y]) {
                return Some(y);
            }
            y += 1;
        }
        None
    }

    /// A walkable cell on the ring `r` around `from`, if the ring has one.
    fn scan_ring(&self, from: [usize; 2], r: usize) -> (found: Option<[usize; 2]>)
        requires
            self.wf(),
            self@.contains((from[0] as int, from[1] as int)),
            r < self@.side,
        ensures
            found matches Some(c) ==> self@.contains((c[0] as int, c[1] as int))
                && self@.walkable[(c[0] as int, c[1] as int)] && ring_distance(
                (from[0] as int, from[1] as int),
                (c[0] as int, c[1] as int),
            ) == r && forall|p: (int, int)|
                self@.contains(p) && ring_distance((from[0] as int, from[1] as int), p) == r
                    && #[trigger] self@.walkable[p] ==> comes_first(
                    (c[0] as int, c[1] as int),
                    p,
                ),
            found is None ==> forall|p: (int, int)|
                self@.contains(p) && ring_distance((from[0] as int, from[1] as int), p) == r
                    ==> !#[trigger] self@.walkable[p],
    {
        let fx = from[0];
        let fy = from[1];
        let side = self.side;
        let lo_x = if fx >= r {
            fx - r
        } else {
            0
        };
        let hi_x = if fx + r < side {
            fx + r
        } else {
            side - 1
        };
        let lo_y = if fy >= r {
            fy - r
        } else {
            0
        };
        let hi_y = if fy + r < side {
            fy + r
        } else {
            side - 1
        };
        let ghost origin = (fx as int, fy as int);
        let mut x = lo_x;
        while x <= hi_x
            invariant
                self.wf(),
                side == self@.side,
                fx == from[0],
                fy == from[1],
                origin == (fx as int, fy as int),
                self@.contains(origin),
                r < side,
                lo_x == if fx >= r { fx - r } else { 0 },
                hi_x == if fx + r < side { fx + r } else { side - 1 },
                lo_y == if fy >= r { fy - r } else { 0 },
                hi_y == if fy + r < side { fy + r } else { side - 1 },
                lo_x <= x,
                forall|p: (int, int)|
                    self@.contains(p) && ring_distance(origin, p) == r && p.0 < x
                        ==> !#[trigger] self@.walkable[p],
            decreases hi_x + 1 - x,
        {
            if x + r == fx || x == fx + r {
                match self.scan_column(x, lo_y, hi_y) {
                    Some(y) => {
                        return Some([x, y]);
                    },
                    None => {},
                }
            } else {
                if fy >= r {
                    if self.is_walkable([x, fy - r]) {
                        return Some([x, fy - r]);
                    }
                }
                if fy + r < side {
                    if self.is_walkable([x, fy + r]) {
                        return Some([x, fy + r]);
                    }
                }
            }
            x += 1;
        }
        None
    }

    /// The walkable cell nearest to `from`, ring by ring outward; `None` when
    /// the grid has no walkable cell.
    pub fn nearest_walkable(&self, from: [usize; 2]) -> (found: Option<[usize; 2]>)
        requires
            self.wf(),
            self@.contains((from[0] as int, from[1] as int)),
        ensures
            found matches Some(c) ==> self@.nearest_walkable(
                (from[0] as int, from[1] as int),
                (c[0] as int, c[1] as int),
            ),
            found is None <==> self@.closed(),
    {
        let ghost origin = (from[0] as int, from[1] as int);
        let mut r: usize = 0;
        while r < self.side
            invariant
                self.wf(),
                origin == (from[0] as int, from[1] as int),
                self@.contains(origin),
                0 <= r <= self@.side,
                forall|p: (int, int)|
                    self@.contains(p) && ring_distance(origin, p) < r ==> !#[trigger] self@.walkable[p],
            decreases self@.side - r,
        {
            match self.scan_ring(from, r) {
                Some(c) => {
                    return Some(c);
                },
                None => {},
            }
            r += 1;
        }
        None
    }
}

/// The flags of a level: the interior cells that are not blocked.
fn open_ground(side: usize, blocked: &Vec<[usize; 2]>) -> (walkable: Grid<bool>)
    requires
        2 <= side <= MAX_SIDE,
        side * side <= MAX_CELLS,
    ensures
        forall|p: (int, int)|
            flag_cells(walkable).dom().contains(p) <==> in_shape(side as int, side as int, p),
        forall|p: (int, int)|
            in_shape(side as int, side as int, p) ==> (#[trigger] flag_cells(walkable)[p] <==> 1
                <= p.0 < side - 1 && 1 <= p.1 < side - 1 && !is_blocked(blocked@, p)),
{
    let mut walkable = flags_filled(side, side, false);
    let mut x: usize = 1;
    while x < side - 1
        invariant
            2 <= side <= MAX_SIDE,
            1 <= x <= side - 1,
            forall|p: (int, int)|
                flag_cells(walkable).dom().contains(p) <==> in_shape(side as int, side as int, p),
            forall|p: (int, int)|
                in_shape(side as int, side as int, p) ==> (#[trigger] flag_cells(walkable)[p] <==> 1
                    <= p.0 < x && 1 <= p.1 < side - 1),
        decreases side - x,
    {
        let mut y: usize = 1;
        while y < side - 1
            invariant
                2 <= side <= MAX_SIDE,
                1 <= x < side - 1,
                1 <= y <= side - 1,
                forall|p: (int, int)|
                    flag_cells(walkable).dom().contains(p) <==> in_shape(
                        side as int,
                        side as int,
                        p,
                    ),
                forall|p: (int, int)|
                    in_shape(side as int, side as int, p) ==> (#[trigger] flag_cells(walkable)[p]
                        <==> 1 <= p.1 < side - 1 && (1 <= p.0 < x || (p.0 == x && p.1 < y))),
            decreases side - y,
        {
            assert(in_shape(side as int, side as int, (x as int, y as int)));
            flags_put(&mut walkable, x, y, true);
            y += 1;
        }
        x += 1;
    }
    let mut i: usize = 0;
    while i < blocked.len()
        invariant
            2 <= side <= MAX_SIDE,
            0 <= i <= blocked.len(),
            forall|p: (int, int)|
                flag_cells(walkable).dom().contains(p) <==> in_shape(side as int, side as int, p),
            forall|p: (int, int)|
                in_shape(side as int, side as int, p) ==> (#[trigger] flag_cells(walkable)[p] <==> 1
                    <= p.0 < side - 1 && 1 <= p.1 < side - 1 && !is_blocked(
                    blocked@.take(i as int),
                    p,
                )),
        decreases blocked.len() - i,
    {
        let cell = blocked[i];
        let bx = cell[0];
        let by = cell[1];
        if bx < side && by < side {
            assert(in_shape(side as int, side as int, (bx as int, by as int)));
            flags_put(&mut walkable, bx, by, false);
        }
        proof {
            let shorter = blocked@.take(i as int);
            let longer = blocked@.take(i + 1);
            assert(longer[i as int] == blocked@[i as int]);
            assert forall|p: (int, int)| in_shape(side as int, side as int, p) implies (
            #[trigger] flag_cells(walkable)[p] <==> 1 <= p.0 < side - 1 && 1 <= p.1 < side - 1
                && !is_blocked(longer, p)) by {
                if p != (bx as int, by as int) {
                    if is_blocked(shorter, p) {
                        let j = choose|j: int|
                            0 <= j < shorter.len() && #[trigger] shorter[j][0] == p.0
                                && shorter[j][1] == p.1;
                    }
                    if is_blocked(longer, p) {
                        let j = choose|j: int|
                            0 <= j < longer.len() && #[trigger] longer[j][0] == p.0
                                && longer[j][1] == p.1;
                    }
                }
            }
        }
        i += 1;
    }
    assert(blocked@.take(blocked.len() as int) == blocked@);
    walkable
}

/// Whether a step against `flow` from the interior cell `[x, y]` is open.
fn step_open(side: usize, walkable: &Grid<bool>, x: usize, y: usize, flow: Flow) -> (b: bool)
    requires
        1 <= x < side - 1,
        1 <= y < side - 1,
        flow.is_compass(),
        forall|p: (int, int)|
            flag_cells(*walkable).dom().contains(p) <==> in_shape(side as int, side as int, p),
    ensures
        b == (NavModel { side: side as int, walkable: flag_cells(*walkable), masks: Map::empty() })
            .open_toward((x as int, y as int), flow),
{
    let n = crate::flow::neighbor_idx([x, y], flow);
    let nx = n[0];
    let ny = n[1];
    assert(in_shape(side as int, side as int, (nx as int, ny as int)));
    assert(in_shape(side as int, side as int, (x as int, ny as int)));
    assert(in_shape(side as int, side as int, (nx as int, y as int)));
    let straight = flags_get(walkable, nx, ny).unwrap();
    match flow {
        Flow::North | Flow::East | Flow::South | Flow::West => straight,
        _ => straight && flags_get(walkable, x, ny).unwrap() && flags_get(walkable, nx, y).unwrap(),
    }
}

/// The mask of the interior cell `[x, y]`: the bit of every open step.
fn cell_mask(side: usize, walkable: &Grid<bool>, x: usize, y: usize) -> (m: u8)
    requires
        1 <= x < side - 1,
        1 <= y < side - 1,
        forall|p: (int, int)|
            flag_cells(*walkable).dom().contains(p) <==> in_shape(side as int, side as int, p),
    ensures
        forall|flow: Flow|
            flow.is_compass() ==> (#[trigger] has_direction(m, flow) <==> (NavModel {
                side: side as int,
                walkable: flag_cells(*walkable),
                masks: Map::empty(),
            }).open_toward((x as int, y as int), flow)),
{
    let ghost nav = NavModel {
        side: side as int,
        walkable: flag_cells(*walkable),
        masks: Map::empty(),
    };
    let ghost at = (x as int, y as int);
    let directions = Flow::directionals();
    let mut m: u8 = 0;
    let mut i: usize = 0;
    proof {
        assert forall|flow: Flow| !#[trigger] has_direction(0u8, flow) by {
            lemma_mask_empty(flow);
        }
    }
    while i < 8
        invariant
            0 <= i <= 8,
            1 <= x < side - 1,
            1 <= y < side - 1,
            at == (x as int, y as int),
            nav == (NavModel {
                side: side as int,
                walkable: flag_cells(*walkable),
                masks: Map::empty(),
            }),
            forall|p: (int, int)|
                flag_cells(*walkable).dom().contains(p) <==> in_shape(side as int, side as int, p),
            directions@ == seq![
                Flow::North,
                Flow::East,
                Flow::South,
                Flow::West,
                Flow::NorthEast,
                Flow::SouthEast,
                Flow::SouthWest,
                Flow::NorthWest,
            ],
            forall|flow: Flow|
                flow.is_compass() ==> (#[trigger] has_direction(m, flow) <==> (exists|j: int|
                    0 <= j < i && directions@[j] == flow) && nav.open_toward(at, flow)),
        decreases 8 - i,
    {
        let flow = directions[i];
        let ghost before = m;
        let open = step_open(side, walkable, x, y, flow);
        if open {
            m = m | flow.mask();
        }
        proof {
            assert forall|asked: Flow| asked.is_compass() implies (#[trigger] has_direction(
                m,
                asked,
            ) <==> (exists|j: int| 0 <= j < i + 1 && directions@[j] == asked) && nav.open_toward(
                at,
                asked,
            )) by {
                lemma_mask_insert(before, flow, asked);
                if exists|j: int| 0 <= j < i && directions@[j] == asked {
                    let j = choose|j: int| 0 <= j < i && directions@[j] == asked;
                }
                if asked == flow {
                    assert(directions@[i as int] == asked);
                }
                if exists|j: int| 0 <= j < i + 1 && directions@[j] == asked {
                    let j = choose|j: int| 0 <= j < i + 1 && directions@[j] == asked;
                }
            }
        }
        i += 1;
    }
    proof {
        assert forall|flow: Flow| flow.is_compass() implies (#[trigger] has_direction(m, flow)
            <==> nav.open_toward(at, flow)) by {
            let j: int = match flow {
                Flow::North => 0,
                Flow::East => 1,
                Flow::South => 2,
                Flow::West => 3,
                Flow::NorthEast => 4,
                Flow::SouthEast => 5,
                Flow::SouthWest => 6,
                _ => 7,
            };
        }
    }
    m
}

/// The connectivity masks that belong to the flags `walkable`.
fn connect(side: usize, walkable: &Grid<bool>) -> (grid: Grid<u8>)
    requires
        2 <= side <= MAX_SIDE,
        side * side <= MAX_CELLS,
        forall|p: (int, int)|
            flag_cells(*walkable).dom().contains(p) <==> in_shape(side as int, side as int, p),
        forall|p: (int, int)|
            in_shape(side as int, side as int, p) && !(1 <= p.0 < side - 1 && 1 <= p.1 < side - 1)
                ==> !#[trigger] flag_cells(*walkable)[p],
    ensures
        (NavModel { side: side as int, walkable: flag_cells(*walkable), masks: mask_cells(grid) })
            .wf(),
{
    let mut grid = masks_filled(side, side, 0);
    let ghost flags = flag_cells(*walkable);
    let ghost probe = NavModel { side: side as int, walkable: flags, masks: Map::empty() };
    let mut x: usize = 1;
    while x < side - 1
        invariant
            2 <= side <= MAX_SIDE,
            1 <= x <= side - 1,
            flags == flag_cells(*walkable),
            probe == (NavModel { side: side as int, walkable: flags, masks: Map::empty() }),
            forall|p: (int, int)| flags.dom().contains(p) <==> in_shape(side as int, side as int, p),
            forall|p: (int, int)|
                mask_cells(grid).dom().contains(p) <==> in_shape(side as int, side as int, p),
            forall|p: (int, int)|
                in_shape(side as int, side as int, p) && !(1 <= p.0 < x && 1 <= p.1 < side - 1)
                    ==> #[trigger] mask_cells(grid)[p] == 0,
            forall|p: (int, int), flow: Flow|
                1 <= p.0 < x && 1 <= p.1 < side - 1 && flow.is_compass() ==> (
                #[trigger] has_direction(mask_cells(grid)[p], flow) <==> probe.open_toward(p, flow)),
        decreases side - x,
    {
        let mut y: usize = 1;
        while y < side - 1
            invariant
                2 <= side <= MAX_SIDE,
                1 <= x < side - 1,
                1 <= y <= side - 1,
                flags == flag_cells(*walkable),
                probe == (NavModel { side: side as int, walkable: flags, masks: Map::empty() }),
                forall|p: (int, int)|
                    flags.dom().contains(p) <==> in_shape(side as int, side as int, p),
                forall|p: (int, int)|
                    mask_cells(grid).dom().contains(p) <==> in_shape(side as int, side as int, p),
                forall|p: (int, int)|
                    in_shape(side as int, side as int, p) && !(1 <= p.1 < side - 1 && (1 <= p.0 < x
                        || (p.0 == x && p.1 < y))) ==> #[trigger] mask_cells(grid)[p] == 0,
                forall|p: (int, int), flow: Flow|
                    1 <= p.1 < side - 1 && (1 <= p.0 < x || (p.0 == x && p.1 < y))
                        && flow.is_compass() ==> (#[trigger] has_direction(
                        mask_cells(grid)[p],
                        flow,
                    ) <==> probe.open_toward(p, flow)),
            decreases side - y,
        {
            let m = cell_mask(side, walkable, x, y);
            assert(in_shape(side as int, side as int, (x as int, y as int)));
            masks_put(&mut grid, x, y, m);
            y += 1;
        }
        x += 1;
    }
    proof {
        let nav = NavModel { side: side as int, walkable: flags, masks: mask_cells(grid) };
        assert forall|p: (int, int), flow: Flow|
            nav.interior(p) && flow.is_compass() implies (#[trigger] has_direction(
            nav.masks[p],
            flow,
        ) <==> nav.open_toward(p, flow)) by {
        }
        assert forall|p: (int, int)| #[trigger] nav.contains(p) && !nav.interior(p) implies !nav.walkable[p]
            && nav.masks[p] == 0 by {
        }
    }
    grid
}

/// One coordinate of a sample on a line; see `ray_coordinate`.
fn ray_sample(s: usize, e: usize, steps: usize, k: usize) -> (c: usize)
    requires
        s < MAX_SIDE,
        e < MAX_SIDE,
        1 <= steps < MAX_SIDE,
        k <= steps,
        e - s <= steps,
        s - e <= steps,
    ensures
        c == ray_coordinate(s as int, e as int, steps as int, k as int),
{
    assert(0 <= s * steps <= 4096 * 4096) by (nonlinear_arith)
        requires
            0 <= s < 4096,
            0 <= steps < 4096,
    ;
    let base: u64 = (s as u64) * (steps as u64);
    let middle: u64 = if e >= s {
        assert(0 <= k * (e - s) <= 4096 * 4096) by (nonlinear_arith)
            requires
                0 <= k < 4096,
                0 <= e - s < 4096,
        ;
        let along: u64 = (k as u64) * ((e - s) as u64);
        base + along
    } else {
        assert(0 <= k * (s - e) <= s * steps) by (nonlinear_arith)
            requires
                0 <= k <= steps,
                0 <= s - e <= s,
        ;
        let back: u64 = (k as u64) * ((s - e) as u64);
        assert(k * (e - s) == -(k * (s - e))) by (nonlinear_arith);
        base - back
    };
    let c = (2 * middle + (steps as u64)) / (2 * (steps as u64));
    assert(c <= 2 * middle + steps) by (nonlinear_arith)
        requires
            c == (2 * middle + steps) / (2 * steps),
            steps >= 1,
            middle >= 0,
    ;
    c as usize
}

/// One coordinate of `pos_to_index`.
fn coordinate_to_index(h: i64) -> (i: usize)
    ensures
        cell_of_position(h as int) <= usize::MAX ==> i == cell_of_position(h as int),
        cell_of_position(h as int) > usize::MAX ==> i == usize::MAX,
{
    if h < -2 {
        0
    } else if h < 0 {
        0
    } else {
        let cell: u64 = (h as u64) / 2 + 1;
        if cell > usize::MAX as u64 {
            usize::MAX
        } else {
            cell as usize
        }
    }
}

} // verus!
