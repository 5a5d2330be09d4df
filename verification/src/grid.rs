//! Dense two-dimensional arrays, held by `ndarray`.
//!
//! Verus does not look inside `ndarray::Array2`. What such an array holds is
//! given a name here, a map from the index pair to the element whose domain is
//! the array's shape, and each call into `ndarray` is a small function whose
//! contract states, over that name, what the call does.

use crate::flow::FlowCell;
use vstd::prelude::*;

verus! {

/// A two-dimensional array of `T`, indexed `[x, y]`: an `ndarray::Array2<T>`,
/// which Verus takes as given.
#[verifier::external_body]
#[verifier::reject_recursive_types(T)]
pub struct Grid<T> {
    cells: ndarray::Array2<T>,
}

/// What a grid of flags holds: the element at each index pair inside its shape.
pub uninterp spec fn flag_cells(g: Grid<bool>) -> Map<(int, int), bool>;

/// What a grid of connectivity masks holds.
pub uninterp spec fn mask_cells(g: Grid<u8>) -> Map<(int, int), u8>;

/// What a grid of flow cells holds.
pub uninterp spec fn flow_cells(g: Grid<FlowCell>) -> Map<(int, int), FlowCell>;

/// The index pairs of a grid with `rows` by `cols` cells.
pub open spec fn in_shape(rows: int, cols: int, p: (int, int)) -> bool {
    0 <= p.0 < rows && 0 <= p.1 < cols
}

/// The map that holds `value` at every index pair of a `rows` by `cols` grid.
pub open spec fn uniform<T>(rows: int, cols: int, value: T) -> Map<(int, int), T> {
    Map::new(|p: (int, int)| in_shape(rows, cols, p), |p: (int, int)| value)
}

/// The largest number of cells a grid is made with, and the longest an axis of
/// it gets: small enough that the allocation fits the address space on every
/// supported machine.
pub const MAX_CELLS: usize = 0x100_0000;

/// `ndarray::Array2::from_elem` with the shape `(rows, cols)`: the new array
/// holds `value` at every index of that shape. `from_elem` panics when the
/// product of the axis lengths that are not zero overflows `isize`; with
/// each axis and their product bounded by `MAX_CELLS` that product stays
/// below it, whether an axis is zero or not.
#[verifier::external_body]
pub(crate) fn flags_filled(rows: usize, cols: usize, value: bool) -> (g: Grid<bool>)
    requires
        rows <= MAX_CELLS,
        cols <= MAX_CELLS,
        rows * cols <= MAX_CELLS,
    ensures
        flag_cells(g) == uniform(rows as int, cols as int, value),
{
    Grid { cells: ndarray::Array2::from_elem((rows, cols), value) }
}

/// `ArrayBase::get` with the index `[x, y]`: the element there, or `None`
/// when the index lies outside the shape.
#[verifier::external_body]
pub(crate) fn flags_get(g: &Grid<bool>, x: usize, y: usize) -> (v: Option<bool>)
    ensures
        v == if flag_cells(*g).dom().contains((x as int, y as int)) {
            Some(flag_cells(*g)[(x as int, y as int)])
        } else {
            None
        },
{
    g.cells.get([x, y]).copied()
}

/// `IndexMut::index_mut` with the index `[x, y]`, then a store through the
/// reference: the element there is replaced and nothing else changes. The
/// index panics outside the shape.
#[verifier::external_body]
pub(crate) fn flags_put(g: &mut Grid<bool>, x: usize, y: usize, value: bool)
    requires
        flag_cells(*old(g)).dom().contains((x as int, y as int)),
    ensures
        flag_cells(*final(g)) == flag_cells(*old(g)).insert((x as int, y as int), value),
{
    g.cells[[x, y]] = value;
}

/// `ndarray::Array2::from_elem` with the shape `(rows, cols)` and a mask: the
/// new array holds `value` at every index of that shape. `from_elem` panics
/// when the product of the axis lengths that are not zero overflows `isize`;
/// with each axis and their product bounded by `MAX_CELLS` it does not.
#[verifier::external_body]
pub(crate) fn masks_filled(rows: usize, cols: usize, value: u8) -> (g: Grid<u8>)
    requires
        rows <= MAX_CELLS,
        cols <= MAX_CELLS,
        rows * cols <= MAX_CELLS,
    ensures
        mask_cells(g) == uniform(rows as int, cols as int, value),
{
    Grid { cells: ndarray::Array2::from_elem((rows, cols), value) }
}

/// `ArrayBase::get` with the index `[x, y]` on an array of masks: the mask
/// there, or `None` when the index lies outside the shape.
#[verifier::external_body]
pub(crate) fn masks_get(g: &Grid<u8>, x: usize, y: usize) -> (v: Option<u8>)
    ensures
        v == if mask_cells(*g).dom().contains((x as int, y as int)) {
            Some(mask_cells(*g)[(x as int, y as int)])
        } else {
            None
        },
{
    g.cells.get([x, y]).copied()
}

/// `IndexMut::index_mut` with the index `[x, y]` on an array of masks, then a
/// store through the reference: the mask there is replaced and nothing else
/// changes. The index panics outside the shape.
#[verifier::external_body]
pub(crate) fn masks_put(g: &mut Grid<u8>, x: usize, y: usize, value: u8)
    requires
        mask_cells(*old(g)).dom().contains((x as int, y as int)),
    ensures
        mask_cells(*final(g)) == mask_cells(*old(g)).insert((x as int, y as int), value),
{
    g.cells[[x, y]] = value;
}

/// `ndarray::Array2::from_elem` with the shape `(rows, cols)` and a flow cell:
/// the new array holds `value` at every index of that shape. `from_elem`
/// panics when the product of the axis lengths that are not zero overflows
/// `isize`; with each axis and their product bounded by `MAX_CELLS` it does not.
#[verifier::external_body]
pub(crate) fn flows_filled(rows: usize, cols: usize, value: FlowCell) -> (g: Grid<FlowCell>)
    requires
        rows <= MAX_CELLS,
        cols <= MAX_CELLS,
        rows * cols <= MAX_CELLS,
    ensures
        flow_cells(g) == uniform(rows as int, cols as int, value),
{
    Grid { cells: ndarray::Array2::from_elem((rows, cols), value) }
}

/// `ArrayBase::get` with the index `[x, y]` on an array of flow cells: the
/// cell there, or `None` when the index lies outside the shape.
#[verifier::external_body]
pub(crate) fn flows_get(g: &Grid<FlowCell>, x: usize, y: usize) -> (v: Option<FlowCell>)
    ensures
        v == if flow_cells(*g).dom().contains((x as int, y as int)) {
            Some(flow_cells(*g)[(x as int, y as int)])
        } else {
            None
        },
{
    g.cells.get([x, y]).copied()
}

/// `IndexMut::index_mut` with the index `[x, y]` on an array of flow cells,
/// then a store through the reference: the cell there is replaced and nothing
/// else changes. The index panics outside the shape.
#[verifier::external_body]
pub(crate) fn flows_put(g: &mut Grid<FlowCell>, x: usize, y: usize, value: FlowCell)
    requires
        flow_cells(*old(g)).dom().contains((x as int, y as int)),
    ensures
        flow_cells(*final(g)) == flow_cells(*old(g)).insert((x as int, y as int), value),
{
    g.cells[[x, y]] = value;
}

impl Grid<bool> {
    /// The flag at `[x, y]`, or `None` outside the grid.
    pub fn get(&self, x: usize, y: usize) -> (v: Option<bool>)
        ensures
            v == if flag_cells(*self).dom().contains((x as int, y as int)) {
                Some(flag_cells(*self)[(x as int, y as int)])
            } else {
                None
            },
    {
        flags_get(self, x, y)
    }
}

impl Grid<u8> {
    /// The mask at `[x, y]`, or `None` outside the grid.
    pub fn get(&self, x: usize, y: usize) -> (v: Option<u8>)
        ensures
            v == if mask_cells(*self).dom().contains((x as int, y as int)) {
                Some(mask_cells(*self)[(x as int, y as int)])
            } else {
                None
            },
    {
        masks_get(self, x, y)
    }
}

} // verus!
