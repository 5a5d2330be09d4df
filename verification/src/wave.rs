//! The first pass of flow-field generation, as a state machine.
//!
//! A wave starts at the target cells and spreads over the links of the
//! navigation grid. Its state is the cells written so far and a queue of
//! cells whose neighbours are still to be looked at. One step takes the front
//! of the queue and offers each of its eight neighbours a path through it; a
//! neighbour takes the offer, and joins the queue, when the path is strictly
//! shorter than what it has.

use crate::counting::{
    lemma_cells_bounded, lemma_grows, lemma_pairs_finite, lemma_shrinks, lemma_square_finite,
    pairs, square,
};
use crate::distance::{Distance, lemma_lt_total, lemma_lt_transitive, Steps};
use crate::flow::{ahead_of, Flow, FlowCell, has_direction, neighbor_of};
use crate::nav_grid::{lemma_linked_interior, MAX_SIDE, NavModel};
use vstd::prelude::*;
use vstd::set_lib::lemma_len_subset;

verus! {

/// A cell that waits in the queue, with the length of the path it was reached by.
#[derive(Clone, Copy, Debug)]
pub struct Pending {
    pub dist: Steps,
    pub x: usize,
    pub y: usize,
}

impl Pending {
    /// The cell that waits.
    pub open spec fn at(self) -> (int, int) {
        (self.x as int, self.y as int)
    }
}

/// The state of the wave.
pub struct Wave {
    pub cells: Map<(int, int), FlowCell>,
    pub queue: Seq<Pending>,
}

/// Offers the neighbour of `at` against `flow` a path of length `d` through `at`.
pub open spec fn relax(nav: NavModel, w: Wave, d: Steps, at: (int, int), flow: Flow) -> Wave {
    let n = neighbor_of(at, flow);
    let nd = d.plus(flow.step());
    if has_direction(nav.masks[at], flow) && w.cells[n].distance.beyond_path(nd) {
        Wave {
            cells: w.cells.insert(n, FlowCell { distance: Distance::Path(nd), flow }),
            queue: w.queue.push(Pending { dist: nd, x: n.0 as usize, y: n.1 as usize }),
        }
    } else {
        w
    }
}

/// Offers all eight neighbours of `at` a path through it, the straight ones first.
pub open spec fn expand(nav: NavModel, w: Wave, d: Steps, at: (int, int)) -> Wave {
    let w1 = relax(nav, w, d, at, Flow::North);
    let w2 = relax(nav, w1, d, at, Flow::East);
    let w3 = relax(nav, w2, d, at, Flow::South);
    let w4 = relax(nav, w3, d, at, Flow::West);
    let w5 = relax(nav, w4, d, at, Flow::NorthEast);
    let w6 = relax(nav, w5, d, at, Flow::SouthEast);
    let w7 = relax(nav, w6, d, at, Flow::SouthWest);
    relax(nav, w7, d, at, Flow::NorthWest)
}

/// The wave with the front of its queue taken off.
pub open spec fn popped(w: Wave) -> Wave {
    Wave { cells: w.cells, queue: w.queue.drop_first() }
}

/// One step of the wave; nothing happens once the queue is empty.
pub open spec fn advance(nav: NavModel, w: Wave) -> Wave {
    if w.queue.len() == 0 {
        w
    } else {
        expand(nav, popped(w), w.queue[0].dist, w.queue[0].at())
    }
}

/// The wave after `n` steps.
pub open spec fn advanced(nav: NavModel, w: Wave, n: nat) -> Wave
    decreases n,
{
    if n == 0 {
        w
    } else {
        advance(nav, advanced(nav, w, (n - 1) as nat))
    }
}

/// The cell has a grid path, and it is at most `v` long.
pub open spec fn path_within(c: FlowCell, v: Steps) -> bool {
    c.distance matches Distance::Path(s) && s.le(v)
}

/// The cells whose path is at most `v` long.
pub open spec fn below(nav: NavModel, cells: Map<(int, int), FlowCell>, v: Steps) -> Set<(int, int)> {
    Set::new(|p: (int, int)| nav.contains(p) && path_within(cells[p], v))
}

/// A path of length `v` has fewer steps than there are cells with a path at
/// most as long: each step of it passed a cell of its own.
pub open spec fn counted(nav: NavModel, cells: Map<(int, int), FlowCell>, v: Steps) -> bool {
    v.hops() + 1 <= below(nav, cells, v).len()
}

/// Distance and direction of a cell fit together.
pub open spec fn cell_sound(sources: Set<(int, int)>, p: (int, int), c: FlowCell) -> bool {
    match c.flow {
        Flow::Unreachable => c.distance is Unreached && !sources.contains(p),
        Flow::Source => c.distance == Distance::Path(Steps { straight: 0, diagonal: 0 })
            && sources.contains(p),
        Flow::LineOfSight(_, _) => false,
        _ => c.distance matches Distance::Path(s) && s.hops() >= 1 && !sources.contains(p),
    }
}

/// The path of the cell, if it has one, is counted.
pub open spec fn cell_counted(nav: NavModel, cells: Map<(int, int), FlowCell>, p: (int, int)) -> bool {
    cells[p].distance matches Distance::Path(s) ==> counted(nav, cells, s)
}

/// The cells cover the grid, and each of them is sound and counted.
pub open spec fn cells_sound(
    nav: NavModel,
    sources: Set<(int, int)>,
    cells: Map<(int, int), FlowCell>,
) -> bool {
    &&& forall|p: (int, int)| cells.dom().contains(p) <==> #[trigger] nav.contains(p)
    &&& forall|p: (int, int)| #[trigger] nav.contains(p) ==> cell_sound(sources, p, cells[p])
    &&& forall|p: (int, int)| #[trigger] nav.contains(p) ==> cell_counted(nav, cells, p)
}

/// A queue entry names a cell of the grid that has a path at most as long as
/// the entry says.
pub open spec fn entry_sound(nav: NavModel, cells: Map<(int, int), FlowCell>, e: Pending) -> bool {
    &&& nav.contains(e.at())
    &&& path_within(cells[e.at()], e.dist)
    &&& counted(nav, cells, e.dist)
}

/// What holds of the wave at every step as far as sizes go: no path has as many
/// steps as the grid has cells.
pub open spec fn bounded(nav: NavModel, sources: Set<(int, int)>, w: Wave) -> bool {
    &&& cells_sound(nav, sources, w.cells)
    &&& forall|i: int| 0 <= i < w.queue.len() ==> entry_sound(nav, w.cells, #[trigger] w.queue[i])
}

/// Being at most as long is transitive, also when one of the two steps is strict.
pub proof fn lemma_le_transitive(a: Steps, b: Steps, c: Steps)
    requires
        a.le(b),
        b.le(c),
    ensures
        a.le(c),
        a.lt(b) || b.lt(c) ==> a.lt(c),
{
    if a.lt(b) && b.lt(c) {
        lemma_lt_transitive(a, b, c);
    }
}

/// The cells within a length are cells of the grid: finitely many, and no
/// more than the grid has.
pub proof fn lemma_below_bounded(nav: NavModel, cells: Map<(int, int), FlowCell>, v: Steps)
    requires
        nav.wf(),
    ensures
        below(nav, cells, v).finite(),
        below(nav, cells, v).len() <= nav.side * nav.side,
        nav.side * nav.side <= MAX_SIDE * MAX_SIDE,
{
    lemma_cells_bounded(below(nav, cells, v), nav.side);
    let side = nav.side;
    assert(side * side <= 4096 * 4096) by (nonlinear_arith)
        requires
            0 <= side <= 4096,
    ;
}

/// A sound entry has fewer steps than the grid has cells.
pub proof fn lemma_entry_hops(nav: NavModel, cells: Map<(int, int), FlowCell>, e: Pending)
    requires
        nav.wf(),
        entry_sound(nav, cells, e),
    ensures
        e.dist.hops() + 1 <= nav.side * nav.side,
        nav.side * nav.side <= MAX_SIDE * MAX_SIDE,
{
    lemma_below_bounded(nav, cells, e.dist);
}

/// When a cell takes a shorter path, the cells within any length stay within it.
proof fn lemma_below_grows(
    nav: NavModel,
    cells: Map<(int, int), FlowCell>,
    n: (int, int),
    nd: Steps,
    flow: Flow,
    v: Steps,
)
    requires
        nav.wf(),
        cells[n].distance.beyond_path(nd),
        !(cells[n].distance is Sight),
    ensures
        below(nav, cells, v).subset_of(
            below(nav, cells.insert(n, FlowCell { distance: Distance::Path(nd), flow }), v),
        ),
        below(nav, cells, v).len() <= below(
            nav,
            cells.insert(n, FlowCell { distance: Distance::Path(nd), flow }),
            v,
        ).len(),
{
    let after = cells.insert(n, FlowCell { distance: Distance::Path(nd), flow });
    assert forall|p: (int, int)| below(nav, cells, v).contains(p) implies below(
        nav,
        after,
        v,
    ).contains(p) by {
        if p == n {
            let o = cells[n].distance->Path_0;
            lemma_le_transitive(nd, o, v);
        }
    }
    lemma_below_bounded(nav, after, v);
    lemma_len_subset(below(nav, cells, v), below(nav, after, v));
}

/// One offer keeps the wave bounded, and the entry it came from sound.
pub proof fn lemma_relax_bounded(
    nav: NavModel,
    sources: Set<(int, int)>,
    w: Wave,
    e: Pending,
    flow: Flow,
)
    requires
        nav.wf(),
        bounded(nav, sources, w),
        entry_sound(nav, w.cells, e),
        flow.is_compass(),
    ensures
        bounded(nav, sources, relax(nav, w, e.dist, e.at(), flow)),
        entry_sound(nav, relax(nav, w, e.dist, e.at(), flow).cells, e),
{
    let at = e.at();
    let d = e.dist;
    let n = neighbor_of(at, flow);
    let nd = d.plus(flow.step());
    let after = relax(nav, w, d, at, flow);
    if has_direction(nav.masks[at], flow) && w.cells[n].distance.beyond_path(nd) {
        lemma_linked_interior(nav, at, flow);
        lemma_entry_hops(nav, w.cells, e);
        // the new length is counted: every cell within `d` is within it, and so is `n`
        assert(counted(nav, after.cells, nd)) by {
            let small = below(nav, w.cells, d);
            let large = below(nav, after.cells, nd);
            lemma_below_bounded(nav, after.cells, nd);
            lemma_below_bounded(nav, w.cells, d);
            assert forall|p: (int, int)| small.contains(p) implies large.contains(p) by {
                let s = w.cells[p].distance->Path_0;
                lemma_le_transitive(s, d, nd);
                if p == n {
                    lemma_lt_transitive(s, nd, s);
                    lemma_lt_total(s, s);
                }
            }
            if small.contains(n) {
                let s = w.cells[n].distance->Path_0;
                lemma_le_transitive(s, d, nd);
                lemma_lt_transitive(s, nd, s);
                lemma_lt_total(s, s);
            }
            lemma_grows(small, large, n);
        }
        assert forall|p: (int, int)| #[trigger] nav.contains(p) implies cell_sound(
            sources,
            p,
            after.cells[p],
        ) && cell_counted(nav, after.cells, p) by {
            if p != n {
                if w.cells[p].distance is Path {
                    lemma_below_grows(nav, w.cells, n, nd, flow, w.cells[p].distance->Path_0);
                }
            }
        }
        assert forall|i: int| 0 <= i < after.queue.len() implies entry_sound(
            nav,
            after.cells,
            #[trigger] after.queue[i],
        ) by {
            if i < w.queue.len() {
                let old_entry = w.queue[i];
                lemma_entry_kept(nav, w.cells, old_entry, n, nd, flow);
            }
        }
        lemma_entry_kept(nav, w.cells, e, n, nd, flow);
    }
}

/// A sound entry stays sound when some cell takes a shorter path.
proof fn lemma_entry_kept(
    nav: NavModel,
    cells: Map<(int, int), FlowCell>,
    e: Pending,
    n: (int, int),
    nd: Steps,
    flow: Flow,
)
    requires
        nav.wf(),
        entry_sound(nav, cells, e),
        cells[n].distance.beyond_path(nd),
        !(cells[n].distance is Sight),
    ensures
        entry_sound(nav, cells.insert(n, FlowCell { distance: Distance::Path(nd), flow }), e),
{
    lemma_below_grows(nav, cells, n, nd, flow, e.dist);
    if e.at() == n {
        let o = cells[n].distance->Path_0;
        lemma_le_transitive(nd, o, e.dist);
    }
}

/// The lengths a cell could still take: every pair of a cell and a length,
/// with fewer steps than the grid has cells, that is strictly shorter than
/// what the cell has.
pub open spec fn improvable(nav: NavModel, cells: Map<(int, int), FlowCell>) -> Set<
    ((int, int), (int, int)),
> {
    Set::new(
        |t: ((int, int), (int, int))|
            nav.contains(t.0) && 0 <= t.1.0 && 0 <= t.1.1 && t.1.0 + t.1.1 < nav.side * nav.side
                && cells[t.0].distance.beyond_path(
                Steps { straight: t.1.0 as u32, diagonal: t.1.1 as u32 },
            ),
    )
}

/// How many improvements are left at most. Every offer that is taken uses one up.
pub open spec fn rank(nav: NavModel, cells: Map<(int, int), FlowCell>) -> nat {
    improvable(nav, cells).len()
}

/// Only finitely many improvements are left.
pub proof fn lemma_improvable_finite(nav: NavModel, cells: Map<(int, int), FlowCell>)
    requires
        nav.wf(),
    ensures
        improvable(nav, cells).finite(),
{
    let side = nav.side;
    assert(0 <= side * side) by (nonlinear_arith);
    lemma_square_finite(side);
    lemma_square_finite(side * side);
    lemma_pairs_finite(square(side), square(side * side));
    lemma_len_subset(improvable(nav, cells), pairs(square(side), square(side * side)));
}

/// An offer that is taken lowers the rank; one that is not leaves the wave as it is.
pub proof fn lemma_relax_rank(
    nav: NavModel,
    sources: Set<(int, int)>,
    w: Wave,
    e: Pending,
    flow: Flow,
)
    requires
        nav.wf(),
        bounded(nav, sources, w),
        entry_sound(nav, w.cells, e),
        flow.is_compass(),
    ensures
        relax(nav, w, e.dist, e.at(), flow) == w || rank(
            nav,
            relax(nav, w, e.dist, e.at(), flow).cells,
        ) < rank(nav, w.cells),
{
    let at = e.at();
    let d = e.dist;
    let n = neighbor_of(at, flow);
    let nd = d.plus(flow.step());
    let after = relax(nav, w, d, at, flow);
    if has_direction(nav.masks[at], flow) && w.cells[n].distance.beyond_path(nd) {
        lemma_relax_bounded(nav, sources, w, e, flow);
        lemma_linked_interior(nav, at, flow);
        lemma_entry_hops(nav, w.cells, e);
        let last = after.queue[after.queue.len() - 1];
        lemma_entry_hops(nav, after.cells, last);
        let lost = (n, (nd.straight as int, nd.diagonal as int));
        let before_set = improvable(nav, w.cells);
        let after_set = improvable(nav, after.cells);
        lemma_improvable_finite(nav, w.cells);
        lemma_lt_total(nd, nd);
        assert forall|t: ((int, int), (int, int))| after_set.contains(t) implies before_set.contains(
            t,
        ) by {
            if t.0 == n {
                let s = Steps { straight: t.1.0 as u32, diagonal: t.1.1 as u32 };
                if w.cells[n].distance is Path {
                    lemma_lt_transitive(s, nd, w.cells[n].distance->Path_0);
                }
            }
        }
        lemma_shrinks(after_set, before_set, lost);
    }
}

/// The wave stays bounded over the eight offers of one step, and either
/// some offer lowers the rank or the queue is left as it was.
pub proof fn lemma_expand_bounded(nav: NavModel, sources: Set<(int, int)>, w: Wave, e: Pending)
    requires
        nav.wf(),
        bounded(nav, sources, w),
        entry_sound(nav, w.cells, e),
    ensures
        bounded(nav, sources, expand(nav, w, e.dist, e.at())),
        entry_sound(nav, expand(nav, w, e.dist, e.at()).cells, e),
        expand(nav, w, e.dist, e.at()) == w || rank(nav, expand(nav, w, e.dist, e.at()).cells)
            < rank(nav, w.cells),
{
    let d = e.dist;
    let at = e.at();
    let w1 = relax(nav, w, d, at, Flow::North);
    lemma_relax_bounded(nav, sources, w, e, Flow::North);
    lemma_relax_rank(nav, sources, w, e, Flow::North);
    let w2 = relax(nav, w1, d, at, Flow::East);
    lemma_relax_bounded(nav, sources, w1, e, Flow::East);
    lemma_relax_rank(nav, sources, w1, e, Flow::East);
    let w3 = relax(nav, w2, d, at, Flow::South);
    lemma_relax_bounded(nav, sources, w2, e, Flow::South);
    lemma_relax_rank(nav, sources, w2, e, Flow::South);
    let w4 = relax(nav, w3, d, at, Flow::West);
    lemma_relax_bounded(nav, sources, w3, e, Flow::West);
    lemma_relax_rank(nav, sources, w3, e, Flow::West);
    let w5 = relax(nav, w4, d, at, Flow::NorthEast);
    lemma_relax_bounded(nav, sources, w4, e, Flow::NorthEast);
    lemma_relax_rank(nav, sources, w4, e, Flow::NorthEast);
    let w6 = relax(nav, w5, d, at, Flow::SouthEast);
    lemma_relax_bounded(nav, sources, w5, e, Flow::SouthEast);
    lemma_relax_rank(nav, sources, w5, e, Flow::SouthEast);
    let w7 = relax(nav, w6, d, at, Flow::SouthWest);
    lemma_relax_bounded(nav, sources, w6, e, Flow::SouthWest);
    lemma_relax_rank(nav, sources, w6, e, Flow::SouthWest);
    lemma_relax_bounded(nav, sources, w7, e, Flow::NorthWest);
    lemma_relax_rank(nav, sources, w7, e, Flow::NorthWest);
}

/// Taking the front off the queue keeps the wave bounded, and the front is a sound entry.
pub proof fn lemma_popped_bounded(nav: NavModel, sources: Set<(int, int)>, w: Wave)
    requires
        bounded(nav, sources, w),
        w.queue.len() > 0,
    ensures
        bounded(nav, sources, popped(w)),
        entry_sound(nav, w.cells, w.queue[0]),
{
    assert forall|i: int| 0 <= i < popped(w).queue.len() implies entry_sound(
        nav,
        w.cells,
        #[trigger] popped(w).queue[i],
    ) by {
    }
}

/// A step keeps the wave bounded and brings it nearer to its end: it lowers the
/// rank, or leaves it and shortens the queue.
pub proof fn lemma_advance_bounded(nav: NavModel, sources: Set<(int, int)>, w: Wave)
    requires
        nav.wf(),
        bounded(nav, sources, w),
        w.queue.len() > 0,
    ensures
        bounded(nav, sources, advance(nav, w)),
        rank(nav, advance(nav, w).cells) < rank(nav, w.cells) || (rank(
            nav,
            advance(nav, w).cells,
        ) == rank(nav, w.cells) && advance(nav, w).queue.len() < w.queue.len()),
{
    lemma_popped_bounded(nav, sources, w);
    lemma_expand_bounded(nav, sources, popped(w), w.queue[0]);
}

/// A cell no wave has reached.
pub open spec fn blank_cell() -> FlowCell {
    FlowCell { distance: Distance::Unreached, flow: Flow::Unreachable }
}

/// A target cell.
pub open spec fn source_cell() -> FlowCell {
    FlowCell { distance: Distance::Path(Steps { straight: 0, diagonal: 0 }), flow: Flow::Source }
}

/// The cells named by a list of indices.
pub open spec fn cell_set(list: Seq<[usize; 2]>) -> Set<(int, int)> {
    Set::new(
        |p: (int, int)|
            exists|i: int| 0 <= i < list.len() && (#[trigger] list[i])[0] == p.0 && list[i][1] == p.1,
    )
}

/// Every index of the list names a cell of the grid.
pub open spec fn all_inside(nav: NavModel, list: Seq<[usize; 2]>) -> bool {
    forall|i: int| 0 <= i < list.len() ==> nav.contains(((#[trigger] list[i])[0] as int, list[i][1] as int))
}

/// The wave before its first step: every target is a source at distance
/// zero and waits in the queue, in the order of the list; no other cell is reached.
pub open spec fn seeded(nav: NavModel, sources: Seq<[usize; 2]>) -> Wave
    decreases sources.len(),
{
    if sources.len() == 0 {
        Wave {
            cells: Map::new(|p: (int, int)| nav.contains(p), |p: (int, int)| blank_cell()),
            queue: Seq::empty(),
        }
    } else {
        let w = seeded(nav, sources.drop_last());
        let s = sources.last();
        Wave {
            cells: w.cells.insert((s[0] as int, s[1] as int), source_cell()),
            queue: w.queue.push(Pending { dist: Steps { straight: 0, diagonal: 0 }, x: s[0], y: s[1] }),
        }
    }
}

/// What the seeded wave holds, cell by cell and entry by entry.
pub proof fn lemma_seeded_shape(nav: NavModel, sources: Seq<[usize; 2]>)
    requires
        all_inside(nav, sources),
    ensures
        forall|p: (int, int)| seeded(nav, sources).cells.dom().contains(p) <==> nav.contains(p),
        forall|p: (int, int)|
            nav.contains(p) ==> #[trigger] seeded(nav, sources).cells[p] == if cell_set(
                sources,
            ).contains(p) {
                source_cell()
            } else {
                blank_cell()
            },
        seeded(nav, sources).queue.len() == sources.len(),
        forall|i: int|
            0 <= i < sources.len() ==> #[trigger] seeded(nav, sources).queue[i] == (Pending {
                dist: Steps { straight: 0, diagonal: 0 },
                x: sources[i][0],
                y: sources[i][1],
            }),
    decreases sources.len(),
{
    if sources.len() > 0 {
        let shorter = sources.drop_last();
        assert forall|i: int| 0 <= i < shorter.len() implies nav.contains(
            ((#[trigger] shorter[i])[0] as int, shorter[i][1] as int),
        ) by {
        }
        lemma_seeded_shape(nav, shorter);
        assert forall|p: (int, int)| nav.contains(p) implies #[trigger] seeded(
            nav,
            sources,
        ).cells[p] == if cell_set(sources).contains(p) {
            source_cell()
        } else {
            blank_cell()
        } by {
            if cell_set(shorter).contains(p) {
                let i = choose|i: int|
                    0 <= i < shorter.len() && (#[trigger] shorter[i])[0] == p.0 && shorter[i][1]
                        == p.1;
            }
            if cell_set(sources).contains(p) {
                let i = choose|i: int|
                    0 <= i < sources.len() && (#[trigger] sources[i])[0] == p.0 && sources[i][1]
                        == p.1;
                if i < shorter.len() {
                    assert(shorter[i] == sources[i]);
                }
            }
        }
    }
}

/// The seeded wave is bounded.
pub proof fn lemma_seeded_bounded(nav: NavModel, sources: Seq<[usize; 2]>)
    requires
        nav.wf(),
        all_inside(nav, sources),
    ensures
        bounded(nav, cell_set(sources), seeded(nav, sources)),
{
    lemma_seeded_shape(nav, sources);
    let w = seeded(nav, sources);
    let zero = Steps { straight: 0, diagonal: 0 };
    assert forall|p: (int, int)| nav.contains(p) && cell_set(sources).contains(p) implies counted(
        nav,
        w.cells,
        zero,
    ) by {
        lemma_below_bounded(nav, w.cells, zero);
        lemma_grows(Set::<(int, int)>::empty(), below(nav, w.cells, zero), p);
    }
    assert forall|i: int| 0 <= i < w.queue.len() implies entry_sound(
        nav,
        w.cells,
        #[trigger] w.queue[i],
    ) by {
    }
}

/// Once the queue is empty the wave stays as it is.
pub proof fn lemma_advanced_rests(nav: NavModel, w: Wave, n: nat, m: nat)
    requires
        advanced(nav, w, n).queue.len() == 0,
        n <= m,
    ensures
        advanced(nav, w, m) == advanced(nav, w, n),
    decreases m,
{
    if m > n {
        lemma_advanced_rests(nav, w, n, (m - 1) as nat);
    }
}

/// The wave at rest: where the steps from `w` end.
pub open spec fn settled(nav: NavModel, w: Wave) -> Wave {
    advanced(nav, w, choose|n: nat| advanced(nav, w, n).queue.len() == 0)
}

/// A wave that has come to rest after some number of steps is the settled wave.
pub proof fn lemma_settled(nav: NavModel, w: Wave, n: nat)
    requires
        advanced(nav, w, n).queue.len() == 0,
    ensures
        settled(nav, w) == advanced(nav, w, n),
{
    let m = choose|m: nat| advanced(nav, w, m).queue.len() == 0;
    if m <= n {
        lemma_advanced_rests(nav, w, m, n);
    } else {
        lemma_advanced_rests(nav, w, n, m);
    }
}

/// No neighbour of `p` could take a shorter path through `p` than it has.
pub open spec fn relaxed(nav: NavModel, cells: Map<(int, int), FlowCell>, p: (int, int)) -> bool {
    cells[p].distance matches Distance::Path(s) ==> forall|flow: Flow|
        flow.is_compass() && #[trigger] has_direction(nav.masks[p], flow) ==> !cells[neighbor_of(
            p,
            flow,
        )].distance.beyond_path(s.plus(flow.step()))
}

/// The cell waits in the queue with the length it has now.
pub open spec fn waiting(w: Wave, p: (int, int)) -> bool {
    exists|i: int|
        0 <= i < w.queue.len() && (#[trigger] w.queue[i]).at() == p && w.cells[p].distance
            == Distance::Path(w.queue[i].dist)
}

/// The cell is the one whose neighbours are being looked at, with the length it has now.
pub open spec fn held(w: Wave, hold: Option<Pending>, p: (int, int)) -> bool {
    hold matches Some(e) && e.at() == p && w.cells[p].distance == Distance::Path(e.dist)
}

/// A cell with a compass direction points along a link to a cell whose path,
/// with that step added, is at most as long as its own.
pub open spec fn led(nav: NavModel, cells: Map<(int, int), FlowCell>, p: (int, int)) -> bool {
    let flow = cells[p].flow;
    let a = ahead_of(p, flow);
    flow.is_compass() ==> nav.linked(a, flow) && (cells[a].distance matches Distance::Path(sa)
        && cells[p].distance matches Distance::Path(sp) && sa.plus(flow.step()).le(sp))
}

/// What holds of the wave at every step: it is bounded, every direction
/// leads to a cell that is nearer, and every cell that has a path either waits
/// for its turn or has nothing left to offer.
pub open spec fn steady(
    nav: NavModel,
    sources: Set<(int, int)>,
    w: Wave,
    hold: Option<Pending>,
) -> bool {
    &&& bounded(nav, sources, w)
    &&& hold matches Some(e) ==> entry_sound(nav, w.cells, e)
    &&& forall|p: (int, int)| #[trigger] nav.contains(p) ==> led(nav, w.cells, p)
    &&& forall|p: (int, int)| #[trigger]
        nav.contains(p) ==> waiting(w, p) || held(w, hold, p) || relaxed(nav, w.cells, p)
}

/// The neighbour of the entry's cell against `flow` has been offered the path through it.
pub open spec fn offered(
    nav: NavModel,
    cells: Map<(int, int), FlowCell>,
    e: Pending,
    flow: Flow,
) -> bool {
    has_direction(nav.masks[e.at()], flow) ==> !cells[neighbor_of(
        e.at(),
        flow,
    )].distance.beyond_path(e.dist.plus(flow.step()))
}

/// A cell that had no use for a path has none after it took a shorter one.
proof fn lemma_refusal_kept(old_distance: Distance, nd: Steps, v: Steps)
    requires
        !(old_distance is Sight),
        old_distance.beyond_path(nd),
        !old_distance.beyond_path(v),
    ensures
        !Distance::Path(nd).beyond_path(v),
{
    if v.lt(nd) {
        lemma_lt_transitive(v, nd, old_distance->Path_0);
    }
}

/// The path of a cell of a bounded wave has fewer steps than the grid has cells.
proof fn lemma_cell_hops(nav: NavModel, sources: Set<(int, int)>, w: Wave, p: (int, int))
    requires
        nav.wf(),
        bounded(nav, sources, w),
        nav.contains(p),
        w.cells[p].distance is Path,
    ensures
        w.cells[p].distance->Path_0.hops() + 1 <= MAX_SIDE * MAX_SIDE,
{
    lemma_below_bounded(nav, w.cells, w.cells[p].distance->Path_0);
}

/// Adding one step to two lengths keeps their order.
proof fn lemma_le_plus(a: Steps, b: Steps, step: Steps)
    requires
        a.hops() + 1 <= MAX_SIDE * MAX_SIDE + 1,
        b.hops() + 1 <= MAX_SIDE * MAX_SIDE + 1,
        step.hops() <= 1,
    ensures
        a.lt(b) == a.plus(step).lt(b.plus(step)),
        a.le(b) == a.plus(step).le(b.plus(step)),
{
}

/// The offer to the neighbour against `flow` is taken.
pub open spec fn taken(nav: NavModel, w: Wave, e: Pending, flow: Flow) -> bool {
    has_direction(nav.masks[e.at()], flow) && w.cells[neighbor_of(
        e.at(),
        flow,
    )].distance.beyond_path(e.dist.plus(flow.step()))
}

/// An offer that is taken undoes no earlier offer of the same entry.
proof fn lemma_taken_offered(
    nav: NavModel,
    sources: Set<(int, int)>,
    w: Wave,
    e: Pending,
    flow: Flow,
    f: Flow,
)
    requires
        nav.wf(),
        steady(nav, sources, w, Some(e)),
        flow.is_compass(),
        taken(nav, w, e, flow),
        offered(nav, w.cells, e, f),
    ensures
        offered(nav, relax(nav, w, e.dist, e.at(), flow).cells, e, f),
{
    let at = e.at();
    let n = neighbor_of(at, flow);
    let nd = e.dist.plus(flow.step());
    lemma_linked_interior(nav, at, flow);
    if has_direction(nav.masks[at], f) && neighbor_of(at, f) == n {
        lemma_refusal_kept(w.cells[n].distance, nd, e.dist.plus(f.step()));
    }
}

/// After an offer is taken every direction still leads to a nearer cell.
proof fn lemma_taken_led(
    nav: NavModel,
    sources: Set<(int, int)>,
    w: Wave,
    e: Pending,
    flow: Flow,
    p: (int, int),
)
    requires
        nav.wf(),
        steady(nav, sources, w, Some(e)),
        flow.is_compass(),
        taken(nav, w, e, flow),
        nav.contains(p),
    ensures
        led(nav, relax(nav, w, e.dist, e.at(), flow).cells, p),
{
    let at = e.at();
    let d = e.dist;
    let n = neighbor_of(at, flow);
    let nd = d.plus(flow.step());
    lemma_linked_interior(nav, at, flow);
    lemma_entry_hops(nav, w.cells, e);
    if p == n {
        let sa = w.cells[at].distance->Path_0;
        lemma_cell_hops(nav, sources, w, at);
        lemma_le_plus(sa, d, flow.step());
    } else {
        let fp = w.cells[p].flow;
        if fp.is_compass() && ahead_of(p, fp) == n {
            let o = w.cells[n].distance->Path_0;
            let sp = w.cells[p].distance->Path_0;
            lemma_cell_hops(nav, sources, w, n);
            lemma_le_plus(nd, o, fp.step());
            lemma_le_transitive(nd.plus(fp.step()), o.plus(fp.step()), sp);
        }
    }
}

/// After an offer is taken every cell still waits, is held, or has nothing to offer.
proof fn lemma_taken_settles(
    nav: NavModel,
    sources: Set<(int, int)>,
    w: Wave,
    e: Pending,
    flow: Flow,
    p: (int, int),
)
    requires
        nav.wf(),
        steady(nav, sources, w, Some(e)),
        flow.is_compass(),
        taken(nav, w, e, flow),
        nav.contains(p),
    ensures
        waiting(relax(nav, w, e.dist, e.at(), flow), p) || held(
            relax(nav, w, e.dist, e.at(), flow),
            Some(e),
            p,
        ) || relaxed(nav, relax(nav, w, e.dist, e.at(), flow).cells, p),
{
    let at = e.at();
    let d = e.dist;
    let n = neighbor_of(at, flow);
    let nd = d.plus(flow.step());
    let after = relax(nav, w, d, at, flow);
    lemma_linked_interior(nav, at, flow);
    let old_distance = w.cells[n].distance;
    if p == n {
        let last = after.queue.len() - 1;
        assert(after.queue[last].at() == n);
    } else if waiting(w, p) {
        let i = choose|i: int|
            0 <= i < w.queue.len() && (#[trigger] w.queue[i]).at() == p && w.cells[p].distance
                == Distance::Path(w.queue[i].dist);
        assert(after.queue[i] == w.queue[i]);
    } else if held(w, Some(e), p) {
    } else {
        if w.cells[p].distance is Path {
            let s = w.cells[p].distance->Path_0;
            assert forall|f: Flow|
                f.is_compass() && #[trigger] has_direction(
                    nav.masks[p],
                    f,
                ) implies !after.cells[neighbor_of(p, f)].distance.beyond_path(
                s.plus(f.step()),
            ) by {
                if neighbor_of(p, f) == n {
                    lemma_refusal_kept(old_distance, nd, s.plus(f.step()));
                }
            }
        }
    }
}

/// One offer keeps the wave steady, is then made, and undoes no earlier one.
pub proof fn lemma_relax_steady(
    nav: NavModel,
    sources: Set<(int, int)>,
    w: Wave,
    e: Pending,
    flow: Flow,
)
    requires
        nav.wf(),
        steady(nav, sources, w, Some(e)),
        flow.is_compass(),
    ensures
        steady(nav, sources, relax(nav, w, e.dist, e.at(), flow), Some(e)),
        offered(nav, relax(nav, w, e.dist, e.at(), flow).cells, e, flow),
        forall|f: Flow|
            offered(nav, w.cells, e, f) ==> offered(
                nav,
                relax(nav, w, e.dist, e.at(), flow).cells,
                e,
                f,
            ),
{
    let after = relax(nav, w, e.dist, e.at(), flow);
    lemma_relax_bounded(nav, sources, w, e, flow);
    if taken(nav, w, e, flow) {
        let nd = e.dist.plus(flow.step());
        lemma_lt_total(nd, nd);
        assert forall|f: Flow| offered(nav, w.cells, e, f) implies offered(
            nav,
            after.cells,
            e,
            f,
        ) by {
            lemma_taken_offered(nav, sources, w, e, flow, f);
        }
        assert forall|p: (int, int)| #[trigger] nav.contains(p) implies led(nav, after.cells, p) by {
            lemma_taken_led(nav, sources, w, e, flow, p);
        }
        assert forall|p: (int, int)| #[trigger] nav.contains(p) implies waiting(after, p) || held(
            after,
            Some(e),
            p,
        ) || relaxed(nav, after.cells, p) by {
            lemma_taken_settles(nav, sources, w, e, flow, p);
        }
    }
}

/// The eight offers of one step keep the wave steady, and leave the cell
/// they came from with nothing more to offer.
pub proof fn lemma_expand_steady(nav: NavModel, sources: Set<(int, int)>, w: Wave, e: Pending)
    requires
        nav.wf(),
        steady(nav, sources, w, Some(e)),
    ensures
        steady(nav, sources, expand(nav, w, e.dist, e.at()), None),
{
    let d = e.dist;
    let at = e.at();
    let w1 = relax(nav, w, d, at, Flow::North);
    lemma_relax_steady(nav, sources, w, e, Flow::North);
    let w2 = relax(nav, w1, d, at, Flow::East);
    lemma_relax_steady(nav, sources, w1, e, Flow::East);
    let w3 = relax(nav, w2, d, at, Flow::South);
    lemma_relax_steady(nav, sources, w2, e, Flow::South);
    let w4 = relax(nav, w3, d, at, Flow::West);
    lemma_relax_steady(nav, sources, w3, e, Flow::West);
    let w5 = relax(nav, w4, d, at, Flow::NorthEast);
    lemma_relax_steady(nav, sources, w4, e, Flow::NorthEast);
    let w6 = relax(nav, w5, d, at, Flow::SouthEast);
    lemma_relax_steady(nav, sources, w5, e, Flow::SouthEast);
    let w7 = relax(nav, w6, d, at, Flow::SouthWest);
    lemma_relax_steady(nav, sources, w6, e, Flow::SouthWest);
    let w8 = relax(nav, w7, d, at, Flow::NorthWest);
    lemma_relax_steady(nav, sources, w7, e, Flow::NorthWest);
    assert forall|f: Flow| f.is_compass() implies offered(nav, w8.cells, e, f) by {
        match f {
            Flow::North => {
            },
            Flow::East => {
            },
            Flow::South => {
            },
            Flow::West => {
            },
            Flow::NorthEast => {
            },
            Flow::SouthEast => {
            },
            Flow::SouthWest => {
            },
            _ => {
            },
        }
    }
    assert forall|p: (int, int)| #[trigger] nav.contains(p) implies waiting(w8, p) || held(
        w8,
        None,
        p,
    ) || relaxed(nav, w8.cells, p) by {
        if held(w8, Some(e), p) {
            assert forall|f: Flow|
                f.is_compass() && #[trigger] has_direction(
                    nav.masks[p],
                    f,
                ) implies !w8.cells[neighbor_of(p, f)].distance.beyond_path(d.plus(f.step())) by {
            }
        }
    }
}

/// A step keeps the wave steady.
pub proof fn lemma_advance_steady(nav: NavModel, sources: Set<(int, int)>, w: Wave)
    requires
        nav.wf(),
        steady(nav, sources, w, None),
    ensures
        steady(nav, sources, advance(nav, w), None),
{
    if w.queue.len() > 0 {
        let e = w.queue[0];
        let rest = popped(w);
        lemma_popped_bounded(nav, sources, w);
        assert forall|p: (int, int)| #[trigger] nav.contains(p) implies waiting(rest, p) || held(
            rest,
            Some(e),
            p,
        ) || relaxed(nav, rest.cells, p) by {
            if waiting(w, p) {
                let i = choose|i: int|
                    0 <= i < w.queue.len() && (#[trigger] w.queue[i]).at() == p
                        && w.cells[p].distance == Distance::Path(w.queue[i].dist);
                if i > 0 {
                    assert(rest.queue[i - 1] == w.queue[i]);
                }
            }
        }
        lemma_expand_steady(nav, sources, rest, e);
    }
}

/// The seeded wave is steady.
pub proof fn lemma_seeded_steady(nav: NavModel, sources: Seq<[usize; 2]>)
    requires
        nav.wf(),
        all_inside(nav, sources),
    ensures
        steady(nav, cell_set(sources), seeded(nav, sources), None),
{
    lemma_seeded_shape(nav, sources);
    lemma_seeded_bounded(nav, sources);
    let w = seeded(nav, sources);
    assert forall|p: (int, int)| #[trigger] nav.contains(p) implies waiting(w, p) || relaxed(
        nav,
        w.cells,
        p,
    ) by {
        if cell_set(sources).contains(p) {
            let i = choose|i: int|
                0 <= i < sources.len() && (#[trigger] sources[i])[0] == p.0 && sources[i][1] == p.1;
            assert(w.queue[i].at() == p);
        }
    }
}

} // verus!
