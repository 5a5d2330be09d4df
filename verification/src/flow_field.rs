//! Flow fields: for every cell of a navigation grid, how far the nearest
//! target is and which way an agent on the cell should move.

use crate::distance::{Distance, sight_is_out_of_range, Steps};
use crate::flow::{Flow, FlowCell, neighbor_idx};
use crate::grid::{flow_cells, flows_filled, flows_get, flows_put, Grid, MAX_CELLS};
use crate::nav_grid::{clamped, lemma_linked_interior, MAX_SIDE, NavGridInner, NavModel};
use crate::guarantees::{describes, lemma_field_described};
use crate::route::lemma_rest_is_closed;
use crate::sight::{
    Glance, glanced, lemma_glance, lemma_sighted, lemma_squared_length_bounded, look, reach_closed,
    remaining, Seen, seen_sound, sighted, watchers, watchful,
};
use crate::wave::{
    advanced, all_inside, cell_set, lemma_advance_bounded, lemma_advance_steady, lemma_entry_hops,
    lemma_popped_bounded, lemma_seeded_steady, lemma_settled, Pending, rank, relax, seeded,
    settled, steady, Wave,
};
use std::collections::VecDeque;
use vstd::prelude::*;

verus! {

/// A flow field over a navigation grid.
pub struct FlowField {
    side: usize,
    cells: Grid<FlowCell>,
}

impl View for FlowField {
    type V = Map<(int, int), FlowCell>;

    closed spec fn view(&self) -> Map<(int, int), FlowCell> {
        flow_cells(self.cells)
    }
}

/// Offers the neighbour of `[x, y]` against `flow` a path of length `dist`
/// through `[x, y]`, whose connectivity mask is `grid_val`.
fn check_neighbor(
    flow: Flow,
    dist: Steps,
    grid_val: u8,
    x: usize,
    y: usize,
    cells: &mut Grid<FlowCell>,
    queue: &mut VecDeque<Pending>,
    Ghost(nav): Ghost<NavModel>,
)
    requires
        nav.wf(),
        nav.contains((x as int, y as int)),
        grid_val == nav.masks[(x as int, y as int)],
        flow.is_compass(),
        dist.hops() + 1 <= MAX_SIDE * MAX_SIDE,
        forall|p: (int, int)| flow_cells(*old(cells)).dom().contains(p) <==> nav.contains(p),
    ensures
        (Wave { cells: flow_cells(*final(cells)), queue: final(queue)@ }) == relax(
            nav,
            Wave { cells: flow_cells(*old(cells)), queue: old(queue)@ },
            dist,
            (x as int, y as int),
            flow,
        ),
        forall|p: (int, int)| flow_cells(*final(cells)).dom().contains(p) <==> nav.contains(p),
{
    if grid_val & flow.mask() != 0 {
        proof {
            lemma_linked_interior(nav, (x as int, y as int), flow);
        }
        let n = neighbor_idx([x, y], flow);
        let new_dist = dist.extended(&flow.distance());
        let f = flows_get(cells, n[0], n[1]).unwrap();
        if f.distance.farther_than_path(&new_dist) {
            flows_put(cells, n[0], n[1], FlowCell { distance: Distance::Path(new_dist), flow });
            queue.push_back(Pending { dist: new_dist, x: n[0], y: n[1] });
        }
    }
}

/// The first pass: spreads the wave from the sources until it rests.
fn spread(nav: &NavGridInner, sources: &Vec<[usize; 2]>) -> (cells: Grid<FlowCell>)
    requires
        nav.wf(),
        all_inside(nav@, sources@),
    ensures
        flow_cells(cells) == settled(nav@, seeded(nav@, sources@)).cells,
        settled(nav@, seeded(nav@, sources@)).queue.len() == 0,
        steady(nav@, cell_set(sources@), settled(nav@, seeded(nav@, sources@)), None),
        forall|p: (int, int)| flow_cells(cells).dom().contains(p) <==> nav@.contains(p),
{
    let side = nav.side();
    assert(side * side <= MAX_CELLS) by (nonlinear_arith)
        requires
            0 <= side <= 4096,
    ;
    let blank = FlowCell { distance: Distance::Unreached, flow: Flow::Unreachable };
    let mut cells = flows_filled(side, side, blank);
    let mut queue: VecDeque<Pending> = VecDeque::new();
    let ghost model = nav@;
    let ghost start = seeded(model, sources@);
    assert(flow_cells(cells) =~= seeded(model, sources@.take(0)).cells);
    let mut i: usize = 0;
    while i < sources.len()
        invariant
            0 <= i <= sources.len(),
            model == nav@,
            model.wf(),
            all_inside(model, sources@),
            (Wave { cells: flow_cells(cells), queue: queue@ }) == seeded(
                model,
                sources@.take(i as int),
            ),
            forall|p: (int, int)| flow_cells(cells).dom().contains(p) <==> model.contains(p),
        decreases sources.len() - i,
    {
        let s = sources[i];
        queue.push_back(Pending { dist: Steps::zero(), x: s[0], y: s[1] });
        flows_put(
            &mut cells,
            s[0],
            s[1],
            FlowCell { distance: Distance::Path(Steps::zero()), flow: Flow::Source },
        );
        proof {
            let longer = sources@.take(i + 1);
            assert(longer.drop_last() == sources@.take(i as int));
        }
        i += 1;
    }
    assert(sources@.take(sources.len() as int) == sources@);
    let ghost mut steps: nat = 0;
    proof {
        lemma_seeded_steady(model, sources@);
    }
    while queue.len() > 0
        invariant
            model == nav@,
            model.wf(),
            start == seeded(model, sources@),
            (Wave { cells: flow_cells(cells), queue: queue@ }) == advanced(model, start, steps),
            steady(model, cell_set(sources@), Wave { cells: flow_cells(cells), queue: queue@ }, None),
            forall|p: (int, int)| flow_cells(cells).dom().contains(p) <==> model.contains(p),
        decreases rank(model, flow_cells(cells)), queue.len(),
    {
        let ghost before = Wave { cells: flow_cells(cells), queue: queue@ };
        let front = queue.pop_front().unwrap();
        proof {
            lemma_popped_bounded(model, cell_set(sources@), before);
            lemma_entry_hops(model, before.cells, front);
            lemma_advance_bounded(model, cell_set(sources@), before);
            lemma_advance_steady(model, cell_set(sources@), before);
        }
        let grid_val = nav.mask_at([front.x, front.y]);
        let dist = front.dist;
        let x = front.x;
        let y = front.y;
        check_neighbor(Flow::North, dist, grid_val, x, y, &mut cells, &mut queue, Ghost(model));
        check_neighbor(Flow::East, dist, grid_val, x, y, &mut cells, &mut queue, Ghost(model));
        check_neighbor(Flow::South, dist, grid_val, x, y, &mut cells, &mut queue, Ghost(model));
        check_neighbor(Flow::West, dist, grid_val, x, y, &mut cells, &mut queue, Ghost(model));
        check_neighbor(Flow::NorthEast, dist, grid_val, x, y, &mut cells, &mut queue, Ghost(model));
        check_neighbor(Flow::SouthEast, dist, grid_val, x, y, &mut cells, &mut queue, Ghost(model));
        check_neighbor(Flow::SouthWest, dist, grid_val, x, y, &mut cells, &mut queue, Ghost(model));
        check_neighbor(Flow::NorthWest, dist, grid_val, x, y, &mut cells, &mut queue, Ghost(model));
        proof {
            steps = steps + 1;
        }
    }
    proof {
        lemma_settled(model, start, steps);
    }
    cells
}

/// Looks from the cell of `e`, whose connectivity mask is `grid_val`, at its
/// neighbour against `flow`, and gives it a line of sight to the target of
/// `e` where that is allowed.
fn check_neighbor_raycast(
    flow: Flow,
    e: Seen,
    grid_val: u8,
    nav_grid: &NavGridInner,
    cells: &mut Grid<FlowCell>,
    queue: &mut VecDeque<Seen>,
)
    requires
        nav_grid.wf(),
        nav_grid@.contains(e.at()),
        nav_grid@.contains(e.source()),
        grid_val == nav_grid@.masks[e.at()],
        flow.is_compass(),
        forall|p: (int, int)| flow_cells(*old(cells)).dom().contains(p) <==> nav_grid@.contains(p),
    ensures
        (Glance { cells: flow_cells(*final(cells)), queue: final(queue)@ }) == look(
            nav_grid@,
            Glance { cells: flow_cells(*old(cells)), queue: old(queue)@ },
            e,
            flow,
        ),
        forall|p: (int, int)| flow_cells(*final(cells)).dom().contains(p) <==> nav_grid@.contains(p),
{
    if grid_val & flow.mask() != 0 {
        proof {
            lemma_linked_interior(nav_grid@, e.at(), flow);
        }
        let n = neighbor_idx([e.x, e.y], flow);
        let ghost at = (n[0] as int, n[1] as int);
        let f = flows_get(cells, n[0], n[1]).unwrap();
        let dark = match f.flow {
            Flow::LineOfSight(_, _) | Flow::Source => false,
            _ => true,
        };
        if dark {
            let dx: i64 = n[0] as i64 - e.sx as i64;
            let dy: i64 = n[1] as i64 - e.sy as i64;
            proof {
                lemma_squared_length_bounded(nav_grid@, e.source(), at);
            }
            assert(0 <= dx * dx <= 4096 * 4096) by (nonlinear_arith)
                requires
                    -4096 < dx < 4096,
            ;
            assert(0 <= dy * dy <= 4096 * 4096) by (nonlinear_arith)
                requires
                    -4096 < dy < 4096,
            ;
            let sq: u32 = (dx * dx + dy * dy) as u32;
            if f.distance.farther_than_sight(sq) {
                let mask = Flow::approx_mask(dx as i32, dy as i32);
                if nav_grid.mask_at(n) & mask == mask && nav_grid.raycast_walkable_dda(
                    [e.sx, e.sy],
                    n,
                ) {
                    flows_put(
                        cells,
                        n[0],
                        n[1],
                        FlowCell {
                            distance: Distance::Sight(sq),
                            flow: Flow::LineOfSight((-dx) as i32, (-dy) as i32),
                        },
                    );
                    queue.push_back(Seen { reach: sq, x: n[0], y: n[1], sx: e.sx, sy: e.sy });
                }
            }
        }
    }
}

/// The second pass: lights the cells that see a target.
fn lighten(
    nav_grid: &NavGridInner,
    sources: &Vec<[usize; 2]>,
    cells: Grid<FlowCell>,
) -> (lit_cells: Grid<FlowCell>)
    requires
        nav_grid.wf(),
        all_inside(nav_grid@, sources@),
        forall|p: (int, int)| flow_cells(cells).dom().contains(p) <==> nav_grid@.contains(p),
        reach_closed(nav_grid@, flow_cells(cells)),
        forall|i: int|
            0 <= i < sources@.len() ==> flow_cells(cells)[((#[trigger] sources@[i])[0] as int, sources@[i][1] as int)].distance is Path,
    ensures
        flow_cells(lit_cells) == sighted(
            nav_grid@,
            Glance { cells: flow_cells(cells), queue: watchers(sources@) },
        ).cells,
        watchful(
            nav_grid@,
            cell_set(sources@),
            flow_cells(cells),
            sighted(nav_grid@, Glance { cells: flow_cells(cells), queue: watchers(sources@) }),
        ),
        sighted(
            nav_grid@,
            Glance { cells: flow_cells(cells), queue: watchers(sources@) },
        ).queue.len() == 0,
{
    let ghost model = nav_grid@;
    let ghost first = flow_cells(cells);
    let ghost start = Glance { cells: first, queue: watchers(sources@) };
    let mut cells = cells;
    let mut queue: VecDeque<Seen> = VecDeque::new();
    let mut i: usize = 0;
    while i < sources.len()
        invariant
            0 <= i <= sources.len(),
            queue@.len() == i,
            forall|j: int| 0 <= j < i ==> #[trigger] queue@[j] == watchers(sources@)[j],
        decreases sources.len() - i,
    {
        let s = sources[i];
        queue.push_back(Seen { reach: 0, x: s[0], y: s[1], sx: s[0], sy: s[1] });
        i += 1;
    }
    assert(queue@ =~= watchers(sources@));
    let ghost mut steps: nat = 0;
    proof {
        assert forall|j: int| 0 <= j < queue@.len() implies seen_sound(
            model,
            cell_set(sources@),
            first,
            #[trigger] queue@[j],
        ) by {
        }
    }
    while queue.len() > 0
        invariant
            model == nav_grid@,
            nav_grid.wf(),
            reach_closed(model, first),
            start == (Glance { cells: first, queue: watchers(sources@) }),
            (Glance { cells: flow_cells(cells), queue: queue@ }) == glanced(model, start, steps),
            watchful(
                model,
                cell_set(sources@),
                first,
                Glance { cells: flow_cells(cells), queue: queue@ },
            ),
            forall|p: (int, int)| flow_cells(cells).dom().contains(p) <==> model.contains(p),
        decreases remaining(model, Glance { cells: flow_cells(cells), queue: queue@ }),
    {
        let ghost before = Glance { cells: flow_cells(cells), queue: queue@ };
        let front = queue.pop_front().unwrap();
        proof {
            lemma_glance(model, cell_set(sources@), first, before);
        }
        if !sight_is_out_of_range(front.reach) {
            let grid_val = nav_grid.mask_at([front.x, front.y]);
            check_neighbor_raycast(Flow::North, front, grid_val, nav_grid, &mut cells, &mut queue);
            check_neighbor_raycast(Flow::East, front, grid_val, nav_grid, &mut cells, &mut queue);
            check_neighbor_raycast(Flow::South, front, grid_val, nav_grid, &mut cells, &mut queue);
            check_neighbor_raycast(Flow::West, front, grid_val, nav_grid, &mut cells, &mut queue);
        }
        proof {
            steps = steps + 1;
        }
    }
    proof {
        lemma_sighted(model, start, steps);
    }
    cells
}

/// What the first pass leaves in every cell: the wave from the targets at rest.
pub open spec fn first_pass(nav: NavModel, sources: Seq<[usize; 2]>) -> Map<(int, int), FlowCell> {
    settled(nav, seeded(nav, sources)).cells
}

/// The flow field of a grid and a list of targets: what the second pass makes
/// of what the first pass left.
pub open spec fn generated(nav: NavModel, sources: Seq<[usize; 2]>) -> Map<(int, int), FlowCell> {
    sighted(nav, Glance { cells: first_pass(nav, sources), queue: watchers(sources) }).cells
}

/// Generates the flow field that leads to the cells listed in `sources`.
///
/// The result is a function of the grid and the list alone.
pub fn generate_flow_field_impl(nav_grid: &NavGridInner, sources: &Vec<[usize; 2]>) -> (field:
    FlowField)
    requires
        nav_grid.wf(),
        all_inside(nav_grid@, sources@),
    ensures
        field@ == generated(nav_grid@, sources@),
        describes(nav_grid@, sources@, field@),
        field.side_spec() == nav_grid@.side,
{
    proof {
        lemma_field_described(nav_grid@, sources@);
    }
    let first = spread(nav_grid, sources);
    proof {
        let rest = settled(nav_grid@, seeded(nav_grid@, sources@));
        lemma_rest_is_closed(nav_grid@, cell_set(sources@), rest);
        assert forall|i: int| 0 <= i < sources@.len() implies flow_cells(
            first,
        )[((#[trigger] sources@[i])[0] as int, sources@[i][1] as int)].distance is Path by {
        }
    }
    let cells = lighten(nav_grid, sources, first);
    FlowField { side: nav_grid.side(), cells }
}

impl FlowField {
    /// The number of cells along one side of the field, as mathematics.
    pub closed spec fn side_spec(&self) -> int {
        self.side as int
    }

    /// The number of cells along one side of the field.
    pub fn side(&self) -> (n: usize)
        ensures
            n == self.side_spec(),
    {
        self.side
    }

    /// The direction at `idx`, or `None` outside the field.
    pub fn get(&self, idx: [usize; 2]) -> (flow: Option<Flow>)
        ensures
            flow == if self@.dom().contains((idx[0] as int, idx[1] as int)) {
                Some(self@[(idx[0] as int, idx[1] as int)].flow)
            } else {
                None
            },
    {
        match flows_get(&self.cells, idx[0], idx[1]) {
            Some(cell) => Some(cell.flow),
            None => None,
        }
    }

    /// The distance at `idx`, or `None` outside the field.
    pub fn distance(&self, idx: [usize; 2]) -> (distance: Option<Distance>)
        ensures
            distance == if self@.dom().contains((idx[0] as int, idx[1] as int)) {
                Some(self@[(idx[0] as int, idx[1] as int)].distance)
            } else {
                None
            },
    {
        match flows_get(&self.cells, idx[0], idx[1]) {
            Some(cell) => Some(cell.distance),
            None => None,
        }
    }
}

/// Why no flow field could be generated.
#[derive(Clone, Copy, Debug, PartialEq, Eq, Structural)]
pub enum TargetError {
    /// A target needs a walkable cell and the level has none.
    NoWalkableCell,
}

/// The cells that a list of targets is generated for: each target is moved
/// into the grid, and one that then lies on a cell that is not walkable is
/// replaced by a nearest walkable cell.
pub open spec fn resolves(nav: NavModel, targets: Seq<[usize; 2]>, cells: Seq<[usize; 2]>) -> bool {
    &&& cells.len() == targets.len()
    &&& forall|i: int|
        0 <= i < targets.len() ==> {
            let want = clamped(nav.side, ((#[trigger] targets[i])[0] as int, targets[i][1] as int));
            let got = (cells[i][0] as int, cells[i][1] as int);
            if nav.walkable[want] {
                got == want
            } else {
                nav.nearest_walkable(want, got)
            }
        }
}

/// Turns target cells into the source cells of a flow field; see `resolves`.
/// Fails when a target has to be replaced and the level has no walkable cell.
pub fn resolve_targets(nav_grid: &NavGridInner, targets: &Vec<[usize; 2]>) -> (r: Result<
    Vec<[usize; 2]>,
    TargetError,
>)
    requires
        nav_grid.wf(),
    ensures
        r matches Ok(cells) ==> resolves(nav_grid@, targets@, cells@) && all_inside(
            nav_grid@,
            cells@,
        ),
        r is Err <==> targets.len() > 0 && nav_grid@.closed(),
{
    let mut cells: Vec<[usize; 2]> = Vec::new();
    let mut i: usize = 0;
    while i < targets.len()
        invariant
            nav_grid.wf(),
            0 <= i <= targets.len(),
            cells.len() == i,
            i > 0 ==> !nav_grid@.closed(),
            resolves(nav_grid@, targets@.take(i as int), cells@),
            all_inside(nav_grid@, cells@),
        decreases targets.len() - i,
    {
        let want = nav_grid.clamp_index(targets[i]);
        if nav_grid.is_walkable(want) {
            cells.push(want);
        } else {
            match nav_grid.nearest_walkable(want) {
                Some(c) => {
                    cells.push(c);
                },
                None => {
                    return Err(TargetError::NoWalkableCell);
                },
            }
        }
        proof {
            let longer = targets@.take(i + 1);
            assert forall|j: int| 0 <= j < longer.len() implies {
                let wanted = clamped(
                    nav_grid@.side,
                    ((#[trigger] longer[j])[0] as int, longer[j][1] as int),
                );
                let got = (cells@[j][0] as int, cells@[j][1] as int);
                if nav_grid@.walkable[wanted] {
                    got == wanted
                } else {
                    nav_grid@.nearest_walkable(wanted, got)
                }
            } by {
            }
            assert forall|j: int| 0 <= j < cells@.len() implies nav_grid@.contains(
                ((#[trigger] cells@[j])[0] as int, cells@[j][1] as int),
            ) by {
            }
        }
        i += 1;
    }
    assert(targets@.take(targets.len() as int) == targets@);
    Ok(cells)
}

/// Generates the flow field that leads to the targets, after each target was
/// moved to a walkable cell of the grid; see `resolves`.
pub fn generate_flow_field(nav_grid: &NavGridInner, targets: &Vec<[usize; 2]>) -> (r: Result<
    FlowField,
    TargetError,
>)
    requires
        nav_grid.wf(),
    ensures
        r matches Ok(field) ==> field.side_spec() == nav_grid@.side && exists|cells: Seq<[usize; 2]>|
            #[trigger] resolves(nav_grid@, targets@, cells) && field@ == generated(nav_grid@, cells)
                && describes(nav_grid@, cells, field@),
        r is Err <==> targets.len() > 0 && nav_grid@.closed(),
{
    match resolve_targets(nav_grid, targets) {
        Ok(cells) => Ok(generate_flow_field_impl(nav_grid, &cells)),
        Err(e) => Err(e),
    }
}

} // verus!
