//! The second pass of flow-field generation, as a state machine.
//!
//! From every target the pass walks outward over straight links. A cell it
//! comes to is given a line of sight to the target when the line is nearer
//! than the grid path the cell has, the cell is open towards the quadrant the
//! line lies in, and the line passes over walkable cells only; the walk goes
//! on from such a cell until the line gets too long.

use crate::counting::{lemma_cells_bounded, lemma_shrinks};
use crate::distance::{Distance, sight_out_of_range};
use crate::flow::{ahead_of, Flow, FlowCell, has_direction, neighbor_of, quadrant_mask};
use crate::nav_grid::{lemma_linked_interior, MAX_SIDE, NavModel};
use vstd::prelude::*;

verus! {

/// A cell that waits in the queue of the second pass: the squared length of
/// its line of sight, where it is, and the target it sees.
#[derive(Clone, Copy, Debug)]
pub struct Seen {
    pub reach: u32,
    pub x: usize,
    pub y: usize,
    pub sx: usize,
    pub sy: usize,
}

impl Seen {
    /// The cell that waits.
    pub open spec fn at(self) -> (int, int) {
        (self.x as int, self.y as int)
    }

    /// The target that the cell sees.
    pub open spec fn source(self) -> (int, int) {
        (self.sx as int, self.sy as int)
    }
}

/// The state of the second pass.
pub struct Glance {
    pub cells: Map<(int, int), FlowCell>,
    pub queue: Seq<Seen>,
}

/// The cell is a target or sees one.
pub open spec fn lit(c: FlowCell) -> bool {
    c.flow is LineOfSight || c.flow is Source
}

/// The squared length of the line between two cells.
pub open spec fn squared_length(a: (int, int), b: (int, int)) -> int {
    (b.0 - a.0) * (b.0 - a.0) + (b.1 - a.1) * (b.1 - a.1)
}

/// A cell `n` that holds `c` can be given a line of sight to the target `src`.
pub open spec fn sees(nav: NavModel, c: FlowCell, src: (int, int), n: (int, int)) -> bool {
    &&& !lit(c)
    &&& c.distance.beyond_sight(squared_length(src, n) as u32)
    &&& nav.masks[n] & quadrant_mask(n.0 - src.0, n.1 - src.1) == quadrant_mask(
        n.0 - src.0,
        n.1 - src.1,
    )
    &&& nav.ray_clear(src, n)
}

/// The cell a line of sight from `n` to `src` is written as.
pub open spec fn sight_cell(src: (int, int), n: (int, int)) -> FlowCell {
    FlowCell {
        distance: Distance::Sight(squared_length(src, n) as u32),
        flow: Flow::LineOfSight((src.0 - n.0) as i32, (src.1 - n.1) as i32),
    }
}

/// Looks from the entry's cell at its neighbour against `flow`.
pub open spec fn look(nav: NavModel, g: Glance, e: Seen, flow: Flow) -> Glance {
    let n = neighbor_of(e.at(), flow);
    if has_direction(nav.masks[e.at()], flow) && sees(nav, g.cells[n], e.source(), n) {
        Glance {
            cells: g.cells.insert(n, sight_cell(e.source(), n)),
            queue: g.queue.push(
                Seen {
                    reach: squared_length(e.source(), n) as u32,
                    x: n.0 as usize,
                    y: n.1 as usize,
                    sx: e.sx,
                    sy: e.sy,
                },
            ),
        }
    } else {
        g
    }
}

/// Looks at the four straight neighbours of the entry's cell, unless its own line
/// is already too long.
pub open spec fn survey(nav: NavModel, g: Glance, e: Seen) -> Glance {
    if sight_out_of_range(e.reach as int) {
        g
    } else {
        let g1 = look(nav, g, e, Flow::North);
        let g2 = look(nav, g1, e, Flow::East);
        let g3 = look(nav, g2, e, Flow::South);
        look(nav, g3, e, Flow::West)
    }
}

/// One step of the second pass; nothing happens once the queue is empty.
pub open spec fn glance(nav: NavModel, g: Glance) -> Glance {
    if g.queue.len() == 0 {
        g
    } else {
        survey(nav, Glance { cells: g.cells, queue: g.queue.drop_first() }, g.queue[0])
    }
}

/// The second pass after `n` steps.
pub open spec fn glanced(nav: NavModel, g: Glance, n: nat) -> Glance
    decreases n,
{
    if n == 0 {
        g
    } else {
        glance(nav, glanced(nav, g, (n - 1) as nat))
    }
}

/// The entries the second pass starts with: every target, seeing itself.
pub open spec fn watchers(sources: Seq<[usize; 2]>) -> Seq<Seen> {
    Seq::new(
        sources.len(),
        |i: int|
            Seen { reach: 0, x: sources[i][0], y: sources[i][1], sx: sources[i][0], sy: sources[i][1] },
    )
}

/// Where the second pass ends when it starts from `g`.
pub open spec fn sighted(nav: NavModel, g: Glance) -> Glance {
    glanced(nav, g, choose|n: nat| glanced(nav, g, n).queue.len() == 0)
}

/// Once the queue is empty the pass stays as it is.
pub proof fn lemma_glanced_rests(nav: NavModel, g: Glance, n: nat, m: nat)
    requires
        glanced(nav, g, n).queue.len() == 0,
        n <= m,
    ensures
        glanced(nav, g, m) == glanced(nav, g, n),
    decreases m,
{
    if m > n {
        lemma_glanced_rests(nav, g, n, (m - 1) as nat);
    }
}

/// A pass that has come to rest after some number of steps is where the pass ends.
pub proof fn lemma_sighted(nav: NavModel, g: Glance, n: nat)
    requires
        glanced(nav, g, n).queue.len() == 0,
    ensures
        sighted(nav, g) == glanced(nav, g, n),
{
    let m = choose|m: nat| glanced(nav, g, m).queue.len() == 0;
    if m <= n {
        lemma_glanced_rests(nav, g, m, n);
    } else {
        lemma_glanced_rests(nav, g, n, m);
    }
}

/// What a cell of the second pass is, given what the first pass left there:
/// the same, or a line of sight that was allowed to replace it.
pub open spec fn sight_sound(
    nav: NavModel,
    sources: Set<(int, int)>,
    first: Map<(int, int), FlowCell>,
    cells: Map<(int, int), FlowCell>,
    p: (int, int),
) -> bool {
    cells[p] == first[p] || (cells[p].flow matches Flow::LineOfSight(ox, oy) && {
        let src = (p.0 + ox, p.1 + oy);
        &&& sources.contains(src)
        &&& nav.contains(src)
        &&& cells[p] == sight_cell(src, p)
        &&& sees(nav, first[p], src, p)
        &&& first[p].distance is Path
    })
}

/// An entry names a target and a cell of the grid that the first pass reached.
pub open spec fn seen_sound(
    nav: NavModel,
    sources: Set<(int, int)>,
    first: Map<(int, int), FlowCell>,
    e: Seen,
) -> bool {
    &&& nav.contains(e.at())
    &&& nav.contains(e.source())
    &&& sources.contains(e.source())
    &&& first[e.at()].distance is Path
}

/// The target a lit cell belongs to: itself for a target, else the cell its line points at.
pub open spec fn target_of(c: FlowCell, p: (int, int)) -> (int, int) {
    match c.flow {
        Flow::LineOfSight(ox, oy) => (p.0 + ox, p.1 + oy),
        _ => p,
    }
}

/// An entry belongs to the cell it names: the cell is lit, by the target of
/// the entry and with a line as long as the entry says.
pub open spec fn seen_fits(cells: Map<(int, int), FlowCell>, e: Seen) -> bool {
    &&& lit(cells[e.at()])
    &&& target_of(cells[e.at()], e.at()) == e.source()
    &&& e.reach == squared_length(e.source(), e.at())
}

/// Nothing is left to light from the lit cell `p`: its own line is too
/// long to go on from, or none of its straight neighbours can be given a line
/// of sight to its target.
pub open spec fn looked_around(nav: NavModel, cells: Map<(int, int), FlowCell>, p: (int, int)) -> bool {
    lit(cells[p]) && !sight_out_of_range(squared_length(target_of(cells[p], p), p)) ==> forall|
        flow: Flow,
    |
        flow.is_cardinal() && #[trigger] has_direction(nav.masks[p], flow) ==> !sees(
            nav,
            cells[neighbor_of(p, flow)],
            target_of(cells[p], p),
            neighbor_of(p, flow),
        )
}

/// The cell `p` was given its line from the cell that the straight step
/// `flow` leads to: a cell linked to it that is lit by the same target, with a
/// line short enough to go on from.
pub open spec fn lit_from(
    nav: NavModel,
    cells: Map<(int, int), FlowCell>,
    p: (int, int),
    flow: Flow,
) -> bool {
    let u = ahead_of(p, flow);
    &&& flow.is_cardinal()
    &&& nav.linked(u, flow)
    &&& lit(cells[u])
    &&& target_of(cells[u], u) == target_of(cells[p], p)
    &&& !sight_out_of_range(squared_length(target_of(cells[u], u), u))
}

/// A line of sight was handed on from a straight neighbour: no line is
/// longer than a line in range and one step.
pub open spec fn handed_on(nav: NavModel, cells: Map<(int, int), FlowCell>, p: (int, int)) -> bool {
    cells[p].flow is LineOfSight ==> exists|flow: Flow| #[trigger] lit_from(nav, cells, p, flow)
}

/// Every line of sight of the grid was handed on.
pub open spec fn traced(nav: NavModel, cells: Map<(int, int), FlowCell>) -> bool {
    forall|p: (int, int)| nav.contains(p) ==> #[trigger] handed_on(nav, cells, p)
}

/// The lit cell waits in the queue.
pub open spec fn expected(g: Glance, p: (int, int)) -> bool {
    exists|i: int| 0 <= i < g.queue.len() && (#[trigger] g.queue[i]).at() == p
}

/// What holds of the second pass at every step as to what is left to do: every
/// line was handed on, every entry belongs to its cell, and every lit cell
/// waits, is being looked around from (`hold`), or has been looked around from.
pub open spec fn thorough(nav: NavModel, g: Glance, hold: Option<Seen>) -> bool {
    &&& traced(nav, g.cells)
    &&& forall|i: int| 0 <= i < g.queue.len() ==> seen_fits(g.cells, #[trigger] g.queue[i])
    &&& hold matches Some(e) ==> seen_fits(g.cells, e)
    &&& forall|p: (int, int)| #[trigger]
        nav.contains(p) ==> expected(g, p) || (hold matches Some(e) && e.at() == p)
            || looked_around(nav, g.cells, p)
}

/// The look of the entry against `flow` has been taken or is of no use.
pub open spec fn looked(nav: NavModel, cells: Map<(int, int), FlowCell>, e: Seen, flow: Flow) -> bool {
    has_direction(nav.masks[e.at()], flow) ==> !sees(
        nav,
        cells[neighbor_of(e.at(), flow)],
        e.source(),
        neighbor_of(e.at(), flow),
    )
}

/// Where the first pass reached a cell it reached every cell linked to it.
pub open spec fn reach_closed(nav: NavModel, first: Map<(int, int), FlowCell>) -> bool {
    forall|u: (int, int), flow: Flow|
        nav.contains(u) && first[u].distance is Path && flow.is_compass() && #[trigger] has_direction(
            nav.masks[u],
            flow,
        ) ==> first[neighbor_of(u, flow)].distance is Path
}

/// What holds of the second pass at every step.
pub open spec fn watchful(
    nav: NavModel,
    sources: Set<(int, int)>,
    first: Map<(int, int), FlowCell>,
    g: Glance,
) -> bool {
    &&& forall|p: (int, int)| g.cells.dom().contains(p) <==> #[trigger] nav.contains(p)
    &&& forall|p: (int, int)| #[trigger] nav.contains(p) ==> sight_sound(nav, sources, first, g.cells, p)
    &&& forall|i: int| 0 <= i < g.queue.len() ==> seen_sound(nav, sources, first, #[trigger] g.queue[i])
}

/// The cells that are neither a target nor see one.
pub open spec fn unlit(nav: NavModel, cells: Map<(int, int), FlowCell>) -> Set<(int, int)> {
    Set::new(|p: (int, int)| nav.contains(p) && !lit(cells[p]))
}

/// What is left to do at most: the cells that could still be lit, and the entries that wait.
pub open spec fn remaining(nav: NavModel, g: Glance) -> nat {
    unlit(nav, g.cells).len() + g.queue.len()
}

/// The line between two cells of the grid is short enough for its squared length
/// and its offsets to be kept in 32 bits.
pub proof fn lemma_squared_length_bounded(nav: NavModel, a: (int, int), b: (int, int))
    requires
        nav.wf(),
        nav.contains(a),
        nav.contains(b),
    ensures
        0 <= squared_length(a, b) <= 2 * MAX_SIDE * MAX_SIDE,
        a != b ==> squared_length(a, b) > 0,
{
    let dx = b.0 - a.0;
    let dy = b.1 - a.1;
    assert(0 <= dx * dx <= 4096 * 4096 && (dx != 0 ==> dx * dx > 0)) by (nonlinear_arith)
        requires
            -4096 < dx < 4096,
    ;
    assert(0 <= dy * dy <= 4096 * 4096 && (dy != 0 ==> dy * dy > 0)) by (nonlinear_arith)
        requires
            -4096 < dy < 4096,
    ;
}

/// One look keeps the pass watchful; a look that lights a cell leaves one
/// cell less to light and one entry more, any other leaves everything as it was.
pub proof fn lemma_look(
    nav: NavModel,
    sources: Set<(int, int)>,
    first: Map<(int, int), FlowCell>,
    g: Glance,
    e: Seen,
    flow: Flow,
)
    requires
        nav.wf(),
        reach_closed(nav, first),
        watchful(nav, sources, first, g),
        seen_sound(nav, sources, first, e),
        flow.is_compass(),
    ensures
        watchful(nav, sources, first, look(nav, g, e, flow)),
        unlit(nav, g.cells).finite(),
        look(nav, g, e, flow) == g || (unlit(nav, look(nav, g, e, flow).cells).len() < unlit(
            nav,
            g.cells,
        ).len() && look(nav, g, e, flow).queue.len() == g.queue.len() + 1),
{
    let n = neighbor_of(e.at(), flow);
    let after = look(nav, g, e, flow);
    lemma_cells_bounded(unlit(nav, g.cells), nav.side);
    if has_direction(nav.masks[e.at()], flow) && sees(nav, g.cells[n], e.source(), n) {
        lemma_linked_interior(nav, e.at(), flow);
        let src = e.source();
        lemma_squared_length_bounded(nav, src, n);
        assert forall|p: (int, int)| #[trigger] nav.contains(p) implies sight_sound(
            nav,
            sources,
            first,
            after.cells,
            p,
        ) by {
        }
        assert forall|i: int| 0 <= i < after.queue.len() implies seen_sound(
            nav,
            sources,
            first,
            #[trigger] after.queue[i],
        ) by {
        }
        lemma_shrinks(unlit(nav, after.cells), unlit(nav, g.cells), n);
    }
}

/// The looks of one entry keep the pass watchful and leave less to do
/// than there was before the entry was taken off the queue.
pub proof fn lemma_survey(
    nav: NavModel,
    sources: Set<(int, int)>,
    first: Map<(int, int), FlowCell>,
    g: Glance,
    e: Seen,
)
    requires
        nav.wf(),
        reach_closed(nav, first),
        watchful(nav, sources, first, g),
        seen_sound(nav, sources, first, e),
    ensures
        watchful(nav, sources, first, survey(nav, g, e)),
        remaining(nav, survey(nav, g, e)) <= remaining(nav, g),
{
    if !sight_out_of_range(e.reach as int) {
        let g1 = look(nav, g, e, Flow::North);
        lemma_look(nav, sources, first, g, e, Flow::North);
        let g2 = look(nav, g1, e, Flow::East);
        lemma_look(nav, sources, first, g1, e, Flow::East);
        let g3 = look(nav, g2, e, Flow::South);
        lemma_look(nav, sources, first, g2, e, Flow::South);
        lemma_look(nav, sources, first, g3, e, Flow::West);
    }
}

/// A step of the second pass keeps it watchful and leaves less to do.
pub proof fn lemma_glance(
    nav: NavModel,
    sources: Set<(int, int)>,
    first: Map<(int, int), FlowCell>,
    g: Glance,
)
    requires
        nav.wf(),
        reach_closed(nav, first),
        watchful(nav, sources, first, g),
        g.queue.len() > 0,
    ensures
        watchful(nav, sources, first, glance(nav, g)),
        seen_sound(nav, sources, first, g.queue[0]),
        remaining(nav, glance(nav, g)) < remaining(nav, g),
{
    let rest = Glance { cells: g.cells, queue: g.queue.drop_first() };
    assert forall|i: int| 0 <= i < rest.queue.len() implies seen_sound(
        nav,
        sources,
        first,
        #[trigger] rest.queue[i],
    ) by {
    }
    lemma_survey(nav, sources, first, rest, g.queue[0]);
}

/// A look from a cell whose line is in range keeps every line handed on.
proof fn lemma_look_traced(
    nav: NavModel,
    sources: Set<(int, int)>,
    first: Map<(int, int), FlowCell>,
    g: Glance,
    e: Seen,
    flow: Flow,
)
    requires
        nav.wf(),
        watchful(nav, sources, first, g),
        seen_sound(nav, sources, first, e),
        seen_fits(g.cells, e),
        traced(nav, g.cells),
        flow.is_cardinal(),
        !sight_out_of_range(e.reach as int),
    ensures
        traced(nav, look(nav, g, e, flow).cells),
{
    let n = neighbor_of(e.at(), flow);
    let after = look(nav, g, e, flow);
    if has_direction(nav.masks[e.at()], flow) && sees(nav, g.cells[n], e.source(), n) {
        lemma_linked_interior(nav, e.at(), flow);
        let src = e.source();
        lemma_squared_length_bounded(nav, src, n);
        lemma_squared_length_bounded(nav, src, e.at());
        assert forall|p: (int, int)| nav.contains(p) implies #[trigger] handed_on(
            nav,
            after.cells,
            p,
        ) by {
            if p == n {
                assert(ahead_of(n, flow) == e.at());
                assert(target_of(after.cells[n], n) == src);
                assert(lit_from(nav, after.cells, n, flow));
            } else if g.cells[p].flow is LineOfSight {
                assert(handed_on(nav, g.cells, p));
                let f = choose|f: Flow| #[trigger] lit_from(nav, g.cells, p, f);
                assert(ahead_of(p, f) != n);
                assert(lit_from(nav, after.cells, p, f));
            }
        }
    }
}

/// One look keeps the pass thorough, is then made, and undoes no earlier one.
pub proof fn lemma_look_thorough(
    nav: NavModel,
    sources: Set<(int, int)>,
    first: Map<(int, int), FlowCell>,
    g: Glance,
    e: Seen,
    flow: Flow,
)
    requires
        nav.wf(),
        reach_closed(nav, first),
        watchful(nav, sources, first, g),
        seen_sound(nav, sources, first, e),
        thorough(nav, g, Some(e)),
        flow.is_cardinal(),
        !sight_out_of_range(e.reach as int),
    ensures
        thorough(nav, look(nav, g, e, flow), Some(e)),
        looked(nav, look(nav, g, e, flow).cells, e, flow),
        forall|f: Flow|
            looked(nav, g.cells, e, f) ==> looked(nav, look(nav, g, e, flow).cells, e, f),
{
    let n = neighbor_of(e.at(), flow);
    let after = look(nav, g, e, flow);
    lemma_look_traced(nav, sources, first, g, e, flow);
    if has_direction(nav.masks[e.at()], flow) && sees(nav, g.cells[n], e.source(), n) {
        lemma_linked_interior(nav, e.at(), flow);
        let src = e.source();
        lemma_squared_length_bounded(nav, src, n);
        assert forall|i: int| 0 <= i < after.queue.len() implies seen_fits(
            after.cells,
            #[trigger] after.queue[i],
        ) by {
        }
        assert forall|p: (int, int)| #[trigger] nav.contains(p) implies expected(after, p) || e.at()
            == p || looked_around(nav, after.cells, p) by {
            if p == n {
                assert(after.queue[after.queue.len() - 1].at() == n);
            } else if expected(g, p) {
                let i = choose|i: int| 0 <= i < g.queue.len() && (#[trigger] g.queue[i]).at() == p;
                assert(after.queue[i] == g.queue[i]);
            }
        }
    }
}

/// The looks of one entry leave the pass thorough with nothing held.
pub proof fn lemma_survey_thorough(
    nav: NavModel,
    sources: Set<(int, int)>,
    first: Map<(int, int), FlowCell>,
    g: Glance,
    e: Seen,
)
    requires
        nav.wf(),
        reach_closed(nav, first),
        watchful(nav, sources, first, g),
        seen_sound(nav, sources, first, e),
        thorough(nav, g, Some(e)),
    ensures
        thorough(nav, survey(nav, g, e), None),
{
    if !sight_out_of_range(e.reach as int) {
        let g1 = look(nav, g, e, Flow::North);
        lemma_look(nav, sources, first, g, e, Flow::North);
        lemma_look_thorough(nav, sources, first, g, e, Flow::North);
        let g2 = look(nav, g1, e, Flow::East);
        lemma_look(nav, sources, first, g1, e, Flow::East);
        lemma_look_thorough(nav, sources, first, g1, e, Flow::East);
        let g3 = look(nav, g2, e, Flow::South);
        lemma_look(nav, sources, first, g2, e, Flow::South);
        lemma_look_thorough(nav, sources, first, g2, e, Flow::South);
        let g4 = look(nav, g3, e, Flow::West);
        lemma_look(nav, sources, first, g3, e, Flow::West);
        lemma_look_thorough(nav, sources, first, g3, e, Flow::West);
        assert forall|f: Flow| f.is_cardinal() implies looked(nav, g4.cells, e, f) by {
            match f {
                Flow::North => {
                },
                Flow::East => {
                },
                Flow::South => {
                },
                _ => {
                },
            }
        }
        assert forall|p: (int, int)| #[trigger] nav.contains(p) implies expected(g4, p)
            || looked_around(nav, g4.cells, p) by {
            if e.at() == p && !expected(g4, p) {
                assert forall|f: Flow|
                    f.is_cardinal() && #[trigger] has_direction(nav.masks[p], f) implies !sees(
                    nav,
                    g4.cells[neighbor_of(p, f)],
                    target_of(g4.cells[p], p),
                    neighbor_of(p, f),
                ) by {
                }
            }
        }
    }
}

/// A step of the second pass keeps it thorough.
pub proof fn lemma_glance_thorough(
    nav: NavModel,
    sources: Set<(int, int)>,
    first: Map<(int, int), FlowCell>,
    g: Glance,
)
    requires
        nav.wf(),
        reach_closed(nav, first),
        watchful(nav, sources, first, g),
        thorough(nav, g, None),
    ensures
        thorough(nav, glance(nav, g), None),
{
    if g.queue.len() > 0 {
        let e = g.queue[0];
        let rest = Glance { cells: g.cells, queue: g.queue.drop_first() };
        assert forall|i: int| 0 <= i < rest.queue.len() implies seen_sound(
            nav,
            sources,
            first,
            #[trigger] rest.queue[i],
        ) && seen_fits(rest.cells, rest.queue[i]) by {
        }
        assert forall|p: (int, int)| #[trigger] nav.contains(p) implies expected(rest, p) || e.at()
            == p || looked_around(nav, rest.cells, p) by {
            if expected(g, p) {
                let i = choose|i: int| 0 <= i < g.queue.len() && (#[trigger] g.queue[i]).at() == p;
                if i > 0 {
                    assert(rest.queue[i - 1] == g.queue[i]);
                }
            }
        }
        lemma_survey_thorough(nav, sources, first, rest, e);
    }
}

} // verus!
