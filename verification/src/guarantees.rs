//! What a generated flow field is, stated without reference to how it is computed.

use crate::distance::{Distance, root_positive, Steps};
use crate::flow::{ahead_of, Flow, FlowCell};
use crate::flow_field::{first_pass, generated};
use crate::nav_grid::NavModel;
use crate::route::{
    at_rest, diagonal_steps, leads_to_target, lemma_no_shorter_route, lemma_one_step_nearer,
    lemma_route_exists, straight_steps,
};
use crate::sight::{
    expected, Glance, glance, glanced, handed_on, lemma_glance, lemma_glance_thorough,
    lemma_sighted, lit, lit_from, looked_around, remaining, seen_fits, seen_sound, sees,
    sight_cell, sight_sound, sighted, squared_length, target_of, thorough, watchers, watchful,
};
use crate::wave::{
    advance, advanced, all_inside, cell_set, cell_sound, lemma_advance_bounded,
    lemma_advance_steady, lemma_seeded_steady, lemma_settled, rank, seeded, settled, steady, Wave,
};
use vstd::prelude::*;

verus! {

proof fn lemma_rests_from(nav: NavModel, sources: Set<(int, int)>, start: Wave, w: Wave, k: nat)
    requires
        nav.wf(),
        steady(nav, sources, w, None),
        w == advanced(nav, start, k),
    ensures
        at_rest(nav, sources, settled(nav, start)),
    decreases rank(nav, w.cells), w.queue.len(),
{
    if w.queue.len() == 0 {
        lemma_settled(nav, start, k);
    } else {
        lemma_advance_bounded(nav, sources, w);
        lemma_advance_steady(nav, sources, w);
        lemma_rests_from(nav, sources, start, advance(nav, w), k + 1);
    }
}

/// The first pass comes to rest, whatever the grid and the targets.
pub proof fn lemma_first_pass_rests(nav: NavModel, sources: Seq<[usize; 2]>)
    requires
        nav.wf(),
        all_inside(nav, sources),
    ensures
        at_rest(nav, cell_set(sources), settled(nav, seeded(nav, sources))),
        cell_set(sources).subset_of(Set::new(|q: (int, int)| nav.contains(q))),
{
    lemma_seeded_steady(nav, sources);
    lemma_rests_from(nav, cell_set(sources), seeded(nav, sources), seeded(nav, sources), 0);
}

proof fn lemma_sight_rests_from(
    nav: NavModel,
    sources: Set<(int, int)>,
    first: Map<(int, int), FlowCell>,
    start: Glance,
    g: Glance,
    k: nat,
)
    requires
        nav.wf(),
        crate::sight::reach_closed(nav, first),
        watchful(nav, sources, first, g),
        thorough(nav, g, None),
        g == glanced(nav, start, k),
    ensures
        watchful(nav, sources, first, sighted(nav, start)),
        thorough(nav, sighted(nav, start), None),
        sighted(nav, start).queue.len() == 0,
    decreases remaining(nav, g),
{
    if g.queue.len() == 0 {
        lemma_sighted(nav, start, k);
    } else {
        lemma_glance(nav, sources, first, g);
        lemma_glance_thorough(nav, sources, first, g);
        lemma_sight_rests_from(nav, sources, first, start, glance(nav, g), k + 1);
    }
}

/// The second pass comes to rest, and every cell it leaves is what the first
/// pass left or a line of sight that was allowed to replace it.
pub proof fn lemma_second_pass_rests(nav: NavModel, sources: Seq<[usize; 2]>)
    requires
        nav.wf(),
        all_inside(nav, sources),
    ensures
        forall|p: (int, int)| generated(nav, sources).dom().contains(p) <==> nav.contains(p),
        forall|p: (int, int)|
            nav.contains(p) ==> #[trigger] sight_sound(
                nav,
                cell_set(sources),
                first_pass(nav, sources),
                generated(nav, sources),
                p,
            ),
        forall|p: (int, int)|
            nav.contains(p) ==> #[trigger] looked_around(nav, generated(nav, sources), p),
        forall|p: (int, int)|
            nav.contains(p) ==> #[trigger] handed_on(nav, generated(nav, sources), p),
{
    lemma_first_pass_rests(nav, sources);
    let first = first_pass(nav, sources);
    let start = Glance { cells: first, queue: watchers(sources) };
    let rest = settled(nav, seeded(nav, sources));
    crate::route::lemma_rest_is_closed(nav, cell_set(sources), rest);
    assert forall|j: int| 0 <= j < start.queue.len() implies seen_sound(
        nav,
        cell_set(sources),
        first,
        #[trigger] start.queue[j],
    ) by {
        let p = (sources[j][0] as int, sources[j][1] as int);
    }
    assert forall|j: int| 0 <= j < start.queue.len() implies seen_fits(
        start.cells,
        #[trigger] start.queue[j],
    ) by {
        let p = (sources[j][0] as int, sources[j][1] as int);
    }
    assert forall|p: (int, int)| nav.contains(p) implies #[trigger] handed_on(
        nav,
        start.cells,
        p,
    ) by {
        assert(cell_sound(cell_set(sources), p, rest.cells[p]));
    }
    assert forall|p: (int, int)| #[trigger] nav.contains(p) implies expected(start, p)
        || looked_around(nav, start.cells, p) by {
        if lit(start.cells[p]) {
            let j = choose|j: int|
                0 <= j < sources.len() && (#[trigger] sources[j])[0] == p.0 && sources[j][1] == p.1;
            assert(start.queue[j].at() == p);
        }
    }
    lemma_sight_rests_from(nav, cell_set(sources), first, start, start, 0);
    assert forall|p: (int, int)| nav.contains(p) implies #[trigger] looked_around(
        nav,
        generated(nav, sources),
        p,
    ) by {
    }
}

/// A path length, as a pair of counts, is at most another.
pub open spec fn at_most(s: Steps, straight: int, diagonal: int) -> bool {
    !root_positive(s.straight - straight, s.diagonal - diagonal)
}

/// The length the first pass gives a cell is the length of a shortest route
/// from the cell to a target: no route is shorter.
pub proof fn lemma_distance_is_least(
    nav: NavModel,
    sources: Seq<[usize; 2]>,
    p: (int, int),
    flows: Seq<Flow>,
)
    requires
        nav.wf(),
        all_inside(nav, sources),
        leads_to_target(nav, cell_set(sources), p, flows),
    ensures
        nav.contains(p),
        first_pass(nav, sources)[p].distance matches Distance::Path(s) && at_most(
            s,
            straight_steps(flows),
            diagonal_steps(flows),
        ),
{
    lemma_first_pass_rests(nav, sources);
    lemma_no_shorter_route(
        nav,
        cell_set(sources),
        settled(nav, seeded(nav, sources)),
        p,
        flows,
    );
}

/// The length the first pass gives a cell is the length of a route from the
/// cell to a target: the route that the directions trace.
pub proof fn lemma_distance_is_reached(nav: NavModel, sources: Seq<[usize; 2]>, p: (int, int)) -> (flows:
    Seq<Flow>)
    requires
        nav.wf(),
        all_inside(nav, sources),
        nav.contains(p),
        first_pass(nav, sources)[p].distance is Path,
    ensures
        leads_to_target(nav, cell_set(sources), p, flows),
        straight_steps(flows) == first_pass(nav, sources)[p].distance->Path_0.straight,
        diagonal_steps(flows) == first_pass(nav, sources)[p].distance->Path_0.diagonal,
{
    lemma_first_pass_rests(nav, sources);
    lemma_route_exists(nav, cell_set(sources), settled(nav, seeded(nav, sources)), p)
}

/// A compass direction of the first pass leads over a link to a cell that is
/// exactly one step nearer to the target.
pub proof fn lemma_direction_descends(nav: NavModel, sources: Seq<[usize; 2]>, p: (int, int))
    requires
        nav.wf(),
        all_inside(nav, sources),
        nav.contains(p),
        first_pass(nav, sources)[p].flow.is_compass(),
    ensures
        ({
            let first = first_pass(nav, sources);
            let flow = first[p].flow;
            let ahead = ahead_of(p, flow);
            &&& nav.linked(ahead, flow)
            &&& first[p].distance is Path
            &&& first[ahead].distance is Path
            &&& first[p].distance->Path_0.straight == first[ahead].distance->Path_0.straight
                + flow.step().straight
            &&& first[p].distance->Path_0.diagonal == first[ahead].distance->Path_0.diagonal
                + flow.step().diagonal
        }),
{
    lemma_first_pass_rests(nav, sources);
    lemma_one_step_nearer(nav, cell_set(sources), settled(nav, seeded(nav, sources)), p);
}

/// `s` is the length of a shortest route from `p` to a target: some route is
/// that long, and none is shorter.
pub open spec fn is_shortest(
    nav: NavModel,
    sources: Set<(int, int)>,
    p: (int, int),
    s: Steps,
) -> bool {
    &&& exists|flows: Seq<Flow>| #[trigger]
        leads_to_target(nav, sources, p, flows) && straight_steps(flows) == s.straight
            && diagonal_steps(flows) == s.diagonal
    &&& forall|flows: Seq<Flow>| #[trigger]
        leads_to_target(nav, sources, p, flows) ==> at_most(
            s,
            straight_steps(flows),
            diagonal_steps(flows),
        )
}

/// What the first pass leaves at a cell.
///
/// A target is `Source` at distance zero. A cell without any route to a target
/// is `Unreachable`, and only such a cell is. Every other cell has a compass
/// direction and the length of its shortest route as its distance, and the
/// direction leads over a link to a cell that is exactly one step nearer.
pub open spec fn first_described(
    nav: NavModel,
    sources: Seq<[usize; 2]>,
    first: Map<(int, int), FlowCell>,
    p: (int, int),
) -> bool {
    let cell = first[p];
    let ahead = ahead_of(p, cell.flow);
    &&& !(cell.flow is LineOfSight)
    &&& cell_set(sources).contains(p) <==> cell.flow is Source
    &&& cell.flow is Source ==> cell.distance == Distance::Path(Steps { straight: 0, diagonal: 0 })
    &&& cell.flow is Unreachable <==> (forall|flows: Seq<Flow>|
        !leads_to_target(nav, cell_set(sources), p, flows))
    &&& cell.flow is Unreachable <==> cell.distance is Unreached
    &&& cell.distance matches Distance::Path(s) ==> is_shortest(nav, cell_set(sources), p, s)
    &&& cell.flow.is_compass() ==> {
        &&& nav.linked(ahead, cell.flow)
        &&& cell.distance is Path
        &&& first[ahead].distance is Path
        &&& cell.distance->Path_0.straight == first[ahead].distance->Path_0.straight
            + cell.flow.step().straight
        &&& cell.distance->Path_0.diagonal == first[ahead].distance->Path_0.diagonal
            + cell.flow.step().diagonal
    }
}

/// What a generated field holds at a cell.
///
/// The cell is as the first pass left it (see `first_described`), or it has a
/// line of sight in its place. A line of sight points at a target over
/// walkable cells only, belongs to a cell that is open towards the target,
/// and is nearer than the shortest route of the cell. It was handed on by a
/// straight neighbour that is lit by the same target and whose line is in
/// range, so no line is longer than a line in range and one step. And from a
/// cell that is a target or sees one, with a line short enough, no straight
/// neighbour is left that could see that target and does not.
pub open spec fn cell_described(
    nav: NavModel,
    sources: Seq<[usize; 2]>,
    field: Map<(int, int), FlowCell>,
    p: (int, int),
) -> bool {
    let first = first_pass(nav, sources);
    let cell = field[p];
    &&& first_described(nav, sources, first, p)
    &&& !(cell.flow is LineOfSight) ==> cell == first[p]
    &&& cell.flow matches Flow::LineOfSight(ox, oy) ==> {
        let src = (p.0 + ox, p.1 + oy);
        &&& cell_set(sources).contains(src)
        &&& cell == sight_cell(src, p)
        &&& sees(nav, first[p], src, p)
        &&& first[p].flow.is_compass()
    }
    &&& looked_around(nav, field, p)
    &&& handed_on(nav, field, p)
}

/// The field covers the grid, and every cell of it is as `cell_described` says.
pub open spec fn describes(
    nav: NavModel,
    sources: Seq<[usize; 2]>,
    field: Map<(int, int), FlowCell>,
) -> bool {
    &&& forall|p: (int, int)| field.dom().contains(p) <==> nav.contains(p)
    &&& forall|p: (int, int)| nav.contains(p) ==> #[trigger] cell_described(nav, sources, field, p)
}

/// The first pass leaves every cell as `first_described` says.
pub proof fn lemma_first_pass_described(nav: NavModel, sources: Seq<[usize; 2]>, p: (int, int))
    requires
        nav.wf(),
        all_inside(nav, sources),
        nav.contains(p),
    ensures
        first_described(nav, sources, first_pass(nav, sources), p),
{
    lemma_first_pass_rests(nav, sources);
    let w = settled(nav, seeded(nav, sources));
    let first = first_pass(nav, sources);
    let set = cell_set(sources);
    if first[p].distance is Path {
        let s = first[p].distance->Path_0;
        let flows = lemma_route_exists(nav, set, w, p);
        assert forall|other: Seq<Flow>| #[trigger] leads_to_target(nav, set, p, other) implies at_most(
            s,
            straight_steps(other),
            diagonal_steps(other),
        ) by {
            lemma_no_shorter_route(nav, set, w, p, other);
        }
    }
    assert forall|flows: Seq<Flow>| leads_to_target(nav, set, p, flows) implies first[p].distance is Path by {
        lemma_no_shorter_route(nav, set, w, p, flows);
    }
    if first[p].flow.is_compass() {
        lemma_one_step_nearer(nav, set, w, p);
    }
}

/// Every generated field is as `describes` says.
pub proof fn lemma_field_described(nav: NavModel, sources: Seq<[usize; 2]>)
    requires
        nav.wf(),
        all_inside(nav, sources),
    ensures
        describes(nav, sources, generated(nav, sources)),
{
    lemma_second_pass_rests(nav, sources);
    let first = first_pass(nav, sources);
    assert forall|p: (int, int)| nav.contains(p) implies #[trigger] cell_described(
        nav,
        sources,
        generated(nav, sources),
        p,
    ) by {
        lemma_first_pass_described(nav, sources, p);
        assert(sight_sound(nav, cell_set(sources), first, generated(nav, sources), p));
    }
}

/// No compass direction of a generated field sends an agent onto a cell
/// without a way to a target: the cell it leads to is a cell of the field that
/// is not `Unreachable`.
pub proof fn lemma_directions_avoid_unreachable(
    nav: NavModel,
    sources: Seq<[usize; 2]>,
    p: (int, int),
)
    requires
        nav.wf(),
        all_inside(nav, sources),
        nav.contains(p),
        generated(nav, sources)[p].flow.is_compass(),
    ensures
        nav.contains(ahead_of(p, generated(nav, sources)[p].flow)),
        !(generated(nav, sources)[ahead_of(p, generated(nav, sources)[p].flow)].flow
            is Unreachable),
{
    lemma_field_described(nav, sources);
    let field = generated(nav, sources);
    let ahead = ahead_of(p, field[p].flow);
    assert(cell_described(nav, sources, field, p));
    assert(cell_described(nav, sources, field, ahead));
}

/// The squared length that no line of sight exceeds: a line in range is at
/// most 30.1 long, so neither of its offsets is more than 30, and one straight
/// step from it adds at most `2·30 + 1` to the square.
pub open spec fn longest_sight() -> int {
    967
}

/// No line of sight of a generated field is longer than a line in range and
/// one straight step: the square of its length is at most `longest_sight()`.
pub proof fn lemma_sight_is_bounded(nav: NavModel, sources: Seq<[usize; 2]>, p: (int, int))
    requires
        nav.wf(),
        all_inside(nav, sources),
        nav.contains(p),
        generated(nav, sources)[p].flow is LineOfSight,
    ensures
        generated(nav, sources)[p].flow matches Flow::LineOfSight(ox, oy) && ox * ox + oy * oy
            <= longest_sight(),
        generated(nav, sources)[p].distance matches Distance::Sight(n) && n <= longest_sight(),
{
    lemma_field_described(nav, sources);
    let field = generated(nav, sources);
    assert(cell_described(nav, sources, field, p));
    assert(handed_on(nav, field, p));
    let f = choose|f: Flow| #[trigger] lit_from(nav, field, p, f);
    let u = ahead_of(p, f);
    let target = target_of(field[p], p);
    assert(cell_described(nav, sources, field, u));
    crate::sight::lemma_squared_length_bounded(nav, target, p);
    let ux = u.0 - target.0;
    let uy = u.1 - target.1;
    assert(squared_length(target, u) == ux * ux + uy * uy);
    assert(-30 <= ux <= 30 && -30 <= uy <= 30) by (nonlinear_arith)
        requires
            100 * (ux * ux + uy * uy) <= 90601,
    ;
    let px = p.0 - target.0;
    let py = p.1 - target.1;
    assert(px * px + py * py <= ux * ux + uy * uy + 61) by (nonlinear_arith)
        requires
            -30 <= ux <= 30,
            -30 <= uy <= 30,
            (px == ux && (py == uy + 1 || py == uy - 1)) || (py == uy && (px == ux + 1 || px == ux
                - 1)),
    ;
    assert(squared_length(target, p) == px * px + py * py);
    match field[p].flow {
        Flow::LineOfSight(ox, oy) => {
            assert(ox == -px && oy == -py);
            assert(ox * ox + oy * oy == px * px + py * py) by (nonlinear_arith)
                requires
                    ox == -px,
                    oy == -py,
            ;
        },
        _ => {},
    }
}

/// Two fields generated for the same grid and the same targets are the same.
pub proof fn lemma_generation_repeats(
    nav: NavModel,
    sources: Seq<[usize; 2]>,
    one: Map<(int, int), FlowCell>,
    other: Map<(int, int), FlowCell>,
)
    requires
        one == generated(nav, sources),
        other == generated(nav, sources),
    ensures
        one == other,
{
}

} // verus!
