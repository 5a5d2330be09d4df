//! Levels without obstacles: there the length of a shortest route is known in
//! closed form. Between two cells that are `dx` and `dy` apart it takes
//! `min(dx, dy)` diagonal steps and `|dx - dy|` straight ones.

use crate::distance::{Distance, lemma_not_negative_add, lemma_root_trichotomy, root_positive};
use crate::flow::{ahead_of, Flow, has_direction, neighbor_of};
use crate::flow_field::{first_pass, generated};
use crate::guarantees::{at_most, cell_described, lemma_field_described, lemma_first_pass_rests};
use crate::nav_grid::NavModel;
use crate::route::{
    at_rest, diagonal_steps, lemma_route_exists, route_end, route_open, straight_steps,
};
use crate::wave::{all_inside, cell_set, lemma_below_bounded, seeded, settled, Wave};
use vstd::prelude::*;

verus! {

/// Every interior cell of the level is walkable.
pub open spec fn open_level(nav: NavModel) -> bool {
    forall|p: (int, int)| nav.interior(p) ==> #[trigger] nav.walkable[p]
}

/// A number without its sign.
pub open spec fn magnitude(x: int) -> int {
    if x >= 0 {
        x
    } else {
        -x
    }
}

/// The straight steps of a shortest route between two cells of an open level.
#[verifier::opaque]
pub open spec fn octile_straight(a: (int, int), b: (int, int)) -> int {
    magnitude(magnitude(b.0 - a.0) - magnitude(b.1 - a.1))
}

/// The diagonal steps of a shortest route between two cells of an open level.
#[verifier::opaque]
pub open spec fn octile_diagonal(a: (int, int), b: (int, int)) -> int {
    if magnitude(b.0 - a.0) <= magnitude(b.1 - a.1) {
        magnitude(b.0 - a.0)
    } else {
        magnitude(b.1 - a.1)
    }
}

/// The sign of `x + y·√2` for the small numbers that one step can change a length by.
proof fn lemma_root_positive_small(x: int, y: int)
    requires
        -2 <= x <= 2,
        -2 <= y <= 2,
    ensures
        root_positive(x, y) == ((x >= 0 && y >= 0 && x + y > 0) || (x == 2 && y == -1) || (x < 0
            && y > 0 && !(x == -2 && y == 1))),
{
    assert(x * x == magnitude(x) * magnitude(x) && y * y == magnitude(y) * magnitude(y))
        by (nonlinear_arith);
    let a = magnitude(x);
    let b = magnitude(y);
    assert(a * a == if a == 0 {
        0int
    } else if a == 1 {
        1int
    } else {
        4int
    }) by (nonlinear_arith)
        requires
            a == 0 || a == 1 || a == 2,
    ;
    assert(b * b == if b == 0 {
        0int
    } else if b == 1 {
        1int
    } else {
        4int
    }) by (nonlinear_arith)
        requires
            b == 0 || b == 1 || b == 2,
    ;
}

/// One step changes the closed-form length to a cell by no more than the step is long.
proof fn lemma_one_step_changes_little(p: (int, int), flow: Flow, s: (int, int))
    requires
        flow.is_compass(),
    ensures
        !root_positive(
            octile_straight(p, s) - (octile_straight(ahead_of(p, flow), s) + flow.step().straight),
            octile_diagonal(p, s) - (octile_diagonal(ahead_of(p, flow), s) + flow.step().diagonal),
        ),
{
    reveal(octile_straight);
    reveal(octile_diagonal);
    let a = ahead_of(p, flow);
    let x = octile_straight(p, s) - (octile_straight(a, s) + flow.step().straight);
    let y = octile_diagonal(p, s) - (octile_diagonal(a, s) + flow.step().diagonal);
    lemma_root_positive_small(x, y);
}

/// No route between two cells is shorter than the closed form.
pub proof fn lemma_route_at_least_octile(nav: NavModel, p: (int, int), flows: Seq<Flow>)
    requires
        route_open(nav, p, flows),
    ensures
        !root_positive(
            octile_straight(p, route_end(p, flows)) - straight_steps(flows),
            octile_diagonal(p, route_end(p, flows)) - diagonal_steps(flows),
        ),
    decreases flows.len(),
{
    if flows.len() > 0 {
        let f = flows[0];
        let a = ahead_of(p, f);
        let rest = flows.drop_first();
        let s = route_end(p, flows);
        lemma_route_at_least_octile(nav, a, rest);
        lemma_one_step_changes_little(p, f, s);
        lemma_not_negative_add(
            straight_steps(rest) - octile_straight(a, s),
            diagonal_steps(rest) - octile_diagonal(a, s),
            octile_straight(a, s) + f.step().straight - octile_straight(p, s),
            octile_diagonal(a, s) + f.step().diagonal - octile_diagonal(p, s),
        );
    } else {
        reveal(octile_straight);
        reveal(octile_diagonal);
    }
}

/// The compass direction with the given offset.
pub open spec fn flow_with_offset(ox: int, oy: int) -> Flow {
    if ox == 0 && oy > 0 {
        Flow::North
    } else if ox > 0 && oy == 0 {
        Flow::East
    } else if ox == 0 && oy < 0 {
        Flow::South
    } else if ox < 0 && oy == 0 {
        Flow::West
    } else if ox > 0 && oy > 0 {
        Flow::NorthEast
    } else if ox > 0 && oy < 0 {
        Flow::SouthEast
    } else if ox < 0 && oy < 0 {
        Flow::SouthWest
    } else {
        Flow::NorthWest
    }
}

/// One, zero or minus one, as the number is positive, zero or negative.
pub open spec fn sign(x: int) -> int {
    if x > 0 {
        1
    } else if x < 0 {
        -1
    } else {
        0
    }
}

/// The cell one step from `p` towards `s`.
pub open spec fn step_toward(p: (int, int), s: (int, int)) -> (int, int) {
    (p.0 + sign(s.0 - p.0), p.1 + sign(s.1 - p.1))
}

/// The direction from `p` towards `s`.
pub open spec fn flow_toward(p: (int, int), s: (int, int)) -> Flow {
    flow_with_offset(sign(s.0 - p.0), sign(s.1 - p.1))
}

/// A step towards a cell shortens the closed-form length by exactly that step.
proof fn lemma_step_toward(p: (int, int), s: (int, int))
    requires
        p != s,
    ensures
        flow_toward(p, s).is_compass(),
        ahead_of(p, flow_toward(p, s)) == step_toward(p, s),
        neighbor_of(step_toward(p, s), flow_toward(p, s)) == p,
        octile_straight(step_toward(p, s), s) + flow_toward(p, s).step().straight
            == octile_straight(p, s),
        octile_diagonal(step_toward(p, s), s) + flow_toward(p, s).step().diagonal
            == octile_diagonal(p, s),
        magnitude(s.0 - step_toward(p, s).0) + magnitude(s.1 - step_toward(p, s).1) < magnitude(
            s.0 - p.0,
        ) + magnitude(s.1 - p.1),
{
    reveal(octile_straight);
    reveal(octile_diagonal);
}

/// When the wave at rest gives a cell at most some length, it gives a cell
/// linked to it at most that length and the step between them.
proof fn lemma_upper_step(
    nav: NavModel,
    sources: Set<(int, int)>,
    w: Wave,
    q: (int, int),
    f: Flow,
    straight: int,
    diagonal: int,
)
    requires
        nav.wf(),
        at_rest(nav, sources, w),
        nav.linked(q, f),
        w.cells[q].distance matches Distance::Path(sq) && at_most(sq, straight, diagonal),
    ensures
        w.cells[neighbor_of(q, f)].distance matches Distance::Path(sp) && at_most(
            sp,
            straight + f.step().straight,
            diagonal + f.step().diagonal,
        ),
{
    let p = neighbor_of(q, f);
    crate::nav_grid::lemma_linked_interior(nav, q, f);
    let sq = w.cells[q].distance->Path_0;
    lemma_below_bounded(nav, w.cells, sq);
    let through = sq.plus(f.step());
    assert(through.straight == sq.straight + f.step().straight);
    let sp = w.cells[p].distance->Path_0;
    lemma_not_negative_add(
        through.straight - sp.straight,
        through.diagonal - sp.diagonal,
        straight - sq.straight,
        diagonal - sq.diagonal,
    );
}

/// In an open level every step between interior cells follows a link.
proof fn lemma_open_link(nav: NavModel, p: (int, int), s: (int, int))
    requires
        nav.wf(),
        open_level(nav),
        nav.interior(s),
        nav.interior(p),
        p != s,
    ensures
        nav.interior(step_toward(p, s)),
        has_direction(nav.masks[step_toward(p, s)], flow_toward(p, s)),
{
    lemma_step_toward(p, s);
}

/// In an open level the wave at rest gives no cell more than the closed form
/// to any target.
proof fn lemma_open_upper(
    nav: NavModel,
    sources: Set<(int, int)>,
    w: Wave,
    s: (int, int),
    p: (int, int),
)
    requires
        nav.wf(),
        open_level(nav),
        at_rest(nav, sources, w),
        sources.contains(s),
        nav.interior(s),
        nav.interior(p),
    ensures
        w.cells[p].distance matches Distance::Path(sp) && at_most(
            sp,
            octile_straight(p, s),
            octile_diagonal(p, s),
        ),
    decreases magnitude(s.0 - p.0) + magnitude(s.1 - p.1),
{
    if p == s {
        assert(nav.contains(p));
        reveal(octile_straight);
        reveal(octile_diagonal);
    } else {
        let f = flow_toward(p, s);
        let q = step_toward(p, s);
        lemma_step_toward(p, s);
        lemma_open_link(nav, p, s);
        lemma_open_upper(nav, sources, w, s, q);
        lemma_upper_step(nav, sources, w, q, f, octile_straight(q, s), octile_diagonal(q, s));
    }
}

/// Every target of the list is an interior cell.
pub open spec fn all_interior(nav: NavModel, sources: Seq<[usize; 2]>) -> bool {
    forall|i: int|
        0 <= i < sources.len() ==> nav.interior(((#[trigger] sources[i])[0] as int, sources[i][1] as int))
}

/// In a level without obstacles the first pass gives every interior cell
/// the closed-form length to its nearest target: `|dx - dy|` straight steps and
/// `min(dx, dy)` diagonal ones to some target, and no target is nearer.
pub proof fn lemma_open_level_distance(nav: NavModel, sources: Seq<[usize; 2]>, p: (int, int))
    requires
        nav.wf(),
        open_level(nav),
        all_interior(nav, sources),
        sources.len() > 0,
        nav.interior(p),
    ensures
        first_pass(nav, sources)[p].distance matches Distance::Path(sp) && {
            &&& exists|i: int|
                0 <= i < sources.len() && sp.straight == octile_straight(
                    p,
                    ((#[trigger] sources[i])[0] as int, sources[i][1] as int),
                ) && sp.diagonal == octile_diagonal(p, (sources[i][0] as int, sources[i][1] as int))
            &&& forall|i: int|
                0 <= i < sources.len() ==> at_most(
                    sp,
                    octile_straight(p, ((#[trigger] sources[i])[0] as int, sources[i][1] as int)),
                    octile_diagonal(p, (sources[i][0] as int, sources[i][1] as int)),
                )
        },
{
    assert(all_inside(nav, sources)) by {
        assert forall|i: int| 0 <= i < sources.len() implies nav.contains(
            ((#[trigger] sources[i])[0] as int, sources[i][1] as int),
        ) by {
        }
    }
    lemma_first_pass_rests(nav, sources);
    let w = settled(nav, seeded(nav, sources));
    let set = cell_set(sources);
    let first = (sources[0][0] as int, sources[0][1] as int);
    lemma_open_upper(nav, set, w, first, p);
    let sp = w.cells[p].distance->Path_0;
    assert forall|i: int| 0 <= i < sources.len() implies at_most(
        sp,
        octile_straight(p, ((#[trigger] sources[i])[0] as int, sources[i][1] as int)),
        octile_diagonal(p, (sources[i][0] as int, sources[i][1] as int)),
    ) by {
        let s = (sources[i][0] as int, sources[i][1] as int);
        lemma_open_upper(nav, set, w, s, p);
    }
    let flows = lemma_route_exists(nav, set, w, p);
    let target = route_end(p, flows);
    let i = choose|i: int|
        0 <= i < sources.len() && (#[trigger] sources[i])[0] == target.0 && sources[i][1]
            == target.1;
    lemma_route_at_least_octile(nav, p, flows);
    lemma_root_trichotomy(
        sp.straight - octile_straight(p, target),
        sp.diagonal - octile_diagonal(p, target),
    );
}

/// In a level without obstacles every interior cell of the generated field
/// that does not see a target has the closed-form length to its nearest target
/// as its distance.
pub proof fn lemma_open_level_field_distance(nav: NavModel, sources: Seq<[usize; 2]>, p: (int, int))
    requires
        nav.wf(),
        open_level(nav),
        all_interior(nav, sources),
        sources.len() > 0,
        nav.interior(p),
        !(generated(nav, sources)[p].flow is LineOfSight),
    ensures
        generated(nav, sources)[p].distance matches Distance::Path(sp) && {
            &&& exists|i: int|
                0 <= i < sources.len() && sp.straight == octile_straight(
                    p,
                    ((#[trigger] sources[i])[0] as int, sources[i][1] as int),
                ) && sp.diagonal == octile_diagonal(p, (sources[i][0] as int, sources[i][1] as int))
            &&& forall|i: int|
                0 <= i < sources.len() ==> at_most(
                    sp,
                    octile_straight(p, ((#[trigger] sources[i])[0] as int, sources[i][1] as int)),
                    octile_diagonal(p, (sources[i][0] as int, sources[i][1] as int)),
                )
        },
{
    assert(all_inside(nav, sources)) by {
        assert forall|i: int| 0 <= i < sources.len() implies nav.contains(
            ((#[trigger] sources[i])[0] as int, sources[i][1] as int),
        ) by {
        }
    }
    lemma_open_level_distance(nav, sources, p);
    lemma_field_described(nav, sources);
    assert(cell_described(nav, sources, generated(nav, sources), p));
}

} // verus!
