//! Lines of sight in a level without obstacles and with a single target: which
//! cells see the target, and what distance every cell has. Both depend only on
//! how far a cell is from the target along each axis, so the distances are the
//! same on mirrored cells.

use crate::distance::{
    Distance, lemma_not_negative_add, lemma_root_positive_add, lemma_root_trichotomy,
    path_below_sight, root_positive, sight_below_path, sight_margin_diagonal,
    sight_margin_straight, sight_out_of_range, Steps,
};
use crate::flow::{ahead_of, Flow, FlowCell, has_direction, lemma_quadrant_mask, neighbor_of};
use crate::flow_field::{first_pass, generated};
use crate::guarantees::{cell_described, lemma_field_described};
use crate::nav_grid::{lemma_linked_interior, NavModel, ray_cell, ray_coordinate, ray_steps};
use crate::open_level::{
    all_interior, flow_with_offset, lemma_open_level_distance, magnitude, octile_diagonal,
    octile_straight, open_level, sign,
};
use crate::sight::{
    handed_on, lemma_squared_length_bounded, lit, lit_from, looked_around, sees, squared_length,
    target_of,
};
use crate::wave::{all_inside, cell_set};
use vstd::prelude::*;

verus! {

/// A sample on a line lies between the ends of the line.
proof fn lemma_ray_coordinate_between(s: int, e: int, steps: int, k: int)
    requires
        1 <= steps,
        0 <= k <= steps,
        magnitude(e - s) <= steps,
    ensures
        s <= e ==> s <= ray_coordinate(s, e, steps, k) <= e,
        e <= s ==> e <= ray_coordinate(s, e, steps, k) <= s,
{
    let num = 2 * (s * steps + k * (e - s)) + steps;
    let den = 2 * steps;
    let q = num / den;
    assert(q * den <= num < q * den + den) by (nonlinear_arith)
        requires
            q == num / den,
            den > 0,
    ;
    let low = if s <= e {
        s
    } else {
        e
    };
    let high = if s <= e {
        e
    } else {
        s
    };
    assert(low * den <= num && num < (high + 1) * den) by (nonlinear_arith)
        requires
            num == 2 * (s * steps + k * (e - s)) + steps,
            den == 2 * steps,
            1 <= steps,
            0 <= k <= steps,
            low <= s <= high,
            low <= e <= high,
            high - low <= steps,
            (low == s && high == e) || (low == e && high == s),
    ;
    assert(low <= q <= high) by (nonlinear_arith)
        requires
            q * den <= num < q * den + den,
            low * den <= num,
            num < (high + 1) * den,
            den > 0,
    ;
}

/// In a level without obstacles the line between two interior cells passes
/// over walkable cells only.
pub proof fn lemma_open_ray_clear(nav: NavModel, s: (int, int), e: (int, int))
    requires
        nav.wf(),
        open_level(nav),
        nav.interior(s),
        nav.interior(e),
    ensures
        nav.ray_clear(s, e),
{
    let steps = ray_steps(s, e);
    assert forall|k: int| 0 <= k <= steps implies nav.walkable.dom().contains(
        #[trigger] ray_cell(s, e, k),
    ) && nav.walkable[ray_cell(s, e, k)] by {
        let c = ray_cell(s, e, k);
        if steps > 0 {
            lemma_ray_coordinate_between(s.0, e.0, steps, k);
            lemma_ray_coordinate_between(s.1, e.1, steps, k);
        }
        assert(nav.interior(c));
        assert(nav.contains(c));
    }
}

/// The squared length of the line between two cells.
pub open spec fn squared_offset(p: (int, int), s: (int, int)) -> int {
    (p.0 - s.0) * (p.0 - s.0) + (p.1 - s.1) * (p.1 - s.1)
}

/// The straight line between two cells, less a tenth, is shorter than the
/// shortest route between them in a level without obstacles.
pub proof fn lemma_line_below_route(p: (int, int), s: (int, int))
    ensures
        sight_below_path(squared_offset(p, s), octile_straight(p, s), octile_diagonal(p, s)),
{
    reveal(octile_straight);
    reveal(octile_diagonal);
    let a = octile_straight(p, s);
    let b = octile_diagonal(p, s);
    let n = squared_offset(p, s);
    let dx = p.0 - s.0;
    let dy = p.1 - s.1;
    assert(n == (a + b) * (a + b) + b * b) by (nonlinear_arith)
        requires
            n == dx * dx + dy * dy,
            (a + b == dx || a + b == -dx) && (b == dy || b == -dy) || (a + b == dy || a + b == -dy)
                && (b == dx || b == -dx),
    ;
    let x = sight_margin_straight(n, a, b);
    let y = sight_margin_diagonal(a, b);
    assert(x == 20 * a + 1 - 200 * (a * b) && y == 200 * (a * b) + 20 * b) by (nonlinear_arith)
        requires
            x == (10 * a + 1) * (10 * a + 1) + 2 * ((10 * b) * (10 * b)) - 100 * n,
            y == 2 * ((10 * a + 1) * (10 * b)),
            n == (a + b) * (a + b) + b * b,
    ;
    assert(0 <= a * b) by (nonlinear_arith)
        requires
            0 <= a,
            0 <= b,
    ;
    if x < 0 {
        assert(x * x < 2 * (y * y)) by (nonlinear_arith)
            requires
                x < 0,
                0 < -x < y,
        ;
    }
}

/// In a level without obstacles every interior cell is open towards every
/// other interior cell: its mask covers the quadrant that the other lies in.
proof fn lemma_open_quadrant(nav: NavModel, s: (int, int), p: (int, int))
    requires
        nav.wf(),
        open_level(nav),
        nav.interior(s),
        nav.interior(p),
    ensures
        nav.masks[p] & crate::flow::quadrant_mask(p.0 - s.0, p.1 - s.1)
            == crate::flow::quadrant_mask(p.0 - s.0, p.1 - s.1),
{
    let dx = p.0 - s.0;
    let dy = p.1 - s.1;
    lemma_quadrant_mask(nav.masks[p], dx, dy);
    assert forall|f: Flow|
        f.is_compass() && nav.interior(neighbor_of(p, f)) implies #[trigger] has_direction(
        nav.masks[p],
        f,
    ) by {
        let n = neighbor_of(p, f);
        assert(nav.interior((p.0, n.1)));
        assert(nav.interior((n.0, p.1)));
        assert(nav.open_toward(p, f));
    }
    if dx > 0 && dy != 0 {
        assert(nav.interior(neighbor_of(p, Flow::East)));
    }
    if dx < 0 && dy != 0 {
        assert(nav.interior(neighbor_of(p, Flow::West)));
    }
    if dy > 0 && dx != 0 {
        assert(nav.interior(neighbor_of(p, Flow::North)));
    }
    if dy < 0 && dx != 0 {
        assert(nav.interior(neighbor_of(p, Flow::South)));
    }
    if dx > 0 && dy > 0 {
        assert(nav.interior(neighbor_of(p, Flow::NorthEast)));
    }
    if dx > 0 && dy < 0 {
        assert(nav.interior(neighbor_of(p, Flow::SouthEast)));
    }
    if dx < 0 && dy < 0 {
        assert(nav.interior(neighbor_of(p, Flow::SouthWest)));
    }
    if dx < 0 && dy > 0 {
        assert(nav.interior(neighbor_of(p, Flow::NorthWest)));
    }
}

/// In a level without obstacles a cell that holds its shortest route to an
/// interior target can be given a line of sight to it.
pub proof fn lemma_open_sees(nav: NavModel, c: FlowCell, s: (int, int), p: (int, int))
    requires
        nav.wf(),
        open_level(nav),
        nav.interior(s),
        nav.interior(p),
        !lit(c),
        c.distance matches Distance::Path(sp) && sp.straight == octile_straight(p, s)
            && sp.diagonal == octile_diagonal(p, s),
    ensures
        sees(nav, c, s, p),
{
    lemma_squared_length_bounded(nav, s, p);
    assert(squared_length(s, p) == squared_offset(p, s));
    lemma_line_below_route(p, s);
    lemma_open_quadrant(nav, s, p);
    lemma_open_ray_clear(nav, s, p);
}

/// A level without obstacles and with a single target `s` on an interior cell.
pub open spec fn open_with_target(nav: NavModel, sources: Seq<[usize; 2]>, s: (int, int)) -> bool {
    &&& nav.wf()
    &&& open_level(nav)
    &&& sources.len() == 1
    &&& s == (sources[0][0] as int, sources[0][1] as int)
    &&& nav.interior(s)
}

/// Whether a line of sight is handed on to a cell that lies `dx` and `dy`
/// cells from the target: the cell is the target, or one step towards the
/// target along an axis leads to a cell whose line is in range.
pub open spec fn within_reach(dx: int, dy: int) -> bool {
    let x = magnitude(dx);
    let y = magnitude(dy);
    ||| (x == 0 && y == 0)
    ||| (x >= 1 && !sight_out_of_range((x - 1) * (x - 1) + y * y))
    ||| (y >= 1 && !sight_out_of_range(x * x + (y - 1) * (y - 1)))
}

/// What is known of an interior cell of such a level before its line of sight is looked at.
proof fn lemma_open_basics(nav: NavModel, sources: Seq<[usize; 2]>, s: (int, int), p: (int, int))
    requires
        open_with_target(nav, sources, s),
        nav.interior(p),
    ensures
        all_inside(nav, sources),
        forall|q: (int, int)| cell_set(sources).contains(q) <==> q == s,
        cell_described(nav, sources, generated(nav, sources), p),
        first_pass(nav, sources)[p].distance matches Distance::Path(sp) && sp.straight
            == octile_straight(p, s) && sp.diagonal == octile_diagonal(p, s),
        lit(generated(nav, sources)[p]) ==> target_of(generated(nav, sources)[p], p) == s,
        handed_on(nav, generated(nav, sources), p),
        looked_around(nav, generated(nav, sources), p),
{
    assert(all_interior(nav, sources)) by {
        assert forall|i: int| 0 <= i < sources.len() implies nav.interior(
            ((#[trigger] sources[i])[0] as int, sources[i][1] as int),
        ) by {
            assert(i == 0);
        }
    }
    assert(nav.contains(s));
    assert(all_inside(nav, sources));
    assert forall|q: (int, int)| cell_set(sources).contains(q) <==> q == s by {
        if q == s {
            assert(sources[0][0] == q.0 && sources[0][1] == q.1);
        }
    }
    lemma_field_described(nav, sources);
    assert(nav.contains(p));
    assert(cell_described(nav, sources, generated(nav, sources), p));
    lemma_open_level_distance(nav, sources, p);
}

/// The cell one step from `p` towards `s` along the first axis, or along the second.
pub open spec fn step_along(p: (int, int), s: (int, int), first: bool) -> (int, int) {
    if first {
        (p.0 + sign(s.0 - p.0), p.1)
    } else {
        (p.0, p.1 + sign(s.1 - p.1))
    }
}

/// The straight direction from `p` towards `s` along the first axis, or along the second.
pub open spec fn flow_along(p: (int, int), s: (int, int), first: bool) -> Flow {
    if first {
        flow_with_offset(sign(s.0 - p.0), 0)
    } else {
        flow_with_offset(0, sign(s.1 - p.1))
    }
}

proof fn lemma_square_of_magnitude(d: int)
    by (nonlinear_arith)
    ensures
        d * d == magnitude(d) * magnitude(d),
        d != 0 ==> (d - sign(d)) * (d - sign(d)) == (magnitude(d) - 1) * (magnitude(d) - 1),
        d != 0 ==> (d + sign(d)) * (d + sign(d)) == (magnitude(d) + 1) * (magnitude(d) + 1),
        d != 0 ==> (magnitude(d) - 1) * (magnitude(d) - 1) <= magnitude(d) * magnitude(d),
        magnitude(d) * magnitude(d) <= (magnitude(d) + 1) * (magnitude(d) + 1),
        0 <= d * d,
{
}

/// A step towards the target along an axis on which the cell differs from it:
/// where it leads, and what its line is.
proof fn lemma_step_along(nav: NavModel, p: (int, int), s: (int, int), first: bool)
    requires
        nav.wf(),
        nav.interior(p),
        nav.interior(s),
        first ==> p.0 != s.0,
        !first ==> p.1 != s.1,
    ensures
        ({
            let u = step_along(p, s, first);
            let f = flow_along(p, s, first);
            let x = magnitude(p.0 - s.0);
            let y = magnitude(p.1 - s.1);
            &&& nav.interior(u)
            &&& f.is_cardinal()
            &&& ahead_of(p, f) == u
            &&& neighbor_of(u, f) == p
            &&& magnitude(u.0 - s.0) + magnitude(u.1 - s.1) < x + y
            &&& first ==> magnitude(u.0 - s.0) == x - 1 && magnitude(u.1 - s.1) == y
                && squared_length(s, u) == (x - 1) * (x - 1) + y * y
            &&& !first ==> magnitude(u.0 - s.0) == x && magnitude(u.1 - s.1) == y - 1
                && squared_length(s, u) == x * x + (y - 1) * (y - 1)
        }),
{
    let u = step_along(p, s, first);
    lemma_square_of_magnitude(u.0 - s.0);
    lemma_square_of_magnitude(u.1 - s.1);
    lemma_square_of_magnitude(p.0 - s.0);
    lemma_square_of_magnitude(p.1 - s.1);
}

/// A cell whose line is in range is within reach.
proof fn lemma_in_range_within_reach(dx: int, dy: int)
    requires
        !sight_out_of_range(magnitude(dx) * magnitude(dx) + magnitude(dy) * magnitude(dy)),
    ensures
        within_reach(dx, dy),
{
    lemma_square_of_magnitude(dx);
    lemma_square_of_magnitude(dy);
}

/// In a level without obstacles and with a single target every interior cell
/// within reach is lit.
pub proof fn lemma_open_lit(nav: NavModel, sources: Seq<[usize; 2]>, s: (int, int), p: (int, int))
    requires
        open_with_target(nav, sources, s),
        nav.interior(p),
        within_reach(p.0 - s.0, p.1 - s.1),
    ensures
        lit(generated(nav, sources)[p]),
    decreases magnitude(p.0 - s.0) + magnitude(p.1 - s.1),
{
    let field = generated(nav, sources);
    lemma_open_basics(nav, sources, s, p);
    if p != s {
        let x = magnitude(p.0 - s.0);
        let y = magnitude(p.1 - s.1);
        let first = x >= 1 && !sight_out_of_range((x - 1) * (x - 1) + y * y);
        let u = step_along(p, s, first);
        let f = flow_along(p, s, first);
        lemma_step_along(nav, p, s, first);
        lemma_in_range_within_reach(u.0 - s.0, u.1 - s.1);
        lemma_open_lit(nav, sources, s, u);
        lemma_open_basics(nav, sources, s, u);
        assert(nav.open_toward(u, f));
        assert(has_direction(nav.masks[u], f));
        assert(!sees(nav, field[p], s, p));
        if !lit(field[p]) {
            lemma_open_sees(nav, field[p], s, p);
        }
    }
}

/// In a level without obstacles and with a single target every lit interior
/// cell is within reach.
pub proof fn lemma_open_lit_only(
    nav: NavModel,
    sources: Seq<[usize; 2]>,
    s: (int, int),
    p: (int, int),
)
    requires
        open_with_target(nav, sources, s),
        nav.interior(p),
        lit(generated(nav, sources)[p]),
    ensures
        within_reach(p.0 - s.0, p.1 - s.1),
{
    let field = generated(nav, sources);
    lemma_open_basics(nav, sources, s, p);
    if field[p].flow is LineOfSight {
        let f = choose|f: Flow| #[trigger] lit_from(nav, field, p, f);
        let u = ahead_of(p, f);
        lemma_linked_interior(nav, u, f);
        lemma_open_basics(nav, sources, s, u);
        lemma_square_of_magnitude(u.0 - s.0);
        lemma_square_of_magnitude(u.1 - s.1);
        lemma_square_of_magnitude(p.0 - s.0);
        lemma_square_of_magnitude(p.1 - s.1);
        let x = magnitude(p.0 - s.0);
        let y = magnitude(p.1 - s.1);
        let ux = magnitude(u.0 - s.0);
        let uy = magnitude(u.1 - s.1);
        assert(squared_length(s, u) == ux * ux + uy * uy);
        assert((ux == x && (uy == y + 1 || uy == y - 1)) || (uy == y && (ux == x + 1 || ux == x
            - 1)));
        if ux == x + 1 || uy == y + 1 {
            // the line was handed on from a cell farther out, so the cell itself is in range
            assert(x * x + y * y <= ux * ux + uy * uy) by (nonlinear_arith)
                requires
                    0 <= x,
                    0 <= y,
                    (ux == x + 1 && uy == y) || (ux == x && uy == y + 1),
            ;
            assert(p != s);
            if x >= 1 {
                assert((x - 1) * (x - 1) <= x * x) by (nonlinear_arith)
                    requires
                        x >= 1,
                ;
            } else {
                assert((y - 1) * (y - 1) <= y * y) by (nonlinear_arith)
                    requires
                        y >= 1,
                ;
            }
        }
    }
}

/// The distance of a cell that lies `dx` and `dy` cells from the single target
/// of a level without obstacles: nothing on the target itself, the line less a
/// tenth where the cell is within reach of a line of sight, else the length of
/// the shortest route, with as many diagonal steps as the smaller offset
/// allows.
pub open spec fn open_distance(dx: int, dy: int) -> Distance {
    let x = magnitude(dx);
    let y = magnitude(dy);
    if x == 0 && y == 0 {
        Distance::Path(Steps { straight: 0, diagonal: 0 })
    } else if within_reach(dx, dy) {
        Distance::Sight((x * x + y * y) as u32)
    } else {
        Distance::Path(
            Steps {
                straight: magnitude(x - y) as u32,
                diagonal: (if x <= y {
                    x
                } else {
                    y
                }) as u32,
            },
        )
    }
}

/// In a level without obstacles and with a single target the distance of every
/// interior cell is given by its two offsets from the target alone.
pub proof fn lemma_open_field_value(
    nav: NavModel,
    sources: Seq<[usize; 2]>,
    s: (int, int),
    p: (int, int),
)
    requires
        open_with_target(nav, sources, s),
        nav.interior(p),
    ensures
        generated(nav, sources)[p].distance == open_distance(p.0 - s.0, p.1 - s.1),
        generated(nav, sources)[p].flow is Source <==> p == s,
        generated(nav, sources)[p].flow is LineOfSight <==> p != s && within_reach(
            p.0 - s.0,
            p.1 - s.1,
        ),
        generated(nav, sources)[p].flow is LineOfSight ==> generated(nav, sources)[p].flow
            == Flow::LineOfSight((s.0 - p.0) as i32, (s.1 - p.1) as i32),
{
    reveal(octile_straight);
    reveal(octile_diagonal);
    let field = generated(nav, sources);
    lemma_open_basics(nav, sources, s, p);
    lemma_square_of_magnitude(p.0 - s.0);
    lemma_square_of_magnitude(p.1 - s.1);
    lemma_squared_length_bounded(nav, s, p);
    if lit(field[p]) {
        lemma_open_lit_only(nav, sources, s, p);
    }
    if within_reach(p.0 - s.0, p.1 - s.1) {
        lemma_open_lit(nav, sources, s, p);
    }
}

/// Whether the offsets of two cells from the target are the same but for
/// their signs and their order.
pub open spec fn mirrored(a: (int, int), b: (int, int), s: (int, int)) -> bool {
    ||| (magnitude(a.0 - s.0) == magnitude(b.0 - s.0) && magnitude(a.1 - s.1) == magnitude(
        b.1 - s.1,
    ))
    ||| (magnitude(a.0 - s.0) == magnitude(b.1 - s.1) && magnitude(a.1 - s.1) == magnitude(
        b.0 - s.0,
    ))
}

/// In a level without obstacles and with a single target two interior cells
/// that mirror each other in the target, along an axis or along a diagonal,
/// have the same distance.
pub proof fn lemma_open_field_mirrored(
    nav: NavModel,
    sources: Seq<[usize; 2]>,
    s: (int, int),
    a: (int, int),
    b: (int, int),
)
    requires
        open_with_target(nav, sources, s),
        nav.interior(a),
        nav.interior(b),
        mirrored(a, b, s),
    ensures
        generated(nav, sources)[a].distance == generated(nav, sources)[b].distance,
{
    lemma_open_field_value(nav, sources, s, a);
    lemma_open_field_value(nav, sources, s, b);
    let ax = magnitude(a.0 - s.0);
    let ay = magnitude(a.1 - s.1);
    assert(ax * ax + ay * ay == ay * ay + ax * ax);
}

/// A line that is shorter than a route is shorter still when it is cut.
proof fn lemma_shorter_line_below(n1: int, n2: int, a: int, b: int)
    requires
        n1 <= n2,
        sight_below_path(n2, a, b),
    ensures
        sight_below_path(n1, a, b),
{
    if n1 < n2 {
        lemma_root_positive_add(
            sight_margin_straight(n2, a, b),
            sight_margin_diagonal(a, b),
            100 * (n2 - n1),
            0,
        );
    }
}

/// The straight steps of the shortest route over the offsets `x` and `y`.
pub open spec fn straight_part(x: int, y: int) -> int {
    magnitude(x - y)
}

/// The diagonal steps of the shortest route over the offsets `x` and `y`.
pub open spec fn diagonal_part(x: int, y: int) -> int {
    if x <= y {
        x
    } else {
        y
    }
}

/// A straight step, and a diagonal step in place of a straight one, are not negative.
proof fn lemma_one_cell_more(x: int, y: int)
    requires
        (x == 1 && y == 0) || (x == -1 && y == 1),
    ensures
        !root_positive(-x, -y),
{
    if x == -1 {
        assert((-x) * (-x) == 1 && (-y) * (-y) == 1) by (nonlinear_arith)
            requires
                x == -1,
                y == 1,
        ;
    }
}

/// The shortest route does not get shorter when an offset grows.
proof fn lemma_route_rises(x1: int, y1: int, x2: int, y2: int)
    requires
        0 <= x1 <= x2,
        0 <= y1 <= y2,
    ensures
        !root_positive(
            straight_part(x1, y1) - straight_part(x2, y2),
            diagonal_part(x1, y1) - diagonal_part(x2, y2),
        ),
    decreases (x2 - x1) + (y2 - y1),
{
    if x1 < x2 {
        lemma_route_rises(x1, y1, x2 - 1, y2);
        // one more cell along the first axis: a straight step more, or a diagonal step in
        // place of a straight one
        lemma_one_cell_more(
            straight_part(x2, y2) - straight_part(x2 - 1, y2),
            diagonal_part(x2, y2) - diagonal_part(x2 - 1, y2),
        );
        lemma_not_negative_add(
            straight_part(x2 - 1, y2) - straight_part(x1, y1),
            diagonal_part(x2 - 1, y2) - diagonal_part(x1, y1),
            straight_part(x2, y2) - straight_part(x2 - 1, y2),
            diagonal_part(x2, y2) - diagonal_part(x2 - 1, y2),
        );
    } else if y1 < y2 {
        lemma_route_rises(x1, y1, x2, y2 - 1);
        lemma_one_cell_more(
            straight_part(x2, y2) - straight_part(x2, y2 - 1),
            diagonal_part(x2, y2) - diagonal_part(x2, y2 - 1),
        );
        lemma_not_negative_add(
            straight_part(x2, y2 - 1) - straight_part(x1, y1),
            diagonal_part(x2, y2 - 1) - diagonal_part(x1, y1),
            straight_part(x2, y2) - straight_part(x2, y2 - 1),
            diagonal_part(x2, y2) - diagonal_part(x2, y2 - 1),
        );
    }
}

proof fn lemma_squares_rise(x1: int, x2: int)
    by (nonlinear_arith)
    requires
        0 <= x1 <= x2,
    ensures
        x1 * x1 <= x2 * x2,
{
}

/// A cell between the target and a cell within reach is within reach.
proof fn lemma_within_reach_downward(x1: int, y1: int, x2: int, y2: int)
    requires
        0 <= x1 <= x2,
        0 <= y1 <= y2,
        within_reach(x2, y2),
    ensures
        within_reach(x1, y1),
{
    if x1 != 0 || y1 != 0 {
        lemma_squares_rise(x1, x2);
        lemma_squares_rise(y1, y2);
        if x2 >= 1 && !sight_out_of_range((x2 - 1) * (x2 - 1) + y2 * y2) {
            if x1 >= 1 {
                lemma_squares_rise(x1 - 1, x2 - 1);
            } else {
                lemma_squares_rise(y1 - 1, y2);
                lemma_squares_rise(0, x2 - 1);
            }
        } else {
            if y1 >= 1 {
                lemma_squares_rise(y1 - 1, y2 - 1);
            } else {
                lemma_squares_rise(x1 - 1, x2);
                lemma_squares_rise(0, y2 - 1);
            }
        }
    }
}

/// The distance that the offsets give does not fall when an offset grows.
proof fn lemma_open_distance_rises(x1: int, y1: int, x2: int, y2: int)
    requires
        0 <= x1 <= x2 < 4096,
        0 <= y1 <= y2 < 4096,
    ensures
        open_distance(x1, y1).at_most(open_distance(x2, y2)),
{
    let d1 = open_distance(x1, y1);
    let d2 = open_distance(x2, y2);
    let n1 = x1 * x1 + y1 * y1;
    let n2 = x2 * x2 + y2 * y2;
    lemma_squares_rise(x1, x2);
    lemma_squares_rise(y1, y2);
    lemma_squares_rise(x2, 4095);
    lemma_squares_rise(y2, 4095);
    lemma_squares_rise(0, x1);
    lemma_squares_rise(0, y1);
    if within_reach(x2, y2) {
        lemma_within_reach_downward(x1, y1, x2, y2);
    }
    if x1 == 0 && y1 == 0 {
        if x2 != 0 || y2 != 0 {
            if within_reach(x2, y2) {
                assert(n2 >= 1) by (nonlinear_arith)
                    requires
                        n2 == x2 * x2 + y2 * y2,
                        0 <= x2,
                        0 <= y2,
                        x2 != 0 || y2 != 0,
                ;
                assert(path_below_sight(n2, 0, 0));
            }
        }
    } else if within_reach(x1, y1) {
        if !within_reach(x2, y2) {
            reveal(octile_straight);
            reveal(octile_diagonal);
            lemma_line_below_route((x2, y2), (0, 0));
            assert(squared_offset((x2, y2), (0, 0)) == n2);
            lemma_shorter_line_below(n1, n2, straight_part(x2, y2), diagonal_part(x2, y2));
        }
    } else {
        lemma_route_rises(x1, y1, x2, y2);
        lemma_root_trichotomy(
            straight_part(x2, y2) - straight_part(x1, y1),
            diagonal_part(x2, y2) - diagonal_part(x1, y1),
        );
    }
}

/// In a level without obstacles and with a single target the distances rise
/// away from the target: a cell that is no farther from the target than another
/// along either axis has at most the distance of the other.
pub proof fn lemma_open_field_rises(
    nav: NavModel,
    sources: Seq<[usize; 2]>,
    s: (int, int),
    a: (int, int),
    b: (int, int),
)
    requires
        open_with_target(nav, sources, s),
        nav.interior(a),
        nav.interior(b),
        magnitude(a.0 - s.0) <= magnitude(b.0 - s.0),
        magnitude(a.1 - s.1) <= magnitude(b.1 - s.1),
    ensures
        generated(nav, sources)[a].distance.at_most(generated(nav, sources)[b].distance),
{
    lemma_open_field_value(nav, sources, s, a);
    lemma_open_field_value(nav, sources, s, b);
    let x1 = magnitude(a.0 - s.0);
    let y1 = magnitude(a.1 - s.1);
    let x2 = magnitude(b.0 - s.0);
    let y2 = magnitude(b.1 - s.1);
    lemma_open_distance_rises(x1, y1, x2, y2);
    assert(open_distance(a.0 - s.0, a.1 - s.1) == open_distance(x1, y1));
    assert(open_distance(b.0 - s.0, b.1 - s.1) == open_distance(x2, y2));
}

} // verus!
