//! Routes over the links of a navigation grid, and what the wave at rest has
//! to do with them: the length it gives a cell is the length of a shortest
//! route from that cell to a target.

use crate::distance::{lemma_lt_total, lemma_not_negative_add, root_positive};
use crate::flow::{ahead_of, Flow, has_direction, neighbor_of};
use crate::nav_grid::{lemma_linked_interior, NavModel};
use crate::wave::{cell_counted, cell_sound, lemma_below_bounded, relaxed, steady, waiting, Wave};
use vstd::prelude::*;

verus! {

/// The cell an agent stands on after it has walked the steps of `flows`, one
/// after the other, from `p`.
pub open spec fn route_end(p: (int, int), flows: Seq<Flow>) -> (int, int)
    decreases flows.len(),
{
    if flows.len() == 0 {
        p
    } else {
        route_end(ahead_of(p, flows[0]), flows.drop_first())
    }
}

/// Every step of the route follows a link of the grid.
pub open spec fn route_open(nav: NavModel, p: (int, int), flows: Seq<Flow>) -> bool
    decreases flows.len(),
{
    flows.len() == 0 || (nav.linked(ahead_of(p, flows[0]), flows[0]) && route_open(
        nav,
        ahead_of(p, flows[0]),
        flows.drop_first(),
    ))
}

/// The number of straight steps of a route.
pub open spec fn straight_steps(flows: Seq<Flow>) -> int
    decreases flows.len(),
{
    if flows.len() == 0 {
        0
    } else {
        (if flows[0].is_cardinal() {
            1int
        } else {
            0int
        }) + straight_steps(flows.drop_first())
    }
}

/// The number of diagonal steps of a route.
pub open spec fn diagonal_steps(flows: Seq<Flow>) -> int
    decreases flows.len(),
{
    if flows.len() == 0 {
        0
    } else {
        (if flows[0].is_diagonal() {
            1int
        } else {
            0int
        }) + diagonal_steps(flows.drop_first())
    }
}

/// The route leads from `p` over links of the grid to one of the targets.
pub open spec fn leads_to_target(
    nav: NavModel,
    sources: Set<(int, int)>,
    p: (int, int),
    flows: Seq<Flow>,
) -> bool {
    route_open(nav, p, flows) && sources.contains(route_end(p, flows))
}

/// The wave has come to rest: it is steady and nothing waits.
pub open spec fn at_rest(nav: NavModel, sources: Set<(int, int)>, w: Wave) -> bool {
    steady(nav, sources, w, None) && w.queue.len() == 0
}

/// At rest no route to a target is shorter than the path of the cell it
/// starts from, and every cell with such a route has a path.
pub proof fn lemma_no_shorter_route(
    nav: NavModel,
    sources: Set<(int, int)>,
    w: Wave,
    p: (int, int),
    flows: Seq<Flow>,
)
    requires
        nav.wf(),
        at_rest(nav, sources, w),
        sources.subset_of(Set::new(|q: (int, int)| nav.contains(q))),
        leads_to_target(nav, sources, p, flows),
    ensures
        nav.contains(p),
        w.cells[p].distance is Path,
        !root_positive(
            w.cells[p].distance->Path_0.straight - straight_steps(flows),
            w.cells[p].distance->Path_0.diagonal - diagonal_steps(flows),
        ),
    decreases flows.len(),
{
    if flows.len() == 0 {
        assert(nav.contains(p));
        assert(cell_sound(sources, p, w.cells[p]));
    } else {
        let f = flows[0];
        let a = ahead_of(p, f);
        let rest = flows.drop_first();
        lemma_no_shorter_route(nav, sources, w, a, rest);
        lemma_linked_interior(nav, a, f);
        assert(neighbor_of(a, f) == p);
        assert(nav.contains(p));
        assert(cell_sound(sources, p, w.cells[p]));
        assert(cell_sound(sources, a, w.cells[a]));
        let sa = w.cells[a].distance->Path_0;
        assert(cell_counted(nav, w.cells, a));
        lemma_below_bounded(nav, w.cells, sa);
        assert(!waiting(w, a));
        assert(relaxed(nav, w.cells, a));
        assert(has_direction(nav.masks[a], f));
        let through = sa.plus(f.step());
        assert(!w.cells[p].distance.beyond_path(through));
        let sp = w.cells[p].distance->Path_0;
        assert(through.straight == sa.straight + f.step().straight);
        assert(through.diagonal == sa.diagonal + f.step().diagonal);
        // the path of `p` is at most the path of `a` and the step, which is at most the route
        lemma_not_negative_add(
            through.straight - sp.straight,
            through.diagonal - sp.diagonal,
            straight_steps(rest) - sa.straight,
            diagonal_steps(rest) - sa.diagonal,
        );
    }
}

/// At rest the direction of a cell leads to a cell that is exactly one step nearer.
pub proof fn lemma_one_step_nearer(
    nav: NavModel,
    sources: Set<(int, int)>,
    w: Wave,
    p: (int, int),
)
    requires
        nav.wf(),
        at_rest(nav, sources, w),
        nav.contains(p),
        w.cells[p].flow.is_compass(),
    ensures
        nav.linked(ahead_of(p, w.cells[p].flow), w.cells[p].flow),
        w.cells[p].distance is Path,
        w.cells[ahead_of(p, w.cells[p].flow)].distance is Path,
        w.cells[p].distance->Path_0.straight == w.cells[ahead_of(
            p,
            w.cells[p].flow,
        )].distance->Path_0.straight + w.cells[p].flow.step().straight,
        w.cells[p].distance->Path_0.diagonal == w.cells[ahead_of(
            p,
            w.cells[p].flow,
        )].distance->Path_0.diagonal + w.cells[p].flow.step().diagonal,
{
    let f = w.cells[p].flow;
    let a = ahead_of(p, f);
    let sa = w.cells[a].distance->Path_0;
    let sp = w.cells[p].distance->Path_0;
    assert(cell_counted(nav, w.cells, a));
    lemma_below_bounded(nav, w.cells, sa);
    assert(relaxed(nav, w.cells, a));
    let through = sa.plus(f.step());
    lemma_lt_total(through, sp);
}

/// A route can be entered one link earlier: its counts grow by that step.
pub proof fn lemma_route_extended(
    nav: NavModel,
    sources: Set<(int, int)>,
    p: (int, int),
    f: Flow,
    rest: Seq<Flow>,
)
    requires
        nav.linked(ahead_of(p, f), f),
        leads_to_target(nav, sources, ahead_of(p, f), rest),
    ensures
        leads_to_target(nav, sources, p, seq![f] + rest),
        straight_steps(seq![f] + rest) == straight_steps(rest) + f.step().straight,
        diagonal_steps(seq![f] + rest) == diagonal_steps(rest) + f.step().diagonal,
{
    let flows = seq![f] + rest;
    assert(flows.drop_first() == rest);
    assert(flows[0] == f);
}

/// At rest every cell with a path has a route to a target of exactly that length:
/// the one its directions trace.
pub proof fn lemma_route_exists(
    nav: NavModel,
    sources: Set<(int, int)>,
    w: Wave,
    p: (int, int),
) -> (flows: Seq<Flow>)
    requires
        nav.wf(),
        at_rest(nav, sources, w),
        nav.contains(p),
        w.cells[p].distance is Path,
    ensures
        leads_to_target(nav, sources, p, flows),
        straight_steps(flows) == w.cells[p].distance->Path_0.straight,
        diagonal_steps(flows) == w.cells[p].distance->Path_0.diagonal,
    decreases w.cells[p].distance->Path_0.hops(),
{
    assert(cell_sound(sources, p, w.cells[p]));
    let f = w.cells[p].flow;
    if f is Source {
        Seq::empty()
    } else {
        let a = ahead_of(p, f);
        lemma_one_step_nearer(nav, sources, w, p);
        assert(f.step().hops() == 1);
        let rest = lemma_route_exists(nav, sources, w, a);
        lemma_route_extended(nav, sources, p, f, rest);
        seq![f] + rest
    }
}

/// At rest the wave has reached every cell that is linked to a cell it reached.
pub proof fn lemma_rest_is_closed(nav: NavModel, sources: Set<(int, int)>, w: Wave)
    requires
        nav.wf(),
        at_rest(nav, sources, w),
    ensures
        crate::sight::reach_closed(nav, w.cells),
{
    assert forall|u: (int, int), flow: Flow|
        nav.contains(u) && w.cells[u].distance is Path && flow.is_compass() && #[trigger] has_direction(
            nav.masks[u],
            flow,
        ) implies w.cells[neighbor_of(u, flow)].distance is Path by {
        assert(!waiting(w, u));
        lemma_linked_interior(nav, u, flow);
    }
}

} // verus!
