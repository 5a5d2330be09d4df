//! The decisions of the movement step.
//!
//! Positions and velocities are the host's. What is decided here is what an
//! agent steers by on the cell it stands on, and whether the cell it would move
//! to may be entered.

use crate::flow::{compass_offset, Flow, FlowCell};
use crate::flow_field::FlowField;
use vstd::prelude::*;

verus! {

/// What an agent steers by.
#[derive(Clone, Copy, Debug, PartialEq, Eq, Structural)]
pub enum Steering {
    /// No target can be reached from here: the agent stands still.
    Stall,
    /// The cell is a target: the agent heads for the centre of the cell.
    TowardCenter,
    /// The agent accelerates along this vector, which is not normalised.
    Along(i32, i32),
}

/// How a step of an agent ends.
#[derive(Clone, Copy, Debug, PartialEq, Eq, Structural)]
pub enum MoveOutcome {
    /// The agent takes its new position and keeps its new velocity.
    Advance,
    /// The agent keeps its position, and its velocity is set to zero.
    Halt,
}

/// Whether agents may stand on the cell `p` of a field: it lies in the
/// field and a target can be reached from it.
pub open spec fn enterable(field: Map<(int, int), FlowCell>, p: (int, int)) -> bool {
    field.dom().contains(p) && !(field[p].flow is Unreachable)
}

/// What an agent on a cell with the direction `flow` steers by.
pub open spec fn steering_of(flow: Flow) -> Steering {
    match flow {
        Flow::Unreachable => Steering::Stall,
        Flow::Source => Steering::TowardCenter,
        Flow::LineOfSight(dx, dy) => Steering::Along(dx, dy),
        _ => Steering::Along(compass_offset(flow).0 as i32, compass_offset(flow).1 as i32),
    }
}

/// What an agent on the cell `idx` steers by. An agent outside the field stalls.
pub fn steer(field: &FlowField, idx: [usize; 2]) -> (s: Steering)
    ensures
        s == if field@.dom().contains((idx[0] as int, idx[1] as int)) {
            steering_of(field@[(idx[0] as int, idx[1] as int)].flow)
        } else {
            Steering::Stall
        },
        s is Stall <==> !enterable(field@, (idx[0] as int, idx[1] as int)),
{
    match field.get(idx) {
        None => Steering::Stall,
        Some(flow) => match flow {
            Flow::Unreachable => Steering::Stall,
            Flow::Source => Steering::TowardCenter,
            other => {
                let d = other.to_dir();
                Steering::Along(d.0, d.1)
            },
        },
    }
}

/// Whether an agent may be moved onto the cell `idx`.
pub fn may_enter(field: &FlowField, idx: [usize; 2]) -> (b: bool)
    ensures
        b == enterable(field@, (idx[0] as int, idx[1] as int)),
{
    match field.get(idx) {
        None => false,
        Some(flow) => match flow {
            Flow::Unreachable => false,
            _ => true,
        },
    }
}

/// Decides a step of an agent that stands on the cell `from` and would, with
/// its flow and avoidance forces combined, arrive on the cell `to`.
///
/// The agent advances only when a target can be reached from both cells. So
/// no step puts an agent on a cell without a way to a target, and an agent on
/// such a cell stays where it is, at rest.
pub fn move_with_flow_field(field: &FlowField, from: [usize; 2], to: [usize; 2]) -> (outcome:
    MoveOutcome)
    ensures
        outcome is Advance <==> enterable(field@, (from[0] as int, from[1] as int)) && enterable(
            field@,
            (to[0] as int, to[1] as int),
        ),
{
    if may_enter(field, from) && may_enter(field, to) {
        MoveOutcome::Advance
    } else {
        MoveOutcome::Halt
    }
}

/// The cell an agent is on after a step that ended with `outcome`.
pub open spec fn cell_after(outcome: MoveOutcome, from: (int, int), to: (int, int)) -> (int, int) {
    if outcome is Advance {
        to
    } else {
        from
    }
}

/// Whether an avoidance displacement that would carry an agent onto the cell `to` is applied.
pub fn keep_distance_to_others(field: &FlowField, to: [usize; 2]) -> (applied: bool)
    ensures
        applied == enterable(field@, (to[0] as int, to[1] as int)),
{
    may_enter(field, to)
}

/// An agent on a cell without a way to a target never leaves it and ends
/// every step at rest, wherever its velocity would carry it.
pub proof fn lemma_stalled_agent_rests(
    field: Map<(int, int), FlowCell>,
    outcome: MoveOutcome,
    from: (int, int),
    to: (int, int),
)
    requires
        !enterable(field, from),
        outcome is Advance <==> enterable(field, from) && enterable(field, to),
    ensures
        outcome is Halt,
        cell_after(outcome, from, to) == from,
{
}

/// A step moves no agent from a cell with a way to a target onto a cell without one.
pub proof fn lemma_step_stays_enterable(
    field: Map<(int, int), FlowCell>,
    outcome: MoveOutcome,
    from: (int, int),
    to: (int, int),
)
    requires
        enterable(field, from),
        outcome is Advance <==> enterable(field, from) && enterable(field, to),
    ensures
        enterable(field, cell_after(outcome, from, to)),
{
}

} // verus!
