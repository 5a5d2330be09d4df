//! When the flow field is generated anew.
//!
//! Generating a field takes long, so it is started at most once per
//! `MIN_NAV_GEN_INTERVAL` and never while an earlier run is still under way. The
//! host starts the work and reports its end; what is decided here is whether to
//! start and whether to take over a result.

use vstd::prelude::*;

verus! {

/// The least time between two starts, in milliseconds.
pub const MIN_NAV_GEN_INTERVAL: u64 = 200;

/// What the host does on a tick.
#[derive(Clone, Copy, Debug, PartialEq, Eq, Structural)]
pub enum Regeneration {
    /// Start generating a new field now.
    Start,
    /// Leave it: a run is under way, or the last start is too recent.
    Skip,
}

/// The state of the scheduler: whether a run is under way, and when the last one was started.
#[derive(Clone, Copy, Debug, PartialEq, Eq, Structural)]
pub struct FlowFieldGenerate {
    pub running: bool,
    pub last_started: u64,
}

/// Whether a run may be started at the time `now`.
pub open spec fn may_start(state: FlowFieldGenerate, now: u64) -> bool {
    !state.running && now - state.last_started >= MIN_NAV_GEN_INTERVAL
}

impl Default for FlowFieldGenerate {
    fn default() -> (s: FlowFieldGenerate)
        ensures
            s == (FlowFieldGenerate { running: false, last_started: 0 }),
    {
        FlowFieldGenerate { running: false, last_started: 0 }
    }
}

impl FlowFieldGenerate {
    /// Decides on a tick at the time `now`, in milliseconds, whether a run is
    /// started. A start is noted in the state; otherwise the state stays as it is.
    pub fn start_flow_field_generation_task(&mut self, now: u64) -> (action: Regeneration)
        ensures
            action is Start <==> may_start(*old(self), now),
            action is Start ==> *final(self) == (FlowFieldGenerate { running: true, last_started: now }),
            action is Skip ==> *final(self) == *old(self),
    {
        if self.running || now < self.last_started || now - self.last_started
            < MIN_NAV_GEN_INTERVAL {
            return Regeneration::Skip;
        }
        self.running = true;
        self.last_started = now;
        Regeneration::Start
    }

    /// Decides on a poll whether the result of the run is taken over:
    /// `finished` says whether the run under way has ended. The field in use is
    /// replaced exactly when a run was under way and has ended.
    pub fn handle_flow_field_task(&mut self, finished: bool) -> (adopt: bool)
        ensures
            adopt == (old(self).running && finished),
            final(self).running == (old(self).running && !finished),
            final(self).last_started == old(self).last_started,
    {
        if self.running && finished {
            self.running = false;
            true
        } else {
            false
        }
    }
}

/// Whether a system that may be limited to a single run runs on this tick.
/// Without the limit it always runs; with it, the first time only.
pub fn once(run_once: bool, already: &mut bool) -> (run: bool)
    ensures
        run == (!run_once || !*old(already)),
        *final(already) == (*old(already) || run_once),
{
    if !run_once {
        return true;
    }
    if !*already {
        *already = true;
        true
    } else {
        false
    }
}

/// The targets a field is generated for: the pointer alone while it is
/// followed, else all targets of the level.
pub fn choose_targets(pointer: Option<[usize; 2]>, targets: Vec<[usize; 2]>) -> (chosen: Vec<
    [usize; 2],
>)
    ensures
        chosen@ == match pointer {
            Some(cell) => seq![cell],
            None => targets@,
        },
{
    match pointer {
        Some(cell) => {
            let mut chosen: Vec<[usize; 2]> = Vec::new();
            chosen.push(cell);
            chosen
        },
        None => targets,
    }
}

/// At most one run is under way: while one is, no tick starts another.
pub proof fn lemma_one_run_at_a_time(state: FlowFieldGenerate, now: u64)
    requires
        state.running,
    ensures
        !may_start(state, now),
{
}

/// Two starts are at least the interval apart.
pub proof fn lemma_starts_are_spaced(state: FlowFieldGenerate, first: u64, second: u64)
    requires
        may_start(state, first),
        may_start(FlowFieldGenerate { running: false, last_started: first }, second),
    ensures
        second - first >= MIN_NAV_GEN_INTERVAL,
{
}

} // verus!
