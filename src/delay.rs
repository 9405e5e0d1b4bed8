use vstd::prelude::*;

use crate::node::{NodeState, RunState};

verus! {

/// A leaf that succeeds once `duration` time units have passed since it was
/// entered. Time is a monotonic counter supplied by the host.
#[derive(Clone, Copy, PartialEq, Eq, Structural, Debug)]
pub struct Delay {
    pub duration: u64,
}

/// At time `now`, at least `duration` has passed since `start`. A clock that
/// stands behind `start` has not reached it.
pub open spec fn reached(now: u64, start: u64, duration: u64) -> bool {
    now >= start && now - start >= duration
}

/// One tick of a live delay: entering records `now` as the start; the delay
/// then succeeds as soon as the time since the start reaches its duration.
pub open spec fn delay_step(delay: Delay, state: NodeState, now: u64) -> NodeState {
    let start = if state.run == RunState::Entered {
        now
    } else {
        state.memo
    };
    let run = if reached(now, start, delay.duration) {
        RunState::Success
    } else {
        RunState::Running
    };
    NodeState { run, cursor: state.cursor, memo: start }
}

/// Ticks a delay node in state `state` at time `now`. A node that does not
/// hold the cursor, or whose activation is not live, is left as it is.
pub fn run(delay: &Delay, state: NodeState, now: u64) -> (r: NodeState)
    ensures
        state.cursor && state.run.is_live() ==> r == delay_step(*delay, state, now),
        !(state.cursor && state.run.is_live()) ==> r == state,
{
    if !state.cursor || !state.run.live() {
        return state;
    }
    let start: u64 = if state.run == RunState::Entered {
        now
    } else {
        state.memo
    };
    let run = if now >= start && now - start >= delay.duration {
        RunState::Success
    } else {
        RunState::Running
    };
    NodeState { run, cursor: state.cursor, memo: start }
}

} // verus!
