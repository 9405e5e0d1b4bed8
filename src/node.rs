use vstd::prelude::*;

use crate::delay::Delay;

verus! {

/// The terminal result of a node's activation.
#[derive(Clone, Copy, PartialEq, Eq, Structural, Debug)]
pub enum Outcome {
    Success,
    Failure,
}

impl Outcome {
    /// The opposite outcome.
    pub fn invert(self) -> (r: Outcome)
        ensures
            r == self.inverted(),
    {
        match self {
            Outcome::Success => Outcome::Failure,
            Outcome::Failure => Outcome::Success,
        }
    }

    pub open spec fn inverted(self) -> Outcome {
        match self {
            Outcome::Success => Outcome::Failure,
            Outcome::Failure => Outcome::Success,
        }
    }

    /// The run state that reports this outcome.
    pub fn to_run_state(self) -> (r: RunState)
        ensures
            r == self.run_state(),
    {
        match self {
            Outcome::Success => RunState::Success,
            Outcome::Failure => RunState::Failure,
        }
    }

    pub open spec fn run_state(self) -> RunState {
        match self {
            Outcome::Success => RunState::Success,
            Outcome::Failure => RunState::Failure,
        }
    }
}

/// Where a node stands in its current activation.
#[derive(Clone, Copy, PartialEq, Eq, Structural, Debug)]
pub enum RunState {
    /// Not activated.
    Absent,
    /// Activated; its on-enter step has not run yet.
    Entered,
    /// Its on-enter step has run; not finished yet.
    Running,
    Success,
    Failure,
}

impl RunState {
    pub open spec fn is_active(self) -> bool {
        self != RunState::Absent
    }

    pub open spec fn is_terminal(self) -> bool {
        self == RunState::Success || self == RunState::Failure
    }

    pub open spec fn is_live(self) -> bool {
        self == RunState::Entered || self == RunState::Running
    }

    /// Whether the node is in an activation that has not finished.
    pub fn live(self) -> (r: bool)
        ensures
            r == self.is_live(),
    {
        match self {
            RunState::Entered => true,
            RunState::Running => true,
            _ => false,
        }
    }

    pub fn terminal(self) -> (r: bool)
        ensures
            r == self.is_terminal(),
    {
        match self {
            RunState::Success => true,
            RunState::Failure => true,
            _ => false,
        }
    }

    /// The outcome this state reports, if it is terminal.
    pub fn outcome(self) -> (r: Option<Outcome>)
        ensures
            r == self.outcome_of(),
    {
        match self {
            RunState::Success => Some(Outcome::Success),
            RunState::Failure => Some(Outcome::Failure),
            _ => None,
        }
    }

    pub open spec fn outcome_of(self) -> Option<Outcome> {
        match self {
            RunState::Success => Some(Outcome::Success),
            RunState::Failure => Some(Outcome::Failure),
            _ => None,
        }
    }
}

/// The kind of a node, with its fixed configuration.
#[derive(Clone, Copy, PartialEq, Eq, Structural, Debug)]
pub enum Kind {
    /// Runs its children in order; fails on the first failure.
    Sequence,
    /// Runs its children in order; succeeds on the first success.
    Selector,
    /// Runs its first child and reports the opposite outcome.
    Inverter,
    /// Runs its first child `repeat` times, then succeeds; `0` repeats forever.
    Repeater { repeat: u64 },
    /// Succeeds once the given time has passed since it was entered.
    Delay(Delay),
    /// Takes one tick to run, then succeeds.
    Debug,
    /// Finishes with the given outcome on its first tick.
    Finish(Outcome),
}

impl Default for Kind {
    /// A debug node.
    fn default() -> (r: Kind)
        ensures
            r == Kind::Debug,
    {
        Kind::Debug
    }
}

/// The transient state of one node. `memo` is the kind's counter: the
/// repetitions done by a repeater, the start time of a delay.
#[derive(Clone, Copy, PartialEq, Eq, Structural, Debug)]
pub struct NodeState {
    pub run: RunState,
    pub cursor: bool,
    pub memo: u64,
}

impl NodeState {
    pub open spec fn absent() -> NodeState {
        NodeState { run: RunState::Absent, cursor: false, memo: 0 }
    }

    pub fn new() -> (r: NodeState)
        ensures
            r == NodeState::absent(),
    {
        NodeState { run: RunState::Absent, cursor: false, memo: 0 }
    }
}

/// One entry of a trace: a node that was seen finishing, and how.
#[derive(Clone, Copy, PartialEq, Eq, Structural, Debug)]
pub struct TraceEvent {
    pub node: usize,
    pub outcome: Outcome,
}

} // verus!
