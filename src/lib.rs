//! A tick-driven behavior-tree engine.
//!
//! Nodes live in an arena indexed by `usize`; node `0` is the root and every
//! other node's parent has a smaller index. Each tick runs three passes in
//! order: the start pass, the kind-logic pass and the complete pass.
pub mod node;
pub mod delay;
pub mod model;
pub mod tree;
pub mod wellformed;
pub mod laws;
pub mod signal;

pub use node::{Kind, NodeState, Outcome, RunState, TraceEvent};
pub use delay::{Delay, run};
pub use model::TreeView;
pub use tree::{trace_behavior, BehaviorTree, NodeDef, MAX_ITERS};
pub use signal::PeerSignal;
