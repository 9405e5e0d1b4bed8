//! The mathematical model of a tree and of the three passes.
use vstd::prelude::*;

use crate::delay::delay_step;
use crate::node::{Kind, NodeState, Outcome, RunState, TraceEvent};
use crate::tree::NodeDef;

verus! {

/// The mathematical model of a tree: per-node sequences indexed by node.
pub struct TreeView {
    pub kinds: Seq<Kind>,
    pub labels: Seq<Seq<char>>,
    pub parents: Seq<Option<usize>>,
    /// Each node's position in its parent's child list.
    pub slots: Seq<usize>,
    pub children: Seq<Seq<usize>>,
    pub states: Seq<NodeState>,
    /// The outcome of the root's last finished activation.
    pub result: Option<Outcome>,
}

impl TreeView {
    pub open spec fn len(self) -> nat {
        self.kinds.len()
    }

    pub open spec fn with_states(self, states: Seq<NodeState>) -> TreeView {
        TreeView { states, ..self }
    }

    /// Node `0` is the root; every other node has a parent with a smaller
    /// index, and parent and child lists agree.
    pub open spec fn topology_wf(self) -> bool {
        let n = self.len();
        &&& 0 < n <= usize::MAX
        &&& self.labels.len() == n
        &&& self.parents.len() == n
        &&& self.slots.len() == n
        &&& self.children.len() == n
        &&& self.states.len() == n
        &&& self.parents[0].is_none()
        &&& forall|i: int|
            0 < i < n ==> {
                &&& (#[trigger] self.parents[i]).is_some()
                &&& self.parents[i].unwrap() < i
                &&& self.slots[i] < self.children[self.parents[i].unwrap() as int].len()
                &&& self.children[self.parents[i].unwrap() as int][self.slots[i] as int] == i
            }
        &&& forall|p: int, k: int|
            0 <= p < n && 0 <= k < self.children[p].len() ==> {
                &&& 0 < #[trigger] self.children[p][k] < n
                &&& self.parents[self.children[p][k] as int] == Some(p as usize)
                &&& self.slots[self.children[p][k] as int] == k
            }
    }

    pub open spec fn active(self, i: int) -> bool {
        self.states[i].run.is_active()
    }

    pub open spec fn cursor(self, i: int) -> bool {
        self.states[i].cursor
    }

    /// The run-state invariant: the active nodes form one chain down from
    /// the root, every node on it but the last waits on its one active
    /// child, and the cursor sits on the last node alone.
    pub open spec fn state_wf(self) -> bool {
        let n = self.len();
        &&& forall|i: int|
            0 <= i < n && (#[trigger] self.states[i]).cursor ==> self.states[i].run.is_active()
        &&& forall|i: int|
            0 <= i < n && (#[trigger] self.states[i]).run.is_terminal() ==> self.states[i].cursor
        &&& forall|i: int, j: int|
            0 <= i < n && 0 <= j < n && (#[trigger] self.states[i]).cursor && (
            #[trigger] self.states[j]).cursor ==> i == j
        &&& forall|p: int, a: int|
            0 <= p < n && 0 <= a < self.children[p].len() && self.active(
                #[trigger] self.children[p][a] as int,
            ) ==> self.states[p].run == RunState::Running && !self.cursor(p)
        &&& forall|p: int, a: int, b: int|
            0 <= p < n && 0 <= a < self.children[p].len() && 0 <= b < self.children[p].len()
                && a != b && self.active(#[trigger] self.children[p][a] as int) ==> !self.active(
                #[trigger] self.children[p][b] as int,
            )
        &&& forall|i: int|
            0 <= i < n && (#[trigger] self.states[i]).run == RunState::Running ==> repeat_ok(
                self.kinds[i],
                self.states[i].memo,
            )
    }

    pub open spec fn wf(self) -> bool {
        self.topology_wf() && self.state_wf()
    }
}

/// A running repeater with a bound has done fewer repetitions than the bound.
pub open spec fn repeat_ok(kind: Kind, memo: u64) -> bool {
    match kind {
        Kind::Repeater { repeat } => repeat == 0 || memo < repeat,
        _ => true,
    }
}

pub open spec fn set_state(
    s: Seq<NodeState>,
    i: int,
    run: RunState,
    cursor: bool,
    memo: u64,
) -> Seq<NodeState> {
    s.update(i, NodeState { run, cursor, memo })
}

/// Gives node `c` the cursor and a fresh activation.
pub open spec fn push_cursor(s: Seq<NodeState>, c: int) -> Seq<NodeState> {
    s.update(c, NodeState { run: RunState::Entered, cursor: true, memo: s[c].memo })
}

/// Node `i` starts waiting, with counter `memo`, and hands the cursor to `c`.
pub open spec fn descend(s: Seq<NodeState>, i: int, c: int, memo: u64) -> Seq<NodeState> {
    push_cursor(set_state(s, i, RunState::Running, false, memo), c)
}

/// Node `i` finishes in `run`, keeping the cursor.
pub open spec fn finish(s: Seq<NodeState>, i: int, run: RunState, memo: u64) -> Seq<NodeState> {
    set_state(s, i, run, true, memo)
}

/// Node `i` goes back to absent and loses the cursor; its counter stays.
pub open spec fn clear(s: Seq<NodeState>, i: int) -> Seq<NodeState> {
    set_state(s, i, RunState::Absent, false, s[i].memo)
}

/// The start pass: an idle root receives the cursor.
pub open spec fn start_spec(t: TreeView) -> TreeView {
    if !t.active(0) && !t.cursor(0) {
        t.with_states(push_cursor(t.states, 0))
    } else {
        t
    }
}

/// On entering, a composite hands the cursor to its first child, or, having
/// none, finishes at once in `empty`.
pub open spec fn enter_composite(t: TreeView, i: int, empty: RunState) -> Seq<NodeState> {
    let st = t.states[i];
    if st.run == RunState::Entered {
        if t.children[i].len() == 0 {
            finish(t.states, i, empty, st.memo)
        } else {
            descend(t.states, i, t.children[i][0] as int, st.memo)
        }
    } else {
        t.states
    }
}

/// The kind logic of node `i` for one tick at time `now`.
pub open spec fn node_step(t: TreeView, i: int, now: u64) -> Seq<NodeState> {
    let s = t.states;
    let st = s[i];
    let entered = st.run == RunState::Entered;
    match t.kinds[i] {
        Kind::Sequence => enter_composite(t, i, RunState::Success),
        Kind::Selector => enter_composite(t, i, RunState::Failure),
        Kind::Inverter => enter_composite(t, i, RunState::Failure),
        Kind::Repeater { repeat } => if t.children[i].len() == 0 {
            if entered {
                finish(s, i, RunState::Failure, 0)
            } else {
                s
            }
        } else if entered {
            descend(s, i, t.children[i][0] as int, 0)
        } else {
            descend(s, i, t.children[i][0] as int, st.memo)
        },
        Kind::Delay(d) => s.update(i, delay_step(d, st, now)),
        Kind::Debug => if entered {
            set_state(s, i, RunState::Running, st.cursor, st.memo)
        } else {
            finish(s, i, RunState::Success, st.memo)
        },
        Kind::Finish(o) => finish(s, i, o.run_state(), st.memo),
    }
}

/// Kind logic runs on exactly the nodes that hold the cursor and have not
/// finished.
pub open spec fn should_tick(s: Seq<NodeState>, i: int) -> bool {
    s[i].cursor && s[i].run.is_live()
}

pub open spec fn tick_at(t: TreeView, i: int, now: u64) -> TreeView {
    if should_tick(t.states, i) {
        t.with_states(node_step(t, i, now))
    } else {
        t
    }
}

/// The kind-logic pass from node `i` on, in index order: a child that
/// receives the cursor is ticked later in the same pass.
pub open spec fn kinds_from(t: TreeView, i: int, now: u64) -> TreeView
    decreases t.len() - i,
{
    if 0 <= i < t.len() {
        kinds_from(tick_at(t, i, now), i + 1, now)
    } else {
        t
    }
}

/// The kind-logic pass.
pub open spec fn kind_pass(t: TreeView, now: u64) -> TreeView {
    kinds_from(t, 0, now)
}

/// How parent `p` reacts when its child at position `k` finishes with `r`.
pub open spec fn child_result_spec(t: TreeView, p: int, k: int, r: Outcome) -> Seq<NodeState> {
    let s = t.states;
    let ps = s[p];
    let kids = t.children[p];
    match t.kinds[p] {
        Kind::Sequence => if r == Outcome::Success && k + 1 < kids.len() {
            push_cursor(s, kids[k + 1] as int)
        } else {
            finish(s, p, r.run_state(), ps.memo)
        },
        Kind::Selector => if r == Outcome::Failure && k + 1 < kids.len() {
            push_cursor(s, kids[k + 1] as int)
        } else {
            finish(s, p, r.run_state(), ps.memo)
        },
        Kind::Inverter => finish(s, p, r.inverted().run_state(), ps.memo),
        Kind::Repeater { repeat } => if repeat == 0 {
            set_state(s, p, RunState::Running, true, ps.memo)
        } else if ps.memo + 1 < repeat {
            set_state(s, p, RunState::Running, true, (ps.memo + 1) as u64)
        } else {
            finish(s, p, RunState::Success, repeat)
        },
        _ => s,
    }
}

/// The first node at index `i` or later that has finished.
pub open spec fn first_terminal(s: Seq<NodeState>, i: int) -> Option<int>
    decreases s.len() - i,
{
    if 0 <= i < s.len() {
        if s[i].run.is_terminal() {
            Some(i)
        } else {
            first_terminal(s, i + 1)
        }
    } else {
        None
    }
}

/// Settling finished node `i`: its outcome goes to its parent's handler, or,
/// for the root, to the tree record; then the node is cleared.
pub open spec fn settle(t: TreeView, i: int) -> TreeView {
    let r = t.states[i].run.outcome_of().unwrap();
    match t.parents[i] {
        Some(p) => t.with_states(clear(child_result_spec(t, p as int, t.slots[i] as int, r), i)),
        None => TreeView { states: clear(t.states, i), result: Some(r), ..t },
    }
}

/// The complete pass: settles the finished node. A node that finishes in
/// reaction is settled by the next pass.
pub open spec fn complete_spec(t: TreeView) -> TreeView {
    match first_terminal(t.states, 0) {
        Some(i) => settle(t, i),
        None => t,
    }
}

/// What the complete pass writes to a trace.
pub open spec fn complete_events(t: TreeView) -> Seq<TraceEvent> {
    match first_terminal(t.states, 0) {
        Some(i) => seq![TraceEvent { node: i as usize, outcome: t.states[i].run.outcome_of().unwrap() }],
        None => seq![],
    }
}

/// One tick: the start pass, the kind-logic pass, the complete pass.
pub open spec fn tick_tree(t: TreeView, now: u64) -> TreeView {
    complete_spec(kind_pass(start_spec(t), now))
}

/// `count` ticks at times `first`, `first + 1`, ...: the tree they leave and
/// the trace they write.
pub open spec fn run_ticks(t: TreeView, first: nat, count: nat) -> (TreeView, Seq<TraceEvent>)
    decreases count,
{
    if count == 0 {
        (t, seq![])
    } else {
        let (u, events) = run_ticks(t, first, (count - 1) as nat);
        let now = (first + count - 1) as u64;
        (tick_tree(u, now), events + complete_events(kind_pass(start_spec(u), now)))
    }
}

/// The number of nodes that `d` describes.
pub open spec fn def_size(d: NodeDef) -> nat
    decreases d, 1int, 0int,
{
    1 + children_size(d, d.children@.len() as int)
}

/// The number of nodes that the first `k` children of `d` describe.
pub open spec fn children_size(d: NodeDef, k: int) -> nat
    decreases d, 0int, k,
{
    if 0 < k <= d.children@.len() {
        children_size(d, k - 1) + def_size(d.children@[k - 1])
    } else {
        0
    }
}

/// Node `i` of `t` and everything below it are laid out as `d` describes,
/// numbered in pre-order: the same kind, label and number of children, and
/// child `j` is node `i + 1` plus the sizes of the children before it.
pub open spec fn matches_def(t: TreeView, i: int, d: NodeDef) -> bool
    decreases d,
{
    &&& 0 <= i < t.len()
    &&& t.kinds[i] == d.kind
    &&& t.labels[i] == d.label@
    &&& t.children[i].len() == d.children@.len()
    &&& forall|j: int|
        0 <= j < d.children@.len() ==> {
            &&& #[trigger] t.children[i][j] == i + 1 + children_size(d, j)
            &&& matches_def(t, t.children[i][j] as int, d.children@[j])
        }
}

/// Growing a tree from `t0` to `t` kept the kinds and labels of its nodes
/// and the child lists of all of them but node `i`.
pub open spec fn keeps_prefix(t0: TreeView, t: TreeView, i: int) -> bool {
    &&& t.len() >= t0.len()
    &&& forall|x: int| 0 <= x < t0.len() ==> (#[trigger] t.kinds[x]) == t0.kinds[x]
    &&& forall|x: int| 0 <= x < t0.len() ==> (#[trigger] t.labels[x]) == t0.labels[x]
    &&& forall|x: int| 0 <= x < t0.len() && x != i ==> (#[trigger] t.children[x]) == t0.children[x]
}

/// Node `j` is node `i` or lies below it.
pub open spec fn below(t: TreeView, j: int, i: int) -> bool
    decreases j,
{
    if j == i {
        true
    } else if 0 < j < t.len() && t.parents[j].is_some() && t.parents[j].unwrap() < j {
        below(t, t.parents[j].unwrap() as int, i)
    } else {
        false
    }
}

/// Cancelling node `i`: it and every node below it go back to absent and
/// lose the cursor; counters stay.
pub open spec fn cancel_spec(t: TreeView, i: int) -> TreeView {
    t.with_states(
        Seq::new(
            t.states.len(),
            |j: int|
                if below(t, j, i) {
                    NodeState { run: RunState::Absent, cursor: false, memo: t.states[j].memo }
                } else {
                    t.states[j]
                },
        ),
    )
}

} // verus!
