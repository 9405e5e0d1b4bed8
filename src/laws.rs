//! Laws of the traversal protocol, stated over the tree model and proved.
use vstd::prelude::*;

use crate::delay::{delay_step, Delay};
use crate::node::{Kind, NodeState, Outcome, RunState};
use crate::wellformed::{
    lemma_active_root, lemma_first_terminal, lemma_kinds_from_wf, lemma_settle_wf, lemma_start_wf,
};
use crate::model::{
    complete_spec, first_terminal, kind_pass, node_step, settle, start_spec, tick_tree, TreeView,
};

verus! {

/// No child of node `p` but the one at position `keep` is active.
pub open spec fn others_absent(t: TreeView, p: int, keep: int) -> bool {
    forall|a: int|
        0 <= a < t.children[p].len() && a != keep ==> !t.active(#[trigger] t.children[p][a] as int)
}

/// Single active chain: in a well-formed tree at most one node holds the
/// cursor and at most one has finished; no two children of one node are
/// active at once; the parent of an active node is active and waits on it
/// without the cursor; every active node lies below an active root. By
/// `lemma_passes_wf` this holds after every pass.
pub proof fn lemma_single_active_chain(t: TreeView)
    requires
        t.wf(),
    ensures
        forall|i: int, j: int|
            0 <= i < t.len() && 0 <= j < t.len() && (#[trigger] t.states[i]).cursor && (
            #[trigger] t.states[j]).cursor ==> i == j,
        forall|i: int, j: int|
            0 <= i < t.len() && 0 <= j < t.len() && (#[trigger] t.states[i]).run.is_terminal() && (
            #[trigger] t.states[j]).run.is_terminal() ==> i == j,
        forall|p: int, a: int, b: int|
            0 <= p < t.len() && 0 <= a < t.children[p].len() && 0 <= b < t.children[p].len()
                && t.active(#[trigger] t.children[p][a] as int) && t.active(
                #[trigger] t.children[p][b] as int,
            ) ==> a == b,
        forall|i: int|
            0 < i < t.len() && t.states[i].run.is_active() ==> {
                let p = (#[trigger] t.parents[i]).unwrap() as int;
                &&& t.states[p].run == RunState::Running
                &&& !t.states[p].cursor
            },
        forall|i: int| 0 <= i < t.len() && #[trigger] t.active(i) ==> t.active(0),
{
    lemma_chain_links(t);
    lemma_chain_siblings(t);
    lemma_chain_rooted(t);
}

/// One cursor at most; no two active children of one node.
proof fn lemma_chain_siblings(t: TreeView)
    requires
        t.wf(),
    ensures
        forall|i: int, j: int|
            0 <= i < t.len() && 0 <= j < t.len() && (#[trigger] t.states[i]).cursor && (
            #[trigger] t.states[j]).cursor ==> i == j,
        forall|p: int, a: int, b: int|
            0 <= p < t.len() && 0 <= a < t.children[p].len() && 0 <= b < t.children[p].len()
                && t.active(#[trigger] t.children[p][a] as int) && t.active(
                #[trigger] t.children[p][b] as int,
            ) ==> a == b,
{
}

/// The parent of an active node waits on it; one node at most has finished.
proof fn lemma_chain_links(t: TreeView)
    requires
        t.wf(),
    ensures
        forall|i: int, j: int|
            0 <= i < t.len() && 0 <= j < t.len() && (#[trigger] t.states[i]).run.is_terminal() && (
            #[trigger] t.states[j]).run.is_terminal() ==> i == j,
        forall|i: int|
            0 < i < t.len() && t.states[i].run.is_active() ==> {
                let p = (#[trigger] t.parents[i]).unwrap() as int;
                &&& t.states[p].run == RunState::Running
                &&& !t.states[p].cursor
            },
{
    assert forall|i: int, j: int|
        0 <= i < t.len() && 0 <= j < t.len() && (#[trigger] t.states[i]).run.is_terminal() && (
        #[trigger] t.states[j]).run.is_terminal() implies i == j by {
        assert(t.states[i].cursor && t.states[j].cursor);
    }
    assert forall|i: int|
        0 < i < t.len() && t.states[i].run.is_active() implies {
            let p = (#[trigger] t.parents[i]).unwrap() as int;
            &&& t.states[p].run == RunState::Running
            &&& !t.states[p].cursor
        } by {
        let p = t.parents[i].unwrap() as int;
        assert(t.children[p][t.slots[i] as int] == i);
    }
}

/// Every active node lies below an active root.
proof fn lemma_chain_rooted(t: TreeView)
    requires
        t.wf(),
    ensures
        forall|i: int| 0 <= i < t.len() && #[trigger] t.active(i) ==> t.active(0),
{
    assert forall|i: int| 0 <= i < t.len() && #[trigger] t.active(i) implies t.active(0) by {
        lemma_active_root(t, i);
    }
}

/// Each pass, and so each tick, keeps the invariant: the single active
/// chain holds at every instant between passes.
pub proof fn lemma_passes_wf(t: TreeView, now: u64)
    requires
        t.wf(),
    ensures
        start_spec(t).wf(),
        kind_pass(t, now).wf(),
        complete_spec(t).wf(),
        tick_tree(t, now).wf(),
{
    lemma_complete_wf(t);
    lemma_start_wf(t);
    lemma_kinds_from_wf(t, 0, now);
    let s = start_spec(t);
    lemma_kinds_from_wf(s, 0, now);
    lemma_complete_wf(kind_pass(s, now));
}

/// The complete pass keeps the invariant.
pub proof fn lemma_complete_wf(t: TreeView)
    requires
        t.wf(),
    ensures
        complete_spec(t).wf(),
{
    lemma_first_terminal(t.states, 0);
    match first_terminal(t.states, 0) {
        Some(i) => lemma_settle_wf(t, i),
        None => {},
    }
}

/// Starting twice in one tick is starting once.
pub proof fn lemma_start_idempotent(t: TreeView)
    requires
        t.wf(),
    ensures
        start_spec(start_spec(t)) == start_spec(t),
{
    assert(start_spec(t).states[0].run.is_active() || start_spec(t) == t);
}

/// A sequence enters its first child, and with no children succeeds at once.
pub proof fn lemma_sequence_enter(t: TreeView, i: int, now: u64)
    requires
        t.wf(),
        0 <= i < t.len(),
        t.kinds[i] == Kind::Sequence,
        t.states[i].cursor,
        t.states[i].run == RunState::Entered,
    ensures
        ({
            let u = t.with_states(node_step(t, i, now));
            if t.children[i].len() == 0 {
                u.states[i].run == RunState::Success
            } else {
                &&& u.states[i].run == RunState::Running
                &&& u.states[t.children[i][0] as int].run == RunState::Entered
                &&& u.states[t.children[i][0] as int].cursor
                &&& others_absent(u, i, 0)
            }
        }),
{
    if t.children[i].len() > 0 {
        lemma_enter_first(t, i, now);
    }
}

/// A selector enters its first child, and with no children fails at once.
pub proof fn lemma_selector_enter(t: TreeView, i: int, now: u64)
    requires
        t.wf(),
        0 <= i < t.len(),
        t.kinds[i] == Kind::Selector,
        t.states[i].cursor,
        t.states[i].run == RunState::Entered,
    ensures
        ({
            let u = t.with_states(node_step(t, i, now));
            if t.children[i].len() == 0 {
                u.states[i].run == RunState::Failure
            } else {
                &&& u.states[i].run == RunState::Running
                &&& u.states[t.children[i][0] as int].run == RunState::Entered
                &&& u.states[t.children[i][0] as int].cursor
                &&& others_absent(u, i, 0)
            }
        }),
{
    if t.children[i].len() > 0 {
        lemma_enter_first(t, i, now);
    }
}

/// Entering a composite or decorator that has children activates the first
/// child alone.
proof fn lemma_enter_first(t: TreeView, i: int, now: u64)
    requires
        t.wf(),
        0 <= i < t.len(),
        t.states[i].cursor,
        t.states[i].run == RunState::Entered,
        t.children[i].len() > 0,
    ensures
        others_absent(t.with_states(node_step(t, i, now)), i, 0),
{
    let u = t.with_states(node_step(t, i, now));
    let c = t.children[i][0] as int;
    assert forall|a: int|
        0 <= a < u.children[i].len() && a != 0 implies !u.active(#[trigger] u.children[i][a] as int) by {
        let x = t.children[i][a] as int;
        assert(t.slots[x] == a);
        assert(t.slots[c] == 0);
        assert(!t.active(x));
    }
}

/// Sequence: a failing child fails the sequence and no other child is
/// active, so the children after it are never entered; a succeeding child
/// hands the cursor to the next child, and the last one succeeding makes
/// the sequence succeed.
pub proof fn lemma_sequence_child_result(t: TreeView, i: int)
    requires
        t.wf(),
        0 < i < t.len(),
        t.states[i].run.is_terminal(),
        t.kinds[t.parents[i].unwrap() as int] == Kind::Sequence,
    ensures
        ({
            let p = t.parents[i].unwrap() as int;
            let k = t.slots[i] as int;
            let u = settle(t, i);
            &&& u.states[i].run == RunState::Absent
            &&& t.states[i].run == RunState::Failure ==> u.states[p].run == RunState::Failure
                && others_absent(u, p, -1)
            &&& t.states[i].run == RunState::Success && k + 1 < t.children[p].len() ==> {
                &&& u.states[p].run == RunState::Running
                &&& u.states[t.children[p][k + 1] as int].run == RunState::Entered
                &&& u.states[t.children[p][k + 1] as int].cursor
                &&& others_absent(u, p, k + 1)
            }
            &&& t.states[i].run == RunState::Success && k + 1 == t.children[p].len()
                ==> u.states[p].run == RunState::Success && others_absent(u, p, -1)
        }),
{
    lemma_child_result_siblings(t, i);
}

/// Selector: a succeeding child makes the selector succeed; a failing child
/// hands the cursor to the next child, and the last one failing makes the
/// selector fail.
pub proof fn lemma_selector_child_result(t: TreeView, i: int)
    requires
        t.wf(),
        0 < i < t.len(),
        t.states[i].run.is_terminal(),
        t.kinds[t.parents[i].unwrap() as int] == Kind::Selector,
    ensures
        ({
            let p = t.parents[i].unwrap() as int;
            let k = t.slots[i] as int;
            let u = settle(t, i);
            &&& u.states[i].run == RunState::Absent
            &&& t.states[i].run == RunState::Success ==> u.states[p].run == RunState::Success
                && others_absent(u, p, -1)
            &&& t.states[i].run == RunState::Failure && k + 1 < t.children[p].len() ==> {
                &&& u.states[p].run == RunState::Running
                &&& u.states[t.children[p][k + 1] as int].run == RunState::Entered
                &&& u.states[t.children[p][k + 1] as int].cursor
                &&& others_absent(u, p, k + 1)
            }
            &&& t.states[i].run == RunState::Failure && k + 1 == t.children[p].len()
                ==> u.states[p].run == RunState::Failure && others_absent(u, p, -1)
        }),
{
    lemma_child_result_siblings(t, i);
}

/// After a child settles, its siblings other than the next one are absent.
proof fn lemma_child_result_siblings(t: TreeView, i: int)
    requires
        t.wf(),
        0 < i < t.len(),
        t.states[i].run.is_terminal(),
    ensures
        ({
            let p = t.parents[i].unwrap() as int;
            let k = t.slots[i] as int;
            let u = settle(t, i);
            &&& u.states[i].run == RunState::Absent
            &&& forall|a: int|
                0 <= a < t.children[p].len() && a != k + 1 ==> !u.active(
                    #[trigger] t.children[p][a] as int,
                )
            &&& forall|a: int|
                0 <= a < t.children[p].len() && a == k + 1 ==> u.states[t.children[p][a] as int]
                    == t.states[t.children[p][a] as int] || (u.states[t.children[p][a] as int].run
                    == RunState::Entered && u.states[t.children[p][a] as int].cursor)
        }),
{
    let p = t.parents[i].unwrap() as int;
    let k = t.slots[i] as int;
    assert(t.children[p][k] == i);
    assert forall|a: int|
        0 <= a < t.children[p].len() && a != k + 1 implies !settle(t, i).active(
            #[trigger] t.children[p][a] as int,
        ) by {
        let x = t.children[p][a] as int;
        assert(t.slots[x] == a);
        if a != k {
            assert(!t.active(x));
        }
        if k + 1 < t.children[p].len() {
            assert(t.slots[t.children[p][k + 1] as int] == k + 1);
        }
    }
}

/// Inverter: the child's outcome is reported the other way round; with no
/// child the inverter fails on entering.
pub proof fn lemma_inverter(t: TreeView, i: int, now: u64)
    requires
        t.wf(),
        0 <= i < t.len(),
    ensures
        t.kinds[i] == Kind::Inverter && t.states[i].cursor && t.states[i].run == RunState::Entered
            && t.children[i].len() == 0 ==> node_step(t, i, now)[i].run == RunState::Failure,
        0 < i && t.states[i].run.is_terminal() && t.kinds[t.parents[i].unwrap() as int]
            == Kind::Inverter ==> settle(t, i).states[t.parents[i].unwrap() as int].run
            == t.states[i].run.outcome_of().unwrap().inverted().run_state(),
        0 < i && t.states[i].run == RunState::Success && t.kinds[t.parents[i].unwrap() as int]
            == Kind::Inverter ==> settle(t, i).states[t.parents[i].unwrap() as int].run
            == RunState::Failure,
        0 < i && t.states[i].run == RunState::Failure && t.kinds[t.parents[i].unwrap() as int]
            == Kind::Inverter ==> settle(t, i).states[t.parents[i].unwrap() as int].run
            == RunState::Success,
{
}

/// Repeater: entering resets the count and enters the child; each outcome
/// of the child, success or failure, counts one repetition. Below the bound,
/// or with bound `0`, the repeater takes the cursor back and re-enters the
/// child on the next tick; at the bound it succeeds.
pub proof fn lemma_repeater(t: TreeView, i: int, now: u64)
    requires
        t.wf(),
        0 <= i < t.len(),
    ensures
        ({
            let st = t.states[i];
            match t.kinds[i] {
                Kind::Repeater { repeat } => st.cursor && t.children[i].len() > 0 && st.run.is_live()
                    ==> {
                    let u = node_step(t, i, now);
                    &&& u[i].run == RunState::Running
                    &&& !u[i].cursor
                    &&& u[i].memo == (if st.run == RunState::Entered {
                        0
                    } else {
                        st.memo
                    })
                    &&& u[t.children[i][0] as int].run == RunState::Entered
                    &&& u[t.children[i][0] as int].cursor
                },
                _ => true,
            }
        }),
        ({
            let p = t.parents[i].unwrap() as int;
            let u = settle(t, i);
            0 < i && t.states[i].run.is_terminal() ==> match t.kinds[p] {
                Kind::Repeater { repeat } => {
                    &&& u.states[i].run == RunState::Absent
                    &&& (repeat == 0 || t.states[p].memo + 1 < repeat) ==> {
                        &&& u.states[p].run == RunState::Running
                        &&& u.states[p].cursor
                        &&& u.states[p].memo == (if repeat == 0 {
                            t.states[p].memo as int
                        } else {
                            t.states[p].memo + 1
                        })
                    }
                    &&& (repeat > 0 && t.states[p].memo + 1 >= repeat) ==> u.states[p].run
                        == RunState::Success && t.states[p].memo + 1 == repeat
                },
                _ => true,
            }
        }),
{
    if 0 < i && t.states[i].run.is_terminal() {
        let p = t.parents[i].unwrap() as int;
        assert(t.children[p][t.slots[i] as int] == i);
        assert(t.states[p].run == RunState::Running);
    }
    if t.children[i].len() > 0 {
        assert(t.parents[t.children[i][0] as int] == Some(i as usize));
    }
}

/// Delay: never fails; succeeds exactly on the first tick at which the time
/// since entering reaches its duration, and runs until then, also while the
/// clock stands behind the start.
pub proof fn lemma_delay(delay: Delay, state: NodeState, now: u64)
    ensures
        ({
            let start = if state.run == RunState::Entered {
                now
            } else {
                state.memo
            };
            let r = delay_step(delay, state, now);
            &&& r.run != RunState::Failure
            &&& r.run == RunState::Success <==> (now >= start && now - start >= delay.duration)
            &&& r.run == RunState::Running <==> !(now >= start && now - start >= delay.duration)
            &&& r.memo == start
            &&& r.cursor == state.cursor
        }),
{
}

} // verus!
