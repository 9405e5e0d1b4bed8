//! Proofs that construction and every pass keep the tree well formed.
use vstd::prelude::*;

use crate::delay::delay_step;
use crate::model::{
    below, cancel_spec, child_result_spec, children_size, clear, descend, first_terminal,
    keeps_prefix, kinds_from, matches_def, node_step, push_cursor, repeat_ok, set_state, settle,
    should_tick, start_spec, tick_at, TreeView,
};
use crate::node::{Kind, NodeState, Outcome, RunState};
use crate::tree::NodeDef;

verus! {

/// Counting more children counts no fewer nodes.
pub proof fn lemma_children_size_mono(d: NodeDef, a: int, b: int)
    requires
        0 <= a <= b,
    ensures
        b <= d.children@.len() ==> children_size(d, a) <= children_size(d, b),
    decreases b,
{
    if a < b && b <= d.children@.len() {
        lemma_children_size_mono(d, a, b - 1);
    }
}

/// Growing a tree away from node `i` keeps the layout of a subtree that
/// lies after `i`.
pub proof fn lemma_matches_def_grow(t: TreeView, u: TreeView, x: int, d: NodeDef, i: int)
    requires
        t.wf(),
        matches_def(t, x, d),
        i < x,
        keeps_prefix(t, u, i),
    ensures
        matches_def(u, x, d),
    decreases d,
{
    assert(u.children[x] == t.children[x]);
    assert(u.kinds[x] == t.kinds[x]);
    assert(u.labels[x] == t.labels[x]);
    assert forall|j: int| 0 <= j < d.children@.len() implies matches_def(
        u,
        #[trigger] u.children[x][j] as int,
        d.children@[j],
    ) by {
        let y = t.children[x][j] as int;
        assert(t.parents[y] == Some(x as usize));
        assert(matches_def(t, y, d.children@[j]));
        lemma_matches_def_grow(t, u, y, d.children@[j], i);
    }
}

/// Adding child `c` under `i` and then growing below `c` keeps the prefix.
pub proof fn lemma_keeps_prefix_step(
    t0: TreeView,
    t1: TreeView,
    t2: TreeView,
    t3: TreeView,
    i: int,
    c: int,
)
    requires
        keeps_prefix(t0, t1, i),
        0 <= i < t0.len(),
        c == t1.len(),
        t1.wf(),
        t2.kinds == t1.kinds.push(t2.kinds[c]),
        t2.labels == t1.labels.push(t2.labels[c]),
        t2.children == t1.children.update(i, t1.children[i].push(c as usize)).push(Seq::empty()),
        keeps_prefix(t2, t3, c),
    ensures
        keeps_prefix(t0, t3, i),
        t3.children[i] == t2.children[i],
        t3.kinds[i] == t0.kinds[i],
{
    assert forall|x: int| 0 <= x < t0.len() implies (#[trigger] t3.kinds[x]) == t0.kinds[x] by {
        assert(t3.kinds[x] == t2.kinds[x]);
        assert(t2.kinds[x] == t1.kinds[x]);
    }
    assert forall|x: int| 0 <= x < t0.len() implies (#[trigger] t3.labels[x]) == t0.labels[x] by {
        assert(t3.labels[x] == t2.labels[x]);
        assert(t2.labels[x] == t1.labels[x]);
    }
    assert forall|x: int| 0 <= x < t0.len() && x != i implies (#[trigger] t3.children[x])
        == t0.children[x] by {
        assert(t3.children[x] == t2.children[x]);
        assert(t2.children[x] == t1.children[x]);
    }
    assert(t3.children[i] == t2.children[i]);
}

/// Cancelling a node keeps the invariant.
pub proof fn lemma_cancel_wf(t: TreeView, i: int)
    requires
        t.wf(),
        0 <= i < t.len(),
    ensures
        cancel_spec(t, i).wf(),
{
    let u = cancel_spec(t, i);
    assert forall|p: int, a: int|
        0 <= p < u.len() && 0 <= a < u.children[p].len() && u.active(
            #[trigger] u.children[p][a] as int,
        ) implies u.states[p].run == RunState::Running && !u.cursor(p) by {
        let x = t.children[p][a] as int;
        assert(t.parents[x] == Some(p as usize));
        assert(!below(t, x, i));
        assert(t.active(x));
        assert(!below(t, p, i));
    }
    assert forall|i1: int, j1: int|
        0 <= i1 < u.len() && 0 <= j1 < u.len() && (#[trigger] u.states[i1]).cursor && (
        #[trigger] u.states[j1]).cursor implies i1 == j1 by {
        assert(t.states[i1].cursor && t.states[j1].cursor);
    }
    assert forall|p: int, a: int, b: int|
        0 <= p < u.len() && 0 <= a < u.children[p].len() && 0 <= b < u.children[p].len() && a
            != b && u.active(#[trigger] u.children[p][a] as int) implies !u.active(
        #[trigger] u.children[p][b] as int,
    ) by {
        assert(t.active(t.children[p][a] as int));
    }
    assert forall|x: int|
        0 <= x < u.len() && (#[trigger] u.states[x]).run.is_terminal() implies u.states[x].cursor by {
        assert(t.states[x].run.is_terminal());
    }
}

/// The start pass keeps the invariant.
pub proof fn lemma_start_wf(t: TreeView)
    requires
        t.wf(),
    ensures
        start_spec(t).wf(),
{
    if !t.active(0) && !t.cursor(0) {
        lemma_idle_root(t);
        let u = start_spec(t);
        assert forall|p: int, a: int|
            0 <= p < u.len() && 0 <= a < u.children[p].len() implies !u.active(
                #[trigger] u.children[p][a] as int,
            ) by {
            assert(0 < t.children[p][a]);
        }
        assert forall|i: int, j: int|
            0 <= i < u.len() && 0 <= j < u.len() && (#[trigger] u.states[i]).cursor && (
            #[trigger] u.states[j]).cursor implies i == j by {
            if i != 0 {
                assert(!t.cursor(i));
            }
            if j != 0 {
                assert(!t.cursor(j));
            }
        }
    }
}

/// The kind-logic pass from any node on keeps the invariant.
pub proof fn lemma_kinds_from_wf(t: TreeView, i: int, now: u64)
    requires
        t.wf(),
        0 <= i,
    ensures
        kinds_from(t, i, now).wf(),
    decreases t.len() - i,
{
    if i < t.len() {
        if should_tick(t.states, i) {
            lemma_tick_wf(t, i, now);
        }
        lemma_kinds_from_wf(tick_at(t, i, now), i + 1, now);
    }
}

/// Setting the state of the cursor node to another active state, keeping
/// the cursor, keeps the invariant.
pub proof fn lemma_set_cursor_wf(t: TreeView, i: int, run: RunState, memo: u64)
    requires
        t.wf(),
        0 <= i < t.len(),
        t.states[i].cursor,
        run.is_active(),
        run == RunState::Running ==> repeat_ok(t.kinds[i], memo),
    ensures
        t.with_states(set_state(t.states, i, run, true, memo)).wf(),
{
    let u = t.with_states(set_state(t.states, i, run, true, memo));
    assert forall|p: int, a: int|
        0 <= p < u.len() && 0 <= a < u.children[p].len() && u.active(
            #[trigger] u.children[p][a] as int,
        ) implies u.states[p].run == RunState::Running && !u.cursor(p) by {
        let c = t.children[p][a] as int;
        assert(t.parents[c] == Some(p as usize));
        if c != i {
            assert(t.active(c));
        }
    }
    assert forall|i1: int, j1: int|
        0 <= i1 < u.len() && 0 <= j1 < u.len() && (#[trigger] u.states[i1]).cursor && (
        #[trigger] u.states[j1]).cursor implies i1 == j1 by {
        assert(t.states[i1].cursor);
        assert(t.states[j1].cursor);
    }
    assert forall|p: int, a: int, b: int|
        0 <= p < u.len() && 0 <= a < u.children[p].len() && 0 <= b < u.children[p].len() && a
            != b && u.active(#[trigger] u.children[p][a] as int) implies !u.active(
        #[trigger] u.children[p][b] as int,
    ) by {
        assert(t.active(t.children[p][a] as int));
    }
}

/// Handing the cursor from a live cursor node to its first child keeps the
/// invariant.
pub proof fn lemma_descend_wf(t: TreeView, i: int, memo: u64)
    requires
        t.wf(),
        0 <= i < t.len(),
        t.states[i].cursor,
        t.children[i].len() > 0,
        repeat_ok(t.kinds[i], memo),
    ensures
        t.with_states(descend(t.states, i, t.children[i][0] as int, memo)).wf(),
{
    let c = t.children[i][0] as int;
    let u = t.with_states(descend(t.states, i, c, memo));
    assert(t.parents[c] == Some(i as usize));
    assert(!t.active(c));
    assert forall|p: int, a: int|
        0 <= p < u.len() && 0 <= a < u.children[p].len() && u.active(
            #[trigger] u.children[p][a] as int,
        ) implies u.states[p].run == RunState::Running && !u.cursor(p) by {
        let x = t.children[p][a] as int;
        assert(t.parents[x] == Some(p as usize));
        if x != c {
            assert(t.active(x));
            if p == c {
                assert(t.states[c].run == RunState::Running);
            }
        }
    }
    assert forall|i1: int, j1: int|
        0 <= i1 < u.len() && 0 <= j1 < u.len() && (#[trigger] u.states[i1]).cursor && (
        #[trigger] u.states[j1]).cursor implies i1 == j1 by {
        if i1 != c {
            assert(t.states[i1].cursor);
        }
        if j1 != c {
            assert(t.states[j1].cursor);
        }
    }
    assert forall|p: int, a: int, b: int|
        0 <= p < u.len() && 0 <= a < u.children[p].len() && 0 <= b < u.children[p].len() && a
            != b && u.active(#[trigger] u.children[p][a] as int) implies !u.active(
        #[trigger] u.children[p][b] as int,
    ) by {
        let x = t.children[p][a] as int;
        let y = t.children[p][b] as int;
        assert(t.parents[x] == Some(p as usize));
        assert(t.parents[y] == Some(p as usize));
        assert(t.slots[x] == a && t.slots[y] == b);
        if x == c {
            assert(p == i);
            assert(!t.active(y));
        } else if y == c {
            assert(p == i);
            assert(t.active(x));
        } else {
            assert(t.active(x));
        }
    }
    assert forall|k: int|
        0 <= k < u.len() && (#[trigger] u.states[k]).cursor implies u.states[k].run.is_active() by {
    }
}

/// The kind logic of a node that holds the cursor keeps the invariant.
pub proof fn lemma_tick_wf(t: TreeView, i: int, now: u64)
    requires
        t.wf(),
        0 <= i < t.len(),
        should_tick(t.states, i),
    ensures
        tick_at(t, i, now).wf(),
{
    let st = t.states[i];
    match t.kinds[i] {
        Kind::Sequence | Kind::Selector | Kind::Inverter => {
            if st.run == RunState::Entered {
                if t.children[i].len() == 0 {
                    lemma_set_cursor_wf(t, i, if t.kinds[i] == Kind::Sequence { RunState::Success } else { RunState::Failure }, st.memo);
                } else {
                    lemma_descend_wf(t, i, st.memo);
                }
            } else {
                assert(t.with_states(t.states) == t);
            }
        },
        Kind::Repeater { repeat } => {
            if t.children[i].len() == 0 {
                if st.run == RunState::Entered {
                    lemma_set_cursor_wf(t, i, RunState::Failure, 0);
                } else {
                    assert(t.with_states(t.states) == t);
                }
            } else if st.run == RunState::Entered {
                lemma_descend_wf(t, i, 0);
            } else {
                lemma_descend_wf(t, i, st.memo);
            }
        },
        Kind::Delay(d) => {
            let next = delay_step(d, st, now);
            lemma_set_cursor_wf(t, i, next.run, next.memo);
            assert(set_state(t.states, i, next.run, true, next.memo) =~= t.states.update(i, next));
        },
        Kind::Debug => {
            if st.run == RunState::Entered {
                lemma_set_cursor_wf(t, i, RunState::Running, st.memo);
            } else {
                lemma_set_cursor_wf(t, i, RunState::Success, st.memo);
            }
        },
        Kind::Finish(o) => {
            lemma_set_cursor_wf(t, i, o.run_state(), st.memo);
        },
    }
}

/// `first_terminal` finds a finished node, and only misses when there is none.
pub proof fn lemma_first_terminal(s: Seq<NodeState>, j: int)
    requires
        0 <= j,
    ensures
        match first_terminal(s, j) {
            Some(i) => j <= i < s.len() && s[i].run.is_terminal(),
            None => forall|k: int| j <= k < s.len() ==> !(#[trigger] s[k]).run.is_terminal(),
        },
    decreases s.len() - j,
{
    if j < s.len() {
        lemma_first_terminal(s, j + 1);
    }
}

/// A parent's handler leaves the finished child's own state alone.
pub proof fn lemma_handler_spares_child(t: TreeView, i: int)
    requires
        t.topology_wf(),
        0 < i < t.len(),
    ensures
        ({
            let p = t.parents[i].unwrap() as int;
            let k = t.slots[i] as int;
            let r = t.states[i].run.outcome_of().unwrap();
            child_result_spec(t, p, k, r)[i] == t.states[i]
                && child_result_spec(t, p, k, r).len() == t.states.len()
        }),
{
    let p = t.parents[i].unwrap() as int;
    let k = t.slots[i] as int;
    if k + 1 < t.children[p].len() {
        let c = t.children[p][k + 1] as int;
        assert(t.slots[c] == k + 1);
    }
}

/// Settling a finished node keeps the invariant.
pub proof fn lemma_settle_wf(t: TreeView, i: int)
    requires
        t.wf(),
        0 <= i < t.len(),
        t.states[i].run.is_terminal(),
    ensures
        settle(t, i).wf(),
{
    let u = settle(t, i);
    assert(t.states[i].cursor);
    assert forall|x: int| 0 <= x < t.len() && t.cursor(x) implies x == i by {
        assert(t.states[x].cursor);
    }
    assert forall|a: int| 0 <= a < t.children[i].len() implies !t.active(
        #[trigger] t.children[i][a] as int,
    ) by {}
    if i == 0 {
        assert forall|q: int, a: int|
            0 <= q < u.len() && 0 <= a < u.children[q].len() && u.active(
                #[trigger] u.children[q][a] as int,
            ) implies u.states[q].run == RunState::Running && !u.cursor(q) by {
            assert(t.active(t.children[q][a] as int));
        }
        assert forall|i1: int, j1: int|
            0 <= i1 < u.len() && 0 <= j1 < u.len() && (#[trigger] u.states[i1]).cursor && (
            #[trigger] u.states[j1]).cursor implies i1 == j1 by {
            assert(t.cursor(i1));
        }
        assert forall|q: int, a: int, b: int|
            0 <= q < u.len() && 0 <= a < u.children[q].len() && 0 <= b < u.children[q].len()
                && a != b && u.active(#[trigger] u.children[q][a] as int) implies !u.active(
            #[trigger] u.children[q][b] as int,
        ) by {
            assert(t.active(t.children[q][a] as int));
        }
    } else {
        let p = t.parents[i].unwrap() as int;
        let k = t.slots[i] as int;
        let r = t.states[i].run.outcome_of().unwrap();
        assert(t.children[p][k] == i);
        assert(t.states[p].run == RunState::Running && !t.cursor(p));
        lemma_handler_spares_child(t, i);
        assert forall|a: int| 0 <= a < t.children[p].len() && a != k implies !t.active(
            #[trigger] t.children[p][a] as int,
        ) by {}
        let pushed = match t.kinds[p] {
            Kind::Sequence => r == Outcome::Success && k + 1 < t.children[p].len(),
            Kind::Selector => r == Outcome::Failure && k + 1 < t.children[p].len(),
            _ => false,
        };
        let c = if pushed {
            t.children[p][k + 1] as int
        } else {
            p
        };
        if pushed {
            assert(t.slots[c] == k + 1);
            assert(t.parents[c] == Some(p as usize));
            assert(!t.active(c));
            assert(u.states =~= clear(push_cursor(t.states, c), i));
        }
        assert forall|x: int| 0 <= x < u.len() && x != c && x != i implies u.states[x] == t.states[x] by {}
        assert forall|q: int, a: int|
            0 <= q < u.len() && 0 <= a < u.children[q].len() && u.active(
                #[trigger] u.children[q][a] as int,
            ) implies u.states[q].run == RunState::Running && !u.cursor(q) by {
            let x = t.children[q][a] as int;
            assert(t.parents[x] == Some(q as usize));
            if x == c && pushed {
                assert(q == p);
            } else if x == p {
                assert(t.active(p));
                assert(q < p);
            } else {
                assert(x != i);
                assert(t.active(x));
                if q == p {
                    assert(t.slots[x] == a);
                }
                if q == c && pushed {
                    assert(t.states[c].run == RunState::Running);
                }
            }
        }
        assert forall|i1: int, j1: int|
            0 <= i1 < u.len() && 0 <= j1 < u.len() && (#[trigger] u.states[i1]).cursor && (
            #[trigger] u.states[j1]).cursor implies i1 == j1 by {
            if i1 != c {
                assert(t.cursor(i1));
            }
            if j1 != c {
                assert(t.cursor(j1));
            }
        }
        assert forall|q: int, a: int, b: int|
            0 <= q < u.len() && 0 <= a < u.children[q].len() && 0 <= b < u.children[q].len()
                && a != b && u.active(#[trigger] u.children[q][a] as int) implies !u.active(
            #[trigger] u.children[q][b] as int,
        ) by {
            let x = t.children[q][a] as int;
            let y = t.children[q][b] as int;
            assert(t.parents[x] == Some(q as usize));
            assert(t.parents[y] == Some(q as usize));
            assert(t.slots[x] == a && t.slots[y] == b);
            if q == p {
                assert(x != i);
                if pushed && y != c {
                    assert(!t.active(y) || y == i);
                }
            } else {
                assert(x != i && y != i);
                if x != c {
                    assert(t.active(x));
                }
            }
        }
        assert forall|x: int|
            0 <= x < u.len() && (#[trigger] u.states[x]).run.is_terminal() implies u.states[x].cursor by {
            if x != c {
                assert(t.states[x].run.is_terminal());
            }
        }
        assert forall|x: int|
            0 <= x < u.len() && (#[trigger] u.states[x]).cursor implies u.states[x].run.is_active() by {
        }
        assert forall|x: int|
            0 <= x < u.len() && (#[trigger] u.states[x]).run == RunState::Running implies repeat_ok(
                u.kinds[x],
                u.states[x].memo,
            ) by {
        }
    }
}

/// Every active node lies below an active root.
pub proof fn lemma_active_root(t: TreeView, i: int)
    requires
        t.wf(),
        0 <= i < t.len(),
        t.active(i),
    ensures
        t.active(0),
    decreases i,
{
    if i > 0 {
        let p = t.parents[i].unwrap() as int;
        let k = t.slots[i] as int;
        assert(t.children[p][k] == i);
        assert(t.states[p].run == RunState::Running);
        lemma_active_root(t, p);
    }
}

/// With an idle root, no node is active.
pub proof fn lemma_idle_root(t: TreeView)
    requires
        t.wf(),
        !t.active(0),
    ensures
        forall|i: int| 0 <= i < t.len() ==> !t.active(i) && !t.cursor(i),
{
    assert forall|i: int| 0 <= i < t.len() implies !t.active(i) && !t.cursor(i) by {
        if t.active(i) {
            lemma_active_root(t, i);
        }
    }
}

} // verus!
