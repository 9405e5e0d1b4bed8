//! The executable tree: construction, the passes and their traces.
use vstd::prelude::*;

use crate::delay::run as run_delay;
use crate::wellformed::{
    lemma_cancel_wf, lemma_first_terminal, lemma_handler_spares_child, lemma_keeps_prefix_step,
    lemma_children_size_mono, lemma_matches_def_grow, lemma_settle_wf, lemma_start_wf, lemma_tick_wf,
};
use crate::model::{
    below, cancel_spec, child_result_spec, complete_events, complete_spec, descend,
    children_size, def_size, enter_composite, first_terminal, keeps_prefix, kind_pass,
    matches_def, kinds_from, push_cursor, run_ticks,
    set_state, settle, should_tick, start_spec, tick_at, tick_tree, TreeView,
};
use crate::node::{Kind, NodeState, Outcome, RunState, TraceEvent};

verus! {

/// A tree node description: a kind, a label and ordered children.
pub struct NodeDef {
    pub kind: Kind,
    pub label: String,
    pub children: Vec<NodeDef>,
}

/// A behavior tree: an arena of nodes with their topology and run states,
/// and the record of the root's last outcome.
pub struct BehaviorTree {
    kinds: Vec<Kind>,
    labels: Vec<String>,
    parents: Vec<Option<usize>>,
    slots: Vec<usize>,
    children: Vec<Vec<usize>>,
    states: Vec<NodeState>,
    result: Option<Outcome>,
}

impl View for BehaviorTree {
    type V = TreeView;

    closed spec fn view(&self) -> TreeView {
        TreeView {
            kinds: self.kinds@,
            labels: Seq::new(self.labels@.len(), |i: int| self.labels@[i]@),
            parents: self.parents@,
            slots: self.slots@,
            children: Seq::new(self.children@.len(), |i: int| self.children@[i]@),
            states: self.states@,
            result: self.result,
        }
    }
}

impl BehaviorTree {
    /// A tree holding only its root.
    pub fn new(kind: Kind, label: String) -> (r: BehaviorTree)
        ensures
            r@.wf(),
            r@.len() == 1,
            r@.kinds[0] == kind,
            r@.labels[0] == label@,
            r@.children[0].len() == 0,
            r@.states[0] == NodeState::absent(),
            r@.result.is_none(),
    {
        let r = BehaviorTree {
            kinds: vec![kind],
            labels: vec![label],
            parents: vec![None],
            slots: vec![0],
            children: vec![Vec::new()],
            states: vec![NodeState::new()],
            result: None,
        };
        assert(r@.children[0] =~= Seq::<usize>::empty());
        r
    }

    /// Appends a node as the last child of `parent` and returns its index.
    pub fn add_child(&mut self, parent: usize, kind: Kind, label: String) -> (r: usize)
        requires
            old(self)@.wf(),
            parent < old(self)@.len(),
            old(self)@.len() < usize::MAX,
        ensures
            final(self)@.wf(),
            r == old(self)@.len(),
            final(self)@.kinds == old(self)@.kinds.push(kind),
            final(self)@.labels == old(self)@.labels.push(label@),
            final(self)@.parents == old(self)@.parents.push(Some(parent)),
            final(self)@.slots == old(self)@.slots.push(old(self)@.children[parent as int].len() as usize),
            final(self)@.children == old(self)@.children.update(
                parent as int,
                old(self)@.children[parent as int].push(r),
            ).push(Seq::empty()),
            final(self)@.states == old(self)@.states.push(NodeState::absent()),
            final(self)@.result == old(self)@.result,
    {
        let ghost t = self@;
        let n = self.kinds.len();
        let mut kids = self.children[parent].clone();
        assert(kids@ == t.children[parent as int]);
        let slot = kids.len();
        kids.push(n);
        self.children.set(parent, kids);
        self.children.push(Vec::new());
        self.kinds.push(kind);
        self.labels.push(label);
        self.parents.push(Some(parent));
        self.slots.push(slot);
        self.states.push(NodeState::new());
        let ghost u = self@;
        assert(u.labels =~= t.labels.push(label@));
        assert(u.children =~= t.children.update(parent as int, t.children[parent as int].push(n)).push(Seq::empty()));
        assert forall|i: int| 0 < i < u.len() implies {
            &&& (#[trigger] u.parents[i]).is_some()
            &&& u.parents[i].unwrap() < i
            &&& u.slots[i] < u.children[u.parents[i].unwrap() as int].len()
            &&& u.children[u.parents[i].unwrap() as int][u.slots[i] as int] == i
        } by {
            if i < n {
                let q = t.parents[i].unwrap() as int;
                assert(t.children[q][t.slots[i] as int] == i);
                assert(u.children[q][t.slots[i] as int] == i);
            }
        }
        assert forall|p: int, k: int| 0 <= p < u.len() && 0 <= k < u.children[p].len() implies {
            &&& 0 < #[trigger] u.children[p][k] < u.len()
            &&& u.parents[u.children[p][k] as int] == Some(p as usize)
            &&& u.slots[u.children[p][k] as int] == k
        } by {
            if p < n && k < t.children[p].len() {
                assert(u.children[p][k] == t.children[p][k]);
            }
        }
        assert forall|p: int, a: int|
            0 <= p < u.len() && 0 <= a < u.children[p].len() && u.active(
                #[trigger] u.children[p][a] as int,
            ) implies u.states[p].run == RunState::Running && !u.cursor(p) by {
            if p < n && a < t.children[p].len() {
                assert(u.children[p][a] == t.children[p][a]);
            }
        }
        assert forall|p: int, a: int, b: int|
            0 <= p < u.len() && 0 <= a < u.children[p].len() && 0 <= b < u.children[p].len()
                && a != b && u.active(#[trigger] u.children[p][a] as int) implies !u.active(
                #[trigger] u.children[p][b] as int,
            ) by {
            if p < n && a < t.children[p].len() && b < t.children[p].len() {
                assert(u.children[p][a] == t.children[p][a]);
                assert(u.children[p][b] == t.children[p][b]);
            }
        }
        n
    }

    /// Spawns a tree from a description: the root is node `0`, and every
    /// node is laid out as its description says, down to the leaves,
    /// numbered in pre-order. `None` exactly when the description has more
    /// nodes than a `usize` can count.
    pub fn spawn(def: &NodeDef) -> (r: Option<BehaviorTree>)
        ensures
            r.is_some() <==> def_size(*def) <= usize::MAX,
            match r {
                Some(t) => {
                    &&& t@.wf()
                    &&& t@.len() == def_size(*def)
                    &&& matches_def(t@, 0, *def)
                    &&& forall|i: int| 0 <= i < t@.len() ==> (#[trigger] t@.states[i]) == NodeState::absent()
                    &&& t@.result.is_none()
                },
                None => def_size(*def) > usize::MAX,
            },
    {
        let mut t = BehaviorTree::new(def.kind, def.label.clone());
        let ghost t0 = t@;
        if t.fill_children(0, def) {
            assert(t@.kinds[0] == t0.kinds[0]);
            assert(t@.labels[0] == t0.labels[0]);
            Some(t)
        } else {
            None
        }
    }

    /// Spawns the children described by `def` under node `i`, the last node
    /// so far. `false` exactly when they do not all fit.
    fn fill_children(&mut self, i: usize, def: &NodeDef) -> (ok: bool)
        requires
            old(self)@.wf(),
            old(self)@.len() == i + 1,
            old(self)@.children[i as int].len() == 0,
            forall|x: int| 0 <= x < old(self)@.len() ==> (#[trigger] old(self)@.states[x]) == NodeState::absent(),
        ensures
            final(self)@.wf(),
            final(self)@.result == old(self)@.result,
            forall|x: int| 0 <= x < final(self)@.len() ==> (#[trigger] final(self)@.states[x]) == NodeState::absent(),
            keeps_prefix(old(self)@, final(self)@, i as int),
            ok ==> {
                &&& final(self)@.len() == old(self)@.len() + children_size(*def, def.children@.len() as int)
                &&& final(self)@.children[i as int].len() == def.children@.len()
                &&& forall|j: int|
                    0 <= j < def.children@.len() ==> {
                        &&& #[trigger] final(self)@.children[i as int][j] == i + 1 + children_size(*def, j)
                        &&& matches_def(final(self)@, final(self)@.children[i as int][j] as int, def.children@[j])
                    }
            },
            !ok ==> old(self)@.len() + children_size(*def, def.children@.len() as int) > usize::MAX,
        decreases def,
    {
        let ghost t0 = self@;
        let m = def.children.len();
        let mut j: usize = 0;
        let mut ok = true;
        while ok && j < m
            invariant
                0 <= j <= m,
                m == def.children@.len(),
                t0 == old(self)@,
                t0.len() == i + 1,
                self@.wf(),
                self@.result == t0.result,
                forall|x: int| 0 <= x < self@.len() ==> (#[trigger] self@.states[x]) == NodeState::absent(),
                keeps_prefix(t0, self@, i as int),
                ok ==> self@.len() == t0.len() + children_size(*def, j as int),
                ok ==> self@.children[i as int].len() == j,
                ok ==> forall|k: int|
                    0 <= k < j ==> {
                        &&& #[trigger] self@.children[i as int][k] == i + 1 + children_size(*def, k)
                        &&& matches_def(self@, self@.children[i as int][k] as int, def.children@[k])
                    },
                !ok ==> t0.len() + children_size(*def, m as int) > usize::MAX,
            decreases m - j, (if ok { 1int } else { 0int }),
        {
            proof {
                lemma_children_size_mono(*def, j as int + 1, m as int);
            }
            assert(children_size(*def, j as int + 1) == children_size(*def, j as int) + def_size(def.children@[j as int]));
            if self.kinds.len() == usize::MAX {
                ok = false;
            } else {
                let d = &def.children[j];
                let ghost t1 = self@;
                let c = self.add_child(i, d.kind, d.label.clone());
                let ghost t2 = self@;
                assert(t2.children[c as int].len() == 0);
                ok = self.fill_children(c, d);
                let ghost t3 = self@;
                proof {
                    lemma_keeps_prefix_step(t0, t1, t2, t3, i as int, c as int);
                    lemma_keeps_prefix_step(t1, t1, t2, t3, i as int, c as int);
                }
                assert(t2.children[i as int] == t1.children[i as int].push(c));
                if ok {
                    assert(t3.kinds[c as int] == t2.kinds[c as int]);
                    assert(t3.labels[c as int] == t2.labels[c as int]);
                    assert(matches_def(t3, c as int, *d));
                    assert forall|k: int| 0 <= k < j + 1 implies {
                        &&& #[trigger] t3.children[i as int][k] == i + 1 + children_size(*def, k)
                        &&& matches_def(t3, t3.children[i as int][k] as int, def.children@[k])
                    } by {
                        if k < j {
                            let x = t1.children[i as int][k] as int;
                            assert(t3.children[i as int][k] == t1.children[i as int][k]);
                            assert(t1.parents[x] == Some(i));
                            lemma_matches_def_grow(t1, t3, x, def.children@[k], i as int);
                        } else {
                            assert(t3.children[i as int][k] == c);
                        }
                    }
                }
                j = j + 1;
            }
        }
        ok
    }

    /// Runs `count` ticks at times `first`, `first + 1`, ... and returns
    /// the trace they write.
    pub fn run_traced(&mut self, first: u64, count: u64) -> (r: Vec<TraceEvent>)
        requires
            old(self)@.wf(),
            first + count <= u64::MAX,
        ensures
            final(self)@.wf(),
            (final(self)@, r@) == run_ticks(old(self)@, first as nat, count as nat),
    {
        let ghost t = self@;
        let mut trace: Vec<TraceEvent> = Vec::new();
        let mut k: u64 = 0;
        while k < count
            invariant
                0 <= k <= count,
                first + count <= u64::MAX,
                self@.wf(),
                (self@, trace@) == run_ticks(t, first as nat, k as nat),
            decreases count - k,
        {
            self.tick_traced(first + k, &mut trace);
            k = k + 1;
        }
        trace
    }

    /// The number of nodes.
    pub fn len(&self) -> (r: usize)
        ensures
            r == self@.len(),
    {
        self.kinds.len()
    }

    /// The state of node `i`.
    pub fn state(&self, i: usize) -> (r: NodeState)
        requires
            self@.wf(),
            i < self@.len(),
        ensures
            r == self@.states[i as int],
    {
        self.states[i]
    }

    /// The run state of node `i`.
    pub fn run_state(&self, i: usize) -> (r: RunState)
        requires
            self@.wf(),
            i < self@.len(),
        ensures
            r == self@.states[i as int].run,
    {
        self.states[i].run
    }

    /// Whether node `i` holds the cursor.
    pub fn has_cursor(&self, i: usize) -> (r: bool)
        requires
            self@.wf(),
            i < self@.len(),
        ensures
            r == self@.states[i as int].cursor,
    {
        self.states[i].cursor
    }

    /// The kind of node `i`.
    pub fn kind(&self, i: usize) -> (r: Kind)
        requires
            self@.wf(),
            i < self@.len(),
        ensures
            r == self@.kinds[i as int],
    {
        self.kinds[i]
    }

    /// The label of node `i`.
    pub fn label(&self, i: usize) -> (r: &String)
        requires
            self@.wf(),
            i < self@.len(),
        ensures
            r@ == self@.labels[i as int],
    {
        &self.labels[i]
    }

    /// The parent of node `i`; `None` for the root.
    pub fn parent(&self, i: usize) -> (r: Option<usize>)
        requires
            self@.wf(),
            i < self@.len(),
        ensures
            r == self@.parents[i as int],
    {
        self.parents[i]
    }

    /// The children of node `i`, in order.
    pub fn children(&self, i: usize) -> (r: &Vec<usize>)
        requires
            self@.wf(),
            i < self@.len(),
        ensures
            r@ == self@.children[i as int],
    {
        &self.children[i]
    }

    /// The outcome of the root's last finished activation.
    pub fn result(&self) -> (r: Option<Outcome>)
        ensures
            r == self@.result,
    {
        self.result
    }

    /// The node that holds the cursor, if any; there is at most one.
    pub fn cursor_node(&self) -> (r: Option<usize>)
        requires
            self@.wf(),
        ensures
            match r {
                Some(i) => i < self@.len() && self@.cursor(i as int),
                None => forall|i: int| 0 <= i < self@.len() ==> !self@.cursor(i),
            },
    {
        let n = self.states.len();
        let mut i: usize = 0;
        while i < n
            invariant
                n == self@.len(),
                self@.wf(),
                0 <= i <= n,
                forall|j: int| 0 <= j < i ==> !self@.cursor(j),
            decreases n - i,
        {
            if self.states[i].cursor {
                return Some(i);
            }
            i = i + 1;
        }
        None
    }

    /// Sets node `i`'s state.
    fn put(&mut self, i: usize, run: RunState, cursor: bool, memo: u64)
        requires
            i < old(self)@.len(),
            old(self)@.states.len() == old(self)@.len(),
        ensures
            final(self)@ == old(self)@.with_states(set_state(old(self)@.states, i as int, run, cursor, memo)),
    {
        let ghost t = self@;
        self.states.set(i, NodeState { run, cursor, memo });
        assert(self@ =~= t.with_states(set_state(t.states, i as int, run, cursor, memo)));
    }

    /// Node `i` starts waiting and hands the cursor to its first child.
    fn descend_first(&mut self, i: usize, memo: u64)
        requires
            old(self)@.topology_wf(),
            i < old(self)@.len(),
            old(self)@.children[i as int].len() > 0,
        ensures
            final(self)@ == old(self)@.with_states(
                descend(old(self)@.states, i as int, old(self)@.children[i as int][0] as int, memo),
            ),
    {
        let ghost t = self@;
        let c = self.children[i][0];
        assert(c == t.children[i as int][0]);
        self.states.set(i, NodeState { run: RunState::Running, cursor: false, memo });
        let m = self.states[c].memo;
        self.states.set(c, NodeState { run: RunState::Entered, cursor: true, memo: m });
        assert(self@ =~= t.with_states(descend(t.states, i as int, c as int, memo)));
    }

    /// Entering a composite: see `enter_composite`.
    fn enter(&mut self, i: usize, empty: RunState)
        requires
            old(self)@.topology_wf(),
            i < old(self)@.len(),
        ensures
            final(self)@ == old(self)@.with_states(enter_composite(old(self)@, i as int, empty)),
    {
        let st = self.states[i];
        if st.run == RunState::Entered {
            if self.children[i].len() == 0 {
                self.put(i, empty, true, st.memo);
            } else {
                self.descend_first(i, st.memo);
            }
        } else {
            assert(self@ =~= self@.with_states(self@.states));
        }
    }

    /// Runs the kind logic of node `i` if it holds the cursor and has not
    /// finished.
    fn tick_node(&mut self, i: usize, now: u64)
        requires
            old(self)@.wf(),
            i < old(self)@.len(),
        ensures
            final(self)@ == tick_at(old(self)@, i as int, now),
            final(self)@.wf(),
    {
        let ghost t = self@;
        proof {
            if should_tick(t.states, i as int) {
                lemma_tick_wf(t, i as int, now);
            }
        }
        let st = self.states[i];
        if !st.cursor || !(st.run == RunState::Entered || st.run == RunState::Running) {
            return;
        }
        let entered = st.run == RunState::Entered;
        match self.kinds[i] {
            Kind::Sequence => self.enter(i, RunState::Success),
            Kind::Selector => self.enter(i, RunState::Failure),
            Kind::Inverter => self.enter(i, RunState::Failure),
            Kind::Repeater { repeat: _ } => {
                if self.children[i].len() == 0 {
                    if entered {
                        self.put(i, RunState::Failure, true, 0);
                    } else {
                        assert(self@ =~= t.with_states(t.states));
                    }
                } else if entered {
                    self.descend_first(i, 0);
                } else {
                    self.descend_first(i, st.memo);
                }
            },
            Kind::Delay(d) => {
                let next = run_delay(&d, st, now);
                self.put(i, next.run, next.cursor, next.memo);
                assert(set_state(t.states, i as int, next.run, next.cursor, next.memo) =~= t.states.update(i as int, next));
            },
            Kind::Debug => {
                if entered {
                    self.put(i, RunState::Running, st.cursor, st.memo);
                } else {
                    self.put(i, RunState::Success, true, st.memo);
                }
            },
            Kind::Finish(o) => {
                let run = o.to_run_state();
                self.put(i, run, true, st.memo);
            },
        }
    }

    /// The kind-logic pass: visits the nodes in index order and runs the
    /// kind logic of each that holds the cursor and has not finished. A
    /// child always follows its parent, so a child that receives the cursor
    /// runs in the same pass.
    pub fn run_kinds(&mut self, now: u64)
        requires
            old(self)@.wf(),
        ensures
            final(self)@ == kind_pass(old(self)@, now),
            final(self)@.wf(),
    {
        let ghost t = self@;
        let n = self.kinds.len();
        let mut i: usize = 0;
        while i < n
            invariant
                0 <= i <= n,
                n == self@.len(),
                self@.wf(),
                kinds_from(self@, i as int, now) == kind_pass(t, now),
            decreases n - i,
        {
            self.tick_node(i, now);
            i = i + 1;
        }
    }

    /// Gives node `c` the cursor and a fresh activation.
    fn push_to(&mut self, c: usize)
        requires
            c < old(self)@.len(),
            old(self)@.states.len() == old(self)@.len(),
        ensures
            final(self)@ == old(self)@.with_states(push_cursor(old(self)@.states, c as int)),
    {
        let m = self.states[c].memo;
        self.put(c, RunState::Entered, true, m);
    }

    /// Parent `p` reacts to its child at position `k` finishing with `r`.
    fn child_result(&mut self, p: usize, k: usize, r: Outcome)
        requires
            old(self)@.topology_wf(),
            p < old(self)@.len(),
            k < old(self)@.children[p as int].len(),
        ensures
            final(self)@ == old(self)@.with_states(child_result_spec(old(self)@, p as int, k as int, r)),
    {
        let ghost t = self@;
        let ps = self.states[p];
        let nk = self.children[p].len();
        match self.kinds[p] {
            Kind::Sequence => {
                if r == Outcome::Success && k + 1 < nk {
                    let c = self.children[p][k + 1];
                    assert(0 < c < t.len());
                    self.push_to(c);
                } else {
                    self.put(p, r.to_run_state(), true, ps.memo);
                }
            },
            Kind::Selector => {
                if r == Outcome::Failure && k + 1 < nk {
                    let c = self.children[p][k + 1];
                    assert(0 < c < t.len());
                    self.push_to(c);
                } else {
                    self.put(p, r.to_run_state(), true, ps.memo);
                }
            },
            Kind::Inverter => {
                let run = r.invert().to_run_state();
                self.put(p, run, true, ps.memo);
            },
            Kind::Repeater { repeat } => {
                if repeat == 0 {
                    self.put(p, RunState::Running, true, ps.memo);
                } else if ps.memo < repeat - 1 {
                    self.put(p, RunState::Running, true, ps.memo + 1);
                } else {
                    self.put(p, RunState::Success, true, repeat);
                }
            },
            _ => {
                assert(self@ =~= t.with_states(t.states));
            },
        }
    }

    /// The first finished node.
    fn find_terminal(&self) -> (r: Option<usize>)
        requires
            self@.states.len() == self@.len(),
        ensures
            match r {
                Some(i) => first_terminal(self@.states, 0) == Some(i as int),
                None => first_terminal(self@.states, 0) == None::<int>,
            },
    {
        let n = self.states.len();
        let mut i: usize = 0;
        while i < n
            invariant
                0 <= i <= n,
                n == self@.states.len(),
                first_terminal(self@.states, i as int) == first_terminal(self@.states, 0),
            decreases n - i,
        {
            if self.states[i].run.terminal() {
                return Some(i);
            }
            i = i + 1;
        }
        None
    }

    /// Settles the finished node, if any, and returns the event for a trace.
    fn settle_first(&mut self) -> (r: Option<TraceEvent>)
        requires
            old(self)@.wf(),
        ensures
            final(self)@ == complete_spec(old(self)@),
            final(self)@.wf(),
            match r {
                Some(e) => complete_events(old(self)@) == seq![e],
                None => complete_events(old(self)@) == Seq::<TraceEvent>::empty(),
            },
    {
        let ghost t = self@;
        match self.find_terminal() {
            None => None,
            Some(i) => {
                proof {
                    lemma_first_terminal(t.states, 0);
                    lemma_settle_wf(t, i as int);
                }
                let st = self.states[i];
                let r = if st.run == RunState::Success {
                    Outcome::Success
                } else {
                    Outcome::Failure
                };
                match self.parents[i] {
                    Some(p) => {
                        let k = self.slots[i];
                        proof {
                            lemma_handler_spares_child(t, i as int);
                        }
                        self.child_result(p, k, r);
                    },
                    None => {
                        self.result = Some(r);
                    },
                }
                self.put(i, RunState::Absent, false, st.memo);
                assert(self@ =~= settle(t, i as int));
                Some(TraceEvent { node: i, outcome: r })
            },
        }
    }

    /// The complete pass: the finished node, if any, reports its outcome to
    /// its parent's handler, or for the root to the tree record, and is
    /// cleared.
    pub fn complete(&mut self)
        requires
            old(self)@.wf(),
        ensures
            final(self)@ == complete_spec(old(self)@),
            final(self)@.wf(),
    {
        let _ = self.settle_first();
    }

    /// The complete pass, appending what it settles to `trace`.
    pub fn complete_traced(&mut self, trace: &mut Vec<TraceEvent>)
        requires
            old(self)@.wf(),
        ensures
            final(self)@ == complete_spec(old(self)@),
            final(self)@.wf(),
            final(trace)@ == old(trace)@ + complete_events(old(self)@),
    {
        let ghost t = self@;
        match self.settle_first() {
            Some(e) => {
                trace.push(e);
            },
            None => {},
        }
        assert(trace@ =~= old(trace)@ + complete_events(t));
    }

    /// One tick at time `now`: the start pass, the kind-logic pass and the
    /// complete pass.
    pub fn tick(&mut self, now: u64)
        requires
            old(self)@.wf(),
        ensures
            final(self)@ == tick_tree(old(self)@, now),
            final(self)@.wf(),
    {
        self.start();
        self.run_kinds(now);
        self.complete();
    }

    /// One tick at time `now`, appending what its complete pass settles to
    /// `trace`.
    pub fn tick_traced(&mut self, now: u64, trace: &mut Vec<TraceEvent>)
        requires
            old(self)@.wf(),
        ensures
            final(self)@ == tick_tree(old(self)@, now),
            final(self)@.wf(),
            final(trace)@ == old(trace)@ + complete_events(kind_pass(start_spec(old(self)@), now)),
    {
        self.start();
        self.run_kinds(now);
        self.complete_traced(trace);
    }

    /// Cancels node `i`: it and every node below it are forced back to
    /// absent and lose the cursor. The protocol never does this itself; it
    /// is for the host, between ticks.
    pub fn cancel(&mut self, i: usize)
        requires
            old(self)@.wf(),
            i < old(self)@.len(),
        ensures
            final(self)@ == cancel_spec(old(self)@, i as int),
            final(self)@.wf(),
    {
        let ghost t = self@;
        proof {
            lemma_cancel_wf(t, i as int);
        }
        let n = self.states.len();
        let mut marks: Vec<bool> = Vec::new();
        let mut j: usize = 0;
        assert(t.states =~= Seq::new(
            n as nat,
            |k: int|
                if k < 0 && below(t, k, i as int) {
                    NodeState { run: RunState::Absent, cursor: false, memo: t.states[k].memo }
                } else {
                    t.states[k]
                },
        ));
        while j < n
            invariant
                0 <= j <= n,
                n == t.len(),
                t.wf(),
                marks@.len() == j,
                forall|k: int| 0 <= k < j ==> #[trigger] marks@[k] == below(t, k, i as int),
                self@ == t.with_states(
                    Seq::new(
                        n as nat,
                        |k: int|
                            if k < j && below(t, k, i as int) {
                                NodeState { run: RunState::Absent, cursor: false, memo: t.states[k].memo }
                            } else {
                                t.states[k]
                            },
                    ),
                ),
            decreases n - j,
        {
            let mark = if j == i {
                true
            } else {
                match self.parents[j] {
                    Some(p) => {
                        assert(p < j);
                        marks[p]
                    },
                    None => false,
                }
            };
            assert(mark == below(t, j as int, i as int));
            marks.push(mark);
            let ghost before = self@.states;
            if mark {
                let m = self.states[j].memo;
                self.states.set(j, NodeState { run: RunState::Absent, cursor: false, memo: m });
            }
            assert(self@.states =~= Seq::new(
                n as nat,
                |k: int|
                    if k < j + 1 && below(t, k, i as int) {
                        NodeState { run: RunState::Absent, cursor: false, memo: t.states[k].memo }
                    } else {
                        t.states[k]
                    },
            ));
            j = j + 1;
        }
        assert(self@.states =~= cancel_spec(t, i as int).states);
    }

    /// The start pass: when the root is neither active nor holds the cursor,
    /// it receives the cursor.
    pub fn start(&mut self)
        requires
            old(self)@.wf(),
        ensures
            final(self)@ == start_spec(old(self)@),
            final(self)@.wf(),
    {
        let ghost t = self@;
        let st = self.states[0];
        if st.run == RunState::Absent && !st.cursor {
            proof {
                lemma_start_wf(t);
            }
            self.states.set(0, NodeState { run: RunState::Entered, cursor: true, memo: st.memo });
            assert(self@ =~= start_spec(t));
        }
    }
}

/// The number of ticks `trace_behavior` runs.
pub const MAX_ITERS: u64 = 200;

/// Spawns a tree from `def`, runs `MAX_ITERS` ticks at times `0, 1, ...`
/// and returns the trace; `None` exactly when the tree cannot be spawned.
pub fn trace_behavior(def: &NodeDef) -> (r: Option<Vec<TraceEvent>>)
    ensures
        r.is_some() <==> def_size(*def) <= usize::MAX,
        r matches Some(v) ==> exists|t: TreeView|
            {
                &&& t.wf()
                &&& t.len() == def_size(*def)
                &&& matches_def(t, 0, *def)
                &&& forall|i: int| 0 <= i < t.len() ==> (#[trigger] t.states[i]) == NodeState::absent()
                &&& t.result.is_none()
                &&& v@ == run_ticks(t, 0, MAX_ITERS as nat).1
            },
{
    match BehaviorTree::spawn(def) {
        Some(mut tree) => {
            let ghost t = tree@;
            let v = tree.run_traced(0, MAX_ITERS);
            assert(v@ == run_ticks(t, 0, MAX_ITERS as nat).1);
            Some(v)
        },
        None => None,
    }
}

} // verus!
