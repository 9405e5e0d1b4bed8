use behavior_tree::{BehaviorTree, Delay, Kind, NodeDef, NodeState, Outcome, RunState, TraceEvent};

fn leaf(outcome: Outcome) -> Kind {
    Kind::Finish(outcome)
}

fn tree_of(root: Kind, kids: &[Kind]) -> BehaviorTree {
    let mut tree = BehaviorTree::new(root, "root".to_string());
    for (n, kind) in kids.iter().enumerate() {
        tree.add_child(0, *kind, format!("child{}", n));
    }
    tree
}

fn run_until_result(tree: &mut BehaviorTree, trace: &mut Vec<TraceEvent>, limit: u64) -> u64 {
    let mut now: u64 = 0;
    while tree.result().is_none() && now < limit {
        tree.tick_traced(now, trace);
        now += 1;
    }
    now
}

#[test]
fn root_success() {
    let mut tree = BehaviorTree::new(Kind::Sequence, "root".to_string());
    tree.tick(0);
    assert!(tree.result() == Some(Outcome::Success));
}

#[test]
fn debug_success() {
    let mut tree = BehaviorTree::new(Kind::Sequence, "root".to_string());
    let root_node = 0;
    let debug_message_0 = tree.add_child(root_node, Kind::Debug, "DebugMessage0".to_string());
    let debug_message_1 = tree.add_child(root_node, Kind::Debug, "DebugMessage1".to_string());
    assert_eq!(tree.label(debug_message_0), "DebugMessage0");
    assert_eq!(tree.label(debug_message_1), "DebugMessage1");
    tree.start();

    // Confirm root is only behavior with cursor
    assert_eq!(tree.cursor_node(), Some(root_node));

    let mut now: u64 = 0;
    let mut max_iters = 0;
    while !tree.run_state(debug_message_0).live() {
        max_iters += 1;
        assert!(max_iters < 5);
        tree.tick(now);
        now += 1;
    }
    assert_eq!(tree.cursor_node(), Some(debug_message_0));

    let mut max_iters = 0;
    while !tree.run_state(debug_message_1).live() {
        max_iters += 1;
        assert!(max_iters < 5);
        tree.tick(now);
        now += 1;
    }
    assert_eq!(tree.cursor_node(), Some(debug_message_1));

    let mut max_iters = 0;
    while tree.run_state(root_node) != RunState::Success {
        max_iters += 1;
        assert!(max_iters < 5);
        tree.tick(now);
        now += 1;
    }
    assert_eq!(tree.cursor_node(), Some(root_node));
}

#[test]
fn sequence_of_two_successes_finishes_in_two_ticks() {
    let mut tree = tree_of(Kind::Sequence, &[leaf(Outcome::Success), leaf(Outcome::Success)]);
    let mut trace = Vec::new();
    tree.tick_traced(0, &mut trace);
    assert_eq!(tree.run_state(0), RunState::Running);
    tree.tick_traced(1, &mut trace);
    assert_eq!(tree.run_state(0), RunState::Success);
    tree.tick_traced(2, &mut trace);
    assert_eq!(tree.result(), Some(Outcome::Success));
    assert_eq!(
        trace,
        vec![
            TraceEvent { node: 1, outcome: Outcome::Success },
            TraceEvent { node: 2, outcome: Outcome::Success },
            TraceEvent { node: 0, outcome: Outcome::Success },
        ]
    );
}

#[test]
fn selector_tries_second_child_after_failure() {
    let mut tree = tree_of(Kind::Selector, &[leaf(Outcome::Failure), leaf(Outcome::Success)]);
    let mut trace = Vec::new();
    tree.tick_traced(0, &mut trace);
    assert_eq!(tree.run_state(0), RunState::Running);
    assert_eq!(tree.run_state(2), RunState::Entered);
    tree.tick_traced(1, &mut trace);
    assert_eq!(tree.run_state(0), RunState::Success);
    tree.tick_traced(2, &mut trace);
    assert_eq!(tree.result(), Some(Outcome::Success));
    assert_eq!(
        trace,
        vec![
            TraceEvent { node: 1, outcome: Outcome::Failure },
            TraceEvent { node: 2, outcome: Outcome::Success },
            TraceEvent { node: 0, outcome: Outcome::Success },
        ]
    );
}

#[test]
fn sequence_failure_short_circuits() {
    let mut tree = tree_of(
        Kind::Sequence,
        &[leaf(Outcome::Success), leaf(Outcome::Failure), leaf(Outcome::Success)],
    );
    let mut trace = Vec::new();
    let mut now: u64 = 0;
    while tree.result().is_none() && now < 20 {
        tree.tick_traced(now, &mut trace);
        assert_eq!(tree.run_state(3), RunState::Absent);
        now += 1;
    }
    assert_eq!(tree.result(), Some(Outcome::Failure));
    assert!(trace.iter().all(|e| e.node != 3));
}

#[test]
fn sequence_succeeds_when_all_succeed() {
    let mut tree = tree_of(
        Kind::Sequence,
        &[leaf(Outcome::Success), leaf(Outcome::Success), leaf(Outcome::Success)],
    );
    let mut trace = Vec::new();
    run_until_result(&mut tree, &mut trace, 20);
    assert_eq!(tree.result(), Some(Outcome::Success));
    let order: Vec<usize> = trace.iter().map(|e| e.node).collect();
    assert_eq!(order, vec![1, 2, 3, 0]);
}

#[test]
fn empty_sequence_succeeds_and_empty_selector_fails() {
    let mut seq = tree_of(Kind::Sequence, &[]);
    seq.tick(0);
    assert_eq!(seq.result(), Some(Outcome::Success));
    let mut sel = tree_of(Kind::Selector, &[]);
    sel.tick(0);
    assert_eq!(sel.result(), Some(Outcome::Failure));
}

#[test]
fn selector_fails_when_all_fail() {
    let mut tree = tree_of(Kind::Selector, &[leaf(Outcome::Failure), leaf(Outcome::Failure)]);
    let mut trace = Vec::new();
    run_until_result(&mut tree, &mut trace, 20);
    assert_eq!(tree.result(), Some(Outcome::Failure));
    let order: Vec<usize> = trace.iter().map(|e| e.node).collect();
    assert_eq!(order, vec![1, 2, 0]);
}

#[test]
fn selector_stops_at_first_success() {
    let mut tree = tree_of(Kind::Selector, &[leaf(Outcome::Success), leaf(Outcome::Failure)]);
    let mut trace = Vec::new();
    run_until_result(&mut tree, &mut trace, 20);
    assert_eq!(tree.result(), Some(Outcome::Success));
    assert!(trace.iter().all(|e| e.node != 2));
}

#[test]
fn inverter_flips_outcomes() {
    let mut a = tree_of(Kind::Inverter, &[leaf(Outcome::Success)]);
    let mut trace = Vec::new();
    run_until_result(&mut a, &mut trace, 20);
    assert_eq!(a.result(), Some(Outcome::Failure));
    let mut b = tree_of(Kind::Inverter, &[leaf(Outcome::Failure)]);
    run_until_result(&mut b, &mut trace, 20);
    assert_eq!(b.result(), Some(Outcome::Success));
}

#[test]
fn inverter_without_child_fails() {
    let mut tree = tree_of(Kind::Inverter, &[]);
    tree.tick(0);
    assert_eq!(tree.result(), Some(Outcome::Failure));
}

#[test]
fn repeater_runs_child_exactly_n_times() {
    for outcome in [Outcome::Success, Outcome::Failure] {
        let mut tree = tree_of(Kind::Repeater { repeat: 3 }, &[leaf(outcome)]);
        let mut trace = Vec::new();
        run_until_result(&mut tree, &mut trace, 100);
        assert_eq!(tree.result(), Some(Outcome::Success));
        assert_eq!(trace.iter().filter(|e| e.node == 1).count(), 3);
        assert_eq!(trace.last(), Some(&TraceEvent { node: 0, outcome: Outcome::Success }));
    }
}

#[test]
fn repeater_with_zero_repeats_forever() {
    let mut tree = tree_of(Kind::Repeater { repeat: 0 }, &[leaf(Outcome::Failure)]);
    let mut trace = Vec::new();
    let ticks = run_until_result(&mut tree, &mut trace, 60);
    assert_eq!(ticks, 60);
    assert_eq!(tree.result(), None);
    assert!(trace.iter().filter(|e| e.node == 1).count() >= 25);
}

#[test]
fn delay_succeeds_once_duration_has_passed() {
    let mut tree = BehaviorTree::new(Kind::Delay(Delay { duration: 10 }), "wait".to_string());
    tree.tick(100);
    assert_eq!(tree.run_state(0), RunState::Running);
    assert_eq!(tree.state(0).memo, 100);
    tree.tick(105);
    assert_eq!(tree.run_state(0), RunState::Running);
    tree.tick(109);
    assert_eq!(tree.run_state(0), RunState::Running);
    tree.tick(110);
    assert_eq!(tree.result(), Some(Outcome::Success));
}

#[test]
fn delay_run_never_fails() {
    let delay = Delay { duration: 5 };
    let entered = NodeState { run: RunState::Entered, cursor: true, memo: 0 };
    let r = behavior_tree::run(&delay, entered, 40);
    assert_eq!(r, NodeState { run: RunState::Running, cursor: true, memo: 40 });
    let r = behavior_tree::run(&delay, r, 44);
    assert_eq!(r.run, RunState::Running);
    let r2 = behavior_tree::run(&delay, r, 45);
    assert_eq!(r2.run, RunState::Success);
    let back = behavior_tree::run(&delay, r, 10);
    assert_eq!(back.run, RunState::Running);
    let zero = behavior_tree::run(&Delay { duration: 0 }, entered, 7);
    assert_eq!(zero.run, RunState::Success);
}

#[test]
fn delay_with_clock_behind_start_keeps_running() {
    let running = NodeState { run: RunState::Running, cursor: true, memo: 50 };
    let r = behavior_tree::run(&Delay { duration: 0 }, running, 49);
    assert_eq!(r, NodeState { run: RunState::Running, cursor: true, memo: 50 });
}

#[test]
fn delay_run_leaves_idle_nodes_alone() {
    let delay = Delay { duration: 3 };
    let absent = NodeState { run: RunState::Absent, cursor: false, memo: 0 };
    assert_eq!(behavior_tree::run(&delay, absent, 100), absent);
    let no_cursor = NodeState { run: RunState::Running, cursor: false, memo: 0 };
    assert_eq!(behavior_tree::run(&delay, no_cursor, 100), no_cursor);
    let done = NodeState { run: RunState::Success, cursor: true, memo: 0 };
    assert_eq!(behavior_tree::run(&delay, done, 100), done);
}

#[test]
fn default_kind_is_debug() {
    assert_eq!(Kind::default(), Kind::Debug);
}

#[test]
fn start_twice_is_start_once() {
    let mut once = tree_of(Kind::Sequence, &[leaf(Outcome::Success)]);
    let mut twice = tree_of(Kind::Sequence, &[leaf(Outcome::Success)]);
    once.start();
    twice.start();
    twice.start();
    for i in 0..once.len() {
        assert_eq!(once.state(i), twice.state(i));
    }
    assert_eq!(twice.state(0), NodeState { run: RunState::Entered, cursor: true, memo: 0 });
}

#[test]
fn one_cursor_at_a_time() {
    let mut tree = BehaviorTree::new(Kind::Sequence, "root".to_string());
    let sel = tree.add_child(0, Kind::Selector, "sel".to_string());
    tree.add_child(sel, Kind::Debug, "a".to_string());
    tree.add_child(sel, Kind::Debug, "b".to_string());
    let inv = tree.add_child(0, Kind::Inverter, "inv".to_string());
    tree.add_child(inv, leaf(Outcome::Failure), "c".to_string());
    let mut trace = Vec::new();
    let mut now: u64 = 0;
    while tree.result().is_none() && now < 50 {
        tree.tick_traced(now, &mut trace);
        let holders = (0..tree.len()).filter(|i| tree.has_cursor(*i)).count();
        assert!(holders <= 1);
        now += 1;
    }
    assert_eq!(tree.result(), Some(Outcome::Success));
    let order: Vec<usize> = trace.iter().map(|e| e.node).collect();
    assert_eq!(order, vec![2, 1, 5, 4, 0]);
}

#[test]
fn spawn_builds_preorder_tree() {
    let def = NodeDef {
        kind: Kind::Sequence,
        label: "root".to_string(),
        children: vec![
            NodeDef {
                kind: Kind::Inverter,
                label: "inv".to_string(),
                children: vec![NodeDef {
                    kind: leaf(Outcome::Failure),
                    label: "fail".to_string(),
                    children: vec![],
                }],
            },
            NodeDef { kind: Kind::Debug, label: "debug".to_string(), children: vec![] },
        ],
    };
    let mut tree = BehaviorTree::spawn(&def).unwrap();
    assert_eq!(tree.len(), 4);
    assert_eq!(tree.label(0), "root");
    assert_eq!(tree.label(1), "inv");
    assert_eq!(tree.label(3), "debug");
    assert_eq!(tree.children(0), &vec![1, 3]);
    assert_eq!(tree.children(1), &vec![2]);
    assert_eq!(tree.parent(2), Some(1));
    assert_eq!(tree.parent(0), None);
    assert_eq!(tree.kind(3), Kind::Debug);
    assert_eq!(tree.label(2), "fail");
    let mut trace = Vec::new();
    run_until_result(&mut tree, &mut trace, 20);
    assert_eq!(tree.result(), Some(Outcome::Success));
}

#[test]
fn outcome_helpers() {
    assert_eq!(Outcome::Success.invert(), Outcome::Failure);
    assert_eq!(Outcome::Failure.to_run_state(), RunState::Failure);
    assert_eq!(RunState::Success.outcome(), Some(Outcome::Success));
    assert_eq!(RunState::Running.outcome(), None);
    assert!(RunState::Failure.terminal());
    assert!(!RunState::Absent.live());
}

#[test]
fn peer_signal_holds_payload() {
    let a = behavior_tree::PeerSignal::Offer("sdp".to_string());
    assert_eq!(a.clone(), behavior_tree::PeerSignal::Offer("sdp".to_string()));
    assert_ne!(a, behavior_tree::PeerSignal::Answer("sdp".to_string()));
}

#[test]
fn trace_behavior_runs_the_tree() {
    let def = NodeDef {
        kind: Kind::Sequence,
        label: "root".to_string(),
        children: vec![
            NodeDef { kind: leaf(Outcome::Success), label: "a".to_string(), children: vec![] },
            NodeDef { kind: leaf(Outcome::Success), label: "b".to_string(), children: vec![] },
        ],
    };
    let trace = behavior_tree::trace_behavior(&def).unwrap();
    assert_eq!(trace.len() as u64, behavior_tree::MAX_ITERS);
    assert_eq!(trace[0], TraceEvent { node: 1, outcome: Outcome::Success });
    assert_eq!(trace[1], TraceEvent { node: 2, outcome: Outcome::Success });
    assert_eq!(trace[2], TraceEvent { node: 0, outcome: Outcome::Success });
}

#[test]
fn run_traced_matches_ticks() {
    let mut a = tree_of(Kind::Selector, &[leaf(Outcome::Failure), Kind::Debug]);
    let mut b = tree_of(Kind::Selector, &[leaf(Outcome::Failure), Kind::Debug]);
    let trace = a.run_traced(0, 5);
    let mut expected = Vec::new();
    for now in 0..5 {
        b.tick_traced(now, &mut expected);
    }
    assert_eq!(trace, expected);
    assert_eq!(a.result(), Some(Outcome::Success));
}

#[test]
fn cancel_clears_subtree() {
    let mut tree = BehaviorTree::new(Kind::Sequence, "root".to_string());
    let sel = tree.add_child(0, Kind::Selector, "sel".to_string());
    let d = tree.add_child(sel, Kind::Delay(Delay { duration: 100 }), "wait".to_string());
    let other = tree.add_child(0, Kind::Debug, "other".to_string());
    tree.tick(0);
    assert_eq!(tree.run_state(d), RunState::Running);
    assert_eq!(tree.cursor_node(), Some(d));
    tree.cancel(sel);
    assert_eq!(tree.run_state(sel), RunState::Absent);
    assert_eq!(tree.run_state(d), RunState::Absent);
    assert_eq!(tree.state(d).memo, 0);
    assert_eq!(tree.run_state(0), RunState::Running);
    assert_eq!(tree.run_state(other), RunState::Absent);
    assert_eq!(tree.cursor_node(), None);
    tree.cancel(0);
    assert_eq!(tree.run_state(0), RunState::Absent);
    tree.tick(1);
    assert_eq!(tree.cursor_node(), Some(d));
}
