use atomic_runtime::events::{
    keep_first_exception,
    dispatch_plan, record_matches_phase, DispatchDepth, EventFlags, ListenerError, ListenerList,
    ListenerOptions, ListenerRecord, PathStep, Phase, Propagation,
};

fn rec(callback: u64, capture: bool) -> ListenerRecord {
    ListenerRecord { callback, capture, once: false, passive: false }
}

#[test]
fn phase_matching() {
    assert!(record_matches_phase(Phase::Target, true));
    assert!(record_matches_phase(Phase::Target, false));
    assert!(record_matches_phase(Phase::Capture, true));
    assert!(!record_matches_phase(Phase::Capture, false));
    assert!(record_matches_phase(Phase::Bubble, false));
    assert!(!record_matches_phase(Phase::Bubble, true));
}

#[test]
fn snapshot_filters_by_phase_in_order() {
    let mut l = ListenerList::new();
    l.add(1, ListenerOptions::from_use_capture(true)).unwrap();
    l.add(2, ListenerOptions::defaults()).unwrap();
    l.add(3, ListenerOptions::from_use_capture(true)).unwrap();
    assert_eq!(l.snapshot(Phase::Capture), vec![rec(1, true), rec(3, true)]);
    assert_eq!(l.snapshot(Phase::Bubble), vec![rec(2, false)]);
    assert_eq!(l.snapshot(Phase::Target), vec![rec(1, true), rec(2, false), rec(3, true)]);
}

#[test]
fn remove_empties_first_match_only() {
    let mut l = ListenerList::new();
    l.add(7, ListenerOptions::defaults()).unwrap();
    l.add(7, ListenerOptions::defaults()).unwrap();
    l.add(7, ListenerOptions::from_use_capture(true)).unwrap();
    l.remove(7, false);
    assert_eq!(l.len(), 3);
    assert_eq!(l.snapshot(Phase::Target), vec![rec(7, false), rec(7, true)]);
    l.remove(7, false);
    assert_eq!(l.snapshot(Phase::Target), vec![rec(7, true)]);
    l.remove(9, true);
    assert_eq!(l.snapshot(Phase::Target), vec![rec(7, true)]);
}

#[test]
fn limit_counts_removed_slots() {
    let mut l = ListenerList::new();
    for i in 0..64 {
        assert_eq!(l.add(i, ListenerOptions::defaults()), Ok(()));
    }
    l.remove(0, false);
    assert_eq!(l.add(100, ListenerOptions::defaults()), Err(ListenerError::LimitExceeded));
    l.clear();
    assert_eq!(l.len(), 0);
    assert_eq!(l.add(100, ListenerOptions::defaults()), Ok(()));
}

#[test]
fn added_listener_runs_at_target() {
    let mut l = ListenerList::new();
    l.add(5, ListenerOptions { capture: true, once: true, passive: false }).unwrap();
    let snap = l.snapshot(Phase::Target);
    assert_eq!(snap.last().unwrap().callback, 5);
    assert!(snap.last().unwrap().once);
}

#[test]
fn prevent_default_rules() {
    let mut f = EventFlags::new(true, false);
    f.prevent_default();
    assert!(!f.default_prevented);
    assert!(f.dispatch_result());
    let mut g = EventFlags::new(true, true);
    g.enter_listener(true);
    g.prevent_default();
    assert!(!g.default_prevented);
    g.leave_listener();
    g.prevent_default();
    assert!(g.default_prevented);
    assert!(!g.dispatch_result());
    g.stop_propagation();
    assert!(g.propagation_stopped);
}

#[test]
fn plan_for_three_nodes_bubbling() {
    let plan = dispatch_plan(3, true);
    let want = vec![
        PathStep { index: 2, phase: Phase::Capture },
        PathStep { index: 1, phase: Phase::Capture },
        PathStep { index: 0, phase: Phase::Target },
        PathStep { index: 1, phase: Phase::Bubble },
        PathStep { index: 2, phase: Phase::Bubble },
    ];
    assert_eq!(plan, want);
}

#[test]
fn plan_without_bubbling_stops_at_target() {
    let plan = dispatch_plan(2, false);
    assert_eq!(
        plan,
        vec![PathStep { index: 1, phase: Phase::Capture }, PathStep { index: 0, phase: Phase::Target }]
    );
    assert_eq!(dispatch_plan(1, true), vec![PathStep { index: 0, phase: Phase::Target }]);
}

#[test]
fn nested_dispatch_limit() {
    let mut d = DispatchDepth::new();
    for _ in 0..32 {
        assert!(d.begin());
    }
    assert!(!d.begin());
    assert_eq!(d.depth(), 32);
    d.end();
    assert_eq!(d.depth(), 31);
    assert!(d.begin());
}

#[test]
fn propagation_runs_the_plan_until_stopped() {
    let mut p = Propagation::new(3, true);
    let mut seen = Vec::new();
    while let Some(step) = p.next_stop(false) {
        seen.push(step);
    }
    assert_eq!(seen, dispatch_plan(3, true));
    assert_eq!(p.next_stop(false), None);

    let mut p = Propagation::new(3, false);
    assert_eq!(p.next_stop(false), Some(PathStep { index: 2, phase: Phase::Capture }));
    assert_eq!(p.next_stop(false), Some(PathStep { index: 1, phase: Phase::Capture }));
    // stopPropagation() was called at the parent: the target is not reached.
    assert_eq!(p.next_stop(true), None);
    assert_eq!(p.next_stop(false), None);
}

#[test]
fn first_exception_is_kept() {
    let mut kept: Option<u32> = None;
    assert_eq!(keep_first_exception(&mut kept, 1), None);
    assert_eq!(kept, Some(1));
    assert_eq!(keep_first_exception(&mut kept, 2), Some(2));
    assert_eq!(kept, Some(1));
}
