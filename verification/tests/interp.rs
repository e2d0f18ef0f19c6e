use cordis::fiber::FiberId;
use cordis::interp::{Component, InterpState, Lifecycle, TargetView, Violation};
use cordis::keyset::KeySet;
use cordis::symbol::Symbol;
use std::collections::BTreeSet;

fn k(name: &str) -> Symbol {
    Symbol::intern(name)
}

fn spec(names: &[&str]) -> KeySet {
    KeySet::from_vec(names.iter().map(|s| k(s)).collect())
}

fn comp(inject: &[&str], provide: &[&str]) -> Component {
    Component {
        inject: spec(inject),
        provide: spec(provide),
    }
}

fn set(v: Vec<FiberId>) -> BTreeSet<FiberId> {
    v.into_iter().collect()
}

/// A name that belongs to no registry (bypasses name allocation; test only).
fn ghost() -> FiberId {
    let mut counter = 0xFF00;
    FiberId::fresh(&mut counter)
}

/// Every quiescent state reachable by any interleaving of enabled rules.
fn quiescent_states(s: &InterpState, depth: usize, out: &mut Vec<InterpState>, replay: &[(bool, FiberId)], base: &dyn Fn() -> InterpState) {
    if s.is_quiet() {
        out.push(rebuild(base, replay));
        return;
    }
    if depth == 0 {
        return;
    }
    for n in s.enabled_reloads() {
        let mut path = replay.to_vec();
        path.push((true, n));
        let t = rebuild(base, &path);
        quiescent_states(&t, depth - 1, out, &path, base);
    }
    for n in s.enabled_unloads() {
        let mut path = replay.to_vec();
        path.push((false, n));
        let t = rebuild(base, &path);
        quiescent_states(&t, depth - 1, out, &path, base);
    }
}

fn rebuild(base: &dyn Fn() -> InterpState, path: &[(bool, FiberId)]) -> InterpState {
    let mut s = base();
    for (reload, n) in path {
        if *reload {
            s.reload(*n).unwrap();
        } else {
            s.unload(*n).unwrap();
        }
    }
    s
}

fn summary(s: &InterpState, ids: &[FiberId]) -> Vec<(FiberId, bool, bool)> {
    ids.iter()
        .map(|n| {
            let f = s.fiber(*n).unwrap();
            (*n, f.retired, matches!(f.state, Lifecycle::Active { .. }))
        })
        .collect()
}

#[test]
fn dependency_activation_ordering() {
    let mut s = InterpState::new();
    let db = s.insert(None, &comp(&[], &["db"])).unwrap();
    let app = s.insert(None, &comp(&["db"], &[])).unwrap();
    assert_eq!(s.target(app), None, "target is ⊥ while the dependency is unprovided");
    assert!(!s.is_quiet(), "db has no dependencies: its L-Reload is enabled");

    s.drive_to_quiescence();
    assert!(s.is_quiet());
    assert_eq!(s.target(app), Some(TargetView::new(vec![(k("db"), db)])));
    assert_eq!(set(s.active_set()), BTreeSet::from([db, app]));
}

#[test]
fn withdrawal_cascade() {
    let mut s = InterpState::new();
    let db = s.insert(None, &comp(&[], &["db"])).unwrap();
    let app = s.insert(None, &comp(&["db"], &[])).unwrap();
    s.drive_to_quiescence();
    assert_eq!(set(s.active_set()), BTreeSet::from([db, app]));
    assert_eq!(set(s.active_set()), set(s.support_set()), "a quiet state activates exactly the supported fibers");

    s.retire(db).unwrap();
    s.drive_to_quiescence();
    assert!(s.active_set().is_empty());
    assert!(s.is_quiet());
    assert!(s.provided().is_empty());

    s.retire(app).unwrap();
    s.remove(db).unwrap();
    s.remove(app).unwrap();
    assert!(s.is_quiet());
    assert_eq!(s.len(), 0);
}

#[test]
fn interp_provision_clash_rejected() {
    let mut s = InterpState::new();
    s.insert(None, &comp(&[], &["db"])).unwrap();
    assert_eq!(
        s.insert(None, &comp(&[], &["db"])),
        Err(Violation::ProvisionClash)
    );
}

#[test]
fn unknown_parent_rejected() {
    let mut s = InterpState::new();
    assert_eq!(
        s.insert(Some(ghost()), &comp(&[], &["x"])),
        Err(Violation::UnknownParent)
    );
}

#[test]
fn lifecycle_rules_on_unknown_fiber_classify_consistently() {
    let mut s = InterpState::new();
    let ghost = ghost();
    assert_eq!(s.reload(ghost), Err(Violation::UnknownFiber));
    assert_eq!(s.unload(ghost), Err(Violation::UnknownFiber));
    assert_eq!(s.retire(ghost), Err(Violation::UnknownFiber));
    assert_eq!(s.remove(ghost), Err(Violation::UnknownFiber));
}

#[test]
fn interp_remove_preconditions() {
    let mut s = InterpState::new();
    let parent = s.insert(None, &comp(&[], &["k"])).unwrap();
    let child = s.insert(Some(parent), &comp(&[], &[])).unwrap();
    s.drive_to_quiescence();

    assert_eq!(s.remove(parent), Err(Violation::NotRetired));
    s.retire(parent).unwrap();
    assert_eq!(s.remove(parent), Err(Violation::StillActive));
    s.drive_to_quiescence();
    assert_eq!(s.remove(parent), Err(Violation::HasChildren));
    assert!(s.fiber(child).unwrap().retired, "the child is retired by the parent's registration inverse");
    assert!(matches!(s.fiber(child).unwrap().state, Lifecycle::Inactive));
    s.remove(child).unwrap();
    s.remove(parent).unwrap();
    assert!(s.is_quiet());
}

#[test]
fn remove_rejects_active_fiber() {
    let mut s = InterpState::new();
    let a = s.insert(None, &comp(&[], &["k"])).unwrap();
    s.drive_to_quiescence();
    s.retire(a).unwrap();
    assert_eq!(s.remove(a), Err(Violation::StillActive));
    s.drive_to_quiescence();
    s.remove(a).unwrap();
    assert!(s.is_quiet());
}

#[test]
fn drive_reaches_quiet_and_lemma70() {
    let mut s = InterpState::new();
    let a = s.insert(None, &comp(&[], &["k1"])).unwrap();
    let b = s.insert(None, &comp(&["k1"], &["k2"])).unwrap();
    let c = s.insert(None, &comp(&["k2"], &[])).unwrap();
    s.drive_to_quiescence();
    assert!(s.is_quiet());
    assert_eq!(set(s.active_set()), set(s.support_set()), "a quiet state activates exactly the supported fibers");
    assert_eq!(set(s.active_set()), BTreeSet::from([a, b, c]));
    assert_eq!(s.provided(), spec(&["k1", "k2"]));

    s.retire(b).unwrap();
    s.drive_to_quiescence();
    assert!(s.is_quiet());
    assert_eq!(set(s.active_set()), BTreeSet::from([a]));
    assert_eq!(set(s.active_set()), set(s.support_set()), "a quiet state activates exactly the supported fibers");
    assert_eq!(s.provided(), spec(&["k1"]));
}

#[test]
fn confluence_all_interleavings() {
    let build = || {
        let mut s = InterpState::new();
        s.insert(None, &comp(&[], &["k1"])).unwrap();
        s.insert(None, &comp(&["k1"], &["k2"])).unwrap();
        s.insert(None, &comp(&["k2"], &[])).unwrap();
        s
    };
    let mut s = build();
    let (a, b, c) = (FiberId(0), FiberId(1), FiberId(2));
    s.drive_to_quiescence();
    assert_eq!(set(s.active_set()), BTreeSet::from([a, b, c]));

    // Phase 2: retire everything; every interleaving must reach the same quiet state.
    let base = move || {
        let mut s = build();
        s.drive_to_quiescence();
        for n in [b, a, c] {
            s.retire(n).unwrap();
        }
        s
    };
    let start = base();
    let mut states = Vec::new();
    quiescent_states(&start, 32, &mut states, &[], &base);
    assert!(!states.is_empty(), "oracle must reach quiescence");
    let first = summary(&states[0], &[a, b, c]);
    assert!(states.iter().all(|t| summary(t, &[a, b, c]) == first), "confluence violated");
    let first = &states[0];
    assert!(first.is_quiet());
    assert!(first.active_set().is_empty(), "nobody active after retiring all");
    assert_eq!(set(first.active_set()), set(first.support_set()), "a quiet state activates exactly the supported fibers");
    assert!(first.fiber(a).is_some() && first.fiber(b).is_some() && first.fiber(c).is_some());

    // Phase 3: all three can be removed; the system is empty again.
    let mut s1 = base();
    s1.drive_to_quiescence();
    for n in [b, a, c] {
        s1.remove(n).unwrap();
    }
    assert_eq!(s1.len(), 0);
    assert!(s1.is_quiet());
}
