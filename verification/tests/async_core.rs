use cordis::async_core::{
    guard, AsyncFiberEntry, AsyncFiberError, AsyncFiberHandle, AsyncFiberState, AsyncStep, CancelFlag, Drive, DriveNext, Session,
    SettleStep, TailQueue, MAX_DRAIN_ROUNDS,
};
use cordis::component::{Component, Effects};
use cordis::effect::{noop, once};
use cordis::env::{Context, Env};
use cordis::keyset::KeySet;
use cordis::runtime::Runtime;
use cordis::value::Value;

/// Runs a scripted drive: each step is handed in while the guard allows;
/// returns what the host is told to undo, and the failure if any.
fn run(steps: Vec<AsyncStep<&'static str>>, guard_after: usize) -> (Vec<&'static str>, Option<AsyncFiberError>) {
    let mut drive = Drive::new();
    let mut taken = 0;
    for step in steps {
        if !drive.wants_step(taken < guard_after) {
            return (drive.stop(), None);
        }
        taken += 1;
        match drive.record(step) {
            DriveNext::Continue => {}
            DriveNext::Done(v) => return (v, None),
            DriveNext::Failed(v, e) => return (v, Some(e)),
        }
    }
    (drive.stop(), None)
}

#[test]
fn composite_inverse_runs_lifo() {
    let (undo, err) = run(
        vec![AsyncStep::Yielded("rev:a"), AsyncStep::Yielded("rev:b"), AsyncStep::Finished("rev:c")],
        usize::MAX,
    );
    assert!(err.is_none(), "a normal completion");
    assert_eq!(undo, vec!["rev:c", "rev:b", "rev:a"], "undone in reverse application order");
}

#[test]
fn guard_false_immediately_yields_empty_composite() {
    let (undo, err) = run(vec![AsyncStep::Yielded("rev:a"), AsyncStep::Finished("rev:b")], 0);
    assert!(err.is_none());
    assert!(undo.is_empty(), "no step was taken");
}

#[test]
fn guard_false_at_step_boundary_keeps_completed_steps() {
    let (undo, err) = run(vec![AsyncStep::Yielded("rev:a"), AsyncStep::Yielded("rev:b"), AsyncStep::Finished("rev:c")], 2);
    assert!(err.is_none());
    assert_eq!(undo, vec!["rev:b", "rev:a"], "the completed steps are kept for the undo");
}

#[test]
fn failure_undoes_completed_steps_first() {
    let (undo, err) = run(
        vec![AsyncStep::Yielded("rev:a"), AsyncStep::Yielded("rev:b"), AsyncStep::Failed(AsyncFiberError::new("boom".to_string()))],
        usize::MAX,
    );
    assert_eq!(undo, vec!["rev:b", "rev:a"]);
    assert_eq!(err.expect("failed").message(), "boom");
}

#[test]
fn cancel_flag_is_idempotent_and_resettable() {
    let mut flag = CancelFlag::new();
    assert!(!flag.cancelled());
    flag.cancel();
    flag.cancel();
    assert!(flag.cancelled());
    flag.reset();
    assert!(!flag.cancelled());
}

struct Idle;
impl Component for Idle {
    fn inject(&self) -> KeySet {
        KeySet::new()
    }
    fn provide(&self) -> KeySet {
        KeySet::new()
    }
    fn apply(&self, _ctx: Context, _config: &Value, _env: &mut Env) -> Effects {
        Effects::new(Box::new(once(|_env: &mut Env| noop())))
    }
}

#[test]
fn handle_resolves_while_registered() {
    let mut rt = Runtime::new();
    let root = rt.context();
    let f = root.use_component(&mut rt, Box::new(Idle), Value::Flag(false)).expect("mounted");
    let handle = AsyncFiberHandle::new(f.id(), 3);
    assert_eq!(handle.generation(), 3);
    assert_eq!(handle.id(&rt), Some(f.id()));
    assert!(handle.fiber(&rt).is_some());
    rt.retire(f.id());
    rt.remove_fiber(f.id()).expect("removed");
    assert_eq!(handle.id(&rt), None, "the fiber left the registry");
    assert!(handle.fiber(&rt).is_none());
}

#[test]
fn stale_generation_completions_are_ignored() {
    let mut entry = AsyncFiberEntry::new();
    let mut queue = TailQueue::new();
    let g1 = entry.begin_activation();
    assert_eq!(g1, 1);
    entry.install_session(Session { generation: g1, cancel: CancelFlag::new() });
    let g2 = entry.begin_activation();
    assert_eq!(g2, 2);
    entry.mark_running(g1);
    assert_eq!(entry.state, AsyncFiberState::Idle, "a late completion does not commit");
    assert!(!entry.on_failed(g1, AsyncFiberError::new("late".to_string())));
    assert_eq!(entry.state, AsyncFiberState::Idle);
    entry.mark_running(g2);
    assert_eq!(entry.state, AsyncFiberState::Running { generation: 2 });
    assert!(!entry.undo_registration(&mut queue, g2), "the session of generation 1 is not taken by generation 2");
    assert!(entry.undo_registration(&mut queue, g1));
    assert!(!entry.undo_registration(&mut queue, g1), "taking the session is idempotent");
    assert!(!queue.is_empty());
    assert!(entry.on_failed(g2, AsyncFiberError::new("boom".to_string())));
    assert_eq!(entry.state, AsyncFiberState::Failed(AsyncFiberError::new("boom".to_string())));
}

#[test]
fn settlement_drains_fifo_and_guards_runaway() {
    let mut queue = TailQueue::new();
    assert!(matches!(queue.settle_round(0), SettleStep::Done));
    queue.enqueue_tail(3);
    queue.enqueue_tail(1);
    match queue.settle_round(0) {
        SettleStep::Batch(b) => assert_eq!(b, vec![3, 1]),
        _ => panic!("a batch"),
    }
    assert!(queue.is_empty());
    queue.enqueue_tail(4);
    assert!(matches!(queue.settle_round(MAX_DRAIN_ROUNDS), SettleStep::Runaway));
}

#[test]
fn guard_requires_uncancelled_unchanged_target() {
    let flag = CancelFlag::new();
    assert!(!guard(&flag, &None, &None));
    let mut cancelled = CancelFlag::new();
    cancelled.cancel();
    assert!(!guard(&cancelled, &None, &None));
}
