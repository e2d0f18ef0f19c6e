use cordis::effect::{
    execute, noop, once, try_execute_with, Disposer, EffectIter, Outcome, Step, Undo,
};
use cordis::env::Env;
use cordis::runtime::{Reactor, Runtime};
use cordis::store::StoreError;
use cordis::symbol::Symbol;
use cordis::value::Key;
use std::cell::{Cell, RefCell};
use std::rc::Rc;

struct LogUndo {
    log: Rc<RefCell<Vec<String>>>,
    name: String,
}

impl Undo for LogUndo {
    fn undo(&mut self, _env: &mut Env) {
        self.log.borrow_mut().push(self.name.clone());
    }
}

fn logged(log: &Rc<RefCell<Vec<String>>>, name: &str) -> Disposer {
    Disposer::Custom(Box::new(LogUndo {
        log: Rc::clone(log),
        name: name.to_string(),
    }))
}

struct Steps {
    log: Rc<RefCell<Vec<String>>>,
    stop: Rc<Cell<bool>>,
    n: usize,
    total: usize,
}

impl EffectIter for Steps {
    fn next(&mut self, _env: &mut Env) -> Step {
        self.n += 1;
        let name = format!("undo{}", self.n);
        if self.n == 2 {
            self.stop.set(true);
        }
        if self.n == self.total {
            Step::Finished(logged(&self.log, &name))
        } else {
            Step::Yielded(logged(&self.log, &name))
        }
    }
}

#[test]
fn once_yields_single_finished_step() {
    let mut env = Env::new();
    let mut iter = once(|_e: &mut Env| noop());
    match iter.next(&mut env) {
        Step::Finished(_) => {}
        _ => panic!("once must finish in exactly one step"),
    }
}

#[test]
fn try_execute_with_suspends_on_await_and_resumes_lifo() {
    struct AwaitSteps {
        log: Rc<RefCell<Vec<String>>>,
        n: u32,
    }
    impl EffectIter for AwaitSteps {
        fn next(&mut self, _env: &mut Env) -> Step {
            self.n += 1;
            match self.n {
                1 => Step::Yielded(logged(&self.log, "a")),
                2 => Step::Await,
                _ => Step::Finished(logged(&self.log, "z")),
            }
        }
    }
    let mut env = Env::new();
    let log = Rc::new(RefCell::new(Vec::new()));
    let iter: Box<dyn EffectIter> = Box::new(AwaitSteps {
        log: Rc::clone(&log),
        n: 0,
    });
    let (iter, acc) = match try_execute_with(iter, || true, Vec::new(), &mut env) {
        Outcome::Suspended(iter, acc) => (iter, acc),
        _ => panic!("the drive must suspend on Await"),
    };
    assert_eq!(acc.len(), 1, "the inverses so far hold the first step");

    let recovery = match try_execute_with(iter, || true, acc, &mut env) {
        Outcome::Done(r) => r,
        _ => panic!("the resumed drive must finish"),
    };
    recovery.run(&mut env);
    assert_eq!(
        *log.borrow(),
        vec!["z".to_string(), "a".to_string()],
        "LIFO across the suspension"
    );
}

#[test]
fn execute_runs_inverses_in_lifo() {
    let mut env = Env::new();
    let log = Rc::new(RefCell::new(Vec::<String>::new()));
    let iter = Steps {
        log: Rc::clone(&log),
        stop: Rc::new(Cell::new(false)),
        n: 0,
        total: 3,
    };
    let recovery = execute(Box::new(iter), || true, &mut env);
    recovery.run(&mut env);
    assert_eq!(*log.borrow(), vec!["undo3", "undo2", "undo1"]);
}

#[test]
fn execute_interrupts_at_step_boundary() {
    let mut env = Env::new();
    let log = Rc::new(RefCell::new(Vec::<String>::new()));
    let stop = Rc::new(Cell::new(false));
    let iter = Steps {
        log: Rc::clone(&log),
        stop: Rc::clone(&stop),
        n: 0,
        total: 5,
    };
    let recovery = execute(Box::new(iter), {
        let stop = Rc::clone(&stop);
        move || !stop.get()
    }, &mut env);
    recovery.run(&mut env);
    assert_eq!(
        *log.borrow(),
        vec!["undo2", "undo1"],
        "only the two completed steps are recovered"
    );
}

#[test]
fn execute_stops_after_finished() {
    let mut env = Env::new();
    let calls = Rc::new(Cell::new(0));
    let calls2 = Rc::clone(&calls);
    let iter = once(move |_e: &mut Env| {
        calls2.set(calls2.get() + 1);
        noop()
    });
    let _ = execute(Box::new(iter), || true, &mut env);
    assert_eq!(calls.get(), 1, "no step after Finished");
}

#[test]
fn execute_with_dead_guard_is_noop() {
    let mut env = Env::new();
    let ran = Rc::new(Cell::new(false));
    let ran2 = Rc::clone(&ran);
    let iter = once(move |_e: &mut Env| {
        ran2.set(true);
        noop()
    });
    let recovery = execute(Box::new(iter), || false, &mut env);
    assert!(!ran.get(), "a guard that fails at once drives nothing");
    assert!(recovery.is_empty());
    recovery.run(&mut env);
}

struct KeyX;
impl Key for KeyX {
    type Value = String;
    const SYMBOL: &'static str = "x";
}

struct Count {
    seen: Rc<RefCell<Vec<String>>>,
}

impl Reactor for Count {
    fn react(&mut self, _env: &mut Env, _ctx: cordis::env::Context, realms: &Vec<Symbol>) {
        for r in realms {
            self.seen.borrow_mut().push(r.as_str().to_string());
        }
    }
}

#[test]
fn step_guard_is_idempotent_across_copies() {
    let mut rt = Runtime::new();
    let ctx = rt.context();
    let seen = Rc::new(RefCell::new(Vec::new()));
    rt.on_notify(Box::new(Count { seen: Rc::clone(&seen) }));
    let d1 = ctx.set::<KeyX>(&mut rt, "v".to_string()).unwrap();
    let d2 = match &d1 {
        Disposer::Inverses(v) => Disposer::Inverses(v.clone()),
        Disposer::Custom(_) => panic!("a binding's inverse is an engine inverse"),
    };
    rt.dispose(d1);
    rt.dispose(d2);
    assert_eq!(*seen.borrow(), vec!["x", "x"], "bound once, revoked once");
    assert!(matches!(ctx.get::<KeyX>(&rt), Err(StoreError::NotBound(_))));
}
