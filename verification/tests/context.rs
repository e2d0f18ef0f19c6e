use cordis::context::InterceptMeta;
use cordis::effect::{inverse, Disposer, EffectIter, Step};
use cordis::env::{Context, Env};
use cordis::keyset::KeySet;
use cordis::runtime::{Reactor, Runtime};
use cordis::store::StoreError;
use cordis::symbol::Symbol;
use cordis::value::{Key, Value};
use std::cell::{Cell, RefCell};
use std::collections::BTreeSet;
use std::rc::Rc;

struct KeyA;
impl Key for KeyA {
    type Value = String;
    const SYMBOL: &'static str = "a";
}

struct KeyB;
impl Key for KeyB {
    type Value = u32;
    const SYMBOL: &'static str = "b";
}

struct KeyK1;
impl Key for KeyK1 {
    type Value = usize;
    const SYMBOL: &'static str = "k1";
}

struct KeyK2;
impl Key for KeyK2 {
    type Value = usize;
    const SYMBOL: &'static str = "k2";
}

struct KeyK3;
impl Key for KeyK3 {
    type Value = usize;
    const SYMBOL: &'static str = "k3";
}

fn root() -> (Runtime, Context) {
    let mut rt = Runtime::new();
    let ctx = rt.context();
    (rt, ctx)
}

#[test]
fn thm16_lifo_recovery_and_soundness_invariant() {
    let (mut rt, ctx) = root();
    let d1 = ctx.set::<KeyA>(&mut rt, String::from("va")).unwrap();
    let d2 = ctx.set::<KeyB>(&mut rt, 7).unwrap();
    assert_eq!(ctx.get::<KeyA>(&rt).unwrap(), "va");
    assert_eq!(ctx.get::<KeyB>(&rt).unwrap(), 7);

    rt.dispose(d2);
    assert!(matches!(ctx.get::<KeyB>(&rt), Err(StoreError::NotBound(_))));
    assert_eq!(ctx.get::<KeyA>(&rt).unwrap(), "va", "the first effect is untouched");

    rt.dispose(d1);
    assert!(matches!(ctx.get::<KeyA>(&rt), Err(StoreError::NotBound(_))));
    assert!(rt.store().symbols().is_empty(), "back to the initial table");
}

struct KeyK4;
impl Key for KeyK4 {
    type Value = usize;
    const SYMBOL: &'static str = "k4";
}

fn assert_permutation_reverts(order: &[usize; 4]) {
    let (mut rt, ctx) = root();
    let mut inverses: Vec<Option<Disposer>> = vec![
        Some(ctx.set::<KeyK1>(&mut rt, 1).unwrap()),
        Some(ctx.set::<KeyK2>(&mut rt, 2).unwrap()),
        Some(ctx.set::<KeyK3>(&mut rt, 3).unwrap()),
        Some(ctx.set::<KeyK4>(&mut rt, 4).unwrap()),
    ];
    assert_eq!(rt.store().symbols().len(), 4);
    let mut undone = 0;
    for &i in order {
        let d = inverses[i - 1].take().expect("each inverse runs once");
        rt.dispose(d);
        undone += 1;
        assert_eq!(rt.store().symbols().len(), 4 - undone, "order {order:?}: step {undone}");
    }
    assert!(rt.store().symbols().is_empty(), "order {order:?} returns to the initial table");
}

fn next_permutation(order: &mut [usize; 4]) -> bool {
    let mut i = order.len() - 1;
    while i > 0 && order[i - 1] >= order[i] {
        i -= 1;
    }
    if i == 0 {
        return false;
    }
    let mut j = order.len() - 1;
    while order[j] <= order[i - 1] {
        j -= 1;
    }
    order.swap(i - 1, j);
    order[i..].reverse();
    true
}

#[test]
fn cor21_independent_effects_revert_in_any_permutation() {
    let mut order = [1usize, 2, 3, 4];
    let mut seen = 0;
    loop {
        assert_permutation_reverts(&order);
        seen += 1;
        if !next_permutation(&mut order) {
            break;
        }
    }
    assert_eq!(seen, 24, "all 24 orders");
}

#[test]
fn accumulator_reverts_all_effects_lifo() {
    let (mut rt, ctx) = root();
    let _ = ctx.set::<KeyA>(&mut rt, String::from("va")).unwrap();
    let _ = ctx.set::<KeyB>(&mut rt, 7).unwrap();
    assert_eq!(rt.store().symbols().len(), 2);
    ctx.dispose_all(&mut rt);
    assert_eq!(rt.store().symbols().len(), 0, "back to the initial table");
}

#[test]
fn disposer_is_idempotent() {
    let (mut rt, ctx) = root();
    let d = ctx.set::<KeyA>(&mut rt, String::from("va")).unwrap();
    rt.dispose(d);
    assert!(matches!(ctx.get::<KeyA>(&rt), Err(StoreError::NotBound(_))));
    ctx.dispose_all(&mut rt);
    assert!(matches!(ctx.get::<KeyA>(&rt), Err(StoreError::NotBound(_))));
}

#[test]
fn effect_registers_into_context_accumulator() {
    let (mut rt, ctx) = root();
    let _ = ctx.set::<KeyA>(&mut rt, String::from("va")).unwrap();
    assert!(ctx.get::<KeyA>(&rt).is_ok());
    ctx.dispose_all(&mut rt);
    assert!(matches!(ctx.get::<KeyA>(&rt), Err(StoreError::NotBound(_))));
}

struct Log {
    log: Rc<RefCell<Vec<String>>>,
}

impl Reactor for Log {
    fn react(&mut self, _env: &mut Env, _ctx: Context, realms: &Vec<Symbol>) {
        for r in realms {
            self.log.borrow_mut().push(r.as_str().to_string());
        }
    }
}

#[test]
fn nested_effect_reverts_in_application_order() {
    struct Outer {
        ctx: Context,
        step: usize,
    }
    impl EffectIter for Outer {
        fn next(&mut self, env: &mut Env) -> Step {
            self.step += 1;
            match self.step {
                1 => Step::Yielded(inverse(env.set::<KeyK1>(self.ctx, 1).unwrap())),
                2 => {
                    // An inner effect registered between the outer steps.
                    let _inner = env.set::<KeyK2>(self.ctx, 2).unwrap();
                    Step::Finished(inverse(env.set::<KeyK3>(self.ctx, 3).unwrap()))
                }
                _ => panic!("the iterator ends after two steps"),
            }
        }
    }
    let (mut rt, ctx) = root();
    let _ = ctx.effect(&mut rt, Box::new(Outer { ctx, step: 0 }));
    assert_eq!(rt.store().symbols().len(), 3, "k1, k2, k3 applied");
    let log = Rc::new(RefCell::new(Vec::<String>::new()));
    rt.on_notify(Box::new(Log { log: Rc::clone(&log) }));
    ctx.dispose_all(&mut rt);
    assert_eq!(
        *log.borrow(),
        vec!["k3", "k2", "k1"],
        "undone in reverse application order, the inner effect between the outer steps"
    );
    assert_eq!(rt.store().symbols().len(), 0);
}

#[test]
fn set_precondition_rejected_without_mutation() {
    let (mut rt, ctx) = root();
    let d = ctx.set::<KeyA>(&mut rt, String::from("va")).unwrap();
    assert!(matches!(
        ctx.set::<KeyA>(&mut rt, String::from("vb")),
        Err(StoreError::AlreadyBound(_))
    ));
    assert_eq!(ctx.get::<KeyA>(&rt).unwrap(), "va", "the binding is kept");
    rt.dispose(d);
    let _ = ctx.set::<KeyA>(&mut rt, String::from("vc")).unwrap();
    assert_eq!(ctx.get::<KeyA>(&rt).unwrap(), "vc");
}

#[test]
fn get_precondition_rejected() {
    let (rt, ctx) = root();
    assert!(matches!(ctx.get::<KeyA>(&rt), Err(StoreError::NotBound(_))));
}

#[test]
fn set_notifies_on_bind_and_unbind() {
    let (mut rt, ctx) = root();
    let log = Rc::new(RefCell::new(Vec::<String>::new()));
    rt.on_notify(Box::new(Log { log: Rc::clone(&log) }));
    let d = ctx.set::<KeyA>(&mut rt, String::from("va")).unwrap();
    assert_eq!(*log.borrow(), vec!["a".to_string()]);
    rt.dispose(d);
    assert_eq!(*log.borrow(), vec!["a".to_string(), "a".to_string()], "revocation notifies too");
}

struct Guarded {
    events: Rc<RefCell<Vec<String>>>,
    done: Rc<Cell<bool>>,
    ctx: Context,
}

impl Reactor for Guarded {
    fn react(&mut self, env: &mut Env, _ctx: Context, realms: &Vec<Symbol>) {
        self.events.borrow_mut().push(realms[0].as_str().to_string());
        if !self.done.get() {
            self.done.set(true);
            let _ = env.set::<KeyB>(self.ctx, 7).unwrap();
        }
    }
}

#[test]
fn nested_notify_terminates_with_guarded_reactor() {
    let (mut rt, ctx) = root();
    let events = Rc::new(RefCell::new(Vec::<String>::new()));
    rt.on_notify(Box::new(Guarded {
        events: Rc::clone(&events),
        done: Rc::new(Cell::new(false)),
        ctx,
    }));
    let _ = ctx.set::<KeyA>(&mut rt, String::from("va")).unwrap();
    assert_eq!(*events.borrow(), vec!["a".to_string(), "b".to_string()]);
}

#[test]
fn satisfies_resolves_through_realms() {
    let (mut rt, parent) = root();
    let key = Symbol::intern(KeyA::SYMBOL);
    let spec = KeySet::from_vec(vec![key.clone()]);
    assert!(!parent.satisfies(&rt, &spec));
    let _ = parent.set::<KeyA>(&mut rt, String::from("va")).unwrap();
    assert!(parent.satisfies(&rt, &spec));
    let child = parent.isolate(&mut rt, key, Symbol::intern("other"));
    assert!(!child.satisfies(&rt, &spec), "the child resolves to another realm");
}

#[test]
fn isolation_binds_same_key_independently() {
    let (mut rt, parent) = root();
    let key = Symbol::intern(KeyA::SYMBOL);
    let a = parent.isolate(&mut rt, key.clone(), Symbol::intern("realm-a"));
    let b = parent.isolate(&mut rt, key, Symbol::intern("realm-b"));
    let da = a.set::<KeyA>(&mut rt, String::from("va")).unwrap();
    let _ = b.set::<KeyA>(&mut rt, String::from("vb")).unwrap();
    assert_eq!(a.get::<KeyA>(&rt).unwrap(), "va");
    assert_eq!(b.get::<KeyA>(&rt).unwrap(), "vb");
    assert!(matches!(parent.get::<KeyA>(&rt), Err(StoreError::NotBound(_))));
    rt.dispose(da);
    assert!(matches!(a.get::<KeyA>(&rt), Err(StoreError::NotBound(_))));
    assert_eq!(b.get::<KeyA>(&rt).unwrap(), "vb");
}

/// Interception metadata for the tests: path sets are merged by union, the
/// read-only flag is right-biased.
#[derive(Clone, Debug, PartialEq, Eq, Default)]
pub struct PathMeta {
    pub paths: BTreeSet<String>,
    pub read_only: bool,
}

impl InterceptMeta for PathMeta {
    fn merge(existing: &Self, new: &Self) -> Self {
        let mut paths = existing.paths.clone();
        paths.extend(new.paths.iter().cloned());
        PathMeta { paths, read_only: new.read_only }
    }

    fn to_value(&self) -> Value {
        let flag = if self.read_only { "1" } else { "0" };
        let paths: Vec<String> = self.paths.iter().cloned().collect();
        Value::Text(format!("{}|{}", flag, paths.join(",")))
    }

    fn from_value(v: &Value) -> Option<Self> {
        match v {
            Value::Text(s) => {
                let (flag, rest) = s.split_once('|')?;
                let paths = if rest.is_empty() {
                    BTreeSet::new()
                } else {
                    rest.split(',').map(|p| p.to_string()).collect()
                };
                Some(PathMeta { paths, read_only: flag == "1" })
            }
            _ => None,
        }
    }
}

#[test]
fn intercept_merges_right_biased_and_derives() {
    let (mut rt, ctx) = root();
    let key = Symbol::intern("fs");
    let c1 = ctx.intercept(
        &mut rt,
        key.clone(),
        PathMeta { paths: ["/a".to_string()].into_iter().collect(), read_only: false },
    );
    let c2 = c1.intercept(
        &mut rt,
        key.clone(),
        PathMeta { paths: ["/b".to_string()].into_iter().collect(), read_only: true },
    );
    assert_eq!(
        c2.intercept_of::<PathMeta>(&rt, key.clone()),
        Some(PathMeta {
            paths: ["/a".to_string(), "/b".to_string()].into_iter().collect(),
            read_only: true,
        })
    );
    assert_eq!(ctx.intercept_of::<PathMeta>(&rt, key.clone()), None);
    assert_eq!(
        c1.intercept_of::<PathMeta>(&rt, key),
        Some(PathMeta { paths: ["/a".to_string()].into_iter().collect(), read_only: false })
    );
}

struct Counter(Rc<Cell<u32>>);

impl Reactor for Counter {
    fn react(&mut self, _env: &mut Env, _ctx: Context, _realms: &Vec<Symbol>) {
        self.0.set(self.0.get() + 1);
    }
}

#[test]
fn notify_reactor_can_register_new_reactor() {
    // A reactor is handed the environment, not the runtime: registration
    // happens between notifications, and a reactor registered after a
    // notification is not called for it.
    let (mut rt, ctx) = root();
    let calls = Rc::new(Cell::new(0));
    let later = Rc::new(Cell::new(0));
    rt.on_notify(Box::new(Counter(Rc::clone(&calls))));
    let _ = ctx.set::<KeyA>(&mut rt, String::from("va")).unwrap();
    rt.on_notify(Box::new(Counter(Rc::clone(&later))));
    assert_eq!(calls.get(), 1, "the new reactor does not fire for this round");
    assert_eq!(later.get(), 0);
}

struct KeyWide;
impl Key for KeyWide {
    type Value = u64;
    const SYMBOL: &'static str = "b";
}

#[test]
fn a_key_of_another_value_type_is_a_type_mismatch() {
    let (mut rt, ctx) = root();
    let _ = ctx.set::<KeyWide>(&mut rt, 7u64).unwrap();
    assert!(matches!(ctx.get::<KeyB>(&rt), Err(StoreError::TypeMismatch(_))), "a u64 does not read back as a u32");
    assert_eq!(ctx.get::<KeyWide>(&rt).unwrap(), 7);
}
