use std::cell::Cell;
use std::rc::Rc;

use cordis::component::{Component, Effects};
use cordis::effect::{inverse, noop, Disposer, EffectIter, Step};
use cordis::env::{Context, Env};
use cordis::fiber::{FiberError, FiberId, FiberState};
use cordis::keyset::KeySet;
use cordis::runtime::{RegistryError, Runtime};
use cordis::symbol::Symbol;
use cordis::value::{Key, Value};

struct K0;
impl Key for K0 {
    type Value = u64;
    const SYMBOL: &'static str = "k0";
}
struct K1;
impl Key for K1 {
    type Value = u64;
    const SYMBOL: &'static str = "k1";
}
struct K2;
impl Key for K2 {
    type Value = u64;
    const SYMBOL: &'static str = "k2";
}
struct K3;
impl Key for K3 {
    type Value = u64;
    const SYMBOL: &'static str = "k3";
}
struct K4;
impl Key for K4 {
    type Value = u64;
    const SYMBOL: &'static str = "k4";
}

fn s(name: &str) -> Symbol {
    Symbol::intern(name)
}

fn spec(names: &[&str]) -> KeySet {
    KeySet::from_vec(names.iter().map(|n| s(n)).collect())
}

/// Binds one key of the test universe to 1.
fn bind(env: &mut Env, ctx: Context, key: &str) -> Disposer {
    let inv = match key {
        "k0" => env.set::<K0>(ctx, 1),
        "k1" => env.set::<K1>(ctx, 1),
        "k2" => env.set::<K2>(ctx, 1),
        "k3" => env.set::<K3>(ctx, 1),
        "k4" => env.set::<K4>(ctx, 1),
        other => panic!("a symbol outside the key universe: {other}"),
    };
    inverse(inv.expect("test binding"))
}

/// Binds each provided key, one step each.
struct MultiIter {
    ctx: Context,
    provide: Vec<String>,
    i: usize,
}

impl EffectIter for MultiIter {
    fn next(&mut self, env: &mut Env) -> Step {
        if self.i < self.provide.len() {
            let key = self.provide[self.i].clone();
            self.i += 1;
            Step::Yielded(bind(env, self.ctx, &key))
        } else {
            Step::Finished(noop())
        }
    }
}

/// Injects `inject`, binds each of `provide`.
struct Node {
    inject: Vec<&'static str>,
    provide: Vec<&'static str>,
}

impl Component for Node {
    fn inject(&self) -> KeySet {
        spec(&self.inject)
    }
    fn provide(&self) -> KeySet {
        spec(&self.provide)
    }
    fn apply(&self, ctx: Context, _config: &Value, _env: &mut Env) -> Effects {
        Effects::new(Box::new(MultiIter { ctx, provide: self.provide.iter().map(|k| k.to_string()).collect(), i: 0 }))
    }
}

fn provider(keys: &[&'static str]) -> Box<dyn Component> {
    Box::new(Node { inject: vec![], provide: keys.to_vec() })
}

fn node(inject: &[&'static str], provide: &[&'static str]) -> Box<dyn Component> {
    Box::new(Node { inject: inject.to_vec(), provide: provide.to_vec() })
}

fn use_at(rt: &mut Runtime, root: Context, c: Box<dyn Component>) -> Result<FiberId, RegistryError> {
    root.use_component(rt, c, Value::Flag(false)).map(|f| f.id())
}

fn active(rt: &Runtime, f: FiberId) -> bool {
    matches!(rt.fiber(f).expect("registered").state(), FiberState::Active { .. })
}

fn inactive(rt: &Runtime, f: FiberId) -> bool {
    matches!(rt.fiber(f).expect("registered").state(), FiberState::Inactive(_))
}

fn bound(rt: &Runtime, key: &str) -> bool {
    rt.store().contains(s(key))
}

/// The registry's well-formedness: parents are registered, provisions are
/// pairwise disjoint, an active fiber's view covers exactly its
/// specification with registered, active providers.
fn assert_well_formed(rt: &Runtime, members_seen: &[FiberId]) {
    let members: Vec<_> = members_seen.iter().filter_map(|id| rt.fiber(*id)).collect();
    for f in &members {
        if let Some(parent) = f.parent() {
            assert!(rt.fiber(parent).is_some(), "the parent of {:?} is registered", f.id());
        }
    }
    for (i, a) in members.iter().enumerate() {
        for b in &members[i + 1..] {
            assert!(!a.provide().intersects(b.provide()), "{:?} and {:?} provide disjoint keys", a.id(), b.id());
        }
    }
    for f in &members {
        let FiberState::Active { view } = f.state() else { continue };
        let inject = f.inject().iter();
        assert_eq!(view.len(), inject.len(), "the view of {:?} covers its specification", f.id());
        for k in inject {
            let p = view.get(k).expect("a provider for each declared key");
            assert!(matches!(rt.fiber(p).expect("a registered provider").state(), FiberState::Active { .. }), "the provider is active");
        }
    }
}

#[test]
fn thm59_wellformedness_preserved_throughout_orchestration() {
    let mut rt = Runtime::new();
    let root = rt.context();
    let mut members_seen: Vec<FiberId> = Vec::new();

    let a = use_at(&mut rt, root, provider(&["k0"])).expect("a");
    members_seen.push(a);
    assert!(active(&rt, a));
    assert_well_formed(&rt, &members_seen);

    let b = use_at(&mut rt, root, node(&["k0"], &["k1"])).expect("b");
    members_seen.push(b);
    let c = use_at(&mut rt, root, node(&["k1"], &["k2"])).expect("c");
    members_seen.push(c);
    assert!(active(&rt, b) && active(&rt, c), "the chain a -> b -> c is active");
    assert_well_formed(&rt, &members_seen);

    let d = use_at(&mut rt, root, provider(&["k3"])).expect("d");
    members_seen.push(d);
    assert_well_formed(&rt, &members_seen);

    rt.retire(b);
    assert!(inactive(&rt, b) && inactive(&rt, c), "retiring b deactivates c");
    assert!(active(&rt, a) && active(&rt, d));
    assert_well_formed(&rt, &members_seen);

    rt.retire(c);
    rt.remove_fiber(c).expect("remove c");
    rt.remove_fiber(b).expect("remove b");
    let b2 = use_at(&mut rt, root, node(&["k0"], &["k1"])).expect("b2");
    members_seen.push(b2);
    let c2 = use_at(&mut rt, root, node(&["k1"], &["k2"])).expect("c2");
    members_seen.push(c2);
    assert!(active(&rt, b2) && active(&rt, c2));
    assert_well_formed(&rt, &members_seen);

    rt.retire(a);
    assert!(inactive(&rt, b2) && inactive(&rt, c2));
    assert_well_formed(&rt, &members_seen);
    rt.retire(c2);
    rt.retire(b2);
    rt.retire(d);
    for f in [c2, b2, d, a] {
        rt.remove_fiber(f).expect("remove");
    }
    assert_well_formed(&rt, &members_seen);
    assert!(rt.is_quiet());
}

#[test]
fn thm61_recovery_exactness_with_interleaved_fibers() {
    let mut rt = Runtime::new();
    let root = rt.context();
    let a = use_at(&mut rt, root, provider(&["k0"])).expect("a");
    let c = use_at(&mut rt, root, node(&["k0"], &["k1"])).expect("c");
    let b = use_at(&mut rt, root, provider(&["k2"])).expect("b");
    let d = use_at(&mut rt, root, node(&["k1"], &[])).expect("d");
    assert!(active(&rt, a) && active(&rt, c) && active(&rt, b) && active(&rt, d));
    assert!(["k0", "k1", "k2"].iter().all(|k| bound(&rt, k)));

    rt.retire(b);
    assert!(inactive(&rt, b));
    assert!(active(&rt, a) && active(&rt, c) && active(&rt, d), "the others are untouched");
    assert!(bound(&rt, "k0") && bound(&rt, "k1"), "the others' contributions stay");
    assert!(!bound(&rt, "k2"), "b's contribution is withdrawn");

    rt.retire(c);
    assert!(inactive(&rt, c) && inactive(&rt, d));
    assert!(bound(&rt, "k0"));
    assert!(!bound(&rt, "k1"));

    rt.retire(a);
    assert!(rt.store().symbols().is_empty(), "everything is withdrawn");
    assert!(rt.is_quiet());
}

#[test]
fn thm61_recovery_exactness_retiring_oldest_first() {
    let mut rt = Runtime::new();
    let root = rt.context();
    let a = use_at(&mut rt, root, provider(&["k0", "k1"])).expect("a");
    let b = use_at(&mut rt, root, provider(&["k2", "k3"])).expect("b");
    let c = use_at(&mut rt, root, provider(&["k4"])).expect("c");
    assert!(active(&rt, a) && active(&rt, b) && active(&rt, c));

    rt.retire(a);
    assert!(inactive(&rt, a));
    assert!(active(&rt, b) && active(&rt, c));
    assert!(!bound(&rt, "k0") && !bound(&rt, "k1"), "a's contribution is withdrawn");
    assert!(bound(&rt, "k2") && bound(&rt, "k3") && bound(&rt, "k4"), "the others' stay");

    rt.retire(c);
    assert!(!bound(&rt, "k4"));
    assert!(bound(&rt, "k2") && bound(&rt, "k3"));

    rt.retire(b);
    assert!(rt.store().symbols().is_empty());
    assert!(rt.is_quiet());
}

/// Counts the steps of its iterator: `k` yields, then it finishes.
struct Probe {
    k: usize,
    steps: Rc<Cell<usize>>,
}

struct ProbeIter {
    left: usize,
    steps: Rc<Cell<usize>>,
}

impl EffectIter for ProbeIter {
    fn next(&mut self, _env: &mut Env) -> Step {
        self.steps.set(self.steps.get() + 1);
        if self.left > 0 {
            self.left -= 1;
            Step::Yielded(noop())
        } else {
            Step::Finished(noop())
        }
    }
}

impl Component for Probe {
    fn inject(&self) -> KeySet {
        spec(&["k0"])
    }
    fn provide(&self) -> KeySet {
        spec(&[])
    }
    fn apply(&self, _ctx: Context, _config: &Value, _env: &mut Env) -> Effects {
        Effects::new(Box::new(ProbeIter { left: self.k, steps: Rc::clone(&self.steps) }))
    }
}

#[test]
fn thm66_progress_quantitative_bound() {
    const K: usize = 5;
    let mut rt = Runtime::new();
    let root = rt.context();
    let steps = Rc::new(Cell::new(0usize));
    let n = use_at(&mut rt, root, Box::new(Probe { k: K, steps: Rc::clone(&steps) })).expect("n");
    assert!(inactive(&rt, n), "no provider: n is inactive");

    let mut v_turns = 0usize;
    let p1 = use_at(&mut rt, root, provider(&["k0"])).expect("p1");
    v_turns += 1;
    assert!(active(&rt, n));
    assert!(rt.is_quiet());

    rt.retire(p1);
    rt.remove_fiber(p1).expect("remove p1");
    v_turns += 1;
    assert!(inactive(&rt, n));
    assert!(rt.is_quiet());

    let p2 = use_at(&mut rt, root, provider(&["k0"])).expect("p2");
    v_turns += 1;
    assert!(active(&rt, n));
    assert!(rt.is_quiet());

    rt.retire(p2);
    rt.remove_fiber(p2).expect("remove p2");
    v_turns += 1;
    assert!(inactive(&rt, n));
    assert!(rt.is_quiet());

    let p3 = use_at(&mut rt, root, provider(&["k0"])).expect("p3");
    v_turns += 1;
    assert!(active(&rt, n));
    assert!(rt.is_quiet());

    rt.retire(p3);
    v_turns += 1;
    assert!(inactive(&rt, n));
    rt.remove_fiber(p3).expect("remove p3");
    rt.retire(n);
    rt.remove_fiber(n).expect("remove n");
    assert!(rt.store().symbols().is_empty());
    assert!(rt.is_quiet());

    let bound = (K + 4) * (v_turns + 1);
    assert!(steps.get() <= bound, "effect steps {} <= (K+4)(V+1) = {bound}", steps.get());
    let episodes = v_turns / 2;
    assert!(steps.get() <= (K + 1) * episodes, "each activation takes at most K+1 steps");
}

/// Provides `db`: binds it to the current value (or `v0`), counting runs.
struct CountingProvider(Rc<Cell<u64>>);

struct Db;
impl Key for Db {
    type Value = String;
    const SYMBOL: &'static str = "db";
}

struct CountingIter {
    ctx: Context,
    count: Rc<Cell<u64>>,
}

impl EffectIter for CountingIter {
    fn next(&mut self, env: &mut Env) -> Step {
        self.count.set(self.count.get() + 1);
        let value = env.get::<Db>(self.ctx).unwrap_or_else(|_| "v0".to_string());
        Step::Finished(inverse(env.set::<Db>(self.ctx, value).expect("bind db")))
    }
}

impl Component for CountingProvider {
    fn inject(&self) -> KeySet {
        spec(&[])
    }
    fn provide(&self) -> KeySet {
        spec(&["db"])
    }
    fn apply(&self, ctx: Context, _config: &Value, _env: &mut Env) -> Effects {
        Effects::new(Box::new(CountingIter { ctx, count: Rc::clone(&self.0) }))
    }
}

#[test]
fn fiber_update_reruns_in_place_keeping_identity() {
    let mut rt = Runtime::new();
    let root = rt.context();
    let count = Rc::new(Cell::new(0u64));
    let provider = root.use_component(&mut rt, Box::new(CountingProvider(Rc::clone(&count))), Value::Count(0)).expect("provider");
    let consumer = root.use_component(&mut rt, node(&["db"], &[]), Value::Flag(false)).expect("consumer");
    assert!(active(&rt, provider.id()) && active(&rt, consumer.id()));
    assert_eq!(rt.store().get::<Db>().unwrap(), "v0");
    let base = count.get();

    assert!(provider.update(&mut rt, Value::Count(1)), "an active fiber reruns");
    assert!(rt.fiber(provider.id()).is_some(), "the same fiber");
    assert_eq!(count.get() - base, 1, "the effect reran exactly once");
    assert!(active(&rt, provider.id()));
    assert!(active(&rt, consumer.id()), "the dependent is back");
    assert_eq!(rt.fiber(provider.id()).unwrap().config(), &Value::Count(1), "the new configuration");
    assert!(rt.is_quiet());
}

/// Binds k0 in its first step, fails in its second.
struct FailAfterFirst;

struct FailIter {
    ctx: Context,
    step: usize,
}

impl EffectIter for FailIter {
    fn next(&mut self, env: &mut Env) -> Step {
        if self.step == 0 {
            self.step = 1;
            Step::Yielded(bind(env, self.ctx, "k0"))
        } else {
            Step::Failed(FiberError::new("the iterator's second step fails".to_string()))
        }
    }
}

impl Component for FailAfterFirst {
    fn inject(&self) -> KeySet {
        spec(&[])
    }
    fn provide(&self) -> KeySet {
        spec(&["k0"])
    }
    fn apply(&self, ctx: Context, _config: &Value, _env: &mut Env) -> Effects {
        Effects::new(Box::new(FailIter { ctx, step: 0 }))
    }
}

#[test]
fn l_raise_records_error_outcome_and_recovers_completed_steps() {
    let mut rt = Runtime::new();
    let root = rt.context();
    let f = use_at(&mut rt, root, Box::new(FailAfterFirst)).expect("instantiated: a failure does not panic");
    match rt.fiber(f).unwrap().state() {
        FiberState::Inactive(Some(err)) => assert!(err.message().contains("second step fails")),
        other => panic!("a failed outcome is expected, not {other:?}"),
    }
    assert!(rt.store().symbols().is_empty(), "the completed step was undone");
    assert!(rt.is_quiet(), "a failed fiber is quiet");
    assert!(rt.active_fibers().is_empty());
}

/// Injects k1; fails on its first activation only.
struct FailOnce(Rc<Cell<u32>>);

struct FailStep;
impl EffectIter for FailStep {
    fn next(&mut self, _env: &mut Env) -> Step {
        Step::Failed(FiberError::new("the first activation fails".to_string()))
    }
}

struct DoneStep;
impl EffectIter for DoneStep {
    fn next(&mut self, _env: &mut Env) -> Step {
        Step::Finished(noop())
    }
}

impl Component for FailOnce {
    fn inject(&self) -> KeySet {
        spec(&["k1"])
    }
    fn provide(&self) -> KeySet {
        spec(&[])
    }
    fn apply(&self, _ctx: Context, _config: &Value, _env: &mut Env) -> Effects {
        let attempt = self.0.get();
        self.0.set(attempt + 1);
        if attempt == 0 {
            Effects::new(Box::new(FailStep))
        } else {
            Effects::new(Box::new(DoneStep))
        }
    }
}

#[test]
fn l_raise_failed_fiber_can_retry_activation() {
    let mut rt = Runtime::new();
    let root = rt.context();
    let p = use_at(&mut rt, root, provider(&["k1"])).expect("provider");
    let f = use_at(&mut rt, root, Box::new(FailOnce(Rc::new(Cell::new(0))))).expect("fiber");
    assert!(matches!(rt.fiber(f).unwrap().state(), FiberState::Inactive(Some(_))), "the first activation fails");
    assert!(rt.is_quiet());

    rt.retire(p);
    rt.remove_fiber(p).expect("remove the provider");
    let p2 = use_at(&mut rt, root, provider(&["k1"])).expect("provider again");
    assert!(active(&rt, f), "the retry activates");
    rt.retire(p2);
    assert!(rt.is_quiet());
}

/// Provides k1: the first activation binds and finishes, a later one binds
/// and then fails.
struct FailProvider(Rc<Cell<u32>>);

struct FailBindIter {
    ctx: Context,
    attempt: u32,
    step: usize,
}

impl EffectIter for FailBindIter {
    fn next(&mut self, env: &mut Env) -> Step {
        if self.step == 0 {
            self.step = 1;
            Step::Yielded(bind(env, self.ctx, "k1"))
        } else if self.attempt == 0 {
            Step::Finished(noop())
        } else {
            Step::Failed(FiberError::new("the second activation fails".to_string()))
        }
    }
}

impl Component for FailProvider {
    fn inject(&self) -> KeySet {
        spec(&[])
    }
    fn provide(&self) -> KeySet {
        spec(&["k1"])
    }
    fn apply(&self, ctx: Context, _config: &Value, _env: &mut Env) -> Effects {
        let attempt = self.0.get();
        self.0.set(attempt + 1);
        Effects::new(Box::new(FailBindIter { ctx, attempt, step: 0 }))
    }
}

#[test]
fn l_raise_failure_unload_recovers_and_notifies() {
    let attempts = Rc::new(Cell::new(0u32));
    let mut rt = Runtime::new();
    let root = rt.context();
    let provider = use_at(&mut rt, root, Box::new(FailProvider(Rc::clone(&attempts)))).expect("provider");
    let consumer = use_at(&mut rt, root, node(&["k1"], &[])).expect("consumer");
    assert!(active(&rt, consumer), "the first activation succeeds");
    assert!(bound(&rt, "k1"));

    rt.retire(provider);
    rt.remove_fiber(provider).expect("remove the provider");
    let provider2 = use_at(&mut rt, root, Box::new(FailProvider(attempts))).expect("provider again");
    match rt.fiber(provider2).unwrap().state() {
        FiberState::Inactive(Some(err)) => assert!(err.message().contains("second activation fails")),
        other => panic!("a failed outcome is expected, not {other:?}"),
    }
    assert!(inactive(&rt, consumer), "the dependent stays inactive");
    assert!(rt.store().symbols().is_empty(), "the completed step was undone");
    assert!(rt.is_quiet());
}

#[test]
fn undo_restores_the_table() {
    let mut rt = Runtime::new();
    let root = rt.context();
    let before = rt.store().symbols().len();
    let d = rt.set::<K0>(root, 7).expect("bind k0");
    assert!(bound(&rt, "k0"));
    rt.dispose(d);
    assert_eq!(rt.store().symbols().len(), before, "the inverse restores the table");
    assert!(!bound(&rt, "k0"));
}
