use cordis::component::{Component, Effects};
use cordis::effect::{inverse, once, with_ctx, Disposer, EffectIter, Step, Undo};
use cordis::env::{Context, Env};
use cordis::fiber::{FiberId, FiberState};
use cordis::keyset::KeySet;
use cordis::runtime::{RegistryError, Runtime};
use cordis::symbol::Symbol;
use cordis::value::{Key, Value};

struct DbKey;
impl Key for DbKey {
    type Value = String;
    const SYMBOL: &'static str = "db";
}

struct AppKey;
impl Key for AppKey {
    type Value = String;
    const SYMBOL: &'static str = "app";
}

struct ChildKey;
impl Key for ChildKey {
    type Value = String;
    const SYMBOL: &'static str = "child";
}

struct K1Key;
impl Key for K1Key {
    type Value = usize;
    const SYMBOL: &'static str = "k1";
}

struct K2Key;
impl Key for K2Key {
    type Value = usize;
    const SYMBOL: &'static str = "k2";
}

fn sym(name: &str) -> Symbol {
    Symbol::intern(name)
}

fn spec(names: &[&str]) -> KeySet {
    KeySet::from_vec(names.iter().map(|s| sym(s)).collect())
}

type Program = Box<dyn Fn(Context, &mut Env) -> Box<dyn EffectIter>>;

struct TestComponent {
    inject: KeySet,
    provide: KeySet,
    effects: Program,
}

impl Component for TestComponent {
    fn inject(&self) -> KeySet {
        self.inject.clone()
    }
    fn provide(&self) -> KeySet {
        self.provide.clone()
    }
    fn apply(&self, ctx: Context, _config: &Value, env: &mut Env) -> Effects {
        Effects::new((self.effects)(ctx, env))
    }
}

fn provider(db_value: &'static str) -> Box<TestComponent> {
    Box::new(TestComponent {
        inject: spec(&[]),
        provide: spec(&["db"]),
        effects: Box::new(move |ctx, _env| {
            Box::new(once(move |env: &mut Env| {
                inverse(env.set::<DbKey>(ctx, db_value.to_string()).expect("bind db"))
            }))
        }),
    })
}

fn consumer() -> Box<TestComponent> {
    Box::new(TestComponent {
        inject: spec(&["db"]),
        provide: spec(&["app"]),
        effects: Box::new(|ctx, _env| {
            Box::new(once(move |env: &mut Env| {
                let db = env.get::<DbKey>(ctx).expect("the dependency is provided");
                inverse(env.set::<AppKey>(ctx, format!("app({db})")).expect("bind app"))
            }))
        }),
    })
}

struct AssertReadable {
    ctx: Context,
}

impl Undo for AssertReadable {
    fn undo(&mut self, env: &mut Env) {
        assert!(
            env.get::<DbKey>(self.ctx).is_ok(),
            "the dependency stays readable during the dependent's teardown"
        );
    }
}

struct TwoStepTeardown {
    ctx: Context,
    step: usize,
}

impl EffectIter for TwoStepTeardown {
    fn next(&mut self, env: &mut Env) -> Step {
        self.step += 1;
        match self.step {
            1 => {
                let db = env.get::<DbKey>(self.ctx).expect("the dependency is provided");
                Step::Yielded(inverse(env.set::<AppKey>(self.ctx, format!("app({db})")).expect("bind app")))
            }
            2 => Step::Finished(Disposer::Custom(Box::new(AssertReadable { ctx: self.ctx }))),
            _ => panic!("the iterator ends after two steps"),
        }
    }
}

fn consumer_asserting_readable_teardown() -> Box<TestComponent> {
    Box::new(TestComponent {
        inject: spec(&["db"]),
        provide: spec(&["app"]),
        effects: Box::new(|ctx, _env| Box::new(TwoStepTeardown { ctx, step: 0 })),
    })
}

fn state_of(rt: &Runtime, id: FiberId) -> FiberState {
    rt.fiber(id).expect("registered").state().duplicate()
}

fn is_active(rt: &Runtime, id: FiberId) -> bool {
    matches!(state_of(rt, id), FiberState::Active { .. })
}

fn is_inactive(rt: &Runtime, id: FiberId) -> bool {
    matches!(state_of(rt, id), FiberState::Inactive(_))
}

#[test]
fn use_activates_when_dependencies_satisfied() {
    let mut rt = Runtime::new();
    let root = rt.context();
    let a = root.use_component(&mut rt, provider("pg"), Value::Flag(false)).unwrap();
    assert!(matches!(a.state(), FiberState::Active { .. }));
    assert_eq!(
        rt.store().binding(sym("db")).and_then(|b| b.provider),
        Some(a.id())
    );
    assert_eq!(root.get::<DbKey>(&rt).unwrap(), "pg");
}

#[test]
fn dependency_ordering_both_orders() {
    let mut rt = Runtime::new();
    let root = rt.context();
    let b = root.use_component(&mut rt, consumer(), Value::Flag(false)).unwrap();
    assert!(is_inactive(&rt, b.id()), "unsatisfied dependencies keep it inactive");
    let a = root.use_component(&mut rt, provider("pg"), Value::Flag(false)).unwrap();
    assert!(is_active(&rt, a.id()));
    assert!(is_active(&rt, b.id()), "the provider's activation activates the dependent");
    assert_eq!(root.get::<AppKey>(&rt).unwrap(), "app(pg)");
}

#[test]
fn withdrawal_cascade_disposes_dependents_first() {
    let mut rt = Runtime::new();
    let root = rt.context();
    let a = root.use_component(&mut rt, provider("pg"), Value::Flag(false)).unwrap();
    let b = root
        .use_component(&mut rt, consumer_asserting_readable_teardown(), Value::Flag(false))
        .unwrap();
    assert!(is_active(&rt, b.id()));
    a.retire(&mut rt);
    assert!(is_inactive(&rt, a.id()));
    assert!(is_inactive(&rt, b.id()), "the dependent unloads in cascade");
    assert!(root.get::<DbKey>(&rt).is_err(), "the binding is revoked");
    assert!(root.get::<AppKey>(&rt).is_err());
}

#[test]
fn parent_unload_cascades_to_children() {
    let mut rt = Runtime::new();
    let root = rt.context();
    let child_comp = Box::new(TestComponent {
        inject: spec(&[]),
        provide: spec(&["child"]),
        effects: Box::new(|ctx, _env| {
            Box::new(once(move |env: &mut Env| {
                inverse(env.set::<ChildKey>(ctx, "c".to_string()).expect("bind child"))
            }))
        }),
    });
    let child_index = rt.add_component(child_comp);
    let parent_comp = Box::new(TestComponent {
        inject: spec(&[]),
        provide: spec(&["k1"]),
        effects: Box::new(move |ctx, env| {
            let _child = env.register(ctx, child_index, Value::Flag(false)).unwrap();
            Box::new(once(move |env: &mut Env| inverse(env.set::<K1Key>(ctx, 1).expect("bind k1"))))
        }),
    });
    let parent = root.use_component(&mut rt, parent_comp, Value::Flag(false)).unwrap();
    let child = rt
        .env()
        .fibers()
        .iter()
        .find(|f| f.provide().contains(sym("child")))
        .map(|f| f.id())
        .expect("the child is registered");
    assert!(is_active(&rt, child));

    parent.retire(&mut rt);
    assert!(is_inactive(&rt, parent.id()));
    assert!(is_inactive(&rt, child), "the child unloads with its parent");
    assert_eq!(rt.remove_fiber(parent.id()), Err(RegistryError::HasChildren));
}

#[test]
fn target_change_mid_reload_chains_unload() {
    struct SelfRetiring {
        ctx: Context,
        step: usize,
    }
    impl EffectIter for SelfRetiring {
        fn next(&mut self, env: &mut Env) -> Step {
            self.step += 1;
            match self.step {
                1 => Step::Yielded(inverse(env.set::<K1Key>(self.ctx, 1).expect("bind k1"))),
                2 => {
                    let me = env.fiber_of(self.ctx).expect("a fiber context");
                    env.retire(me);
                    Step::Finished(inverse(env.set::<K2Key>(self.ctx, 2).expect("bind k2")))
                }
                _ => panic!("the iterator ends after two steps"),
            }
        }
    }
    let mut rt = Runtime::new();
    let root = rt.context();
    let comp = Box::new(TestComponent {
        inject: spec(&[]),
        provide: spec(&["k1", "k2"]),
        effects: Box::new(|ctx, _env| Box::new(SelfRetiring { ctx, step: 0 })),
    });
    let fiber = root.use_component(&mut rt, comp, Value::Flag(false)).unwrap();
    assert!(is_inactive(&rt, fiber.id()), "retired mid-reload: unloads at once");
    assert!(rt.fiber(fiber.id()).unwrap().retired());
    assert!(root.get::<K1Key>(&rt).is_err(), "the applied steps are recovered");
    assert!(root.get::<K2Key>(&rt).is_err());
    assert!(rt.is_quiet());
}

#[test]
fn runtime_provision_clash_rejected() {
    let mut rt = Runtime::new();
    let root = rt.context();
    root.use_component(&mut rt, provider("pg"), Value::Flag(false)).unwrap();
    assert!(matches!(
        root.use_component(&mut rt, provider("mysql"), Value::Flag(false)),
        Err(RegistryError::ProvisionClash)
    ));
}

#[test]
fn runtime_remove_preconditions() {
    let mut rt = Runtime::new();
    let root = rt.context();
    let a = root.use_component(&mut rt, provider("pg"), Value::Flag(false)).unwrap();
    assert_eq!(rt.remove_fiber(a.id()), Err(RegistryError::NotRetired));
    a.retire(&mut rt);
    assert_eq!(rt.remove_fiber(a.id()), Ok(()));
    assert!(rt.fiber(a.id()).is_none());
    assert_eq!(rt.remove_fiber(a.id()), Err(RegistryError::UnknownFiber));
}

#[test]
fn quiet_after_activation_and_cascade() {
    let mut rt = Runtime::new();
    let root = rt.context();
    assert!(rt.is_quiet(), "an empty registry is quiet");
    let a = root.use_component(&mut rt, provider("pg"), Value::Flag(false)).unwrap();
    let b = root.use_component(&mut rt, consumer(), Value::Flag(false)).unwrap();
    assert!(rt.is_quiet());
    a.retire(&mut rt);
    assert!(rt.is_quiet(), "quiet again after the cascade");
    assert!(is_inactive(&rt, b.id()));
}

#[test]
fn isolated_provider_notifies_dependents() {
    let mut rt = Runtime::new();
    let root = rt.context();
    let realm = Symbol::intern("realm-db");
    let ctx_a = root.isolate(&mut rt, sym("db"), realm.clone());
    let ctx_b = root.isolate(&mut rt, sym("db"), realm);
    let a = ctx_a.use_component(&mut rt, provider("pg"), Value::Flag(false)).unwrap();
    let b = ctx_b.use_component(&mut rt, consumer(), Value::Flag(false)).unwrap();
    assert!(is_active(&rt, b.id()), "an isolated provider's activation reaches its dependent");
    assert!(root.get::<DbKey>(&rt).is_err(), "the root resolves to its own realm");
    a.retire(&mut rt);
    assert!(is_inactive(&rt, a.id()));
    assert!(is_inactive(&rt, b.id()), "the withdrawal cascades through the realm");
    assert!(rt.is_quiet());
}

#[test]
fn cross_isolation_blocks_dependency() {
    let mut rt = Runtime::new();
    let root = rt.context();
    let ctx_a = root.isolate(&mut rt, sym("db"), Symbol::intern("realm-a"));
    let ctx_c = root.isolate(&mut rt, sym("db"), Symbol::intern("realm-b"));
    let a = ctx_a.use_component(&mut rt, provider("pg"), Value::Flag(false)).unwrap();
    let c = ctx_c.use_component(&mut rt, consumer(), Value::Flag(false)).unwrap();
    assert!(is_active(&rt, a.id()));
    assert!(is_inactive(&rt, c.id()), "another realm's binding is invisible");
    a.retire(&mut rt);
    assert!(is_inactive(&rt, c.id()));
    assert!(rt.is_quiet());
}

struct GreetKey;
impl Key for GreetKey {
    type Value = String;
    const SYMBOL: &'static str = "greet";
}

struct Greeter;

impl Component for Greeter {
    fn inject(&self) -> KeySet {
        KeySet::new()
    }
    fn provide(&self) -> KeySet {
        KeySet::from_vec(vec![Symbol::intern("greet")])
    }
    fn apply(&self, ctx: Context, _config: &Value, _env: &mut Env) -> Effects {
        Effects::new(Box::new(with_ctx(ctx, |ctx: Context, env: &mut Env| {
            inverse(env.set::<GreetKey>(ctx, "hi".to_string()).expect("bind greet"))
        })))
    }
}

#[test]
fn with_ctx_component_activates_and_binds() {
    let mut rt = Runtime::new();
    let root = rt.context();
    let fiber = root
        .use_component(&mut rt, Box::new(Greeter), Value::Flag(false))
        .expect("instantiated");
    assert!(matches!(fiber.state(), FiberState::Active { .. }), "no dependency: active at once");
    assert_eq!(root.get::<GreetKey>(&rt).unwrap(), "hi");
}
