use cordis::component::{Component, Effects};
use cordis::effect::{inverse, noop, once, EffectIter};
use cordis::env::{Context, Env};
use cordis::fiber::FiberState;
use cordis::keyset::KeySet;
use cordis::loader::{Entry, IsolateAnnotation, Loader};
use cordis::runtime::Runtime;
use cordis::symbol::Symbol;
use cordis::value::{Key, Value};
use cordis::context::InterceptMeta;
use cordis::loader::config::Config;
use std::collections::BTreeSet;

struct ValKey;
impl Key for ValKey {
    type Value = String;
    const SYMBOL: &'static str = "val";
}

struct SumKey;
impl Key for SumKey {
    type Value = String;
    const SYMBOL: &'static str = "sum";
}

fn spec(names: &[&str]) -> KeySet {
    KeySet::from_vec(names.iter().map(|s| Symbol::intern(s)).collect())
}

fn text(v: &Value) -> String {
    match v {
        Value::Text(s) => s.clone(),
        other => panic!("a text configuration is expected, not {other:?}"),
    }
}

type Program = Box<dyn Fn(Context, &Value) -> Box<dyn EffectIter>>;

struct TestComponent {
    inject: KeySet,
    provide: KeySet,
    effects: Program,
}

impl Component for TestComponent {
    fn inject(&self) -> KeySet {
        self.inject.clone()
    }
    fn provide(&self) -> KeySet {
        self.provide.clone()
    }
    fn apply(&self, ctx: Context, config: &Value, _env: &mut Env) -> Effects {
        Effects::new((self.effects)(ctx, config))
    }
}

/// Provides `val`, bound to its configuration.
fn val_provider() -> Box<TestComponent> {
    Box::new(TestComponent {
        inject: spec(&[]),
        provide: spec(&["val"]),
        effects: Box::new(|ctx, config| {
            let value = text(config);
            Box::new(once(move |env: &mut Env| inverse(env.set::<ValKey>(ctx, value).expect("bind val"))))
        }),
    })
}

/// Provides `val`, bound to a fixed value (identifies the component).
fn fixed_val_provider(value: &str) -> Box<TestComponent> {
    let value = value.to_string();
    Box::new(TestComponent {
        inject: spec(&[]),
        provide: spec(&["val"]),
        effects: Box::new(move |ctx, _config| {
            let value = value.clone();
            Box::new(once(move |env: &mut Env| inverse(env.set::<ValKey>(ctx, value).expect("bind val"))))
        }),
    })
}

/// Injects `val`, binds `sum` from it.
fn sum_consumer() -> Box<TestComponent> {
    Box::new(TestComponent {
        inject: spec(&["val"]),
        provide: spec(&["sum"]),
        effects: Box::new(|ctx, _config| {
            Box::new(once(move |env: &mut Env| {
                let v = env.get::<ValKey>(ctx).expect("the injected val is provided");
                inverse(env.set::<SumKey>(ctx, format!("sum({v})")).expect("bind sum"))
            }))
        }),
    })
}

/// Provides `sum` from its configuration (disjoint from `val`).
fn sum_provider() -> Box<TestComponent> {
    Box::new(TestComponent {
        inject: spec(&[]),
        provide: spec(&["sum"]),
        effects: Box::new(|ctx, config| {
            let value = text(config);
            Box::new(once(move |env: &mut Env| inverse(env.set::<SumKey>(ctx, value).expect("bind sum"))))
        }),
    })
}

/// Provides `a` and `b`.
fn dual_provider() -> Box<TestComponent> {
    struct KeyA;
    impl Key for KeyA {
        type Value = String;
        const SYMBOL: &'static str = "a";
    }
    struct KeyB;
    impl Key for KeyB {
        type Value = String;
        const SYMBOL: &'static str = "b";
    }
    Box::new(TestComponent {
        inject: spec(&[]),
        provide: spec(&["a", "b"]),
        effects: Box::new(|ctx, _config| {
            Box::new(once(move |env: &mut Env| {
                let _a = env.set::<KeyA>(ctx, "va".to_string()).expect("bind a");
                let _b = env.set::<KeyB>(ctx, "vb".to_string()).expect("bind b");
                noop()
            }))
        }),
    })
}

fn entry(id: &str, component: &str, config: &str, revision: u64, disabled: bool) -> Entry {
    Entry::new(id.to_string(), component.to_string(), Value::Text(config.to_string()), revision, disabled)
}

fn loader() -> Loader {
    let mut loader = Loader::new(Runtime::new());
    loader.register_component("provider".to_string(), val_provider());
    loader.register_component("consumer".to_string(), sum_consumer());
    loader
}

fn state_active(loader: &Loader, id: &str) -> bool {
    matches!(loader.fiber(id).expect("loaded").state(), FiberState::Active { .. })
}

fn get_val(loader: &Loader, id: &str) -> String {
    let f = loader.fiber(id).expect("loaded");
    f.ctx().get::<ValKey>(loader.runtime()).expect("val bound")
}

fn contains(loader: &Loader, realm: &str) -> bool {
    loader.runtime().store().contains(Symbol::intern(realm))
}

#[test]
fn loads_entries_and_activates_in_dependency_order() {
    let mut loader = loader();
    loader.apply(&vec![
        entry("consumer", "consumer", "ignored", 1, false),
        entry("provider", "provider", "pg", 1, false),
    ]);
    assert!(state_active(&loader, "provider"));
    assert!(state_active(&loader, "consumer"), "the consumer activates once the provider does");
    assert_eq!(get_val(&loader, "provider"), "pg", "the provider binds its configuration");
    let consumer = loader.fiber("consumer").unwrap();
    assert_eq!(consumer.ctx().get::<SumKey>(loader.runtime()).unwrap(), "sum(pg)");
}

#[test]
fn apply_is_idempotent() {
    let mut loader = loader();
    let desired = vec![
        entry("provider", "provider", "pg", 1, false),
        entry("consumer", "consumer", "ignored", 1, false),
    ];
    loader.apply(&desired);
    let id_before = loader.fiber("provider").unwrap().id();
    loader.apply(&desired);
    assert_eq!(loader.fiber("provider").unwrap().id(), id_before, "unchanged entries are not rebuilt");
    assert_eq!(loader.len(), 2);
}

#[test]
fn disabled_toggle_unloads_and_reloads() {
    let mut loader = loader();
    loader.apply(&vec![entry("provider", "provider", "pg", 1, false)]);
    let first_id = loader.fiber("provider").unwrap().id();

    loader.apply(&vec![entry("provider", "provider", "pg", 1, true)]);
    assert!(loader.fiber("provider").is_none(), "a disabled entry has no fiber");
    assert!(loader.runtime().fiber(first_id).is_none(), "the old fiber left the registry");
    assert!(loader.runtime().store().symbols().is_empty(), "the binding is revoked");

    loader.apply(&vec![entry("provider", "provider", "pg", 1, false)]);
    let second = loader.fiber("provider").expect("reloaded");
    assert!(matches!(second.state(), FiberState::Active { .. }));
    assert_ne!(second.id(), first_id, "a new fiber");
    assert_eq!(get_val(&loader, "provider"), "pg");
}

#[test]
fn config_change_rebuilds_entry() {
    let mut loader = loader();
    loader.apply(&vec![entry("provider", "provider", "pg", 1, false)]);
    let first_id = loader.fiber("provider").unwrap().id();
    assert_eq!(get_val(&loader, "provider"), "pg");

    loader.apply(&vec![entry("provider", "provider", "mysql", 2, false)]);
    let rebuilt = loader.fiber("provider").expect("rebuilt");
    assert_ne!(rebuilt.id(), first_id, "a new revision rebuilds");
    assert_eq!(get_val(&loader, "provider"), "mysql");

    let id_before = rebuilt.id();
    loader.apply(&vec![entry("provider", "provider", "mysql", 2, false)]);
    assert_eq!(loader.fiber("provider").unwrap().id(), id_before);
}

#[test]
fn removed_entry_unloads_and_cascades() {
    let mut loader = loader();
    loader.apply(&vec![
        entry("provider", "provider", "pg", 1, false),
        entry("consumer", "consumer", "ignored", 1, false),
    ]);
    let provider_id = loader.fiber("provider").unwrap().id();
    let consumer_id = loader.fiber("consumer").unwrap().id();

    loader.apply(&vec![entry("consumer", "consumer", "ignored", 1, false)]);
    assert!(loader.fiber("provider").is_none());
    assert!(loader.runtime().fiber(provider_id).is_none(), "the old fiber is removed");
    assert!(
        matches!(loader.runtime().fiber(consumer_id).unwrap().state(), FiberState::Inactive(_)),
        "the dependency vanished: the consumer unloads"
    );
    assert!(loader.runtime().store().symbols().is_empty(), "every binding is revoked");
}

#[test]
fn same_supply_replacement_in_single_apply() {
    let mut loader = loader();
    loader.register_component("provider2".to_string(), val_provider());
    loader.apply(&vec![entry("old", "provider", "pg", 1, false)]);
    let old_id = loader.fiber("old").unwrap().id();
    assert_eq!(get_val(&loader, "old"), "pg");

    loader.apply(&vec![entry("new", "provider2", "mysql", 1, false)]);
    assert!(loader.fiber("old").is_none(), "the old entry is removed");
    assert!(loader.runtime().fiber(old_id).is_none(), "the old fiber left the registry");
    let new_fiber = loader.fiber("new").expect("the new entry is instantiated");
    assert!(matches!(new_fiber.state(), FiberState::Active { .. }));
    assert_eq!(get_val(&loader, "new"), "mysql", "the new entry uses its configuration");
    assert!(!loader.runtime().store().symbols().is_empty(), "the new entry holds the key");
}

#[test]
fn disabled_period_changes_take_effect_on_reenable() {
    let mut loader = loader();
    loader.register_component("provider2".to_string(), fixed_val_provider("second"));
    loader.apply(&vec![entry("provider", "provider", "pg", 1, false)]);
    assert!(loader.fiber("provider").is_some());

    loader.apply(&vec![entry("provider", "provider", "pg", 1, true)]);
    assert!(loader.fiber("provider").is_none(), "a disabled entry has no fiber");

    loader.apply(&vec![entry("provider", "provider2", "ignored", 2, true)]);
    assert!(loader.fiber("provider").is_none(), "still disabled: nothing instantiated");

    loader.apply(&vec![entry("provider", "provider2", "ignored", 2, false)]);
    assert!(state_active(&loader, "provider"));
    assert_eq!(get_val(&loader, "provider"), "second", "the component changed while disabled is used");
}

#[test]
fn isolate_per_key_mixed_granularity() {
    let mut loader = loader();
    loader.register_component("dual".to_string(), dual_provider());
    loader.apply(&vec![Entry::new("p".to_string(), "dual".to_string(), Value::Flag(false), 0, false)
        .with_isolate(Symbol::intern("a"), IsolateAnnotation::Local)
        .with_isolate(Symbol::intern("b"), IsolateAnnotation::Global("g".into()))]);
    assert!(contains(&loader, "local:p:a"), "a in the entry's local realm");
    assert!(contains(&loader, "global:g:b"), "b in the named global realm");
    assert!(!contains(&loader, "a"), "a not in the bare realm");
    assert!(loader.runtime().is_quiet());
}

#[test]
fn group_isolate_inherits_to_children_and_child_overrides() {
    let mut l1 = loader();
    l1.register_component("db".to_string(), val_provider());
    l1.apply(&vec![Entry::group(
        "g".to_string(),
        vec![Entry::new("p".to_string(), "db".to_string(), Value::Text("v".to_string()), 0, false)],
    )
    .with_isolate(Symbol::intern("val"), IsolateAnnotation::Local)]);
    assert!(contains(&l1, "local:g:val"), "the child binds in the group's local realm");
    assert!(l1.fiber("p").is_some(), "the child is active");
    assert!(l1.runtime().is_quiet());

    let mut l2 = loader();
    l2.register_component("db".to_string(), val_provider());
    l2.apply(&vec![Entry::group(
        "g".to_string(),
        vec![Entry::new("p".to_string(), "db".to_string(), Value::Text("v".to_string()), 0, false)
            .with_isolate(Symbol::intern("val"), IsolateAnnotation::Global("x".into()))],
    )
    .with_isolate(Symbol::intern("val"), IsolateAnnotation::Local)]);
    assert!(contains(&l2, "global:x:val"), "the child's own annotation wins");
    assert!(!contains(&l2, "local:g:val"), "the group's does not apply");
    assert!(l2.runtime().is_quiet());
}

#[test]
fn group_isolate_change_rebuilds_subtree() {
    let mut loader = loader();
    loader.register_component("db".to_string(), val_provider());
    loader.apply(&vec![Entry::group(
        "g".to_string(),
        vec![Entry::new("p".to_string(), "db".to_string(), Value::Text("v".to_string()), 0, false)],
    )
    .with_isolate(Symbol::intern("val"), IsolateAnnotation::Local)]);
    assert!(contains(&loader, "local:g:val"));
    let child_first = loader.fiber("p").unwrap().id();

    loader.apply(&vec![Entry::group(
        "g".to_string(),
        vec![Entry::new("p".to_string(), "db".to_string(), Value::Text("v".to_string()), 0, false)],
    )
    .with_isolate(Symbol::intern("val"), IsolateAnnotation::Global("y".into()))]);
    assert!(contains(&loader, "global:y:val"), "rebuilt in the new realm");
    assert!(!contains(&loader, "local:g:val"), "the old realm is empty");
    assert_ne!(loader.fiber("p").unwrap().id(), child_first, "the child is rebuilt");
    assert!(loader.runtime().is_quiet());
}

#[test]
fn isolate_local_creates_private_realms() {
    {
        let mut loader = loader();
        loader.register_component("db".to_string(), val_provider());
        loader.register_component("cons".to_string(), sum_consumer());
        loader.apply(&vec![
            Entry::new("p".to_string(), "db".to_string(), Value::Text("v".to_string()), 0, false)
                .with_isolate(Symbol::intern("val"), IsolateAnnotation::Local),
            Entry::new("c".to_string(), "cons".to_string(), Value::Flag(false), 0, false)
                .with_isolate(Symbol::intern("val"), IsolateAnnotation::Local),
        ]);
        assert!(loader.fiber("p").is_some(), "the provider is active");
        let c = loader.fiber("c").expect("the consumer exists");
        assert!(matches!(c.state(), FiberState::Inactive(_)), "another entry's local realm is invisible");
        assert!(loader.runtime().is_quiet());
    }
    {
        let mut loader = loader();
        loader.register_component("db".to_string(), val_provider());
        loader.register_component("cons".to_string(), sum_consumer());
        loader.apply(&vec![
            Entry::new("p".to_string(), "db".to_string(), Value::Text("v".to_string()), 0, false)
                .with_isolate(Symbol::intern("val"), IsolateAnnotation::Global("db".into())),
            Entry::new("c".to_string(), "cons".to_string(), Value::Flag(false), 0, false)
                .with_isolate(Symbol::intern("val"), IsolateAnnotation::Global("db".into())),
        ]);
        assert!(loader.fiber("p").is_some());
        assert!(state_active(&loader, "c"), "a shared global realm: the consumer activates");
        assert!(loader.runtime().is_quiet());
    }
}

fn child(id: &str, component: &str, value: &str) -> Entry {
    Entry::new(id.to_string(), component.to_string(), Value::Text(value.to_string()), 0, false)
}

#[test]
fn group_keyed_diff_preserves_surviving_children() {
    let mut loader = loader();
    loader.register_component("db".to_string(), val_provider());
    loader.register_component("sum".to_string(), sum_provider());
    loader.apply(&vec![Entry::group("g".to_string(), vec![child("a", "db", "1"), child("b", "sum", "2")])]);
    assert!(loader.fiber("a").is_some());
    let b_id = loader.fiber("b").expect("b active").id();

    loader.apply(&vec![Entry::group("g".to_string(), vec![child("b", "sum", "2"), child("c", "db", "3")])]);
    assert!(loader.fiber("a").is_none(), "a is removed");
    assert!(loader.fiber("c").is_some(), "c is added");
    assert_eq!(loader.fiber("b").expect("b survives").id(), b_id, "a surviving child is not rebuilt");
    assert!(loader.runtime().is_quiet());
}

#[test]
fn group_teardown_removes_subtree() {
    let mut loader = loader();
    loader.register_component("db".to_string(), val_provider());
    loader.register_component("sum".to_string(), sum_provider());
    loader.apply(&vec![Entry::group("g".to_string(), vec![child("a", "db", "1"), child("b", "sum", "2")])]);
    assert!(loader.fiber("a").is_some() && loader.fiber("b").is_some());

    loader.apply(&vec![]);
    assert!(loader.fiber("g").is_none());
    assert!(loader.fiber("a").is_none() && loader.fiber("b").is_none());
    assert_eq!(loader.runtime().len(), 0, "no fiber left in the registry");
    assert!(loader.runtime().is_quiet());
    assert!(loader.runtime().store().symbols().is_empty(), "every binding is revoked");
}

#[test]
fn disabled_group_teardown_and_reenable() {
    let mut loader = loader();
    loader.register_component("db".to_string(), val_provider());
    loader.apply(&vec![Entry::group("g".to_string(), vec![child("a", "db", "1")])]);
    assert!(loader.fiber("a").is_some());

    let mut g = Entry::group("g".to_string(), vec![child("a", "db", "1")]);
    g.disabled = true;
    loader.apply(&vec![g]);
    assert!(loader.fiber("g").is_none());
    assert!(loader.fiber("a").is_none(), "disabling the group tears its children down");
    assert_eq!(loader.runtime().len(), 0);

    loader.apply(&vec![Entry::group("g".to_string(), vec![child("a", "db", "1")])]);
    assert!(loader.fiber("a").is_some(), "re-enabling restores the children");
    assert!(loader.runtime().is_quiet());
}

#[test]
fn include_grafts_children() {
    let mut loader = loader();
    loader.register_component("db".to_string(), val_provider());
    loader.register_component("sum".to_string(), sum_provider());
    let external = vec![child("x", "db", "1"), child("y", "sum", "2")];
    loader.apply(&vec![Entry::graft("ext".to_string(), external)]);
    assert!(loader.fiber("x").is_some());
    assert!(loader.fiber("y").is_some());
}

fn val_in_store(loader: &Loader) -> String {
    loader.runtime().store().get::<ValKey>().expect("val bound")
}

fn text_entry(id: &str, component: &str, value: &str) -> Entry {
    Entry::new(id.to_string(), component.to_string(), Value::Text(value.to_string()), 0, false)
}

fn global(name: &str) -> IsolateAnnotation {
    IsolateAnnotation::Global(name.to_string())
}

/// The configuration protocol of the `provider` component: a non-empty text,
/// equal texts are the same configuration.
struct ValConfig;

impl Config for ValConfig {
    fn validate(&self, config: &Value) -> Result<(), String> {
        match config {
            Value::Text(t) if !t.is_empty() => Ok(()),
            _ => Err("configuration validation failed: empty value".to_string()),
        }
    }
    fn same(&self, a: &Value, b: &Value) -> bool {
        a == b
    }
}

fn val_config(value: &str, revision: u64) -> Entry {
    Entry::new("p".to_string(), "provider".to_string(), Value::Text(value.to_string()), revision, false)
}

#[test]
fn config_same_skips_rebuild_on_identical_value() {
    let mut loader = loader();
    loader.register_config("provider".to_string(), Box::new(ValConfig));
    loader.apply(&vec![val_config("pg", 1), entry("consumer", "consumer", "ignored", 1, false)]);
    let first = loader.fiber("p").unwrap().id();

    loader.apply(&vec![val_config("pg", 2), entry("consumer", "consumer", "ignored", 1, false)]);
    assert_eq!(loader.fiber("p").unwrap().id(), first, "a new revision with the same value is not rebuilt");
    assert!(loader.runtime().is_quiet());

    loader.apply(&vec![val_config("pg2", 3), entry("consumer", "consumer", "ignored", 1, false)]);
    assert_ne!(loader.fiber("p").unwrap().id(), first, "a changed value rebuilds");
    assert!(loader.runtime().is_quiet());
}

#[test]
fn unregistered_config_keeps_revision_semantics() {
    let mut loader = loader();
    loader.apply(&vec![entry("p", "provider", "pg", 1, false), entry("consumer", "consumer", "ignored", 1, false)]);
    let first = loader.fiber("p").unwrap().id();
    loader.apply(&vec![entry("p", "provider", "pg", 2, false), entry("consumer", "consumer", "ignored", 1, false)]);
    assert_ne!(loader.fiber("p").unwrap().id(), first, "without a protocol the revision decides");
}

#[test]
fn unregistered_config_not_validated() {
    let mut loader = loader();
    loader.apply(&vec![entry("p", "provider", "", 1, false)]);
    assert!(loader.fiber("p").is_some(), "without a protocol nothing is validated");
    assert!(loader.runtime().is_quiet());
}

#[test]
fn config_validation_failure_is_reported_and_not_mounted() {
    let mut loader = loader();
    loader.register_config("provider".to_string(), Box::new(ValConfig));
    let report = loader.apply(&vec![val_config("", 1), entry("consumer", "consumer", "ignored", 1, false)]);
    assert!(!report.ok(), "the validation failure is reported");
    assert_eq!(report.failed().len(), 1);
    assert!(loader.fiber("p").is_none(), "the refused entry is not mounted");
}

#[test]
fn isolate_change_reassigns_realms_without_rebuild() {
    let mut loader = loader();
    loader.register_component("db".to_string(), val_provider());
    loader.register_component("cons".to_string(), sum_consumer());
    let p = |realm: &str| text_entry("p", "db", "v").with_isolate(Symbol::intern("val"), global(realm));
    let c = |realm: &str| text_entry("c", "cons", "").with_isolate(Symbol::intern("val"), global(realm));
    loader.apply(&vec![p("db"), c("db")]);
    let p_first = loader.fiber("p").expect("p active").id();
    let c_first = loader.fiber("c").expect("c active in the shared realm").id();
    assert!(contains(&loader, "global:db:val"));

    loader.apply(&vec![p("db2"), c("db")]);
    assert_eq!(loader.fiber("p").expect("p stays").id(), p_first, "no rebuild");
    assert!(contains(&loader, "global:db2:val"), "the binding moved to the new realm");
    assert!(!contains(&loader, "global:db:val"), "the old realm is empty");
    assert!(matches!(loader.fiber("c").unwrap().state(), FiberState::Inactive(_)), "c lost its dependency");
    assert!(loader.runtime().is_quiet());

    loader.apply(&vec![p("db2"), c("db2")]);
    assert_eq!(loader.fiber("c").expect("c stays").id(), c_first, "c is not rebuilt either");
    assert!(state_active(&loader, "c"), "c reactivates in the new realm");
    assert!(loader.runtime().is_quiet());
}

#[test]
fn isolate_change_moves_group_child_binding() {
    let mut loader = loader();
    loader.register_component("db".to_string(), val_provider());
    loader.register_component("cons".to_string(), sum_consumer());
    let a = |realm: &str| text_entry("a", "db", "1").with_isolate(Symbol::intern("val"), global(realm));
    let c = || text_entry("c", "cons", "").with_isolate(Symbol::intern("val"), global("db"));
    loader.apply(&vec![Entry::group("g".to_string(), vec![a("db")]), c()]);
    assert!(loader.fiber("a").is_some());
    assert!(state_active(&loader, "c"), "c depends on the group's provider");

    loader.apply(&vec![Entry::group("g".to_string(), vec![a("db2")]), c()]);
    assert!(contains(&loader, "global:db2:val"), "the child's binding moved");
    assert!(!contains(&loader, "global:db:val"));
    assert!(matches!(loader.fiber("c").unwrap().state(), FiberState::Inactive(_)));
    assert!(loader.runtime().is_quiet());
}

#[test]
fn retired_component_persists_across_unchanged_apply() {
    let mut loader = loader();
    let desired = |rev: u64| vec![entry("provider", "provider", "pg", rev, false), entry("consumer", "consumer", "ignored", 1, false)];
    loader.apply(&desired(1));
    let provider = loader.fiber("provider").unwrap();
    provider.retire(loader.runtime_mut());
    assert!(loader.runtime().fiber(provider.id()).unwrap().retired());
    assert!(matches!(loader.fiber("consumer").unwrap().state(), FiberState::Inactive(_)));

    loader.apply(&desired(1));
    assert!(loader.runtime().fiber(provider.id()).unwrap().retired(), "the retirement persists: the entry decides");
    assert!(matches!(loader.fiber("consumer").unwrap().state(), FiberState::Inactive(_)));

    loader.apply(&desired(2));
    assert!(state_active(&loader, "provider"), "a new revision rebuilds the retired fiber");
    assert!(state_active(&loader, "consumer"));
    assert!(loader.runtime().is_quiet());
}

#[test]
fn update_entry_replaces_config_in_place() {
    let mut loader = loader();
    let desired = vec![entry("provider", "provider", "pg", 1, false), entry("consumer", "consumer", "ignored", 1, false)];
    loader.apply(&desired);
    let provider_id = loader.fiber("provider").unwrap().id();
    assert_eq!(val_in_store(&loader), "pg");

    loader.update_entry("provider", Value::Text("pg2".to_string()));
    assert_eq!(loader.fiber("provider").unwrap().id(), provider_id, "rerun in place");
    assert!(state_active(&loader, "provider"));
    assert!(state_active(&loader, "consumer"));
    assert_eq!(val_in_store(&loader), "pg2");
    assert_eq!(loader.entry_config("provider"), Some(Value::Text("pg2".to_string())));
    assert!(loader.runtime().is_quiet());

    loader.apply(&desired);
    assert_eq!(loader.fiber("provider").unwrap().id(), provider_id, "same revision: no rebuild");
    assert_eq!(val_in_store(&loader), "pg2", "the fiber keeps the new configuration");
    assert_eq!(loader.entry_config("provider"), Some(Value::Text("pg".to_string())), "the record mirrors the desired entry");
}

#[test]
fn fiber_self_update_writes_back_through_loader_hook() {
    let mut loader = loader();
    loader.register_update_hook();
    loader.apply(&vec![entry("provider", "provider", "pg", 1, false), entry("consumer", "consumer", "ignored", 1, false)]);
    let provider = loader.fiber("provider").unwrap();
    provider.update(loader.runtime_mut(), Value::Text("pg3".to_string()));
    assert_eq!(loader.fiber("provider").unwrap().id(), provider.id(), "rerun in place");
    assert_eq!(loader.entry_config("provider"), Some(Value::Text("pg3".to_string())), "written back to the entry");
    assert_eq!(val_in_store(&loader), "pg3");
    assert!(loader.runtime().is_quiet());
}

#[test]
fn group_child_self_update_maps_to_nested_entry() {
    let mut loader = loader();
    loader.register_update_hook();
    loader.apply(&vec![Entry::group(
        "g".to_string(),
        vec![entry("child", "provider", "pg", 1, false), entry("consumer", "consumer", "ignored", 1, false)],
    )]);
    let child = loader.fiber("child").unwrap();
    child.update(loader.runtime_mut(), Value::Text("pg4".to_string()));
    assert_eq!(loader.entry_config("child"), Some(Value::Text("pg4".to_string())));
}

#[test]
fn self_retire_writes_back_disabled_to_entry() {
    let mut loader = loader();
    loader.register_retire_hook();
    let desired = |disabled: bool| vec![entry("provider", "provider", "pg", 1, disabled), entry("consumer", "consumer", "ignored", 1, false)];
    loader.apply(&desired(false));
    let first = loader.fiber("provider").unwrap().id();

    loader.fiber("provider").unwrap().retire(loader.runtime_mut());
    assert!(matches!(loader.fiber("consumer").unwrap().state(), FiberState::Inactive(_)));
    assert_eq!(loader.entry_disabled("provider"), Some(true), "the retirement is written back");
    assert!(loader.runtime().is_quiet());

    loader.apply(&desired(false));
    assert!(state_active(&loader, "provider"), "desired enabled: enabled again");
    assert_ne!(loader.fiber("provider").unwrap().id(), first, "a new fiber");
    assert_eq!(loader.entry_disabled("provider"), Some(false));
    assert!(loader.runtime().is_quiet());

    loader.fiber("provider").unwrap().retire(loader.runtime_mut());
    loader.apply(&desired(true));
    assert!(loader.fiber("provider").is_none());
    assert!(loader.runtime().is_quiet());
}

#[test]
fn loader_driven_operations_do_not_write_back_disabled() {
    let mut loader = loader();
    loader.register_retire_hook();
    loader.apply(&vec![entry("provider", "provider", "pg", 1, false), entry("consumer", "consumer", "ignored", 1, false)]);
    loader.apply(&vec![entry("provider", "provider", "pg", 2, false), entry("consumer", "consumer", "ignored", 1, false)]);
    assert_eq!(loader.entry_disabled("provider"), Some(false), "a rebuild is not a self-retirement");
    assert!(state_active(&loader, "provider"));

    loader.apply(&vec![entry("provider", "provider", "pg", 2, true), entry("consumer", "consumer", "ignored", 1, false)]);
    assert_eq!(loader.entry_disabled("provider"), Some(true));
    assert!(loader.fiber("provider").is_none());

    loader.apply(&vec![entry("consumer", "consumer", "ignored", 1, false)]);
    assert_eq!(loader.entry_disabled("provider"), None, "the entry is gone");
    assert!(loader.runtime().is_quiet());
}

#[test]
fn group_child_self_retire_maps_to_nested_entry() {
    let mut loader = loader();
    loader.register_retire_hook();
    loader.apply(&vec![Entry::group(
        "g".to_string(),
        vec![entry("child", "provider", "pg", 1, false), entry("consumer", "consumer", "ignored", 1, false)],
    )]);
    loader.fiber("child").unwrap().retire(loader.runtime_mut());
    assert_eq!(loader.entry_disabled("child"), Some(true));
}

#[test]
fn isolate_change_boundaries_local_to_global() {
    let mut loader = loader();
    loader.register_component("db".to_string(), val_provider());
    loader.apply(&vec![text_entry("p", "db", "v").with_isolate(Symbol::intern("val"), IsolateAnnotation::Local)]);
    assert!(contains(&loader, "local:p:val"));
    loader.apply(&vec![text_entry("p", "db", "v").with_isolate(Symbol::intern("val"), global("db"))]);
    assert!(contains(&loader, "global:db:val"));
    assert!(!contains(&loader, "local:p:val"));
    assert!(loader.runtime().is_quiet());
}

#[test]
fn isolate_change_boundaries_none_to_global() {
    let mut loader = loader();
    loader.register_component("db".to_string(), val_provider());
    loader.apply(&vec![text_entry("p", "db", "v")]);
    assert!(contains(&loader, "val"));
    loader.apply(&vec![text_entry("p", "db", "v").with_isolate(Symbol::intern("val"), global("db"))]);
    assert!(contains(&loader, "global:db:val"));
    assert!(!contains(&loader, "val"));
    assert!(loader.runtime().is_quiet());
}

#[test]
fn group_internal_same_supply_replacement() {
    let mut loader = loader();
    loader.register_component("db".to_string(), val_provider());
    loader.register_component("db2".to_string(), val_provider());
    loader.apply(&vec![Entry::group("g".to_string(), vec![text_entry("x", "db", "1")])]);
    let x = loader.fiber("x").expect("x active").id();
    loader.apply(&vec![Entry::group("g".to_string(), vec![text_entry("x", "db2", "1")])]);
    let x2 = loader.fiber("x").expect("x active after the rebuild").id();
    assert_ne!(x, x2, "replaced by a new fiber");
    assert!(loader.runtime().is_quiet());
    assert!(contains(&loader, "val"), "the binding is there after the replacement");
}

/// Interception metadata: path sets merged by union, the read-only flag
/// right-biased.
#[derive(Clone, Debug, PartialEq, Eq, Default)]
struct PathMeta {
    paths: BTreeSet<String>,
    read_only: bool,
}

impl InterceptMeta for PathMeta {
    fn merge(existing: &Self, new: &Self) -> Self {
        let mut paths = existing.paths.clone();
        paths.extend(new.paths.iter().cloned());
        PathMeta { paths, read_only: new.read_only }
    }
    fn to_value(&self) -> Value {
        let flag = if self.read_only { "1" } else { "0" };
        let paths: Vec<String> = self.paths.iter().cloned().collect();
        Value::Text(format!("{}|{}", flag, paths.join(",")))
    }
    fn from_value(v: &Value) -> Option<Self> {
        match v {
            Value::Text(s) => {
                let (flag, rest) = s.split_once('|')?;
                let paths = if rest.is_empty() { BTreeSet::new() } else { rest.split(',').map(|p| p.to_string()).collect() };
                Some(PathMeta { paths, read_only: flag == "1" })
            }
            _ => None,
        }
    }
}

fn path_meta(paths: &[&str], read_only: bool) -> PathMeta {
    PathMeta { paths: paths.iter().map(|s| s.to_string()).collect(), read_only }
}

struct FsKey;
impl Key for FsKey {
    type Value = String;
    const SYMBOL: &'static str = "fs";
}

/// Provides `fs`, bound to a description of the metadata its context carries
/// at `fs`.
fn meta_provider() -> Box<TestComponent> {
    Box::new(TestComponent {
        inject: spec(&[]),
        provide: spec(&["fs"]),
        effects: Box::new(|ctx, _config| {
            Box::new(once(move |env: &mut Env| {
                let meta = env.meta(ctx, &Symbol::intern("fs")).and_then(|v| PathMeta::from_value(&v));
                let value = match &meta {
                    Some(m) if m.read_only => "ro".to_string(),
                    Some(m) => format!("rw:{}", m.paths.iter().cloned().collect::<Vec<_>>().join(",")),
                    None => "none".to_string(),
                };
                inverse(env.set::<FsKey>(ctx, value).expect("bind fs"))
            }))
        }),
    })
}

fn fs_value(loader: &Loader) -> String {
    loader.runtime().store().get::<FsKey>().expect("fs bound")
}

#[test]
fn entry_inject_config_consumed_via_get_meta() {
    let mut l1 = loader();
    l1.register_component("m".to_string(), meta_provider());
    l1.apply(&vec![text_entry("p", "m", "").with_inject(Symbol::intern("fs"), path_meta(&["/x"], true))]);
    assert_eq!(fs_value(&l1), "ro", "the injected configuration reaches the provider");
    assert!(l1.runtime().is_quiet());

    let mut l2 = loader();
    l2.register_component("m".to_string(), meta_provider());
    l2.apply(&vec![text_entry("p", "m", "")]);
    assert_eq!(fs_value(&l2), "none", "without injection there is no metadata");
}

#[test]
fn inject_shadows_intercept_for_same_key() {
    let mut loader = loader();
    loader.register_component("m".to_string(), meta_provider());
    loader.apply(&vec![text_entry("p", "m", "")
        .with_intercept(Symbol::intern("fs"), path_meta(&["/i"], false))
        .with_inject(Symbol::intern("fs"), path_meta(&["/j"], true))]);
    assert_eq!(fs_value(&loader), "ro", "the injection, applied last, shadows the interception");
    assert!(loader.runtime().is_quiet());
}

#[test]
fn group_inject_inherits_to_children() {
    let mut loader = loader();
    loader.register_component("m".to_string(), meta_provider());
    loader.apply(&vec![Entry::group("g".to_string(), vec![text_entry("p", "m", "")])
        .with_inject(Symbol::intern("fs"), path_meta(&["/g"], false))]);
    assert_eq!(fs_value(&loader), "rw:/g", "the group's injection is inherited");
    assert!(loader.runtime().is_quiet());
}

#[test]
fn inject_change_without_revision_is_ignored() {
    let mut loader = loader();
    loader.register_component("m".to_string(), meta_provider());
    loader.apply(&vec![text_entry("p", "m", "").with_inject(Symbol::intern("fs"), path_meta(&["/a"], false))]);
    assert_eq!(fs_value(&loader), "rw:/a");
    loader.apply(&vec![text_entry("p", "m", "").with_inject(Symbol::intern("fs"), path_meta(&["/b"], true))]);
    assert_eq!(fs_value(&loader), "rw:/a", "an injection change needs a new revision");
    assert!(loader.runtime().is_quiet());
}

#[test]
fn intercept_clear_does_not_restore_group_inherited_value() {
    let mut loader = loader();
    loader.register_component("db".to_string(), val_provider());
    let group_meta = path_meta(&["/group"], false);
    loader.apply(&vec![Entry::group(
        "g".to_string(),
        vec![text_entry("a", "db", "1").with_intercept(Symbol::intern("fs"), path_meta(&["/child"], true))],
    )
    .with_intercept(Symbol::intern("fs"), group_meta.clone())]);
    let a = loader.fiber("a").expect("a active");
    assert_eq!(a.ctx().intercept_of::<PathMeta>(loader.runtime(), Symbol::intern("fs")), Some(path_meta(&["/child"], true)));

    loader.apply(&vec![Entry::group("g".to_string(), vec![text_entry("a", "db", "1")])
        .with_intercept(Symbol::intern("fs"), group_meta.clone())]);
    let a2 = loader.fiber("a").expect("a stays");
    assert_eq!(a2.ctx().intercept_of::<PathMeta>(loader.runtime(), Symbol::intern("fs")), None, "clearing does not fall back to the group's value");
}

#[test]
fn intercept_annotation_applied_in_place_without_rebuild() {
    let mut loader = loader();
    loader.register_component("db".to_string(), val_provider());
    loader.apply(&vec![text_entry("c", "db", "v").with_intercept(Symbol::intern("fs"), path_meta(&["/anno"], true))]);
    let first = loader.fiber("c").expect("active");
    assert_eq!(first.ctx().intercept_of::<PathMeta>(loader.runtime(), Symbol::intern("fs")), Some(path_meta(&["/anno"], true)));

    loader.apply(&vec![text_entry("c", "db", "v").with_intercept(Symbol::intern("fs"), path_meta(&["/anno2"], false))]);
    let now = loader.fiber("c").expect("stays");
    assert_eq!(now.id(), first.id(), "an annotation update does not rebuild");
    assert_eq!(now.ctx().intercept_of::<PathMeta>(loader.runtime(), Symbol::intern("fs")), Some(path_meta(&["/anno2"], false)));

    loader.apply(&vec![text_entry("c", "db", "v")]);
    assert_eq!(loader.fiber("c").unwrap().ctx().intercept_of::<PathMeta>(loader.runtime(), Symbol::intern("fs")), None, "a removed annotation is cleared");
}

#[test]
fn apply_keeps_only_desired_entries_and_reports_each() {
    let mut loader = loader();
    let report = loader.apply(&vec![
        entry("provider", "provider", "pg", 1, false),
        entry("consumer", "consumer", "ignored", 1, false),
        entry("unknown", "missing", "x", 1, false),
    ]);
    assert_eq!(report.outcomes.len(), 3, "one outcome per desired entry");
    assert_eq!(loader.len(), 2, "the entry with an unknown component is not mounted");
    let report = loader.apply(&vec![entry("provider", "provider", "pg", 1, false)]);
    assert_eq!(report.outcomes.len(), 1);
    assert_eq!(loader.len(), 1);
    assert!(!loader.is_empty());
    assert_eq!(loader.entry_config("consumer"), None, "a vanished entry is no longer loaded");
    assert_eq!(loader.entry_config("provider"), Some(Value::Text("pg".to_string())));
    loader.apply(&vec![]);
    assert!(loader.is_empty());
    assert_eq!(loader.len(), 0);
}
