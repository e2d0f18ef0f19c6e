use std::collections::BTreeSet;

use cordis::component::{Component, Effects};
use cordis::effect::{inverse, noop, once, EffectIter, Step};
use cordis::env::{Context, Env};
use cordis::fiber::{FiberError, FiberState};
use cordis::hmr::{classify, detect, get_dependencies, Classification, HashMapGraph, Hmr, ModuleLoader, ReloadError};
use cordis::keyset::KeySet;
use cordis::loader::report::{ApplyReport, EntryError, EntryErrorKind, EntryOutcome};
use cordis::loader::{Entry, Loader};
use cordis::runtime::Runtime;
use cordis::symbol::Symbol;
use cordis::value::{Key, Value};

fn s(x: &str) -> String {
    x.to_string()
}

fn names(v: &[&str]) -> Vec<String> {
    v.iter().map(|x| x.to_string()).collect()
}

fn set(v: &[String]) -> BTreeSet<String> {
    v.iter().cloned().collect()
}

fn graph(edges: &[(&str, &[&str])]) -> HashMapGraph {
    HashMapGraph(edges.iter().map(|(m, imports)| (s(m), names(imports))).collect())
}

#[test]
fn classify_propagates_accepted_and_declined() {
    let g = graph(&[("plugin", &["lib"]), ("lib", &["dep"]), ("dep", &[])]);

    let c = classify(&names(&["plugin"]), &vec![], &g);
    assert_eq!(set(&c.accepted), set(&names(&["plugin"])));
    assert_eq!(set(&c.declined), set(&names(&["lib", "dep"])));

    let c2 = classify(&names(&["dep"]), &vec![], &g);
    assert_eq!(set(&c2.accepted), set(&names(&["dep"])));

    let c3 = classify(&names(&["plugin"]), &names(&["lib"]), &g);
    assert_eq!(set(&c3.accepted), set(&names(&["plugin"])));
    assert_eq!(set(&c3.declined), set(&names(&["lib"])));
}

#[test]
fn classify_cycles_default_to_declined() {
    let g = graph(&[("x", &["y"]), ("y", &["x"])]);
    let c = classify(&vec![], &vec![], &g);
    assert_eq!(c.accepted.len(), 0, "no seed: nothing accepted");
    assert_eq!(c.declined.len(), 0, "no seed: nothing declined");

    let c2 = classify(&names(&["x"]), &vec![], &g);
    assert_eq!(set(&c2.accepted), set(&names(&["x", "y"])));
}

#[test]
fn detect_finds_stale_entries_respecting_declined() {
    let g = graph(&[("e1", &["a"]), ("a", &["b"]), ("e2", &["c"])]);
    let c = Classification { accepted: names(&["b"]), declined: vec![] };
    let stale = detect(&names(&["e1", "e2"]), &c, &g);
    assert_eq!(stale, names(&["e1"]));

    let tree = get_dependencies("e1", &names(&["a"]), &g);
    assert_eq!(set(&tree), set(&names(&["e1"])), "the declined boundary cuts the tree");
}

#[test]
fn dependency_tree_is_transitive_and_stops_at_cycles() {
    let g = graph(&[("e1", &["a"]), ("a", &["b", "c"]), ("b", &["a"]), ("c", &[])]);
    let tree = get_dependencies("e1", &vec![], &g);
    assert_eq!(set(&tree), set(&names(&["e1", "a", "b", "c"])));
    assert_eq!(tree.len(), 4, "each module once");
    assert!(get_dependencies("e1", &names(&["e1"]), &g).is_empty(), "a declined root has no tree");
}

#[test]
fn detect_accepts_each_stale_tree_in_turn() {
    let g = graph(&[("e1", &["a"]), ("e2", &["a"]), ("a", &[]), ("e3", &["z"])]);
    let c = Classification { accepted: names(&["e1"]), declined: vec![] };
    let stale = detect(&names(&["e1", "e2", "e3"]), &c, &g);
    assert_eq!(stale, names(&["e1", "e2"]), "e1's tree brings a in, which makes e2 stale");
}

struct ValKey;
impl Key for ValKey {
    type Value = String;
    const SYMBOL: &'static str = "val";
}

struct SumKey;
impl Key for SumKey {
    type Value = String;
    const SYMBOL: &'static str = "sum";
}

fn spec(names: &[&str]) -> KeySet {
    KeySet::from_vec(names.iter().map(|x| Symbol::intern(x)).collect())
}

fn text(v: &Value) -> String {
    match v {
        Value::Text(t) => t.clone(),
        other => panic!("a text configuration is expected, not {other:?}"),
    }
}

type Program = Box<dyn Fn(Context, &Value) -> Box<dyn EffectIter>>;

struct TestComponent {
    inject: KeySet,
    provide: KeySet,
    effects: Program,
}

impl Component for TestComponent {
    fn inject(&self) -> KeySet {
        self.inject.clone()
    }
    fn provide(&self) -> KeySet {
        self.provide.clone()
    }
    fn apply(&self, ctx: Context, config: &Value, _env: &mut Env) -> Effects {
        Effects::new((self.effects)(ctx, config))
    }
}

/// Binds `val` to its configuration, with a prefix naming the version.
fn provider(prefix: &'static str) -> Box<dyn Component> {
    Box::new(TestComponent {
        inject: spec(&[]),
        provide: spec(&["val"]),
        effects: Box::new(move |ctx, config| {
            let value = format!("{prefix}{}", text(config));
            Box::new(once(move |env: &mut Env| inverse(env.set::<ValKey>(ctx, value).expect("bind val"))))
        }),
    })
}

/// Injects `val`, provides `sum(val)`.
fn consumer() -> Box<dyn Component> {
    Box::new(TestComponent {
        inject: spec(&["val"]),
        provide: spec(&["sum"]),
        effects: Box::new(|ctx, _config| {
            Box::new(once(move |env: &mut Env| {
                let v = env.get::<ValKey>(ctx).expect("the injected val is provided");
                inverse(env.set::<SumKey>(ctx, format!("sum({v})")).expect("bind sum"))
            }))
        }),
    })
}

struct Raise;
impl EffectIter for Raise {
    fn next(&mut self, _env: &mut Env) -> Step {
        Step::Failed(FiberError::new("the new version fails".to_string()))
    }
}

/// Provides `val` but fails when applied.
fn broken() -> Box<dyn Component> {
    Box::new(TestComponent {
        inject: spec(&[]),
        provide: spec(&["val"]),
        effects: Box::new(|_ctx, _config| Box::new(Raise)),
    })
}

/// Provides `val` and `sum`: clashes with the consumer's `sum`.
fn clashing() -> Box<dyn Component> {
    Box::new(TestComponent {
        inject: spec(&[]),
        provide: spec(&["val", "sum"]),
        effects: Box::new(|ctx, _config| {
            Box::new(once(move |env: &mut Env| inverse(env.set::<ValKey>(ctx, s("clash")).expect("bind val"))))
        }),
    })
}

/// Injects `val`, provides nothing.
fn pure_consumer() -> Box<dyn Component> {
    Box::new(TestComponent {
        inject: spec(&["val"]),
        provide: spec(&[]),
        effects: Box::new(|_ctx, _config| Box::new(once(|_env: &mut Env| noop()))),
    })
}

/// A fixed table of new versions.
struct MapLoader(Vec<(String, fn() -> Box<dyn Component>)>);

impl ModuleLoader for MapLoader {
    fn load(&self, url: &str) -> Result<Box<dyn Component>, String> {
        match self.0.iter().find(|(u, _)| u == url) {
            Some((_, make)) => Ok(make()),
            None => Err(format!("module `{url}` has no new version")),
        }
    }
}

fn v1() -> Box<dyn Component> {
    provider("")
}

fn v2() -> Box<dyn Component> {
    provider("v2:")
}

fn entry(id: &str, component: &str, config: &str) -> Entry {
    Entry::new(s(id), s(component), Value::Text(s(config)), 0, false)
}

fn desired() -> Vec<Entry> {
    vec![entry("p", "db", "1"), entry("c", "cons", "")]
}

fn setup() -> Loader {
    let mut loader = Loader::new(Runtime::new());
    loader.register_component(s("db"), provider(""));
    loader.register_component(s("cons"), consumer());
    loader.apply(&desired());
    loader
}

fn sum_of(loader: &Loader) -> String {
    loader.runtime().store().get::<SumKey>().expect("sum bound")
}

fn active(loader: &Loader, id: &str) -> bool {
    matches!(loader.fiber(id).expect("loaded").state(), FiberState::Active { .. })
}

#[test]
fn hmr_reload_applies_new_version_keeping_other_components() {
    let loader = setup();
    let c_first = loader.fiber("c").expect("consumer active").id();
    assert_eq!(sum_of(&loader), "sum(1)");

    let g = graph(&[("db", &["lib"]), ("lib", &[])]);
    let versions = MapLoader(vec![(s("lib"), v1), (s("db"), v2)]);
    let mut hmr = Hmr::new(loader, Box::new(versions));
    let stale = hmr.reload(&names(&["lib"]), &vec![], &g, &desired()).expect("reload succeeds");
    assert_eq!(stale, names(&["db"]));

    let loader = hmr.loader();
    assert_eq!(loader.fiber("c").expect("consumer stays").id(), c_first, "the consumer is not rebuilt");
    assert!(active(loader, "p"), "provider active");
    assert!(active(loader, "c"), "consumer active");
    assert_eq!(sum_of(loader), "sum(v2:1)", "the new version takes effect at once");
    assert!(loader.runtime().is_quiet());
}

#[test]
fn hmr_reload_rolls_back_on_load_failure() {
    let loader = setup();
    let p_first = loader.fiber("p").expect("provider").id();
    let c_first = loader.fiber("c").expect("consumer").id();

    let g = graph(&[("db", &[])]);
    let mut hmr = Hmr::new(loader, Box::new(MapLoader(vec![])));
    let result = hmr.reload(&names(&["db"]), &vec![], &g, &desired());
    assert!(result.is_err(), "a module that cannot be loaded fails the reload");
    assert!(matches!(result, Err(ReloadError::Load { ref url, .. }) if url == "db"));

    let loader = hmr.loader();
    assert_eq!(loader.fiber("c").expect("consumer").id(), c_first, "consumer fiber unchanged");
    assert!(active(loader, "p"));
    assert!(active(loader, "c"));
    assert_eq!(sum_of(loader), "sum(1)", "rolled back to the old version");
    assert!(loader.runtime().is_quiet());
    assert_ne!(loader.fiber("p").unwrap().id(), p_first, "the rollback rebuilt the provider");
}

#[test]
fn hmr_reload_rolls_back_on_component_failure() {
    let loader = setup();
    assert_eq!(sum_of(&loader), "sum(1)");
    let g = graph(&[("db", &[])]);
    let mut hmr = Hmr::new(loader, Box::new(MapLoader(vec![(s("db"), broken)])));
    let result = hmr.reload(&names(&["db"]), &vec![], &g, &desired());
    assert!(result.is_err(), "a failing component rolls the reload back");

    let loader = hmr.loader();
    assert_eq!(sum_of(loader), "sum(1)", "rolled back to the old version");
    assert!(active(loader, "c"));
    assert!(loader.runtime().is_quiet());
}

#[test]
fn hmr_reload_noop_without_stashed() {
    let loader = setup();
    let p_first = loader.fiber("p").expect("provider").id();
    let c_first = loader.fiber("c").expect("consumer").id();
    let g = graph(&[("db", &[])]);
    let mut hmr = Hmr::new(loader, Box::new(MapLoader(vec![])));
    let stale = hmr.reload(&vec![], &vec![], &g, &desired()).expect("nothing stashed: nothing to do");
    assert!(stale.is_empty());
    let loader = hmr.loader();
    assert_eq!(loader.fiber("p").unwrap().id(), p_first);
    assert_eq!(loader.fiber("c").unwrap().id(), c_first);
    assert_eq!(sum_of(loader), "sum(1)");
}

#[test]
fn hmr_reload_rolls_back_on_provision_clash() {
    let loader = setup();
    assert_eq!(sum_of(&loader), "sum(1)");
    let g = graph(&[("db", &[])]);
    let mut hmr = Hmr::new(loader, Box::new(MapLoader(vec![(s("db"), clashing)])));
    let result = hmr.reload(&names(&["db"]), &vec![], &g, &desired());
    assert!(matches!(result, Err(ReloadError::Rejected)), "the provision clash is reported, then rolled back");

    let loader = hmr.loader();
    assert_eq!(sum_of(loader), "sum(1)", "rolled back to the old version");
    assert!(active(loader, "c"), "the consumer keeps its state");
    assert!(loader.runtime().is_quiet(), "no half-reloaded remains");
}

#[test]
fn hmr_reload_rebuilds_all_entries_sharing_url() {
    let mut loader = setup();
    loader.register_component(s("pure"), pure_consumer());
    let desired = vec![entry("p", "db", "1"), entry("c1", "pure", ""), entry("c2", "pure", "")];
    loader.apply(&desired);
    assert!(loader.fiber("c1").is_some() && loader.fiber("c2").is_some());

    let g = graph(&[("db", &[])]);
    let mut hmr = Hmr::new(loader, Box::new(MapLoader(vec![(s("db"), v1)])));
    let stale = hmr.reload(&names(&["db"]), &vec![], &g, &desired).expect("reload succeeds");
    assert_eq!(stale, names(&["db"]), "only db is stale");
    let loader = hmr.loader();
    assert!(loader.runtime().store().contains(Symbol::intern("val")), "val bound again");
    assert!(loader.fiber("c1").is_some() && loader.fiber("c2").is_some());
    assert!(loader.runtime().is_quiet());
}

#[test]
fn classify_reaches_the_fixpoint_through_an_import_cycle() {
    let g = graph(&[("plugin", &["lib"]), ("lib", &["dep"]), ("dep", &["plugin"])]);
    let c = classify(&names(&["plugin"]), &vec![], &g);
    assert_eq!(set(&c.accepted), set(&names(&["plugin", "lib", "dep"])));
    assert_eq!(c.declined.len(), 0);
}

#[test]
fn verdict_rejects_an_orchestration_failure_and_passes_a_clean_report() {
    let hmr = Hmr::new(Loader::new(Runtime::new()), Box::new(MapLoader(vec![])));
    let failed = ApplyReport {
        outcomes: vec![
            EntryOutcome::Activated,
            EntryOutcome::Failed(EntryError {
                entry_id: "x".to_string(),
                kind: EntryErrorKind::UnknownComponent { component: "missing".to_string() },
            }),
        ],
    };
    assert!(matches!(hmr.verdict(&failed, &vec!["db".to_string()], &vec![]), Err(ReloadError::Rejected)));
    let clean = ApplyReport { outcomes: vec![EntryOutcome::Activated, EntryOutcome::Unchanged] };
    let gone = Entry::new("p".to_string(), "db".to_string(), Value::Flag(true), 1, false);
    assert!(hmr.verdict(&clean, &vec!["db".to_string()], &vec![gone]).is_ok(), "an entry with no live fiber did not fail");
}
