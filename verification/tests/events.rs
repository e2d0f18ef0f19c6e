use cordis::component::Component;
use cordis::events::{Event, EventBus, EventsKey, EventsProvider};
use cordis::fiber::FiberState;
use cordis::loader::{Entry, Loader};
use cordis::runtime::Runtime;
use cordis::symbol::Symbol;
use cordis::value::{Key, Value};

struct ToolPreExecute;
impl Event for ToolPreExecute {
    type Payload = String;
    const SYMBOL: &'static str = "tools/pre-execute";
}

#[test]
fn skeleton_constructs_bus_and_provider() {
    let bus = EventBus::new();
    let _ = bus;

    assert_eq!(EventsKey::SYMBOL, "events");
    assert_eq!(ToolPreExecute::SYMBOL, "tools/pre-execute");

    let provider = EventsProvider;
    assert!(provider.inject().is_empty());
    assert!(provider.provide().contains(Symbol::intern(EventsKey::SYMBOL)));
}

#[test]
fn events_provider_mounts_via_loader() {
    let mut loader = Loader::new(Runtime::new());
    loader.register_component("events".to_string(), Box::new(EventsProvider));
    loader.apply(&vec![Entry::new("events".to_string(), "events".to_string(), Value::Flag(false), 0, false)]);
    assert!(matches!(loader.fiber("events").expect("mounted").state(), FiberState::Active { .. }));
    assert!(loader.runtime().store().get::<EventsKey>().is_ok(), "the bus is readable once mounted");

    loader.apply(&vec![]);
    assert!(loader.runtime().store().get::<EventsKey>().is_err(), "the teardown unbinds the bus");
    assert!(loader.runtime().is_quiet());
}

#[test]
fn a_second_bus_provider_fails_its_fiber() {
    let mut runtime = Runtime::new();
    let root = runtime.context();
    let c = runtime.add_component(Box::new(EventsProvider));
    assert!(runtime.set::<EventsKey>(root, EventBus::new()).is_ok(), "the root binds a bus first");
    let fiber = runtime.instantiate(root, c, Value::Flag(false)).expect("no provision clash with the root's own binding");
    let f = runtime.fiber(fiber.id()).expect("registered");
    assert!(f.state().is_failed(), "the provider cannot bind a second bus");
}
