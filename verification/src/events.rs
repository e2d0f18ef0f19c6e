//! The event system's foundation: typed events (the mirror of keys), the
//! event bus, and the component that binds the bus as a service.

use vstd::prelude::*;

use crate::component::{Component, Effects};
use crate::effect::{inverse, EffectIter, Step};
use crate::env::{Context, Env};
use crate::fiber::FiberError;
use crate::keyset::KeySet;
use crate::symbol::Symbol;
use crate::value::{Key, KeyValue, Value, ValueModel};

verus! {

/// A typed event: an identity (its symbol, interned as a key symbol is)
/// and a payload type. Two event types must not declare the same symbol.
pub trait Event {
    /// The payload type.
    type Payload;

    /// The event name.
    const SYMBOL: &'static str;
}

/// The event bus: the global service through which events are dispatched.
pub struct EventBus {}

impl EventBus {
    /// An empty bus.
    pub fn new() -> (r: EventBus) {
        EventBus {}
    }
}

impl Default for EventBus {
    fn default() -> (r: EventBus) {
        EventBus::new()
    }
}

impl KeyValue for EventBus {
    open spec fn encoding(&self) -> ValueModel {
        ValueModel::Service
    }

    open spec fn decodes(v: ValueModel) -> bool {
        v == ValueModel::Service
    }

    /// The bound bus is recorded as a present service.
    proof fn lemma_round_trip(&self) {
    }

    fn encode(self) -> (r: Value) {
        Value::Service
    }

    fn decode(v: &Value) -> (r: Option<EventBus>) {
        match v {
            Value::Service => Some(EventBus::new()),
            _ => None,
        }
    }
}

/// The bus service key.
pub struct EventsKey;

impl Key for EventsKey {
    type Value = EventBus;

    const SYMBOL: &'static str = "events";
}

/// The root component that binds the bus.
pub struct EventsProvider;

/// The one step of [`EventsProvider`]: binds a new bus (a context that
/// may not bind it, or a bus already bound there, fails the fiber).
pub struct BindBus {
    ctx: Context,
}

impl BindBus {
    /// The context the bus is bound in.
    pub closed spec fn spec_ctx(&self) -> Context {
        self.ctx
    }
}

impl EffectIter for BindBus {
    fn next(&mut self, env: &mut Env) -> (r: Step)
        ensures
            r is Finished || r is Failed,
            r is Failed ==> *final(env) == *old(env),
            r matches Step::Finished(d) ==> {
                let realm = old(env).realm_of(old(self).spec_ctx(), EventsKey::SYMBOL@);
                &&& old(env).ctx_valid(old(self).spec_ctx())
                &&& old(env).may_write(old(self).spec_ctx(), EventsKey::SYMBOL@)
                &&& !old(env).spec_store().contains_key(realm)
                &&& final(env).spec_store() == old(env).spec_store().insert(realm,
                        crate::store::BindingModel { value: ValueModel::Service, provider: old(env).ctx_fiber(old(self).spec_ctx()) })
                &&& d matches crate::effect::Disposer::Inverses(v) && v@.len() == 1
                    && v@[0]@ == crate::env::InvModel::Unbind { guard: old(env).spec_armed().len() as usize, ctx: old(self).spec_ctx(), realm }
            },
    {
        let key = Symbol::intern(EventsKey::SYMBOL);
        if !env.is_context(self.ctx) || !env.may_set(self.ctx, &key) {
            return Step::Failed(FiberError::new("the context may not bind events".to_string()));
        }
        match env.set::<EventsKey>(self.ctx, EventBus::new()) {
            Ok(inv) => Step::Finished(inverse(inv)),
            Err(_) => Step::Failed(FiberError::new("events is already bound".to_string())),
        }
    }
}

impl Component for EventsProvider {
    fn inject(&self) -> (r: KeySet)
        ensures
            r@ == Set::<Seq<char>>::empty(),
    {
        KeySet::new()
    }

    fn provide(&self) -> (r: KeySet)
        ensures
            r@ == set![EventsKey::SYMBOL@],
    {
        let keys = vec![Symbol::intern(EventsKey::SYMBOL)];
        proof {
            assert(crate::keyset::names(keys@) =~= seq![EventsKey::SYMBOL@]);
            assert(seq![EventsKey::SYMBOL@].to_set() =~= set![EventsKey::SYMBOL@]) by {
                assert(seq![EventsKey::SYMBOL@][0] == EventsKey::SYMBOL@);
            }
        }
        KeySet::from_vec(keys)
    }

    fn apply(&self, ctx: Context, config: &Value, env: &mut Env) -> (r: Effects)
        ensures
            *final(env) == *old(env),
    {
        Effects::new(Box::new(BindBus { ctx }))
    }
}

} // verus!
