//! Contexts (the `Γ∞` projection) and the coeffect operations on them
//!: `get`, `set`, `isolate`, `intercept`, `notify`, `use`,
//! `effect`. A [`Context`] is a handle; its records live in the runtime's
//! environment, so every operation takes the runtime.

use vstd::prelude::*;

use crate::component::Component;
use crate::effect::{Disposer, EffectIter};
use crate::env::{inv_models, meta_of, Context, Env, InvModel};
use crate::fiber::{Fiber, FiberId, FiberState};
use crate::keyset::KeySet;
use crate::runtime::{RegistryError, Runtime};
use crate::store::{Store, StoreError, StoreErrorModel};
use crate::symbol::Symbol;
use crate::value::{Key, KeyValue, Value};

verus! {

/// Interception metadata (`ℳ k` with its monoid `⊕k`), stored
/// with the context as a value, merged right-biased — in
/// `merge(existing, new)` the newer metadata takes priority.
pub trait InterceptMeta: Sized {
    /// The right-biased merge `existing ⊕ new`.
    fn merge(existing: &Self, new: &Self) -> Self;

    /// The stored form.
    fn to_value(&self) -> Value;

    /// Reads the stored form back (`None` for metadata of another type).
    fn from_value(v: &Value) -> Option<Self>;
}

impl Context {
    /// A new root context on `rt`.
    pub fn new(rt: &mut Runtime) -> (r: Context)
        ensures
            final(rt).spec_env().ctx_valid(r),
            final(rt).spec_env().ctx_fiber(r) is None,
            final(rt).spec_env().ctx_realms(r).len() == 0,
            final(rt).spec_env().spec_store() == old(rt).spec_env().spec_store(),
            final(rt).spec_env().spec_fibers() == old(rt).spec_env().spec_fibers(),
    {
        rt.context()
    }

    /// The fiber this context belongs to (`None` = root).
    pub fn fiber(&self, rt: &Runtime) -> (r: Option<FiberId>)
        ensures
            r == rt.spec_env().ctx_fiber(*self),
    {
        rt.env().fiber_of(*self)
    }

    /// The shared table `σ`.
    pub fn store<'a>(&self, rt: &'a Runtime) -> (r: &'a Store)
        ensures
            r@ == rt.spec_env().spec_store(),
    {
        rt.store()
    }

    /// `get(k)`: the value bound at `ρ(k)`.
    pub fn get<K: Key>(&self, rt: &Runtime) -> (r: Result<K::Value, StoreError>)
        ensures
            r is Ok <==> rt.spec_env().spec_store().contains_key(rt.spec_env().realm_of(*self, K::SYMBOL@))
                && K::Value::decodes(rt.spec_env().spec_store()[rt.spec_env().realm_of(*self, K::SYMBOL@)].value),
            r matches Ok(x) ==> x.encoding() == rt.spec_env().spec_store()[rt.spec_env().realm_of(*self, K::SYMBOL@)].value,
            r matches Err(e) ==> (e is NotBound <==> !rt.spec_env().spec_store().contains_key(rt.spec_env().realm_of(*self, K::SYMBOL@))),
    {
        rt.get::<K>(*self)
    }

    /// `set(k, v)`: a reversible binding of `ρ(k)`; see
    /// [`Runtime::set`].
    pub fn set<K: Key>(&self, rt: &mut Runtime, value: K::Value) -> (r: Result<Disposer, StoreError>)
        requires
            old(rt).spec_env().ctx_valid(*self),
            old(rt).spec_env().may_write(*self, K::SYMBOL@),
        ensures
            r is Err <==> old(rt).spec_env().spec_store().contains_key(old(rt).spec_env().realm_of(*self, K::SYMBOL@)),
            r matches Err(e) ==> e@ == StoreErrorModel::AlreadyBound(K::SYMBOL@) && final(rt).spec_env() == old(rt).spec_env(),
            r is Err ==> final(rt).n_reactors() == old(rt).n_reactors(),
            r matches Ok(d) ==> d matches Disposer::Inverses(v) && inv_models(v@) == seq![InvModel::Unbind {
                guard: old(rt).spec_env().spec_armed().len() as usize,
                ctx: *self,
                realm: old(rt).spec_env().realm_of(*self, K::SYMBOL@),
            }],
            r is Ok && old(rt).unobserved() ==> final(rt).unobserved() && crate::env::set_step::<K>(
                old(rt).spec_env(),
                final(rt).spec_env(),
                *self,
                value,
                InvModel::Unbind {
                    guard: old(rt).spec_env().spec_armed().len() as usize,
                    ctx: *self,
                    realm: old(rt).spec_env().realm_of(*self, K::SYMBOL@),
                },
            ),
    {
        rt.set::<K>(*self, value)
    }

    /// `isolate(k, r)`: a derived context in which `key` resolves
    /// to `realm`; the shared table is not written.
    pub fn isolate(&self, rt: &mut Runtime, key: Symbol, realm: Symbol) -> (r: Context)
        ensures
            final(rt).spec_env().ctx_valid(r),
            final(rt).spec_env().ctx_fiber(r) == old(rt).spec_env().ctx_fiber(*self),
            forall|k: Seq<char>| final(rt).spec_env().realm_of(r, k) == if k == key@ { realm@ } else { old(rt).spec_env().realm_of(*self, k) },
            final(rt).spec_env().spec_store() == old(rt).spec_env().spec_store(),
            final(rt).spec_env().spec_fibers() == old(rt).spec_env().spec_fibers(),
    {
        rt.isolate(*self, key, realm)
    }

    /// `intercept(k, ν)`: a derived context whose metadata at `key`
    /// is `ι(k) ⊕ ν` (`ν` when nothing of type `M` is recorded there).
    pub fn intercept<M: InterceptMeta>(&self, rt: &mut Runtime, key: Symbol, meta: M) -> (r: Context)
        ensures
            final(rt).spec_env().ctx_valid(r),
            final(rt).spec_env().ctx_fiber(r) == old(rt).spec_env().ctx_fiber(*self),
            final(rt).spec_env().ctx_realms(r) == old(rt).spec_env().ctx_realms(*self),
            forall|k: Seq<char>| k != key@ ==> meta_of(final(rt).spec_env().ctx_meta(r), k) == meta_of(old(rt).spec_env().ctx_meta(*self), k),
            meta_of(final(rt).spec_env().ctx_meta(r), key@) is Some,
            final(rt).spec_env().spec_store() == old(rt).spec_env().spec_store(),
            final(rt).spec_env().spec_fibers() == old(rt).spec_env().spec_fibers(),
    {
        let merged = match rt.env().meta(*self, &key) {
            None => meta,
            Some(v) => match M::from_value(&v) {
                Some(existing) => M::merge(&existing, &meta),
                None => meta,
            },
        };
        rt.intercept_value(*self, key, merged.to_value())
    }

    /// The metadata of type `M` recorded at `key` (`None` when absent or of
    /// another type).
    pub fn intercept_of<M: InterceptMeta>(&self, rt: &Runtime, key: Symbol) -> (r: Option<M>)
        ensures
            meta_of(rt.spec_env().ctx_meta(*self), key@) is None ==> r is None,
    {
        match rt.env().meta(*self, &key) {
            None => None,
            Some(v) => M::from_value(&v),
        }
    }

    /// `γ ⊧ d` through `ρ`.
    pub fn satisfies(&self, rt: &Runtime, spec: &KeySet) -> (r: bool)
        ensures
            r == (forall|k: Seq<char>| spec@.contains(k) ==> rt.spec_env().spec_store().contains_key(rt.spec_env().realm_of(*self, k))),
    {
        rt.env().satisfies(*self, spec)
    }

    /// `notify(ctx, realms)`: propagates a change of `realms`.
    pub fn notify(&self, rt: &mut Runtime, realms: &Vec<Symbol>)
        ensures
            old(rt).unobserved() ==> final(rt).calm_since(old(rt)),
    {
        rt.notify(*self, realms)
    }

    /// `use(ctx, component, config)`; see
    /// [`Runtime::use_component`].
    pub fn use_component(&self, rt: &mut Runtime, component: Box<dyn Component>, config: Value) -> (r: Result<Fiber, RegistryError>)
        requires
            old(rt).spec_env().ctx_valid(*self),
            old(rt).spec_env().spec_next() < u64::MAX,
        ensures
            r matches Err(e) ==> e == RegistryError::ProvisionClash,
            r matches Ok(f) ==> f.id == FiberId(old(rt).spec_env().spec_next()),
    {
        rt.use_component(*self, component, config)
    }

    /// `ctx.effect(iter)`; see [`Runtime::effect`].
    pub fn effect(&self, rt: &mut Runtime, iter: Box<dyn EffectIter>) -> (r: Disposer)
        requires
            old(rt).spec_env().ctx_valid(*self),
        ensures
            r is Inverses,
            old(rt).spec_accumulated() + inv_models(r->Inverses_0@) == final(rt).spec_accumulated(),
    {
        let r = rt.effect(*self, iter);
        proof {
            crate::runtime::law_effect_undoes_its_registrations(*old(rt), *rt, r->Inverses_0@);
        }
        r
    }

    /// Runs this context's accumulator from the most recent inverse.
    pub fn dispose_all(&self, rt: &mut Runtime)
        ensures
            old(rt).unobserved() && (forall|k: int| 0 <= k < inv_models(old(rt).spec_env().ctx_acc(*self)).len()
                ==> #[trigger] inv_models(old(rt).spec_env().ctx_acc(*self))[k] is Unbind) ==> {
                &&& final(rt).unobserved()
                &&& (final(rt).spec_env().spec_store(), final(rt).spec_env().spec_armed()) == crate::runtime::unbind_run(
                    old(rt).spec_env().spec_store(),
                    old(rt).spec_env().spec_armed(),
                    inv_models(old(rt).spec_env().ctx_acc(*self)),
                )
                &&& final(rt).spec_env().ctx_acc(*self).len() == 0
            },
    {
        rt.dispose_all(*self)
    }
}

impl Fiber {
    /// O-Retire: see [`Runtime::retire`].
    pub fn retire(&self, rt: &mut Runtime)
        ensures
            old(rt).unobserved() ==> final(rt).calm_since(old(rt)),
    {
        rt.retire(self.id)
    }

    /// In-place reconfiguration: see [`Runtime::update`].
    pub fn update(&self, rt: &mut Runtime, config: Value) -> (r: bool)
        requires
            ({
                let s = old(rt).spec_env().spec_fibers();
                let p = crate::env::fiber_pos(s, self.id);
                p < s.len() && (s[p].state is Active || s[p].state matches FiberState::Inactive(Some(_)))
            }),
        ensures
            r == ({
                let s = old(rt).spec_env().spec_fibers();
                let p = crate::env::fiber_pos(s, self.id);
                p < s.len() && (s[p].state is Active || s[p].state matches FiberState::Inactive(Some(_)))
            }),
            !r ==> final(rt).spec_env() == old(rt).spec_env(),
    {
        rt.update(self.id, config)
    }
}

} // verus!
