//! The host environment `γ` as data: the shared coeffect table, the fiber
//! registry, the contexts with their realm redirections and accumulators,
//! the armed flags of the step inverses and the queue of notifications that
//! the runtime still has to propagate.
//!
//! Everything here is plain data; user code (effect steps, inverses,
//! reactors) receives `&mut Env` and changes it only through the methods
//! below. The runtime ([`crate::runtime::Runtime`]) owns the environment
//! together with the user callbacks and propagates the queued work.

use vstd::prelude::*;

use crate::fiber::{Fiber, FiberId, FiberState};
use crate::interp::{pair_view, TargetView};
use crate::keyset::names;
use crate::runtime::RegistryError;
use crate::keyset::KeySet;
use crate::store::{Binding, BindingModel, Store, StoreError, StoreErrorModel};
use crate::symbol::Symbol;
use crate::value::{Key, KeyValue, Value};

verus! {

/// A context handle (`Γ∞` projection): its realm redirection `ρ`, its
/// interception metadata `ι`, its accumulator and the fiber it belongs to
/// live in the environment.
#[derive(Clone, Copy, PartialEq, Eq, Structural, Debug)]
pub struct Context {
    pub(crate) id: usize,
}

/// One step inverse as data. Every inverse carries an armed flag (`guard`)
/// shared by all its copies: it takes effect at most once.
#[derive(Clone, Debug)]
pub enum Inv {
    /// Revoke the binding of `realm` (installed through `ctx`).
    Unbind {
        /// The armed flag.
        guard: usize,
        /// The context that installed the binding.
        ctx: Context,
        /// The realm to revoke.
        realm: Symbol,
    },
    /// Retire `fiber` (the inverse of its registration).
    Retire {
        /// The armed flag.
        guard: usize,
        /// The fiber to retire.
        fiber: FiberId,
    },
    /// Run the user inverse stored under `token` by the runtime.
    User {
        /// The armed flag.
        guard: usize,
        /// The runtime's token for the user inverse.
        token: usize,
    },
}

/// The mathematical content of an [`Inv`].
pub enum InvModel {
    Unbind { guard: usize, ctx: Context, realm: Seq<char> },
    Retire { guard: usize, fiber: FiberId },
    User { guard: usize, token: usize },
}

impl View for Inv {
    type V = InvModel;

    open spec fn view(&self) -> InvModel {
        match self {
            Inv::Unbind { guard, ctx, realm } => InvModel::Unbind { guard: *guard, ctx: *ctx, realm: realm@ },
            Inv::Retire { guard, fiber } => InvModel::Retire { guard: *guard, fiber: *fiber },
            Inv::User { guard, token } => InvModel::User { guard: *guard, token: *token },
        }
    }
}

pub open spec fn inv_models(s: Seq<Inv>) -> Seq<InvModel> {
    s.map_values(|i: Inv| i@)
}

impl Inv {
    pub open spec fn spec_guard(&self) -> usize {
        match self {
            Inv::Unbind { guard, .. } => *guard,
            Inv::Retire { guard, .. } => *guard,
            Inv::User { guard, .. } => *guard,
        }
    }

    /// The armed flag of the inverse.
    pub fn guard(&self) -> (r: usize)
        ensures
            r == self.spec_guard(),
    {
        match self {
            Inv::Unbind { guard, .. } => *guard,
            Inv::Retire { guard, .. } => *guard,
            Inv::User { guard, .. } => *guard,
        }
    }

    /// A copy of the inverse.
    pub fn duplicate(&self) -> (r: Inv)
        ensures
            r@ == self@,
            r.spec_guard() == self.spec_guard(),
    {
        match self {
            Inv::Unbind { guard, ctx, realm } => Inv::Unbind { guard: *guard, ctx: *ctx, realm: realm.clone() },
            Inv::Retire { guard, fiber } => Inv::Retire { guard: *guard, fiber: *fiber },
            Inv::User { guard, token } => Inv::User { guard: *guard, token: *token },
        }
    }
}

/// Copies a list of inverses.
pub fn clone_invs(v: &Vec<Inv>) -> (r: Vec<Inv>)
    ensures
        inv_models(r@) == inv_models(v@),
{
    let mut out: Vec<Inv> = Vec::new();
    let mut i: usize = 0;
    while i < v.len()
        invariant
            i <= v.len(),
            out@.len() == i,
            forall|j: int| 0 <= j < i ==> (#[trigger] out@[j])@ == v@[j]@,
        decreases v.len() - i,
    {
        out.push(v[i].duplicate());
        i = i + 1;
    }
    assert(inv_models(out@) =~= inv_models(v@));
    out
}

/// Work queued for the runtime: a binding change to propagate, or a fiber
/// whose target must be recomputed.
#[derive(Debug)]
pub enum Pending {
    /// `notify(ctx, [realm])`.
    Notify {
        /// The notifying context.
        ctx: Context,
        /// The resolved realm that changed.
        realm: Symbol,
    },
    /// `refresh(fiber)`.
    Refresh(FiberId),
}

/// A context record: fiber ownership, realm redirection `ρ` (first match
/// wins), interception metadata `ι` (first match wins) and accumulator.
#[derive(Debug)]
pub struct CtxRec {
    pub(crate) fiber: Option<FiberId>,
    pub(crate) realms: Vec<(Symbol, Symbol)>,
    pub(crate) meta: Vec<(Symbol, Value)>,
    pub(crate) acc: Vec<Inv>,
}

pub open spec fn realm_pairs(s: Seq<(Symbol, Symbol)>) -> Seq<(Seq<char>, Seq<char>)> {
    s.map_values(|p: (Symbol, Symbol)| (p.0@, p.1@))
}

/// `ρ(k)`: the first redirection of `k`, or `k` itself (`R ⊇ K`).
pub open spec fn resolve(s: Seq<(Seq<char>, Seq<char>)>, k: Seq<char>) -> Seq<char>
    decreases s.len(),
{
    if s.len() == 0 {
        k
    } else if s[0].0 == k {
        s[0].1
    } else {
        resolve(s.drop_first(), k)
    }
}

/// The registry position of the first fiber named `id` (the length when
/// there is none).
pub open spec fn fiber_pos(s: Seq<Fiber>, id: FiberId) -> int
    decreases s.len(),
{
    if s.len() == 0 {
        0
    } else if s[0].id == id {
        0
    } else {
        1 + fiber_pos(s.drop_first(), id)
    }
}

/// With no fiber named `id` before position `i`, the first one is at `i`.
pub proof fn lemma_fiber_pos(s: Seq<Fiber>, id: FiberId, i: int)
    requires
        0 <= i <= s.len(),
        forall|j: int| 0 <= j < i ==> s[j].id != id,
        i < s.len() ==> s[i].id == id,
    ensures
        fiber_pos(s, id) == i,
    decreases i,
{
    if i > 0 {
        assert forall|j: int| 0 <= j < i - 1 implies s.drop_first()[j].id != id by {
            assert(s.drop_first()[j] == s[j + 1]);
        }
        if i < s.len() {
            assert(s.drop_first()[i - 1] == s[i]);
        }
        lemma_fiber_pos(s.drop_first(), id, i - 1);
    }
}

/// An inverse that would revoke `from` revokes `to` instead.
pub open spec fn retargeted(inv: InvModel, from: Seq<char>, to: Seq<char>) -> InvModel {
    match inv {
        InvModel::Unbind { guard, ctx, realm } => if realm == from {
            InvModel::Unbind { guard, ctx, realm: to }
        } else {
            inv
        },
        _ => inv,
    }
}

/// The first metadata recorded for `k`.
/// Keeps the metadata pairs of keys other than `k`.
pub open spec fn other_key(k: Seq<char>) -> spec_fn((Seq<char>, crate::value::ValueModel)) -> bool {
    |p: (Seq<char>, crate::value::ValueModel)| p.0 != k
}

pub open spec fn meta_of(s: Seq<(Seq<char>, crate::value::ValueModel)>, k: Seq<char>) -> Option<crate::value::ValueModel>
    decreases s.len(),
{
    if s.len() == 0 {
        None
    } else if s[0].0 == k {
        Some(s[0].1)
    } else {
        meta_of(s.drop_first(), k)
    }
}

pub open spec fn meta_pairs(s: Seq<(Symbol, Value)>) -> Seq<(Seq<char>, crate::value::ValueModel)> {
    s.map_values(|p: (Symbol, Value)| (p.0@, p.1@))
}

/// The environment `γ`.
#[derive(Debug)]
pub struct Env {
    pub(crate) store: Store,
    pub(crate) fibers: Vec<Fiber>,
    pub(crate) contexts: Vec<CtxRec>,
    pub(crate) armed: Vec<bool>,
    pub(crate) pending: Vec<Pending>,
    pub(crate) declared: Vec<(KeySet, KeySet)>,
    pub(crate) next: u64,
}

/// The registry's names: strictly ascending in registration order and
/// below the counter of fresh names (so no name occurs twice, and a fresh
/// name is new).
pub open spec fn names_ascending(fs: Seq<Fiber>, next: u64) -> bool {
    &&& forall|i: int, j: int| 0 <= i < j < fs.len() ==> (#[trigger] fs[i]).id.0 < (#[trigger] fs[j]).id.0
    &&& forall|i: int| 0 <= i < fs.len() ==> (#[trigger] fs[i]).id.0 < next
}

/// `a` and `b` declare the same components and have the same counter of
/// fresh names.
pub open spec fn same_components(a: Env, b: Env) -> bool {
    &&& a.n_declared() == b.n_declared()
    &&& forall|c: usize| #[trigger] a.declared_provide(c) == b.declared_provide(c)
    &&& a.spec_next() == b.spec_next()
}

/// `after` is `before` once `set` bound `value` (of key `K`) in `ctx` and
/// returned `inv`: the key's realm was free and is now bound to the value,
/// provided by the context's fiber; the inverse unbinds it under a fresh
/// armed guard; the context still resolves every key as before.
pub open spec fn set_step<K: Key>(before: Env, after: Env, ctx: Context, value: K::Value, inv: InvModel) -> bool {
    let realm = before.realm_of(ctx, K::SYMBOL@);
    &&& !before.spec_store().contains_key(realm)
    &&& after.spec_store() == before.spec_store().insert(
        realm,
        BindingModel { value: value.encoding(), provider: before.ctx_fiber(ctx) },
    )
    &&& inv == InvModel::Unbind { guard: before.spec_armed().len() as usize, ctx, realm }
    &&& after.spec_armed() == before.spec_armed().push(true)
    &&& forall|k: Seq<char>| #[trigger] after.realm_of(ctx, k) == before.realm_of(ctx, k)
    &&& forall|c: Context| #[trigger] after.ctx_valid(c) == before.ctx_valid(c)
    &&& forall|c: Context, k: Seq<char>| #[trigger] after.may_write(c, k) == before.may_write(c, k)
    &&& after.spec_fibers() == before.spec_fibers()
}

/// Two environments with the same contexts resolve, attribute and annotate
/// every context alike.
/// Equal context tables are the same contexts.
pub(crate) proof fn lemma_contexts_eq(a: Env, b: Env)
    requires
        a.contexts == b.contexts,
    ensures
        a.same_contexts(&b),
        b.same_contexts(&a),
{
}

/// Having the same contexts is transitive.
pub proof fn lemma_same_contexts_trans(a: Env, b: Env, c: Env)
    requires
        a.same_contexts(&b),
        b.same_contexts(&c),
    ensures
        a.same_contexts(&c),
        c.same_contexts(&a),
{
}

pub proof fn lemma_same_contexts(a: Env, b: Env)
    requires
        a.same_contexts(&b),
    ensures
        forall|c: Context, k: Seq<char>| #[trigger] a.realm_of(c, k) == b.realm_of(c, k),
        forall|c: Context| #[trigger] a.ctx_valid(c) == b.ctx_valid(c),
        forall|c: Context| #[trigger] a.ctx_fiber(c) == b.ctx_fiber(c),
        forall|c: Context| #[trigger] a.ctx_meta(c) == b.ctx_meta(c),
        forall|c: Context| #[trigger] a.ctx_acc(c) == b.ctx_acc(c),
        a.spec_fibers() == b.spec_fibers() ==> forall|c: Context, k: Seq<char>| #[trigger] a.may_write(c, k) == b.may_write(c, k),
{
}

/// Read after write: once `set` has bound `value` in `ctx`, the key's realm
/// holds a binding that decodes as the key's type, with `value`'s encoding
/// (so `get` in `ctx` reads it back).
pub proof fn law_read_after_write<K: Key>(before: Env, after: Env, ctx: Context, value: K::Value, inv: InvModel)
    requires
        set_step::<K>(before, after, ctx, value, inv),
    ensures
        after.spec_store().contains_key(after.realm_of(ctx, K::SYMBOL@)),
        K::Value::decodes(after.spec_store()[after.realm_of(ctx, K::SYMBOL@)].value),
        after.spec_store()[after.realm_of(ctx, K::SYMBOL@)].value == value.encoding(),
{
    value.lemma_round_trip();
    assert(after.realm_of(ctx, K::SYMBOL@) == before.realm_of(ctx, K::SYMBOL@));
}

/// Undo restores: running the inverse that `set` returned, while it is
/// still armed, gives back the store as it was before the `set`.
pub proof fn law_set_then_undo<K: Key>(before: Env, mid: Env, after: Env, ctx: Context, value: K::Value, inv: InvModel)
    requires
        set_step::<K>(before, mid, ctx, value, inv),
        inv matches InvModel::Unbind { realm, .. } && after.spec_store() == mid.spec_store().remove(realm),
    ensures
        after.spec_store() == before.spec_store(),
{
    assert(after.spec_store() =~= before.spec_store());
}

/// The first record named `id` is active.
pub open spec fn active_in(fs: Seq<Fiber>, id: FiberId) -> bool {
    exists|i: int| 0 <= i < fs.len() && fs[i].id == id && fs[i].state is Active
        && forall|j: int| 0 <= j < i ==> fs[j].id != id
}

impl Env {
    /// Fiber `id` is active (`θ_id = Active`).
    pub closed spec fn active(&self, id: FiberId) -> bool {
        active_in(self.fibers@, id)
    }

    /// The active provider of `k` seen from `ctx` (`σγ`: only
    /// bindings installed by an active fiber count).
    pub closed spec fn active_provider(&self, ctx: Context, k: Seq<char>) -> Option<FiberId> {
        let r = self.realm_of(ctx, k);
        if self.store@.contains_key(r) && self.store@[r].provider is Some
            && self.active(self.store@[r].provider->0) {
            self.store@[r].provider
        } else {
            None
        }
    }

    /// `target_n(γ)` of a fiber record: `None` (`⊥`) when
    /// retired or some declared key has no active provider, otherwise each
    /// declared key with its provider, in declaration order.
    pub closed spec fn target_spec(&self, f: Fiber) -> Option<Seq<(Seq<char>, FiberId)>> {
        if f.retired || exists|k: Seq<char>| f.inject@.contains(k) && self.active_provider(f.ctx, k) is None {
            None
        } else {
            Some(f.inject.elems().map_values(|k: Seq<char>| (k, self.active_provider(f.ctx, k)->0)))
        }
    }

    /// A fiber is settled: inactive with target `⊥`, active with its target
    /// as committed view, or ended in a failure (which only a change of its
    /// target retries).
    pub closed spec fn at_target(&self, f: Fiber) -> bool {
        match f.state {
            FiberState::Inactive(None) => self.target_spec(f) is None,
            FiberState::Inactive(Some(_)) => true,
            FiberState::Active { view } => self.target_spec(f) == Some(view@),
            _ => false,
        }
    }

    /// `quiet(γ)`: every fiber is at its target or ended in a failure.
    pub closed spec fn quiet(&self) -> bool {
        forall|i: int| 0 <= i < self.fibers@.len() ==> self.at_target(#[trigger] self.fibers@[i])
    }

    /// The realms installed by active fibers (`σγ`).
    pub closed spec fn provided_realms(&self) -> Set<Seq<char>> {
        Set::new(|r: Seq<char>| self.store@.contains_key(r) && self.store@[r].provider is Some
            && self.active(self.store@[r].provider->0))
    }

    pub closed spec fn spec_store(&self) -> Map<Seq<char>, BindingModel> {
        self.store@
    }

    pub closed spec fn spec_fibers(&self) -> Seq<Fiber> {
        self.fibers@
    }

    pub closed spec fn spec_armed(&self) -> Seq<bool> {
        self.armed@
    }

    pub closed spec fn spec_pending(&self) -> Seq<Pending> {
        self.pending@
    }

    pub closed spec fn ctx_valid(&self, ctx: Context) -> bool {
        ctx.id < self.contexts@.len()
    }

    pub closed spec fn ctx_fiber(&self, ctx: Context) -> Option<FiberId> {
        if self.ctx_valid(ctx) { self.contexts@[ctx.id as int].fiber } else { None }
    }

    pub closed spec fn ctx_realms(&self, ctx: Context) -> Seq<(Seq<char>, Seq<char>)> {
        if self.ctx_valid(ctx) { realm_pairs(self.contexts@[ctx.id as int].realms@) } else { Seq::empty() }
    }

    pub closed spec fn ctx_acc(&self, ctx: Context) -> Seq<Inv> {
        if self.ctx_valid(ctx) { self.contexts@[ctx.id as int].acc@ } else { Seq::empty() }
    }

    pub closed spec fn ctx_meta(&self, ctx: Context) -> Seq<(Seq<char>, crate::value::ValueModel)> {
        if self.ctx_valid(ctx) { meta_pairs(self.contexts@[ctx.id as int].meta@) } else { Seq::empty() }
    }

    /// `self` has exactly the contexts of `other`.
    pub closed spec fn same_contexts(&self, other: &Env) -> bool {
        self.contexts == other.contexts
    }

    /// Every context of `old` is still there, unchanged.
    pub closed spec fn keeps_contexts(&self, old: &Env) -> bool {
        &&& old.contexts@.len() <= self.contexts@.len()
        &&& forall|i: int| 0 <= i < old.contexts@.len() ==> self.contexts@[i] == old.contexts@[i]
    }

    /// `ρ(k)` in `ctx`.
    pub closed spec fn realm_of(&self, ctx: Context, k: Seq<char>) -> Seq<char> {
        resolve(self.ctx_realms(ctx), k)
    }

    /// An empty environment.
    pub fn new() -> (r: Env)
        ensures
            r.spec_store() == Map::<Seq<char>, BindingModel>::empty(),
            r.spec_fibers().len() == 0,
            r.spec_pending().len() == 0,
            r.spec_armed().len() == 0,
            r.n_declared() == 0,
            r.spec_next() == 0,
            forall|c: Context| !(#[trigger] r.ctx_valid(c)),
            names_ascending(r.spec_fibers(), r.spec_next()),
    {
        Env {
            store: Store::new(),
            fibers: Vec::new(),
            contexts: Vec::new(),
            armed: Vec::new(),
            pending: Vec::new(),
            declared: Vec::new(),
            next: 0,
        }
    }

    /// The shared table `σ`.
    pub fn store(&self) -> (r: &Store)
        ensures
            r@ == self.spec_store(),
    {
        &self.store
    }

    /// The registry records, in registration order.
    pub fn fibers(&self) -> (r: &Vec<Fiber>)
        ensures
            r@ == self.spec_fibers(),
    {
        &self.fibers
    }

    fn push_context(&mut self, rec: CtxRec) -> (r: Context)
        ensures
            r.id == old(self).contexts@.len(),
            final(self).contexts@ == old(self).contexts@.push(rec),
            final(self).store == old(self).store,
            final(self).fibers == old(self).fibers,
            final(self).armed == old(self).armed,
            final(self).pending == old(self).pending,
            final(self).declared == old(self).declared,
            final(self).next == old(self).next,
    {
        let id = self.contexts.len();
        self.contexts.push(rec);
        Context { id }
    }

    /// A new root context (no fiber, identity `ρ`, no metadata).
    pub(crate) fn root_context(&mut self) -> (r: Context)
        ensures
            final(self).ctx_valid(r),
            final(self).ctx_fiber(r) is None,
            final(self).ctx_realms(r).len() == 0,
            final(self).ctx_acc(r).len() == 0,
            final(self).spec_store() == old(self).spec_store(),
            final(self).spec_fibers() == old(self).spec_fibers(),
            final(self).keeps_contexts(&*old(self)),
            final(self).n_declared() == old(self).n_declared(),
            forall|k: Seq<char>| #[trigger] final(self).may_write(r, k),
            final(self).spec_armed() == old(self).spec_armed(),
    {
        let rec = CtxRec { fiber: None, realms: Vec::new(), meta: Vec::new(), acc: Vec::new() };
        let r = self.push_context(rec);
        proof {
            assert(final(self).ctx_realms(r) =~= Seq::<(Seq<char>, Seq<char>)>::empty());
        }
        r
    }

    /// The fiber that `ctx` belongs to (`None` = root or orchestrator).
    pub fn fiber_of(&self, ctx: Context) -> (r: Option<FiberId>)
        ensures
            r == self.ctx_fiber(ctx),
    {
        if ctx.id >= self.contexts.len() {
            return None;
        }
        self.contexts[ctx.id].fiber
    }

    /// `ρ(k)`: the realm that `key` resolves to in `ctx`.
    pub fn resolve_realm(&self, ctx: Context, key: &Symbol) -> (r: Symbol)
        ensures
            r@ == self.realm_of(ctx, key@),
    {
        if ctx.id >= self.contexts.len() {
            return key.clone();
        }
        let realms = &self.contexts[ctx.id].realms;
        let mut i: usize = 0;
        assert(realm_pairs(realms@).skip(0) =~= realm_pairs(realms@));
        while i < realms.len()
            invariant
                i <= realms.len(),
                ctx.id < self.contexts@.len(),
                realms == &self.contexts@[ctx.id as int].realms,
                resolve(realm_pairs(realms@), key@) == resolve(realm_pairs(realms@).skip(i as int), key@),
            decreases realms.len() - i,
        {
            proof {
                let s = realm_pairs(realms@).skip(i as int);
                assert(s.drop_first() =~= realm_pairs(realms@).skip(i as int + 1));
                assert(s[0] == (realms@[i as int].0@, realms@[i as int].1@));
            }
            if realms[i].0.same(key) {
                return realms[i].1.clone();
            }
            i = i + 1;
        }
        proof {
            assert(realm_pairs(realms@).skip(i as int).len() == 0);
        }
        key.clone()
    }

    fn copy_realms(&self, ctx: Context) -> (r: Vec<(Symbol, Symbol)>)
        ensures
            realm_pairs(r@) == self.ctx_realms(ctx),
    {
        if ctx.id >= self.contexts.len() {
            let e: Vec<(Symbol, Symbol)> = Vec::new();
            assert(realm_pairs(e@) =~= Seq::<(Seq<char>, Seq<char>)>::empty());
            return e;
        }
        let src = &self.contexts[ctx.id].realms;
        let mut out: Vec<(Symbol, Symbol)> = Vec::new();
        let mut i: usize = 0;
        while i < src.len()
            invariant
                i <= src.len(),
                src == &self.contexts@[ctx.id as int].realms,
                out@.len() == i,
                forall|j: int| 0 <= j < i ==> (#[trigger] out@[j]).0@ == src@[j].0@ && out@[j].1@ == src@[j].1@,
            decreases src.len() - i,
        {
            out.push((src[i].0.clone(), src[i].1.clone()));
            i = i + 1;
        }
        assert(realm_pairs(out@) =~= realm_pairs(src@));
        out
    }

    fn copy_meta(&self, ctx: Context) -> (r: Vec<(Symbol, Value)>)
        ensures
            meta_pairs(r@) == self.ctx_meta(ctx),
    {
        if ctx.id >= self.contexts.len() {
            let e: Vec<(Symbol, Value)> = Vec::new();
            assert(meta_pairs(e@) =~= Seq::<(Seq<char>, crate::value::ValueModel)>::empty());
            return e;
        }
        let src = &self.contexts[ctx.id].meta;
        let mut out: Vec<(Symbol, Value)> = Vec::new();
        let mut i: usize = 0;
        while i < src.len()
            invariant
                i <= src.len(),
                src == &self.contexts@[ctx.id as int].meta,
                out@.len() == i,
                forall|j: int| 0 <= j < i ==> (#[trigger] out@[j]).0@ == src@[j].0@ && out@[j].1@ == src@[j].1@,
            decreases src.len() - i,
        {
            out.push((src[i].0.clone(), src[i].1.clone()));
            i = i + 1;
        }
        assert(meta_pairs(out@) =~= meta_pairs(src@));
        out
    }

    /// A context derived from `ctx` that belongs to `fiber`: same `ρ` and
    /// `ι`, empty accumulator.
    pub(crate) fn derive_for(&mut self, ctx: Context, fiber: Option<FiberId>) -> (r: Context)
        ensures
            final(self).ctx_valid(r),
            r.id == old(self).contexts@.len(),
            final(self).ctx_fiber(r) == fiber,
            final(self).ctx_realms(r) == old(self).ctx_realms(ctx),
            forall|k: Seq<char>| #[trigger] final(self).realm_of(r, k) == old(self).realm_of(ctx, k),
            final(self).ctx_meta(r) == old(self).ctx_meta(ctx),
            final(self).ctx_acc(r).len() == 0,
            final(self).spec_store() == old(self).spec_store(),
            final(self).spec_fibers() == old(self).spec_fibers(),
            final(self).spec_armed() == old(self).spec_armed(),
            final(self).spec_pending() == old(self).spec_pending(),
            final(self).keeps_contexts(&*old(self)),
            final(self).next == old(self).next,
            final(self).declared == old(self).declared,
            same_components(*final(self), *old(self)),
    {
        let realms = self.copy_realms(ctx);
        let meta = self.copy_meta(ctx);
        let rec = CtxRec { fiber, realms, meta, acc: Vec::new() };
        self.push_context(rec)
    }

    /// `isolate(k, r)`: a context derived from `ctx` in which `key`
    /// resolves to `realm`; everything else is inherited. The shared table
    /// is not written.
    pub fn isolate(&mut self, ctx: Context, key: Symbol, realm: Symbol) -> (r: Context)
        ensures
            final(self).ctx_valid(r),
            final(self).ctx_fiber(r) == old(self).ctx_fiber(ctx),
            forall|k: Seq<char>| final(self).realm_of(r, k) == if k == key@ { realm@ } else { old(self).realm_of(ctx, k) },
            final(self).ctx_meta(r) == old(self).ctx_meta(ctx),
            final(self).spec_store() == old(self).spec_store(),
            final(self).spec_fibers() == old(self).spec_fibers(),
            final(self).spec_pending() == old(self).spec_pending(),
            final(self).keeps_contexts(&*old(self)),
            same_components(*final(self), *old(self)),
    {
        let old_realms = self.copy_realms(ctx);
        let mut realms: Vec<(Symbol, Symbol)> = Vec::new();
        realms.push((key, realm));
        let ghost head = realms@;
        let mut tail = old_realms;
        realms.append(&mut tail);
        let meta = self.copy_meta(ctx);
        let fiber = self.fiber_of(ctx);
        let rec = CtxRec { fiber, realms, meta, acc: Vec::new() };
        let r = self.push_context(rec);
        proof {
            let s = final(self).ctx_realms(r);
            assert(s.drop_first() =~= old(self).ctx_realms(ctx));
            assert forall|k: Seq<char>| final(self).realm_of(r, k) == if k == key@ { realm@ } else { old(self).realm_of(ctx, k) } by {
                assert(s[0] == (key@, realm@));
            }
        }
        r
    }

    /// `intercept(k, ν)` with right-biased replacement: a context derived
    /// from `ctx` whose metadata at `key` is `meta`; everything else is
    /// inherited.
    pub fn intercept(&mut self, ctx: Context, key: Symbol, meta: Value) -> (r: Context)
        ensures
            final(self).ctx_valid(r),
            final(self).ctx_fiber(r) == old(self).ctx_fiber(ctx),
            final(self).ctx_realms(r) == old(self).ctx_realms(ctx),
            forall|k: Seq<char>| meta_of(final(self).ctx_meta(r), k) == if k == key@ { Some(meta@) } else { meta_of(old(self).ctx_meta(ctx), k) },
            final(self).spec_store() == old(self).spec_store(),
            final(self).spec_fibers() == old(self).spec_fibers(),
            final(self).spec_pending() == old(self).spec_pending(),
            final(self).keeps_contexts(&*old(self)),
    {
        let realms = self.copy_realms(ctx);
        let old_meta = self.copy_meta(ctx);
        let mut metas: Vec<(Symbol, Value)> = Vec::new();
        let ghost mv = meta@;
        let ghost kv = key@;
        metas.push((key, meta));
        let mut tail = old_meta;
        metas.append(&mut tail);
        let fiber = self.fiber_of(ctx);
        let rec = CtxRec { fiber, realms, meta: metas, acc: Vec::new() };
        let r = self.push_context(rec);
        proof {
            let s = final(self).ctx_meta(r);
            assert(s.drop_first() =~= old(self).ctx_meta(ctx));
            assert(s[0] == (kv, mv));
        }
        r
    }

    /// The metadata recorded at `key` in `ctx`.
    pub fn meta(&self, ctx: Context, key: &Symbol) -> (r: Option<Value>)
        ensures
            match r {
                Some(v) => meta_of(self.ctx_meta(ctx), key@) == Some(v@),
                None => meta_of(self.ctx_meta(ctx), key@) is None,
            },
    {
        if ctx.id >= self.contexts.len() {
            return None;
        }
        let metas = &self.contexts[ctx.id].meta;
        let mut i: usize = 0;
        assert(meta_pairs(metas@).skip(0) =~= meta_pairs(metas@));
        while i < metas.len()
            invariant
                i <= metas.len(),
                ctx.id < self.contexts@.len(),
                metas == &self.contexts@[ctx.id as int].meta,
                meta_of(meta_pairs(metas@), key@) == meta_of(meta_pairs(metas@).skip(i as int), key@),
            decreases metas.len() - i,
        {
            proof {
                let s = meta_pairs(metas@).skip(i as int);
                assert(s.drop_first() =~= meta_pairs(metas@).skip(i as int + 1));
                assert(s[0] == (metas@[i as int].0@, metas@[i as int].1@));
            }
            if metas[i].0.same(key) {
                return Some(metas[i].1.clone());
            }
            i = i + 1;
        }
        proof {
            assert(meta_pairs(metas@).skip(i as int).len() == 0);
        }
        None
    }

    /// `get(k)`: reads the value bound at `ρ(k)`; `NotBound` when
    /// unbound, `TypeMismatch` when bound under another value type.
    pub fn get<K: Key>(&self, ctx: Context) -> (r: Result<K::Value, StoreError>)
        ensures
            r is Ok <==> self.spec_store().contains_key(self.realm_of(ctx, K::SYMBOL@))
                && K::Value::decodes(self.spec_store()[self.realm_of(ctx, K::SYMBOL@)].value),
            r matches Ok(x) ==> x.encoding() == self.spec_store()[self.realm_of(ctx, K::SYMBOL@)].value,
            r matches Err(e) ==> (e@ == StoreErrorModel::NotBound(self.realm_of(ctx, K::SYMBOL@))
                || e@ == StoreErrorModel::TypeMismatch(self.realm_of(ctx, K::SYMBOL@))),
            r matches Err(e) ==> (e is NotBound <==> !self.spec_store().contains_key(self.realm_of(ctx, K::SYMBOL@))),
    {
        let key = Symbol::intern(K::SYMBOL);
        let realm = self.resolve_realm(ctx, &key);
        self.store.get_at::<K::Value>(realm)
    }

    /// Whether `ρ(k)` is bound in `ctx`.
    pub fn contains(&self, ctx: Context, key: &Symbol) -> (r: bool)
        ensures
            r == self.spec_store().contains_key(self.realm_of(ctx, key@)),
    {
        let realm = self.resolve_realm(ctx, key);
        self.store.contains(realm)
    }

    /// `γ ⊧ d` in `ctx` (through `ρ`): every key of `spec` resolves
    /// to a bound realm.
    pub fn satisfies(&self, ctx: Context, spec: &KeySet) -> (r: bool)
        ensures
            r == (forall|k: Seq<char>| spec@.contains(k) ==> self.spec_store().contains_key(self.realm_of(ctx, k))),
    {
        let keys = spec.iter();
        let mut i: usize = 0;
        while i < keys.len()
            invariant
                i <= keys.len(),
                crate::keyset::names(keys@) == spec.elems(),
                forall|j: int| 0 <= j < i ==> self.spec_store().contains_key(self.realm_of(ctx, (#[trigger] keys@[j])@)),
            decreases keys.len() - i,
        {
            if !self.contains(ctx, &keys[i]) {
                proof {
                    spec.lemma_elems();
                    assert(crate::keyset::names(keys@)[i as int] == keys@[i as int]@);
                    assert(spec@.contains(keys@[i as int]@));
                }
                return false;
            }
            i = i + 1;
        }
        proof {
            spec.lemma_elems();
            assert forall|k: Seq<char>| spec@.contains(k) implies self.spec_store().contains_key(self.realm_of(ctx, k)) by {
                let j = choose|j: int| 0 <= j < spec.elems().len() && spec.elems()[j] == k;
                assert(crate::keyset::names(keys@)[j] == keys@[j]@);
            }
        }
        true
    }

    /// A fresh armed flag.
    pub(crate) fn new_guard(&mut self) -> (r: usize)
        ensures
            r == old(self).spec_armed().len(),
            final(self).spec_armed() == old(self).spec_armed().push(true),
            forall|c: Context| #[trigger] final(self).ctx_valid(c) == old(self).ctx_valid(c) && final(self).ctx_acc(c) == old(self).ctx_acc(c),
            final(self).spec_store() == old(self).spec_store(),
            final(self).spec_fibers() == old(self).spec_fibers(),
            final(self).contexts == old(self).contexts,
            final(self).spec_pending() == old(self).spec_pending(),
            final(self).declared == old(self).declared,
            final(self).next == old(self).next,
    {
        let g = self.armed.len();
        self.armed.push(true);
        g
    }

    /// Appends `inv` to the accumulator of `ctx`.
    pub(crate) fn push_acc(&mut self, ctx: Context, inv: Inv)
        requires
            old(self).ctx_valid(ctx),
        ensures
            final(self).ctx_acc(ctx) == old(self).ctx_acc(ctx).push(inv),
            final(self).contexts@.len() == old(self).contexts@.len(),
            forall|c: Context| old(self).ctx_valid(c) && c != ctx ==> final(self).contexts@[c.id as int] == old(self).contexts@[c.id as int],
            final(self).ctx_fiber(ctx) == old(self).ctx_fiber(ctx),
            final(self).ctx_realms(ctx) == old(self).ctx_realms(ctx),
            final(self).ctx_meta(ctx) == old(self).ctx_meta(ctx),
            final(self).spec_store() == old(self).spec_store(),
            final(self).spec_fibers() == old(self).spec_fibers(),
            final(self).spec_armed() == old(self).spec_armed(),
            final(self).spec_pending() == old(self).spec_pending(),
            final(self).declared == old(self).declared,
            final(self).next == old(self).next,
    {
        let mut rec = CtxRec { fiber: None, realms: Vec::new(), meta: Vec::new(), acc: Vec::new() };
        std::mem::swap(&mut rec, &mut self.contexts[ctx.id]);
        rec.acc.push(inv);
        std::mem::swap(&mut rec, &mut self.contexts[ctx.id]);
    }

    /// Takes the accumulator of `ctx`, leaving it empty.
    pub(crate) fn take_acc(&mut self, ctx: Context) -> (r: Vec<Inv>)
        requires
            old(self).ctx_valid(ctx),
        ensures
            r@ == old(self).ctx_acc(ctx),
            final(self).ctx_acc(ctx).len() == 0,
            final(self).contexts@.len() == old(self).contexts@.len(),
            forall|c: Context| old(self).ctx_valid(c) && c != ctx ==> final(self).contexts@[c.id as int] == old(self).contexts@[c.id as int],
            final(self).ctx_fiber(ctx) == old(self).ctx_fiber(ctx),
            final(self).ctx_realms(ctx) == old(self).ctx_realms(ctx),
            final(self).ctx_meta(ctx) == old(self).ctx_meta(ctx),
            final(self).spec_store() == old(self).spec_store(),
            final(self).spec_fibers() == old(self).spec_fibers(),
            final(self).spec_armed() == old(self).spec_armed(),
            final(self).spec_pending() == old(self).spec_pending(),
    {
        let mut rec = CtxRec { fiber: None, realms: Vec::new(), meta: Vec::new(), acc: Vec::new() };
        std::mem::swap(&mut rec, &mut self.contexts[ctx.id]);
        let mut acc: Vec<Inv> = Vec::new();
        std::mem::swap(&mut acc, &mut rec.acc);
        std::mem::swap(&mut rec, &mut self.contexts[ctx.id]);
        acc
    }

    /// Whether the writer owning `ctx` may write `key`: the root may write
    /// anything, a fiber only its provisions.
    pub closed spec fn may_write(&self, ctx: Context, key: Seq<char>) -> bool {
        match self.ctx_fiber(ctx) {
            None => true,
            Some(n) => exists|i: int| 0 <= i < self.fibers@.len() && self.fibers@[i].id == n
                && self.fibers@[i].provide@.contains(key),
        }
    }

    /// Whether the writer owning `ctx` may write `key`.
    pub fn may_set(&self, ctx: Context, key: &Symbol) -> (r: bool)
        ensures
            r == self.may_write(ctx, key@),
    {
        let n = match self.fiber_of(ctx) {
            None => return true,
            Some(n) => n,
        };
        let mut i: usize = 0;
        while i < self.fibers.len()
            invariant
                i <= self.fibers.len(),
                self.ctx_fiber(ctx) == Some(n),
                forall|j: int| 0 <= j < i ==> !(self.fibers@[j].id == n && self.fibers@[j].provide@.contains(key@)),
            decreases self.fibers.len() - i,
        {
            if self.fibers[i].id == n && self.fibers[i].provide.contains(key.clone()) {
                return true;
            }
            i = i + 1;
        }
        false
    }

    /// Queues a notification of `realm` through `ctx`.
    pub(crate) fn push_notify(&mut self, ctx: Context, realm: Symbol)
        ensures
            final(self).spec_pending() == old(self).spec_pending().push(Pending::Notify { ctx, realm }),
            final(self).spec_store() == old(self).spec_store(),
            final(self).spec_fibers() == old(self).spec_fibers(),
            final(self).contexts == old(self).contexts,
            final(self).spec_armed() == old(self).spec_armed(),
            final(self).declared == old(self).declared,
            final(self).next == old(self).next,
    {
        self.pending.push(Pending::Notify { ctx, realm });
    }

    /// Queues a refresh of `fiber`.
    pub(crate) fn push_refresh(&mut self, fiber: FiberId)
        ensures
            final(self).spec_pending() == old(self).spec_pending().push(Pending::Refresh(fiber)),
            final(self).spec_store() == old(self).spec_store(),
            final(self).spec_fibers() == old(self).spec_fibers(),
            final(self).contexts == old(self).contexts,
            final(self).spec_armed() == old(self).spec_armed(),
            final(self).declared == old(self).declared,
            final(self).next == old(self).next,
    {
        self.pending.push(Pending::Refresh(fiber));
    }

    /// Takes the queued work, leaving the queue empty.
    pub(crate) fn take_pending(&mut self) -> (r: Vec<Pending>)
        ensures
            r@ == old(self).spec_pending(),
            final(self).spec_pending().len() == 0,
            final(self).spec_store() == old(self).spec_store(),
            final(self).spec_fibers() == old(self).spec_fibers(),
            final(self).contexts == old(self).contexts,
            final(self).spec_armed() == old(self).spec_armed(),
    {
        let mut out: Vec<Pending> = Vec::new();
        std::mem::swap(&mut out, &mut self.pending);
        out
    }

    /// `set(k, v)`: binds `ρ(k)` to `value`, installed
    /// by the fiber of `ctx`. The binding is a reversible effect: its
    /// inverse is appended to the accumulator of `ctx` and returned (both
    /// copies share one armed flag), and the change is queued for
    /// notification. `AlreadyBound(k)` (and no change) when `ρ(k)` is bound.
    pub fn set<K: Key>(&mut self, ctx: Context, value: K::Value) -> (r: Result<Inv, StoreError>)
        requires
            old(self).ctx_valid(ctx),
            old(self).may_write(ctx, K::SYMBOL@),
        ensures
            r is Err <==> old(self).spec_store().contains_key(old(self).realm_of(ctx, K::SYMBOL@)),
            r matches Err(e) ==> e@ == StoreErrorModel::AlreadyBound(K::SYMBOL@) && *final(self) == *old(self),
            r matches Ok(inv) ==> {
                let realm = old(self).realm_of(ctx, K::SYMBOL@);
                &&& final(self).spec_store() == old(self).spec_store().insert(realm,
                        BindingModel { value: value.encoding(), provider: old(self).ctx_fiber(ctx) })
                &&& inv@ == InvModel::Unbind { guard: old(self).spec_armed().len() as usize, ctx, realm }
                &&& final(self).spec_armed() == old(self).spec_armed().push(true)
                &&& inv_models(final(self).ctx_acc(ctx)) == inv_models(old(self).ctx_acc(ctx)).push(inv@)
                &&& final(self).spec_pending().len() == old(self).spec_pending().len() + 1
                &&& final(self).spec_pending().last() matches Pending::Notify { ctx: c2, realm: s2 } && c2 == ctx && s2@ == realm
                &&& final(self).spec_fibers() == old(self).spec_fibers()
                &&& set_step::<K>(*old(self), *final(self), ctx, value, inv@)
            },
    {
        let key = Symbol::intern(K::SYMBOL);
        let realm = self.resolve_realm(ctx, &key);
        if self.store.contains(realm.clone()) {
            return Err(StoreError::AlreadyBound(key));
        }
        let owner = self.fiber_of(ctx);
        let _ = self.store.bind_at(realm.clone(), value.encode(), owner);
        let guard = self.new_guard();
        let inv = Inv::Unbind { guard, ctx, realm: realm.clone() };
        let ghost pre = *self;
        self.push_acc(ctx, inv.duplicate());
        let ghost post = *self;
        self.push_notify(ctx, realm);
        proof {
            assert(inv_models(final(self).ctx_acc(ctx)) =~= inv_models(old(self).ctx_acc(ctx)).push(inv@));
            assert forall|k: Seq<char>| #[trigger] self.realm_of(ctx, k) == old(self).realm_of(ctx, k) by {}
            assert forall|c: Context, k: Seq<char>| #[trigger] self.may_write(c, k) == old(self).may_write(c, k) by {
                assert(pre.contexts == old(self).contexts);
                if self.ctx_valid(c) && c.id != ctx.id {
                    assert(c != ctx);
                    assert(self.contexts == post.contexts);
                    assert(pre.ctx_valid(c));
                    assert(post.contexts@[c.id as int] == pre.contexts@[c.id as int]);
                    assert(self.ctx_fiber(c) == old(self).ctx_fiber(c));
                } else if c.id == ctx.id {
                    assert(self.ctx_fiber(c) == self.ctx_fiber(ctx));
                    assert(old(self).ctx_fiber(c) == old(self).ctx_fiber(ctx));
                }
            }
        }
        Ok(inv)
    }

    /// Runs an engine inverse if its flag is still armed, disarming it:
    /// `Unbind` revokes the binding and queues the notification; `Retire`
    /// marks the fiber retired and queues its refresh. User inverses are run
    /// by the runtime; here they are only disarmed. Returns whether the flag
    /// was armed.
    pub fn run_inv(&mut self, inv: &Inv) -> (r: bool)
        ensures
            r == (inv.spec_guard() < old(self).spec_armed().len() && old(self).spec_armed()[inv.spec_guard() as int]),
            r ==> final(self).spec_armed() == old(self).spec_armed().update(inv.spec_guard() as int, false),
            !r ==> *final(self) == *old(self),
            final(self).same_contexts(&*old(self)),
            r ==> match inv {
                Inv::Unbind { realm, .. } => final(self).spec_store() == old(self).spec_store().remove(realm@)
                    && final(self).spec_fibers() == old(self).spec_fibers(),
                Inv::Retire { .. } => final(self).spec_store() == old(self).spec_store(),
                Inv::User { .. } => final(self).spec_store() == old(self).spec_store()
                    && final(self).spec_fibers() == old(self).spec_fibers()
                    && final(self).spec_pending() == old(self).spec_pending(),
            },
    {
        let g = inv.guard();
        if g >= self.armed.len() || !self.armed[g] {
            return false;
        }
        self.armed.set(g, false);
        match inv {
            Inv::Unbind { ctx, realm, .. } => {
                let _ = self.store.unbind_at(realm.clone());
                self.push_notify(*ctx, realm.clone());
            },
            Inv::Retire { fiber, .. } => {
                self.mark_retired(*fiber);
                self.push_refresh(*fiber);
            },
            Inv::User { .. } => {},
        }
        true
    }

    /// The position of fiber `id` in the registry.
    pub fn find(&self, id: FiberId) -> (r: Option<usize>)
        ensures
            r matches Some(i) ==> i == fiber_pos(self.spec_fibers(), id),
            r is None ==> fiber_pos(self.spec_fibers(), id) == self.spec_fibers().len(),
            r is None <==> !(exists|i: int| 0 <= i < self.spec_fibers().len() && self.spec_fibers()[i].id == id),
            r matches Some(i) ==> i < self.spec_fibers().len() && self.spec_fibers()[i as int].id == id
                && forall|j: int| 0 <= j < i ==> self.spec_fibers()[j].id != id,
    {
        let mut i: usize = 0;
        while i < self.fibers.len()
            invariant
                i <= self.fibers.len(),
                forall|j: int| 0 <= j < i ==> self.fibers@[j].id != id,
            decreases self.fibers.len() - i,
        {
            if self.fibers[i].id == id {
                proof {
                    lemma_fiber_pos(self.fibers@, id, i as int);
                }
                return Some(i);
            }
            i = i + 1;
        }
        proof {
            lemma_fiber_pos(self.fibers@, id, i as int);
        }
        None
    }

    /// Marks fiber `id` retired (`τ ← ⊤`); nothing else changes.
    pub(crate) fn mark_retired(&mut self, id: FiberId)
        ensures
            final(self).spec_fibers().len() == old(self).spec_fibers().len(),
            forall|i: int| 0 <= i < old(self).spec_fibers().len() ==> {
                let f0 = #[trigger] old(self).spec_fibers()[i];
                let f1 = final(self).spec_fibers()[i];
                &&& f1.id == f0.id
                &&& f1.retired == (f0.retired || f0.id == id)
                &&& f1.state == f0.state
                &&& f1.parent == f0.parent
                &&& f1.provide@ == f0.provide@
                &&& f1.inject@ == f0.inject@
            },
            final(self).spec_store() == old(self).spec_store(),
            final(self).contexts == old(self).contexts,
            final(self).spec_armed() == old(self).spec_armed(),
            final(self).spec_pending() == old(self).spec_pending(),
    {
        let mut i: usize = 0;
        while i < self.fibers.len()
            invariant
                i <= self.fibers.len(),
                self.fibers@.len() == old(self).fibers@.len(),
                forall|j: int| 0 <= j < self.fibers@.len() ==> {
                    let f0 = #[trigger] old(self).spec_fibers()[j];
                    let f1 = self.fibers@[j];
                    &&& f1.id == f0.id
                    &&& f1.retired == if j < i { f0.retired || f0.id == id } else { f0.retired }
                    &&& f1.state == f0.state
                    &&& f1.parent == f0.parent
                    &&& f1.provide@ == f0.provide@
                    &&& f1.inject@ == f0.inject@
                },
                self.store == old(self).store,
                self.contexts == old(self).contexts,
                self.armed == old(self).armed,
                self.pending == old(self).pending,
            decreases self.fibers.len() - i,
        {
            if self.fibers[i].id == id {
                let mut f = self.fibers.remove(i);
                f.retired = true;
                self.fibers.insert(i, f);
            }
            i = i + 1;
        }
    }
}


impl Env {
    /// The declared `(d, p)` of component `c`.
    pub closed spec fn declared_inject(&self, c: usize) -> Set<Seq<char>> {
        self.declared@[c as int].0@
    }

    pub closed spec fn declared_provide(&self, c: usize) -> Set<Seq<char>> {
        self.declared@[c as int].1@
    }

    /// The declared provision of component `c`, in iteration order.
    pub closed spec fn declared_provide_order(&self, c: usize) -> Seq<Seq<char>> {
        self.declared@[c as int].1.elems()
    }

    pub closed spec fn n_declared(&self) -> nat {
        self.declared@.len()
    }

    pub closed spec fn spec_next(&self) -> u64 {
        self.next
    }

    /// Declares a component's dependencies and provisions; returns its index.
    pub(crate) fn declare(&mut self, inject: KeySet, provide: KeySet) -> (r: usize)
        ensures
            r == old(self).n_declared(),
            final(self).n_declared() == old(self).n_declared() + 1,
            final(self).declared_inject(r) == inject@,
            final(self).declared_provide(r) == provide@,
            forall|c: usize| c < old(self).n_declared() ==> final(self).declared_inject(c) == old(self).declared_inject(c)
                && final(self).declared_provide(c) == old(self).declared_provide(c),
            final(self).spec_fibers() == old(self).spec_fibers(),
            final(self).spec_store() == old(self).spec_store(),
            final(self).keeps_contexts(&*old(self)),
            final(self).spec_next() == old(self).spec_next(),
    {
        let r = self.declared.len();
        self.declared.push((inject, provide));
        r
    }

    /// Whether fiber `id` is active.
    pub fn is_active(&self, id: FiberId) -> (r: bool)
        ensures
            r == self.active(id),
    {
        match self.find(id) {
            Some(i) => self.fibers[i].state.is_active(),
            None => false,
        }
    }

    /// The active provider of `key` seen from `ctx` (`None` when unbound,
    /// installed by the root, or installed by a fiber that is not active).
    pub fn provider_of(&self, ctx: Context, key: &Symbol) -> (r: Option<FiberId>)
        ensures
            r == self.active_provider(ctx, key@),
    {
        let realm = self.resolve_realm(ctx, key);
        match self.store.binding(realm) {
            None => None,
            Some(b) => match b.provider {
                None => None,
                Some(p) => if self.is_active(p) { Some(p) } else { None },
            },
        }
    }

    /// `target_n(γ)` of a fiber record.
    pub fn compute_target(&self, f: &Fiber) -> (r: Option<TargetView>)
        ensures
            crate::fiber::opt_view(r) == self.target_spec(*f),
    {
        if f.retired {
            return None;
        }
        let keys = f.inject.iter();
        let mut entries: Vec<(Symbol, FiberId)> = Vec::new();
        let mut i: usize = 0;
        while i < keys.len()
            invariant
                i <= keys.len(),
                !f.retired,
                names(keys@) == f.inject.elems(),
                entries@.len() == i,
                forall|j: int| 0 <= j < i ==> self.active_provider(f.ctx, (#[trigger] keys@[j])@) is Some
                    && pair_view(entries@[j]) == (keys@[j]@, self.active_provider(f.ctx, keys@[j]@)->0),
            decreases keys.len() - i,
        {
            match self.provider_of(f.ctx, &keys[i]) {
                None => {
                    proof {
                        f.inject.lemma_elems();
                        assert(names(keys@)[i as int] == keys@[i as int]@);
                        assert(f.inject@.contains(keys@[i as int]@));
                    }
                    return None;
                },
                Some(n) => {
                    entries.push((keys[i].clone(), n));
                },
            }
            i = i + 1;
        }
        let t = TargetView::new(entries);
        proof {
            f.inject.lemma_elems();
            assert forall|k: Seq<char>| f.inject@.contains(k) implies self.active_provider(f.ctx, k) is Some by {
                let j = choose|j: int| 0 <= j < f.inject.elems().len() && f.inject.elems()[j] == k;
                assert(names(keys@)[j] == keys@[j]@);
            }
            assert(t@ =~= f.inject.elems().map_values(|k: Seq<char>| (k, self.active_provider(f.ctx, k)->0))) by {
                assert forall|j: int| 0 <= j < t@.len() implies t@[j] == f.inject.elems().map_values(|k: Seq<char>| (k, self.active_provider(f.ctx, k)->0))[j] by {
                    assert(names(keys@)[j] == keys@[j]@);
                }
            }
        }
        Some(t)
    }

    /// Whether record `f` is at its target.
    pub fn fiber_at_target(&self, f: &Fiber) -> (r: bool)
        ensures
            r == self.at_target(*f),
    {
        let t = self.compute_target(f);
        match &f.state {
            FiberState::Inactive(None) => t.is_none(),
            FiberState::Inactive(Some(_)) => true,
            FiberState::Active { view } => match &t {
                Some(tv) => tv.same(view),
                None => false,
            },
            _ => false,
        }
    }

    /// `quiet(γ)`.
    pub fn is_quiet(&self) -> (r: bool)
        ensures
            r == self.quiet(),
    {
        let mut i: usize = 0;
        while i < self.fibers.len()
            invariant
                i <= self.fibers.len(),
                forall|j: int| 0 <= j < i ==> self.at_target(#[trigger] self.fibers@[j]),
            decreases self.fibers.len() - i,
        {
            if !self.fiber_at_target(&self.fibers[i]) {
                return false;
            }
            i = i + 1;
        }
        true
    }

    /// The realms installed by active fibers (`σγ`), in
    /// binding order.
    pub fn provided(&self) -> (r: Vec<Symbol>)
        ensures
            names(r@).to_set() == self.provided_realms(),
            names(r@).no_duplicates(),
    {
        let all = self.store.symbols();
        let mut out: Vec<Symbol> = Vec::new();
        let mut i: usize = 0;
        while i < all.len()
            invariant
                i <= all.len(),
                names(all@) == self.store.order(),
                self.store.order().to_set() == self.store@.dom(),
                self.store.order().no_duplicates(),
                forall|k: Seq<char>| names(out@).contains(k) <==> exists|j: int| 0 <= j < i && names(all@)[j] == k
                    && self.provided_realms().contains(k),
                forall|a: int, b: int| 0 <= a < b < out@.len() ==> out@[a]@ != out@[b]@,
                forall|a: int| 0 <= a < out@.len() ==> exists|j: int| 0 <= j < i && names(all@)[j] == (#[trigger] out@[a])@,
            decreases all.len() - i,
        {
            let ghost before = out@;
            let keep = match self.store.binding(all[i].clone()) {
                Some(b) => match b.provider {
                    Some(p) => self.is_active(p),
                    None => false,
                },
                None => false,
            };
            proof {
                assert(names(all@)[i as int] == all@[i as int]@);
                assert(self.store.order()[i as int] == all@[i as int]@);
                assert(self.store@.dom().contains(all@[i as int]@));
            }
            if keep {
                out.push(all[i].clone());
                proof {
                    assert forall|a: int| 0 <= a < before.len() implies before[a]@ != all@[i as int]@ by {
                        let j = choose|j: int| 0 <= j < i && names(all@)[j] == before[a]@;
                        assert(names(all@)[j] != names(all@)[i as int]);
                    }
                }
            }
            proof {
                assert forall|k: Seq<char>| names(out@).contains(k) <==> exists|j: int| 0 <= j < i + 1 && names(all@)[j] == k
                    && self.provided_realms().contains(k) by {
                    if names(out@).contains(k) {
                        let w = choose|w: int| 0 <= w < names(out@).len() && names(out@)[w] == k;
                        if w < before.len() {
                            assert(names(before)[w] == k);
                            assert(names(before).contains(k));
                        } else {
                            assert(names(all@)[i as int] == k);
                        }
                    }
                    if exists|j: int| 0 <= j < i + 1 && names(all@)[j] == k && self.provided_realms().contains(k) {
                        let j = choose|j: int| 0 <= j < i + 1 && names(all@)[j] == k && self.provided_realms().contains(k);
                        if j == i as int {
                            assert(names(out@)[out@.len() - 1] == k);
                        } else {
                            assert(names(before).contains(k));
                            let w = choose|w: int| 0 <= w < names(before).len() && names(before)[w] == k;
                            assert(names(out@)[w] == k);
                        }
                    }
                }
            }
            i = i + 1;
        }
        proof {
            assert(names(out@).to_set() =~= self.provided_realms()) by {
                assert forall|k: Seq<char>| self.provided_realms().contains(k) implies names(out@).to_set().contains(k) by {
                    assert(self.store@.dom().contains(k));
                    assert(self.store.order().to_set().contains(k));
                    let j = choose|j: int| 0 <= j < self.store.order().len() && self.store.order()[j] == k;
                    assert(names(all@)[j] == k);
                }
            }
            assert forall|a: int, b: int| 0 <= a < b < names(out@).len() implies names(out@)[a] != names(out@)[b] by {}
        }
        out
    }

    /// Whether some registered fiber's provision meets `provide`.
    pub fn clashes(&self, provide: &KeySet) -> (r: bool)
        ensures
            r == exists|i: int| 0 <= i < self.spec_fibers().len()
                && !(#[trigger] self.spec_fibers()[i]).provide@.disjoint(provide@),
    {
        let mut i: usize = 0;
        while i < self.fibers.len()
            invariant
                i <= self.fibers.len(),
                forall|j: int| 0 <= j < i ==> (#[trigger] self.fibers@[j]).provide@.disjoint(provide@),
            decreases self.fibers.len() - i,
        {
            if self.fibers[i].provide.intersects(provide) {
                return true;
            }
            i = i + 1;
        }
        false
    }

    /// `use(ctx, component, config)` as data (O-Insert): a
    /// fresh inactive fiber for component `c` under the fiber of `ctx`, with
    /// its own context derived from `ctx`. Its registration is a reversible
    /// effect of `ctx`: applying it queues the fiber's refresh, its inverse
    /// (appended to the accumulator of `ctx`) retires the fiber.
    /// `ProvisionClash` (and no change) when some registered provision meets
    /// the component's.
    pub fn register(&mut self, ctx: Context, c: usize, config: Value) -> (r: Result<FiberId, RegistryError>)
        requires
            old(self).ctx_valid(ctx),
            c < old(self).n_declared(),
            old(self).spec_next() < u64::MAX,
        ensures
            r is Err <==> exists|i: int| 0 <= i < old(self).spec_fibers().len()
                && !(#[trigger] old(self).spec_fibers()[i]).provide@.disjoint(old(self).declared_provide(c)),
            r matches Err(e) ==> e == RegistryError::ProvisionClash && *final(self) == *old(self),
            names_ascending(old(self).spec_fibers(), old(self).spec_next())
                ==> names_ascending(final(self).spec_fibers(), final(self).spec_next()),
            r matches Ok(id) ==> {
                let f = final(self).spec_fibers().last();
                &&& id == FiberId(old(self).spec_next())
                &&& final(self).spec_next() == old(self).spec_next() + 1
                &&& final(self).spec_fibers().len() == old(self).spec_fibers().len() + 1
                &&& final(self).spec_fibers().drop_last() == old(self).spec_fibers()
                &&& f.id == id
                &&& f.parent == old(self).ctx_fiber(ctx)
                &&& f.inject@ == old(self).declared_inject(c)
                &&& f.provide@ == old(self).declared_provide(c)
                &&& f.component == c
                &&& f.config@ == config@
                &&& !f.retired
                &&& f.state matches FiberState::Inactive(None)
                &&& f.target is None
                &&& f.committed is None
                &&& f.dispose@.len() == 0
                &&& !f.suspended
                &&& final(self).ctx_valid(f.ctx)
                &&& final(self).ctx_fiber(f.ctx) == Some(id)
                &&& final(self).ctx_realms(f.ctx) == old(self).ctx_realms(ctx)
                &&& final(self).spec_store() == old(self).spec_store()
                &&& inv_models(final(self).ctx_acc(ctx)) == inv_models(old(self).ctx_acc(ctx)).push(
                        InvModel::Retire { guard: old(self).spec_armed().len() as usize, fiber: id })
                &&& final(self).spec_pending() == old(self).spec_pending().push(Pending::Refresh(id))
            },
    {
        let provide = self.declared[c].1.clone();
        if self.clashes(&provide) {
            return Err(RegistryError::ProvisionClash);
        }
        let inject = self.declared[c].0.clone();
        let parent = self.fiber_of(ctx);
        let id = FiberId::fresh(&mut self.next);
        let fctx = self.derive_for(ctx, Some(id));
        let f = Fiber {
            id,
            parent,
            inject,
            provide,
            ctx: fctx,
            component: c,
            config,
            retired: false,
            state: FiberState::Inactive(None),
            target: None,
            committed: None,
            dispose: Vec::new(),
            suspended: false,
        };
        self.fibers.push(f);
        let guard = self.new_guard();
        let inv = Inv::Retire { guard, fiber: id };
        let ghost im = inv@;
        let ghost rec = self.contexts@[fctx.id as int];
        assert(fctx != ctx);
        assert(self.ctx_valid(fctx));
        self.push_acc(ctx, inv);
        assert(self.contexts@[fctx.id as int] == rec);
        self.push_refresh(id);
        proof {
            assert(final(self).spec_fibers().drop_last() =~= old(self).spec_fibers());
            assert(inv_models(final(self).ctx_acc(ctx)) =~= inv_models(old(self).ctx_acc(ctx)).push(im));
        }
        Ok(id)
    }

    /// Replaces the record at position `i`.
    pub(crate) fn put_fiber(&mut self, i: usize, f: Fiber)
        requires
            i < old(self).spec_fibers().len(),
        ensures
            final(self).spec_fibers() == old(self).spec_fibers().update(i as int, f),
            final(self).spec_store() == old(self).spec_store(),
            final(self).keeps_contexts(&*old(self)),
            final(self).contexts@.len() == old(self).contexts@.len(),
            final(self).spec_armed() == old(self).spec_armed(),
            final(self).spec_pending() == old(self).spec_pending(),
            final(self).spec_next() == old(self).spec_next(),
    {
        self.fibers.set(i, f);
    }

    /// Removes the record at position `i`.
    pub(crate) fn drop_fiber(&mut self, i: usize)
        requires
            i < old(self).spec_fibers().len(),
        ensures
            final(self).spec_fibers() == old(self).spec_fibers().remove(i as int),
            final(self).spec_store() == old(self).spec_store(),
            final(self).keeps_contexts(&*old(self)),
            final(self).spec_armed() == old(self).spec_armed(),
            final(self).spec_pending() == old(self).spec_pending(),
    {
        let _ = self.fibers.remove(i);
    }
}

impl Env {
    /// Takes the accumulator of `ctx` (empty for an unknown context).
    pub(crate) fn take_context_acc(&mut self, ctx: Context) -> (r: Vec<Inv>)
        ensures
            r@ == old(self).ctx_acc(ctx),
            final(self).ctx_acc(ctx).len() == 0,
            final(self).spec_fibers() == old(self).spec_fibers(),
            final(self).spec_store() == old(self).spec_store(),
            final(self).spec_armed() == old(self).spec_armed(),
            final(self).spec_pending() == old(self).spec_pending(),
    {
        if ctx.id >= self.contexts.len() {
            return Vec::new();
        }
        self.take_acc(ctx)
    }
}

impl Env {
    /// Contexts kept from `old` keep their validity, fiber, redirection and
    /// metadata.
    pub proof fn lemma_keeps(&self, old: &Env, c: Context)
        requires
            self.keeps_contexts(old),
            old.ctx_valid(c),
        ensures
            self.ctx_valid(c),
            self.ctx_fiber(c) == old.ctx_fiber(c),
            self.ctx_realms(c) == old.ctx_realms(c),
            self.ctx_meta(c) == old.ctx_meta(c),
            forall|k: Seq<char>| self.realm_of(c, k) == old.realm_of(c, k),
    {
    }

    /// Appends copies of `invs` to the accumulator of `ctx` (nothing for an
    /// unknown context).
    pub(crate) fn append_acc(&mut self, ctx: Context, invs: &Vec<Inv>)
        ensures
            old(self).ctx_valid(ctx) ==> inv_models(final(self).ctx_acc(ctx)) == inv_models(old(self).ctx_acc(ctx)) + inv_models(invs@),
            !old(self).ctx_valid(ctx) ==> *final(self) == *old(self),
            final(self).spec_fibers() == old(self).spec_fibers(),
            final(self).spec_store() == old(self).spec_store(),
            final(self).spec_armed() == old(self).spec_armed(),
            final(self).spec_pending() == old(self).spec_pending(),
    {
        if ctx.id >= self.contexts.len() {
            return;
        }
        let mut k: usize = 0;
        while k < invs.len()
            invariant
                k <= invs.len(),
                ctx.id < self.contexts@.len(),
                old(self).ctx_valid(ctx),
                self.ctx_valid(ctx),
                inv_models(self.ctx_acc(ctx)) == inv_models(old(self).ctx_acc(ctx)) + inv_models(invs@.take(k as int)),
                self.spec_fibers() == old(self).spec_fibers(),
                self.spec_store() == old(self).spec_store(),
                self.spec_armed() == old(self).spec_armed(),
                self.spec_pending() == old(self).spec_pending(),
            decreases invs.len() - k,
        {
            let ghost before = self.ctx_acc(ctx);
            let d = invs[k].duplicate();
            self.push_acc(ctx, d);
            proof {
                assert(inv_models(self.ctx_acc(ctx)) =~= inv_models(before).push(d@));
                assert(invs@.take(k as int + 1) =~= invs@.take(k as int).push(invs@[k as int]));
                assert(inv_models(invs@.take(k as int + 1)) =~= inv_models(invs@.take(k as int)).push(invs@[k as int]@));
                assert(inv_models(self.ctx_acc(ctx)) =~= inv_models(old(self).ctx_acc(ctx)) + inv_models(invs@.take(k as int + 1)));
            }
            k = k + 1;
        }
        proof {
            assert(invs@.take(invs@.len() as int) =~= invs@);
        }
    }
}

impl Env {
    /// Whether `ctx` is a context of this environment.
    pub fn is_context(&self, ctx: Context) -> (r: bool)
        ensures
            r == self.ctx_valid(ctx),
    {
        ctx.id < self.contexts.len()
    }

    /// The next fiber name.
    pub fn next_name(&self) -> (r: u64)
        ensures
            r == self.spec_next(),
    {
        self.next
    }

    /// Number of declared components.
    pub fn n_components(&self) -> (r: usize)
        ensures
            r == self.n_declared(),
    {
        self.declared.len()
    }

    /// The declared provision of component `c`.
    pub fn component_provide(&self, c: usize) -> (r: KeySet)
        requires
            c < self.n_declared(),
        ensures
            r@ == self.declared_provide(c),
            r.elems() == self.declared_provide_order(c),
    {
        self.declared[c].1.clone()
    }

    /// The declared dependencies of component `c`.
    pub fn component_inject(&self, c: usize) -> (r: KeySet)
        requires
            c < self.n_declared(),
        ensures
            r@ == self.declared_inject(c),
    {
        self.declared[c].0.clone()
    }

    /// Redirects `key` to `realm` in `ctx` itself (the in-place
    /// patch of `ρ`).
    pub(crate) fn set_realm_in_place(&mut self, ctx: Context, key: Symbol, realm: Symbol)
        ensures
            old(self).ctx_valid(ctx) ==> final(self).ctx_realms(ctx) == seq![(key@, realm@)] + old(self).ctx_realms(ctx),
            final(self).ctx_meta(ctx) == old(self).ctx_meta(ctx),
            final(self).ctx_fiber(ctx) == old(self).ctx_fiber(ctx),
            final(self).ctx_acc(ctx) == old(self).ctx_acc(ctx),
            forall|i: int| 0 <= i < old(self).contexts@.len() && i != ctx.id ==> final(self).contexts@[i] == old(self).contexts@[i],
            final(self).spec_armed() == old(self).spec_armed(),
            final(self).spec_fibers() == old(self).spec_fibers(),
            final(self).spec_store() == old(self).spec_store(),
            final(self).contexts@.len() == old(self).contexts@.len(),
            forall|c: Context| #[trigger] final(self).ctx_valid(c) == old(self).ctx_valid(c),
    {
        if ctx.id >= self.contexts.len() {
            return;
        }
        let mut rec = CtxRec { fiber: None, realms: Vec::new(), meta: Vec::new(), acc: Vec::new() };
        std::mem::swap(&mut rec, &mut self.contexts[ctx.id]);
        let ghost before = rec.realms@;
        let mut realms: Vec<(Symbol, Symbol)> = Vec::new();
        realms.push((key, realm));
        realms.append(&mut rec.realms);
        rec.realms = realms;
        std::mem::swap(&mut rec, &mut self.contexts[ctx.id]);
        proof {
            assert(realm_pairs(self.contexts@[ctx.id as int].realms@) =~= seq![(key@, realm@)] + realm_pairs(before));
        }
    }

    /// Sets the metadata of `key` in `ctx` itself (in-place interception
    /// update: replaces any previous metadata of `key`).
    pub(crate) fn set_meta_in_place(&mut self, ctx: Context, key: Symbol, meta: Value)
        ensures
            old(self).ctx_valid(ctx) ==> final(self).ctx_meta(ctx) == seq![(key@, meta@)] + old(self).ctx_meta(ctx),
            final(self).ctx_realms(ctx) == old(self).ctx_realms(ctx),
            forall|k: Seq<char>| #[trigger] final(self).realm_of(ctx, k) == old(self).realm_of(ctx, k),
            final(self).ctx_fiber(ctx) == old(self).ctx_fiber(ctx),
            final(self).ctx_acc(ctx) == old(self).ctx_acc(ctx),
            forall|i: int| 0 <= i < old(self).contexts@.len() && i != ctx.id ==> final(self).contexts@[i] == old(self).contexts@[i],
            final(self).spec_armed() == old(self).spec_armed(),
            final(self).spec_fibers() == old(self).spec_fibers(),
            final(self).spec_store() == old(self).spec_store(),
            final(self).contexts@.len() == old(self).contexts@.len(),
            forall|c: Context| #[trigger] final(self).ctx_valid(c) == old(self).ctx_valid(c),
            same_components(*final(self), *old(self)),
    {
        if ctx.id >= self.contexts.len() {
            return;
        }
        let mut rec = CtxRec { fiber: None, realms: Vec::new(), meta: Vec::new(), acc: Vec::new() };
        std::mem::swap(&mut rec, &mut self.contexts[ctx.id]);
        let ghost before = rec.meta@;
        let mut metas: Vec<(Symbol, Value)> = Vec::new();
        metas.push((key, meta));
        metas.append(&mut rec.meta);
        rec.meta = metas;
        std::mem::swap(&mut rec, &mut self.contexts[ctx.id]);
        proof {
            assert(meta_pairs(self.contexts@[ctx.id as int].meta@) =~= seq![(key@, meta@)] + meta_pairs(before));
        }
    }

    /// Removes every metadata of `key` from `ctx` itself.
    pub(crate) fn clear_meta(&mut self, ctx: Context, key: &Symbol)
        ensures
            final(self).ctx_meta(ctx) == old(self).ctx_meta(ctx).filter(other_key(key@)),
            final(self).ctx_realms(ctx) == old(self).ctx_realms(ctx),
            final(self).ctx_fiber(ctx) == old(self).ctx_fiber(ctx),
            final(self).ctx_acc(ctx) == old(self).ctx_acc(ctx),
            forall|i: int| 0 <= i < old(self).contexts@.len() && i != ctx.id ==> final(self).contexts@[i] == old(self).contexts@[i],
            final(self).spec_armed() == old(self).spec_armed(),
            final(self).spec_fibers() == old(self).spec_fibers(),
            final(self).spec_store() == old(self).spec_store(),
            final(self).contexts@.len() == old(self).contexts@.len(),
            forall|c: Context| #[trigger] final(self).ctx_valid(c) == old(self).ctx_valid(c),
    {
        let ghost pred = other_key(key@);
        if ctx.id >= self.contexts.len() {
            proof {
                reveal(Seq::filter);
                assert(Seq::<(Seq<char>, crate::value::ValueModel)>::empty().filter(pred) =~= Seq::<(Seq<char>, crate::value::ValueModel)>::empty());
            }
            return;
        }
        let mut rec = CtxRec { fiber: None, realms: Vec::new(), meta: Vec::new(), acc: Vec::new() };
        std::mem::swap(&mut rec, &mut self.contexts[ctx.id]);
        let mut kept: Vec<(Symbol, Value)> = Vec::new();
        let mut old_meta: Vec<(Symbol, Value)> = Vec::new();
        std::mem::swap(&mut old_meta, &mut rec.meta);
        let ghost orig = meta_pairs(old_meta@);
        let ghost mut n: int = 0;
        proof {
            reveal(Seq::filter);
            assert(orig.take(0) =~= Seq::<(Seq<char>, crate::value::ValueModel)>::empty());
            assert(meta_pairs(kept@) =~= orig.take(0).filter(pred));
            assert(meta_pairs(old_meta@) =~= orig.skip(0));
        }
        while old_meta.len() > 0
            invariant
                0 <= n <= orig.len(),
                meta_pairs(old_meta@) == orig.skip(n),
                meta_pairs(kept@) == orig.take(n).filter(pred),
                pred == other_key(key@),
            decreases old_meta.len(),
        {
            let ghost rest = old_meta@;
            proof {
                assert(meta_pairs(rest).len() == rest.len());
                assert(n < orig.len());
            }
            let p = old_meta.remove(0);
            proof {
                assert(meta_pairs(rest)[0] == (p.0@, p.1@));
                assert(orig.skip(n)[0] == (p.0@, p.1@));
                assert(meta_pairs(old_meta@) =~= meta_pairs(rest).drop_first());
                assert(orig.skip(n).drop_first() =~= orig.skip(n + 1));
                assert(orig.take(n + 1) =~= orig.take(n).push((p.0@, p.1@)));
                assert(orig.take(n + 1).drop_last() =~= orig.take(n));
                reveal(Seq::filter);
            }
            let ghost kept0 = kept@;
            if !p.0.same(key) {
                kept.push(p);
                proof {
                    assert(meta_pairs(kept@) =~= meta_pairs(kept0).push((p.0@, p.1@)));
                }
            }
            proof {
                n = n + 1;
            }
        }
        proof {
            assert(orig.take(n) =~= orig);
        }
        rec.meta = kept;
        std::mem::swap(&mut rec, &mut self.contexts[ctx.id]);
    }

    /// Renames `from` to `to` in every armed-or-not `Unbind` inverse.
    fn retarget(list: &mut Vec<Inv>, from: &Symbol, to: &Symbol)
        ensures
            final(list)@.len() == old(list)@.len(),
            forall|i: int| 0 <= i < old(list)@.len() ==> (#[trigger] final(list)@[i])@ == retargeted(old(list)@[i]@, from@, to@)
                && final(list)@[i].spec_guard() == old(list)@[i].spec_guard(),
    {
        let mut i: usize = 0;
        while i < list.len()
            invariant
                i <= list@.len(),
                list@.len() == old(list)@.len(),
                forall|j: int| 0 <= j < i ==> (#[trigger] list@[j])@ == retargeted(old(list)@[j]@, from@, to@)
                    && list@[j].spec_guard() == old(list)@[j].spec_guard(),
                forall|j: int| i <= j < list@.len() ==> #[trigger] list@[j] == old(list)@[j],
            decreases list.len() - i,
        {
            let inv = list.remove(i);
            let next = match inv {
                Inv::Unbind { guard, ctx, realm } => if realm.same(from) {
                    Inv::Unbind { guard, ctx, realm: to.clone() }
                } else {
                    Inv::Unbind { guard, ctx, realm }
                },
                other => other,
            };
            list.insert(i, next);
            i = i + 1;
        }
    }

    /// Moves the binding of realm `from` to realm `to`: the
    /// value and its provider move, and every inverse that would revoke
    /// `from` now revokes `to`. Nothing happens when `from` is unbound or
    /// `to` is bound.
    pub(crate) fn move_binding(&mut self, from: Symbol, to: Symbol) -> (r: bool)
        ensures
            r == (old(self).spec_store().contains_key(from@) && !old(self).spec_store().contains_key(to@)),
            r ==> final(self).spec_store() == old(self).spec_store().remove(from@).insert(to@, old(self).spec_store()[from@]),
            !r ==> final(self).spec_store() == old(self).spec_store(),
            final(self).spec_fibers().len() == old(self).spec_fibers().len(),
    {
        if !self.store.contains(from.clone()) || self.store.contains(to.clone()) {
            return false;
        }
        let b = match self.store.unbind_at(from.clone()) {
            Ok(b) => b,
            Err(_) => return false,
        };
        let _ = self.store.bind_at(to.clone(), b.value, b.provider);
        let mut c: usize = 0;
        while c < self.contexts.len()
            invariant
                self.spec_store() == old(self).spec_store().remove(from@).insert(to@, old(self).spec_store()[from@]),
                self.fibers == old(self).fibers,
            decreases self.contexts.len() - c,
        {
            let mut rec = CtxRec { fiber: None, realms: Vec::new(), meta: Vec::new(), acc: Vec::new() };
            std::mem::swap(&mut rec, &mut self.contexts[c]);
            Self::retarget(&mut rec.acc, &from, &to);
            std::mem::swap(&mut rec, &mut self.contexts[c]);
            c = c + 1;
        }
        let mut i: usize = 0;
        while i < self.fibers.len()
            invariant
                self.spec_store() == old(self).spec_store().remove(from@).insert(to@, old(self).spec_store()[from@]),
                self.fibers@.len() == old(self).fibers@.len(),
            decreases self.fibers.len() - i,
        {
            let mut f = self.fibers[i].snapshot();
            Self::retarget(&mut f.dispose, &from, &to);
            self.fibers.set(i, f);
            i = i + 1;
        }
        true
    }
}

impl Env {
    /// O-Retire requested from an effect step: marks fiber `id` retired
    /// and queues its refresh (its target becomes `⊥`: it unloads).
    pub fn retire(&mut self, id: FiberId)
        ensures
            final(self).spec_fibers().len() == old(self).spec_fibers().len(),
            forall|i: int| 0 <= i < old(self).spec_fibers().len() ==>
                (#[trigger] final(self).spec_fibers()[i]).retired == (old(self).spec_fibers()[i].retired || old(self).spec_fibers()[i].id == id),
            final(self).spec_pending() == old(self).spec_pending().push(Pending::Refresh(id)),
            final(self).spec_store() == old(self).spec_store(),
    {
        self.mark_retired(id);
        self.push_refresh(id);
    }
}

} // verus!

verus! {

/// A binding is undone by its inverse: when `set` bound the realm `ρ(k)`
/// (absent before) in `before`, giving `bound`, and the inverse of that
/// binding then ran on `bound`, giving `after`, the table of `after` is the
/// table of `before`.
pub proof fn law_undo_restores(before: Env, bound: Env, after: Env, ctx: Context, key: Seq<char>, b: BindingModel)
    requires
        !before.spec_store().contains_key(before.realm_of(ctx, key)),
        bound.spec_store() == before.spec_store().insert(before.realm_of(ctx, key), b),
        after.spec_store() == bound.spec_store().remove(before.realm_of(ctx, key)),
    ensures
        after.spec_store() == before.spec_store(),
{
    assert(after.spec_store() =~= before.spec_store());
}

/// An inverse takes effect at most once: when a run of `inv` on `first`
/// took effect and left `second`, a run of `inv` on `second` takes none
/// (`run_inv` reports `false` and changes nothing).
pub proof fn law_inverse_runs_once(first: Env, second: Env, inv: Inv)
    requires
        inv.spec_guard() < first.spec_armed().len(),
        first.spec_armed()[inv.spec_guard() as int],
        second.spec_armed() == first.spec_armed().update(inv.spec_guard() as int, false),
    ensures
        !(inv.spec_guard() < second.spec_armed().len() && second.spec_armed()[inv.spec_guard() as int]),
{
}

} // verus!
