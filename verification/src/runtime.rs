//! The runtime: the environment together with the user callbacks
//! (components, user inverses, reactors), and the lifecycle machine that
//! propagates binding changes.

use vstd::prelude::*;

use crate::component::{Component, Effects};
use crate::effect::{Disposer, EffectIter, Step, Undo};
use crate::env::{fiber_pos, inv_models, names_ascending, same_components, set_step, Context, Env, Inv, InvModel, Pending};
use crate::fiber::{clone_opt_view, copy_of, Fiber, FiberError, FiberId, FiberState};
use crate::interp::TargetView;
use crate::keyset::{names, KeySet};
use crate::store::{Store, StoreError, StoreErrorModel};
use crate::symbol::Symbol;
use crate::value::{Key, KeyValue, Value};

verus! {

/// Registry operation errors (the premises of O-Insert and O-Remove).
#[derive(Clone, Copy, Debug, PartialEq, Eq, Structural)]
pub enum RegistryError {
    /// O-Insert: `∃m. p ∩ p_m ≠ ∅` (single-source discipline).
    ProvisionClash,
    /// O-Remove: `n ∉ dom(Fγ)`.
    UnknownFiber,
    /// O-Remove: `τ_n ≠ ⊤`.
    NotRetired,
    /// O-Remove: `θ_n ≠ Inactive`.
    StillActive,
    /// O-Remove: `∃m. π_m = n` (children must be removed first).
    HasChildren,
}

/// A notification reactor: called with the notifying context
/// and the resolved realms that changed, after the built-in fiber reactor.
pub trait Reactor {
    /// Reacts to a binding change.
    fn react(&mut self, env: &mut Env, ctx: Context, realms: &Vec<Symbol>);
}

/// How deep one operation's cascade of nested transitions may go. Each
/// level of a dependency chain uses a few units; a cascade that reaches
/// the bound stops there, leaving its remaining work queued for the next
/// operation (the synchronous design bounds cascades by the call stack).
pub const CASCADE_DEPTH: u64 = 4096;

/// The runtime: the environment `γ`, the registered components, the user
/// inverses (by token), the reactors, and the suspended activations.
pub struct Runtime {
    env: Env,
    components: Vec<Box<dyn Component>>,
    users: Vec<Option<Box<dyn Undo>>>,
    reactors: Vec<Box<dyn Reactor>>,
    suspended: Vec<(FiberId, Box<dyn EffectIter>, TargetView)>,
    undo_log: Ghost<Seq<UndoEvent>>,
    accumulated: Ghost<Seq<InvModel>>,
}

impl Runtime {
    /// The environment.
    pub closed spec fn spec_env(&self) -> Env {
        self.env
    }

    /// Nothing observes a notification: no fiber and no user reactor is
    /// registered.
    pub open spec fn unobserved(&self) -> bool {
        self.spec_env().spec_fibers().len() == 0 && self.n_reactors() == 0
    }

    /// `self` is `other` but for the queue of pending work: the same store,
    /// registry, contexts, guards and reactors.
    pub closed spec fn same_apart_from_queue(&self, other: &Runtime) -> bool {
        &&& self.env.spec_store() == other.env.spec_store()
        &&& self.env.spec_fibers() == other.env.spec_fibers()
        &&& self.env.contexts == other.env.contexts
        &&& self.env.spec_armed() == other.env.spec_armed()
        &&& self.reactors@ == other.reactors@
    }

    /// `self` is `before` but for the queue of pending work, and nothing
    /// observes it: the same store, guards, registry and contexts.
    pub open spec fn calm_since(&self, before: &Runtime) -> bool {
        &&& self.unobserved()
        &&& self.spec_env().spec_store() == before.spec_env().spec_store()
        &&& self.spec_env().spec_armed() == before.spec_env().spec_armed()
        &&& self.spec_env().spec_fibers() == before.spec_env().spec_fibers()
        &&& self.spec_env().same_contexts(&before.spec_env())
    }

    /// The undo log: the recoveries taken and the inverses run, in order.
    pub closed spec fn spec_undo_log(&self) -> Seq<UndoEvent> {
        self.undo_log@
    }

    /// The engine inverses registered on accumulators by `effect`, in order.
    pub closed spec fn spec_accumulated(&self) -> Seq<InvModel> {
        self.accumulated@
    }

    /// Since `before`, the undo log only grew and every recovery begun
    /// since is followed by its runs, most recent inverse first; nothing
    /// was registered on an accumulator.
    pub open spec fn log_grows(&self, before: &Runtime) -> bool {
        &&& before.spec_undo_log().is_prefix_of(self.spec_undo_log())
        &&& lifo_from(self.spec_undo_log(), before.spec_undo_log().len() as int)
        &&& self.spec_accumulated() == before.spec_accumulated()
    }

    /// Number of user reactors registered.
    pub closed spec fn n_reactors(&self) -> nat {
        self.reactors@.len()
    }

    /// Whether fiber `id` is suspended on an outside event.
    pub closed spec fn is_parked(&self, id: FiberId) -> bool {
        exists|k: int| 0 <= k < self.suspended@.len() && self.suspended@[k].0 == id
    }

    /// An empty runtime.
    pub fn new() -> (r: Runtime)
        ensures
            r.spec_env().spec_fibers().len() == 0,
            r.spec_env().spec_store() == Map::<Seq<char>, crate::store::BindingModel>::empty(),
            r.spec_env().spec_pending().len() == 0,
            r.spec_env().spec_armed().len() == 0,
            r.spec_env().n_declared() == 0,
            r.spec_env().spec_next() == 0,
            forall|c: Context| !(#[trigger] r.spec_env().ctx_valid(c)),
            r.n_reactors() == 0,
    {
        Runtime {
            env: Env::new(),
            components: Vec::new(),
            users: Vec::new(),
            reactors: Vec::new(),
            suspended: Vec::new(),
            undo_log: Ghost(Seq::empty()),
            accumulated: Ghost(Seq::empty()),
        }
    }

    /// The environment (read-only).
    pub fn env(&self) -> (r: &Env)
        ensures
            *r == self.spec_env(),
    {
        &self.env
    }

    /// The shared table `σ`.
    pub fn store(&self) -> (r: &Store)
        ensures
            r@ == self.spec_env().spec_store(),
    {
        self.env.store()
    }

    /// A new root context on this runtime.
    pub fn context(&mut self) -> (r: Context)
        ensures
            final(self).n_reactors() == old(self).n_reactors(),
            final(self).spec_env().ctx_valid(r),
            final(self).spec_env().ctx_fiber(r) is None,
            final(self).spec_env().ctx_realms(r).len() == 0,
            final(self).spec_env().spec_store() == old(self).spec_env().spec_store(),
            final(self).spec_env().spec_fibers() == old(self).spec_env().spec_fibers(),
            final(self).spec_env().keeps_contexts(&old(self).spec_env()),
            final(self).spec_env().n_declared() == old(self).spec_env().n_declared(),
            forall|k: Seq<char>| #[trigger] final(self).spec_env().may_write(r, k),
            final(self).spec_env().spec_armed() == old(self).spec_env().spec_armed(),
    {
        self.env.root_context()
    }

    /// Registers a component for instantiation; returns its index.
    pub fn add_component(&mut self, component: Box<dyn Component>) -> (r: usize)
        ensures
            final(self).n_reactors() == old(self).n_reactors(),
            r == old(self).spec_env().n_declared(),
            final(self).spec_env().n_declared() == old(self).spec_env().n_declared() + 1,
            final(self).spec_env().spec_fibers() == old(self).spec_env().spec_fibers(),
            final(self).spec_env().spec_store() == old(self).spec_env().spec_store(),
            final(self).spec_env().keeps_contexts(&old(self).spec_env()),
            final(self).spec_env().spec_next() == old(self).spec_env().spec_next(),
    {
        let inject = component.inject();
        let provide = component.provide();
        let r = self.env.declare(inject, provide);
        self.components.push(component);
        r
    }

    /// Registers a reactor, called after the built-in fiber reactor (in
    /// registration order) on every notification.
    pub fn on_notify(&mut self, reactor: Box<dyn Reactor>)
        ensures
            final(self).spec_env() == old(self).spec_env(),
    {
        self.reactors.push(reactor);
    }

    /// A snapshot of fiber `id`.
    pub fn fiber(&self, id: FiberId) -> (r: Option<Fiber>)
        ensures
            r is None <==> !(exists|i: int| 0 <= i < self.spec_env().spec_fibers().len()
                && self.spec_env().spec_fibers()[i].id == id),
            r matches Some(f) ==> f.id == id,
            r matches Some(f) ==> fiber_pos(self.spec_env().spec_fibers(), id) < self.spec_env().spec_fibers().len()
                && copy_of(f, self.spec_env().spec_fibers()[fiber_pos(self.spec_env().spec_fibers(), id)]),
    {
        match self.env.find(id) {
            Some(i) => {
                let f = self.env.fibers()[i].snapshot();
                proof {
                    assert(copy_of(f, self.env.spec_fibers()[i as int]));
                    assert(i == fiber_pos(self.spec_env().spec_fibers(), id));
                    assert(copy_of(f, self.spec_env().spec_fibers()[fiber_pos(self.spec_env().spec_fibers(), id)]));
                }
                Some(f)
            },
            None => None,
        }
    }

    /// Number of registered fibers.
    pub fn len(&self) -> (r: usize)
        ensures
            r == self.spec_env().spec_fibers().len(),
    {
        self.env.fibers().len()
    }

    /// Whether no fiber is registered.
    pub fn is_empty(&self) -> (r: bool)
        ensures
            r == (self.spec_env().spec_fibers().len() == 0),
    {
        self.env.fibers().len() == 0
    }

    /// The active fibers, in registration order.
    pub fn active_fibers(&self) -> (r: Vec<FiberId>)
        ensures
            forall|n: FiberId| r@.contains(n) <==> exists|i: int| 0 <= i < self.spec_env().spec_fibers().len()
                && self.spec_env().spec_fibers()[i].id == n && self.spec_env().spec_fibers()[i].state is Active,
    {
        let fs = self.env.fibers();
        let mut out: Vec<FiberId> = Vec::new();
        let mut i: usize = 0;
        while i < fs.len()
            invariant
                i <= fs.len(),
                fs@ == self.spec_env().spec_fibers(),
                forall|n: FiberId| out@.contains(n) <==> exists|j: int| 0 <= j < i && fs@[j].id == n && fs@[j].state is Active,
            decreases fs.len() - i,
        {
            let ghost before = out@;
            if fs[i].state.is_active() {
                out.push(fs[i].id);
            }
            proof {
                assert forall|n: FiberId| out@.contains(n) <==> exists|j: int| 0 <= j < i + 1 && fs@[j].id == n && fs@[j].state is Active by {
                    if out@.contains(n) && !before.contains(n) {
                        assert(out@.last() == n);
                    }
                    if exists|j: int| 0 <= j < i + 1 && fs@[j].id == n && fs@[j].state is Active {
                        let j = choose|j: int| 0 <= j < i + 1 && fs@[j].id == n && fs@[j].state is Active;
                        if j == i {
                            assert(out@.last() == n);
                        } else {
                            assert(before.contains(n));
                            let w = choose|w: int| 0 <= w < before.len() && before[w] == n;
                            assert(out@[w] == n);
                        }
                    }
                }
            }
            i = i + 1;
        }
        out
    }

    /// `σγ`: the realms installed by active fibers.
    pub fn provided(&self) -> (r: KeySet)
        ensures
            r@ == self.spec_env().provided_realms(),
    {
        let v = self.env.provided();
        let r = KeySet::from_vec(v);
        r
    }

    /// `quiet(γ)`: every fiber is at its target.
    pub fn is_quiet(&self) -> (r: bool)
        ensures
            r == self.spec_env().quiet(),
    {
        self.env.is_quiet()
    }
}

/// An event of the runtime's undo log: a fiber's recovery taken for running
/// (its inverses in application order), or one inverse run.
pub enum UndoEvent {
    Recover(Seq<InvModel>),
    Run(InvModel),
}

/// The runs of the inverses `l` from the last to the first.
pub open spec fn runs_of(l: Seq<InvModel>) -> Seq<UndoEvent>
    decreases l.len(),
{
    if l.len() == 0 {
        Seq::empty()
    } else {
        seq![UndoEvent::Run(l.last())] + runs_of(l.drop_last())
    }
}

/// The events `p` occur in `s` in this order (not necessarily adjacent).
pub open spec fn appears(s: Seq<UndoEvent>, p: Seq<UndoEvent>) -> bool
    decreases p.len(),
{
    if p.len() == 0 {
        true
    } else {
        exists|k: int| 0 <= k < s.len() && s[k] == p[0] && appears(s.skip(k + 1), p.drop_first())
    }
}

/// Every recovery logged from position `i` on is followed by the runs of
/// its inverses, the most recent first.
pub open spec fn lifo_from(log: Seq<UndoEvent>, i: int) -> bool {
    forall|k: int| i <= k < log.len() ==> (#[trigger] log[k] matches UndoEvent::Recover(l) ==> appears(log.skip(k + 1), runs_of(l)))
}

/// Events that occur in `s` still occur after more is logged.
proof fn lemma_appears_ext(s: Seq<UndoEvent>, t: Seq<UndoEvent>, p: Seq<UndoEvent>)
    requires
        appears(s, p),
    ensures
        appears(s + t, p),
    decreases p.len(),
{
    if p.len() > 0 {
        let k = choose|k: int| 0 <= k < s.len() && s[k] == p[0] && appears(s.skip(k + 1), p.drop_first());
        lemma_appears_ext(s.skip(k + 1), t, p.drop_first());
        assert((s + t).skip(k + 1) =~= s.skip(k + 1) + t);
        assert((s + t)[k] == s[k]);
    }
}

/// Logging `x` (and then anything) extends what occurs by `x`.
proof fn lemma_appears_push(s: Seq<UndoEvent>, x: UndoEvent, t: Seq<UndoEvent>, p: Seq<UndoEvent>)
    requires
        appears(s, p),
    ensures
        appears(s.push(x) + t, p.push(x)),
    decreases p.len(),
{
    let u = s.push(x) + t;
    if p.len() == 0 {
        assert(u[s.len() as int] == x);
        assert(p.push(x)[0] == x);
        assert(p.push(x).drop_first().len() == 0);
        assert(appears(u.skip(s.len() as int + 1), p.push(x).drop_first()));
        assert(0 <= s.len() < u.len() && u[s.len() as int] == p.push(x)[0] && appears(u.skip(s.len() as int + 1), p.push(x).drop_first()));
    } else {
        let k = choose|k: int| 0 <= k < s.len() && s[k] == p[0] && appears(s.skip(k + 1), p.drop_first());
        lemma_appears_push(s.skip(k + 1), x, t, p.drop_first());
        assert(u.skip(k + 1) =~= s.skip(k + 1).push(x) + t);
        assert(p.push(x).drop_first() =~= p.drop_first().push(x));
        assert(u[k] == s[k]);
        assert(p.push(x)[0] == p[0]);
    }
}

/// Running one more (older) inverse after the others.
proof fn lemma_runs_of_prepend(inv: InvModel, l: Seq<InvModel>)
    ensures
        runs_of(seq![inv] + l) == runs_of(l).push(UndoEvent::Run(inv)),
    decreases l.len(),
{
    if l.len() == 0 {
        assert(runs_of(seq![inv] + l) =~= seq![UndoEvent::Run(inv)] + runs_of((seq![inv] + l).drop_last()));
        assert((seq![inv] + l).drop_last() =~= Seq::<InvModel>::empty());
        assert(runs_of(l).push(UndoEvent::Run(inv)) =~= seq![UndoEvent::Run(inv)]);
    } else {
        lemma_runs_of_prepend(inv, l.drop_last());
        assert((seq![inv] + l).drop_last() =~= seq![inv] + l.drop_last());
        assert((seq![inv] + l).last() == l.last());
        assert(runs_of(seq![inv] + l) =~= runs_of(l).push(UndoEvent::Run(inv)));
    }
}

/// The recoveries begun in `a` from `i` on stay followed by their runs when
/// `b` extends `a` and follows its own recoveries from `a`'s end on.
proof fn lemma_lifo_join(a: Seq<UndoEvent>, b: Seq<UndoEvent>, i: int)
    requires
        0 <= i <= a.len(),
        lifo_from(a, i),
        a.is_prefix_of(b),
        lifo_from(b, a.len() as int),
    ensures
        lifo_from(b, i),
{
    assert forall|k: int| i <= k < b.len() implies (#[trigger] b[k] matches UndoEvent::Recover(l) ==> appears(b.skip(k + 1), runs_of(l))) by {
        if k < a.len() {
            assert(b[k] == a[k]);
            if let UndoEvent::Recover(l) = b[k] {
                let t = b.skip(a.len() as int);
                lemma_appears_ext(a.skip(k + 1), t, runs_of(l));
                assert(a.skip(k + 1) + t =~= b.skip(k + 1));
            }
        }
    }
}

/// Appending a step's inverses to both the collected list and the record
/// of registrations keeps the list equal to what was registered since `a0`.
proof fn lemma_accumulate(a0: Seq<InvModel>, acc: Seq<InvModel>, all0: Seq<Inv>, all1: Seq<Inv>, m: Seq<InvModel>)
    requires
        a0.is_prefix_of(acc),
        inv_models(all0) == acc.skip(a0.len() as int),
        inv_models(all1) == inv_models(all0) + m,
    ensures
        a0.is_prefix_of(acc + m),
        inv_models(all1) == (acc + m).skip(a0.len() as int),
{
    assert((acc + m).skip(a0.len() as int) =~= acc.skip(a0.len() as int) + m);
    assert(a0 =~= (acc + m).subrange(0, a0.len() as int)) by {
        assert(a0 =~= acc.subrange(0, a0.len() as int));
    }
}

/// What `effect` returns undoes exactly what it registered: the record of
/// registrations after the call is the one before followed by the
/// returned inverses, in application order.
pub proof fn law_effect_undoes_its_registrations(before: Runtime, after: Runtime, v: Seq<Inv>)
    requires
        inv_models(v) == after.spec_accumulated().skip(before.spec_accumulated().len() as int),
        before.spec_accumulated().is_prefix_of(after.spec_accumulated()),
    ensures
        before.spec_accumulated() + inv_models(v) == after.spec_accumulated(),
{
    assert(before.spec_accumulated() + inv_models(v) =~= after.spec_accumulated());
}

/// The runs of `l` list its inverses from the most recent to the oldest:
/// the `m`-th run is that of the `m`-th inverse counted from the end.
pub proof fn law_runs_most_recent_first(l: Seq<InvModel>, m: int)
    requires
        0 <= m < l.len(),
    ensures
        runs_of(l).len() == l.len(),
        runs_of(l)[m] == UndoEvent::Run(l[l.len() - 1 - m]),
    decreases l.len(),
{
    lemma_runs_len(l);
    if m > 0 {
        law_runs_most_recent_first(l.drop_last(), m - 1);
        lemma_runs_len(l.drop_last());
        assert(runs_of(l)[m] == runs_of(l.drop_last())[m - 1]);
    }
}

proof fn lemma_runs_len(l: Seq<InvModel>)
    ensures
        runs_of(l).len() == l.len(),
    decreases l.len(),
{
    if l.len() > 0 {
        lemma_runs_len(l.drop_last());
    }
}

/// Whatever occurs in order in `s` occurs in `s`, each event.
proof fn lemma_appears_each(s: Seq<UndoEvent>, p: Seq<UndoEvent>, m: int)
    requires
        appears(s, p),
        0 <= m < p.len(),
    ensures
        exists|a: int| 0 <= a < s.len() && s[a] == p[m],
    decreases p.len(),
{
    let k = choose|k: int| 0 <= k < s.len() && s[k] == p[0] && appears(s.skip(k + 1), p.drop_first());
    if m > 0 {
        lemma_appears_each(s.skip(k + 1), p.drop_first(), m - 1);
        let t = s.skip(k + 1);
        let a = choose|a: int| 0 <= a < t.len() && #[trigger] t[a] == p.drop_first()[m - 1];
        assert(s[k + 1 + a] == p[m]);
    }
}

/// Events that occur in order in `s` occur at increasing positions.
proof fn lemma_appears_order(s: Seq<UndoEvent>, p: Seq<UndoEvent>, i: int, j: int)
    requires
        appears(s, p),
        0 <= i < j < p.len(),
    ensures
        exists|a: int, b: int| 0 <= a < b < s.len() && s[a] == p[i] && s[b] == p[j],
    decreases p.len(),
{
    let k = choose|k: int| 0 <= k < s.len() && s[k] == p[0] && appears(s.skip(k + 1), p.drop_first());
    if i == 0 {
        lemma_appears_each(s.skip(k + 1), p.drop_first(), j - 1);
        let t = s.skip(k + 1);
        let b = choose|b: int| 0 <= b < t.len() && #[trigger] t[b] == p.drop_first()[j - 1];
        assert(s[k + 1 + b] == p[j]);
        assert(0 <= k < k + 1 + b < s.len() && s[k] == p[i] && s[k + 1 + b] == p[j]);
    } else {
        lemma_appears_order(s.skip(k + 1), p.drop_first(), i - 1, j - 1);
        let t = s.skip(k + 1);
        let (a, b) = choose|a: int, b: int| 0 <= a < b < t.len() && #[trigger] t[a] == p.drop_first()[i - 1]
            && #[trigger] t[b] == p.drop_first()[j - 1];
        assert(s[k + 1 + a] == p[i] && s[k + 1 + b] == p[j]);
        assert(0 <= k + 1 + a < k + 1 + b < s.len());
    }
}

/// Recoveries run most recent first: when a fiber's recovery `l` (its
/// inverses in application order) is taken during a lifecycle call (an
/// unload, a retirement, a failure, a refresh or a disposal), then for any
/// two of its inverses the later one runs before the earlier one.
pub proof fn law_recovery_most_recent_first(before: Runtime, after: Runtime, k: int, i: int, j: int)
    requires
        after.log_grows(&before),
        before.spec_undo_log().len() <= k < after.spec_undo_log().len(),
        after.spec_undo_log()[k] is Recover,
        0 <= i < j < after.spec_undo_log()[k]->Recover_0.len(),
    ensures
        ({
            let log = after.spec_undo_log();
            let l = log[k]->Recover_0;
            exists|a: int, b: int| k < a < b < log.len() && log[a] == UndoEvent::Run(l[j]) && log[b] == UndoEvent::Run(l[i])
        }),
{
    let log = after.spec_undo_log();
    let l = log[k]->Recover_0;
    let s = log.skip(k + 1);
    assert(appears(s, runs_of(l)));
    let n = l.len() as int;
    law_runs_most_recent_first(l, n - 1 - j);
    law_runs_most_recent_first(l, n - 1 - i);
    lemma_appears_order(s, runs_of(l), n - 1 - j, n - 1 - i);
    let (a, b) = choose|a: int, b: int| 0 <= a < b < s.len() && #[trigger] s[a] == runs_of(l)[n - 1 - j] && #[trigger] s[b] == runs_of(l)[n - 1 - i];
    assert(log[k + 1 + a] == s[a] && log[k + 1 + b] == s[b]);
    assert(k < k + 1 + a < k + 1 + b < log.len());
}

/// A recovery logged and then run most recent first keeps the log
/// growing as it should.
proof fn lemma_recovered(o: Runtime, mid: Runtime, after: Runtime, l: Seq<InvModel>)
    requires
        mid.log_grows(&o),
        mid.spec_undo_log().push(UndoEvent::Recover(l)).is_prefix_of(after.spec_undo_log()),
        lifo_from(after.spec_undo_log(), mid.spec_undo_log().len() as int + 1),
        appears(after.spec_undo_log().skip(mid.spec_undo_log().len() as int + 1), runs_of(l)),
        after.spec_accumulated() == mid.spec_accumulated(),
    ensures
        after.log_grows(&o),
{
    let lm = mid.spec_undo_log();
    let l3 = lm.push(UndoEvent::Recover(l));
    let lf = after.spec_undo_log();
    assert(lf.subrange(0, l3.len() as int) =~= l3);
    assert(lm =~= lf.subrange(0, lm.len() as int)) by {
        assert(lm =~= l3.subrange(0, lm.len() as int));
    }
    assert(lifo_from(lf, lm.len() as int)) by {
        assert forall|k: int| lm.len() <= k < lf.len() implies (#[trigger] lf[k] matches UndoEvent::Recover(l2) ==> appears(lf.skip(k + 1), runs_of(l2))) by {
            if k == lm.len() {
                assert(lf[k] == l3[k]);
            }
        }
    }
    lemma_lifo_join(lm, lf, o.spec_undo_log().len() as int);
    assert(o.spec_undo_log() =~= lf.subrange(0, o.spec_undo_log().len() as int)) by {
        assert(o.spec_undo_log() =~= lm.subrange(0, o.spec_undo_log().len() as int));
    }
}

/// Growing the log is reflexive.
proof fn lemma_grows_refl(a: Runtime)
    ensures
        a.log_grows(&a),
{
    assert(a.spec_undo_log() =~= a.spec_undo_log().subrange(0, a.spec_undo_log().len() as int));
}

/// Growing the log is transitive.
proof fn lemma_grows_trans(a: Runtime, b: Runtime, c: Runtime)
    requires
        b.log_grows(&a),
        c.log_grows(&b),
    ensures
        c.log_grows(&a),
{
    let la = a.spec_undo_log();
    let lb = b.spec_undo_log();
    let lc = c.spec_undo_log();
    assert(la =~= lc.subrange(0, la.len() as int)) by {
        assert(la =~= lb.subrange(0, la.len() as int));
        assert(lb =~= lc.subrange(0, lb.len() as int));
    }
    lemma_lifo_join(lb, lc, la.len() as int);
}

/// One engine inverse run on a store and its guards: an armed `Unbind`
/// is disarmed and removes its realm's binding; anything else leaves both.
pub open spec fn unbind_step(
    m: Map<Seq<char>, crate::store::BindingModel>,
    a: Seq<bool>,
    inv: InvModel,
) -> (Map<Seq<char>, crate::store::BindingModel>, Seq<bool>) {
    match inv {
        InvModel::Unbind { guard, realm, .. } => if (guard as int) < a.len() && a[guard as int] {
            (m.remove(realm), a.update(guard as int, false))
        } else {
            (m, a)
        },
        _ => (m, a),
    }
}

/// Running the inverses `l` from the last to the first.
pub open spec fn unbind_run(
    m: Map<Seq<char>, crate::store::BindingModel>,
    a: Seq<bool>,
    l: Seq<InvModel>,
) -> (Map<Seq<char>, crate::store::BindingModel>, Seq<bool>)
    decreases l.len(),
{
    if l.len() == 0 {
        (m, a)
    } else {
        let (m1, a1) = unbind_step(m, a, l.last());
        unbind_run(m1, a1, l.drop_last())
    }
}

/// Undo restores, through the runtime: when nothing observes the change,
/// disposing of what `set` returned gives back the store as it was.
pub proof fn law_set_then_dispose<K: Key>(
    before: Env,
    after_set: Env,
    ctx: Context,
    value: K::Value,
    after_dispose: (Map<Seq<char>, crate::store::BindingModel>, Seq<bool>),
)
    requires
        set_step::<K>(before, after_set, ctx, value, InvModel::Unbind {
            guard: before.spec_armed().len() as usize,
            ctx,
            realm: before.realm_of(ctx, K::SYMBOL@),
        }),
        after_dispose == unbind_run(after_set.spec_store(), after_set.spec_armed(), seq![InvModel::Unbind {
            guard: before.spec_armed().len() as usize,
            ctx,
            realm: before.realm_of(ctx, K::SYMBOL@),
        }]),
        before.spec_armed().len() < usize::MAX,
    ensures
        after_dispose.0 == before.spec_store(),
{
    let l = seq![InvModel::Unbind {
        guard: before.spec_armed().len() as usize,
        ctx,
        realm: before.realm_of(ctx, K::SYMBOL@),
    }];
    let realm = before.realm_of(ctx, K::SYMBOL@);
    assert(l.drop_last() =~= Seq::<InvModel>::empty());
    assert(l.last() == l[0]);
    assert(after_set.spec_armed()[before.spec_armed().len() as int]);
    assert(!before.spec_store().contains_key(realm));
    let (m1, a1) = unbind_step(after_set.spec_store(), after_set.spec_armed(), l.last());
    assert(m1 == after_set.spec_store().remove(realm));
    assert(after_dispose == unbind_run(m1, a1, l.drop_last()));
    assert(after_dispose.0 =~= before.spec_store());
}

/// Whether fiber `f` depends on one of `realms` in `env`: some declared
/// key of `f` resolves to one of them.
pub open spec fn touches(env: Env, f: Fiber, realms: Seq<Seq<char>>) -> bool {
    exists|k: Seq<char>| f.inject@.contains(k) && realms.contains(env.realm_of(f.ctx, k))
}

/// The ids of the fibers of `fs` that depend on one of `realms`, in order.
pub open spec fn affected_in(env: Env, fs: Seq<Fiber>, realms: Seq<Seq<char>>) -> Seq<FiberId>
    decreases fs.len(),
{
    if fs.len() == 0 {
        Seq::empty()
    } else if touches(env, fs.last(), realms) {
        affected_in(env, fs.drop_last(), realms).push(fs.last().id)
    } else {
        affected_in(env, fs.drop_last(), realms)
    }
}

impl Runtime {
    /// Converts a step's disposer into engine inverses; a user inverse is
    /// stored under a fresh token with a fresh armed flag.
    fn to_invs(&mut self, d: Disposer) -> (r: Vec<Inv>)
        ensures
            final(self).log_grows(old(self)),
            d matches Disposer::Inverses(v) ==> r@ == v@ && final(self).env == old(self).env,
            d is Custom ==> r@.len() == 1 && r@[0] is User && r@[0].spec_guard() == old(self).env.spec_armed().len()
                && final(self).env.spec_armed() == old(self).env.spec_armed().push(true),
            final(self).env.spec_fibers() == old(self).env.spec_fibers(),
            final(self).env.spec_store() == old(self).env.spec_store(),
    {
        match d {
            Disposer::Inverses(v) => v,
            Disposer::Custom(u) => {
                let token = self.users.len();
                self.users.push(Some(u));
                let guard = self.env.new_guard();
                let mut v: Vec<Inv> = Vec::new();
                v.push(Inv::User { guard, token });
                v
            },
        }
    }

    /// Runs one inverse if it is still armed (a user inverse through its
    /// token), then propagates the changes it queued.
    fn run_one(&mut self, inv: &Inv, depth: u64)
        ensures
            final(self).log_grows(old(self)),
            old(self).spec_undo_log().push(UndoEvent::Run(inv@)).is_prefix_of(final(self).spec_undo_log()),
            old(self).unobserved() && inv@ is Unbind ==> final(self).unobserved()
                && (final(self).spec_env().spec_store(), final(self).spec_env().spec_armed())
                == unbind_step(old(self).spec_env().spec_store(), old(self).spec_env().spec_armed(), inv@)
                && final(self).spec_env().same_contexts(&old(self).spec_env())
                && final(self).spec_env().spec_fibers() == old(self).spec_env().spec_fibers(),
        decreases depth, 1nat,
    {
        self.undo_log = Ghost(self.undo_log@.push(UndoEvent::Run(inv@)));
        let ghost logged = *self;
        let armed = self.env.run_inv(inv);
        let ghost mid = self.env;
        if armed {
            if let Inv::User { token, .. } = inv {
                if *token < self.users.len() {
                    let slot = self.users.remove(*token);
                    self.users.insert(*token, None);
                    if let Some(mut u) = slot {
                        u.undo(&mut self.env);
                    }
                }
            }
        }
        let ghost before_drain = *self;
        self.drain(depth);
        proof {
            let l0 = old(self).spec_undo_log();
            let l1 = before_drain.spec_undo_log();
            let l2 = self.spec_undo_log();
            assert(l1 == l0.push(UndoEvent::Run(inv@)));
            assert(lifo_from(l1, l0.len() as int)) by {
                assert forall|k: int| l0.len() <= k < l1.len() implies (#[trigger] l1[k] matches UndoEvent::Recover(l) ==> appears(l1.skip(k + 1), runs_of(l))) by {
                    assert(k == l0.len());
                    assert(l1[k] == UndoEvent::Run(inv@));
                }
            }
            assert(l0 =~= l1.subrange(0, l0.len() as int));
            lemma_lifo_join(l1, l2, l0.len() as int);
            assert(l0 =~= l2.subrange(0, l0.len() as int)) by {
                assert(l1 =~= l2.subrange(0, l1.len() as int));
            }
            assert(l1 =~= l2.subrange(0, l1.len() as int));
            if old(self).unobserved() && inv@ is Unbind {
                crate::env::lemma_contexts_eq(mid, self.env);
                crate::env::lemma_same_contexts_trans(self.env, mid, old(self).env);
            }
        }
    }

    /// Runs a list of inverses from the last to the first.
    fn run_list(&mut self, list: Vec<Inv>, depth: u64)
        ensures
            final(self).log_grows(old(self)),
            appears(final(self).spec_undo_log().skip(old(self).spec_undo_log().len() as int), runs_of(inv_models(list@))),
            old(self).unobserved() && (forall|k: int| 0 <= k < inv_models(list@).len() ==> #[trigger] inv_models(list@)[k] is Unbind)
                ==> final(self).unobserved() && (final(self).spec_env().spec_store(), final(self).spec_env().spec_armed())
                == unbind_run(old(self).spec_env().spec_store(), old(self).spec_env().spec_armed(), inv_models(list@))
                && final(self).spec_env().same_contexts(&old(self).spec_env())
                && final(self).spec_env().spec_fibers() == old(self).spec_env().spec_fibers(),
        decreases depth, 2nat,
    {
        let ghost orig = list@;
        let ghost quiet = old(self).unobserved() && (forall|k: int| 0 <= k < inv_models(list@).len() ==> #[trigger] inv_models(list@)[k] is Unbind);
        let mut list = list;
        proof {
            crate::env::lemma_contexts_eq(self.env, self.env);
            lemma_grows_refl(*self);
            assert(orig.skip(orig.len() as int) =~= Seq::<Inv>::empty());
            assert(inv_models(orig.skip(orig.len() as int)) =~= Seq::<InvModel>::empty());
        }
        while list.len() > 0
            invariant
                self.log_grows(old(self)),
                appears(self.spec_undo_log().skip(old(self).spec_undo_log().len() as int), runs_of(inv_models(orig.skip(list@.len() as int)))),
                list@.len() <= orig.len(),
                list@ == orig.take(list@.len() as int),
                quiet ==> forall|k: int| 0 <= k < inv_models(orig).len() ==> #[trigger] inv_models(orig)[k] is Unbind,
                quiet ==> self.unobserved() && unbind_run(old(self).spec_env().spec_store(), old(self).spec_env().spec_armed(), inv_models(orig))
                    == unbind_run(self.spec_env().spec_store(), self.spec_env().spec_armed(), inv_models(list@))
                    && self.spec_env().same_contexts(&old(self).spec_env())
                    && self.spec_env().spec_fibers() == old(self).spec_env().spec_fibers(),
            decreases list.len(),
        {
            let ghost before = list@;
            let inv = list.pop().unwrap();
            proof {
                assert(list@ =~= before.drop_last());
                assert(list@ =~= orig.take(list@.len() as int));
                assert(inv_models(before).drop_last() =~= inv_models(list@));
                assert(inv_models(before).last() == inv@);
                if quiet {
                    assert(inv == orig[list@.len() as int]);
                    assert(inv_models(orig)[list@.len() as int] == inv@);
                }
            }
            let ghost pre = self.env;
            let ghost pre_rt = *self;
            self.run_one(&inv, depth);
            proof {
                if quiet {
                    crate::env::lemma_same_contexts_trans(self.env, pre, old(self).env);
                }
                lemma_grows_trans(*old(self), pre_rt, *self);
                let start = old(self).spec_undo_log().len() as int;
                let s0 = pre_rt.spec_undo_log().skip(start);
                let l2 = self.spec_undo_log();
                let x = UndoEvent::Run(inv@);
                let t = l2.skip(pre_rt.spec_undo_log().len() as int + 1);
                let pl = pre_rt.spec_undo_log();
                assert(pl.push(x) =~= l2.subrange(0, pl.len() as int + 1));
                assert(old(self).spec_undo_log().len() <= pl.len());
                assert forall|i: int| 0 <= i < l2.skip(start).len() implies #[trigger] l2.skip(start)[i] == (s0.push(x) + t)[i] by {
                    if start + i < pl.len() {
                        assert(l2.subrange(0, pl.len() as int + 1)[start + i] == l2[start + i]);
                        assert(pl.push(x)[start + i] == pl[start + i]);
                    } else if start + i == pl.len() {
                        assert(l2.subrange(0, pl.len() as int + 1)[start + i] == l2[start + i]);
                    }
                }
                assert(l2.skip(start) =~= s0.push(x) + t);
                lemma_appears_push(s0, x, t, runs_of(inv_models(orig.skip(before.len() as int))));
                assert(orig.skip(list@.len() as int) =~= seq![inv] + orig.skip(before.len() as int));
                assert(inv_models(orig.skip(list@.len() as int)) =~= seq![inv@] + inv_models(orig.skip(before.len() as int)));
                lemma_runs_of_prepend(inv@, inv_models(orig.skip(before.len() as int)));
            }
        }
        proof {
            assert(orig.skip(0) =~= orig);
            if quiet {
                assert(orig.take(0) =~= orig.take(list@.len() as int));
                assert(inv_models(list@) =~= Seq::<InvModel>::empty());
            }
        }
    }

    /// Propagates the queued work (notifications and refreshes), depth
    /// first: work queued while processing an item is propagated before the
    /// next item.
    fn drain(&mut self, depth: u64)
        ensures
            final(self).log_grows(old(self)),
            old(self).unobserved() ==> final(self).same_apart_from_queue(old(self)),
        decreases depth, 0nat,
    {
        proof {
            lemma_grows_refl(*self);
        }
        if depth == 0 {
            return;
        }
        let work = self.env.take_pending();
        let mut i: usize = 0;
        while i < work.len()
            invariant
                i <= work.len(),
                depth > 0,
                self.log_grows(old(self)),
                old(self).unobserved() ==> self.same_apart_from_queue(old(self)) && self.unobserved(),
            decreases work.len() - i,
        {
            let ghost pre_rt = *self;
            match &work[i] {
                Pending::Notify { ctx, realm } => {
                    let mut realms: Vec<Symbol> = Vec::new();
                    realms.push(realm.clone());
                    self.notify_now(*ctx, realms, depth - 1);
                },
                Pending::Refresh(id) => {
                    self.refresh_at(*id, depth - 1);
                },
            }
            proof {
                lemma_grows_trans(*old(self), pre_rt, *self);
            }
            i = i + 1;
        }
    }

    /// The fibers affected by a change of `realms`: some
    /// declared key of theirs resolves to one of the realms.
    fn affected(&self, realms: &Vec<Symbol>) -> (r: Vec<FiberId>)
        ensures
            r@ == affected_in(self.env, self.env.spec_fibers(), names(realms@)),
    {
        let fs = self.env.fibers();
        let mut out: Vec<FiberId> = Vec::new();
        let mut i: usize = 0;
        proof {
            assert(fs@.take(0) =~= Seq::<Fiber>::empty());
        }
        while i < fs.len()
            invariant
                i <= fs@.len(),
                fs@ == self.env.spec_fibers(),
                out@ == affected_in(self.env, fs@.take(i as int), names(realms@)),
            decreases fs.len() - i,
        {
            let keys = fs[i].inject.iter();
            let ghost f = fs@[i as int];
            let mut hit = false;
            let mut k: usize = 0;
            while k < keys.len() && !hit
                invariant
                    k <= keys.len(),
                    i < fs.len(),
                    f == fs@[i as int],
                    names(keys@) == f.inject.elems(),
                    hit <==> exists|kk: int| 0 <= kk < k
                        && names(realms@).contains(self.env.realm_of(f.ctx, names(keys@)[kk])),
                decreases keys.len() - k,
            {
                let r = self.env.resolve_realm(fs[i].ctx, &keys[k]);
                let mut j: usize = 0;
                while j < realms.len() && !hit
                    invariant
                        j <= realms.len(),
                        !hit ==> forall|jj: int| 0 <= jj < j ==> realms@[jj]@ != r@,
                        hit ==> names(realms@).contains(r@),
                    decreases realms.len() - j,
                {
                    if realms[j].same(&r) {
                        hit = true;
                        proof {
                            assert(names(realms@)[j as int] == r@);
                        }
                    }
                    j = j + 1;
                }
                proof {
                    assert(names(keys@)[k as int] == keys@[k as int]@);
                    if names(realms@).contains(r@) {
                        let jj = choose|jj: int| 0 <= jj < names(realms@).len() && names(realms@)[jj] == r@;
                        assert(realms@[jj]@ == r@);
                    }
                }
                k = k + 1;
            }
            proof {
                f.inject.lemma_elems();
                if hit {
                    let kk = choose|kk: int| 0 <= kk < keys@.len()
                        && names(realms@).contains(self.env.realm_of(f.ctx, names(keys@)[kk]));
                    assert(f.inject.elems().to_set().contains(names(keys@)[kk]));
                    assert(touches(self.env, f, names(realms@)));
                } else {
                    assert forall|key: Seq<char>| f.inject@.contains(key) implies !names(realms@).contains(
                        self.env.realm_of(f.ctx, key),
                    ) by {
                        assert(f.inject.elems().to_set().contains(key));
                        let kk = choose|kk: int| 0 <= kk < f.inject.elems().len() && f.inject.elems()[kk] == key;
                    }
                }
                assert(fs@.take(i + 1).drop_last() =~= fs@.take(i as int));
                assert(fs@.take(i + 1).last() == f);
            }
            if hit {
                out.push(fs[i].id);
            }
            i = i + 1;
        }
        proof {
            assert(fs@.take(fs@.len() as int) =~= fs@);
        }
        out
    }

    /// `notify(ctx, realms)`: the built-in fiber reactor
    /// refreshes every affected fiber, then the user reactors run in
    /// registration order.
    fn notify_now(&mut self, ctx: Context, realms: Vec<Symbol>, depth: u64)
        ensures
            final(self).log_grows(old(self)),
            old(self).unobserved() ==> final(self).same_apart_from_queue(old(self)),
        decreases depth, 2nat,
    {
        proof {
            lemma_grows_refl(*self);
        }
        if depth == 0 {
            let mut j: usize = 0;
            while j < realms.len()
                invariant
                    self.log_grows(old(self)),
                    old(self).unobserved() ==> self.same_apart_from_queue(old(self)),
                decreases realms.len() - j,
            {
                self.env.push_notify(ctx, realms[j].clone());
                j = j + 1;
            }
            return;
        }
        let affected = self.affected(&realms);
        let mut i: usize = 0;
        while i < affected.len()
            invariant
                self.log_grows(old(self)),
                depth > 0,
                old(self).unobserved() ==> affected@.len() == 0 && self.same_apart_from_queue(old(self)),
            decreases affected.len() - i,
        {
            let ghost g1 = *self;
            self.refresh_at(affected[i], depth - 1);
            proof {
                lemma_grows_trans(*old(self), g1, *self);
            }
            i = i + 1;
        }
        let n = self.reactors.len();
        let mut r: usize = 0;
        while r < n
            invariant
                self.log_grows(old(self)),
                depth > 0,
                old(self).unobserved() ==> n == 0 && self.same_apart_from_queue(old(self)),
            decreases n - r,
        {
            if r < self.reactors.len() {
                let mut reactor = self.reactors.remove(r);
                reactor.react(&mut self.env, ctx, &realms);
                self.reactors.insert(r, reactor);
                let ghost g2 = *self;
                self.drain(depth - 1);
                proof {
                    lemma_grows_trans(*old(self), g2, *self);
                }
            }
            r = r + 1;
        }
    }

    /// The refresh: recomputes `target_n(γ)`; when it changed,
    /// records it and starts a transition — unless one is in progress
    /// (inertia: the running transition re-checks the target when it ends).
    fn refresh_at(&mut self, id: FiberId, depth: u64)
        ensures
            final(self).log_grows(old(self)),
            old(self).unobserved() ==> final(self).same_apart_from_queue(old(self)),
        decreases depth, 6nat,
    {
        proof {
            lemma_grows_refl(*self);
        }
        let i = match self.env.find(id) {
            Some(i) => i,
            None => return,
        };
        let mut f = self.env.fibers()[i].snapshot();
        let target = self.env.compute_target(&f);
        let unchanged = match (&target, &f.target) {
            (None, None) => true,
            (Some(a), Some(b)) => a.same(b),
            _ => false,
        };
        if unchanged {
            return;
        }
        let has_target = target.is_some();
        f.target = target;
        let transient = f.state.in_transition();
        let active = f.state.is_active();
        self.env.put_fiber(i, f);
        if transient {
            return;
        }
        if active {
            let ghost g1 = *self;
            self.unload(id, depth);
            proof {
                lemma_grows_trans(*old(self), g1, *self);
            }
        } else if has_target {
            let ghost g2 = *self;
            self.reload(id, depth);
            proof {
                lemma_grows_trans(*old(self), g2, *self);
            }
        }
    }

    /// Replaces the state of fiber `id` (and, when given, its committed
    /// view).
    fn set_state(&mut self, id: FiberId, state: FiberState, committed: Option<Option<TargetView>>)
        ensures
            final(self).log_grows(old(self)),
            final(self).env.spec_fibers().len() == old(self).env.spec_fibers().len(),
            forall|j: int| 0 <= j < old(self).env.spec_fibers().len() && j != fiber_pos(old(self).env.spec_fibers(), id)
                ==> final(self).env.spec_fibers()[j] == old(self).env.spec_fibers()[j],
            ({
                let p = fiber_pos(old(self).env.spec_fibers(), id);
                p < old(self).env.spec_fibers().len() ==> {
                    &&& final(self).env.spec_fibers()[p].id == id
                    &&& final(self).env.spec_fibers()[p].state == state
                    &&& final(self).env.spec_fibers()[p].retired == old(self).env.spec_fibers()[p].retired
                    &&& final(self).env.spec_fibers()[p].config@ == old(self).env.spec_fibers()[p].config@
                    &&& (committed matches Some(c) ==> final(self).env.spec_fibers()[p].committed == c)
                }
            }),
            final(self).env.spec_store() == old(self).env.spec_store(),
            final(self).env.spec_armed() == old(self).env.spec_armed(),
    {
        match self.env.find(id) {
            Some(i) => {
                let mut f = self.env.fibers()[i].snapshot();
                f.state = state;
                match committed {
                    Some(c) => { f.committed = c; },
                    None => {},
                }
                self.env.put_fiber(i, f);
            },
            None => {},
        }
    }

    /// L-Leave: the fiber stops providing (`Unloading` with its committed
    /// view); its inverses run after its dependents have unloaded.
    fn mark_unloading(&mut self, id: FiberId)
        ensures
            final(self).log_grows(old(self)),
            final(self).env.spec_fibers().len() == old(self).env.spec_fibers().len(),
            forall|j: int| 0 <= j < old(self).env.spec_fibers().len() && j != fiber_pos(old(self).env.spec_fibers(), id)
                ==> final(self).env.spec_fibers()[j] == old(self).env.spec_fibers()[j],
            ({
                let p = fiber_pos(old(self).env.spec_fibers(), id);
                p < old(self).env.spec_fibers().len() ==> {
                    &&& final(self).env.spec_fibers()[p].id == id
                    &&& final(self).env.spec_fibers()[p].retired == old(self).env.spec_fibers()[p].retired
                    &&& (final(self).env.spec_fibers()[p].state matches FiberState::Unloading { view, outcome }
                        && outcome is None
                        && view@ == match old(self).env.spec_fibers()[p].committed { Some(v) => v@, None => Seq::empty() })
                }
            }),
            final(self).env.spec_store() == old(self).env.spec_store(),
            final(self).env.spec_armed() == old(self).env.spec_armed(),
    {
        match self.env.find(id) {
            Some(i) => {
                let mut f = self.env.fibers()[i].snapshot();
                let view = match &f.committed {
                    Some(v) => v.clone(),
                    None => TargetView::new(Vec::new()),
                };
                f.state = FiberState::Unloading { view, outcome: None };
                self.env.put_fiber(i, f);
            },
            None => {},
        }
    }

    /// Appends the inverses of one step to the fiber's recovery.
    fn record(&mut self, id: FiberId, d: Disposer)
        ensures
            final(self).log_grows(old(self)),
            final(self).env.spec_fibers().len() == old(self).env.spec_fibers().len(),
            forall|j: int| 0 <= j < old(self).env.spec_fibers().len() && j != fiber_pos(old(self).env.spec_fibers(), id)
                ==> final(self).env.spec_fibers()[j] == old(self).env.spec_fibers()[j],
            ({
                let p = fiber_pos(old(self).env.spec_fibers(), id);
                p < old(self).env.spec_fibers().len() ==> {
                    &&& copy_of(final(self).env.spec_fibers()[p], old(self).env.spec_fibers()[p])
                    &&& (d matches Disposer::Inverses(v) ==> inv_models(final(self).env.spec_fibers()[p].dispose@)
                        == inv_models(old(self).env.spec_fibers()[p].dispose@) + inv_models(v@))
                    &&& (d is Custom ==> final(self).env.spec_fibers()[p].dispose@.len() == old(self).env.spec_fibers()[p].dispose@.len() + 1)
                }
            }),
            final(self).env.spec_store() == old(self).env.spec_store(),
    {
        let invs = self.to_invs(d);
        match self.env.find(id) {
            Some(i) => {
                let mut f = self.env.fibers()[i].snapshot();
                let mut invs = invs;
                f.dispose.append(&mut invs);
                self.env.put_fiber(i, f);
            },
            None => {},
        }
    }

    /// Whether the recorded target of `id` is still `target0`.
    fn target_is(&self, id: FiberId, target0: &TargetView) -> (r: bool)
        ensures
            r == ({
                let p = fiber_pos(self.env.spec_fibers(), id);
                p < self.env.spec_fibers().len() && (self.env.spec_fibers()[p].target matches Some(t) && t@ == target0@)
            }),
    {
        match self.env.find(id) {
            Some(i) => match &self.env.fibers()[i].target {
                Some(t) => t.same(target0),
                None => false,
            },
            None => false,
        }
    }

    /// The reload: commits the target as the fiber's view,
    /// applies the effect function and drives its iterator.
    fn reload(&mut self, id: FiberId, depth: u64)
        ensures
            final(self).log_grows(old(self)),
        decreases depth, 5nat,
    {
        proof {
            lemma_grows_refl(*self);
        }
        let i = match self.env.find(id) {
            Some(i) => i,
            None => return,
        };
        let f = self.env.fibers()[i].snapshot();
        let target0 = match &f.target {
            Some(t) => t.clone(),
            None => return,
        };
        let ghost g1 = *self;
        self.set_state(id, FiberState::Reloading { view: target0.clone() }, Some(Some(target0.clone())));
        proof {
            lemma_grows_trans(*old(self), g1, *self);
        }
        if f.component >= self.components.len() {
            return;
        }
        let program: Effects = self.components[f.component].apply(f.ctx, &f.config, &mut self.env);
        let ghost g2 = *self;
        self.drain(depth);
        proof {
            lemma_grows_trans(*old(self), g2, *self);
        }
        let ghost g3 = *self;
        self.drive(id, program.iter, target0, depth);
        proof {
            lemma_grows_trans(*old(self), g3, *self);
        }
    }

    /// Drives the activation iterator of `id`: the guard (checked at every
    /// step boundary) is that the target is still `target0`; each step's
    /// inverse is appended to the fiber's recovery and its changes are
    /// propagated before the next step.
    fn drive(&mut self, id: FiberId, iter: Box<dyn EffectIter>, target0: TargetView, depth: u64)
        ensures
            final(self).log_grows(old(self)),
        decreases depth, 4nat,
    {
        proof {
            lemma_grows_refl(*self);
        }
        let mut iter = iter;
        let mut budget: u64 = crate::effect::MAX_STEPS;
        loop
            invariant
                self.log_grows(old(self)),
            decreases budget,
        {
            if budget == 0 {
                break;
            }
            budget = budget - 1;
            if !self.target_is(id, &target0) {
                break;
            }
            match iter.next(&mut self.env) {
                Step::Yielded(d) => {
                    let ghost g1 = *self;
                    self.record(id, d);
                    proof {
                        lemma_grows_trans(*old(self), g1, *self);
                    }
                    let ghost g2 = *self;
                    self.drain(depth);
                    proof {
                        lemma_grows_trans(*old(self), g2, *self);
                    }
                },
                Step::Finished(d) => {
                    let ghost g3 = *self;
                    self.record(id, d);
                    proof {
                        lemma_grows_trans(*old(self), g3, *self);
                    }
                    let ghost g4 = *self;
                    self.drain(depth);
                    proof {
                        lemma_grows_trans(*old(self), g4, *self);
                    }
                    break;
                },
                Step::Await => {
                    let ghost g5 = *self;
                    self.set_suspended(id, true);
                    proof {
                        lemma_grows_trans(*old(self), g5, *self);
                    }
                    self.suspended.push((id, iter, target0));
                    return;
                },
                Step::Failed(e) => {
                    let ghost g6 = *self;
                    self.drain(depth);
                    proof {
                        lemma_grows_trans(*old(self), g6, *self);
                    }
                    let ghost g7 = *self;
                    self.fail(id, e, depth);
                    proof {
                        lemma_grows_trans(*old(self), g7, *self);
                    }
                    return;
                },
            }
        }
        let ghost g8 = *self;
        self.finish_reload(id, target0, depth);
        proof {
            lemma_grows_trans(*old(self), g8, *self);
        }
    }

    fn set_suspended(&mut self, id: FiberId, v: bool)
        ensures
            final(self).log_grows(old(self)),
            final(self).env.spec_fibers().len() == old(self).env.spec_fibers().len(),
            forall|j: int| 0 <= j < old(self).env.spec_fibers().len() && j != fiber_pos(old(self).env.spec_fibers(), id)
                ==> final(self).env.spec_fibers()[j] == old(self).env.spec_fibers()[j],
            ({
                let p = fiber_pos(old(self).env.spec_fibers(), id);
                p < old(self).env.spec_fibers().len() ==> final(self).env.spec_fibers()[p].suspended == v
                    && final(self).env.spec_fibers()[p].id == id
                    && final(self).env.spec_fibers()[p].retired == old(self).env.spec_fibers()[p].retired
                    && final(self).env.spec_fibers()[p].state.spec_view() == old(self).env.spec_fibers()[p].state.spec_view()
            }),
            final(self).env.spec_store() == old(self).env.spec_store(),
    {
        match self.env.find(id) {
            Some(i) => {
                let mut f = self.env.fibers()[i].snapshot();
                f.suspended = v;
                self.env.put_fiber(i, f);
            },
            None => {},
        }
    }

    /// The end of a reload (inertia check): target unchanged → `Active`
    /// and the dependents are notified; otherwise unload at once.
    fn finish_reload(&mut self, id: FiberId, target0: TargetView, depth: u64)
        ensures
            final(self).log_grows(old(self)),
        decreases depth, 3nat,
    {
        proof {
            lemma_grows_refl(*self);
        }
        if self.target_is(id, &target0) {
            let ghost g1 = *self;
            self.set_state(id, FiberState::Active { view: target0 }, None);
            proof {
                lemma_grows_trans(*old(self), g1, *self);
            }
            match self.env.find(id) {
                Some(i) => {
                    let ctx = self.env.fibers()[i].ctx;
                    let provided = self.env.store().realms_with_provider(id);
                    let ghost g2 = *self;
                    self.notify_now(ctx, provided, depth);
                    proof {
                        lemma_grows_trans(*old(self), g2, *self);
                    }
                },
                None => {},
            }
        } else if depth > 0 {
            let ghost g3 = *self;
            self.unload(id, depth - 1);
            proof {
                lemma_grows_trans(*old(self), g3, *self);
            }
        }
    }

    /// L-Raise: a step failed; the completed steps are recovered and the
    /// fiber ends `Inactive(Some(ζ))`.
    fn fail(&mut self, id: FiberId, e: FiberError, depth: u64)
        ensures
            final(self).log_grows(old(self)),
        decreases depth, 3nat,
    {
        proof {
            lemma_grows_refl(*self);
        }
        let i = match self.env.find(id) {
            Some(i) => i,
            None => return,
        };
        let mut f = self.env.fibers()[i].snapshot();
        let ctx = f.ctx;
        let ghost h = *self;
        self.undo_log = Ghost(self.undo_log@.push(UndoEvent::Recover(inv_models(f.dispose@))));
        let mut list: Vec<Inv> = Vec::new();
        std::mem::swap(&mut list, &mut f.dispose);
        f.state = FiberState::Inactive(Some(e));
        f.committed = None;
        self.env.put_fiber(i, f);
        let ghost g1 = *self;
        self.run_list(list, depth);
        proof {
            let lh = h.spec_undo_log();
            let l3 = g1.spec_undo_log();
            let lf = self.spec_undo_log();
            assert(l3 == lh.push(UndoEvent::Recover(inv_models(list@))));
            assert(lf.subrange(0, l3.len() as int) =~= l3);
            assert(lh =~= lf.subrange(0, lh.len() as int)) by {
                assert(lh =~= l3.subrange(0, lh.len() as int));
            }
            assert(lifo_from(lf, lh.len() as int)) by {
                assert forall|k: int| lh.len() <= k < lf.len() implies (#[trigger] lf[k] matches UndoEvent::Recover(l) ==> appears(lf.skip(k + 1), runs_of(l))) by {
                    if k == lh.len() {
                        assert(lf[k] == l3[k]);
                    }
                }
            }
        }
        let acc = self.env.take_context_acc(ctx);
        let ghost g2 = *self;
        self.undo_log = Ghost(self.undo_log@.push(UndoEvent::Recover(inv_models(acc@))));
        self.run_list(acc, depth);
        proof {
            lemma_recovered(*old(self), g2, *self, inv_models(acc@));
        }
    }

    /// The unload: stop providing (L-Leave), let the dependents
    /// unload first (the ordering: the fiber's bindings stay readable
    /// during their teardown), run the fiber's recovery and its context's
    /// accumulator from the most recent inverse, then end `Inactive` — or
    /// reload at once when the target is no longer `⊥` (inertia).
    fn unload(&mut self, id: FiberId, depth: u64)
        ensures
            final(self).log_grows(old(self)),
        decreases depth, 5nat,
    {
        proof {
            lemma_grows_refl(*self);
        }
        let ghost g1 = *self;
        self.mark_unloading(id);
        proof {
            lemma_grows_trans(*old(self), g1, *self);
        }
        let i = match self.env.find(id) {
            Some(i) => i,
            None => return,
        };
        let ctx = self.env.fibers()[i].ctx;
        let provided = self.env.store().realms_with_provider(id);
        let ghost g2 = *self;
        self.notify_now(ctx, provided, depth);
        proof {
            lemma_grows_trans(*old(self), g2, *self);
        }
        let ghost h = *self;
        let list = match self.env.find(id) {
            Some(j) => {
                let mut f = self.env.fibers()[j].snapshot();
                self.undo_log = Ghost(self.undo_log@.push(UndoEvent::Recover(inv_models(f.dispose@))));
                let mut l: Vec<Inv> = Vec::new();
                std::mem::swap(&mut l, &mut f.dispose);
                self.env.put_fiber(j, f);
                l
            },
            None => Vec::new(),
        };
        let ghost g3 = *self;
        proof {
            assert(g3.spec_undo_log() == h.spec_undo_log() || g3.spec_undo_log() == h.spec_undo_log().push(
                UndoEvent::Recover(inv_models(list@)),
            ));
        }
        self.run_list(list, depth);
        proof {
            let lh = h.spec_undo_log();
            let l3 = g3.spec_undo_log();
            let lf = self.spec_undo_log();
            if l3 == lh {
                lemma_grows_trans(*old(self), g3, *self);
            } else {
                assert(lf.subrange(0, l3.len() as int) =~= l3);
                assert(lh =~= lf.subrange(0, lh.len() as int)) by {
                    assert(lh =~= l3.subrange(0, lh.len() as int));
                }
                assert(lifo_from(lf, lh.len() as int)) by {
                    assert forall|k: int| lh.len() <= k < lf.len() implies (#[trigger] lf[k] matches UndoEvent::Recover(l) ==> appears(lf.skip(k + 1), runs_of(l))) by {
                        if k == lh.len() {
                            assert(lf[k] == l3[k]);
                            assert(l3[k] == UndoEvent::Recover(inv_models(list@)));
                        }
                    }
                }
                lemma_lifo_join(lh, lf, old(self).spec_undo_log().len() as int);
                assert(old(self).spec_undo_log() =~= lf.subrange(0, old(self).spec_undo_log().len() as int)) by {
                    assert(old(self).spec_undo_log() =~= lh.subrange(0, old(self).spec_undo_log().len() as int));
                }
            }
        }
        let acc = self.env.take_context_acc(ctx);
        let ghost g4 = *self;
        self.undo_log = Ghost(self.undo_log@.push(UndoEvent::Recover(inv_models(acc@))));
        self.run_list(acc, depth);
        proof {
            lemma_recovered(*old(self), g4, *self, inv_models(acc@));
        }
        match self.env.find(id) {
            Some(j) => {
                let has_target = self.env.fibers()[j].target.is_some();
                if has_target {
                    if depth > 0 {
                        let ghost g5 = *self;
                        self.reload(id, depth - 1);
                        proof {
                            lemma_grows_trans(*old(self), g5, *self);
                        }
                    }
                } else {
                    let ghost g6 = *self;
                    self.set_state(id, FiberState::Inactive(None), Some(None));
                    proof {
                        lemma_grows_trans(*old(self), g6, *self);
                    }
                }
            },
            None => {},
        }
    }
}

impl Runtime {
    /// `use(ctx, component, config)`: registers `component`
    /// and instantiates it under `ctx` (O-Insert), then propagates — the
    /// fiber activates at once when its dependencies are provided.
    /// `ProvisionClash` (and no new fiber) when a registered fiber's
    /// provision meets the component's. On success the result is the
    /// fiber's record after the propagation.
    pub fn use_component(&mut self, ctx: Context, component: Box<dyn Component>, config: Value) -> (r: Result<Fiber, RegistryError>)
        requires
            old(self).spec_env().ctx_valid(ctx),
            old(self).spec_env().spec_next() < u64::MAX,
        ensures
            r matches Err(e) ==> e == RegistryError::ProvisionClash,
            r matches Ok(f) ==> f.id == FiberId(old(self).spec_env().spec_next()),
    {
        let c = self.add_component(component);
        proof {
            self.env.lemma_keeps(&old(self).env, ctx);
        }
        self.instantiate(ctx, c, config)
    }

    /// Instantiates the registered component `c` under `ctx` (O-Insert),
    /// then propagates. `ProvisionClash` exactly when a registered fiber's
    /// provision meets the component's.
    pub fn instantiate(&mut self, ctx: Context, c: usize, config: Value) -> (r: Result<Fiber, RegistryError>)
        requires
            old(self).spec_env().ctx_valid(ctx),
            c < old(self).spec_env().n_declared(),
            old(self).spec_env().spec_next() < u64::MAX,
        ensures
            r is Err <==> exists|i: int| 0 <= i < old(self).spec_env().spec_fibers().len()
                && !(#[trigger] old(self).spec_env().spec_fibers()[i]).provide@.disjoint(old(self).spec_env().declared_provide(c)),
            r matches Err(e) ==> e == RegistryError::ProvisionClash && final(self).spec_env() == old(self).spec_env(),
            r matches Ok(f) ==> f.id == FiberId(old(self).spec_env().spec_next()),
    {
        match self.env.register(ctx, c, config) {
            Err(e) => Err(e),
            Ok(id) => {
                let i = (self.env.fibers().len() - 1) as usize;
                let before = self.env.fibers()[i].snapshot();
                self.drain(CASCADE_DEPTH);
                match self.env.find(id) {
                    Some(j) => Ok(self.env.fibers()[j].snapshot()),
                    None => Ok(before),
                }
            },
        }
    }

    /// The refresh of fiber `id`, with its cascade.
    pub fn refresh(&mut self, id: FiberId)
        ensures
            old(self).unobserved() ==> final(self).calm_since(old(self)),
            final(self).log_grows(old(self)),
    {
        self.refresh_at(id, CASCADE_DEPTH);
        let ghost g = *self;
        self.drain(CASCADE_DEPTH);
        proof {
            lemma_grows_trans(*old(self), g, *self);
            if old(self).unobserved() {
                crate::env::lemma_contexts_eq(self.env, old(self).env);
            }
        }
    }

    /// O-Retire: marks fiber `id` retired and refreshes it (target `⊥`:
    /// it unloads, its dependents first). Idempotent.
    pub fn retire(&mut self, id: FiberId)
        ensures
            old(self).unobserved() ==> final(self).calm_since(old(self)),
            final(self).log_grows(old(self)),
    {
        self.env.mark_retired(id);
        proof {
            if old(self).unobserved() {
                assert(self.env.spec_fibers() =~= old(self).env.spec_fibers());
            }
        }
        let ghost g0 = *self;
        self.refresh_at(id, CASCADE_DEPTH);
        let ghost g = *self;
        self.drain(CASCADE_DEPTH);
        proof {
            lemma_grows_refl(*old(self));
            lemma_grows_trans(*old(self), g0, g);
            lemma_grows_trans(*old(self), g, *self);
            if old(self).unobserved() {
                crate::env::lemma_contexts_eq(self.env, old(self).env);
            }
        }
    }

    /// Reconfigures fiber `id` in place (the component side of the
    /// two-way binding): an active fiber reverts its effects (its
    /// dependents first) and reruns them with `config`, keeping its name; a
    /// failed fiber (`Inactive(Some(ζ))`) is revived with `config`. Only
    /// a registered fiber in one of these two states may be updated.
    pub fn update(&mut self, id: FiberId, config: Value) -> (r: bool)
        requires
            ({
                let s = old(self).spec_env().spec_fibers();
                let p = fiber_pos(s, id);
                p < s.len() && (s[p].state is Active || s[p].state matches FiberState::Inactive(Some(_)))
            }),
        ensures
            r == ({
                let s = old(self).spec_env().spec_fibers();
                let p = fiber_pos(s, id);
                p < s.len() && (s[p].state is Active || s[p].state matches FiberState::Inactive(Some(_)))
            }),
            !r ==> final(self).spec_env() == old(self).spec_env(),
    {
        let i = match self.env.find(id) {
            Some(i) => i,
            None => return false,
        };
        let active = self.env.fibers()[i].state.is_active();
        let failed = self.env.fibers()[i].state.is_failed();
        if !active && !failed {
            return false;
        }
        let mut f = self.env.fibers()[i].snapshot();
        f.config = config;
        if failed {
            f.state = FiberState::Inactive(None);
            f.target = None;
        }
        self.env.put_fiber(i, f);
        if active {
            self.unload(id, CASCADE_DEPTH);
        } else {
            self.refresh_at(id, CASCADE_DEPTH);
        }
        self.drain(CASCADE_DEPTH);
        true
    }

    /// Resumes fiber `id` suspended on `Step::Await`: its iterator continues
    /// with the same recovery. `false` when the fiber is not suspended.
    pub fn advance(&mut self, id: FiberId) -> (r: bool)
        ensures
            r == old(self).is_parked(id),
            !r ==> final(self).spec_env() == old(self).spec_env(),
    {
        let mut k: usize = 0;
        while k < self.suspended.len()
            invariant
                k <= self.suspended.len(),
                self.env == old(self).env,
                self.suspended@ == old(self).suspended@,
                forall|j: int| 0 <= j < k ==> self.suspended@[j].0 != id,
            decreases self.suspended.len() - k,
        {
            if self.suspended[k].0 == id {
                proof {
                    assert(old(self).is_parked(id));
                }
                let (_, iter, target0) = self.suspended.remove(k);
                self.set_suspended(id, false);
                self.drive(id, iter, target0, CASCADE_DEPTH);
                self.drain(CASCADE_DEPTH);
                return true;
            }
            k = k + 1;
        }
        proof {
            assert(!old(self).is_parked(id));
        }
        false
    }

    /// O-Remove: removes fiber `id` from the registry when it is retired,
    /// inactive and has no children; otherwise the violated premise, and
    /// nothing changes.
    pub fn remove_fiber(&mut self, id: FiberId) -> (r: Result<(), RegistryError>)
        ensures
            !(exists|i: int| 0 <= i < old(self).spec_env().spec_fibers().len()
                && old(self).spec_env().spec_fibers()[i].id == id)
                ==> r == Err::<(), RegistryError>(RegistryError::UnknownFiber),
            forall|i: int| 0 <= i < old(self).spec_env().spec_fibers().len()
                && old(self).spec_env().spec_fibers()[i].id == id
                && (forall|j: int| 0 <= j < i ==> old(self).spec_env().spec_fibers()[j].id != id) ==> {
                let fs = old(self).spec_env().spec_fibers();
                if !fs[i].retired {
                    r == Err::<(), RegistryError>(RegistryError::NotRetired)
                } else if !(fs[i].state is Inactive) {
                    r == Err::<(), RegistryError>(RegistryError::StillActive)
                } else if exists|j: int| 0 <= j < fs.len() && fs[j].parent == Some(id) {
                    r == Err::<(), RegistryError>(RegistryError::HasChildren)
                } else {
                    r is Ok && final(self).spec_env().spec_fibers() == fs.remove(i)
                }
            },
            r is Err ==> final(self).spec_env() == old(self).spec_env(),
            final(self).spec_env().spec_store() == old(self).spec_env().spec_store(),
            names_ascending(old(self).spec_env().spec_fibers(), old(self).spec_env().spec_next()) && r is Ok
                ==> !(exists|i: int| 0 <= i < final(self).spec_env().spec_fibers().len()
                    && final(self).spec_env().spec_fibers()[i].id == id),
    {
        let ghost fs = self.env.spec_fibers();
        let i = match self.env.find(id) {
            Some(i) => i,
            None => return Err(RegistryError::UnknownFiber),
        };
        proof {
            assert forall|c: int| 0 <= c < fs.len() && fs[c].id == id
                && (forall|j: int| 0 <= j < c ==> fs[j].id != id) implies c == i as int by {
                if c < i as int {
                    assert(fs[c].id != id);
                }
                if (i as int) < c {
                    assert(fs[i as int].id != id);
                }
            }
        }
        if !self.env.fibers()[i].retired {
            return Err(RegistryError::NotRetired);
        }
        if !self.env.fibers()[i].state.is_inactive() {
            return Err(RegistryError::StillActive);
        }
        let mut j: usize = 0;
        while j < self.env.fibers().len()
            invariant
                j <= self.env.spec_fibers().len(),
                self.env.spec_fibers() == fs,
                self.env == old(self).env,
                i < fs.len(),
                fs[i as int].id == id,
                fs[i as int].retired,
                fs[i as int].state is Inactive,
                forall|c: int| 0 <= c < fs.len() && fs[c].id == id
                    && (forall|j: int| 0 <= j < c ==> fs[j].id != id) ==> c == i as int,
                forall|k: int| 0 <= k < j ==> fs[k].parent != Some(id),
            decreases self.env.spec_fibers().len() - j,
        {
            if self.env.fibers()[j].parent == Some(id) {
                return Err(RegistryError::HasChildren);
            }
            j = j + 1;
        }
        self.env.drop_fiber(i);
        proof {
            if names_ascending(fs, old(self).spec_env().spec_next()) {
                assert forall|k: int| 0 <= k < self.env.spec_fibers().len() implies self.env.spec_fibers()[k].id != id by {
                    if k < i {
                        assert(self.env.spec_fibers()[k] == fs[k]);
                        assert(fs[k].id.0 < fs[i as int].id.0);
                    } else {
                        assert(self.env.spec_fibers()[k] == fs[k + 1]);
                        assert(fs[i as int].id.0 < fs[k + 1].id.0);
                    }
                }
            }
        }
        Ok(())
    }

    /// `set(k, v)` in `ctx` as a reversible effect:
    /// binds `ρ(k)`, installed by the fiber of `ctx`, and propagates the
    /// change. The returned inverse revokes the binding (it is also in the
    /// accumulator of `ctx`; both copies share one armed flag).
    /// `AlreadyBound(k)` (and no change) when `ρ(k)` is bound.
    pub fn set<K: Key>(&mut self, ctx: Context, value: K::Value) -> (r: Result<Disposer, StoreError>)
        requires
            old(self).spec_env().ctx_valid(ctx),
            old(self).spec_env().may_write(ctx, K::SYMBOL@),
        ensures
            r is Err <==> old(self).spec_env().spec_store().contains_key(old(self).spec_env().realm_of(ctx, K::SYMBOL@)),
            r matches Err(e) ==> e@ == StoreErrorModel::AlreadyBound(K::SYMBOL@) && final(self).spec_env() == old(self).spec_env(),
            r is Err ==> final(self).n_reactors() == old(self).n_reactors(),
            r matches Ok(d) ==> d matches Disposer::Inverses(v) && inv_models(v@) == seq![InvModel::Unbind {
                guard: old(self).spec_env().spec_armed().len() as usize,
                ctx,
                realm: old(self).spec_env().realm_of(ctx, K::SYMBOL@),
            }],
            r is Ok && old(self).unobserved() ==> final(self).unobserved() && set_step::<K>(
                old(self).spec_env(),
                final(self).spec_env(),
                ctx,
                value,
                InvModel::Unbind {
                    guard: old(self).spec_env().spec_armed().len() as usize,
                    ctx,
                    realm: old(self).spec_env().realm_of(ctx, K::SYMBOL@),
                },
            ),
    {
        match self.env.set::<K>(ctx, value) {
            Err(e) => Err(e),
            Ok(inv) => {
                let ghost m = inv@;
                let ghost mid = self.env;
                proof {
                    assert(set_step::<K>(old(self).spec_env(), mid, ctx, value, m));
                    assert(self.unobserved() == old(self).unobserved());
                }
                let d = crate::effect::inverse(inv);
                proof {
                    if let Disposer::Inverses(v) = &d {
                        assert(inv_models(v@) =~= seq![m]);
                    }
                }
                self.drain(CASCADE_DEPTH);
                proof {
                    if old(self).unobserved() {
                        crate::env::lemma_contexts_eq(mid, self.env);
                        crate::env::lemma_same_contexts(mid, self.env);
                        crate::env::lemma_same_contexts(self.env, mid);
                        assert(self.env.spec_store() == mid.spec_store());
                        assert(self.env.spec_armed() == mid.spec_armed());
                        assert(forall|k: Seq<char>| #[trigger] self.env.realm_of(ctx, k) == mid.realm_of(ctx, k));
                        assert(self.env.spec_fibers() == mid.spec_fibers());
                    }
                }
                Ok(d)
            },
        }
    }

    /// `get(k)` in `ctx`.
    pub fn get<K: Key>(&self, ctx: Context) -> (r: Result<K::Value, StoreError>)
        ensures
            r is Ok <==> self.spec_env().spec_store().contains_key(self.spec_env().realm_of(ctx, K::SYMBOL@))
                && K::Value::decodes(self.spec_env().spec_store()[self.spec_env().realm_of(ctx, K::SYMBOL@)].value),
            r matches Ok(x) ==> x.encoding() == self.spec_env().spec_store()[self.spec_env().realm_of(ctx, K::SYMBOL@)].value,
            r matches Err(e) ==> (e is NotBound <==> !self.spec_env().spec_store().contains_key(self.spec_env().realm_of(ctx, K::SYMBOL@))),
    {
        self.env.get::<K>(ctx)
    }

    /// `ctx.effect(iter)`: drives `iter` to its end; each
    /// step's inverse is appended to the accumulator of `ctx` as soon as it
    /// is produced (application order), and the changes of each step are
    /// propagated before the next. The returned inverse undoes all the
    /// steps (sharing the armed flags with the accumulator copies).
    pub fn effect(&mut self, ctx: Context, iter: Box<dyn EffectIter>) -> (r: Disposer)
        requires
            old(self).spec_env().ctx_valid(ctx),
        ensures
            r is Inverses,
            inv_models(r->Inverses_0@) == final(self).spec_accumulated().skip(old(self).spec_accumulated().len() as int),
            old(self).spec_accumulated().is_prefix_of(final(self).spec_accumulated()),
    {
        let mut iter = iter;
        let mut all: Vec<Inv> = Vec::new();
        let mut budget: u64 = crate::effect::MAX_STEPS;
        let ghost a0 = self.accumulated@;
        proof {
            assert(a0.skip(a0.len() as int) =~= Seq::<InvModel>::empty());
            assert(inv_models(all@) =~= Seq::<InvModel>::empty());
            assert(a0 =~= a0.subrange(0, a0.len() as int));
        }
        loop
            invariant
                a0 == old(self).spec_accumulated(),
                a0.is_prefix_of(self.spec_accumulated()),
                inv_models(all@) == self.spec_accumulated().skip(a0.len() as int),
            decreases budget,
        {
            if budget == 0 {
                break;
            }
            budget = budget - 1;
            match iter.next(&mut self.env) {
                Step::Yielded(d) => {
                    let invs = self.to_invs(d);
                    let ghost acc1 = self.accumulated@;
                    self.register_acc(ctx, &invs);
                    let ghost m = inv_models(invs@);
                    let mut invs = invs;
                    let ghost all0 = all@;
                    all.append(&mut invs);
                    proof {
                        assert(inv_models(all@) =~= inv_models(all0) + m);
                        lemma_accumulate(a0, acc1, all0, all@, m);
                    }
                    self.drain(CASCADE_DEPTH);
                },
                Step::Finished(d) => {
                    let invs = self.to_invs(d);
                    let ghost acc1 = self.accumulated@;
                    self.register_acc(ctx, &invs);
                    let ghost m = inv_models(invs@);
                    let mut invs = invs;
                    let ghost all0 = all@;
                    all.append(&mut invs);
                    proof {
                        assert(inv_models(all@) =~= inv_models(all0) + m);
                        lemma_accumulate(a0, acc1, all0, all@, m);
                    }
                    self.drain(CASCADE_DEPTH);
                    break;
                },
                Step::Await => {
                    break;
                },
                Step::Failed(_) => {
                    self.drain(CASCADE_DEPTH);
                    break;
                },
            }
        }
        Disposer::Inverses(all)
    }

    fn register_acc(&mut self, ctx: Context, invs: &Vec<Inv>)
        ensures
            final(self).spec_accumulated() == old(self).spec_accumulated() + inv_models(invs@),
            final(self).spec_undo_log() == old(self).spec_undo_log(),
            old(self).env.ctx_valid(ctx) ==> inv_models(final(self).env.ctx_acc(ctx)) == inv_models(old(self).env.ctx_acc(ctx)) + inv_models(invs@),
            final(self).env.spec_fibers() == old(self).env.spec_fibers(),
            final(self).env.spec_store() == old(self).env.spec_store(),
            final(self).env.spec_armed() == old(self).env.spec_armed(),
    {
        self.env.append_acc(ctx, invs);
        self.accumulated = Ghost(self.accumulated@ + inv_models(invs@));
    }

    /// Runs a disposer (a returned inverse), then propagates.
    pub fn dispose(&mut self, d: Disposer)
        ensures
            old(self).unobserved() && (d matches Disposer::Inverses(v) && forall|k: int| 0 <= k < inv_models(v@).len() ==> #[trigger] inv_models(v@)[k] is Unbind)
                ==> final(self).unobserved() && (final(self).spec_env().spec_store(), final(self).spec_env().spec_armed())
                == unbind_run(old(self).spec_env().spec_store(), old(self).spec_env().spec_armed(), inv_models(d->Inverses_0@))
                && final(self).spec_env().same_contexts(&old(self).spec_env())
                && final(self).spec_env().spec_fibers() == old(self).spec_env().spec_fibers(),
            final(self).log_grows(old(self)),
            d matches Disposer::Inverses(v) ==> appears(
                final(self).spec_undo_log().skip(old(self).spec_undo_log().len() as int),
                runs_of(inv_models(v@)),
            ),
    {
        match d {
            Disposer::Inverses(v) => self.run_list(v, CASCADE_DEPTH),
            Disposer::Custom(mut u) => {
                u.undo(&mut self.env);
                self.drain(CASCADE_DEPTH);
            },
        }
    }

    /// Runs the accumulator of `ctx` from the most recent inverse (the
    /// `recover`), then propagates. The accumulator is emptied first:
    /// effects registered meanwhile are not recovered by this call.
    pub fn dispose_all(&mut self, ctx: Context)
        ensures
            old(self).unobserved() && (forall|k: int| 0 <= k < inv_models(old(self).spec_env().ctx_acc(ctx)).len()
                ==> #[trigger] inv_models(old(self).spec_env().ctx_acc(ctx))[k] is Unbind) ==> {
                &&& final(self).unobserved()
                &&& (final(self).spec_env().spec_store(), final(self).spec_env().spec_armed()) == unbind_run(
                    old(self).spec_env().spec_store(),
                    old(self).spec_env().spec_armed(),
                    inv_models(old(self).spec_env().ctx_acc(ctx)),
                )
                &&& final(self).spec_env().ctx_acc(ctx).len() == 0
            },
            final(self).log_grows(old(self)),
            old(self).spec_undo_log().push(UndoEvent::Recover(inv_models(old(self).spec_env().ctx_acc(ctx)))).is_prefix_of(
                final(self).spec_undo_log(),
            ),
    {
        proof {
            lemma_grows_refl(*self);
        }
        let acc = self.env.take_context_acc(ctx);
        let ghost g0 = *self;
        self.undo_log = Ghost(self.undo_log@.push(UndoEvent::Recover(inv_models(acc@))));
        let ghost mid = self.env;
        proof {
            assert(acc@ == old(self).spec_env().ctx_acc(ctx));
            assert(self.unobserved() == old(self).unobserved());
        }
        self.run_list(acc, CASCADE_DEPTH);
        proof {
            lemma_recovered(*old(self), g0, *self, inv_models(acc@));
            if old(self).unobserved() && (forall|k: int| 0 <= k < inv_models(old(self).spec_env().ctx_acc(ctx)).len()
                ==> #[trigger] inv_models(old(self).spec_env().ctx_acc(ctx))[k] is Unbind) {
                crate::env::lemma_same_contexts(self.env, mid);
            }
        }
    }

    /// `notify(ctx, realms)`.
    pub fn notify(&mut self, ctx: Context, realms: &Vec<Symbol>)
        ensures
            old(self).unobserved() ==> final(self).calm_since(old(self)),
    {
        let mut v: Vec<Symbol> = Vec::new();
        let mut k: usize = 0;
        while k < realms.len()
            decreases realms.len() - k,
        {
            v.push(realms[k].clone());
            k = k + 1;
        }
        self.notify_now(ctx, v, CASCADE_DEPTH);
        proof {
            if old(self).unobserved() {
                crate::env::lemma_contexts_eq(self.env, old(self).env);
            }
        }
    }

    /// `isolate(k, r)`.
    pub fn isolate(&mut self, ctx: Context, key: Symbol, realm: Symbol) -> (r: Context)
        ensures
            final(self).n_reactors() == old(self).n_reactors(),
            final(self).spec_env().ctx_valid(r),
            final(self).spec_env().ctx_fiber(r) == old(self).spec_env().ctx_fiber(ctx),
            forall|k: Seq<char>| final(self).spec_env().realm_of(r, k) == if k == key@ { realm@ } else { old(self).spec_env().realm_of(ctx, k) },
            final(self).spec_env().ctx_meta(r) == old(self).spec_env().ctx_meta(ctx),
            final(self).spec_env().spec_store() == old(self).spec_env().spec_store(),
            final(self).spec_env().spec_fibers() == old(self).spec_env().spec_fibers(),
            same_components(final(self).spec_env(), old(self).spec_env()),
    {
        self.env.isolate(ctx, key, realm)
    }
}
impl Runtime {
    /// `intercept(k, ν)` with `ν` already merged: a derived context whose
    /// metadata at `key` is `meta`.
    pub fn intercept_value(&mut self, ctx: Context, key: Symbol, meta: Value) -> (r: Context)
        ensures
            final(self).n_reactors() == old(self).n_reactors(),
            final(self).spec_env().ctx_valid(r),
            final(self).spec_env().ctx_fiber(r) == old(self).spec_env().ctx_fiber(ctx),
            final(self).spec_env().ctx_realms(r) == old(self).spec_env().ctx_realms(ctx),
            forall|k: Seq<char>| crate::env::meta_of(final(self).spec_env().ctx_meta(r), k) == if k == key@ { Some(meta@) } else { crate::env::meta_of(old(self).spec_env().ctx_meta(ctx), k) },
            final(self).spec_env().spec_store() == old(self).spec_env().spec_store(),
            final(self).spec_env().spec_fibers() == old(self).spec_env().spec_fibers(),
    {
        self.env.intercept(ctx, key, meta)
    }
}

impl Runtime {
    /// The environment, for the crate's orchestration layers.
    pub(crate) fn env_mut(&mut self) -> (r: &mut Env)
        ensures
            *r == old(self).spec_env(),
            final(self).spec_env() == *final(r),
    {
        &mut self.env
    }

    /// A context derived from `ctx` (same fiber, `ρ` and `ι`; empty
    /// accumulator).
    pub fn derive(&mut self, ctx: Context) -> (r: Context)
        ensures
            final(self).n_reactors() == old(self).n_reactors(),
            final(self).spec_env().ctx_valid(r),
            final(self).spec_env().ctx_fiber(r) == old(self).spec_env().ctx_fiber(ctx),
            final(self).spec_env().ctx_realms(r) == old(self).spec_env().ctx_realms(ctx),
            forall|k: Seq<char>| #[trigger] final(self).spec_env().realm_of(r, k) == old(self).spec_env().realm_of(ctx, k),
            final(self).spec_env().ctx_meta(r) == old(self).spec_env().ctx_meta(ctx),
            final(self).spec_env().spec_store() == old(self).spec_env().spec_store(),
            final(self).spec_env().spec_fibers() == old(self).spec_env().spec_fibers(),
            same_components(final(self).spec_env(), old(self).spec_env()),
    {
        let f = self.env.fiber_of(ctx);
        self.env.derive_for(ctx, f)
    }

    /// Registers the retirement of `fiber` as an inverse of `ctx`
    /// (recovering `ctx` retires the child).
    pub(crate) fn attach_child(&mut self, ctx: Context, fiber: FiberId)
        ensures
            final(self).spec_env().spec_armed() == old(self).spec_env().spec_armed().push(true),
            old(self).spec_env().ctx_valid(ctx) ==> inv_models(final(self).spec_env().ctx_acc(ctx))
                == inv_models(old(self).spec_env().ctx_acc(ctx)).push(InvModel::Retire { guard: old(self).spec_env().spec_armed().len() as usize, fiber }),
            final(self).spec_env().spec_fibers() == old(self).spec_env().spec_fibers(),
            final(self).spec_env().spec_store() == old(self).spec_env().spec_store(),
    {
        let guard = self.env.new_guard();
        let mut v: Vec<Inv> = Vec::new();
        v.push(Inv::Retire { guard, fiber });
        proof {
            assert(inv_models(v@) =~= seq![InvModel::Retire { guard, fiber }]);
        }
        let ghost mid = self.env;
        self.env.append_acc(ctx, &v);

    }
}

} // verus!
