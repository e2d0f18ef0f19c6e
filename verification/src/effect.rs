//! Reversible effects: effect iterators, their per-step inverses and the
//! execute engine that folds the inverses into a LIFO recovery.
//!
//! Iterators must terminate in finitely many steps.

use vstd::prelude::*;

use crate::env::{Context, Env, Inv};
use crate::fiber::FiberError;

verus! {

/// A user inverse: undoes the effect of the step it accompanies.
pub trait Undo {
    /// Runs the inverse.
    fn undo(&mut self, env: &mut Env);
}

/// The inverse of one step: inverses recorded by the environment (each
/// with its armed flag, run from the last to the first), or a user inverse.
pub enum Disposer {
    /// Engine inverses, in application order.
    Inverses(Vec<Inv>),
    /// A user inverse.
    Custom(Box<dyn Undo>),
}

/// The identity inverse.
pub fn noop() -> (r: Disposer)
    ensures
        r matches Disposer::Inverses(v) && v@.len() == 0,
{
    Disposer::Inverses(Vec::new())
}

/// The inverse of a single engine effect.
pub fn inverse(inv: Inv) -> (r: Disposer)
    ensures
        r matches Disposer::Inverses(v) && v@ == seq![inv],
{
    let mut v: Vec<Inv> = Vec::new();
    v.push(inv);
    Disposer::Inverses(v)
}

/// Running inverses only disarms and unbinds: the armed flags keep their
/// number and none is armed again, and the table only loses bindings.
pub open spec fn only_undoes(before: Env, after: Env) -> bool {
    &&& after.spec_armed().len() == before.spec_armed().len()
    &&& forall|g: int| 0 <= g < before.spec_armed().len() && !before.spec_armed()[g] ==> !after.spec_armed()[g]
    &&& forall|r: Seq<char>| #[trigger] after.spec_store().contains_key(r)
        ==> before.spec_store().contains_key(r) && after.spec_store()[r] == before.spec_store()[r]
}

/// Every inverse of `v` is disarmed in `after`.
pub open spec fn all_disarmed(after: Env, v: Seq<Inv>) -> bool {
    forall|k: int| 0 <= k < v.len() && v[k].spec_guard() < after.spec_armed().len()
        ==> !after.spec_armed()[(#[trigger] v[k]).spec_guard() as int]
}

/// `inv` unbinds realm `r`.
pub open spec fn unbinds_realm(inv: Inv, r: Seq<char>) -> bool {
    inv matches Inv::Unbind { realm, .. } && realm@ == r
}

/// `v` has an inverse that unbinds realm `r`.
pub open spec fn unbinds(v: Seq<Inv>, r: Seq<char>) -> bool {
    exists|k: int| 0 <= k < v.len() && #[trigger] unbinds_realm(v[k], r)
}

/// What running the engine inverses `v` did between `before` and `after`:
/// it only undid, every inverse of `v` ends disarmed, and every binding that
/// went away was unbound by an inverse of `v`.
pub open spec fn undone(before: Env, after: Env, v: Seq<Inv>) -> bool {
    &&& only_undoes(before, after)
    &&& all_disarmed(after, v)
    &&& forall|r: Seq<char>| before.spec_store().contains_key(r) && !after.spec_store().contains_key(r)
        ==> #[trigger] unbinds(v, r)
}

/// Runs a disposer: a user inverse runs once; engine inverses run from the
/// last to the first, each only while still armed.
pub fn dispose(d: Disposer, env: &mut Env)
    ensures
        d matches Disposer::Inverses(v) ==> undone(*old(env), *final(env), v@),
{
    match d {
        Disposer::Custom(mut u) => u.undo(env),
        Disposer::Inverses(v) => {
            let ghost orig = v@;
            let mut v = v;
            proof {
                assert(orig.subrange(orig.len() as int, orig.len() as int) =~= Seq::<Inv>::empty());
            }
            while v.len() > 0
                invariant
                    v@.len() <= orig.len(),
                    v@ == orig.take(v@.len() as int),
                    undone(*old(env), *env, orig.subrange(v@.len() as int, orig.len() as int)),
                decreases v.len(),
            {
                let ghost mid = *env;
                let ghost n = v@.len() as int;
                let inv = v.pop().unwrap();
                proof {
                    assert(inv == orig[n - 1]);
                    assert(v@ =~= orig.take(n - 1));
                }
                let ran = env.run_inv(&inv);
                proof {
                    let done = orig.subrange(n, orig.len() as int);
                    let done2 = orig.subrange(n - 1, orig.len() as int);
                    assert(done2 =~= seq![inv] + done);
                    assert forall|k: int| 0 <= k < done2.len() && done2[k].spec_guard() < env.spec_armed().len()
                        implies !env.spec_armed()[(#[trigger] done2[k]).spec_guard() as int] by {
                        if k > 0 {
                            assert(done2[k] == done[k - 1]);
                        }
                    }
                    assert forall|r: Seq<char>| old(env).spec_store().contains_key(r) && !env.spec_store().contains_key(r)
                        implies #[trigger] unbinds(done2, r) by {
                        if mid.spec_store().contains_key(r) {
                            assert(done2[0] == inv);
                            assert(unbinds_realm(done2[0], r));
                        } else {
                            assert(unbinds(done, r));
                            let k = choose|k: int| 0 <= k < done.len() && #[trigger] unbinds_realm(done[k], r);
                            assert(done2[k + 1] == done[k]);
                            assert(unbinds_realm(done2[k + 1], r));
                        }
                    }
                }
            }
            proof {
                assert(orig.subrange(0, orig.len() as int) =~= orig);
            }
        },
    }
}

/// Running more inverses after some keeps what was undone.
proof fn lemma_undone_then(a: Env, b: Env, c: Env, v: Seq<Inv>, w: Seq<Inv>)
    requires
        undone(a, b, v),
        undone(b, c, w),
    ensures
        undone(a, c, w + v),
{
    assert forall|k: int| 0 <= k < (w + v).len() && (w + v)[k].spec_guard() < c.spec_armed().len()
        implies !c.spec_armed()[(#[trigger] (w + v)[k]).spec_guard() as int] by {
        if k >= w.len() {
            assert((w + v)[k] == v[k - w.len()]);
        }
    }
    assert forall|r: Seq<char>| a.spec_store().contains_key(r) && !c.spec_store().contains_key(r)
        implies #[trigger] unbinds(w + v, r) by {
        if b.spec_store().contains_key(r) {
            assert(unbinds(w, r));
            let k = choose|k: int| 0 <= k < w.len() && #[trigger] unbinds_realm(w[k], r);
            assert((w + v)[k] == w[k]);
            assert(unbinds_realm((w + v)[k], r));
        } else {
            assert(unbinds(v, r));
            let k = choose|k: int| 0 <= k < v.len() && #[trigger] unbinds_realm(v[k], r);
            assert((w + v)[w.len() + k] == v[k]);
            assert(unbinds_realm((w + v)[w.len() + k], r));
        }
    }
}

/// The engine inverses of a list of disposers, in application order (`None`
/// when one of them is a user inverse).
pub open spec fn engine_inverses(steps: Seq<Disposer>) -> Option<Seq<Inv>>
    decreases steps.len(),
{
    if steps.len() == 0 {
        Some(Seq::empty())
    } else {
        match (engine_inverses(steps.drop_last()), steps.last()) {
            (Some(prefix), Disposer::Inverses(v)) => Some(prefix + v@),
            _ => None,
        }
    }
}

/// Runs the disposers of `steps` from the last to the first.
fn run_steps(steps: &mut Vec<Disposer>, env: &mut Env)
    ensures
        final(steps)@.len() == 0,
        engine_inverses(old(steps)@) matches Some(v) ==> undone(*old(env), *final(env), v),
{
    let ghost orig = old(steps)@;
    proof {
        assert(undone(*env, *env, Seq::<Inv>::empty())) by {
            assert(only_undoes(*env, *env));
        }
    }
    while steps.len() > 0
        invariant
            steps@.len() <= orig.len(),
            steps@ == orig.take(steps@.len() as int),
            engine_inverses(orig) is Some ==> engine_inverses(steps@) is Some
                && undone(*old(env), *env, engine_inverses(orig)->0.skip(engine_inverses(steps@)->0.len() as int)),
        decreases steps.len(),
    {
        let ghost mid = *env;
        let ghost before = steps@;
        let d = steps.pop().unwrap();
        proof {
            assert(steps@ =~= before.drop_last());
            assert(steps@ =~= orig.take(steps@.len() as int));
        }
        dispose(d, env);
        proof {
            if engine_inverses(orig) is Some {
                let all = engine_inverses(orig)->0;
                let p0 = engine_inverses(before)->0;
                assert(d is Inverses);
                let dv = d->Inverses_0@;
                let p1 = engine_inverses(steps@)->0;
                assert(p0 == p1 + dv);
                lemma_engine_prefix(orig, before.len() as int);
                assert(before == orig.take(before.len() as int));
                assert(p0 =~= all.take(p0.len() as int));
                assert forall|i: int| 0 <= i < dv.len() implies all[p1.len() + i] == dv[i] by {
                    assert(p0[p1.len() + i] == dv[i]);
                    assert(all.take(p0.len() as int)[p1.len() + i] == all[p1.len() + i]);
                }
                assert(all.skip(p1.len() as int) =~= dv + all.skip(p0.len() as int));
                lemma_undone_then(*old(env), mid, *env, all.skip(p0.len() as int), dv);
            }
        }
    }
    proof {
        if engine_inverses(orig) is Some {
            assert(engine_inverses(steps@)->0.len() == 0);
            assert(engine_inverses(orig)->0.skip(0) =~= engine_inverses(orig)->0);
        }
    }
}

/// The engine inverses of a prefix are a prefix of the whole.
proof fn lemma_engine_prefix(s: Seq<Disposer>, n: int)
    requires
        0 <= n <= s.len(),
        engine_inverses(s) is Some,
    ensures
        engine_inverses(s.take(n)) is Some,
        engine_inverses(s.take(n))->0 =~= engine_inverses(s)->0.take(engine_inverses(s.take(n))->0.len() as int),
        engine_inverses(s.take(n))->0.len() <= engine_inverses(s)->0.len(),
    decreases s.len() - n,
{
    if n == s.len() {
        assert(s.take(n) =~= s);
    } else {
        assert(s.drop_last() =~= s.take(s.len() - 1));
        assert(s.take(n) =~= s.drop_last().take(n));
        lemma_engine_prefix(s.drop_last(), n);
    }
}

/// One step of an effect iterator.
pub enum Step {
    /// An inverse; the iteration continues.
    Yielded(Disposer),
    /// An inverse; the iteration ends.
    Finished(Disposer),
    /// The iterator suspends until an outside event is ready (resumed
    /// through [`try_execute_with`]).
    Await,
    /// The step failed (L-Raise): the iteration ends with this error; the
    /// failing step has no effect to undo.
    Failed(FiberError),
}

/// An effect iterator: each step performs part of an effect on the
/// environment and yields its inverse.
///
/// Iteration must be finite: a drive takes at most [`MAX_STEPS`] steps.
pub trait EffectIter {
    /// Performs the next step.
    fn next(&mut self, env: &mut Env) -> Step;
}

/// The most steps one drive of an effect iterator takes.
pub const MAX_STEPS: u64 = 0xffff_ffff_ffff_ffff;

/// The LIFO composition of collected inverses: running it runs the inverses
/// from the most recent to the oldest.
pub struct Recovery {
    steps: Vec<Disposer>,
}

impl Recovery {
    /// Number of folded inverses.
    pub closed spec fn spec_len(&self) -> nat {
        self.steps@.len()
    }

    /// The folded inverses in application order.
    pub closed spec fn steps(&self) -> Seq<Disposer> {
        self.steps@
    }

    /// Folds inverses collected in application order.
    pub fn new(steps: Vec<Disposer>) -> (r: Recovery)
        ensures
            r.steps() == steps@,
    {
        Recovery { steps }
    }

    /// Number of folded inverses.
    pub fn len(&self) -> (r: usize)
        ensures
            r == self.spec_len(),
    {
        self.steps.len()
    }

    /// Whether nothing was folded (the identity recovery).
    pub fn is_empty(&self) -> (r: bool)
        ensures
            r == (self.spec_len() == 0),
    {
        self.steps.len() == 0
    }

    /// Takes the folded inverses, in application order.
    pub fn into_steps(self) -> (r: Vec<Disposer>)
        ensures
            r@ == self.steps(),
    {
        self.steps
    }

    /// Runs the inverses from the most recent to the oldest.
    pub fn run(self, env: &mut Env)
        ensures
            engine_inverses(self.steps()) matches Some(v) ==> undone(*old(env), *final(env), v),
    {
        let mut steps = self.steps;
        run_steps(&mut steps, env);
    }
}

impl Undo for Recovery {
    fn undo(&mut self, env: &mut Env)
        ensures
            final(self).steps().len() == 0,
            engine_inverses(old(self).steps()) matches Some(v) ==> undone(*old(env), *final(env), v),
    {
        run_steps(&mut self.steps, env);
    }
}

/// The guard is constantly false.
pub open spec fn never<G: Fn() -> bool>(guard: G) -> bool {
    forall|b: bool| call_ensures(guard, (), b) ==> !b
}

/// How a resumable drive ended.
pub enum Outcome {
    /// The iterator finished or the guard failed: all collected inverses.
    Done(Recovery),
    /// The iterator suspended: the iterator and the inverses so far.
    Suspended(Box<dyn EffectIter>, Vec<Disposer>),
    /// A step failed: the error and the inverses of the completed steps.
    Failed(FiberError, Vec<Disposer>),
}

/// What a drive does after folding one step.
pub enum Fold {
    /// Ask for the next step.
    Continue,
    /// The iterator finished.
    Stop,
    /// The iterator suspended.
    Suspend,
    /// The step failed with this error.
    Fail(FiberError),
}

/// Folds one step into the inverses collected so far (in application
/// order): a step's inverse is appended; a suspension or a failure adds
/// nothing.
pub fn fold_step(collected: &mut Vec<Disposer>, step: Step) -> (r: Fold)
    ensures
        step matches Step::Yielded(d) ==> final(collected)@ == old(collected)@.push(d) && r is Continue,
        step matches Step::Finished(d) ==> final(collected)@ == old(collected)@.push(d) && r is Stop,
        step is Await ==> final(collected)@ == old(collected)@ && r is Suspend,
        step matches Step::Failed(e) ==> final(collected)@ == old(collected)@ && r == Fold::Fail(e),
{
    match step {
        Step::Yielded(d) => {
            collected.push(d);
            Fold::Continue
        },
        Step::Finished(d) => {
            collected.push(d);
            Fold::Stop
        },
        Step::Await => Fold::Suspend,
        Step::Failed(e) => Fold::Fail(e),
    }
}

/// Execute: drives `iter` until the guard fails (checked at
/// every step boundary) or the iterator finishes, folding the step inverses
/// into a LIFO recovery. A guard that fails at once yields the identity
/// recovery. A suspension or a failure ends the drive like a failed guard;
/// the resumable path is [`try_execute_with`].
pub fn execute<G: Fn() -> bool>(iter: Box<dyn EffectIter>, guard: G, env: &mut Env) -> (r: Recovery)
    requires
        forall|| guard.requires(()),
    ensures
        never(guard) ==> r.spec_len() == 0,
{
    match try_execute_with(iter, guard, Vec::new(), env) {
        Outcome::Done(r) => r,
        Outcome::Suspended(_, acc) => Recovery { steps: acc },
        Outcome::Failed(_, acc) => Recovery { steps: acc },
    }
}

/// The resumable drive: like [`execute`], starting from the inverses `acc`
/// already collected; a suspension returns the iterator with the inverses
/// so far (continuing the same accumulation on resumption), a failure
/// returns the error with the inverses of the completed steps.
pub fn try_execute_with<G: Fn() -> bool>(iter: Box<dyn EffectIter>, guard: G, acc: Vec<Disposer>, env: &mut Env) -> (r: Outcome)
    requires
        forall|| guard.requires(()),
    ensures
        match r {
            Outcome::Done(rec) => acc@.is_prefix_of(rec.steps()),
            Outcome::Suspended(_, v) => acc@.is_prefix_of(v@),
            Outcome::Failed(_, v) => acc@.is_prefix_of(v@),
        },
        never(guard) ==> (r matches Outcome::Done(rec) && rec.steps() == acc@),
{
    let mut iter = iter;
    let mut collected = acc;
    let ghost init = collected@;
    let mut budget: u64 = MAX_STEPS;
    loop
        invariant
            forall|| guard.requires(()),
            init == acc@,
            init.is_prefix_of(collected@),
            never(guard) ==> collected@ == init,
        decreases budget,
    {
        if budget == 0 {
            break;
        }
        budget = budget - 1;
        if !guard() {
            break;
        }
        let step = iter.next(env);
        match fold_step(&mut collected, step) {
            Fold::Continue => {
                assert(init.is_prefix_of(collected@)) by {
                    assert(collected@.subrange(0, init.len() as int) =~= init);
                }
            },
            Fold::Stop => {
                assert(init.is_prefix_of(collected@)) by {
                    assert(collected@.subrange(0, init.len() as int) =~= init);
                }
                break;
            },
            Fold::Suspend => {
                return Outcome::Suspended(iter, collected);
            },
            Fold::Fail(e) => {
                return Outcome::Failed(e, collected);
            },
        }
    }
    Outcome::Done(Recovery { steps: collected })
}

/// A single effect as a one-step iterator (the degenerate effect iterator).
pub struct Once<F: FnOnce(&mut Env) -> Disposer> {
    callback: Option<F>,
}

/// Wraps a single effect as a one-step iterator: the step runs `callback`
/// and finishes with the inverse it returns.
pub fn once<F: FnOnce(&mut Env) -> Disposer>(callback: F) -> (r: Once<F>)
    requires
        forall|e: &mut Env| callback.requires((e,)),
    ensures
        r.pending() == Some(callback),
{
    Once { callback: Some(callback) }
}

impl<F: FnOnce(&mut Env) -> Disposer> Once<F> {
    #[verifier::type_invariant]
    closed spec fn inv(self) -> bool {
        self.callback matches Some(f) ==> forall|e: &mut Env| f.requires((e,))
    }

    /// The callback still to run.
    pub closed spec fn pending(&self) -> Option<F> {
        self.callback
    }
}

impl<F: FnOnce(&mut Env) -> Disposer> EffectIter for Once<F> {
    fn next(&mut self, env: &mut Env) -> (r: Step)
        ensures
            r is Finished,
            final(self).pending() is None,
            old(self).pending() is None ==> *final(env) == *old(env)
                && (r matches Step::Finished(Disposer::Inverses(v)) && v@.len() == 0),
    {
        proof { use_type_invariant(&*self); }
        let mut taken: Option<F> = None;
        std::mem::swap(&mut taken, &mut self.callback);
        match taken {
            Some(f) => Step::Finished(f(env)),
            None => Step::Finished(noop()),
        }
    }
}

/// A one-step iterator whose step runs `step` in `ctx` (the degenerate
/// effect of a component that binds one key).
pub struct WithCtx<F: FnOnce(Context, &mut Env) -> Disposer> {
    ctx: Context,
    step: Option<F>,
}

impl<F: FnOnce(Context, &mut Env) -> Disposer> WithCtx<F> {
    #[verifier::type_invariant]
    closed spec fn inv(self) -> bool {
        self.step matches Some(f) ==> forall|e: &mut Env| f.requires((self.ctx, e))
    }

    /// The context the step runs in.
    pub closed spec fn spec_ctx(&self) -> Context {
        self.ctx
    }

    /// The step still to run.
    pub closed spec fn pending(&self) -> Option<F> {
        self.step
    }
}

/// Wraps "a step that takes the context" as a one-step iterator.
pub fn with_ctx<F: FnOnce(Context, &mut Env) -> Disposer>(ctx: Context, step: F) -> (r: WithCtx<F>)
    requires
        forall|e: &mut Env| step.requires((ctx, e)),
    ensures
        r.spec_ctx() == ctx,
        r.pending() == Some(step),
{
    WithCtx { ctx, step: Some(step) }
}

impl<F: FnOnce(Context, &mut Env) -> Disposer> EffectIter for WithCtx<F> {
    fn next(&mut self, env: &mut Env) -> (r: Step)
        ensures
            r is Finished,
            final(self).pending() is None,
            final(self).spec_ctx() == old(self).spec_ctx(),
            old(self).pending() is None ==> *final(env) == *old(env)
                && (r matches Step::Finished(Disposer::Inverses(v)) && v@.len() == 0),
    {
        proof { use_type_invariant(&*self); }
        let mut taken: Option<F> = None;
        std::mem::swap(&mut taken, &mut self.step);
        match taken {
            Some(f) => Step::Finished(f(self.ctx, env)),
            None => Step::Finished(noop()),
        }
    }
}

} // verus!
