//! Fibers: names, lifecycle errors, lifecycle states and the registry
//! record of a component instance.

use vstd::prelude::*;

use crate::env::{Context, Inv};
use crate::interp::TargetView;
use crate::keyset::KeySet;
use crate::value::Value;

verus! {

/// A fiber name: an atom compared only for equality; names are never reused.
#[derive(Clone, Copy, PartialEq, Eq, Structural, Hash, PartialOrd, Ord, Debug)]
pub struct FiberId(pub u64);

impl FiberId {
    /// Allocates a fresh name from the counter `next` and advances it.
    pub fn fresh(next: &mut u64) -> (r: FiberId)
        requires
            *old(next) < u64::MAX,
        ensures
            r.0 == *old(next),
            *final(next) == *old(next) + 1,
    {
        let id = FiberId(*next);
        *next = *next + 1;
        id
    }
}

/// A fiber lifecycle error (the outcome `ζ` of a failed fiber).
#[derive(Clone, Debug, PartialEq, Eq)]
pub struct FiberError {
    message: String,
}

impl FiberError {
    /// The error message.
    pub closed spec fn spec_message(&self) -> Seq<char> {
        self.message@
    }

    /// Builds an error from its message.
    pub fn new(message: String) -> (r: FiberError)
        ensures
            r.spec_message() == message@,
    {
        FiberError { message }
    }

    /// The error message.
    pub fn message(&self) -> (r: &str)
        ensures
            r@ == self.spec_message(),
    {
        self.message.as_str()
    }
}

impl FiberError {
    /// A copy of the error.
    pub fn duplicate(&self) -> (r: FiberError)
        ensures
            r.spec_message() == self.spec_message(),
    {
        FiberError { message: self.message.clone() }
    }
}

/// Lifecycle state `θ` of a runtime fiber.
///
/// `Reloading` and `Unloading` carry the view the transition committed to;
/// `Inactive(Some(ζ))` is the failed end state.
#[derive(Debug)]
pub enum FiberState {
    /// `Inactive(ζ)`: not installed (`Some` = failed).
    Inactive(Option<FiberError>),
    /// `Reloading(ω)`: activation in progress.
    Reloading {
        /// The committed view `ω`.
        view: TargetView,
    },
    /// `Active(ω)`: installed, providing its bindings.
    Active {
        /// The committed view `ω`.
        view: TargetView,
    },
    /// `Unloading(ω, ζ)`: deactivation in progress (no longer providing).
    Unloading {
        /// The view committed before deactivation.
        view: TargetView,
        /// The outcome `ζ`.
        outcome: Option<FiberError>,
    },
}

pub open spec fn opt_error_view(e: Option<FiberError>) -> Option<Seq<char>> {
    match e {
        Some(x) => Some(x.spec_message()),
        None => None,
    }
}

pub fn clone_opt_error(e: &Option<FiberError>) -> (r: Option<FiberError>)
    ensures
        opt_error_view(r) == opt_error_view(*e),
{
    match e {
        Some(x) => Some(x.duplicate()),
        None => None,
    }
}

impl FiberState {
    /// The committed view carried by the state (none when inactive).
    pub open spec fn spec_view(&self) -> Option<Seq<(Seq<char>, FiberId)>> {
        match self {
            FiberState::Inactive(_) => None,
            FiberState::Reloading { view } => Some(view@),
            FiberState::Active { view } => Some(view@),
            FiberState::Unloading { view, .. } => Some(view@),
        }
    }

    /// The failure recorded by an inactive state.
    pub open spec fn spec_error(&self) -> Option<Seq<char>> {
        match self {
            FiberState::Inactive(e) => opt_error_view(*e),
            _ => None,
        }
    }

    /// A copy of the state.
    pub fn duplicate(&self) -> (r: FiberState)
        ensures
            r.spec_view() == self.spec_view(),
            r is Inactive <==> self is Inactive,
            r is Reloading <==> self is Reloading,
            r is Active <==> self is Active,
            r is Unloading <==> self is Unloading,
            r.spec_error() == self.spec_error(),
    {
        match self {
            FiberState::Inactive(e) => FiberState::Inactive(clone_opt_error(e)),
            FiberState::Reloading { view } => FiberState::Reloading { view: view.clone() },
            FiberState::Active { view } => FiberState::Active { view: view.clone() },
            FiberState::Unloading { view, outcome } => FiberState::Unloading {
                view: view.clone(),
                outcome: clone_opt_error(outcome),
            },
        }
    }

    /// Whether the state is `Active`.
    pub fn is_active(&self) -> (r: bool)
        ensures
            r == (self is Active),
    {
        match self {
            FiberState::Active { .. } => true,
            _ => false,
        }
    }

    /// Whether the state is `Inactive`.
    pub fn is_inactive(&self) -> (r: bool)
        ensures
            r == (self is Inactive),
    {
        match self {
            FiberState::Inactive(_) => true,
            _ => false,
        }
    }

    /// Whether a transition is in progress.
    pub fn in_transition(&self) -> (r: bool)
        ensures
            r == (self is Reloading || self is Unloading),
    {
        match self {
            FiberState::Reloading { .. } => true,
            FiberState::Unloading { .. } => true,
            _ => false,
        }
    }

    /// Whether the state is the failed end state `Inactive(Some(ζ))`.
    pub fn is_failed(&self) -> (r: bool)
        ensures
            r == (self matches FiberState::Inactive(Some(_))),
    {
        match self {
            FiberState::Inactive(Some(_)) => true,
            _ => false,
        }
    }
}

pub open spec fn opt_view(v: Option<TargetView>) -> Option<Seq<(Seq<char>, FiberId)>> {
    match v {
        Some(t) => Some(t@),
        None => None,
    }
}

pub fn clone_opt_view(v: &Option<TargetView>) -> (r: Option<TargetView>)
    ensures
        opt_view(r) == opt_view(*v),
{
    match v {
        Some(t) => Some(t.clone()),
        None => None,
    }
}

/// A fiber `⟨d, p, e, π, σ, τ, θ⟩`: one instance of a component in the
/// registry.
///
/// The installed table `σ` is the set of bindings whose provider is this
/// fiber; `e` is the registered component applied to `config` in `ctx`.
#[derive(Debug)]
pub struct Fiber {
    pub id: FiberId,
    pub parent: Option<FiberId>,
    pub inject: KeySet,
    pub provide: KeySet,
    pub ctx: Context,
    pub component: usize,
    pub config: Value,
    pub retired: bool,
    pub state: FiberState,
    pub target: Option<TargetView>,
    pub committed: Option<TargetView>,
    pub dispose: Vec<Inv>,
    pub suspended: bool,
}

/// `a` is a copy of the record `b` (its fields, each by its view).
pub open spec fn copy_of(a: Fiber, b: Fiber) -> bool {
    &&& a.id == b.id
    &&& a.parent == b.parent
    &&& a.inject@ == b.inject@
    &&& a.provide@ == b.provide@
    &&& a.ctx == b.ctx
    &&& a.component == b.component
    &&& a.config@ == b.config@
    &&& a.retired == b.retired
    &&& a.state.spec_view() == b.state.spec_view()
    &&& a.state.spec_error() == b.state.spec_error()
    &&& (a.state is Inactive <==> b.state is Inactive)
    &&& (a.state is Active <==> b.state is Active)
    &&& a.suspended == b.suspended
}

impl Fiber {
    pub open spec fn spec_id(&self) -> FiberId {
        self.id
    }

    pub open spec fn spec_parent(&self) -> Option<FiberId> {
        self.parent
    }

    pub open spec fn spec_retired(&self) -> bool {
        self.retired
    }

    pub open spec fn spec_state(&self) -> FiberState {
        self.state
    }

    pub open spec fn spec_ctx(&self) -> Context {
        self.ctx
    }

    pub open spec fn spec_component(&self) -> usize {
        self.component
    }

    pub open spec fn spec_target(&self) -> Option<Seq<(Seq<char>, FiberId)>> {
        opt_view(self.target)
    }

    pub open spec fn spec_suspended(&self) -> bool {
        self.suspended
    }

    /// The fiber name.
    pub fn id(&self) -> (r: FiberId)
        ensures
            r == self.id,
    {
        self.id
    }

    /// The parent fiber (`None` = root).
    pub fn parent(&self) -> (r: Option<FiberId>)
        ensures
            r == self.parent,
    {
        self.parent
    }

    /// Whether the fiber is suspended on `Step::Await`.
    pub fn is_suspended(&self) -> (r: bool)
        ensures
            r == self.suspended,
    {
        self.suspended
    }

    /// The declared dependencies `d`.
    pub fn inject(&self) -> (r: &KeySet)
        ensures
            r@ == self.inject@,
    {
        &self.inject
    }

    /// The provisions `p`.
    pub fn provide(&self) -> (r: &KeySet)
        ensures
            r@ == self.provide@,
    {
        &self.provide
    }

    /// The fiber's own context.
    pub fn ctx(&self) -> (r: Context)
        ensures
            r == self.ctx,
    {
        self.ctx
    }

    /// The lifecycle state `θ`.
    pub fn state(&self) -> (r: &FiberState)
        ensures
            r == &self.state,
    {
        &self.state
    }

    /// Whether the fiber is retired (`τ`).
    pub fn retired(&self) -> (r: bool)
        ensures
            r == self.retired,
    {
        self.retired
    }

    /// The recorded target summary `target_n(γ)` (a copy).
    pub fn target_view(&self) -> (r: Option<TargetView>)
        ensures
            opt_view(r) == opt_view(self.target),
    {
        clone_opt_view(&self.target)
    }

    /// The index of the component this fiber instantiates.
    pub fn component(&self) -> (r: usize)
        ensures
            r == self.component,
    {
        self.component
    }

    /// A copy of the record.
    pub fn snapshot(&self) -> (r: Fiber)
        ensures
            copy_of(r, *self),
            r.id == self.id,
            r.parent == self.parent,
            r.inject@ == self.inject@,
            r.inject.elems() == self.inject.elems(),
            r.provide@ == self.provide@,
            r.ctx == self.ctx,
            r.component == self.component,
            r.config@ == self.config@,
            r.retired == self.retired,
            r.state.spec_view() == self.state.spec_view(),
            r.state.spec_error() == self.state.spec_error(),
            r.state is Inactive <==> self.state is Inactive,
            r.state is Reloading <==> self.state is Reloading,
            r.state is Active <==> self.state is Active,
            r.state is Unloading <==> self.state is Unloading,
            opt_view(r.target) == opt_view(self.target),
            opt_view(r.committed) == opt_view(self.committed),
            crate::env::inv_models(r.dispose@) == crate::env::inv_models(self.dispose@),
            r.suspended == self.suspended,
    {
        Fiber {
            id: self.id,
            parent: self.parent,
            inject: self.inject.clone(),
            provide: self.provide.clone(),
            ctx: self.ctx,
            component: self.component,
            config: self.config.clone(),
            retired: self.retired,
            state: self.state.duplicate(),
            target: clone_opt_view(&self.target),
            committed: clone_opt_view(&self.committed),
            dispose: crate::env::clone_invs(&self.dispose),
            suspended: self.suspended,
        }
    }

    /// The configuration the effect function is applied to.
    pub fn config(&self) -> (r: &Value)
        ensures
            r == &self.config,
    {
        &self.config
    }
}

} // verus!
