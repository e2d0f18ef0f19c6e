//! Reference interpreter: a rule-by-rule rendering of the basic calculus
//! (orchestration rules O-Insert / O-Retire / O-Remove, lifecycle rules
//! L-Reload / L-Unload), used as the oracle that the runtime is tested
//! against.
//!
//! Effect functions are modelled canonically: activation installs exactly the
//! provided keys and deactivation revokes them; instantiating under a parent
//! registers the child with the parent, whose unload retires it.

use vstd::prelude::*;

use crate::fiber::FiberId;
use crate::interp_model::{
    has_id, idx, installs, is_active, provider, provider_from, satisfied, view_of, wf, enabled,
    is_quiet, provided, support_set, active_set, target, FiberModel, InterpModel, ViewModel, ViolationModel,
    clashes, insert_rule, retire_rule, remove_rule, reload_rule, unload_rule, has_children,
    register_child, retire_all, step, run, quiesces_within, drive_budget, first_enabled_from,
    lemma_insert_wf, lemma_retire_wf, lemma_remove_wf, lemma_reload_wf, lemma_unload_wf,
    lemma_idx_unique, lemma_first_enabled, lemma_first_enabled_skip, lemma_step_none_iff_quiet,
    reload_enabled, unload_enabled, lists_ascending,
};
use crate::keyset::{names, KeySet};
use crate::symbol::Symbol;

verus! {

/// A target view `ω: d → 𝔑`: each declared key with its provider, in
/// declaration order.
#[derive(Debug, PartialEq, Eq)]
pub struct TargetView {
    entries: Vec<(Symbol, FiberId)>,
}

pub open spec fn pair_view(p: (Symbol, FiberId)) -> (Seq<char>, FiberId) {
    (p.0@, p.1)
}

impl View for TargetView {
    type V = ViewModel;

    closed spec fn view(&self) -> ViewModel {
        self.entries@.map_values(|p: (Symbol, FiberId)| pair_view(p))
    }
}

impl Clone for TargetView {
    fn clone(&self) -> (r: Self)
        ensures
            r@ == self@,
    {
        let mut out: Vec<(Symbol, FiberId)> = Vec::new();
        let mut i: usize = 0;
        while i < self.entries.len()
            invariant
                i <= self.entries.len(),
                out@.len() == i,
                forall|j: int| 0 <= j < i ==> pair_view(#[trigger] out@[j]) == pair_view(self.entries@[j]),
            decreases self.entries.len() - i,
        {
            let k = self.entries[i].0.clone();
            out.push((k, self.entries[i].1));
            i = i + 1;
        }
        let r = TargetView { entries: out };
        assert(r@ =~= self@);
        r
    }
}

impl TargetView {
    /// A view from its entries (declaration order).
    pub fn new(entries: Vec<(Symbol, FiberId)>) -> (r: TargetView)
        ensures
            r@ == entries@.map_values(|p: (Symbol, FiberId)| pair_view(p)),
    {
        TargetView { entries }
    }

    /// The provider recorded for `key`.
    pub fn get(&self, key: Symbol) -> (r: Option<FiberId>)
        ensures
            r is Some <==> exists|j: int| 0 <= j < self@.len() && self@[j].0 == key@,
            r matches Some(n) ==> exists|j: int| 0 <= j < self@.len() && self@[j] == (key@, n),
    {
        let mut i: usize = 0;
        while i < self.entries.len()
            invariant
                i <= self.entries.len(),
                forall|j: int| 0 <= j < i ==> self@[j].0 != key@,
            decreases self.entries.len() - i,
        {
            if self.entries[i].0.same(&key) {
                assert(self@[i as int] == (key@, self.entries@[i as int].1));
                return Some(self.entries[i].1);
            }
            i = i + 1;
        }
        None
    }

    /// Number of declared keys.
    pub fn len(&self) -> (r: usize)
        ensures
            r == self@.len(),
    {
        self.entries.len()
    }

    /// Whether the view is empty.
    pub fn is_empty(&self) -> (r: bool)
        ensures
            r == (self@.len() == 0),
    {
        self.entries.len() == 0
    }

    /// Equality of views.
    pub fn same(&self, other: &TargetView) -> (r: bool)
        ensures
            r == (self@ == other@),
    {
        if self.entries.len() != other.entries.len() {
            proof {
                assert(self@.len() != other@.len());
            }
            return false;
        }
        let mut i: usize = 0;
        while i < self.entries.len()
            invariant
                i <= self.entries.len(),
                self.entries.len() == other.entries.len(),
                forall|j: int| 0 <= j < i ==> self@[j] == other@[j],
            decreases self.entries.len() - i,
        {
            if !(self.entries[i].0.same(&other.entries[i].0) && self.entries[i].1 == other.entries[i].1) {
                proof {
                    assert(self@[i as int] != other@[i as int]);
                }
                return false;
            }
            i = i + 1;
        }
        assert(self@ =~= other@);
        true
    }
}

/// A component `(d, p, e)`; its effect function is modelled canonically.
#[derive(Debug)]
pub struct Component {
    /// `d`: declared dependencies.
    pub inject: KeySet,
    /// `p`: provisions (installed exactly on activation).
    pub provide: KeySet,
}

/// Lifecycle state `θ` (two-state model).
#[derive(Debug)]
pub enum Lifecycle {
    /// `Inactive`.
    Inactive,
    /// `Active(g, ω)`: `view` is the view committed at activation.
    Active {
        /// The committed view `ω`.
        view: TargetView,
    },
}

pub open spec fn lifecycle_view(l: Lifecycle) -> Option<ViewModel> {
    match l {
        Lifecycle::Inactive => None,
        Lifecycle::Active { view } => Some(view@),
    }
}

/// Orchestration actions (the request side of the O-rules).
#[derive(Debug)]
pub enum Action {
    /// O-Insert; `parent = None` attaches to the root.
    Insert {
        /// The component to insert.
        component: Component,
        /// The parent fiber `π`.
        parent: Option<FiberId>,
    },
    /// O-Retire.
    Retire {
        /// The target fiber.
        fiber: FiberId,
    },
    /// O-Remove.
    Remove {
        /// The target fiber.
        fiber: FiberId,
    },
}

/// Rule-premise violations.
#[derive(Clone, Copy, Debug, PartialEq, Eq, Structural)]
pub enum Violation {
    /// O-Insert: name already present (names are always fresh here).
    NameExists,
    /// O-Insert: `π ∉ dom(Fγ) ∪ {root}`.
    UnknownParent,
    /// O-Insert: some registered provision meets the new one.
    ProvisionClash,
    /// Unknown fiber name.
    UnknownFiber,
    /// O-Remove: not retired.
    NotRetired,
    /// O-Remove: still active.
    StillActive,
    /// O-Remove: has children.
    HasChildren,
    /// L-Reload: not inactive.
    NotInactive,
    /// L-Reload: target is ⊥.
    NoTarget,
    /// L-Unload: not active.
    NotActive,
    /// L-Unload: target equals the committed view.
    ViewUnchanged,
}

pub open spec fn violation_view(v: Violation) -> ViolationModel {
    match v {
        Violation::NameExists => ViolationModel::NameExists,
        Violation::UnknownParent => ViolationModel::UnknownParent,
        Violation::ProvisionClash => ViolationModel::ProvisionClash,
        Violation::UnknownFiber => ViolationModel::UnknownFiber,
        Violation::NotRetired => ViolationModel::NotRetired,
        Violation::StillActive => ViolationModel::StillActive,
        Violation::HasChildren => ViolationModel::HasChildren,
        Violation::NotInactive => ViolationModel::NotInactive,
        Violation::NoTarget => ViolationModel::NoTarget,
        Violation::NotActive => ViolationModel::NotActive,
        Violation::ViewUnchanged => ViolationModel::ViewUnchanged,
    }
}

pub open spec fn result_view<T>(r: Result<T, Violation>) -> Result<T, ViolationModel> {
    match r {
        Ok(t) => Ok(t),
        Err(e) => Err(violation_view(e)),
    }
}

/// A fiber of the interpreter.
#[derive(Debug)]
pub struct Fiber {
    /// `n`.
    pub id: FiberId,
    /// `π` (`None` = root).
    pub parent: Option<FiberId>,
    /// `d`.
    pub inject: KeySet,
    /// `p`.
    pub provide: KeySet,
    /// `σ`: installed keys (the provision when active, empty otherwise).
    pub table: KeySet,
    /// `τ`.
    pub retired: bool,
    /// `θ`.
    pub state: Lifecycle,
    /// Children registered by this fiber (retired when it unloads).
    pub registered: Vec<FiberId>,
}

impl View for Fiber {
    type V = FiberModel;

    open spec fn view(&self) -> FiberModel {
        FiberModel {
            id: self.id,
            parent: self.parent,
            inject: self.inject.elems(),
            provide: self.provide@,
            table: self.table@,
            retired: self.retired,
            view: lifecycle_view(self.state),
            registered: self.registered@,
        }
    }
}

pub open spec fn fmodels(v: Seq<Fiber>) -> Seq<FiberModel> {
    v.map_values(|f: Fiber| f@)
}

/// System state `γ`: the registry `Fγ` and the name counter.
#[derive(Debug)]
pub struct InterpState {
    fibers: Vec<Fiber>,
    next: u64,
}

impl View for InterpState {
    type V = InterpModel;

    closed spec fn view(&self) -> InterpModel {
        InterpModel { fibers: fmodels(self.fibers@), next: self.next }
    }
}

/// `provider_from` finds the first active installer.
proof fn lemma_provider_first(s: Seq<FiberModel>, k: Seq<char>, i: int)
    requires
        0 <= i < s.len(),
        installs(s[i], k),
        forall|j: int| 0 <= j < i ==> !installs(s[j], k),
    ensures
        provider_from(s, k) == Some(s[i].id),
    decreases i,
{
    if i > 0 {
        lemma_provider_first(s.drop_first(), k, i - 1);
    }
}

proof fn lemma_provider_none(s: Seq<FiberModel>, k: Seq<char>)
    requires
        forall|j: int| 0 <= j < s.len() ==> !installs(s[j], k),
    ensures
        provider_from(s, k) is None,
    decreases s.len(),
{
    if s.len() > 0 {
        lemma_provider_none(s.drop_first(), k);
    }
}

/// The provider, when present, is an active installer of the key.
pub proof fn lemma_provider_installs(s: Seq<FiberModel>, k: Seq<char>)
    ensures
        provider_from(s, k) is Some <==> exists|i: int| 0 <= i < s.len() && installs(s[i], k),
        provider_from(s, k) matches Some(n) ==> exists|i: int| 0 <= i < s.len() && installs(s[i], k) && s[i].id == n,
    decreases s.len(),
{
    if s.len() > 0 {
        lemma_provider_installs(s.drop_first(), k);
        if !installs(s[0], k) {
            assert forall|i: int| 0 <= i < s.len() - 1 implies #[trigger] s.drop_first()[i] == s[i + 1] by {}
            if exists|i: int| 0 <= i < s.len() && installs(s[i], k) {
                let i = choose|i: int| 0 <= i < s.len() && installs(s[i], k);
                assert(installs(s.drop_first()[i - 1], k));
            }
        }
    }
}

impl InterpState {
    /// Well-formedness of the state: that of its model.
    pub open spec fn wf(&self) -> bool {
        wf(self@)
    }

    /// The empty system state.
    pub fn new() -> (r: InterpState)
        ensures
            r.wf(),
            r@ == (InterpModel { fibers: Seq::empty(), next: 0 }),
    {
        let r = InterpState { fibers: Vec::new(), next: 0 };
        assert(r@.fibers =~= Seq::<FiberModel>::empty());
        r
    }

    /// Registry position of `n`.
    fn find(&self, n: FiberId) -> (r: Option<usize>)
        requires
            self.wf(),
        ensures
            r is Some <==> has_id(self@.fibers, n),
            r matches Some(i) ==> i == idx(self@.fibers, n) && i < self.fibers.len(),
    {
        let mut i: usize = 0;
        while i < self.fibers.len()
            invariant
                self.wf(),
                i <= self.fibers.len(),
                forall|j: int| 0 <= j < i ==> self@.fibers[j].id != n,
            decreases self.fibers.len() - i,
        {
            if self.fibers[i].id == n {
                proof {
                    assert(self@.fibers[i as int].id == n);
                    assert(has_id(self@.fibers, n));
                    let c = idx(self@.fibers, n);
                    assert(self@.fibers[c].id == n);
                    if c != i as int {
                        if c < i as int {
                            assert(self@.fibers[c].id.0 < self@.fibers[i as int].id.0);
                        } else {
                            assert(self@.fibers[i as int].id.0 < self@.fibers[c].id.0);
                        }
                    }
                }
                return Some(i);
            }
            i = i + 1;
        }
        None
    }

    /// A registered fiber (`None` when the name is unknown).
    pub fn fiber(&self, n: FiberId) -> (r: Option<&Fiber>)
        requires
            self.wf(),
        ensures
            r is Some <==> has_id(self@.fibers, n),
            r matches Some(f) ==> f@ == self@.fibers[idx(self@.fibers, n)],
    {
        match self.find(n) {
            Some(i) => Some(&self.fibers[i]),
            None => None,
        }
    }

    /// Number of registered fibers.
    pub fn len(&self) -> (r: usize)
        ensures
            r == self@.fibers.len(),
    {
        self.fibers.len()
    }

    /// `σγ`: the union of the active fibers' tables.
    pub fn provided(&self) -> (r: KeySet)
        ensures
            r@ == provided(self@),
    {
        let mut out = KeySet::new();
        let mut i: usize = 0;
        while i < self.fibers.len()
            invariant
                i <= self.fibers.len(),
                out@ == Set::new(|k: Seq<char>| exists|j: int| 0 <= j < i && installs(self@.fibers[j], k)),
            decreases self.fibers.len() - i,
        {
            let ghost before = out@;
            if let Lifecycle::Active { .. } = self.fibers[i].state {
                let ks = self.fibers[i].table.iter();
                out.extend(ks);
                proof {
                    self.fibers@[i as int].table.lemma_elems();
                    assert(out@ =~= Set::new(|k: Seq<char>| exists|j: int| 0 <= j < i + 1 && installs(self@.fibers[j], k))) by {
                        assert forall|k: Seq<char>| out@.contains(k) implies exists|j: int| 0 <= j < i + 1 && installs(self@.fibers[j], k) by {
                            if !before.contains(k) {
                                assert(installs(self@.fibers[i as int], k));
                            }
                        }
                    }
                }
            } else {
                proof {
                    assert(out@ =~= Set::new(|k: Seq<char>| exists|j: int| 0 <= j < i + 1 && installs(self@.fibers[j], k))) by {
                        assert forall|k: Seq<char>| (exists|j: int| 0 <= j < i + 1 && installs(self@.fibers[j], k)) implies out@.contains(k) by {
                            let j = choose|j: int| 0 <= j < i + 1 && installs(self@.fibers[j], k);
                            assert(j != i);
                        }
                    }
                }
            }
            i = i + 1;
        }
        assert(out@ =~= provided(self@));
        out
    }

    /// `provider_k(γ)`: the active fiber installing `key`.
    pub fn provider_of(&self, key: Symbol) -> (r: Option<FiberId>)
        ensures
            r == provider(self@, key@),
    {
        let mut i: usize = 0;
        while i < self.fibers.len()
            invariant
                i <= self.fibers.len(),
                forall|j: int| 0 <= j < i ==> !installs(self@.fibers[j], key@),
            decreases self.fibers.len() - i,
        {
            let active = match self.fibers[i].state {
                Lifecycle::Active { .. } => true,
                Lifecycle::Inactive => false,
            };
            if active && self.fibers[i].table.contains(key.clone()) {
                proof { lemma_provider_first(self@.fibers, key@, i as int); }
                return Some(self.fibers[i].id);
            }
            i = i + 1;
        }
        proof { lemma_provider_none(self@.fibers, key@); }
        None
    }

    /// `γ ⊧ d`.
    pub fn satisfied(&self, spec: &KeySet) -> (r: bool)
        ensures
            r == satisfied(self@, spec.elems()),
    {
        let keys = spec.iter();
        let mut i: usize = 0;
        while i < keys.len()
            invariant
                i <= keys.len(),
                names(keys@) == spec.elems(),
                forall|j: int| 0 <= j < i ==> provider(self@, spec.elems()[j]) is Some,
            decreases keys.len() - i,
        {
            if self.provider_of(keys[i].clone()).is_none() {
                assert(names(keys@)[i as int] == keys@[i as int]@);
                return false;
            }
            assert(names(keys@)[i as int] == keys@[i as int]@);
            i = i + 1;
        }
        true
    }

    /// The view of `d` under the current providers (requires `γ ⊧ d`).
    fn view_for(&self, spec: &KeySet) -> (r: TargetView)
        requires
            satisfied(self@, spec.elems()),
        ensures
            r@ == view_of(self@, spec.elems()),
    {
        let keys = spec.iter();
        let mut entries: Vec<(Symbol, FiberId)> = Vec::new();
        let mut i: usize = 0;
        while i < keys.len()
            invariant
                i <= keys.len(),
                names(keys@) == spec.elems(),
                satisfied(self@, spec.elems()),
                entries@.len() == i,
                forall|j: int| 0 <= j < i ==> pair_view(#[trigger] entries@[j]) == view_of(self@, spec.elems())[j],
            decreases keys.len() - i,
        {
            assert(names(keys@)[i as int] == keys@[i as int]@);
            let p = self.provider_of(keys[i].clone());
            let n = p.unwrap();
            entries.push((keys[i].clone(), n));
            i = i + 1;
        }
        let r = TargetView { entries };
        assert(r@ =~= view_of(self@, spec.elems()));
        r
    }

    /// `target_n(γ)` (`None` = ⊥).
    pub fn target(&self, n: FiberId) -> (r: Option<TargetView>)
        requires
            self.wf(),
        ensures
            match r {
                None => target(self@, n) is None,
                Some(v) => target(self@, n) == Some(v@),
            },
    {
        match self.find(n) {
            None => None,
            Some(i) => {
                let f = &self.fibers[i];
                if f.retired || !self.satisfied(&f.inject) {
                    None
                } else {
                    Some(self.view_for(&f.inject))
                }
            },
        }
    }

    /// Whether the lifecycle rule of the fiber at position `i` is enabled.
    fn enabled_at(&self, i: usize) -> (r: bool)
        requires
            self.wf(),
            i < self.fibers.len(),
        ensures
            r == enabled(self@, i as int),
    {
        let t = self.target(self.fibers[i].id);
        match (t, &self.fibers[i].state) {
            (None, Lifecycle::Inactive) => false,
            (Some(v), Lifecycle::Active { view }) => !v.same(view),
            _ => true,
        }
    }

    /// `quiet(γ)`: every fiber is at its target.
    pub fn is_quiet(&self) -> (r: bool)
        requires
            self.wf(),
        ensures
            r == is_quiet(self@),
    {
        let mut i: usize = 0;
        while i < self.fibers.len()
            invariant
                self.wf(),
                i <= self.fibers.len(),
                forall|j: int| 0 <= j < i ==> !enabled(self@, j),
            decreases self.fibers.len() - i,
        {
            if self.enabled_at(i) {
                return false;
            }
            i = i + 1;
        }
        true
    }

    /// Support set: names of non-retired fibers whose specification is
    /// satisfied, in name order.
    pub fn support_set(&self) -> (r: Vec<FiberId>)
        ensures
            r@.to_set() == support_set(self@),
    {
        let mut out: Vec<FiberId> = Vec::new();
        let mut i: usize = 0;
        while i < self.fibers.len()
            invariant
                i <= self.fibers.len(),
                forall|n: FiberId| out@.contains(n) <==> exists|j: int|
                    0 <= j < i && self@.fibers[j].id == n && !self@.fibers[j].retired
                        && satisfied(self@, self@.fibers[j].inject),
            decreases self.fibers.len() - i,
        {
            let ghost before = out@;
            let keep = !self.fibers[i].retired && self.satisfied(&self.fibers[i].inject);
            if keep {
                out.push(self.fibers[i].id);
            }
            proof {
                assert forall|n: FiberId| out@.contains(n) <==> exists|j: int|
                    0 <= j < i + 1 && self@.fibers[j].id == n && !self@.fibers[j].retired
                        && satisfied(self@, self@.fibers[j].inject) by {
                    if out@.contains(n) && !before.contains(n) {
                        assert(out@ == before.push(self.fibers@[i as int].id));
                        assert(self@.fibers[i as int].id == n);
                    }
                    if exists|j: int| 0 <= j < i + 1 && self@.fibers[j].id == n && !self@.fibers[j].retired
                        && satisfied(self@, self@.fibers[j].inject) {
                        let j = choose|j: int| 0 <= j < i + 1 && self@.fibers[j].id == n && !self@.fibers[j].retired
                            && satisfied(self@, self@.fibers[j].inject);
                        if j == i as int {
                            assert(out@.last() == n);
                        } else {
                            assert(before.contains(n));
                            let w = choose|w: int| 0 <= w < before.len() && before[w] == n;
                            assert(out@[w] == n);
                        }
                    }
                }
            }
            i = i + 1;
        }
        assert(out@.to_set() =~= support_set(self@));
        out
    }

    /// Names of active fibers, in name order.
    pub fn active_set(&self) -> (r: Vec<FiberId>)
        ensures
            r@.to_set() == active_set(self@),
    {
        let mut out: Vec<FiberId> = Vec::new();
        let mut i: usize = 0;
        while i < self.fibers.len()
            invariant
                i <= self.fibers.len(),
                forall|n: FiberId| out@.contains(n) <==> exists|j: int|
                    0 <= j < i && self@.fibers[j].id == n && is_active(self@.fibers[j]),
            decreases self.fibers.len() - i,
        {
            let ghost before = out@;
            let keep = match self.fibers[i].state {
                Lifecycle::Active { .. } => true,
                Lifecycle::Inactive => false,
            };
            if keep {
                out.push(self.fibers[i].id);
            }
            proof {
                assert forall|n: FiberId| out@.contains(n) <==> exists|j: int|
                    0 <= j < i + 1 && self@.fibers[j].id == n && is_active(self@.fibers[j]) by {
                    if out@.contains(n) && !before.contains(n) {
                        assert(out@ == before.push(self.fibers@[i as int].id));
                        assert(self@.fibers[i as int].id == n);
                    }
                    if exists|j: int| 0 <= j < i + 1 && self@.fibers[j].id == n && is_active(self@.fibers[j]) {
                        let j = choose|j: int| 0 <= j < i + 1 && self@.fibers[j].id == n && is_active(self@.fibers[j]);
                        if j == i as int {
                            assert(out@.last() == n);
                        } else {
                            assert(before.contains(n));
                            let w = choose|w: int| 0 <= w < before.len() && before[w] == n;
                            assert(out@[w] == n);
                        }
                    }
                }
            }
            i = i + 1;
        }
        assert(out@.to_set() =~= active_set(self@));
        out
    }
}


/// Whether `n` occurs in `v`.
fn contains_id(v: &Vec<FiberId>, n: FiberId) -> (r: bool)
    ensures
        r == v@.contains(n),
{
    let mut i: usize = 0;
    while i < v.len()
        invariant
            i <= v.len(),
            forall|j: int| 0 <= j < i ==> v@[j] != n,
        decreases v.len() - i,
    {
        if v[i] == n {
            return true;
        }
        i = i + 1;
    }
    false
}

impl InterpState {
    /// Replaces the fiber at position `i`.
    fn put(&mut self, i: usize, f: Fiber)
        requires
            i < old(self).fibers.len(),
        ensures
            final(self).fibers.len() == old(self).fibers.len(),
            final(self)@ == (InterpModel { fibers: old(self)@.fibers.update(i as int, f@), ..old(self)@ }),
    {
        let _old = self.fibers.remove(i);
        self.fibers.insert(i, f);
        assert(self@.fibers =~= old(self)@.fibers.update(i as int, f@));
    }

    /// Takes the fiber at position `i` out (to be put back with [`Self::put`]).
    fn take(&mut self, i: usize) -> (r: Fiber)
        requires
            i < old(self).fibers.len(),
        ensures
            r@ == old(self)@.fibers[i as int],
            final(self).fibers.len() == old(self).fibers.len() - 1,
            final(self)@ == (InterpModel { fibers: old(self)@.fibers.remove(i as int), ..old(self)@ }),
    {
        let f = self.fibers.remove(i);
        assert(self@.fibers =~= old(self)@.fibers.remove(i as int));
        f
    }

    /// Restores a fiber taken with [`Self::take`].
    fn restore(&mut self, i: usize, f: Fiber)
        requires
            i <= old(self).fibers.len(),
        ensures
            final(self).fibers.len() == old(self).fibers.len() + 1,
            final(self)@ == (InterpModel { fibers: old(self)@.fibers.insert(i as int, f@), ..old(self)@ }),
    {
        self.fibers.insert(i, f);
        assert(self@.fibers =~= old(self)@.fibers.insert(i as int, f@));
    }

    /// O-Insert: instantiates `component` under `parent` with a fresh name.
    pub fn insert(&mut self, parent: Option<FiberId>, component: &Component) -> (r: Result<FiberId, Violation>)
        requires
            old(self).wf(),
            old(self)@.next < u64::MAX,
        ensures
            final(self).wf(),
            (final(self)@, result_view(r)) == insert_rule(old(self)@, parent, component.inject.elems(), component.provide@),
    {
        proof { lemma_insert_wf(self@, parent, component.inject.elems(), component.provide@); }
        let mut parent_pos: Option<usize> = None;
        if let Some(p) = parent {
            match self.find(p) {
                None => return Err(Violation::UnknownParent),
                Some(pi) => { parent_pos = Some(pi); },
            }
        }
        let mut i: usize = 0;
        while i < self.fibers.len()
            invariant
                i <= self.fibers.len(),
                self@ == old(self)@,
                self.wf(),
                wf(insert_rule(old(self)@, parent, component.inject.elems(), component.provide@).0),
                parent is Some ==> has_id(self@.fibers, parent.unwrap()),
                parent_pos is Some ==> parent is Some && parent_pos.unwrap() == idx(self@.fibers, parent.unwrap())
                    && parent_pos.unwrap() < self.fibers.len(),
                parent is Some ==> parent_pos is Some,
                forall|j: int| 0 <= j < i ==> self@.fibers[j].provide.disjoint(component.provide@),
            decreases self.fibers.len() - i,
        {
            if self.fibers[i].provide.intersects(&component.provide) {
                assert(!self@.fibers[i as int].provide.disjoint(component.provide@));
                return Err(Violation::ProvisionClash);
            }
            i = i + 1;
        }
        let ghost m0 = self@;
        let id = FiberId::fresh(&mut self.next);
        if let Some(pi) = parent_pos {
            let mut f = self.take(pi);
            f.registered.push(id);
            self.restore(pi, f);
            proof {
                assert(self@.fibers =~= register_child(m0.fibers, parent, id));
            }
        } else {
            assert(self@.fibers =~= register_child(m0.fibers, parent, id));
        }
        let fresh = Fiber {
            id,
            parent,
            inject: component.inject.clone(),
            provide: component.provide.clone(),
            table: KeySet::new(),
            retired: false,
            state: Lifecycle::Inactive,
            registered: Vec::new(),
        };
        self.fibers.push(fresh);
        proof {
            assert(self@.fibers =~= register_child(m0.fibers, parent, id).push(fresh@));
        }
        Ok(id)
    }

    /// O-Retire: `τ_n := ⊤` (unconditional on the state).
    pub fn retire(&mut self, n: FiberId) -> (r: Result<(), Violation>)
        requires
            old(self).wf(),
        ensures
            final(self).wf(),
            (final(self)@, result_view(r)) == retire_rule(old(self)@, n),
    {
        proof { lemma_retire_wf(self@, n); }
        match self.find(n) {
            None => Err(Violation::UnknownFiber),
            Some(i) => {
                let mut f = self.take(i);
                f.retired = true;
                self.restore(i, f);
                proof {
                    assert(self@.fibers =~= retire_rule(old(self)@, n).0.fibers);
                }
                Ok(())
            },
        }
    }

    /// O-Remove: removes a retired, inactive fiber without children.
    pub fn remove(&mut self, n: FiberId) -> (r: Result<(), Violation>)
        requires
            old(self).wf(),
        ensures
            final(self).wf(),
            (final(self)@, result_view(r)) == remove_rule(old(self)@, n),
    {
        proof { lemma_remove_wf(self@, n); }
        let i = match self.find(n) {
            None => return Err(Violation::UnknownFiber),
            Some(i) => i,
        };
        if !self.fibers[i].retired {
            return Err(Violation::NotRetired);
        }
        if let Lifecycle::Active { .. } = self.fibers[i].state {
            return Err(Violation::StillActive);
        }
        let mut j: usize = 0;
        while j < self.fibers.len()
            invariant
                j <= self.fibers.len(),
                self@ == old(self)@,
                self.wf(),
                wf(remove_rule(old(self)@, n).0),
                i == idx(self@.fibers, n),
                i < self.fibers.len(),
                has_id(self@.fibers, n),
                self@.fibers[i as int].retired,
                !is_active(self@.fibers[i as int]),
                forall|k: int| 0 <= k < j ==> self@.fibers[k].parent != Some(n),
            decreases self.fibers.len() - j,
        {
            if self.fibers[j].parent == Some(n) {
                assert(self@.fibers[j as int].parent == Some(n));
                return Err(Violation::HasChildren);
            }
            j = j + 1;
        }
        let _gone = self.take(i);
        Ok(())
    }

    /// L-Reload: an inactive fiber with a target activates, installing its
    /// provision and committing the target view.
    pub fn reload(&mut self, n: FiberId) -> (r: Result<(), Violation>)
        requires
            old(self).wf(),
        ensures
            final(self).wf(),
            (final(self)@, result_view(r)) == reload_rule(old(self)@, n),
    {
        proof { lemma_reload_wf(self@, n); }
        let i = match self.find(n) {
            None => return Err(Violation::UnknownFiber),
            Some(i) => i,
        };
        let view = match self.target(n) {
            None => return Err(Violation::NoTarget),
            Some(v) => v,
        };
        if let Lifecycle::Active { .. } = self.fibers[i].state {
            return Err(Violation::NotInactive);
        }
        let ghost m0 = self@;
        let mut f = self.take(i);
        f.table = f.provide.clone();
        f.state = Lifecycle::Active { view };
        self.restore(i, f);
        proof {
            assert(self@.fibers =~= reload_rule(m0, n).0.fibers);
        }
        Ok(())
    }

    /// L-Unload: an active fiber whose target moved away from its committed
    /// view deactivates; its registered children are retired.
    pub fn unload(&mut self, n: FiberId) -> (r: Result<(), Violation>)
        requires
            old(self).wf(),
        ensures
            final(self).wf(),
            (final(self)@, result_view(r)) == unload_rule(old(self)@, n),
    {
        proof { lemma_unload_wf(self@, n); }
        let t = self.target(n);
        let i = match self.find(n) {
            None => return Err(Violation::UnknownFiber),
            Some(i) => i,
        };
        let unchanged = match (&t, &self.fibers[i].state) {
            (_, Lifecycle::Inactive) => return Err(Violation::NotActive),
            (Some(v), Lifecycle::Active { view }) => v.same(view),
            (None, Lifecycle::Active { .. }) => false,
        };
        if unchanged {
            return Err(Violation::ViewUnchanged);
        }
        let ghost m0 = self@;
        let mut f = self.take(i);
        let registered = f.registered.clone();
        assert(registered@ == m0.fibers[i as int].registered);
        f.table = KeySet::new();
        f.state = Lifecycle::Inactive;
        self.restore(i, f);
        let ghost s1 = self@.fibers;
        assert(s1 =~= m0.fibers.update(i as int, FiberModel { table: Set::empty(), view: None, ..m0.fibers[i as int] }));
        let mut j: usize = 0;
        while j < self.fibers.len()
            invariant
                j <= self.fibers.len(),
                self.fibers.len() == s1.len(),
                self@.next == m0.next,
                forall|k: int| 0 <= k < j ==> #[trigger] self@.fibers[k] == retire_all(s1, registered@)[k],
                forall|k: int| j <= k < self.fibers.len() ==> #[trigger] self@.fibers[k] == s1[k],
            decreases self.fibers.len() - j,
        {
            if contains_id(&registered, self.fibers[j].id) {
                let mut c = self.take(j);
                c.retired = true;
                self.restore(j, c);
            }
            j = j + 1;
        }
        proof {
            assert(self@.fibers =~= retire_all(s1, registered@));
        }
        Ok(())
    }
}


/// The rule an action requests.
pub open spec fn apply_rule(m: InterpModel, action: Action) -> (InterpModel, Result<(), ViolationModel>) {
    match action {
        Action::Insert { component, parent } => {
            let (m2, r) = insert_rule(m, parent, component.inject.elems(), component.provide@);
            (m2, match r {
                Ok(_) => Ok(()),
                Err(e) => Err(e),
            })
        },
        Action::Retire { fiber } => retire_rule(m, fiber),
        Action::Remove { fiber } => remove_rule(m, fiber),
    }
}

impl InterpState {
    /// Collects, in name order, the names of fibers whose rule of the given
    /// kind is enabled.
    fn enabled_of(&self, unloads: bool) -> (r: Vec<FiberId>)
        requires
            self.wf(),
        ensures
            lists_ascending(self@, r@, |i: int| if unloads { unload_enabled(self@, i) } else { reload_enabled(self@, i) }),
    {
        let ghost p = |i: int| if unloads { unload_enabled(self@, i) } else { reload_enabled(self@, i) };
        let mut out: Vec<FiberId> = Vec::new();
        let mut i: usize = 0;
        while i < self.fibers.len()
            invariant
                self.wf(),
                i <= self.fibers.len(),
                p == (|i: int| if unloads { unload_enabled(self@, i) } else { reload_enabled(self@, i) }),
                forall|a: int, b: int| 0 <= a < b < out@.len() ==> out@[a].0 < out@[b].0,
                forall|a: int| 0 <= a < out@.len() ==> exists|j: int| 0 <= j < i && self@.fibers[j].id == #[trigger] out@[a],
                forall|n: FiberId| out@.contains(n) <==> exists|j: int| 0 <= j < i && self@.fibers[j].id == n && p(j),
            decreases self.fibers.len() - i,
        {
            let ghost before = out@;
            let active = match self.fibers[i].state {
                Lifecycle::Active { .. } => true,
                Lifecycle::Inactive => false,
            };
            let keep = if unloads {
                active && self.enabled_at(i)
            } else {
                !active && self.target(self.fibers[i].id).is_some()
            };
            proof {
                if unloads && active {
                    assert(enabled(self@, i as int) == unload_enabled(self@, i as int));
                }
                assert(keep == p(i as int));
            }
            if keep {
                out.push(self.fibers[i].id);
                proof {
                    assert forall|a: int, b: int| 0 <= a < b < out@.len() implies out@[a].0 < out@[b].0 by {
                        if b == out@.len() - 1 {
                            let j = choose|j: int| 0 <= j < i && self@.fibers[j].id == #[trigger] before[a];
                            assert(self@.fibers[j].id.0 < self@.fibers[i as int].id.0);
                        }
                    }
                }
            }
            proof {
                assert forall|a: int| 0 <= a < out@.len() implies exists|j: int| 0 <= j < i + 1 && self@.fibers[j].id == #[trigger] out@[a] by {
                    if a < before.len() {
                        let j = choose|j: int| 0 <= j < i && self@.fibers[j].id == #[trigger] before[a];
                        assert(out@[a] == before[a]);
                    } else {
                        assert(self@.fibers[i as int].id == out@[a]);
                    }
                }
                assert forall|n: FiberId| out@.contains(n) <==> exists|j: int| 0 <= j < i + 1 && self@.fibers[j].id == n && p(j) by {
                    if out@.contains(n) && !before.contains(n) {
                        assert(out@ == before.push(self.fibers@[i as int].id));
                        assert(self@.fibers[i as int].id == n);
                    }
                    if exists|j: int| 0 <= j < i + 1 && self@.fibers[j].id == n && p(j) {
                        let j = choose|j: int| 0 <= j < i + 1 && self@.fibers[j].id == n && p(j);
                        if j == i as int {
                            assert(out@.last() == n);
                        } else {
                            assert(before.contains(n));
                            let w = choose|w: int| 0 <= w < before.len() && before[w] == n;
                            assert(out@[w] == n);
                        }
                    }
                }
            }
            i = i + 1;
        }
        out
    }

    /// Names of fibers for which L-Reload is enabled, in name order.
    pub fn enabled_reloads(&self) -> (r: Vec<FiberId>)
        requires
            self.wf(),
        ensures
            lists_ascending(self@, r@, |i: int| reload_enabled(self@, i)),
    {
        let r = self.enabled_of(false);
        assert(lists_ascending(self@, r@, |i: int| reload_enabled(self@, i))) by {
            assert(forall|i: int| (|i: int| if false { unload_enabled(self@, i) } else { reload_enabled(self@, i) })(i) == reload_enabled(self@, i));
        }
        r
    }

    /// Names of fibers for which L-Unload is enabled, in name order.
    pub fn enabled_unloads(&self) -> (r: Vec<FiberId>)
        requires
            self.wf(),
        ensures
            lists_ascending(self@, r@, |i: int| unload_enabled(self@, i)),
    {
        let r = self.enabled_of(true);
        assert(lists_ascending(self@, r@, |i: int| unload_enabled(self@, i))) by {
            assert(forall|i: int| (|i: int| if true { unload_enabled(self@, i) } else { reload_enabled(self@, i) })(i) == unload_enabled(self@, i));
        }
        r
    }

    /// Runs the first enabled lifecycle rule in name order; `None` when no
    /// rule is enabled (the state is quiet).
    pub fn step_lifecycle(&mut self) -> (r: Option<FiberId>)
        requires
            old(self).wf(),
        ensures
            final(self).wf(),
            (final(self)@, r) == step(old(self)@),
            r is None <==> is_quiet(old(self)@),
    {
        proof { lemma_step_none_iff_quiet(self@); }
        let mut i: usize = 0;
        while i < self.fibers.len()
            invariant
                self.wf(),
                self@ == old(self)@,
                i <= self.fibers.len(),
                forall|j: int| 0 <= j < i ==> !enabled(self@, j),
            decreases self.fibers.len() - i,
        {
            if self.enabled_at(i) {
                let n = self.fibers[i].id;
                proof {
                    lemma_first_enabled_skip(self@, i as int);
                    lemma_idx_unique(self@, i as int);
                }
                let active = match self.fibers[i].state {
                    Lifecycle::Active { .. } => true,
                    Lifecycle::Inactive => false,
                };
                if active {
                    let _ = self.unload(n);
                } else {
                    let _ = self.reload(n);
                }
                return Some(n);
            }
            i = i + 1;
        }
        proof { lemma_first_enabled_skip(self@, i as int); }
        None
    }

    /// Runs enabled lifecycle rules until the state is quiet.
    ///
    /// The step budget is `8·|Fγ| + 8`: the state must quiesce within it
    /// (a state that does not is outside this function's domain).
    pub fn drive_to_quiescence(&mut self)
        requires
            old(self).wf(),
            old(self)@.fibers.len() * 8 + 8 <= usize::MAX,
            quiesces_within(old(self)@, drive_budget(old(self)@)),
        ensures
            final(self).wf(),
            final(self)@ == run(old(self)@, drive_budget(old(self)@)),
            is_quiet(final(self)@),
    {
        let budget: usize = self.fibers.len() * 8 + 7;
        let mut fuel: usize = budget;
        loop
            invariant
                self.wf(),
                self.fibers.len() == old(self).fibers.len(),
                quiesces_within(self@, fuel as nat),
                run(old(self)@, drive_budget(old(self)@)) == run(self@, fuel as nat),
            ensures
                self.wf(),
                is_quiet(self@),
                run(old(self)@, drive_budget(old(self)@)) == self@,
            decreases fuel,
        {
            let ghost before = self@;
            let r = self.step_lifecycle();
            if r.is_none() {
                proof {
                    lemma_step_none_iff_quiet(before);
                }
                break;
            }
            proof {
                assert(fuel > 0);
            }
            fuel = fuel - 1;
        }
    }

    /// Applies an orchestration action (an O-rule).
    pub fn apply(&mut self, action: &Action) -> (r: Result<(), Violation>)
        requires
            old(self).wf(),
            old(self)@.next < u64::MAX,
        ensures
            final(self).wf(),
            (final(self)@, result_view(r)) == apply_rule(old(self)@, *action),
    {
        match action {
            Action::Insert { component, parent } => match self.insert(*parent, component) {
                Ok(_) => Ok(()),
                Err(e) => Err(e),
            },
            Action::Retire { fiber } => self.retire(*fiber),
            Action::Remove { fiber } => self.remove(*fiber),
        }
    }
}

} // verus!
