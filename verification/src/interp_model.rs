//! Mathematical model of the reference interpreter (the basic calculus):
//! the rules O-Insert / O-Retire / O-Remove and L-Reload / L-Unload as
//! functions on abstract states, and the derived quantities.

use vstd::prelude::*;

use crate::fiber::FiberId;

verus! {

/// A target view `ω`: each declared key, in declaration order, with its provider.
pub type ViewModel = Seq<(Seq<char>, FiberId)>;

/// Abstract fiber `⟨d, p, π, σ, τ, θ⟩` plus its registered children.
pub struct FiberModel {
    pub id: FiberId,
    pub parent: Option<FiberId>,
    /// `d`, in declaration order.
    pub inject: Seq<Seq<char>>,
    /// `p`.
    pub provide: Set<Seq<char>>,
    /// `σ`: installed keys.
    pub table: Set<Seq<char>>,
    /// `τ`.
    pub retired: bool,
    /// `θ`: `None` = Inactive, `Some(ω)` = Active(ω).
    pub view: Option<ViewModel>,
    /// Children registered by this fiber's effect (retired when it unloads).
    pub registered: Seq<FiberId>,
}

/// Abstract system state `γ`: the registry in ascending name order and the
/// name counter.
pub struct InterpModel {
    pub fibers: Seq<FiberModel>,
    pub next: u64,
}

/// Rule-premise violations (model side).
pub enum ViolationModel {
    NameExists,
    UnknownParent,
    ProvisionClash,
    UnknownFiber,
    NotRetired,
    StillActive,
    HasChildren,
    NotInactive,
    NoTarget,
    NotActive,
    ViewUnchanged,
}

pub open spec fn is_active(f: FiberModel) -> bool {
    f.view is Some
}

/// `n ∈ dom(Fγ)`.
pub open spec fn has_id(s: Seq<FiberModel>, n: FiberId) -> bool {
    exists|i: int| 0 <= i < s.len() && s[i].id == n
}

/// The registry position of `n` (meaningful when `has_id`).
pub open spec fn idx(s: Seq<FiberModel>, n: FiberId) -> int {
    choose|i: int| 0 <= i < s.len() && s[i].id == n
}

/// Well-formedness: names strictly ascending and below the counter, pairwise
/// disjoint provisions, installed table = provision exactly when active.
pub open spec fn wf(m: InterpModel) -> bool {
    &&& forall|i: int, j: int| 0 <= i < j < m.fibers.len() ==> m.fibers[i].id.0 < m.fibers[j].id.0
    &&& forall|i: int| 0 <= i < m.fibers.len() ==> m.fibers[i].id.0 < m.next
    &&& forall|i: int, j: int|
        0 <= i < m.fibers.len() && 0 <= j < m.fibers.len() && i != j
            ==> m.fibers[i].provide.disjoint(m.fibers[j].provide)
    &&& forall|i: int|
        0 <= i < m.fibers.len() ==> m.fibers[i].table == (if is_active(m.fibers[i]) {
            m.fibers[i].provide
        } else {
            Set::<Seq<char>>::empty()
        })
}

/// Whether fiber `f` is an active installer of `k`.
pub open spec fn installs(f: FiberModel, k: Seq<char>) -> bool {
    is_active(f) && f.table.contains(k)
}

/// `σγ`: union of the tables of active fibers.
pub open spec fn provided(m: InterpModel) -> Set<Seq<char>> {
    Set::new(|k: Seq<char>| exists|i: int| 0 <= i < m.fibers.len() && installs(m.fibers[i], k))
}

/// `provider_k(γ)`: the first (in name order) active fiber installing `k`.
pub open spec fn provider_from(s: Seq<FiberModel>, k: Seq<char>) -> Option<FiberId>
    decreases s.len(),
{
    if s.len() == 0 {
        None
    } else if installs(s[0], k) {
        Some(s[0].id)
    } else {
        provider_from(s.drop_first(), k)
    }
}

pub open spec fn provider(m: InterpModel, k: Seq<char>) -> Option<FiberId> {
    provider_from(m.fibers, k)
}

/// `γ ⊧ d`.
pub open spec fn satisfied(m: InterpModel, d: Seq<Seq<char>>) -> bool {
    forall|j: int| 0 <= j < d.len() ==> provider(m, d[j]) is Some
}

/// The view `d → provider` in declaration order.
pub open spec fn view_of(m: InterpModel, d: Seq<Seq<char>>) -> ViewModel {
    d.map_values(|k: Seq<char>| (k, provider(m, k).unwrap()))
}

/// `target_n(γ)`: `None` = ⊥ (unknown, retired or unsatisfied).
pub open spec fn target(m: InterpModel, n: FiberId) -> Option<ViewModel> {
    if !has_id(m.fibers, n) {
        None
    } else {
        let f = m.fibers[idx(m.fibers, n)];
        if f.retired || !satisfied(m, f.inject) {
            None
        } else {
            Some(view_of(m, f.inject))
        }
    }
}

/// A lifecycle rule is enabled for the fiber at position `i`.
pub open spec fn enabled(m: InterpModel, i: int) -> bool {
    target(m, m.fibers[i].id) != m.fibers[i].view
}

/// `quiet(γ)`: every fiber is at its target.
pub open spec fn is_quiet(m: InterpModel) -> bool {
    forall|i: int| 0 <= i < m.fibers.len() ==> !enabled(m, i)
}

/// Support set: names of non-retired fibers whose specification is satisfied.
pub open spec fn support_set(m: InterpModel) -> Set<FiberId> {
    Set::new(|n: FiberId| exists|i: int|
        0 <= i < m.fibers.len() && m.fibers[i].id == n && !m.fibers[i].retired
            && satisfied(m, m.fibers[i].inject))
}

/// Names of active fibers.
pub open spec fn active_set(m: InterpModel) -> Set<FiberId> {
    Set::new(|n: FiberId| exists|i: int| 0 <= i < m.fibers.len() && m.fibers[i].id == n && is_active(m.fibers[i]))
}

/// Names in registry order.
pub open spec fn ids(s: Seq<FiberModel>) -> Seq<FiberId> {
    s.map_values(|f: FiberModel| f.id)
}

// ── Orchestration rules ────────────────────────────────────────────────

/// Some registered fiber's provision meets `p`.
pub open spec fn clashes(m: InterpModel, p: Set<Seq<char>>) -> bool {
    exists|i: int| 0 <= i < m.fibers.len() && !m.fibers[i].provide.disjoint(p)
}

/// Adds `child` to the registered list of `parent` (if any).
pub open spec fn register_child(s: Seq<FiberModel>, parent: Option<FiberId>, child: FiberId) -> Seq<FiberModel> {
    match parent {
        None => s,
        Some(p) => s.update(idx(s, p), FiberModel {
            registered: s[idx(s, p)].registered.push(child),
            ..s[idx(s, p)]
        }),
    }
}

/// O-Insert.
pub open spec fn insert_rule(
    m: InterpModel,
    parent: Option<FiberId>,
    inject: Seq<Seq<char>>,
    provide: Set<Seq<char>>,
) -> (InterpModel, Result<FiberId, ViolationModel>) {
    if parent is Some && !has_id(m.fibers, parent.unwrap()) {
        (m, Err(ViolationModel::UnknownParent))
    } else if clashes(m, provide) {
        (m, Err(ViolationModel::ProvisionClash))
    } else {
        let id = FiberId(m.next);
        let f = FiberModel {
            id,
            parent,
            inject,
            provide,
            table: Set::empty(),
            retired: false,
            view: None,
            registered: Seq::empty(),
        };
        (InterpModel { fibers: register_child(m.fibers, parent, id).push(f), next: (m.next + 1) as u64 }, Ok(id))
    }
}

/// O-Retire.
pub open spec fn retire_rule(m: InterpModel, n: FiberId) -> (InterpModel, Result<(), ViolationModel>) {
    if !has_id(m.fibers, n) {
        (m, Err(ViolationModel::UnknownFiber))
    } else {
        let i = idx(m.fibers, n);
        (InterpModel { fibers: m.fibers.update(i, FiberModel { retired: true, ..m.fibers[i] }), ..m }, Ok(()))
    }
}

/// Some fiber has `n` as its parent.
pub open spec fn has_children(m: InterpModel, n: FiberId) -> bool {
    exists|i: int| 0 <= i < m.fibers.len() && m.fibers[i].parent == Some(n)
}

/// O-Remove.
pub open spec fn remove_rule(m: InterpModel, n: FiberId) -> (InterpModel, Result<(), ViolationModel>) {
    if !has_id(m.fibers, n) {
        (m, Err(ViolationModel::UnknownFiber))
    } else if !m.fibers[idx(m.fibers, n)].retired {
        (m, Err(ViolationModel::NotRetired))
    } else if is_active(m.fibers[idx(m.fibers, n)]) {
        (m, Err(ViolationModel::StillActive))
    } else if has_children(m, n) {
        (m, Err(ViolationModel::HasChildren))
    } else {
        (InterpModel { fibers: m.fibers.remove(idx(m.fibers, n)), ..m }, Ok(()))
    }
}

// ── Lifecycle rules ────────────────────────────────────────────────────

/// L-Reload.
pub open spec fn reload_rule(m: InterpModel, n: FiberId) -> (InterpModel, Result<(), ViolationModel>) {
    if !has_id(m.fibers, n) {
        (m, Err(ViolationModel::UnknownFiber))
    } else if target(m, n) is None {
        (m, Err(ViolationModel::NoTarget))
    } else if is_active(m.fibers[idx(m.fibers, n)]) {
        (m, Err(ViolationModel::NotInactive))
    } else {
        let i = idx(m.fibers, n);
        let f = m.fibers[i];
        (InterpModel {
            fibers: m.fibers.update(i, FiberModel { table: f.provide, view: target(m, n), ..f }),
            ..m
        }, Ok(()))
    }
}

/// Marks every fiber named in `children` retired.
pub open spec fn retire_all(s: Seq<FiberModel>, children: Seq<FiberId>) -> Seq<FiberModel> {
    s.map_values(|f: FiberModel| if children.contains(f.id) { FiberModel { retired: true, ..f } } else { f })
}

/// L-Unload: the fiber's installs are revoked and its registered children retired.
pub open spec fn unload_rule(m: InterpModel, n: FiberId) -> (InterpModel, Result<(), ViolationModel>) {
    if !has_id(m.fibers, n) {
        (m, Err(ViolationModel::UnknownFiber))
    } else if !is_active(m.fibers[idx(m.fibers, n)]) {
        (m, Err(ViolationModel::NotActive))
    } else if target(m, n) == m.fibers[idx(m.fibers, n)].view {
        (m, Err(ViolationModel::ViewUnchanged))
    } else {
        let i = idx(m.fibers, n);
        let f = m.fibers[i];
        let s1 = m.fibers.update(i, FiberModel { table: Set::empty(), view: None, ..f });
        (InterpModel { fibers: retire_all(s1, f.registered), ..m }, Ok(()))
    }
}

/// The first position at or after `from` whose lifecycle rule is enabled.
pub open spec fn first_enabled_from(m: InterpModel, from: int) -> Option<int>
    decreases m.fibers.len() - from,
{
    if from < 0 || from >= m.fibers.len() {
        None
    } else if enabled(m, from) {
        Some(from)
    } else {
        first_enabled_from(m, from + 1)
    }
}

/// One scheduler step: the first enabled fiber in name order takes its rule.
pub open spec fn step(m: InterpModel) -> (InterpModel, Option<FiberId>) {
    match first_enabled_from(m, 0) {
        None => (m, None),
        Some(i) => {
            let n = m.fibers[i].id;
            if is_active(m.fibers[i]) {
                (unload_rule(m, n).0, Some(n))
            } else {
                (reload_rule(m, n).0, Some(n))
            }
        },
    }
}

/// The state reached after at most `fuel` scheduler steps (stopping at quiescence).
pub open spec fn run(m: InterpModel, fuel: nat) -> InterpModel
    decreases fuel,
{
    if fuel == 0 || step(m).1 is None {
        m
    } else {
        run(step(m).0, (fuel - 1) as nat)
    }
}

/// The scheduler reaches quiescence within `fuel` steps.
pub open spec fn quiesces_within(m: InterpModel, fuel: nat) -> bool
    decreases fuel,
{
    if step(m).1 is None {
        true
    } else if fuel == 0 {
        false
    } else {
        quiesces_within(step(m).0, (fuel - 1) as nat)
    }
}

/// The step budget of `drive_to_quiescence`: `8·|Fγ| + 8`, less one.
pub open spec fn drive_budget(m: InterpModel) -> nat {
    (m.fibers.len() * 8 + 7) as nat
}

} // verus!

verus! {

/// Names are unique: the position of a registered name is the one holding it.
pub proof fn lemma_idx_unique(m: InterpModel, i: int)
    requires
        wf(m),
        0 <= i < m.fibers.len(),
    ensures
        has_id(m.fibers, m.fibers[i].id),
        idx(m.fibers, m.fibers[i].id) == i,
{
    let n = m.fibers[i].id;
    assert(has_id(m.fibers, n));
    let c = idx(m.fibers, n);
    if c < i {
        assert(m.fibers[c].id.0 < m.fibers[i].id.0);
    } else if c > i {
        assert(m.fibers[i].id.0 < m.fibers[c].id.0);
    }
}

/// Registering a child changes only the parent's registered list.
pub proof fn lemma_register_child(s: Seq<FiberModel>, parent: Option<FiberId>, child: FiberId)
    requires
        parent is Some ==> has_id(s, parent.unwrap()),
    ensures
        register_child(s, parent, child).len() == s.len(),
        forall|i: int| 0 <= i < s.len() ==> {
            let g = #[trigger] register_child(s, parent, child)[i];
            &&& g.id == s[i].id
            &&& g.parent == s[i].parent
            &&& g.inject == s[i].inject
            &&& g.provide == s[i].provide
            &&& g.table == s[i].table
            &&& g.retired == s[i].retired
            &&& g.view == s[i].view
        },
{
}

/// O-Insert keeps well-formedness.
pub proof fn lemma_insert_wf(m: InterpModel, parent: Option<FiberId>, inject: Seq<Seq<char>>, provide: Set<Seq<char>>)
    requires
        wf(m),
        m.next < u64::MAX,
    ensures
        wf(insert_rule(m, parent, inject, provide).0),
{
    if !(parent is Some && !has_id(m.fibers, parent.unwrap())) && !clashes(m, provide) {
        lemma_register_child(m.fibers, parent, FiberId(m.next));
        let m2 = insert_rule(m, parent, inject, provide).0;
        let r = register_child(m.fibers, parent, FiberId(m.next));
        assert(m2.fibers.len() == m.fibers.len() + 1);
        assert forall|i: int| 0 <= i < m.fibers.len() implies #[trigger] m2.fibers[i] == r[i] by {}
        assert forall|i: int, j: int|
            0 <= i < m2.fibers.len() && 0 <= j < m2.fibers.len() && i != j
                implies m2.fibers[i].provide.disjoint(m2.fibers[j].provide) by {
            if i == m.fibers.len() {
                assert(!clashes(m, provide));
                assert(m.fibers[j].provide.disjoint(provide));
            } else if j == m.fibers.len() {
                assert(m.fibers[i].provide.disjoint(provide));
            } else {
                assert(m.fibers[i].provide.disjoint(m.fibers[j].provide));
            }
        }
        assert forall|i: int| 0 <= i < m2.fibers.len() implies m2.fibers[i].table == (if is_active(m2.fibers[i]) {
            m2.fibers[i].provide
        } else {
            Set::<Seq<char>>::empty()
        }) by {
            if i < m.fibers.len() {
                assert(m.fibers[i].table == (if is_active(m.fibers[i]) { m.fibers[i].provide } else { Set::<Seq<char>>::empty() }));
            }
        }
        assert forall|i: int, j: int| 0 <= i < j < m2.fibers.len() implies m2.fibers[i].id.0 < m2.fibers[j].id.0 by {
            if j < m.fibers.len() {
                assert(m.fibers[i].id.0 < m.fibers[j].id.0);
            } else {
                assert(m.fibers[i].id.0 < m.next);
            }
        }
    }
}

/// O-Retire keeps well-formedness.
pub proof fn lemma_retire_wf(m: InterpModel, n: FiberId)
    requires
        wf(m),
    ensures
        wf(retire_rule(m, n).0),
{
    if has_id(m.fibers, n) {
        let i = idx(m.fibers, n);
        let m2 = retire_rule(m, n).0;
        assert forall|a: int| 0 <= a < m2.fibers.len() implies {
            &&& #[trigger] m2.fibers[a].id == m.fibers[a].id
            &&& m2.fibers[a].provide == m.fibers[a].provide
            &&& m2.fibers[a].table == m.fibers[a].table
            &&& m2.fibers[a].view == m.fibers[a].view
        } by {}
        assert(wf(m2));
    }
}

/// O-Remove keeps well-formedness.
pub proof fn lemma_remove_wf(m: InterpModel, n: FiberId)
    requires
        wf(m),
    ensures
        wf(remove_rule(m, n).0),
{
    let m2 = remove_rule(m, n).0;
    if remove_rule(m, n).1 is Ok {
        let i = idx(m.fibers, n);
        assert forall|a: int| 0 <= a < m2.fibers.len() implies #[trigger] m2.fibers[a] == m.fibers[if a < i { a } else { a + 1 }] by {}
        assert forall|a: int, b: int| 0 <= a < b < m2.fibers.len() implies m2.fibers[a].id.0 < m2.fibers[b].id.0 by {
            let a1 = if a < i { a } else { a + 1 };
            let b1 = if b < i { b } else { b + 1 };
            assert(m2.fibers[a] == m.fibers[a1]);
            assert(m2.fibers[b] == m.fibers[b1]);
        }
        assert forall|a: int, b: int| 0 <= a < m2.fibers.len() && 0 <= b < m2.fibers.len() && a != b
            implies m2.fibers[a].provide.disjoint(m2.fibers[b].provide) by {
            let a1 = if a < i { a } else { a + 1 };
            let b1 = if b < i { b } else { b + 1 };
            assert(m2.fibers[a] == m.fibers[a1]);
            assert(m2.fibers[b] == m.fibers[b1]);
        }
        assert forall|a: int| 0 <= a < m2.fibers.len() implies m2.fibers[a].table == (if is_active(m2.fibers[a]) {
            m2.fibers[a].provide
        } else {
            Set::<Seq<char>>::empty()
        }) by {
            let a1 = if a < i { a } else { a + 1 };
            assert(m2.fibers[a] == m.fibers[a1]);
        }
        assert forall|a: int| 0 <= a < m2.fibers.len() implies m2.fibers[a].id.0 < m2.next by {
            let a1 = if a < i { a } else { a + 1 };
            assert(m2.fibers[a] == m.fibers[a1]);
        }
    }
}

/// L-Reload keeps well-formedness.
pub proof fn lemma_reload_wf(m: InterpModel, n: FiberId)
    requires
        wf(m),
    ensures
        wf(reload_rule(m, n).0),
{
    let m2 = reload_rule(m, n).0;
    if reload_rule(m, n).1 is Ok {
        let i = idx(m.fibers, n);
        assert forall|a: int| 0 <= a < m2.fibers.len() implies {
            &&& #[trigger] m2.fibers[a].id == m.fibers[a].id
            &&& m2.fibers[a].provide == m.fibers[a].provide
            &&& (a != i ==> m2.fibers[a] == m.fibers[a])
        } by {}
        assert(is_active(m2.fibers[i]));
        assert(wf(m2));
    }
}

/// L-Unload keeps well-formedness.
pub proof fn lemma_unload_wf(m: InterpModel, n: FiberId)
    requires
        wf(m),
    ensures
        wf(unload_rule(m, n).0),
{
    let m2 = unload_rule(m, n).0;
    if unload_rule(m, n).1 is Ok {
        let i = idx(m.fibers, n);
        let f = m.fibers[i];
        let s1 = m.fibers.update(i, FiberModel { table: Set::empty(), view: None, ..f });
        assert forall|a: int| 0 <= a < m2.fibers.len() implies {
            &&& #[trigger] m2.fibers[a].id == m.fibers[a].id
            &&& m2.fibers[a].provide == m.fibers[a].provide
            &&& m2.fibers[a].table == s1[a].table
            &&& m2.fibers[a].view == s1[a].view
        } by {}
        assert(wf(m2));
    }
}

/// The scheduler's first enabled position, once the prefix is known disabled.
pub proof fn lemma_first_enabled_skip(m: InterpModel, i: int)
    requires
        0 <= i <= m.fibers.len(),
        forall|j: int| 0 <= j < i ==> !enabled(m, j),
    ensures
        first_enabled_from(m, 0) == first_enabled_from(m, i),
    decreases i,
{
    if i > 0 {
        lemma_first_enabled_skip_from(m, 0, i);
    }
}

proof fn lemma_first_enabled_skip_from(m: InterpModel, from: int, i: int)
    requires
        0 <= from <= i <= m.fibers.len(),
        forall|j: int| from <= j < i ==> !enabled(m, j),
    ensures
        first_enabled_from(m, from) == first_enabled_from(m, i),
    decreases i - from,
{
    if from < i {
        lemma_first_enabled_skip_from(m, from + 1, i);
    }
}

/// The first enabled position is enabled and every earlier one is not.
pub proof fn lemma_first_enabled(m: InterpModel, from: int)
    requires
        0 <= from,
    ensures
        first_enabled_from(m, from) matches Some(i) ==> from <= i < m.fibers.len() && enabled(m, i)
            && forall|j: int| from <= j < i ==> !enabled(m, j),
        first_enabled_from(m, from) is None ==> forall|j: int| from <= j < m.fibers.len() ==> !enabled(m, j),
    decreases m.fibers.len() - from,
{
    if from < m.fibers.len() && !enabled(m, from) {
        lemma_first_enabled(m, from + 1);
    }
}

/// No rule is enabled exactly when the state is quiet.
pub proof fn lemma_step_none_iff_quiet(m: InterpModel)
    ensures
        (step(m).1 is None) <==> is_quiet(m),
{
    lemma_first_enabled(m, 0);
}

} // verus!

verus! {

/// L-Reload is enabled at position `i`.
pub open spec fn reload_enabled(m: InterpModel, i: int) -> bool {
    !is_active(m.fibers[i]) && target(m, m.fibers[i].id) is Some
}

/// L-Unload is enabled at position `i`.
pub open spec fn unload_enabled(m: InterpModel, i: int) -> bool {
    is_active(m.fibers[i]) && target(m, m.fibers[i].id) != m.fibers[i].view
}

/// `r` lists, in ascending name order, exactly the names of the fibers at
/// positions satisfying `p`.
pub open spec fn lists_ascending(m: InterpModel, r: Seq<FiberId>, p: spec_fn(int) -> bool) -> bool {
    &&& forall|a: int, b: int| 0 <= a < b < r.len() ==> r[a].0 < r[b].0
    &&& forall|n: FiberId| r.contains(n) <==> exists|i: int| 0 <= i < m.fibers.len() && m.fibers[i].id == n && p(i)
}

} // verus!

verus! {

/// In a quiet well-formed state the active fibers are exactly the
/// supported ones (the non-retired fibers whose specification is
/// satisfied).
pub proof fn law_quiet_active_is_supported(m: InterpModel)
    requires
        wf(m),
        is_quiet(m),
    ensures
        active_set(m) == support_set(m),
{
    assert forall|n: FiberId| active_set(m).contains(n) <==> support_set(m).contains(n) by {
        if active_set(m).contains(n) {
            let i = choose|i: int| 0 <= i < m.fibers.len() && m.fibers[i].id == n && is_active(m.fibers[i]);
            lemma_idx_unique(m, i);
            assert(!enabled(m, i));
        }
        if support_set(m).contains(n) {
            let i = choose|i: int| 0 <= i < m.fibers.len() && m.fibers[i].id == n && !m.fibers[i].retired
                && satisfied(m, m.fibers[i].inject);
            lemma_idx_unique(m, i);
            assert(!enabled(m, i));
        }
    }
    assert(active_set(m) =~= support_set(m));
}

} // verus!
