//! Hot module replacement: the reversible-effect pattern applied at
//! module level. A changed module is replaced in place through fiber
//! operations — retiring the old fiber recovers all its installations, the
//! new fiber installs again from the reloaded module.
//!
//! Three phases:
//!
//! 1. module classification ([`classify`]): with the changed
//!    modules (`stashed`) accepted and the modules that cannot be hot
//!    replaced (`externals`) declined, a fixpoint over the import graph: a
//!    module with an accepted import is accepted, one whose imports are all
//!    declined is declined, what stays undecided (cycles) is declined;
//! 2. stale entry detection ([`detect`]): an entry whose
//!    dependency tree ([`get_dependencies`], bounded by the declined
//!    modules) meets the accepted modules is stale;
//! 3. transactional reload ([`Hmr::reload`]): the stale
//!    entries are rebuilt from the reloaded modules; on any failure the
//!    previous modules are restored and the entries rebuilt from them —
//!    never a half-reloaded state.

use vstd::prelude::*;
use vstd::string::*;

use crate::component::Component;
use crate::fiber::FiberState;
use crate::loader::report::EntryOutcome;
use crate::loader::{iso_pairs, no_failure, Entry, Loader};
use crate::loader::report::ApplyReport;
use crate::loader::config::chars_of;

verus! {

pub open spec fn strings(v: Seq<String>) -> Seq<Seq<char>> {
    v.map_values(|s: String| s@)
}

/// A module import graph (`get_imports(url)`).
pub trait ModuleGraph {
    /// The modules `url` imports directly.
    spec fn imports(&self, url: Seq<char>) -> Seq<Seq<char>>;

    /// Every module that some module imports.
    spec fn modules(&self) -> Set<Seq<char>>;

    /// The graph is finite: finitely many modules are ever imported.
    proof fn lemma_modules(&self)
        ensures
            self.modules().finite(),
            forall|u: Seq<char>, m: Seq<char>| #[trigger] self.imports(u).contains(m) ==> self.modules().contains(m);

    /// The modules `url` imports directly.
    fn get_imports(&self, url: &str) -> (r: Vec<String>)
        ensures
            strings(r@) == self.imports(url@);
}

/// A data-driven graph: an explicit list of `(module, imports)`; a module
/// not listed imports nothing (the first listing of a module counts).
pub struct HashMapGraph(pub Vec<(String, Vec<String>)>);

pub open spec fn listed_imports(s: Seq<(String, Vec<String>)>, url: Seq<char>) -> Seq<Seq<char>>
    decreases s.len(),
{
    if s.len() == 0 {
        Seq::empty()
    } else if s[0].0@ == url {
        strings(s[0].1@)
    } else {
        listed_imports(s.drop_first(), url)
    }
}

/// Every module imported in a listing.
pub open spec fn listed_modules(s: Seq<(String, Vec<String>)>) -> Set<Seq<char>>
    decreases s.len(),
{
    if s.len() == 0 {
        Set::empty()
    } else {
        strings(s[0].1@).to_set().union(listed_modules(s.drop_first()))
    }
}

proof fn lemma_listed_modules(s: Seq<(String, Vec<String>)>)
    ensures
        listed_modules(s).finite(),
        forall|u: Seq<char>, m: Seq<char>| #[trigger] listed_imports(s, u).contains(m) ==> listed_modules(s).contains(m),
    decreases s.len(),
{
    if s.len() > 0 {
        lemma_listed_modules(s.drop_first());
        assert(strings(s[0].1@).to_set().finite()) by {
            vstd::seq_lib::seq_to_set_is_finite(strings(s[0].1@));
        }
        assert forall|u: Seq<char>, m: Seq<char>| #[trigger] listed_imports(s, u).contains(m)
            implies listed_modules(s).contains(m) by {
            if s[0].0@ == u {
                assert(strings(s[0].1@).to_set().contains(m));
            } else {
                assert(listed_imports(s.drop_first(), u).contains(m));
            }
        }
    }
}

fn clone_strings(v: &Vec<String>) -> (r: Vec<String>)
    ensures
        strings(r@) == strings(v@),
{
    let mut out: Vec<String> = Vec::new();
    let mut i: usize = 0;
    while i < v.len()
        invariant
            i <= v.len(),
            out@.len() == i,
            forall|j: int| 0 <= j < i ==> (#[trigger] out@[j])@ == v@[j]@,
        decreases v.len() - i,
    {
        out.push(v[i].clone());
        i = i + 1;
    }
    assert(strings(out@) =~= strings(v@));
    out
}

impl ModuleGraph for HashMapGraph {
    open spec fn imports(&self, url: Seq<char>) -> Seq<Seq<char>> {
        listed_imports(self.0@, url)
    }

    open spec fn modules(&self) -> Set<Seq<char>> {
        listed_modules(self.0@)
    }

    proof fn lemma_modules(&self) {
        lemma_listed_modules(self.0@);
    }

    fn get_imports(&self, url: &str) -> (r: Vec<String>) {
        let mut i: usize = 0;
        assert(self.0@.skip(0) =~= self.0@);
        while i < self.0.len()
            invariant
                i <= self.0.len(),
                listed_imports(self.0@, url@) == listed_imports(self.0@.skip(i as int), url@),
            decreases self.0.len() - i,
        {
            proof {
                let s = self.0@.skip(i as int);
                assert(s.drop_first() =~= self.0@.skip(i as int + 1));
                assert(s[0] == self.0@[i as int]);
            }
            if self.0[i].0 == String::from_str(url) {
                return clone_strings(&self.0[i].1);
            }
            i = i + 1;
        }
        proof {
            assert(self.0@.skip(i as int).len() == 0);
        }
        let r: Vec<String> = Vec::new();
        assert(strings(r@) =~= Seq::<Seq<char>>::empty());
        r
    }
}

/// The graph of wasm plugins: they import only the host interface, never
/// another plugin — every module is a leaf.
pub struct WasmLeafGraph;

impl ModuleGraph for WasmLeafGraph {
    open spec fn imports(&self, url: Seq<char>) -> Seq<Seq<char>> {
        Seq::empty()
    }

    open spec fn modules(&self) -> Set<Seq<char>> {
        Set::empty()
    }

    proof fn lemma_modules(&self) {
    }

    fn get_imports(&self, url: &str) -> (r: Vec<String>) {
        let r: Vec<String> = Vec::new();
        assert(strings(r@) =~= Seq::<Seq<char>>::empty());
        r
    }
}

/// The classification: the modules that can be hot replaced
/// and the declined ones (a full restart), each without repetition.
#[derive(Debug, PartialEq, Eq)]
pub struct Classification {
    /// Hot-replaceable modules.
    pub accepted: Vec<String>,
    /// Declined modules.
    pub declined: Vec<String>,
}

/// Membership of a name in a list.
pub fn contains_name(v: &Vec<String>, s: &str) -> (r: bool)
    ensures
        r == strings(v@).contains(s@),
{
    let mut i: usize = 0;
    while i < v.len()
        invariant
            i <= v.len(),
            forall|j: int| 0 <= j < i ==> v@[j]@ != s@,
        decreases v.len() - i,
    {
        if v[i] == String::from_str(s) {
            assert(strings(v@)[i as int] == s@);
            return true;
        }
        i = i + 1;
    }
    proof {
        if strings(v@).contains(s@) {
            let j = choose|j: int| 0 <= j < strings(v@).len() && strings(v@)[j] == s@;
            assert(v@[j]@ == s@);
        }
    }
    false
}

/// Appends `s` unless it is already there.
fn add_name(v: &mut Vec<String>, s: &str)
    ensures
        strings(final(v)@).to_set() == strings(old(v)@).to_set().insert(s@),
        strings(old(v)@).no_duplicates() ==> strings(final(v)@).no_duplicates(),
        strings(old(v)@).is_prefix_of(strings(final(v)@)),
{
    if contains_name(v, s) {
        assert(strings(v@).to_set() =~= strings(v@).to_set().insert(s@));
        assert(strings(v@).subrange(0, strings(v@).len() as int) =~= strings(v@));
        return;
    }
    let ghost before = strings(v@);
    v.push(String::from_str(s));
    proof {
        assert(strings(v@) =~= before.push(s@));
        before.lemma_push_to_set_commute(s@);
        assert(strings(v@).subrange(0, before.len() as int) =~= before);
    }
}

/// Membership after `add_name`.
proof fn lemma_added(before: Seq<Seq<char>>, after: Seq<Seq<char>>, x: Seq<char>)
    requires
        after.to_set() == before.to_set().insert(x),
    ensures
        forall|m: Seq<char>| #[trigger] after.contains(m) <==> (before.contains(m) || m == x),
{
    assert forall|m: Seq<char>| #[trigger] after.contains(m) <==> (before.contains(m) || m == x) by {
        assert(after.to_set().contains(m) == before.to_set().insert(x).contains(m));
    }
}

/// A path of imports from `a` to `b`.
pub open spec fn import_path<G: ModuleGraph>(g: &G, p: Seq<Seq<char>>, a: Seq<char>, b: Seq<char>) -> bool {
    &&& p.len() >= 1
    &&& p[0] == a
    &&& p.last() == b
    &&& forall|i: int| 0 <= i < p.len() - 1 ==> g.imports(p[i]).contains(#[trigger] p[i + 1])
}

/// A path of imports from a stashed module whose every module after the
/// first is neither stashed nor external.
pub open spec fn explore_path<G: ModuleGraph>(g: &G, st: Seq<Seq<char>>, ex: Seq<Seq<char>>, p: Seq<Seq<char>>) -> bool {
    &&& p.len() >= 2
    &&& st.contains(p[0])
    &&& forall|i: int| 0 <= i < p.len() - 1 ==> g.imports(p[i]).contains(#[trigger] p[i + 1])
    &&& forall|i: int| 1 <= i < p.len() ==> !st.contains(#[trigger] p[i]) && !ex.contains(p[i])
}

/// `m` is explored by the classification: neither stashed nor external,
/// and reached from a stashed module through such modules only.
pub open spec fn explored<G: ModuleGraph>(g: &G, st: Seq<Seq<char>>, ex: Seq<Seq<char>>, m: Seq<char>) -> bool {
    exists|p: Seq<Seq<char>>| #[trigger] explore_path(g, st, ex, p) && p.last() == m
}

/// A path of imports back to a stashed module through explored modules.
pub open spec fn back_path<G: ModuleGraph>(g: &G, st: Seq<Seq<char>>, ex: Seq<Seq<char>>, p: Seq<Seq<char>>) -> bool {
    &&& p.len() >= 2
    &&& st.contains(p.last())
    &&& forall|i: int| 0 <= i < p.len() - 1 ==> g.imports(p[i]).contains(#[trigger] p[i + 1])
    &&& forall|i: int| 0 <= i < p.len() - 1 ==> explored(g, st, ex, #[trigger] p[i])
}

/// `m` leads back, by imports through explored modules, to a stashed one.
pub open spec fn leads_back<G: ModuleGraph>(g: &G, st: Seq<Seq<char>>, ex: Seq<Seq<char>>, m: Seq<char>) -> bool {
    exists|p: Seq<Seq<char>>| #[trigger] back_path(g, st, ex, p) && p[0] == m
}

/// The accepted modules: the stashed ones, and the explored modules with
/// an accepted import (the least fixpoint: those that lead back to a
/// stashed module).
pub open spec fn accepted_by<G: ModuleGraph>(g: &G, st: Seq<Seq<char>>, ex: Seq<Seq<char>>, m: Seq<char>) -> bool {
    st.contains(m) || (explored(g, st, ex, m) && leads_back(g, st, ex, m))
}

/// The declined modules: the externals, and every explored module that is
/// not accepted (whose imports are all declined, or that stays undecided
/// in an import cycle).
pub open spec fn declined_by<G: ModuleGraph>(g: &G, st: Seq<Seq<char>>, ex: Seq<Seq<char>>, m: Seq<char>) -> bool {
    ex.contains(m) || (explored(g, st, ex, m) && !leads_back(g, st, ex, m))
}

/// `accepted` and `declined` are exactly the classification of the graph
/// seeded by `stashed` and `externals`.
pub open spec fn classified<G: ModuleGraph>(
    graph: &G,
    stashed: Seq<Seq<char>>,
    externals: Seq<Seq<char>>,
    accepted: Seq<Seq<char>>,
    declined: Seq<Seq<char>>,
) -> bool {
    &&& forall|m: Seq<char>| #[trigger] accepted.contains(m) <==> accepted_by(graph, stashed, externals, m)
    &&& forall|m: Seq<char>| #[trigger] declined.contains(m) <==> declined_by(graph, stashed, externals, m)
}

/// The accepted modules, as a set.
pub open spec fn accepted_set<G: ModuleGraph>(g: &G, st: Seq<Seq<char>>, ex: Seq<Seq<char>>) -> Set<Seq<char>> {
    Set::new(|m: Seq<char>| accepted_by(g, st, ex, m))
}

/// The declined modules, as a set.
pub open spec fn declined_set<G: ModuleGraph>(g: &G, st: Seq<Seq<char>>, ex: Seq<Seq<char>>) -> Set<Seq<char>> {
    Set::new(|m: Seq<char>| declined_by(g, st, ex, m))
}

/// An import of a stashed module that is no seed is explored.
proof fn lemma_explored_seed<G: ModuleGraph>(g: &G, st: Seq<Seq<char>>, ex: Seq<Seq<char>>, s: Seq<char>, x: Seq<char>)
    requires
        st.contains(s),
        g.imports(s).contains(x),
        !st.contains(x),
        !ex.contains(x),
    ensures
        explored(g, st, ex, x),
{
    let p = seq![s, x];
    assert(explore_path(g, st, ex, p));
}

/// An import of an explored module that is no seed is explored.
proof fn lemma_explored_step<G: ModuleGraph>(g: &G, st: Seq<Seq<char>>, ex: Seq<Seq<char>>, m: Seq<char>, x: Seq<char>)
    requires
        explored(g, st, ex, m),
        g.imports(m).contains(x),
        !st.contains(x),
        !ex.contains(x),
    ensures
        explored(g, st, ex, x),
{
    let p = choose|p: Seq<Seq<char>>| #[trigger] explore_path(g, st, ex, p) && p.last() == m;
    let q = p.push(x);
    assert forall|i: int| 0 <= i < q.len() - 1 implies g.imports(q[i]).contains(#[trigger] q[i + 1]) by {
        if i < p.len() - 1 {
            assert(q[i] == p[i] && q[i + 1] == p[i + 1]);
        } else {
            assert(q[i] == m);
        }
    }
    assert forall|i: int| 1 <= i < q.len() implies !st.contains(#[trigger] q[i]) && !ex.contains(q[i]) by {
        if i < p.len() {
            assert(q[i] == p[i]);
        }
    }
    assert(explore_path(g, st, ex, q));
}

/// An explored module with a stashed import leads back.
proof fn lemma_back_seed<G: ModuleGraph>(g: &G, st: Seq<Seq<char>>, ex: Seq<Seq<char>>, m: Seq<char>, x: Seq<char>)
    requires
        explored(g, st, ex, m),
        g.imports(m).contains(x),
        st.contains(x),
    ensures
        leads_back(g, st, ex, m),
{
    let p = seq![m, x];
    assert(back_path(g, st, ex, p));
}

/// An explored module with an import that leads back leads back.
proof fn lemma_back_step<G: ModuleGraph>(g: &G, st: Seq<Seq<char>>, ex: Seq<Seq<char>>, m: Seq<char>, x: Seq<char>)
    requires
        explored(g, st, ex, m),
        g.imports(m).contains(x),
        leads_back(g, st, ex, x),
    ensures
        leads_back(g, st, ex, m),
{
    let p = choose|p: Seq<Seq<char>>| #[trigger] back_path(g, st, ex, p) && p[0] == x;
    let q = seq![m] + p;
    assert forall|i: int| 0 <= i < q.len() - 1 implies g.imports(q[i]).contains(#[trigger] q[i + 1]) by {
        if i == 0 {
            assert(q[1] == x);
        } else {
            let k = i - 1;
            assert(g.imports(p[k]).contains(p[k + 1]));
            assert(q[i] == p[k] && q[i + 1] == p[k + 1]);
        }
    }
    assert forall|i: int| 0 <= i < q.len() - 1 implies explored(g, st, ex, #[trigger] q[i]) by {
        if i > 0 {
            assert(q[i] == p[i - 1]);
        }
    }
    assert(q.last() == p.last());
    assert(back_path(g, st, ex, q));
}

/// Every module of an exploring path after the first is found, when the
/// found modules are closed under non-seed imports (from the stashed
/// modules and from the found ones).
proof fn lemma_path_found<G: ModuleGraph>(g: &G, st: Seq<Seq<char>>, ex: Seq<Seq<char>>, found: Seq<Seq<char>>, p: Seq<Seq<char>>, i: int)
    requires
        explore_path(g, st, ex, p),
        1 <= i < p.len(),
        forall|s: Seq<char>, x: Seq<char>| st.contains(s) && #[trigger] g.imports(s).contains(x) && !st.contains(x)
            && !ex.contains(x) ==> found.contains(x),
        forall|m: Seq<char>, x: Seq<char>| found.contains(m) && #[trigger] g.imports(m).contains(x) && !st.contains(x)
            && !ex.contains(x) ==> found.contains(x),
    ensures
        found.contains(p[i]),
    decreases i,
{
    let k = i - 1;
    assert(g.imports(p[k]).contains(p[k + 1]));
    assert(!st.contains(p[i]) && !ex.contains(p[i]));
    if i > 1 {
        lemma_path_found(g, st, ex, found, p, i - 1);
    }
}

/// The number of unset flags.
spec fn unset(s: Seq<bool>) -> nat
    decreases s.len(),
{
    if s.len() == 0 {
        0
    } else {
        unset(s.drop_last()) + (if s.last() { 0nat } else { 1nat })
    }
}

/// Setting an unset flag lowers the count by one.
proof fn lemma_unset_update(s: Seq<bool>, k: int)
    requires
        0 <= k < s.len(),
        !s[k],
    ensures
        unset(s.update(k, true)) + 1 == unset(s),
    decreases s.len(),
{
    let t = s.update(k, true);
    if k == s.len() - 1 {
        assert(t.drop_last() =~= s.drop_last());
    } else {
        assert(t.drop_last() =~= s.drop_last().update(k, true));
        lemma_unset_update(s.drop_last(), k);
    }
}

/// The position of `x` in `v` (first occurrence).
fn position_of(v: &Vec<String>, x: &str) -> (r: Option<usize>)
    ensures
        r matches Some(p) ==> p < v@.len() && v@[p as int]@ == x@,
        r is None ==> !strings(v@).contains(x@),
{
    let mut i: usize = 0;
    while i < v.len()
        invariant
            i <= v.len(),
            forall|j: int| 0 <= j < i ==> v@[j]@ != x@,
        decreases v.len() - i,
    {
        if v[i] == String::from_str(x) {
            return Some(i);
        }
        i = i + 1;
    }
    proof {
        if strings(v@).contains(x@) {
            let j = choose|j: int| 0 <= j < strings(v@).len() && strings(v@)[j] == x@;
            assert(v@[j]@ == x@);
        }
    }
    None
}

/// Membership after a push.
proof fn lemma_push_names(before: Seq<Seq<char>>, x: Seq<char>)
    ensures
        forall|m: Seq<char>| #[trigger] before.push(x).contains(m) <==> (before.contains(m) || m == x),
        before.no_duplicates() && !before.contains(x) ==> before.push(x).no_duplicates(),
{
    let after = before.push(x);
    assert forall|m: Seq<char>| #[trigger] after.contains(m) <==> (before.contains(m) || m == x) by {
        if after.contains(m) {
            let j = choose|j: int| 0 <= j < after.len() && after[j] == m;
            if j < before.len() {
                assert(before[j] == m);
            }
        }
        if before.contains(m) {
            let j = choose|j: int| 0 <= j < before.len() && before[j] == m;
            assert(after[j] == m);
        }
        if m == x {
            assert(after[before.len() as int] == x);
        }
    }
    if before.no_duplicates() && !before.contains(x) {
        assert forall|i: int, j: int| 0 <= i < after.len() && 0 <= j < after.len() && i != j implies after[i] != after[j] by {
            if i < before.len() && j < before.len() {
                assert(after[i] == before[i] && after[j] == before[j]);
            } else if i < before.len() {
                assert(after[i] == before[i]);
                assert(before.contains(before[i]));
            } else if j < before.len() {
                assert(after[j] == before[j]);
                assert(before.contains(before[j]));
            }
        }
    }
}

/// Whether `x` is accepted under the flags: stashed, or a flagged found
/// module.
spec fn acc_now(st: Seq<Seq<char>>, found: Seq<Seq<char>>, flags: Seq<bool>, x: Seq<char>) -> bool {
    st.contains(x) || exists|j: int| 0 <= j < found.len() && found[j] == x && flags[j]
}

/// At the fixpoint of the flags, every module of a path back to a stashed
/// module is accepted.
proof fn lemma_back_accepted<G: ModuleGraph>(
    g: &G,
    st: Seq<Seq<char>>,
    ex: Seq<Seq<char>>,
    found: Seq<Seq<char>>,
    flags: Seq<bool>,
    p: Seq<Seq<char>>,
    i: int,
)
    requires
        back_path(g, st, ex, p),
        0 <= i < p.len(),
        flags.len() == found.len(),
        forall|m: Seq<char>| explored(g, st, ex, m) ==> found.contains(m),
        forall|j: int, x: Seq<char>| 0 <= j < found.len() && !flags[j] && #[trigger] g.imports(found[j]).contains(x)
            ==> !acc_now(st, found, flags, x),
    ensures
        acc_now(st, found, flags, p[i]),
    decreases p.len() - i,
{
    if i < p.len() - 1 {
        lemma_back_accepted(g, st, ex, found, flags, p, i + 1);
        assert(g.imports(p[i]).contains(p[i + 1]));
        assert(explored(g, st, ex, p[i]));
        assert(found.contains(p[i]));
        let j = choose|j: int| 0 <= j < found.len() && found[j] == p[i];
        if !flags[j] {
            assert(g.imports(found[j]).contains(p[i + 1]));
        }
    }
}

/// Module classification: `stashed` seeds the accepted
/// modules, `externals` the declined ones; the modules reached from the
/// stashed ones through neither stashed nor external modules are explored.
/// To the fixpoint, an explored module with an accepted import is
/// accepted; every other explored module (its imports all declined, or
/// undecided in an import cycle) is declined.
pub fn classify<G: ModuleGraph>(stashed: &Vec<String>, externals: &Vec<String>, graph: &G) -> (r: Classification)
    ensures
        classified(graph, strings(stashed@), strings(externals@), strings(r.accepted@), strings(r.declined@)),
{
    let mut accepted: Vec<String> = Vec::new();
    let mut declined: Vec<String> = Vec::new();
    let ghost st = strings(stashed@);
    let ghost ex = strings(externals@);
    let mut i: usize = 0;
    while i < stashed.len()
        invariant
            i <= stashed.len(),
            st == strings(stashed@),
            forall|j: int| 0 <= j < i ==> strings(accepted@).contains(#[trigger] stashed@[j]@),
            forall|m: Seq<char>| strings(accepted@).contains(m) ==> st.contains(m),
        decreases stashed.len() - i,
    {
        let ghost before = strings(accepted@);
        add_name(&mut accepted, stashed[i].as_str());
        proof {
            assert(strings(stashed@)[i as int] == stashed@[i as int]@);
            assert forall|j: int| 0 <= j < i + 1 implies strings(accepted@).contains(#[trigger] stashed@[j]@) by {
                if j < i {
                    assert(before.contains(stashed@[j]@));
                    assert(before.to_set().contains(stashed@[j]@));
                    assert(strings(accepted@).to_set().contains(stashed@[j]@));
                } else {
                    assert(strings(accepted@).to_set().contains(stashed@[j]@));
                }
            }
            assert forall|m: Seq<char>| strings(accepted@).contains(m) implies st.contains(m) by {
                assert(strings(accepted@).to_set().contains(m));
                if m != stashed@[i as int]@ {
                    assert(before.to_set().contains(m));
                }
            }
        }
        i = i + 1;
    }
    let mut e: usize = 0;
    while e < externals.len()
        invariant
            e <= externals.len(),
            ex == strings(externals@),
            forall|j: int| 0 <= j < e ==> strings(declined@).contains(#[trigger] externals@[j]@),
            forall|m: Seq<char>| strings(declined@).contains(m) ==> ex.contains(m),
        decreases externals.len() - e,
    {
        let ghost before = strings(declined@);
        add_name(&mut declined, externals[e].as_str());
        proof {
            assert(strings(externals@)[e as int] == externals@[e as int]@);
            assert forall|j: int| 0 <= j < e + 1 implies strings(declined@).contains(#[trigger] externals@[j]@) by {
                if j < e {
                    assert(before.to_set().contains(externals@[j]@));
                    assert(strings(declined@).to_set().contains(externals@[j]@));
                } else {
                    assert(strings(declined@).to_set().contains(externals@[j]@));
                }
            }
            assert forall|m: Seq<char>| strings(declined@).contains(m) implies ex.contains(m) by {
                assert(strings(declined@).to_set().contains(m));
                if m != externals@[e as int]@ {
                    assert(before.to_set().contains(m));
                }
            }
        }
        e = e + 1;
    }
    proof {
        assert forall|s: Seq<char>| st.contains(s) implies strings(accepted@).contains(s) by {
            let j = choose|j: int| 0 <= j < st.len() && st[j] == s;
            assert(stashed@[j]@ == s);
        }
        assert forall|s: Seq<char>| ex.contains(s) implies strings(declined@).contains(s) by {
            let j = choose|j: int| 0 <= j < ex.len() && ex[j] == s;
            assert(externals@[j]@ == s);
        }
    }
    proof {
        graph.lemma_modules();
    }
    let mut found: Vec<String> = Vec::new();
    let mut s: usize = 0;
    while s < stashed.len()
        invariant
            s <= stashed.len(),
            st == strings(stashed@),
            ex == strings(externals@),
            graph.modules().finite(),
            forall|u: Seq<char>, m: Seq<char>| #[trigger] graph.imports(u).contains(m) ==> graph.modules().contains(m),
            strings(found@).no_duplicates(),
            forall|k: int| 0 <= k < found@.len() ==> explored(graph, st, ex, #[trigger] strings(found@)[k]),
            forall|k: int| 0 <= k < found@.len() ==> graph.modules().contains(#[trigger] strings(found@)[k]),
            forall|j: int, x: Seq<char>| 0 <= j < s && #[trigger] graph.imports(stashed@[j]@).contains(x) && !st.contains(x)
                && !ex.contains(x) ==> strings(found@).contains(x),
        decreases stashed.len() - s,
    {
        let imports = graph.get_imports(stashed[s].as_str());
        proof {
            assert(st[s as int] == stashed@[s as int]@);
        }
        let mut k: usize = 0;
        while k < imports.len()
            invariant
                s < stashed.len(),
                k <= imports.len(),
                st == strings(stashed@),
                ex == strings(externals@),
                st.contains(stashed@[s as int]@),
                strings(imports@) == graph.imports(stashed@[s as int]@),
                forall|u: Seq<char>, m: Seq<char>| #[trigger] graph.imports(u).contains(m) ==> graph.modules().contains(m),
                strings(found@).no_duplicates(),
                forall|k2: int| 0 <= k2 < found@.len() ==> explored(graph, st, ex, #[trigger] strings(found@)[k2]),
                forall|k2: int| 0 <= k2 < found@.len() ==> graph.modules().contains(#[trigger] strings(found@)[k2]),
                forall|j: int, x: Seq<char>| 0 <= j < s && #[trigger] graph.imports(stashed@[j]@).contains(x) && !st.contains(x)
                    && !ex.contains(x) ==> strings(found@).contains(x),
                forall|q: int| 0 <= q < k && !st.contains(#[trigger] strings(imports@)[q]) && !ex.contains(strings(imports@)[q])
                    ==> strings(found@).contains(strings(imports@)[q]),
            decreases imports.len() - k,
        {
            let x = imports[k].as_str();
            proof {
                assert(strings(imports@)[k as int] == imports@[k as int]@);
            }
            if !contains_name(stashed, x) && !contains_name(externals, x) && !contains_name(&found, x) {
                let ghost before = strings(found@);
                found.push(imports[k].clone());
                proof {
                    assert(strings(found@) =~= before.push(x@));
                    lemma_push_names(before, x@);
                    lemma_explored_seed(graph, st, ex, stashed@[s as int]@, x@);
                    assert(graph.imports(stashed@[s as int]@).contains(x@));
                    assert forall|k2: int| 0 <= k2 < found@.len() implies explored(graph, st, ex, #[trigger] strings(found@)[k2])
                        && graph.modules().contains(strings(found@)[k2]) by {
                        if k2 < before.len() {
                            assert(strings(found@)[k2] == before[k2]);
                        }
                    }
                }
            }
            k = k + 1;
        }
        proof {
            assert forall|j: int, x: Seq<char>| 0 <= j < s + 1 && #[trigger] graph.imports(stashed@[j]@).contains(x)
                && !st.contains(x) && !ex.contains(x) implies strings(found@).contains(x) by {
                if j == s {
                    let q = choose|q: int| 0 <= q < strings(imports@).len() && strings(imports@)[q] == x;
                }
            }
        }
        s = s + 1;
    }
    proof {
        assert forall|sx: Seq<char>, x: Seq<char>| st.contains(sx) && #[trigger] graph.imports(sx).contains(x)
            && !st.contains(x) && !ex.contains(x) implies strings(found@).contains(x) by {
            let j = choose|j: int| 0 <= j < st.len() && st[j] == sx;
            assert(stashed@[j]@ == sx);
            assert(graph.imports(stashed@[j]@).contains(x));
        }
    }
    let mut w: usize = 0;
    while w < found.len()
        invariant
            w <= found@.len(),
            st == strings(stashed@),
            ex == strings(externals@),
            graph.modules().finite(),
            forall|u: Seq<char>, m: Seq<char>| #[trigger] graph.imports(u).contains(m) ==> graph.modules().contains(m),
            strings(found@).no_duplicates(),
            forall|k: int| 0 <= k < found@.len() ==> explored(graph, st, ex, #[trigger] strings(found@)[k]),
            forall|k: int| 0 <= k < found@.len() ==> graph.modules().contains(#[trigger] strings(found@)[k]),
            forall|sx: Seq<char>, x: Seq<char>| st.contains(sx) && #[trigger] graph.imports(sx).contains(x)
                && !st.contains(x) && !ex.contains(x) ==> strings(found@).contains(x),
            forall|j: int, x: Seq<char>| 0 <= j < w && #[trigger] graph.imports(strings(found@)[j]).contains(x)
                && !st.contains(x) && !ex.contains(x) ==> strings(found@).contains(x),
        decreases graph.modules().len() - w,
    {
        proof {
            strings(found@).unique_seq_to_set();
            assert(strings(found@).to_set().subset_of(graph.modules()));
            vstd::set_lib::lemma_len_subset(strings(found@).to_set(), graph.modules());
        }
        let ghost cur = strings(found@)[w as int];
        proof {
            assert(cur == found@[w as int]@);
        }
        let imports = graph.get_imports(found[w].as_str());
        let mut k: usize = 0;
        while k < imports.len()
            invariant
                w < found@.len(),
                k <= imports.len(),
                st == strings(stashed@),
                ex == strings(externals@),
                cur == strings(found@)[w as int],
                strings(imports@) == graph.imports(cur),
                explored(graph, st, ex, cur),
                forall|u: Seq<char>, m: Seq<char>| #[trigger] graph.imports(u).contains(m) ==> graph.modules().contains(m),
                strings(found@).no_duplicates(),
                forall|k2: int| 0 <= k2 < found@.len() ==> explored(graph, st, ex, #[trigger] strings(found@)[k2]),
                forall|k2: int| 0 <= k2 < found@.len() ==> graph.modules().contains(#[trigger] strings(found@)[k2]),
                forall|sx: Seq<char>, x: Seq<char>| st.contains(sx) && #[trigger] graph.imports(sx).contains(x)
                    && !st.contains(x) && !ex.contains(x) ==> strings(found@).contains(x),
                forall|j: int, x: Seq<char>| 0 <= j < w && #[trigger] graph.imports(strings(found@)[j]).contains(x)
                    && !st.contains(x) && !ex.contains(x) ==> strings(found@).contains(x),
                forall|q: int| 0 <= q < k && !st.contains(#[trigger] strings(imports@)[q]) && !ex.contains(strings(imports@)[q])
                    ==> strings(found@).contains(strings(imports@)[q]),
            decreases imports.len() - k,
        {
            let x = imports[k].as_str();
            proof {
                assert(strings(imports@)[k as int] == imports@[k as int]@);
            }
            if !contains_name(stashed, x) && !contains_name(externals, x) && !contains_name(&found, x) {
                let ghost before = strings(found@);
                found.push(imports[k].clone());
                proof {
                    assert(strings(found@) =~= before.push(x@));
                    lemma_push_names(before, x@);
                    lemma_explored_step(graph, st, ex, cur, x@);
                    assert(graph.imports(cur).contains(x@));
                    assert forall|k2: int| 0 <= k2 < found@.len() implies explored(graph, st, ex, #[trigger] strings(found@)[k2])
                        && graph.modules().contains(strings(found@)[k2]) by {
                        if k2 < before.len() {
                            assert(strings(found@)[k2] == before[k2]);
                        }
                    }
                    assert forall|j: int| 0 <= j < before.len() implies #[trigger] strings(found@)[j] == before[j] by {}
                }
            }
            k = k + 1;
        }
        proof {
            assert forall|j: int, x: Seq<char>| 0 <= j < w + 1 && #[trigger] graph.imports(strings(found@)[j]).contains(x)
                && !st.contains(x) && !ex.contains(x) implies strings(found@).contains(x) by {
                if j == w {
                    let q = choose|q: int| 0 <= q < strings(imports@).len() && strings(imports@)[q] == x;
                }
            }
        }
        w = w + 1;
    }
    let ghost fv = strings(found@);
    proof {
        assert forall|m: Seq<char>| explored(graph, st, ex, m) implies fv.contains(m) by {
            let p = choose|p: Seq<Seq<char>>| #[trigger] explore_path(graph, st, ex, p) && p.last() == m;
            assert forall|mm: Seq<char>, x: Seq<char>| fv.contains(mm) && #[trigger] graph.imports(mm).contains(x)
                && !st.contains(x) && !ex.contains(x) implies fv.contains(x) by {
                let j = choose|j: int| 0 <= j < fv.len() && fv[j] == mm;
            }
            lemma_path_found(graph, st, ex, fv, p, p.len() - 1);
        }
    }
    let mut flags: Vec<bool> = Vec::new();
    let mut f: usize = 0;
    while f < found.len()
        invariant
            f <= found@.len(),
            flags@.len() == f,
            forall|k: int| 0 <= k < f ==> !flags@[k],
        decreases found.len() - f,
    {
        flags.push(false);
        f = f + 1;
    }
    loop
        invariant
            fv == strings(found@),
            st == strings(stashed@),
            flags@.len() == found@.len(),
            fv.no_duplicates(),
            forall|k: int| 0 <= k < fv.len() ==> explored(graph, st, ex, #[trigger] fv[k]),
            forall|k: int| 0 <= k < flags@.len() && flags@[k] ==> leads_back(graph, st, ex, #[trigger] fv[k]),
            forall|m: Seq<char>| #[trigger] explored(graph, st, ex, m) ==> fv.contains(m),
        ensures
            flags@.len() == found@.len(),
            forall|k: int| 0 <= k < flags@.len() && flags@[k] ==> leads_back(graph, st, ex, #[trigger] fv[k]),
            forall|j: int, x: Seq<char>| 0 <= j < fv.len() && !flags@[j] && #[trigger] graph.imports(fv[j]).contains(x)
                ==> !acc_now(st, fv, flags@, x),
        decreases unset(flags@),
    {
        let ghost start = flags@;
        let mut changed = false;
        let mut k: usize = 0;
        while k < found.len()
            invariant
                k <= found@.len(),
                fv == strings(found@),
                st == strings(stashed@),
                flags@.len() == found@.len(),
                fv.no_duplicates(),
                forall|k2: int| 0 <= k2 < fv.len() ==> explored(graph, st, ex, #[trigger] fv[k2]),
                forall|k2: int| 0 <= k2 < flags@.len() && flags@[k2] ==> leads_back(graph, st, ex, #[trigger] fv[k2]),
                changed ==> unset(flags@) < unset(start),
                !changed ==> flags@ == start,
                !changed ==> forall|j: int, x: Seq<char>| 0 <= j < k && !flags@[j] && #[trigger] graph.imports(fv[j]).contains(x)
                    ==> !acc_now(st, fv, flags@, x),
            decreases found.len() - k,
        {
            if !flags[k] {
                proof {
                    assert(fv[k as int] == found@[k as int]@);
                }
                let imports = graph.get_imports(found[k].as_str());
                let mut any = false;
                let ghost mut wit: Seq<char> = Seq::empty();
                let mut q: usize = 0;
                while q < imports.len() && !any
                    invariant
                        q <= imports.len(),
                        k < fv.len(),
                        fv == strings(found@),
                        st == strings(stashed@),
                        flags@.len() == found@.len(),
                        fv.no_duplicates(),
                        strings(imports@) == graph.imports(fv[k as int]),
                        any ==> graph.imports(fv[k as int]).contains(wit) && acc_now(st, fv, flags@, wit),
                        !any ==> forall|q2: int| 0 <= q2 < q ==> !acc_now(st, fv, flags@, #[trigger] strings(imports@)[q2]),
                    decreases imports.len() - q,
                {
                    let x = imports[q].as_str();
                    proof {
                        assert(strings(imports@)[q as int] == imports@[q as int]@);
                    }
                    let pos = position_of(&found, x);
                    let in_found = match pos {
                        Some(p) => flags[p],
                        None => false,
                    };
                    let hit = contains_name(stashed, x) || in_found;
                    proof {
                        if acc_now(st, fv, flags@, x@) && !st.contains(x@) {
                            let j2 = choose|j2: int| 0 <= j2 < fv.len() && fv[j2] == x@ && flags@[j2];
                            assert(fv.contains(x@));
                            match pos {
                                Some(p) => {
                                    assert(fv[p as int] == x@);
                                    assert(p as int == j2);
                                },
                                None => {},
                            }
                        }
                        match pos {
                            Some(p) => {
                                assert(fv[p as int] == x@);
                            },
                            None => {},
                        }
                    }
                    if hit {
                        any = true;
                        proof {
                            wit = x@;
                        }
                    }
                    q = q + 1;
                }
                if any {
                    proof {
                        if st.contains(wit) {
                            lemma_back_seed(graph, st, ex, fv[k as int], wit);
                        } else {
                            let j2 = choose|j2: int| 0 <= j2 < fv.len() && fv[j2] == wit && flags@[j2];
                            lemma_back_step(graph, st, ex, fv[k as int], wit);
                        }
                        lemma_unset_update(flags@, k as int);
                    }
                    flags.set(k, true);
                    changed = true;
                } else {
                    proof {
                        assert forall|x: Seq<char>| #[trigger] graph.imports(fv[k as int]).contains(x) implies !acc_now(st, fv, flags@, x) by {
                            let q2 = choose|q2: int| 0 <= q2 < strings(imports@).len() && strings(imports@)[q2] == x;
                        }
                    }
                }
            }
            k = k + 1;
        }
        if !changed {
            break;
        }
    }
    let mut a: usize = 0;
    while a < found.len()
        invariant
            a <= found@.len(),
            fv == strings(found@),
            flags@.len() == found@.len(),
            forall|m: Seq<char>| #[trigger] strings(accepted@).contains(m) <==> (st.contains(m)
                || exists|j: int| 0 <= j < a && fv[j] == m && flags@[j]),
            forall|m: Seq<char>| #[trigger] strings(declined@).contains(m) <==> (ex.contains(m)
                || exists|j: int| 0 <= j < a && fv[j] == m && !flags@[j]),
            fv.no_duplicates(),
            forall|k: int| 0 <= k < fv.len() ==> explored(graph, st, ex, #[trigger] fv[k]),
            forall|k: int| 0 <= k < flags@.len() && flags@[k] ==> leads_back(graph, st, ex, #[trigger] fv[k]),
            forall|m: Seq<char>| #[trigger] explored(graph, st, ex, m) ==> fv.contains(m),
            forall|j: int, x: Seq<char>| 0 <= j < fv.len() && !flags@[j] && #[trigger] graph.imports(fv[j]).contains(x)
                ==> !acc_now(st, fv, flags@, x),
            st == strings(stashed@),
            ex == strings(externals@),
        decreases found.len() - a,
    {
        proof {
            assert(fv[a as int] == found@[a as int]@);
        }
        if flags[a] {
            let ghost before = strings(accepted@);
            add_name(&mut accepted, found[a].as_str());
            proof {
                lemma_added(before, strings(accepted@), fv[a as int]);
                assert forall|m: Seq<char>| #[trigger] strings(accepted@).contains(m) <==> (st.contains(m)
                    || exists|j: int| 0 <= j < a + 1 && fv[j] == m && flags@[j]) by {
                    if exists|j: int| 0 <= j < a + 1 && fv[j] == m && flags@[j] {
                        let j = choose|j: int| 0 <= j < a + 1 && fv[j] == m && flags@[j];
                        if j < a {
                            assert(exists|j2: int| 0 <= j2 < a && fv[j2] == m && flags@[j2]);
                        }
                    }
                }
                assert forall|m: Seq<char>| #[trigger] strings(declined@).contains(m) <==> (ex.contains(m)
                    || exists|j: int| 0 <= j < a + 1 && fv[j] == m && !flags@[j]) by {
                    if exists|j: int| 0 <= j < a + 1 && fv[j] == m && !flags@[j] {
                        let j = choose|j: int| 0 <= j < a + 1 && fv[j] == m && !flags@[j];
                        assert(j < a);
                    }
                }
            }
        } else {
            let ghost before = strings(declined@);
            add_name(&mut declined, found[a].as_str());
            proof {
                lemma_added(before, strings(declined@), fv[a as int]);
                assert forall|m: Seq<char>| #[trigger] strings(declined@).contains(m) <==> (ex.contains(m)
                    || exists|j: int| 0 <= j < a + 1 && fv[j] == m && !flags@[j]) by {
                    if exists|j: int| 0 <= j < a + 1 && fv[j] == m && !flags@[j] {
                        let j = choose|j: int| 0 <= j < a + 1 && fv[j] == m && !flags@[j];
                        if j < a {
                            assert(exists|j2: int| 0 <= j2 < a && fv[j2] == m && !flags@[j2]);
                        }
                    }
                }
                assert forall|m: Seq<char>| #[trigger] strings(accepted@).contains(m) <==> (st.contains(m)
                    || exists|j: int| 0 <= j < a + 1 && fv[j] == m && flags@[j]) by {
                    if exists|j: int| 0 <= j < a + 1 && fv[j] == m && flags@[j] {
                        let j = choose|j: int| 0 <= j < a + 1 && fv[j] == m && flags@[j];
                        assert(j < a);
                    }
                }
            }
        }
        a = a + 1;
    }
    proof {
        assert forall|m: Seq<char>| #[trigger] strings(accepted@).contains(m) <==> accepted_by(graph, st, ex, m) by {
            if !st.contains(m) && explored(graph, st, ex, m) && leads_back(graph, st, ex, m) {
                let p = choose|p: Seq<Seq<char>>| #[trigger] back_path(graph, st, ex, p) && p[0] == m;
                lemma_back_accepted(graph, st, ex, fv, flags@, p, 0);
            }
        }
        assert forall|m: Seq<char>| #[trigger] strings(declined@).contains(m) <==> declined_by(graph, st, ex, m) by {
            if !ex.contains(m) && explored(graph, st, ex, m) && !leads_back(graph, st, ex, m) {
                assert(fv.contains(m));
                let j = choose|j: int| 0 <= j < fv.len() && fv[j] == m;
                assert(!flags@[j]);
            }
            if !ex.contains(m) && strings(declined@).contains(m) {
                let j = choose|j: int| 0 <= j < fv.len() && fv[j] == m && !flags@[j];
                if leads_back(graph, st, ex, m) {
                    let p = choose|p: Seq<Seq<char>>| #[trigger] back_path(graph, st, ex, p) && p[0] == m;
                    lemma_back_accepted(graph, st, ex, fv, flags@, p, 0);
                    let j2 = choose|j2: int| 0 <= j2 < fv.len() && fv[j2] == m && flags@[j2];
                    assert(j2 == j);
                }
            }
        }
    }
    Classification { accepted, declined }
}

} // verus!

verus! {

/// A path of imports from `a` to `b` that meets no declined module.
pub open spec fn open_path<G: ModuleGraph>(
    g: &G,
    declined: Set<Seq<char>>,
    p: Seq<Seq<char>>,
    a: Seq<char>,
    b: Seq<char>,
) -> bool {
    &&& import_path(g, p, a, b)
    &&& forall|i: int| 0 <= i < p.len() ==> !declined.contains(#[trigger] p[i])
}

/// `m` is in the dependency tree of `root` bounded by `declined`: reachable
/// from `root` by imports without meeting a declined module.
pub open spec fn depends<G: ModuleGraph>(g: &G, declined: Set<Seq<char>>, root: Seq<char>, m: Seq<char>) -> bool {
    exists|p: Seq<Seq<char>>| #[trigger] open_path(g, declined, p, root, m)
}

/// The dependency tree of `root` bounded by `declined`.
pub open spec fn dependency_tree<G: ModuleGraph>(g: &G, declined: Set<Seq<char>>, root: Seq<char>) -> Set<Seq<char>> {
    Set::new(|m: Seq<char>| depends(g, declined, root, m))
}

proof fn lemma_depends_root<G: ModuleGraph>(g: &G, declined: Set<Seq<char>>, root: Seq<char>)
    requires
        !declined.contains(root),
    ensures
        depends(g, declined, root, root),
{
    let p = seq![root];
    assert(open_path(g, declined, p, root, root));
}

proof fn lemma_depends_step<G: ModuleGraph>(g: &G, declined: Set<Seq<char>>, root: Seq<char>, b: Seq<char>, c: Seq<char>)
    requires
        depends(g, declined, root, b),
        g.imports(b).contains(c),
        !declined.contains(c),
    ensures
        depends(g, declined, root, c),
{
    let p = choose|p: Seq<Seq<char>>| #[trigger] open_path(g, declined, p, root, b);
    let q = p.push(c);
    assert forall|i: int| 0 <= i < q.len() - 1 implies g.imports(q[i]).contains(#[trigger] q[i + 1]) by {
        if i < p.len() - 1 {
            assert(q[i] == p[i] && q[i + 1] == p[i + 1]);
        } else {
            assert(q[i] == b);
        }
    }
    assert forall|i: int| 0 <= i < q.len() implies !declined.contains(#[trigger] q[i]) by {
        if i < p.len() {
            assert(q[i] == p[i]);
        }
    }
    assert(open_path(g, declined, q, root, c));
}

proof fn lemma_path_inside<G: ModuleGraph>(
    g: &G,
    declined: Set<Seq<char>>,
    p: Seq<Seq<char>>,
    root: Seq<char>,
    m: Seq<char>,
    s: Set<Seq<char>>,
    i: int,
)
    requires
        open_path(g, declined, p, root, m),
        s.contains(root),
        forall|b: Seq<char>, c: Seq<char>| s.contains(b) && #[trigger] g.imports(b).contains(c) && !declined.contains(c) ==> s.contains(c),
        0 <= i < p.len(),
    ensures
        s.contains(p[i]),
    decreases i,
{
    if i > 0 {
        lemma_path_inside(g, declined, p, root, m, s, i - 1);
        assert(g.imports(p[i - 1]).contains(p[i - 1 + 1]));
        assert(!declined.contains(p[i]));
    }
}

/// A set holding `root` (when it is not declined) and closed under the
/// undeclined imports holds the whole dependency tree of `root`.
proof fn lemma_tree_inside<G: ModuleGraph>(g: &G, declined: Set<Seq<char>>, root: Seq<char>, s: Set<Seq<char>>)
    requires
        !declined.contains(root) ==> s.contains(root),
        forall|b: Seq<char>, c: Seq<char>| s.contains(b) && #[trigger] g.imports(b).contains(c) && !declined.contains(c) ==> s.contains(c),
    ensures
        forall|m: Seq<char>| depends(g, declined, root, m) ==> s.contains(m),
{
    assert forall|m: Seq<char>| depends(g, declined, root, m) implies s.contains(m) by {
        let p = choose|p: Seq<Seq<char>>| #[trigger] open_path(g, declined, p, root, m);
        assert(!declined.contains(p[0]));
        lemma_path_inside(g, declined, p, root, m, s, p.len() - 1);
    }
}

/// The transitive imports of `root` bounded by `declined` (a declined
/// module stops the descent), `root` included unless declined; each module
/// once.
pub fn get_dependencies<G: ModuleGraph>(root: &str, declined: &Vec<String>, graph: &G) -> (r: Vec<String>)
    ensures
        strings(r@).no_duplicates(),
        forall|m: Seq<char>| strings(r@).contains(m) <==> depends(graph, strings(declined@).to_set(), root@, m),
{
    let ghost dset = strings(declined@).to_set();
    proof {
        graph.lemma_modules();
    }
    let ghost universe = graph.modules().insert(root@);
    let mut deps: Vec<String> = Vec::new();
    let mut stack: Vec<String> = Vec::new();
    if !contains_name(declined, root) {
        stack.push(String::from_str(root));
        proof {
            lemma_depends_root(graph, dset, root@);
            assert(strings(stack@)[0] == root@);
        }
    }
    while stack.len() > 0
        invariant
            dset == strings(declined@).to_set(),
            universe == graph.modules().insert(root@),
            universe.finite(),
            forall|u: Seq<char>, m: Seq<char>| #[trigger] graph.imports(u).contains(m) ==> graph.modules().contains(m),
            strings(deps@).no_duplicates(),
            deps@.len() <= universe.len(),
            forall|m: Seq<char>| #[trigger] strings(deps@).contains(m) ==> universe.contains(m) && depends(graph, dset, root@, m),
            forall|m: Seq<char>| #[trigger] strings(stack@).contains(m) ==> universe.contains(m) && depends(graph, dset, root@, m),
            forall|b: Seq<char>, c: Seq<char>| strings(deps@).contains(b) && #[trigger] graph.imports(b).contains(c) && !dset.contains(c)
                ==> strings(deps@).contains(c) || strings(stack@).contains(c),
            !dset.contains(root@) ==> strings(deps@).contains(root@) || strings(stack@).contains(root@),
        decreases universe.len() - deps@.len(), stack@.len(),
    {
        let ghost before = strings(stack@);
        let url = stack.pop().unwrap();
        proof {
            assert(before == strings(stack@).push(url@));
            assert(before.last() == url@);
            assert forall|m: Seq<char>| before.contains(m) implies strings(stack@).contains(m) || m == url@ by {
                let j = choose|j: int| 0 <= j < before.len() && before[j] == m;
                if j < before.len() - 1 {
                    assert(strings(stack@)[j] == m);
                }
            }
            assert(before.contains(url@));
            assert(universe.contains(url@) && depends(graph, dset, root@, url@));
        }
        if contains_name(&deps, url.as_str()) {
            proof {
                assert forall|b: Seq<char>, c: Seq<char>| strings(deps@).contains(b) && #[trigger] graph.imports(b).contains(c) && !dset.contains(c)
                    implies strings(deps@).contains(c) || strings(stack@).contains(c) by {
                    if !strings(deps@).contains(c) {
                        assert(before.contains(c));
                    }
                }
                if !dset.contains(root@) && !strings(deps@).contains(root@) {
                    assert(before.contains(root@));
                }
                assert forall|m: Seq<char>| #[trigger] strings(stack@).contains(m) implies universe.contains(m) && depends(graph, dset, root@, m) by {
                    let j = choose|j: int| 0 <= j < strings(stack@).len() && strings(stack@)[j] == m;
                    assert(before[j] == m);
                    assert(before.contains(m));
                }
            }
            continue;
        }
        let ghost old_deps = strings(deps@);
        deps.push(url.clone());
        proof {
            assert(strings(deps@) == old_deps.push(url@));
            assert(strings(deps@).no_duplicates()) by {
                assert forall|i: int, j: int| 0 <= i < j < strings(deps@).len() implies strings(deps@)[i] != strings(deps@)[j] by {
                    if j == old_deps.len() {
                        assert(old_deps.contains(old_deps[i]));
                    }
                }
            }
            assert(strings(deps@).to_set().subset_of(universe)) by {
                assert forall|m: Seq<char>| strings(deps@).to_set().contains(m) implies universe.contains(m) by {
                    if m != url@ {
                        let j = choose|j: int| 0 <= j < strings(deps@).len() && strings(deps@)[j] == m;
                        assert(old_deps[j] == m);
                        assert(old_deps.contains(m));
                    }
                }
            }
            strings(deps@).unique_seq_to_set();
            vstd::set_lib::lemma_len_subset(strings(deps@).to_set(), universe);
            assert forall|m: Seq<char>| strings(deps@).contains(m) <==> (old_deps.contains(m) || m == url@) by {
                if strings(deps@).contains(m) && m != url@ {
                    let j = choose|j: int| 0 <= j < strings(deps@).len() && strings(deps@)[j] == m;
                    assert(old_deps[j] == m);
                }
                if old_deps.contains(m) {
                    let j = choose|j: int| 0 <= j < old_deps.len() && old_deps[j] == m;
                    assert(strings(deps@)[j] == m);
                }
                if m == url@ {
                    assert(strings(deps@)[old_deps.len() as int] == m);
                }
            }
        }
        let imports = graph.get_imports(url.as_str());
        let ghost base = strings(stack@);
        let mut k: usize = 0;
        while k < imports.len()
            invariant
                k <= imports.len(),
                dset == strings(declined@).to_set(),
                universe == graph.modules().insert(root@),
                forall|u: Seq<char>, m: Seq<char>| #[trigger] graph.imports(u).contains(m) ==> graph.modules().contains(m),
                strings(imports@) == graph.imports(url@),
                depends(graph, dset, root@, url@),
                base.len() <= stack@.len(),
                forall|j: int| 0 <= j < base.len() ==> #[trigger] strings(stack@)[j] == base[j],
                forall|m: Seq<char>| strings(stack@).contains(m) ==> base.contains(m) || (universe.contains(m) && depends(graph, dset, root@, m)),
                forall|j: int| 0 <= j < k && !dset.contains(#[trigger] imports@[j]@) ==> strings(stack@).contains(imports@[j]@),
            decreases imports.len() - k,
        {
            proof {
                assert(strings(imports@)[k as int] == imports@[k as int]@);
            }
            if !contains_name(declined, imports[k].as_str()) {
                let ghost prev = strings(stack@);
                stack.push(imports[k].clone());
                proof {
                    assert(strings(stack@) == prev.push(imports@[k as int]@));
                    assert(graph.imports(url@).contains(imports@[k as int]@));
                    lemma_depends_step(graph, dset, root@, url@, imports@[k as int]@);
                    assert forall|m: Seq<char>| strings(stack@).contains(m) implies base.contains(m) || (universe.contains(m) && depends(graph, dset, root@, m)) by {
                        let j = choose|j: int| 0 <= j < strings(stack@).len() && strings(stack@)[j] == m;
                        if j < prev.len() {
                            assert(prev[j] == m);
                        }
                    }
                    assert forall|j: int| 0 <= j < k + 1 && !dset.contains(#[trigger] imports@[j]@) implies strings(stack@).contains(imports@[j]@) by {
                        if j < k {
                            let t = choose|t: int| 0 <= t < prev.len() && prev[t] == imports@[j]@;
                            assert(strings(stack@)[t] == imports@[j]@);
                        } else {
                            assert(strings(stack@)[prev.len() as int] == imports@[j]@);
                        }
                    }
                    assert forall|j: int| 0 <= j < base.len() implies #[trigger] strings(stack@)[j] == base[j] by {
                        assert(strings(stack@)[j] == prev[j]);
                    }
                }
            }
            k = k + 1;
        }
        proof {
            assert forall|m: Seq<char>| #[trigger] strings(stack@).contains(m) implies universe.contains(m) && depends(graph, dset, root@, m) by {
                if base.contains(m) {
                    let j = choose|j: int| 0 <= j < base.len() && base[j] == m;
                    assert(before[j] == m);
                    assert(before.contains(m));
                }
            }
            assert forall|m: Seq<char>| #[trigger] strings(deps@).contains(m) implies universe.contains(m) && depends(graph, dset, root@, m) by {
                if m != url@ {
                    assert(old_deps.contains(m));
                }
            }
            assert forall|m: Seq<char>| base.contains(m) implies strings(stack@).contains(m) by {
                let j = choose|j: int| 0 <= j < base.len() && base[j] == m;
                assert(strings(stack@)[j] == m);
            }
            assert forall|b: Seq<char>, c: Seq<char>| strings(deps@).contains(b) && #[trigger] graph.imports(b).contains(c) && !dset.contains(c)
                implies strings(deps@).contains(c) || strings(stack@).contains(c) by {
                if b == url@ {
                    let j = choose|j: int| 0 <= j < strings(imports@).len() && strings(imports@)[j] == c;
                    assert(imports@[j]@ == c);
                } else {
                    assert(old_deps.contains(b));
                    if !old_deps.contains(c) && !before.contains(c) {
                        assert(false);
                    }
                }
            }
        }
    }
    proof {
        assert(strings(stack@).len() == 0);
        assert forall|b: Seq<char>, c: Seq<char>| strings(deps@).to_set().contains(b) && #[trigger] graph.imports(b).contains(c) && !dset.contains(c)
            implies strings(deps@).to_set().contains(c) by {
            assert(strings(deps@).contains(b));
            if !strings(deps@).contains(c) {
                assert(strings(stack@).contains(c));
            }
        }
        lemma_tree_inside(graph, dset, root@, strings(deps@).to_set());
        assert forall|m: Seq<char>| depends(graph, dset, root@, m) implies strings(deps@).contains(m) by {
            assert(strings(deps@).to_set().contains(m));
        }
    }
    deps
}

} // verus!

verus! {

/// Two sets share a module.
pub open spec fn meets(a: Set<Seq<char>>, b: Set<Seq<char>>) -> bool {
    exists|m: Seq<char>| a.contains(m) && #[trigger] b.contains(m)
}

/// The stale entries among `entries`, in order: an entry is stale when its
/// dependency tree (bounded by `declined`) meets the accepted modules; the
/// tree of a stale entry joins the accepted modules for the entries after
/// it.
pub open spec fn stale_entries<G: ModuleGraph>(
    g: &G,
    declined: Set<Seq<char>>,
    accepted: Set<Seq<char>>,
    entries: Seq<Seq<char>>,
) -> Seq<Seq<char>>
    decreases entries.len(),
{
    if entries.len() == 0 {
        Seq::empty()
    } else {
        let tree = dependency_tree(g, declined, entries[0]);
        if meets(tree, accepted) {
            seq![entries[0]] + stale_entries(g, declined, accepted.union(tree), entries.drop_first())
        } else {
            stale_entries(g, declined, accepted, entries.drop_first())
        }
    }
}

/// Stale entry detection: the entries (module urls) whose dependency tree,
/// bounded by the declined modules, meets the accepted ones; each stale
/// tree is accepted in turn.
pub fn detect<G: ModuleGraph>(entries: &Vec<String>, classification: &Classification, graph: &G) -> (r: Vec<String>)
    ensures
        strings(r@) == stale_entries(
            graph,
            strings(classification.declined@).to_set(),
            strings(classification.accepted@).to_set(),
            strings(entries@),
        ),
{
    let ghost dset = strings(classification.declined@).to_set();
    let ghost whole = stale_entries(graph, dset, strings(classification.accepted@).to_set(), strings(entries@));
    let mut accepted = clone_strings(&classification.accepted);
    let mut stale: Vec<String> = Vec::new();
    let mut i: usize = 0;
    proof {
        assert(strings(entries@).skip(0) =~= strings(entries@));
        assert(strings(stale@) + whole =~= whole);
    }
    while i < entries.len()
        invariant
            i <= entries.len(),
            dset == strings(classification.declined@).to_set(),
            whole == stale_entries(graph, dset, strings(classification.accepted@).to_set(), strings(entries@)),
            strings(stale@) + stale_entries(graph, dset, strings(accepted@).to_set(), strings(entries@).skip(i as int)) == whole,
        decreases entries.len() - i,
    {
        let ghost rest = strings(entries@).skip(i as int);
        let ghost acc = strings(accepted@).to_set();
        let ghost tree_set = dependency_tree(graph, dset, entries@[i as int]@);
        proof {
            assert(rest[0] == entries@[i as int]@);
            assert(rest.drop_first() =~= strings(entries@).skip(i as int + 1));
        }
        let tree = get_dependencies(entries[i].as_str(), &classification.declined, graph);
        proof {
            assert(strings(tree@).to_set() =~= tree_set);
        }
        let mut hit = false;
        let mut t: usize = 0;
        while t < tree.len()
            invariant
                t <= tree.len(),
                hit <==> exists|j: int| 0 <= j < t && #[trigger] acc.contains(tree@[j]@),
                acc == strings(accepted@).to_set(),
            decreases tree.len() - t,
        {
            let found = contains_name(&accepted, tree[t].as_str());
            if found {
                hit = true;
            }
            proof {
                assert(found == acc.contains(tree@[t as int]@));
                if hit {
                    if !found {
                        let j = choose|j: int| 0 <= j < t && #[trigger] acc.contains(tree@[j]@);
                        assert(0 <= j < t + 1 && acc.contains(tree@[j]@));
                    } else {
                        assert(acc.contains(tree@[t as int]@));
                    }
                } else {
                    assert forall|j: int| 0 <= j < t + 1 implies !#[trigger] acc.contains(tree@[j]@) by {
                        if j < t {
                        }
                    }
                }
            }
            t = t + 1;
        }
        proof {
            if hit {
                let j = choose|j: int| 0 <= j < tree.len() && #[trigger] acc.contains(tree@[j]@);
                assert(strings(tree@)[j] == tree@[j]@);
                assert(tree_set.contains(tree@[j]@));
                assert(meets(tree_set, acc));
            } else if meets(tree_set, acc) {
                let m = choose|m: Seq<char>| tree_set.contains(m) && #[trigger] acc.contains(m);
                assert(strings(tree@).to_set().contains(m));
                let j = choose|j: int| 0 <= j < strings(tree@).len() && strings(tree@)[j] == m;
                assert(acc.contains(tree@[j]@));
            }
        }
        if hit {
            let mut u: usize = 0;
            while u < tree.len()
                invariant
                    u <= tree.len(),
                    strings(accepted@).to_set() == acc.union(strings(tree@).subrange(0, u as int).to_set()),
                decreases tree.len() - u,
            {
                let ghost prev = strings(accepted@);
                add_name(&mut accepted, tree[u].as_str());
                proof {
                    let sub = strings(tree@).subrange(0, u as int);
                    assert(strings(tree@).subrange(0, u as int + 1) =~= sub.push(tree@[u as int]@));
                    sub.lemma_push_to_set_commute(tree@[u as int]@);
                    assert(strings(accepted@).to_set() =~= acc.union(strings(tree@).subrange(0, u as int + 1).to_set()));
                }
                u = u + 1;
            }
            proof {
                assert(strings(tree@).subrange(0, tree@.len() as int) =~= strings(tree@));
                assert(strings(accepted@).to_set() =~= acc.union(tree_set));
            }
            let ghost prev_stale = strings(stale@);
            stale.push(entries[i].clone());
            proof {
                assert(strings(stale@) =~= prev_stale.push(entries@[i as int]@));
                assert(strings(stale@) + stale_entries(graph, dset, strings(accepted@).to_set(), strings(entries@).skip(i as int + 1))
                    =~= prev_stale + stale_entries(graph, dset, acc, rest));
            }
        } else {
            proof {
                assert(stale_entries(graph, dset, acc, rest) == stale_entries(graph, dset, acc, strings(entries@).skip(i as int + 1)));
            }
        }
        i = i + 1;
    }
    proof {
        assert(strings(entries@).skip(i as int) =~= Seq::<Seq<char>>::empty());
        assert(strings(stale@) + Seq::<Seq<char>>::empty() =~= strings(stale@));
    }
    stale
}

} // verus!

verus! {


/// The component names of entries.
pub open spec fn components(desired: Seq<Entry>) -> Seq<Seq<char>> {
    desired.map_values(|e: Entry| e.component@)
}

/// The order of texts: lexicographic by character.
pub open spec fn text_lt(a: Seq<char>, b: Seq<char>) -> bool
    decreases a.len(),
{
    if a.len() == 0 {
        b.len() > 0
    } else if b.len() == 0 {
        false
    } else if a[0] != b[0] {
        (a[0] as int) < (b[0] as int)
    } else {
        text_lt(a.drop_first(), b.drop_first())
    }
}

/// Two texts are equal or one comes first.
proof fn lemma_text_total(a: Seq<char>, b: Seq<char>)
    ensures
        a == b || text_lt(a, b) || text_lt(b, a),
    decreases a.len(),
{
    if a.len() == 0 && b.len() == 0 {
        assert(a =~= b);
    } else if a.len() > 0 && b.len() > 0 && a[0] == b[0] {
        lemma_text_total(a.drop_first(), b.drop_first());
        if a.drop_first() == b.drop_first() {
            assert(a =~= seq![a[0]] + a.drop_first());
            assert(b =~= seq![b[0]] + b.drop_first());
        }
    } else if a.len() > 0 && b.len() > 0 {
        assert((a[0] as int) != (b[0] as int));
    }
}

/// `names` lists the texts of `s` once each, in ascending order.
pub open spec fn ascending_listing(s: Seq<Seq<char>>, names: Seq<Seq<char>>) -> bool {
    &&& names.no_duplicates()
    &&& forall|i: int| 0 <= i < names.len() - 1 ==> text_lt(#[trigger] names[i], names[i + 1])
    &&& names.to_set() == s.to_set()
}

/// Whether `a` comes before `b`.
fn text_less(a: &Vec<char>, b: &Vec<char>) -> (r: bool)
    ensures
        r == text_lt(a@, b@),
{
    let mut i: usize = 0;
    proof {
        assert(a@.skip(0) =~= a@);
        assert(b@.skip(0) =~= b@);
    }
    while i < a.len() && i < b.len()
        invariant
            i <= a.len(),
            i <= b.len(),
            text_lt(a@, b@) == text_lt(a@.skip(i as int), b@.skip(i as int)),
        decreases a.len() - i,
    {
        proof {
            assert(a@.skip(i as int)[0] == a@[i as int]);
            assert(b@.skip(i as int)[0] == b@[i as int]);
            assert(a@.skip(i as int).drop_first() =~= a@.skip(i + 1));
            assert(b@.skip(i as int).drop_first() =~= b@.skip(i + 1));
        }
        if a[i] != b[i] {
            return a[i] < b[i];
        }
        i = i + 1;
    }
    i == a.len() && i < b.len()
}

/// The component names of `desired`, each once, in ascending order.
fn entry_urls(desired: &Vec<Entry>) -> (r: Vec<String>)
    ensures
        ascending_listing(components(desired@), strings(r@)),
{
    let mut urls: Vec<String> = Vec::new();
    let mut i: usize = 0;
    proof {
        assert(strings(urls@) =~= Seq::<Seq<char>>::empty());
        assert(components(desired@).take(0).to_set() =~= Set::<Seq<char>>::empty());
        assert(strings(urls@).to_set() =~= Set::<Seq<char>>::empty());
    }
    while i < desired.len()
        invariant
            i <= desired.len(),
            ascending_listing(components(desired@).take(i as int), strings(urls@)),
        decreases desired.len() - i,
    {
        let ghost prev = strings(urls@);
        let ghost x = desired@[i as int].component@;
        proof {
            assert(components(desired@).take(i + 1) =~= components(desired@).take(i as int).push(x));
            components(desired@).take(i as int).lemma_push_to_set_commute(x);
        }
        if !contains_name(&urls, desired[i].component.as_str()) {
            let name = chars_of(desired[i].component.as_str());
            let mut j: usize = 0;
            while j < urls.len()
                invariant
                    j <= urls@.len(),
                    strings(urls@) == prev,
                    name@ == x,
                    forall|k: int| 0 <= k < j ==> text_lt(prev[k], x),
                ensures
                    j <= urls@.len(),
                    strings(urls@) == prev,
                    forall|k: int| 0 <= k < j ==> text_lt(prev[k], x),
                    j < urls@.len() ==> !text_lt(prev[j as int], x),
                decreases urls.len() - j,
            {
                let here = chars_of(urls[j].as_str());
                proof {
                    assert(prev[j as int] == urls@[j as int]@);
                }
                if !text_less(&here, &name) {
                    break;
                }
                j = j + 1;
            }
            proof {
                if j < prev.len() {
                    lemma_text_total(prev[j as int], x);
                    assert(prev[j as int] != x) by {
                        assert(prev.contains(prev[j as int]));
                    }
                }
            }
            urls.insert(j, desired[i].component.clone());
            proof {
                let now = strings(urls@);
                assert(now =~= prev.insert(j as int, x));
                assert forall|k: int| 0 <= k < now.len() - 1 implies text_lt(#[trigger] now[k], now[k + 1]) by {
                    if k < j - 1 {
                        assert(now[k] == prev[k] && now[k + 1] == prev[k + 1]);
                    } else if k == j - 1 {
                        assert(now[k] == prev[k] && now[k + 1] == x);
                    } else if k == j {
                        assert(now[k] == x && now[k + 1] == prev[k]);
                    } else {
                        assert(now[k] == prev[k - 1] && now[k + 1] == prev[k]);
                    }
                }
                assert forall|a: int, b: int| 0 <= a < b < now.len() implies now[a] != now[b] by {
                    if a != j && b != j {
                        let a1 = if a < j { a } else { a - 1 };
                        let b1 = if b < j { b } else { b - 1 };
                        assert(now[a] == prev[a1] && now[b] == prev[b1]);
                    } else if a == j {
                        let b1 = b - 1;
                        assert(now[b] == prev[b1]);
                        assert(prev.contains(prev[b1]));
                    } else {
                        assert(now[a] == prev[a]);
                        assert(prev.contains(prev[a]));
                    }
                }
                assert(now.to_set() =~= prev.to_set().insert(x)) by {
                    assert forall|m: Seq<char>| now.to_set().contains(m) == prev.to_set().insert(x).contains(m) by {
                        if now.contains(m) {
                            let k = choose|k: int| 0 <= k < now.len() && now[k] == m;
                            if k < j {
                                assert(prev[k] == m);
                            } else if k > j {
                                assert(prev[k - 1] == m);
                            }
                        }
                        if prev.contains(m) {
                            let k = choose|k: int| 0 <= k < prev.len() && prev[k] == m;
                            if k < j {
                                assert(now[k] == m);
                            } else {
                                assert(now[k + 1] == m);
                            }
                        }
                        if m == x {
                            assert(now[j as int] == x);
                        }
                    }
                }
            }
        } else {
            proof {
                assert(prev.to_set() =~= prev.to_set().insert(x)) by {
                    assert(prev.contains(x));
                }
            }
        }
        i = i + 1;
    }
    proof {
        assert(components(desired@).take(desired@.len() as int) =~= components(desired@));
    }
    urls
}


proof fn lemma_stale_inside<G: ModuleGraph>(g: &G, declined: Set<Seq<char>>, accepted: Set<Seq<char>>, entries: Seq<Seq<char>>)
    ensures
        forall|m: Seq<char>| #[trigger] stale_entries(g, declined, accepted, entries).contains(m) ==> entries.contains(m),
    decreases entries.len(),
{
    if entries.len() > 0 {
        let tree = dependency_tree(g, declined, entries[0]);
        lemma_stale_inside(g, declined, accepted.union(tree), entries.drop_first());
        lemma_stale_inside(g, declined, accepted, entries.drop_first());
        assert forall|m: Seq<char>| #[trigger] stale_entries(g, declined, accepted, entries).contains(m) implies entries.contains(m) by {
            let rest_a = stale_entries(g, declined, accepted.union(tree), entries.drop_first());
            let rest_b = stale_entries(g, declined, accepted, entries.drop_first());
            let st = stale_entries(g, declined, accepted, entries);
            let j = choose|j: int| 0 <= j < st.len() && st[j] == m;
            if meets(tree, accepted) {
                if j == 0 {
                    assert(entries[0] == m);
                } else {
                    assert(rest_a[j - 1] == m);
                    assert(rest_a.contains(m));
                    let k = choose|k: int| 0 <= k < entries.drop_first().len() && entries.drop_first()[k] == m;
                    assert(entries[k + 1] == m);
                }
            } else {
                assert(rest_b.contains(m));
                let k = choose|k: int| 0 <= k < entries.drop_first().len() && entries.drop_first()[k] == m;
                assert(entries[k + 1] == m);
            }
        }
    }
}

proof fn lemma_nothing_stale<G: ModuleGraph>(g: &G, declined: Set<Seq<char>>, entries: Seq<Seq<char>>)
    ensures
        stale_entries(g, declined, Set::empty(), entries).len() == 0,
    decreases entries.len(),
{
    if entries.len() > 0 {
        lemma_nothing_stale(g, declined, entries.drop_first());
    }
}

/// The entry `e` is of a stale component and its live fiber ended failed.
pub open spec fn rebuilt_failed(loader: Loader, stale: Seq<Seq<char>>, e: Entry) -> bool {
    &&& stale.contains(e.component@)
    &&& loader.live_fiber(e.id@) is Some
    &&& loader.live_fiber(e.id@)->0.state.spec_error() is Some
}

/// How the new version of a module is loaded: the reloaded component, or
/// why it could not be had.
pub trait ModuleLoader {
    /// Loads the new version of module `url`.
    fn load(&self, url: &str) -> Result<Box<dyn Component>, String>;
}

/// Why a reload was rolled back.
#[derive(Debug)]
pub enum ReloadError {
    /// The new version of a module could not be loaded.
    Load {
        /// The module.
        url: String,
        /// The loader's reason.
        message: String,
    },
    /// The reconciliation with the new modules reported an orchestration
    /// error (validation, provision clash, unknown component).
    Rejected,
    /// A rebuilt entry's fiber failed.
    Failed {
        /// The entry.
        entry_id: String,
    },
}

/// The transactional reload engine: owns the loader it reloads.
pub struct Hmr {
    loader: Loader,
    modules: Box<dyn ModuleLoader>,
}

/// The revision an entry gets from a bump by `by`: raised by `by` (capped
/// at the largest revision) when its component is stale, else kept.
pub open spec fn bumped_revision(d: Entry, stale: Seq<Seq<char>>, by: u64) -> u64 {
    if stale.contains(d.component@) {
        if d.revision + by > u64::MAX {
            u64::MAX
        } else {
            (d.revision + by) as u64
        }
    } else {
        d.revision
    }
}

/// `b` is `d` after a bump by `by`: the same entry but for its revision.
pub open spec fn bumped_entry(d: Entry, stale: Seq<Seq<char>>, by: u64, b: Entry) -> bool {
    &&& b.id@ == d.id@
    &&& b.component@ == d.component@
    &&& b.config@ == d.config@
    &&& b.disabled == d.disabled
    &&& b.children@.len() == d.children@.len()
    &&& iso_pairs(b.isolate@) == iso_pairs(d.isolate@)
    &&& b.intercept@ == d.intercept@
    &&& b.inject@ == d.inject@
    &&& b.revision == bumped_revision(d, stale, by)
}

/// A bump rebuilds: the entry of a stale component gets a revision other
/// than its desired one (so the loaded entry, at the desired revision, is
/// rebuilt), and a larger bump (the rollback's) a revision other than the
/// smaller one's (so the entry rebuilt by the failed attempt is rebuilt
/// again); an entry of another component keeps its revision.
pub proof fn law_bump_rebuilds(d: Entry, stale: Seq<Seq<char>>, by1: u64, by2: u64)
    requires
        0 < by1 < by2,
        d.revision + by2 <= u64::MAX,
    ensures
        stale.contains(d.component@) ==> bumped_revision(d, stale, by1) != d.revision
            && bumped_revision(d, stale, by2) != bumped_revision(d, stale, by1)
            && bumped_revision(d, stale, by1) > d.revision,
        !stale.contains(d.component@) ==> bumped_revision(d, stale, by1) == d.revision,
{
}

/// `desired` with the revision of every entry of a stale component raised
/// by `by` (a new revision rebuilds the entry).
fn bump(desired: &Vec<Entry>, stale: &Vec<String>, by: u64) -> (r: Vec<Entry>)
    ensures
        r@.len() == desired@.len(),
        forall|i: int| 0 <= i < r@.len() ==> (#[trigger] r@[i]).id@ == desired@[i].id@ && r@[i].component@ == desired@[i].component@,
        forall|i: int| 0 <= i < r@.len() ==> bumped_entry(desired@[i], strings(stale@), by, #[trigger] r@[i]),
{
    let mut out: Vec<Entry> = Vec::new();
    let mut i: usize = 0;
    while i < desired.len()
        invariant
            i <= desired.len(),
            out@.len() == i,
            forall|j: int| 0 <= j < i ==> (#[trigger] out@[j]).id@ == desired@[j].id@ && out@[j].component@ == desired@[j].component@,
            forall|j: int| 0 <= j < i ==> bumped_entry(desired@[j], strings(stale@), by, #[trigger] out@[j]),
        decreases desired.len() - i,
    {
        let mut e = desired[i].duplicate();
        if contains_name(stale, e.component.as_str()) {
            e.revision = e.revision.saturating_add(by);
        }
        out.push(e);
        i = i + 1;
    }
    out
}

impl Hmr {
    /// A reload engine over `loader`, loading new module versions with
    /// `modules`.
    pub fn new(loader: Loader, modules: Box<dyn ModuleLoader>) -> (r: Hmr)
        ensures
            r.spec_loader() == loader,
    {
        Hmr { loader, modules }
    }

    /// The loader being reloaded.
    pub closed spec fn spec_loader(&self) -> Loader {
        self.loader
    }

    /// The loader.
    pub fn loader(&self) -> (r: &Loader)
        ensures
            *r == self.spec_loader(),
    {
        &self.loader
    }

    /// The loader, for operations outside a reload.
    pub fn loader_mut(&mut self) -> (r: &mut Loader)
        ensures
            *r == old(self).spec_loader(),
            final(self).spec_loader() == *final(r),
    {
        &mut self.loader
    }

    /// Transactional module reload: classifies the modules (`stashed`
    /// changed, `externals` not hot-replaceable), finds the stale
    /// components among those of `desired`, and rebuilds their entries from
    /// the reloaded modules; the other entries are untouched. On any failure
    /// (a module that cannot be loaded, an orchestration error, a rebuilt
    /// fiber that fails) the previous components are registered again and
    /// the stale entries rebuilt from them before the error is returned.
    /// Returns the stale components.
    pub fn reload<G: ModuleGraph>(
        &mut self,
        stashed: &Vec<String>,
        externals: &Vec<String>,
        graph: &G,
        desired: &Vec<Entry>,
    ) -> (r: Result<Vec<String>, ReloadError>)
        ensures
            r matches Ok(v) ==> exists|a: Seq<Seq<char>>, d: Seq<Seq<char>>, u: Seq<Seq<char>>|
                #[trigger] classified(graph, strings(stashed@), strings(externals@), a, d)
                && #[trigger] ascending_listing(components(desired@), u)
                && strings(v@) == stale_entries(graph, d.to_set(), a.to_set(), u),
            r matches Err(ReloadError::Load { url, .. }) ==> components(desired@).contains(url@),
            stashed@.len() == 0 ==> (r matches Ok(v) && v@.len() == 0) && *final(self) == *old(self),
            (forall|u: Seq<Seq<char>>| #[trigger] ascending_listing(components(desired@), u) ==> stale_entries(
                graph,
                declined_set(graph, strings(stashed@), strings(externals@)),
                accepted_set(graph, strings(stashed@), strings(externals@)),
                u,
            ).len() == 0) ==> (r matches Ok(v) && v@.len() == 0) && *final(self) == *old(self),
            r matches Ok(v) ==> forall|n: Seq<char>| !strings(v@).contains(n)
                ==> #[trigger] final(self).spec_loader().registered(n) == old(self).spec_loader().registered(n),
            r is Err ==> forall|n: Seq<char>| old(self).spec_loader().registered(n) is Some
                ==> #[trigger] final(self).spec_loader().registered(n) == old(self).spec_loader().registered(n),
    {
        let ghost prior = |n: Seq<char>| self.loader.registered(n);
        let c = classify(stashed, externals, graph);
        let urls = entry_urls(desired);
        let stale = detect(&urls, &c, graph);
        let ghost dset = strings(c.declined@).to_set();
        let ghost aset = strings(c.accepted@).to_set();
        proof {
            assert(classified(graph, strings(stashed@), strings(externals@), strings(c.accepted@), strings(c.declined@)));
            lemma_stale_inside(graph, dset, aset, strings(urls@));
            assert(aset =~= accepted_set(graph, strings(stashed@), strings(externals@)));
            assert(dset =~= declined_set(graph, strings(stashed@), strings(externals@)));
            assert forall|m: Seq<char>| strings(urls@).contains(m) implies components(desired@).contains(m) by {
                assert(strings(urls@).to_set().contains(m));
                assert(components(desired@).to_set().contains(m));
            }
            if stashed@.len() == 0 {
                assert(aset =~= Set::<Seq<char>>::empty()) by {
                    assert forall|m: Seq<char>| !aset.contains(m) by {
                        if strings(c.accepted@).contains(m) {
                            assert(accepted_by(graph, strings(stashed@), strings(externals@), m));
                            if explored(graph, strings(stashed@), strings(externals@), m) {
                                let p = choose|p: Seq<Seq<char>>| #[trigger] explore_path(graph, strings(stashed@), strings(externals@), p) && p.last() == m;
                                assert(strings(stashed@).contains(p[0]));
                            }
                        }
                    }
                }
                lemma_nothing_stale(graph, dset, strings(urls@));
            }
        }
        if stale.len() == 0 {
            return Ok(stale);
        }
        let mut backup: Vec<(String, usize)> = Vec::new();
        let mut i: usize = 0;
        while i < stale.len()
            invariant
                i <= stale.len(),
                forall|n: Seq<char>| #[trigger] prior(n) == self.loader.registered(n),
                forall|j: int| 0 <= j < backup@.len() ==> prior((#[trigger] backup@[j]).0@) == Some(backup@[j].1)
                    && strings(stale@).contains(backup@[j].0@),
                forall|k: int| 0 <= k < i && prior(#[trigger] stale@[k]@) is Some
                    ==> exists|j: int| 0 <= j < backup@.len() && backup@[j].0@ == stale@[k]@,
            decreases stale.len() - i,
        {
            proof {
                assert(strings(stale@)[i as int] == stale@[i as int]@);
            }
            let ghost before = backup@;
            match self.loader.component_of(stale[i].as_str()) {
                Some(previous) => {
                    backup.push((stale[i].clone(), previous));
                    proof {
                        assert(backup@[backup@.len() - 1].0@ == stale@[i as int]@);
                    }
                },
                None => {},
            }
            proof {
                assert forall|k: int| 0 <= k < i + 1 && prior(#[trigger] stale@[k]@) is Some
                    implies exists|j: int| 0 <= j < backup@.len() && backup@[j].0@ == stale@[k]@ by {
                    if k < i {
                        let j = choose|j: int| 0 <= j < before.len() && before[j].0@ == stale@[k]@;
                        assert(backup@[j] == before[j]);
                    } else {
                        assert(backup@[backup@.len() - 1].0@ == stale@[i as int]@);
                    }
                }
            }
            i = i + 1;
        }
        match self.try_reload(&stale, desired) {
            Ok(()) => Ok(stale),
            Err(e) => {
                self.rollback(&backup, &stale, desired, Ghost(prior));
                proof {
                    assert forall|n: Seq<char>| prior(n) is Some implies #[trigger] self.loader.registered(n) == prior(n) by {
                        if strings(stale@).contains(n) {
                            let k = choose|k: int| 0 <= k < strings(stale@).len() && strings(stale@)[k] == n;
                            assert(stale@[k]@ == n);
                            assert(prior(stale@[k]@) is Some);
                        } else {
                            if exists|j: int| 0 <= j < backup@.len() && backup@[j].0@ == n {
                                let j = choose|j: int| 0 <= j < backup@.len() && backup@[j].0@ == n;
                                assert(strings(stale@).contains(backup@[j].0@));
                            }
                        }
                    }
                }
                proof {
                    match &e {
                        ReloadError::Load { url, .. } => {
                            assert(strings(stale@).contains(url@));
                            assert(strings(urls@).contains(url@));
                        },
                        _ => {},
                    }
                }
                Err(e)
            },
        }
    }

    /// Loads the new versions of the stale modules and rebuilds their
    /// entries; reports the first failure.
    fn try_reload(&mut self, stale: &Vec<String>, desired: &Vec<Entry>) -> (r: Result<(), ReloadError>)
        ensures
            r matches Err(ReloadError::Load { url, .. }) ==> strings(stale@).contains(url@),
            forall|n: Seq<char>| !strings(stale@).contains(n)
                ==> #[trigger] final(self).loader.registered(n) == old(self).loader.registered(n),
            !(r matches Err(ReloadError::Load { .. })) ==> forall|n: Seq<char>| strings(stale@).contains(n)
                ==> (#[trigger] final(self).loader.registered(n)) is Some,
    {
        let mut i: usize = 0;
        while i < stale.len()
            invariant
                i <= stale.len(),
                forall|n: Seq<char>| !strings(stale@).contains(n)
                    ==> #[trigger] self.loader.registered(n) == old(self).loader.registered(n),
                forall|t: int| 0 <= t < i ==> (#[trigger] self.loader.registered(stale@[t]@)) is Some,
            decreases stale.len() - i,
        {
            proof {
                assert(strings(stale@)[i as int] == stale@[i as int]@);
            }
            match self.modules.load(stale[i].as_str()) {
                Ok(component) => {
                    self.loader.register_component(stale[i].clone(), component);
                },
                Err(message) => {
                    proof {
                        assert(strings(stale@)[i as int] == stale@[i as int]@);
                    }
                    return Err(ReloadError::Load { url: stale[i].clone(), message });
                },
            }
            i = i + 1;
        }
        proof {
            assert forall|n: Seq<char>| strings(stale@).contains(n) implies (#[trigger] self.loader.registered(n)) is Some by {
                let t = choose|t: int| 0 <= t < strings(stale@).len() && strings(stale@)[t] == n;
                assert(strings(stale@)[t] == stale@[t]@);
            }
        }
        let bumped = bump(desired, stale, 1);
        let report = self.loader.apply(&bumped);
        self.verdict(&report, stale, &bumped)
    }

    /// The verdict on a reload attempt, given the report of the apply of
    /// the bumped entries: `Rejected` exactly when the report holds an
    /// orchestration failure; otherwise `Failed` for the first rebuilt
    /// entry (of a stale component) whose fiber ended failed, else success.
    pub fn verdict(&self, report: &ApplyReport, stale: &Vec<String>, bumped: &Vec<Entry>) -> (r: Result<(), ReloadError>)
        ensures
            r matches Err(ReloadError::Rejected) <==> !no_failure(report.outcomes@),
            r is Ok || r matches Err(ReloadError::Rejected) || r matches Err(ReloadError::Failed { .. }),
            no_failure(report.outcomes@) ==> (r is Ok <==> forall|j: int| 0 <= j < bumped@.len()
                ==> !#[trigger] rebuilt_failed(self.spec_loader(), strings(stale@), bumped@[j])),
            r matches Err(ReloadError::Failed { entry_id }) ==> exists|j: int| 0 <= j < bumped@.len()
                && #[trigger] rebuilt_failed(self.spec_loader(), strings(stale@), bumped@[j])
                && entry_id@ == bumped@[j].id@
                && forall|j2: int| 0 <= j2 < j ==> !rebuilt_failed(self.spec_loader(), strings(stale@), bumped@[j2]),
    {
        let mut k: usize = 0;
        while k < report.outcomes.len()
            invariant
                k <= report.outcomes@.len(),
                forall|k2: int| 0 <= k2 < k ==> !(#[trigger] report.outcomes@[k2] is Failed),
            decreases report.outcomes.len() - k,
        {
            match &report.outcomes[k] {
                EntryOutcome::Failed(_) => return Err(ReloadError::Rejected),
                _ => {},
            }
            k = k + 1;
        }
        let mut j: usize = 0;
        while j < bumped.len()
            invariant
                j <= bumped@.len(),
                no_failure(report.outcomes@),
                forall|j2: int| 0 <= j2 < j ==> !#[trigger] rebuilt_failed(self.spec_loader(), strings(stale@), bumped@[j2]),
            decreases bumped.len() - j,
        {
            let stale_one = contains_name(stale, bumped[j].component.as_str());
            if stale_one {
                match self.loader.fiber(bumped[j].id.as_str()) {
                    Some(f) => {
                        if f.state().is_failed() {
                            proof {
                                assert(rebuilt_failed(self.spec_loader(), strings(stale@), bumped@[j as int]));
                            }
                            return Err(ReloadError::Failed { entry_id: bumped[j].id.clone() });
                        }
                        proof {
                            assert(f.state.spec_error() is None);
                        }
                    },
                    None => {},
                }
            }
            proof {
                assert(!rebuilt_failed(self.spec_loader(), strings(stale@), bumped@[j as int]));
            }
            j = j + 1;
        }
        Ok(())
    }

    /// Registers the previous components again and rebuilds the stale
    /// entries from them (a revision beyond the failed attempt's).
    fn rollback(
        &mut self,
        backup: &Vec<(String, usize)>,
        stale: &Vec<String>,
        desired: &Vec<Entry>,
        Ghost(prior): Ghost<spec_fn(Seq<char>) -> Option<usize>>,
    )
        requires
            forall|j: int| 0 <= j < backup@.len() ==> prior((#[trigger] backup@[j]).0@) == Some(backup@[j].1),
        ensures
            forall|n: Seq<char>| (exists|j: int| 0 <= j < backup@.len() && backup@[j].0@ == n)
                ==> #[trigger] final(self).loader.registered(n) == prior(n),
            forall|n: Seq<char>| !(exists|j: int| 0 <= j < backup@.len() && backup@[j].0@ == n)
                ==> #[trigger] final(self).loader.registered(n) == old(self).loader.registered(n),
    {
        let mut i: usize = 0;
        while i < backup.len()
            invariant
                i <= backup.len(),
                forall|j: int| 0 <= j < backup@.len() ==> prior((#[trigger] backup@[j]).0@) == Some(backup@[j].1),
                forall|n: Seq<char>| (exists|j: int| 0 <= j < i && backup@[j].0@ == n)
                    ==> #[trigger] self.loader.registered(n) == prior(n),
                forall|n: Seq<char>| !(exists|j: int| 0 <= j < i && backup@[j].0@ == n)
                    ==> #[trigger] self.loader.registered(n) == old(self).loader.registered(n),
            decreases backup.len() - i,
        {
            proof {
                assert(prior(backup@[i as int].0@) == Some(backup@[i as int].1));
            }
            self.loader.bind_component(backup[i].0.clone(), backup[i].1);
            i = i + 1;
        }
        let rolled = bump(desired, stale, 2);
        let _ = self.loader.apply(&rolled);
    }
}

} // verus!
