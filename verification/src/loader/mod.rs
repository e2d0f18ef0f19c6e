//! The declarative loader: the orchestrator describes the desired
//! composition as a tree of entries; the loader turns each change of
//! that description into the corresponding fiber operations.
//!
//! Per-field dispatch: a new entry is instantiated, a vanished one is torn
//! down (retired, unloaded, removed), `disabled` unloads / reloads, a change
//! of `component` or `revision` rebuilds, a change of `isolate` reassigns
//! realms in place, a change of `intercept` is applied in
//! place. A branch (a group or a grafted subtree) reconciles its children by id, and
//! each level first releases what it drops, then instantiates — so one
//! reconciliation can replace a provider of a key by another.

pub mod config;
pub mod patch;
pub mod report;

use vstd::prelude::*;
use vstd::string::*;

use crate::component::{Component, Effects};
use crate::context::InterceptMeta;
use crate::effect::{noop, once, Disposer};
use crate::env::{fiber_pos, Context, Env};
use crate::fiber::{copy_of, Fiber, FiberId, FiberState};
use crate::keyset::{names, KeySet};
use crate::runtime::{RegistryError, Runtime};
use crate::symbol::Symbol;
use crate::value::{KeyValue, Value, ValueModel};

use self::config::{first_cast, has_cast, Config};
use self::report::{ApplyReport, EntryError, EntryErrorKind, EntryOutcome};

verus! {

/// An isolation annotation: `Local` = a realm private to the entry (tagged
/// by its id), `Global(name)` = a realm shared by every entry naming it.
#[derive(Debug)]
pub enum IsolateAnnotation {
    /// A local realm.
    Local,
    /// A global realm shared under a name.
    Global(String),
}

/// The mathematical content of an [`IsolateAnnotation`].
pub enum IsolateModel {
    Local,
    Global(Seq<char>),
}

impl View for IsolateAnnotation {
    type V = IsolateModel;

    open spec fn view(&self) -> IsolateModel {
        match self {
            IsolateAnnotation::Local => IsolateModel::Local,
            IsolateAnnotation::Global(s) => IsolateModel::Global(s@),
        }
    }
}

impl IsolateAnnotation {
    /// A copy of the annotation.
    pub fn duplicate(&self) -> (r: IsolateAnnotation)
        ensures
            r@ == self@,
    {
        match self {
            IsolateAnnotation::Local => IsolateAnnotation::Local,
            IsolateAnnotation::Global(s) => IsolateAnnotation::Global(s.clone()),
        }
    }

    /// Equality of annotations.
    pub fn same(&self, other: &IsolateAnnotation) -> (r: bool)
        ensures
            r == (self@ == other@),
    {
        match (self, other) {
            (IsolateAnnotation::Local, IsolateAnnotation::Local) => true,
            (IsolateAnnotation::Global(a), IsolateAnnotation::Global(b)) => {
                let r = *a == *b;
                proof {
                    if r {
                        assert(a@ == b@);
                    }
                }
                r
            },
            _ => false,
        }
    }
}

/// The realm of `key` under an isolation annotation of entry `id`:
/// `local:{id}:{key}` or `global:{name}:{key}`.
pub open spec fn annotated_realm(iso: IsolateModel, id: Seq<char>, key: Seq<char>) -> Seq<char> {
    match iso {
        IsolateModel::Local => "local:"@ + id + ":"@ + key,
        IsolateModel::Global(name) => "global:"@ + name + ":"@ + key,
    }
}

/// The realm name of `key` under `iso` for entry `id`.
pub fn realm_name(iso: &IsolateAnnotation, id: &str, key: &Symbol) -> (r: Symbol)
    ensures
        r@ == annotated_realm(iso@, id@, key@),
{
    let mut s = String::new();
    match iso {
        IsolateAnnotation::Local => {
            s.append("local:");
            s.append(id);
        },
        IsolateAnnotation::Global(name) => {
            s.append("global:");
            s.append(name.as_str());
        },
    }
    s.append(":");
    s.append(key.as_str());
    Symbol::intern(s.as_str())
}

/// Interception annotations: key → metadata (the newest per key).
#[derive(Debug)]
pub struct Intercepts {
    entries: Vec<(Symbol, Value)>,
}

impl View for Intercepts {
    type V = Seq<(Seq<char>, crate::value::ValueModel)>;

    closed spec fn view(&self) -> Seq<(Seq<char>, crate::value::ValueModel)> {
        crate::env::meta_pairs(self.entries@)
    }
}

impl Intercepts {
    /// No annotation.
    pub fn new() -> (r: Intercepts)
        ensures
            r@.len() == 0,
    {
        let r = Intercepts { entries: Vec::new() };
        assert(r@ =~= Seq::<(Seq<char>, crate::value::ValueModel)>::empty());
        r
    }

    /// Sets the metadata at `key` (replacing any previous one).
    pub fn insert<M: InterceptMeta>(&mut self, key: Symbol, meta: M)
        ensures
            exists|v: crate::value::ValueModel| final(self)@ == upsert(old(self)@, key@, v),
    {
        let value = meta.to_value();
        let ghost v = value@;
        self.insert_value(key, value);
        proof {
            assert(final(self)@ == upsert(old(self)@, key@, v));
        }
    }

    /// Sets the encoded metadata at `key` (replacing any previous one).
    pub fn insert_value(&mut self, key: Symbol, meta: Value)
        ensures
            final(self)@ == upsert(old(self)@, key@, meta@),
    {
        let ghost before = self@;
        let ghost kv = key@;
        let ghost mv = meta@;
        let mut i: usize = 0;
        while i < self.entries.len()
            invariant
                i <= self.entries@.len(),
                self@ == before,
                before == old(self)@,
                kv == key@,
                mv == meta@,
                forall|t: int| 0 <= t < i ==> before[t].0 != kv,
            decreases self.entries.len() - i,
        {
            proof {
                assert(before[i as int].0 == self.entries@[i as int].0@);
            }
            if self.entries[i].0.same(&key) {
                proof {
                    lemma_key_pos(before, kv, i as int);
                }
                let _ = self.entries.remove(i);
                self.entries.insert(i, (key, meta));
                proof {
                    assert(self@ =~= before.update(i as int, (kv, mv)));
                }
                return;
            }
            i = i + 1;
        }
        proof {
            lemma_key_pos(before, kv, before.len() as int);
        }
        self.entries.push((key, meta));
        proof {
            assert(self@ =~= before.push((kv, mv)));
        }
    }

    /// Every `(key, metadata)` pair.
    pub fn iter(&self) -> (r: Vec<(Symbol, Value)>)
        ensures
            crate::env::meta_pairs(r@) == self@,
    {
        let mut out: Vec<(Symbol, Value)> = Vec::new();
        let mut i: usize = 0;
        while i < self.entries.len()
            invariant
                i <= self.entries.len(),
                out@.len() == i,
                forall|j: int| 0 <= j < i ==> (#[trigger] out@[j]).0@ == self.entries@[j].0@ && out@[j].1@ == self.entries@[j].1@,
            decreases self.entries.len() - i,
        {
            out.push((self.entries[i].0.clone(), self.entries[i].1.clone()));
            i = i + 1;
        }
        assert(crate::env::meta_pairs(out@) =~= self@);
        out
    }

    /// The annotated keys.
    pub fn keys(&self) -> (r: Vec<Symbol>)
        ensures
            r@.len() == self@.len(),
            forall|i: int| 0 <= i < r@.len() ==> (#[trigger] r@[i])@ == self@[i].0,
    {
        let mut out: Vec<Symbol> = Vec::new();
        let mut i: usize = 0;
        while i < self.entries.len()
            invariant
                i <= self.entries.len(),
                out@.len() == i,
                forall|j: int| 0 <= j < i ==> (#[trigger] out@[j])@ == self@[j].0,
            decreases self.entries.len() - i,
        {
            out.push(self.entries[i].0.clone());
            i = i + 1;
        }
        out
    }

    /// Whether there is no annotation.
    pub fn is_empty(&self) -> (r: bool)
        ensures
            r == (self@.len() == 0),
    {
        self.entries.len() == 0
    }

    /// Whether `key` is annotated.
    pub fn contains_key(&self, key: &Symbol) -> (r: bool)
        ensures
            r == exists|i: int| 0 <= i < self@.len() && self@[i].0 == key@,
    {
        let mut i: usize = 0;
        while i < self.entries.len()
            invariant
                i <= self.entries.len(),
                forall|j: int| 0 <= j < i ==> self@[j].0 != key@,
            decreases self.entries.len() - i,
        {
            assert(self@[i as int].0 == self.entries@[i as int].0@);
            if self.entries[i].0.same(key) {
                return true;
            }
            i = i + 1;
        }
        false
    }

    /// Whether two annotation sets hold the same pairs in the same order.
    pub fn same(&self, other: &Intercepts) -> (r: bool)
        ensures
            r == (self@ == other@),
    {
        if self.entries.len() != other.entries.len() {
            proof {
                assert(self@.len() != other@.len());
            }
            return false;
        }
        let mut i: usize = 0;
        while i < self.entries.len()
            invariant
                i <= self.entries.len(),
                self.entries.len() == other.entries.len(),
                forall|t: int| 0 <= t < i ==> self@[t] == other@[t],
            decreases self.entries.len() - i,
        {
            if !self.entries[i].0.same(&other.entries[i].0) || !self.entries[i].1.same(&other.entries[i].1) {
                proof {
                    assert(self@[i as int] != other@[i as int]);
                }
                return false;
            }
            i = i + 1;
        }
        proof {
            assert(self@ =~= other@);
        }
        true
    }

    /// A copy.
    pub fn duplicate(&self) -> (r: Intercepts)
        ensures
            r@ == self@,
    {
        Intercepts { entries: self.iter() }
    }
}

/// A configuration entry: one fiber (a leaf) or a group of child entries
/// (a branch: a group or a grafted subtree).
#[derive(Debug)]
pub struct Entry {
    /// The stable id (the reconciliation key).
    pub id: String,
    /// The registered component name (empty for a branch); a change
    /// rebuilds the entry.
    pub component: String,
    /// Per-key isolation annotations (a branch's annotations are inherited
    /// by its children, whose own annotations take priority).
    pub isolate: Vec<(Symbol, IsolateAnnotation)>,
    /// Interception annotations (updated in place).
    pub intercept: Intercepts,
    /// Injected configuration (applied after `intercept`, shadowing it for
    /// the same key; a change needs a new revision).
    pub inject: Intercepts,
    /// The configuration the component is applied to.
    pub config: Value,
    /// The configuration revision: bump it when `config` changes.
    pub revision: u64,
    /// Administratively disabled.
    pub disabled: bool,
    /// Child entries (non-empty = a branch).
    pub children: Vec<Entry>,
}

/// Copies isolation annotations.
pub fn clone_isolate(v: &Vec<(Symbol, IsolateAnnotation)>) -> (r: Vec<(Symbol, IsolateAnnotation)>)
    ensures
        r@.len() == v@.len(),
        forall|i: int| 0 <= i < v@.len() ==> (#[trigger] r@[i]).0@ == v@[i].0@ && r@[i].1@ == v@[i].1@,
{
    let mut out: Vec<(Symbol, IsolateAnnotation)> = Vec::new();
    let mut i: usize = 0;
    while i < v.len()
        invariant
            i <= v.len(),
            out@.len() == i,
            forall|j: int| 0 <= j < i ==> (#[trigger] out@[j]).0@ == v@[j].0@ && out@[j].1@ == v@[j].1@,
        decreases v.len() - i,
    {
        out.push((v[i].0.clone(), v[i].1.duplicate()));
        i = i + 1;
    }
    out
}

/// Whether two isolation annotation lists are equal.
pub fn same_isolate(a: &Vec<(Symbol, IsolateAnnotation)>, b: &Vec<(Symbol, IsolateAnnotation)>) -> (r: bool)
    ensures
        r == (a@.len() == b@.len() && forall|i: int| 0 <= i < a@.len() ==> a@[i].0@ == b@[i].0@ && a@[i].1@ == b@[i].1@),
{
    if a.len() != b.len() {
        return false;
    }
    let mut i: usize = 0;
    while i < a.len()
        invariant
            i <= a.len(),
            a.len() == b.len(),
            forall|j: int| 0 <= j < i ==> a@[j].0@ == b@[j].0@ && a@[j].1@ == b@[j].1@,
        decreases a.len() - i,
    {
        if !a[i].0.same(&b[i].0) || !a[i].1.same(&b[i].1) {
            return false;
        }
        i = i + 1;
    }
    true
}

/// The position of the first pair keyed `k` (the length when there is
/// none).
pub open spec fn key_pos<V>(s: Seq<(Seq<char>, V)>, k: Seq<char>) -> int
    decreases s.len(),
{
    if s.len() == 0 {
        0
    } else if s[0].0 == k {
        0
    } else {
        1 + key_pos(s.drop_first(), k)
    }
}

/// With no pair keyed `k` before position `i`, the first one is at `i`.
pub proof fn lemma_key_pos<V>(s: Seq<(Seq<char>, V)>, k: Seq<char>, i: int)
    requires
        0 <= i <= s.len(),
        forall|j: int| 0 <= j < i ==> s[j].0 != k,
        i < s.len() ==> s[i].0 == k,
    ensures
        key_pos(s, k) == i,
    decreases i,
{
    if i > 0 {
        assert forall|j: int| 0 <= j < i - 1 implies s.drop_first()[j].0 != k by {
            assert(s.drop_first()[j] == s[j + 1]);
        }
        if i < s.len() {
            assert(s.drop_first()[i - 1] == s[i]);
        }
        lemma_key_pos(s.drop_first(), k, i - 1);
    }
}

/// `s` with the first pair keyed `k` replaced by `(k, v)`, or `(k, v)`
/// appended when there is none.
pub open spec fn upsert<V>(s: Seq<(Seq<char>, V)>, k: Seq<char>, v: V) -> Seq<(Seq<char>, V)> {
    if key_pos(s, k) < s.len() {
        s.update(key_pos(s, k), (k, v))
    } else {
        s.push((k, v))
    }
}

/// The views of isolation annotations.
pub open spec fn iso_pairs(v: Seq<(Symbol, IsolateAnnotation)>) -> Seq<(Seq<char>, IsolateModel)> {
    v.map_values(|p: (Symbol, IsolateAnnotation)| (p.0@, p.1@))
}

/// The annotation of `key` in an isolation list (the last one wins).
pub fn isolate_of<'a>(v: &'a Vec<(Symbol, IsolateAnnotation)>, key: &Symbol) -> (r: Option<&'a IsolateAnnotation>)
    ensures
        r is None <==> forall|j: int| 0 <= j < v@.len() ==> v@[j].0@ != key@,
        r matches Some(a) ==> exists|j: int| 0 <= j < v@.len() && v@[j].0@ == key@ && *a == v@[j].1
            && forall|t: int| j < t < v@.len() ==> v@[t].0@ != key@,
{
    let mut found: Option<&'a IsolateAnnotation> = None;
    let ghost mut at: int = -1;
    let mut i: usize = 0;
    while i < v.len()
        invariant
            i <= v@.len(),
            found is None <==> forall|j: int| 0 <= j < i ==> v@[j].0@ != key@,
            found matches Some(a) ==> 0 <= at < i && v@[at].0@ == key@ && *a == v@[at].1
                && forall|t: int| at < t < i ==> v@[t].0@ != key@,
        decreases v.len() - i,
    {
        if v[i].0.same(key) {
            found = Some(&v[i].1);
            proof { at = i as int; }
        }
        i = i + 1;
    }
    found
}

impl Entry {
    /// A leaf entry.
    pub fn new(id: String, component: String, config: Value, revision: u64, disabled: bool) -> (r: Entry)
        ensures
            r.id@ == id@,
            r.component@ == component@,
            r.config@ == config@,
            r.revision == revision,
            r.disabled == disabled,
            r.isolate@.len() == 0,
            r.intercept@.len() == 0,
            r.inject@.len() == 0,
            r.children@.len() == 0,
    {
        Entry {
            id,
            component,
            isolate: Vec::new(),
            intercept: Intercepts::new(),
            inject: Intercepts::new(),
            config,
            revision,
            disabled,
            children: Vec::new(),
        }
    }

    /// A branch entry: a group of child entries (reconciled by id).
    pub fn group(id: String, children: Vec<Entry>) -> (r: Entry)
        ensures
            r.id@ == id@,
            r.component@.len() == 0,
            r.children@ == children@,
            r.revision == 0,
            !r.disabled,
            r.isolate@.len() == 0,
            r.intercept@.len() == 0,
            r.inject@.len() == 0,
            r.config@ == ValueModel::Flag(false),
    {
        Entry {
            id,
            component: String::new(),
            isolate: Vec::new(),
            intercept: Intercepts::new(),
            inject: Intercepts::new(),
            config: Value::Flag(false),
            revision: 0,
            disabled: false,
            children,
        }
    }

    /// A branch entry grafting externally described children (the same
    /// structure as a group).
    pub fn graft(id: String, children: Vec<Entry>) -> (r: Entry)
        ensures
            r.id@ == id@,
            r.component@.len() == 0,
            r.children@ == children@,
            r.revision == 0,
            !r.disabled,
            r.isolate@.len() == 0,
            r.intercept@.len() == 0,
            r.inject@.len() == 0,
            r.config@ == ValueModel::Flag(false),
    {
        Entry::group(id, children)
    }

    /// Annotates `key` with an isolation.
    pub fn with_isolate(self, key: Symbol, isolate: IsolateAnnotation) -> (r: Entry)
        ensures
            r.id == self.id,
            r.children == self.children,
            r.component == self.component,
            r.config == self.config,
            r.revision == self.revision,
            r.disabled == self.disabled,
            r.intercept == self.intercept,
            r.inject == self.inject,
            r.isolate@.len() >= self.isolate@.len(),
            iso_pairs(r.isolate@) == upsert(iso_pairs(self.isolate@), key@, isolate@),
    {
        let mut e = self;
        let ghost before = iso_pairs(e.isolate@);
        let mut i: usize = 0;
        let mut found: Option<usize> = None;
        while i < e.isolate.len() && found.is_none()
            invariant
                i <= e.isolate.len(),
                e.isolate@ == self.isolate@,
                found matches Some(j) ==> j < e.isolate.len() && e.isolate@[j as int].0@ == key@
                    && forall|t: int| 0 <= t < j ==> e.isolate@[t].0@ != key@,
                found is None ==> forall|t: int| 0 <= t < i ==> e.isolate@[t].0@ != key@,
            decreases e.isolate.len() - i,
        {
            if e.isolate[i].0.same(&key) {
                found = Some(i);
            }
            i = i + 1;
        }
        match found {
            Some(j) => {
                proof {
                    lemma_key_pos(before, key@, j as int);
                }
                let ghost kv = key@;
                let ghost iv = isolate@;
                e.isolate.set(j, (key, isolate));
                proof {
                    assert(iso_pairs(e.isolate@) =~= before.update(j as int, (kv, iv)));
                }
                return e;
            },
            None => {},
        }
        proof {
            lemma_key_pos(before, key@, before.len() as int);
        }
        let ghost kv = key@;
        let ghost iv = isolate@;
        e.isolate.push((key, isolate));
        proof {
            assert(iso_pairs(e.isolate@) =~= before.push((kv, iv)));
        }
        e
    }

    /// Annotates `key` with interception metadata.
    pub fn with_intercept<M: InterceptMeta>(self, key: Symbol, meta: M) -> (r: Entry)
        ensures
            r.id == self.id,
            r.children == self.children,
            r.component == self.component,
            r.config == self.config,
            r.revision == self.revision,
            r.disabled == self.disabled,
            r.isolate == self.isolate,
            r.inject == self.inject,
            exists|v: crate::value::ValueModel| r.intercept@ == upsert(self.intercept@, key@, v),
    {
        let mut e = self;
        e.intercept.insert(key, meta);
        e
    }

    /// Injects configuration metadata at `key`.
    pub fn with_inject<M: InterceptMeta>(self, key: Symbol, meta: M) -> (r: Entry)
        ensures
            r.id == self.id,
            r.children == self.children,
            r.component == self.component,
            r.config == self.config,
            r.revision == self.revision,
            r.disabled == self.disabled,
            r.isolate == self.isolate,
            r.intercept == self.intercept,
            exists|v: crate::value::ValueModel| r.inject@ == upsert(self.inject@, key@, v),
    {
        let mut e = self;
        e.inject.insert(key, meta);
        e
    }

    /// Whether the entry is a branch.
    pub fn is_group(&self) -> (r: bool)
        ensures
            r == (self.children@.len() > 0),
    {
        self.children.len() > 0
    }

    /// A deep copy.
    pub fn duplicate(&self) -> (r: Entry)
        ensures
            r.id@ == self.id@,
            r.component@ == self.component@,
            r.config@ == self.config@,
            r.revision == self.revision,
            r.disabled == self.disabled,
            r.children@.len() == self.children@.len(),
            forall|j: int| 0 <= j < self.children@.len() ==> (#[trigger] r.children@[j]).id@ == self.children@[j].id@,
            iso_pairs(r.isolate@) == iso_pairs(self.isolate@),
            r.intercept@ == self.intercept@,
            r.inject@ == self.inject@,
        decreases self,
    {
        let mut children: Vec<Entry> = Vec::new();
        let mut i: usize = 0;
        while i < self.children.len()
            invariant
                i <= self.children.len(),
                children@.len() == i,
                forall|j: int| 0 <= j < i ==> (#[trigger] children@[j]).id@ == self.children@[j].id@,
            decreases self.children.len() - i,
        {
            assert(decreases_to!(self => self.children@[i as int]));
            children.push(self.children[i].duplicate());
            i = i + 1;
        }
        Entry {
            id: self.id.clone(),
            component: self.component.clone(),
            isolate: clone_isolate(&self.isolate),
            intercept: self.intercept.duplicate(),
            inject: self.inject.duplicate(),
            config: self.config.clone(),
            revision: self.revision,
            disabled: self.disabled,
            children,
        }
    }
}

impl Clone for Entry {
    fn clone(&self) -> (r: Self)
        ensures
            r.id@ == self.id@,
            r.component@ == self.component@,
            r.config@ == self.config@,
            r.revision == self.revision,
            r.disabled == self.disabled,
    {
        self.duplicate()
    }
}

} // verus!

verus! {

/// The runtime state of a loaded entry (with its subtree).
#[derive(Debug)]
struct LoadedEntry {
    id: String,
    component: String,
    config: Value,
    revision: u64,
    disabled: bool,
    isolate: Vec<(Symbol, IsolateAnnotation)>,
    intercept: Intercepts,
    ctx: Context,
    fiber: Option<FiberId>,
    children: Vec<LoadedEntry>,
}

/// The group holder: no dependencies, no provision, no effect; it is the
/// parent fiber of a group's children.
pub struct GroupHolder;

impl Component for GroupHolder {
    fn inject(&self) -> (r: KeySet)
        ensures
            r@ == Set::<Seq<char>>::empty(),
    {
        KeySet::new()
    }

    fn provide(&self) -> (r: KeySet)
        ensures
            r@ == Set::<Seq<char>>::empty(),
    {
        KeySet::new()
    }

    fn apply(&self, ctx: Context, config: &Value, env: &mut Env) -> (r: Effects)
        ensures
            *final(env) == *old(env),
    {
        Effects::new(Box::new(once(|e: &mut Env| noop())))
    }
}

/// How deep the loader descends into nested groups (one unit per level).
/// Entries nested deeper than this are outside what the loader reconciles:
/// the contracts of its tree functions are stated for this depth (a tree
/// that deep would exhaust the call stack of a recursive walk first).
pub const TREE_DEPTH: u64 = 1024;

/// The declarative loader: keeps the `id → fiber` map of the loaded tree and
/// reconciles configuration changes into the runtime incrementally.
pub struct Loader {
    runtime: Runtime,
    root: Context,
    names: Vec<(String, usize)>,
    configs: Vec<(String, Box<dyn Config>)>,
    entries: Vec<LoadedEntry>,
    holder: usize,
    update_hook: bool,
    retire_hook: bool,
    events: Ghost<Seq<LoadEvent>>,
}

/// An event of the loader's log: an entry torn down, or an entry's
/// component instantiated.
pub enum LoadEvent {
    TornDown(Seq<char>),
    Built(Seq<char>),
}

/// No other entry of `level` is named like the one at `t`.
spec fn unique_at(level: Seq<LoadedEntry>, t: int) -> bool {
    forall|t2: int| 0 <= t2 < level.len() && t2 != t ==> (#[trigger] level[t2]).id@ != level[t].id@
}

/// The loaded entry `l` must release what it provides before the level is
/// rebuilt: no desired entry has its id, or the last one that has it
/// disables it or names another component.
spec fn released(desired: Seq<Entry>, l: LoadedEntry) -> bool {
    forall|j: int| 0 <= j < desired.len() && (#[trigger] desired[j]).id@ == l.id@
        && (forall|t: int| j < t < desired.len() ==> desired[t].id@ != l.id@)
        ==> (!l.disabled && desired[j].disabled) || (!desired[j].disabled && l.component@ != desired[j].component@)
}

/// The entry `id` was torn down between positions `lo` and `hi` of the log.
pub open spec fn torn(ev: Seq<LoadEvent>, lo: int, hi: int, id: Seq<char>) -> bool {
    exists|k: int| lo <= k < hi && ev[k] == LoadEvent::TornDown(id)
}

/// Between positions `lo` and `p` of the log nothing was built, and every
/// uniquely named entry of `level` that must be released was torn down
/// there: the releases come before any instantiation.
spec fn released_first(ev: Seq<LoadEvent>, lo: int, p: int, level: Seq<LoadedEntry>, desired: Seq<Entry>) -> bool {
    &&& lo <= p <= ev.len()
    &&& forall|k: int| lo <= k < p ==> !(#[trigger] ev[k] is Built)
    &&& forall|t: int| 0 <= t < level.len() && unique_at(level, t) && released(desired, #[trigger] level[t])
        ==> torn(ev, lo, p, level[t].id@)
}

/// Releases come first: in the log of a reconciliation of a level, every
/// uniquely named loaded entry that must be released (its id no longer
/// desired, newly disabled, or given another component) was torn down
/// before any entry was instantiated.
proof fn law_release_before_build(
    ev: Seq<LoadEvent>,
    lo: int,
    p: int,
    level: Seq<LoadedEntry>,
    desired: Seq<Entry>,
    t: int,
    b: int,
)
    requires
        released_first(ev, lo, p, level, desired),
        0 <= t < level.len(),
        unique_at(level, t),
        released(desired, level[t]),
        lo <= b < ev.len(),
        ev[b] is Built,
    ensures
        exists|w: int| lo <= w < b && ev[w] == LoadEvent::TornDown(level[t].id@),
{
    let w = choose|w: int| lo <= w < p && ev[w] == LoadEvent::TornDown(level[t].id@);
    if b < p {
        assert(!(ev[b] is Built));
    }
    assert(lo <= w < b);
}

/// What the log showed up to `p` it still shows once more is logged.
proof fn lemma_released_first_ext(ev1: Seq<LoadEvent>, ev2: Seq<LoadEvent>, lo: int, p: int, level: Seq<LoadedEntry>, desired: Seq<Entry>)
    requires
        released_first(ev1, lo, p, level, desired),
        ev1.is_prefix_of(ev2),
        0 <= lo,
    ensures
        released_first(ev2, lo, p, level, desired),
{
    assert(p <= ev1.len());
    assert forall|k: int| 0 <= k < ev1.len() implies #[trigger] ev2[k] == ev1[k] by {
        assert(ev2.subrange(0, ev1.len() as int)[k] == ev2[k]);
    }
    assert forall|t: int| 0 <= t < level.len() && unique_at(level, t) && released(desired, #[trigger] level[t])
        implies torn(ev2, lo, p, level[t].id@) by {
        let w = choose|w: int| lo <= w < p && ev1[w] == LoadEvent::TornDown(level[t].id@);
        assert(ev2[w] == ev1[w]);
    }
    assert forall|k: int| lo <= k < p implies !(#[trigger] ev2[k] is Built) by {
        assert(ev2[k] == ev1[k]);
    }
}

/// `e` is an entry of `level`.
spec fn present(level: Seq<LoadedEntry>, e: LoadedEntry) -> bool {
    exists|pos: int| 0 <= pos < level.len() && level[pos] == e
}

/// Nothing was built from position `i` of the log on.
pub open spec fn builds_nothing(ev: Seq<LoadEvent>, i: int) -> bool {
    forall|k: int| i <= k < ev.len() ==> !(#[trigger] ev[k] is Built)
}

/// Prefixes of the log compose.
proof fn lemma_events_prefix(a: Seq<LoadEvent>, b: Seq<LoadEvent>, c: Seq<LoadEvent>)
    requires
        a.is_prefix_of(b),
        b.is_prefix_of(c),
    ensures
        a.is_prefix_of(c),
        forall|k: int| 0 <= k < a.len() ==> #[trigger] c[k] == a[k],
{
    assert(a =~= c.subrange(0, a.len() as int)) by {
        assert(a =~= b.subrange(0, a.len() as int));
        assert(b =~= c.subrange(0, b.len() as int));
    }
    assert forall|k: int| 0 <= k < a.len() implies #[trigger] c[k] == a[k] by {
        assert(c.subrange(0, a.len() as int)[k] == c[k]);
    }
}

/// The component registered under `name` in a resolution table: the
/// first listing of the name counts.
pub open spec fn lookup_name(s: Seq<(String, usize)>, name: Seq<char>) -> Option<usize>
    decreases s.len(),
{
    if s.len() == 0 {
        None
    } else if s[0].0@ == name {
        Some(s[0].1)
    } else {
        lookup_name(s.drop_first(), name)
    }
}

/// With no listing of `name` before position `i`, the lookup is decided at
/// `i` (or finds nothing when `i` is the end).
proof fn lemma_lookup_first(s: Seq<(String, usize)>, name: Seq<char>, i: int)
    requires
        0 <= i <= s.len(),
        forall|j: int| 0 <= j < i ==> s[j].0@ != name,
        i < s.len() ==> s[i].0@ == name,
    ensures
        lookup_name(s, name) == if i < s.len() { Some(s[i].1) } else { None },
    decreases i,
{
    if i > 0 {
        assert forall|j: int| 0 <= j < i - 1 implies s.drop_first()[j].0@ != name by {
            assert(s.drop_first()[j] == s[j + 1]);
        }
        if i < s.len() {
            assert(s.drop_first()[i - 1] == s[i]);
        }
        lemma_lookup_first(s.drop_first(), name, i - 1);
    }
}

/// Replacing the first listing of `name` rebinds `name` only.
proof fn lemma_lookup_update(s: Seq<(String, usize)>, name: Seq<char>, i: int, e: (String, usize))
    requires
        0 <= i < s.len(),
        forall|j: int| 0 <= j < i ==> s[j].0@ != name,
        s[i].0@ == name,
        e.0@ == name,
    ensures
        forall|n: Seq<char>| #[trigger] lookup_name(s.update(i, e), n) == if n == name {
            Some(e.1)
        } else {
            lookup_name(s, n)
        },
    decreases i,
{
    if i == 0 {
        assert forall|n: Seq<char>| #[trigger] lookup_name(s.update(i, e), n) == if n == name {
            Some(e.1)
        } else {
            lookup_name(s, n)
        } by {
            assert(s.update(0, e).drop_first() =~= s.drop_first());
            assert(s.update(0, e)[0] == e);
            assert(s.update(0, e).len() > 0);
        }
    } else {
        assert forall|j: int| 0 <= j < i - 1 implies s.drop_first()[j].0@ != name by {
            assert(s.drop_first()[j] == s[j + 1]);
        }
        lemma_lookup_update(s.drop_first(), name, i - 1, e);
        assert(s.update(i, e).drop_first() =~= s.drop_first().update(i - 1, e));
        assert forall|n: Seq<char>| #[trigger] lookup_name(s.update(i, e), n) == if n == name {
            Some(e.1)
        } else {
            lookup_name(s, n)
        } by {
            assert(s.update(i, e)[0] == s[0]);
            assert(s.update(i, e).len() > 0);
            assert(lookup_name(s.update(i, e).drop_first(), n) == lookup_name(s.drop_first().update(i - 1, e), n));
        }
    }
}

/// Appending a listing of a name not listed yet binds that name only.
proof fn lemma_lookup_push(s: Seq<(String, usize)>, name: Seq<char>, e: (String, usize))
    requires
        forall|j: int| 0 <= j < s.len() ==> s[j].0@ != name,
        e.0@ == name,
    ensures
        forall|n: Seq<char>| #[trigger] lookup_name(s.push(e), n) == if n == name {
            Some(e.1)
        } else {
            lookup_name(s, n)
        },
    decreases s.len(),
{
    if s.len() == 0 {
        assert forall|n: Seq<char>| #[trigger] lookup_name(s.push(e), n) == if n == name {
            Some(e.1)
        } else {
            lookup_name(s, n)
        } by {
            assert(s.push(e)[0] == e);
            assert(s.push(e).len() == 1);
            assert(s.push(e).drop_first().len() == 0);
            assert(lookup_name(s.push(e).drop_first(), n) is None);
            assert(lookup_name(s, n) is None);
        }
    } else {
        assert forall|j: int| 0 <= j < s.drop_first().len() implies s.drop_first()[j].0@ != name by {
            assert(s.drop_first()[j] == s[j + 1]);
        }
        lemma_lookup_push(s.drop_first(), name, e);
        assert(s.push(e).drop_first() =~= s.drop_first().push(e));
        assert forall|n: Seq<char>| #[trigger] lookup_name(s.push(e), n) == if n == name {
            Some(e.1)
        } else {
            lookup_name(s, n)
        } by {
            assert(s.push(e)[0] == s[0]);
            assert(s.push(e).len() > 0);
            assert(lookup_name(s.push(e).drop_first(), n) == lookup_name(s.drop_first().push(e), n));
        }
    }
}

/// The position of the loaded entry `id` in a level.
fn index_of(list: &Vec<LoadedEntry>, id: &String) -> (r: Option<usize>)
    ensures
        r matches Some(i) ==> i < list@.len() && list@[i as int].id@ == id@
            && forall|j: int| 0 <= j < i ==> list@[j].id@ != id@,
        r is None ==> forall|j: int| 0 <= j < list@.len() ==> list@[j].id@ != id@,
{
    let mut i: usize = 0;
    while i < list.len()
        invariant
            i <= list.len(),
            forall|j: int| 0 <= j < i ==> list@[j].id@ != id@,
        decreases list.len() - i,
    {
        if list[i].id == *id {
            return Some(i);
        }
        i = i + 1;
    }
    None
}

/// The last desired entry named `id` in a level (duplicate ids: last wins).
fn last_desired<'a>(desired: &'a Vec<Entry>, id: &String) -> (r: Option<&'a Entry>)
    ensures
        r is None <==> forall|j: int| 0 <= j < desired@.len() ==> desired@[j].id@ != id@,
        r matches Some(e) ==> exists|j: int| 0 <= j < desired@.len() && *e == desired@[j] && desired@[j].id@ == id@
            && forall|t: int| j < t < desired@.len() ==> desired@[t].id@ != id@,
{
    let mut found: Option<&'a Entry> = None;
    let ghost mut at: int = -1;
    let mut i: usize = 0;
    while i < desired.len()
        invariant
            i <= desired@.len(),
            found is None <==> forall|j: int| 0 <= j < i ==> desired@[j].id@ != id@,
            found matches Some(e) ==> 0 <= at < i && *e == desired@[at] && desired@[at].id@ == id@
                && forall|t: int| at < t < i ==> desired@[t].id@ != id@,
        decreases desired.len() - i,
    {
        if desired[i].id == *id {
            found = Some(&desired[i]);
            proof { at = i as int; }
        }
        i = i + 1;
    }
    found
}

/// The first entry of a level named `id`.
spec fn level_find(list: Seq<LoadedEntry>, id: Seq<char>) -> Option<LoadedEntry>
    decreases list.len(),
{
    if list.len() == 0 {
        None
    } else if list[0].id@ == id {
        Some(list[0])
    } else {
        level_find(list.drop_first(), id)
    }
}

/// The loaded entry `id` in a tree searched `depth` levels deep: the
/// entry of the level itself first, then each entry's subtree in order.
spec fn find_in(list: Seq<LoadedEntry>, id: Seq<char>, depth: nat) -> Option<LoadedEntry>
    decreases depth, list.len() + 1,
{
    match level_find(list, id) {
        Some(l) => Some(l),
        None => if depth == 0 {
            None
        } else {
            find_kids(list, id, (depth - 1) as nat)
        },
    }
}

/// The first subtree of `list` (each searched `depth` levels deep) that
/// holds the entry `id`.
spec fn find_kids(list: Seq<LoadedEntry>, id: Seq<char>, depth: nat) -> Option<LoadedEntry>
    decreases depth + 1, list.len(),
{
    if list.len() == 0 {
        None
    } else {
        match find_in(list[0].children@, id, depth) {
            Some(l) => Some(l),
            None => find_kids(list.drop_first(), id, depth),
        }
    }
}

/// The registry record of fiber `fid` in `rt` (the first one so named).
pub open spec fn record_in(rt: Runtime, fid: FiberId) -> Option<Fiber> {
    let s = rt.spec_env().spec_fibers();
    if exists|i: int| 0 <= i < s.len() && s[i].id == fid {
        Some(s[fiber_pos(s, fid)])
    } else {
        None
    }
}

/// The fiber reported by a configuration write-back to the entry `id`
/// in a tree searched `depth` levels deep: that of the first entry of the
/// level so named; else that of the first subtree that reports one.
spec fn set_result(list: Seq<LoadedEntry>, id: Seq<char>, depth: nat) -> Option<FiberId>
    decreases depth, list.len() + 1,
{
    match level_find(list, id) {
        Some(l) => l.fiber,
        None => if depth == 0 {
            None
        } else {
            kids_result(list, id, (depth - 1) as nat)
        },
    }
}

/// The first fiber reported by a write-back into the subtrees of `list`.
spec fn kids_result(list: Seq<LoadedEntry>, id: Seq<char>, depth: nat) -> Option<FiberId>
    decreases depth + 1, list.len(),
{
    if list.len() == 0 {
        None
    } else {
        match set_result(list[0].children@, id, depth) {
            Some(f) => Some(f),
            None => kids_result(list.drop_first(), id, depth),
        }
    }
}

/// The position of the first entry of a level named `id`.
spec fn level_pos(list: Seq<LoadedEntry>, id: Seq<char>, p: int) -> bool {
    &&& 0 <= p < list.len()
    &&& list[p].id@ == id
    &&& forall|t: int| 0 <= t < p ==> list[t].id@ != id
}

/// Whether some fiber of `fs` provides `key`.
spec fn provides_key(fs: Seq<Fiber>, key: Seq<char>) -> bool {
    exists|i: int| 0 <= i < fs.len() && fs[i].provide@.contains(key)
}

/// `i` is the registry position of the first fiber of `fs` providing `key`.
spec fn first_provider(fs: Seq<Fiber>, key: Seq<char>, i: int) -> bool {
    &&& 0 <= i < fs.len()
    &&& fs[i].provide@.contains(key)
    &&& forall|j: int| 0 <= j < i ==> !fs[j].provide@.contains(key)
}

/// The keys of `ps` that some fiber of `fs` already provides, in order.
spec fn clash_keys(fs: Seq<Fiber>, ps: Seq<Seq<char>>) -> Seq<Seq<char>>
    decreases ps.len(),
{
    if ps.len() == 0 {
        Seq::empty()
    } else if provides_key(fs, ps.last()) {
        clash_keys(fs, ps.drop_last()).push(ps.last())
    } else {
        clash_keys(fs, ps.drop_last())
    }
}

/// The first fiber providing the first key of `ps` that some fiber of `fs`
/// provides.
spec fn clash_owner(fs: Seq<Fiber>, ps: Seq<Seq<char>>) -> Option<FiberId>
    decreases ps.len(),
{
    if ps.len() == 0 {
        None
    } else {
        match clash_owner(fs, ps.drop_last()) {
            Some(f) => Some(f),
            None => if provides_key(fs, ps.last()) {
                Some(fs[choose|i: int| first_provider(fs, ps.last(), i)].id)
            } else {
                None
            },
        }
    }
}

/// `new` is `old` with the write-backs applied, `depth` levels deep: a
/// retired registered fiber marks its entry disabled (when `retire_back`),
/// a registered fiber's configuration becomes its entry's (when
/// `config_back`); everything else is kept.
spec fn synced(rt: Runtime, config_back: bool, retire_back: bool, old: LoadedEntry, new: LoadedEntry, depth: nat) -> bool
    decreases depth,
{
    let rec = match old.fiber {
        Some(f) => record_in(rt, f),
        None => None,
    };
    &&& new.id == old.id
    &&& new.component == old.component
    &&& new.revision == old.revision
    &&& new.isolate == old.isolate
    &&& new.intercept == old.intercept
    &&& new.ctx == old.ctx
    &&& new.fiber == old.fiber
    &&& new.disabled == (old.disabled || (retire_back && rec is Some && rec->0.retired))
    &&& (if config_back && rec is Some {
        new.config@ == rec->0.config@
    } else {
        new.config == old.config
    })
    &&& if depth == 0 {
        new.children == old.children
    } else {
        &&& new.children@.len() == old.children@.len()
        &&& forall|t: int| 0 <= t < old.children@.len() ==> synced(rt, config_back, retire_back, old.children@[t], #[trigger] new.children@[t], (depth - 1) as nat)
    }
}

/// Whether `k` is among the first `j` keys of `previous` and no key of
/// `desired`.
spec fn dropped_by(previous: Seq<(Seq<char>, ValueModel)>, j: int, desired: Seq<(Seq<char>, ValueModel)>, k: Seq<char>) -> bool {
    &&& exists|i: int| 0 <= i < j && previous[i].0 == k
    &&& !exists|t: int| 0 <= t < desired.len() && desired[t].0 == k
}

/// Keeps the metadata pairs whose key `dropped_by` does not hold of.
spec fn keep_fn(previous: Seq<(Seq<char>, ValueModel)>, j: int, desired: Seq<(Seq<char>, ValueModel)>) -> spec_fn((Seq<char>, ValueModel)) -> bool {
    |p: (Seq<char>, ValueModel)| !dropped_by(previous, j, desired, p.0)
}

/// One more key of `previous`, absent from `desired`, is dropped too.
proof fn lemma_keep_drop(previous: Seq<(Seq<char>, ValueModel)>, j: int, desired: Seq<(Seq<char>, ValueModel)>)
    requires
        0 <= j < previous.len(),
        !exists|t: int| 0 <= t < desired.len() && desired[t].0 == previous[j].0,
    ensures
        forall|p: (Seq<char>, ValueModel)| #[trigger] keep_fn(previous, j + 1, desired)(p) == (keep_fn(previous, j, desired)(p)
            && crate::env::other_key(previous[j].0)(p)),
{
    assert forall|p: (Seq<char>, ValueModel)| #[trigger] keep_fn(previous, j + 1, desired)(p) == (keep_fn(previous, j, desired)(p)
        && crate::env::other_key(previous[j].0)(p)) by {
        if dropped_by(previous, j + 1, desired, p.0) && !dropped_by(previous, j, desired, p.0) {
            let w = choose|w: int| 0 <= w < j + 1 && previous[w].0 == p.0;
            assert(w == j);
        }
    }
}

/// One more key of `previous` that `desired` keeps drops nothing more.
proof fn lemma_keep_same(previous: Seq<(Seq<char>, ValueModel)>, j: int, desired: Seq<(Seq<char>, ValueModel)>)
    requires
        0 <= j < previous.len(),
        exists|t: int| 0 <= t < desired.len() && desired[t].0 == previous[j].0,
    ensures
        forall|p: (Seq<char>, ValueModel)| #[trigger] keep_fn(previous, j + 1, desired)(p) == keep_fn(previous, j, desired)(p),
{
    assert forall|p: (Seq<char>, ValueModel)| #[trigger] keep_fn(previous, j + 1, desired)(p) == keep_fn(previous, j, desired)(p) by {
        if dropped_by(previous, j + 1, desired, p.0) && !dropped_by(previous, j, desired, p.0) {
            let w = choose|w: int| 0 <= w < j + 1 && previous[w].0 == p.0;
            assert(w == j);
        }
    }
}

/// Nothing is dropped by no key of `previous`.
proof fn lemma_keep_none(previous: Seq<(Seq<char>, ValueModel)>, desired: Seq<(Seq<char>, ValueModel)>)
    ensures
        forall|p: (Seq<char>, ValueModel)| #[trigger] keep_fn(previous, 0, desired)(p),
{
}

/// The reversal of one more element of a prefix starts with it.
proof fn lemma_rev_take<A>(s: Seq<A>, i: int)
    requires
        0 <= i < s.len(),
    ensures
        s.take(i + 1).reverse() == seq![s[i]] + s.take(i).reverse(),
{
    assert(s.take(i + 1).reverse() =~= seq![s[i]] + s.take(i).reverse());
}

/// The realm of `key` after the isolations `iso` of entry `id`, applied in
/// order over a context where it resolves to `base`: the last isolation
/// of `key` decides.
pub open spec fn iso_realm(iso: Seq<(Seq<char>, IsolateModel)>, id: Seq<char>, key: Seq<char>, base: Seq<char>) -> Seq<char>
    decreases iso.len(),
{
    if iso.len() == 0 {
        base
    } else if iso.last().0 == key {
        annotated_realm(iso.last().1, id, key)
    } else {
        iso_realm(iso.drop_last(), id, key, base)
    }
}

/// Filtering by `f`, then by `g`, is filtering by both.
proof fn lemma_filter_twice<A>(s: Seq<A>, f: spec_fn(A) -> bool, g: spec_fn(A) -> bool, h: spec_fn(A) -> bool)
    requires
        forall|x: A| #[trigger] h(x) == (f(x) && g(x)),
    ensures
        s.filter(f).filter(g) == s.filter(h),
    decreases s.len(),
{
    reveal(Seq::filter);
    if s.len() > 0 {
        lemma_filter_twice(s.drop_last(), f, g, h);
        let x = s.drop_last().filter(f);
        if f(s.last()) {
            assert(x.push(s.last()).drop_last() =~= x);
            assert(x.push(s.last()).last() == s.last());
        }
    }
}

/// Filtering by equivalent predicates gives the same sequence.
proof fn lemma_filter_same<A>(s: Seq<A>, f: spec_fn(A) -> bool, g: spec_fn(A) -> bool)
    requires
        forall|x: A| #[trigger] f(x) == g(x),
    ensures
        s.filter(f) == s.filter(g),
    decreases s.len(),
{
    reveal(Seq::filter);
    if s.len() > 0 {
        lemma_filter_same(s.drop_last(), f, g);
    }
}

/// Filtering by a predicate that holds everywhere keeps everything.
proof fn lemma_filter_all<A>(s: Seq<A>, f: spec_fn(A) -> bool)
    requires
        forall|x: A| #[trigger] f(x),
    ensures
        s.filter(f) == s,
    decreases s.len(),
{
    reveal(Seq::filter);
    if s.len() > 0 {
        lemma_filter_all(s.drop_last(), f);
        assert(s.drop_last().push(s.last()) =~= s);
    }
}

/// `b` is `a` but for its configuration.
spec fn same_but_config(a: LoadedEntry, b: LoadedEntry) -> bool {
    &&& b.id == a.id
    &&& b.component == a.component
    &&& b.revision == a.revision
    &&& b.disabled == a.disabled
    &&& b.isolate == a.isolate
    &&& b.intercept == a.intercept
    &&& b.ctx == a.ctx
    &&& b.fiber == a.fiber
    &&& b.children == a.children
}

/// `b` is `a` but for its children.
spec fn same_but_children(a: LoadedEntry, b: LoadedEntry) -> bool {
    &&& b.id == a.id
    &&& b.component == a.component
    &&& b.config == a.config
    &&& b.revision == a.revision
    &&& b.disabled == a.disabled
    &&& b.isolate == a.isolate
    &&& b.intercept == a.intercept
    &&& b.ctx == a.ctx
    &&& b.fiber == a.fiber
}

/// `new` is `old` after the configuration `cfg` was written to the entry
/// `id` (searched `depth` levels deep): the first entry of the level so
/// named; else, subtree by subtree, until one reports a fiber.
spec fn written(old: Seq<LoadedEntry>, new: Seq<LoadedEntry>, id: Seq<char>, cfg: ValueModel, depth: nat) -> bool
    decreases depth,
{
    &&& new.len() == old.len()
    &&& if exists|p: int| level_pos(old, id, p) {
        forall|t: int| 0 <= t < old.len() ==> if level_pos(old, id, t) {
            same_but_config(old[t], #[trigger] new[t]) && new[t].config@ == cfg
        } else {
            new[t] == old[t]
        }
    } else if depth == 0 {
        new == old
    } else {
        forall|t: int| 0 <= t < old.len() ==> if exists|u: int| 0 <= u < t && (#[trigger] set_result(old[u].children@, id, (depth - 1) as nat)) is Some {
            #[trigger] new[t] == old[t]
        } else {
            same_but_children(old[t], new[t]) && written(old[t].children@, new[t].children@, id, cfg, (depth - 1) as nat)
        }
    }
}

/// The declared provision of component `c` in `rt`, in order (none when
/// `c` is not declared).
spec fn provision_of(rt: Runtime, c: usize) -> Seq<Seq<char>> {
    if c < rt.spec_env().n_declared() {
        rt.spec_env().declared_provide_order(c)
    } else {
        Seq::empty()
    }
}

/// The id of the entry owning the first fiber that clashes with the
/// provision of component `c` (empty when there is none, or no entry owns
/// it).
spec fn clash_owner_name(rt: Runtime, entries: Seq<LoadedEntry>, c: usize) -> Seq<char> {
    match clash_owner(rt.spec_env().spec_fibers(), provision_of(rt, c)) {
        Some(f) => match owner_in(entries, f, TREE_DEPTH as nat) {
            Some(n) => n,
            None => Seq::empty(),
        },
        None => Seq::empty(),
    }
}

/// The ids of the entries of a level, in order.
spec fn ids_of(s: Seq<LoadedEntry>) -> Seq<Seq<char>> {
    s.map_values(|l: LoadedEntry| l.id@)
}

/// Whether some desired entry is named `x`.
pub open spec fn desired_has(desired: Seq<Entry>, x: Seq<char>) -> bool {
    exists|d: int| 0 <= d < desired.len() && desired[d].id@ == x
}

/// How many times `x` occurs in `s`.
spec fn key_count(s: Seq<Seq<char>>, x: Seq<char>) -> nat
    decreases s.len(),
{
    if s.len() == 0 {
        0
    } else {
        (if s[0] == x { 1nat } else { 0nat }) + key_count(s.drop_first(), x)
    }
}

/// Removing the element at `p` removes one occurrence of it.
proof fn lemma_count_remove(s: Seq<Seq<char>>, p: int, x: Seq<char>)
    requires
        0 <= p < s.len(),
    ensures
        key_count(s.remove(p), x) + (if s[p] == x { 1nat } else { 0nat }) == key_count(s, x),
    decreases p,
{
    if p == 0 {
        assert(s.remove(0) =~= s.drop_first());
    } else {
        assert(s.remove(p).drop_first() =~= s.drop_first().remove(p - 1));
        assert(s.remove(p)[0] == s[0]);
        lemma_count_remove(s.drop_first(), p - 1, x);
    }
}

/// An element that occurs nowhere is counted zero times, and one counted
/// zero times occurs nowhere.
proof fn lemma_count_zero(s: Seq<Seq<char>>, x: Seq<char>)
    ensures
        (key_count(s, x) == 0) <==> (forall|i: int| 0 <= i < s.len() ==> s[i] != x),
    decreases s.len(),
{
    if s.len() > 0 {
        lemma_count_zero(s.drop_first(), x);
        assert forall|i: int| 1 <= i < s.len() implies s[i] == s.drop_first()[i - 1] by {}
        if key_count(s, x) == 0 {
            assert forall|i: int| 0 <= i < s.len() implies s[i] != x by {
                if i > 0 {
                    assert(s[i] == s.drop_first()[i - 1]);
                }
            }
        }
        if forall|i: int| 0 <= i < s.len() ==> s[i] != x {
            assert forall|i: int| 0 <= i < s.drop_first().len() implies s.drop_first()[i] != x by {
                assert(s.drop_first()[i] == s[i + 1]);
            }
        }
    }
}

/// The texts of a sequence of strings.
spec fn texts(v: Seq<String>) -> Seq<Seq<char>> {
    v.map_values(|s: String| s@)
}

/// Every entry of `new` carries an id of `old`, or `x`.
spec fn from_level(old: Seq<LoadedEntry>, new: Seq<LoadedEntry>, x: Seq<char>) -> bool {
    forall|t: int| 0 <= t < new.len() ==> ids_of(old).contains(#[trigger] new[t].id@) || new[t].id@ == x
}

/// Removing an entry keeps the ids of the others.
proof fn lemma_level_remove(s: Seq<LoadedEntry>, pos: int, x: Seq<char>)
    requires
        0 <= pos < s.len(),
    ensures
        from_level(s, s.remove(pos), x),
{
    assert forall|t: int| 0 <= t < s.remove(pos).len() implies ids_of(s).contains(#[trigger] s.remove(pos)[t].id@) by {
        let u = if t < pos { t } else { t + 1 };
        assert(s.remove(pos)[t] == s[u]);
        assert(ids_of(s)[u] == s[u].id@);
    }
}

/// An entry named `x` may be added.
proof fn lemma_level_push(a: Seq<LoadedEntry>, b: Seq<LoadedEntry>, n: LoadedEntry, x: Seq<char>)
    requires
        from_level(a, b, x),
        n.id@ == x,
    ensures
        from_level(a, b.push(n), x),
{
    assert forall|t: int| 0 <= t < b.push(n).len() implies ids_of(a).contains(#[trigger] b.push(n)[t].id@) || b.push(n)[t].id@ == x by {
        if t < b.len() {
            assert(b.push(n)[t] == b[t]);
        }
    }
}

/// Two steps that each keep to the ids of their start and `x` keep to
/// those of the first.
proof fn lemma_level_trans(a: Seq<LoadedEntry>, b: Seq<LoadedEntry>, c: Seq<LoadedEntry>, x: Seq<char>)
    requires
        from_level(a, b, x),
        from_level(b, c, x),
    ensures
        from_level(a, c, x),
{
    assert forall|t: int| 0 <= t < c.len() implies ids_of(a).contains(#[trigger] c[t].id@) || c[t].id@ == x by {
        if ids_of(b).contains(c[t].id@) {
            let u = choose|u: int| 0 <= u < ids_of(b).len() && ids_of(b)[u] == c[t].id@;
            assert(b[u].id@ == c[t].id@);
        }
    }
}

/// A level whose entries keep their ids position by position.
proof fn lemma_level_same(a: Seq<LoadedEntry>, b: Seq<LoadedEntry>, x: Seq<char>)
    requires
        b.len() == a.len(),
        forall|t: int| 0 <= t < a.len() ==> (#[trigger] b[t]).id == a[t].id,
    ensures
        from_level(a, b, x),
{
    assert forall|t: int| 0 <= t < b.len() implies ids_of(a).contains(#[trigger] b[t].id@) by {
        assert(ids_of(a)[t] == a[t].id@);
    }
}

/// Every entry of `old` not named `x` is still loaded in `new` (by id).
spec fn keeps_others(old: Seq<LoadedEntry>, new: Seq<LoadedEntry>, x: Seq<char>) -> bool {
    forall|t: int| 0 <= t < old.len() && old[t].id@ != x ==> ids_of(new).contains(#[trigger] old[t].id@)
}

/// No outcome is an orchestration failure.
pub open spec fn no_failure(outs: Seq<EntryOutcome>) -> bool {
    forall|k: int| 0 <= k < outs.len() ==> !(#[trigger] outs[k] is Failed)
}

/// `x` is loaded in `new`, or a failure was reported from position `from`
/// of `outs` on.
pub open spec fn mounted_or_failed(ids: Seq<Seq<char>>, x: Seq<char>, outs: Seq<EntryOutcome>, from: int) -> bool {
    ids.contains(x) || exists|k: int| from <= k < outs.len() && outs[k] is Failed
}

/// What is mounted or failed stays so when the other entries are kept, the
/// outcomes only grow, and `x` is mounted or failed anew.
proof fn lemma_mounted_step(
    a: Seq<LoadedEntry>,
    b: Seq<LoadedEntry>,
    x: Seq<char>,
    o1: Seq<EntryOutcome>,
    o2: Seq<EntryOutcome>,
    from: int,
    y: Seq<char>,
)
    requires
        mounted_or_failed(ids_of(a), y, o1, from),
        keeps_others(a, b, x),
        o1.is_prefix_of(o2),
        0 <= from <= o1.len(),
        mounted_or_failed(ids_of(b), x, o2, o1.len() as int),
    ensures
        mounted_or_failed(ids_of(b), y, o2, from),
{
    if y != x {
        if ids_of(a).contains(y) {
            let t = choose|t: int| 0 <= t < ids_of(a).len() && ids_of(a)[t] == y;
            assert(a[t].id@ == y);
        } else {
            assert(exists|k: int| from <= k < o1.len() && o1[k] is Failed);
            let k = choose|k: int| from <= k < o1.len() && o1[k] is Failed;
            assert(0 <= k < o1.len());
            assert(o1[k] == o2.subrange(0, o1.len() as int)[k]);
            assert(o2[k] is Failed);
        }
    } else {
        if !ids_of(b).contains(x) {
            let k = choose|k: int| o1.len() <= k < o2.len() && o2[k] is Failed;
        }
    }
}

/// Removing an entry named `x` keeps the others.
proof fn lemma_keep_remove(s: Seq<LoadedEntry>, pos: int, x: Seq<char>)
    requires
        0 <= pos < s.len(),
        s[pos].id@ == x,
    ensures
        keeps_others(s, s.remove(pos), x),
{
    assert forall|t: int| 0 <= t < s.len() && s[t].id@ != x implies ids_of(s.remove(pos)).contains(#[trigger] s[t].id@) by {
        let u = if t < pos { t } else { t - 1 };
        assert(s.remove(pos)[u] == s[t]);
        assert(ids_of(s.remove(pos))[u] == s[t].id@);
    }
}

/// Adding an entry keeps the others.
proof fn lemma_keep_push(s: Seq<LoadedEntry>, n: LoadedEntry, x: Seq<char>)
    ensures
        keeps_others(s, s.push(n), x),
        ids_of(s.push(n)).contains(n.id@),
{
    assert forall|t: int| 0 <= t < s.len() && s[t].id@ != x implies ids_of(s.push(n)).contains(#[trigger] s[t].id@) by {
        assert(ids_of(s.push(n))[t] == s[t].id@);
    }
    assert(ids_of(s.push(n))[s.len() as int] == n.id@);
}

/// Keeping the others twice keeps them.
proof fn lemma_keep_trans(a: Seq<LoadedEntry>, b: Seq<LoadedEntry>, c: Seq<LoadedEntry>, x: Seq<char>)
    requires
        keeps_others(a, b, x),
        keeps_others(b, c, x),
    ensures
        keeps_others(a, c, x),
{
    assert forall|t: int| 0 <= t < a.len() && a[t].id@ != x implies ids_of(c).contains(#[trigger] a[t].id@) by {
        assert(ids_of(b).contains(a[t].id@));
        let u = choose|u: int| 0 <= u < ids_of(b).len() && ids_of(b)[u] == a[t].id@;
        assert(b[u].id@ == a[t].id@);
    }
}

/// A level whose entries keep their ids position by position keeps all.
proof fn lemma_keep_level(a: Seq<LoadedEntry>, b: Seq<LoadedEntry>, x: Seq<char>)
    requires
        b.len() == a.len(),
        forall|t: int| 0 <= t < a.len() ==> (#[trigger] b[t]).id == a[t].id,
    ensures
        keeps_others(a, b, x),
        forall|t: int| 0 <= t < a.len() ==> ids_of(b).contains(#[trigger] a[t].id@),
{
    assert forall|t: int| 0 <= t < a.len() implies ids_of(b).contains(#[trigger] a[t].id@) by {
        assert(ids_of(b)[t] == b[t].id@);
    }
}

/// A suffix of a sequence loses its first element by one more step.
proof fn lemma_suffix_step<A>(s: Seq<A>, i: int)
    requires
        0 <= i < s.len(),
    ensures
        s.subrange(i, s.len() as int).len() > 0,
        s.subrange(i, s.len() as int)[0] == s[i],
        s.subrange(i, s.len() as int).drop_first() =~= s.subrange(i + 1, s.len() as int),
{
}

/// Sets each metadata pair of `metas` on `ctx` in place, in order (so the
/// last one of a key is found first).
fn prepend_meta(env: &mut Env, ctx: Context, metas: &Vec<(Symbol, Value)>)
    ensures
        old(env).ctx_valid(ctx) ==> final(env).ctx_meta(ctx) == crate::env::meta_pairs(metas@).reverse() + old(env).ctx_meta(ctx),
        crate::env::same_components(*final(env), *old(env)),
        forall|c: Context| #[trigger] final(env).ctx_valid(c) == old(env).ctx_valid(c),
        forall|k: Seq<char>| #[trigger] final(env).realm_of(ctx, k) == old(env).realm_of(ctx, k),
        final(env).ctx_realms(ctx) == old(env).ctx_realms(ctx),
        final(env).ctx_fiber(ctx) == old(env).ctx_fiber(ctx),
        final(env).ctx_acc(ctx) == old(env).ctx_acc(ctx),
        final(env).spec_fibers() == old(env).spec_fibers(),
        final(env).spec_store() == old(env).spec_store(),
{
    let ghost pairs = crate::env::meta_pairs(metas@);
    let ghost base = env.ctx_meta(ctx);
    let mut i: usize = 0;
    proof {
        assert(pairs.take(0).reverse() + base =~= base);
    }
    while i < metas.len()
        invariant
            i <= metas@.len(),
            pairs == crate::env::meta_pairs(metas@),
            old(env).ctx_valid(ctx) ==> env.ctx_meta(ctx) == pairs.take(i as int).reverse() + base,
            crate::env::same_components(*env, *old(env)),
            base == old(env).ctx_meta(ctx),
            forall|c: Context| #[trigger] env.ctx_valid(c) == old(env).ctx_valid(c),
            forall|k: Seq<char>| #[trigger] env.realm_of(ctx, k) == old(env).realm_of(ctx, k),
            env.ctx_realms(ctx) == old(env).ctx_realms(ctx),
            env.ctx_fiber(ctx) == old(env).ctx_fiber(ctx),
            env.ctx_acc(ctx) == old(env).ctx_acc(ctx),
            env.spec_fibers() == old(env).spec_fibers(),
            env.spec_store() == old(env).spec_store(),
        decreases metas.len() - i,
    {
        env.set_meta_in_place(ctx, metas[i].0.clone(), metas[i].1.clone());
        proof {
            assert(pairs[i as int] == (metas@[i as int].0@, metas@[i as int].1@));
            lemma_rev_take(pairs, i as int);
        }
        i = i + 1;
    }
    proof {
        assert(pairs.take(pairs.len() as int) =~= pairs);
    }
}

/// Clears from `ctx` in place every key of `previous` that `desired` no
/// longer has.
fn clear_vanished(env: &mut Env, ctx: Context, previous: &Intercepts, desired: &Intercepts)
    ensures
        final(env).ctx_meta(ctx) == old(env).ctx_meta(ctx).filter(keep_fn(previous@, previous@.len() as int, desired@)),
        forall|c: Context| #[trigger] final(env).ctx_valid(c) == old(env).ctx_valid(c),
        final(env).ctx_realms(ctx) == old(env).ctx_realms(ctx),
        final(env).ctx_fiber(ctx) == old(env).ctx_fiber(ctx),
        final(env).ctx_acc(ctx) == old(env).ctx_acc(ctx),
        final(env).spec_fibers() == old(env).spec_fibers(),
        final(env).spec_store() == old(env).spec_store(),
{
    let ghost all = env.ctx_meta(ctx);
    proof {
        lemma_keep_none(previous@, desired@);
        lemma_filter_all(all, keep_fn(previous@, 0, desired@));
    }
    let before = previous.keys();
    let mut j: usize = 0;
    while j < before.len()
        invariant
            j <= before@.len(),
            before@.len() == previous@.len(),
            forall|t: int| 0 <= t < before@.len() ==> (#[trigger] before@[t])@ == previous@[t].0,
            all == old(env).ctx_meta(ctx),
            env.ctx_meta(ctx) == all.filter(keep_fn(previous@, j as int, desired@)),
            forall|c: Context| #[trigger] env.ctx_valid(c) == old(env).ctx_valid(c),
            env.ctx_realms(ctx) == old(env).ctx_realms(ctx),
            env.ctx_fiber(ctx) == old(env).ctx_fiber(ctx),
            env.ctx_acc(ctx) == old(env).ctx_acc(ctx),
            env.spec_fibers() == old(env).spec_fibers(),
            env.spec_store() == old(env).spec_store(),
        decreases before.len() - j,
    {
        proof {
            assert(before@[j as int]@ == previous@[j as int].0);
        }
        if !desired.contains_key(&before[j]) {
            env.clear_meta(ctx, &before[j]);
            proof {
                lemma_keep_drop(previous@, j as int, desired@);
                lemma_filter_twice(
                    all,
                    keep_fn(previous@, j as int, desired@),
                    crate::env::other_key(previous@[j as int].0),
                    keep_fn(previous@, j + 1, desired@),
                );
            }
        } else {
            proof {
                lemma_keep_same(previous@, j as int, desired@);
                lemma_filter_same(all, keep_fn(previous@, j as int, desired@), keep_fn(previous@, j + 1, desired@));
            }
        }
        j = j + 1;
    }
}

/// Finds the loaded entry `id` anywhere in the tree.
fn find_loaded<'a>(list: &'a Vec<LoadedEntry>, id: &str, depth: u64) -> (r: Option<&'a LoadedEntry>)
    ensures
        r is None <==> find_in(list@, id@, depth as nat) is None,
        r matches Some(l) ==> find_in(list@, id@, depth as nat) == Some(*l),
    decreases depth,
{
    let key = String::from_str(id);
    let mut i: usize = 0;
    proof {
        assert(list@.subrange(0, list@.len() as int) =~= list@);
    }
    while i < list.len()
        invariant
            i <= list@.len(),
            key@ == id@,
            level_find(list@, id@) == level_find(list@.subrange(i as int, list@.len() as int), id@),
        decreases list.len() - i,
    {
        proof {
            lemma_suffix_step(list@, i as int);
        }
        if list[i].id == key {
            proof {
                assert(list@[i as int].id@ == id@);
                assert(level_find(list@.subrange(i as int, list@.len() as int), id@) == Some(list@[i as int]));
                assert(find_in(list@, id@, depth as nat) == Some(list@[i as int]));
            }
            return Some(&list[i]);
        }
        i = i + 1;
    }
    if depth == 0 {
        return None;
    }
    let mut j: usize = 0;
    while j < list.len()
        invariant
            depth > 0,
            j <= list@.len(),
            level_find(list@, id@) is None,
            find_kids(list@, id@, (depth - 1) as nat) == find_kids(
                list@.subrange(j as int, list@.len() as int),
                id@,
                (depth - 1) as nat,
            ),
        decreases list.len() - j,
    {
        proof {
            lemma_suffix_step(list@, j as int);
        }
        match find_loaded(&list[j].children, id, depth - 1) {
            Some(l) => return Some(l),
            None => {},
        }
        j = j + 1;
    }
    None
}

/// The id of the entry owning fiber `fid` in a tree searched `depth`
/// levels deep: entries in order, each before its own subtree.
spec fn owner_in(list: Seq<LoadedEntry>, fid: FiberId, depth: nat) -> Option<Seq<char>>
    decreases depth, list.len(),
{
    if list.len() == 0 {
        None
    } else if list[0].fiber == Some(fid) {
        Some(list[0].id@)
    } else {
        let sub = if depth > 0 {
            owner_in(list[0].children@, fid, (depth - 1) as nat)
        } else {
            None
        };
        match sub {
            Some(s) => Some(s),
            None => owner_in(list.drop_first(), fid, depth),
        }
    }
}

/// The entry owning fiber `fid` anywhere in the tree.
fn entry_of(list: &Vec<LoadedEntry>, fid: FiberId, depth: u64) -> (r: Option<String>)
    ensures
        r is None <==> owner_in(list@, fid, depth as nat) is None,
        r matches Some(s) ==> owner_in(list@, fid, depth as nat) == Some(s@),
    decreases depth,
{
    let mut i: usize = 0;
    proof {
        assert(list@.subrange(0, list@.len() as int) =~= list@);
    }
    while i < list.len()
        invariant
            i <= list@.len(),
            owner_in(list@, fid, depth as nat) == owner_in(list@.subrange(i as int, list@.len() as int), fid, depth as nat),
        decreases list.len() - i,
    {
        proof {
            lemma_suffix_step(list@, i as int);
        }
        if list[i].fiber == Some(fid) {
            return Some(list[i].id.clone());
        }
        if depth > 0 {
            match entry_of(&list[i].children, fid, depth - 1) {
                Some(s) => return Some(s),
                None => {},
            }
        }
        i = i + 1;
    }
    None
}

/// The number of entries of a tree counted `depth` levels deep.
spec fn tree_count(list: Seq<LoadedEntry>, depth: nat) -> nat
    decreases depth, list.len(),
{
    if list.len() == 0 {
        0
    } else {
        let sub = if depth > 0 {
            tree_count(list.last().children@, (depth - 1) as nat)
        } else {
            0
        };
        tree_count(list.drop_last(), depth) + 1 + sub
    }
}

/// `n` capped at the largest `usize`.
pub open spec fn capped(n: nat) -> nat {
    if n > usize::MAX {
        usize::MAX as nat
    } else {
        n
    }
}

/// Number of loaded entries in the tree.
fn count(list: &Vec<LoadedEntry>, depth: u64) -> (r: usize)
    ensures
        r == capped(tree_count(list@, depth as nat)),
    decreases depth,
{
    let mut n: usize = 0;
    let mut i: usize = 0;
    proof {
        assert(list@.take(0).len() == 0);
    }
    while i < list.len()
        invariant
            i <= list@.len(),
            n == capped(tree_count(list@.take(i as int), depth as nat)),
        decreases list.len() - i,
    {
        let sub = if depth > 0 { count(&list[i].children, depth - 1) } else { 0 };
        proof {
            assert(list@.take(i + 1).drop_last() =~= list@.take(i as int));
            assert(list@.take(i + 1).last() == list@[i as int]);
        }
        n = n.saturating_add(1).saturating_add(sub);
        i = i + 1;
    }
    proof {
        assert(list@.take(list@.len() as int) =~= list@);
    }
    n
}

/// The fibers of a loaded subtree taken `depth` levels deep: the entry's
/// own, then those of each child's subtree in order.
spec fn subtree_fibers(l: LoadedEntry, depth: nat) -> Seq<FiberId>
    decreases depth + 1, 0int,
{
    let own = match l.fiber {
        Some(f) => seq![f],
        None => Seq::empty(),
    };
    if depth == 0 {
        own
    } else {
        own + children_fibers(l.children@, (depth - 1) as nat)
    }
}

/// The fibers of each subtree of `list` (taken `depth` levels deep), in order.
spec fn children_fibers(list: Seq<LoadedEntry>, depth: nat) -> Seq<FiberId>
    decreases depth + 1, list.len() + 1,
{
    if list.len() == 0 {
        Seq::empty()
    } else {
        children_fibers(list.drop_last(), depth) + subtree_fibers(list.last(), depth)
    }
}

/// The fibers of a loaded subtree (the entry's own, then its descendants').
fn collect_fibers(l: &LoadedEntry, out: &mut Vec<FiberId>, depth: u64)
    ensures
        final(out)@ == old(out)@ + subtree_fibers(*l, depth as nat),
    decreases depth,
{
    let ghost own = match l.fiber {
        Some(f) => seq![f],
        None => Seq::<FiberId>::empty(),
    };
    match l.fiber {
        Some(f) => out.push(f),
        None => {},
    }
    proof {
        assert(out@ =~= old(out)@ + own);
    }
    if depth == 0 {
        return;
    }
    let mut i: usize = 0;
    proof {
        assert(l.children@.take(0) =~= Seq::<LoadedEntry>::empty());
        assert(out@ =~= old(out)@ + own + children_fibers(l.children@.take(0), (depth - 1) as nat));
    }
    while i < l.children.len()
        invariant
            depth > 0,
            i <= l.children@.len(),
            out@ == old(out)@ + own + children_fibers(l.children@.take(i as int), (depth - 1) as nat),
        decreases l.children.len() - i,
    {
        proof {
            assert(l.children@.take(i + 1).drop_last() =~= l.children@.take(i as int));
            assert(l.children@.take(i + 1).last() == l.children@[i as int]);
        }
        collect_fibers(&l.children[i], out, depth - 1);
        proof {
            let a = old(out)@ + own;
            let b = children_fibers(l.children@.take(i as int), (depth - 1) as nat);
            let c = subtree_fibers(l.children@[i as int], (depth - 1) as nat);
            assert(a + b + c =~= a + (b + c));
        }
        i = i + 1;
    }
    proof {
        assert(l.children@.take(l.children@.len() as int) =~= l.children@);
        assert(old(out)@ + own + children_fibers(l.children@, (depth - 1) as nat) =~= old(out)@ + subtree_fibers(*l, depth as nat));
    }
}

fn contains_fiber(v: &Vec<FiberId>, f: FiberId) -> (r: bool)
    ensures
        r == v@.contains(f),
{
    let mut i: usize = 0;
    while i < v.len()
        invariant
            i <= v.len(),
            forall|j: int| 0 <= j < i ==> v@[j] != f,
        decreases v.len() - i,
    {
        if v[i] == f {
            return true;
        }
        i = i + 1;
    }
    false
}

/// The realm of `key` under an entry's isolation annotations.
fn realm_for(isolate: &Vec<(Symbol, IsolateAnnotation)>, id: &str, key: &Symbol) -> (r: Symbol)
    ensures
        (forall|j: int| 0 <= j < isolate@.len() ==> isolate@[j].0@ != key@) ==> r@ == key@,
        forall|j: int| 0 <= j < isolate@.len() && isolate@[j].0@ == key@
            && (forall|t: int| j < t < isolate@.len() ==> isolate@[t].0@ != key@)
            ==> r@ == annotated_realm(isolate@[j].1@, id@, key@),
{
    match isolate_of(isolate, key) {
        None => key.clone(),
        Some(iso) => realm_name(iso, id, key),
    }
}

fn push_unique(v: &mut Vec<Symbol>, k: Symbol)
    ensures
        names(old(v)@).contains(k@) ==> final(v)@ == old(v)@,
        !names(old(v)@).contains(k@) ==> names(final(v)@) == names(old(v)@).push(k@),
{
    let mut i: usize = 0;
    while i < v.len()
        invariant
            i <= v@.len(),
            v@ == old(v)@,
            forall|j: int| 0 <= j < i ==> v@[j]@ != k@,
        decreases v.len() - i,
    {
        if v[i].same(&k) {
            proof {
                assert(names(v@)[i as int] == k@);
            }
            return;
        }
        i = i + 1;
    }
    proof {
        if names(old(v)@).contains(k@) {
            let j = choose|j: int| 0 <= j < names(old(v)@).len() && names(old(v)@)[j] == k@;
            assert(v@[j]@ == k@);
        }
    }
    v.push(k);
    proof {
        assert(names(v@) =~= names(old(v)@).push(k@));
    }
}

impl Loader {
    /// A loader on `runtime`; entries are instantiated under a root context.
    pub fn new(runtime: Runtime) -> (r: Loader)
        ensures
            r.spec_runtime().spec_env().spec_fibers() == runtime.spec_env().spec_fibers(),
            r.spec_runtime().spec_env().spec_store() == runtime.spec_env().spec_store(),
            r.spec_runtime().spec_env().n_declared() == runtime.spec_env().n_declared() + 1,
            forall|n: Seq<char>| #[trigger] r.registered(n) is None,
            forall|n: Seq<char>| !has_cast(#[trigger] r.spec_configs(), n),
            r.spec_configs().len() == 0,
            r.n_top() == 0,
            !r.writes_config_back(),
            !r.writes_retire_back(),
    {
        let mut runtime = runtime;
        let root = runtime.context();
        let holder = runtime.add_component(Box::new(GroupHolder));
        Loader {
            runtime,
            root,
            names: Vec::new(),
            configs: Vec::new(),
            entries: Vec::new(),
            holder,
            update_hook: false,
            retire_hook: false,
            events: Ghost(Seq::empty()),
        }
    }

    /// The runtime.
    pub fn runtime(&self) -> (r: &Runtime)
        ensures
            *r == self.spec_runtime(),
    {
        &self.runtime
    }

    /// The runtime, for operations outside the loader.
    pub fn runtime_mut(&mut self) -> (r: &mut Runtime)
        ensures
            *r == old(self).spec_runtime(),
            final(self).spec_runtime() == *final(r),
            final(self).spec_configs() == old(self).spec_configs(),
            final(self).n_top() == old(self).n_top(),
            final(self).writes_config_back() == old(self).writes_config_back(),
            final(self).writes_retire_back() == old(self).writes_retire_back(),
            forall|n: Seq<char>| #[trigger] final(self).registered(n) == old(self).registered(n),
    {
        &mut self.runtime
    }

    /// The runtime the loader drives.
    pub closed spec fn spec_runtime(&self) -> Runtime {
        self.runtime
    }

    /// The configuration protocols, by component name, in registration order.
    pub closed spec fn spec_configs(&self) -> Seq<(String, Box<dyn Config>)> {
        self.configs@
    }

    /// Whether a component's in-place reconfiguration is written back to
    /// its entry.
    pub closed spec fn writes_config_back(&self) -> bool {
        self.update_hook
    }

    /// Whether a component's own retirement is written back to its entry.
    pub closed spec fn writes_retire_back(&self) -> bool {
        self.retire_hook
    }

    /// The fiber that a configuration write-back to the loaded entry `id`
    /// reports: that of the first entry so named in the search order of
    /// the tree that has one.
    pub closed spec fn write_target(&self, id: Seq<char>) -> Option<FiberId> {
        set_result(self.entries@, id, TREE_DEPTH as nat)
    }

    /// The loaded tree is that of `before` after the configuration
    /// `config` was written to the entry `id` (the first entry so named on
    /// a level; else subtree by subtree, until one reports a fiber), and
    /// nothing else changed in it.
    pub closed spec fn config_written(&self, before: Loader, id: Seq<char>, config: ValueModel) -> bool {
        written(before.entries@, self.entries@, id, config, TREE_DEPTH as nat)
    }

    /// Number of loaded entries, the whole tree.
    pub closed spec fn n_loaded(&self) -> nat {
        tree_count(self.entries@, TREE_DEPTH as nat)
    }

    /// Whether a top-level entry named `id` is loaded.
    pub closed spec fn has_top(&self, id: Seq<char>) -> bool {
        exists|t: int| 0 <= t < self.entries@.len() && self.entries@[t].id@ == id
    }

    /// The id of the top-level loaded entry at position `t`.
    pub closed spec fn top_id(&self, t: int) -> Seq<char> {
        self.entries@[t].id@
    }

    /// Number of top-level loaded entries.
    pub closed spec fn n_top(&self) -> nat {
        self.entries@.len()
    }

    /// The live fiber of the loaded entry `id`: its registry record, when
    /// the entry is loaded, has a fiber, and that fiber is not retired.
    pub closed spec fn live_fiber(&self, id: Seq<char>) -> Option<Fiber> {
        match find_in(self.entries@, id, TREE_DEPTH as nat) {
            Some(l) => match l.fiber {
                Some(fid) => match record_in(self.runtime, fid) {
                    Some(f) => if f.retired {
                        None
                    } else {
                        Some(f)
                    },
                    None => None,
                },
                None => None,
            },
            None => None,
        }
    }

    /// The current configuration of the loaded entry `id`: the fiber's own
    /// when in-place reconfiguration is written back and the fiber is
    /// registered, else the entry's.
    pub closed spec fn current_config(&self, id: Seq<char>) -> Option<ValueModel> {
        match find_in(self.entries@, id, TREE_DEPTH as nat) {
            Some(l) => if self.update_hook && l.fiber is Some && record_in(self.runtime, l.fiber->0) is Some {
                Some(record_in(self.runtime, l.fiber->0)->0.config@)
            } else {
                Some(l.config@)
            },
            None => None,
        }
    }

    /// The current `disabled` flag of the loaded entry `id`: set on the
    /// entry, or (when retirement is written back) its fiber retired.
    pub closed spec fn current_disabled(&self, id: Seq<char>) -> Option<bool> {
        match find_in(self.entries@, id, TREE_DEPTH as nat) {
            Some(l) => if l.disabled {
                Some(true)
            } else if self.retire_hook && l.fiber is Some && record_in(self.runtime, l.fiber->0) is Some {
                Some(record_in(self.runtime, l.fiber->0)->0.retired)
            } else {
                Some(false)
            },
            None => None,
        }
    }

    /// The component registered under `name` (the resolution table of
    /// `Entry::component`).
    pub closed spec fn registered(&self, name: Seq<char>) -> Option<usize> {
        lookup_name(self.names@, name)
    }

    /// Registers `component` under `name` (the resolution table of
    /// `Entry::component`); a later registration of the same name wins.
    /// Returns the runtime index of the component.
    pub fn register_component(&mut self, name: String, component: Box<dyn Component>) -> (r: usize)
        ensures
            r == old(self).spec_runtime().spec_env().n_declared(),
            final(self).spec_runtime().spec_env().n_declared() == old(self).spec_runtime().spec_env().n_declared() + 1,
            forall|n: Seq<char>| #[trigger] final(self).registered(n) == if n == name@ {
                Some(r)
            } else {
                old(self).registered(n)
            },
    {
        let c = self.runtime.add_component(component);
        self.bind_component(name, c);
        c
    }

    /// Points `name` at the already registered component `c` (to restore a
    /// previous version).
    pub fn bind_component(&mut self, name: String, c: usize)
        ensures
            forall|n: Seq<char>| #[trigger] final(self).registered(n) == if n == name@ {
                Some(c)
            } else {
                old(self).registered(n)
            },
            final(self).spec_runtime() == old(self).spec_runtime(),
    {
        let mut i: usize = 0;
        while i < self.names.len()
            invariant
                i <= self.names.len(),
                self.names@ == old(self).names@,
                self.runtime == old(self).runtime,
                forall|j: int| 0 <= j < i ==> self.names@[j].0@ != name@,
            decreases self.names.len() - i,
        {
            if self.names[i].0 == name {
                proof {
                    lemma_lookup_update(self.names@, name@, i as int, (name, c));
                }
                self.names.set(i, (name, c));
                return;
            }
            i = i + 1;
        }
        proof {
            lemma_lookup_push(self.names@, name@, (name, c));
        }
        self.names.push((name, c));
    }

    /// The component currently registered under `name`.
    pub fn component_of(&self, name: &str) -> (r: Option<usize>)
        ensures
            r == self.registered(name@),
    {
        let key = String::from_str(name);
        let mut i: usize = 0;
        while i < self.names.len()
            invariant
                i <= self.names.len(),
                key@ == name@,
                forall|j: int| 0 <= j < i ==> self.names@[j].0@ != name@,
            decreases self.names.len() - i,
        {
            if self.names[i].0 == key {
                proof {
                    lemma_lookup_first(self.names@, name@, i as int);
                }
                return Some(self.names[i].1);
            }
            i = i + 1;
        }
        proof {
            lemma_lookup_first(self.names@, name@, self.names@.len() as int);
        }
        None
    }

    /// Registers the configuration protocol of component `name`
    /// (validation before activation; value-level equality that lets a new
    /// revision with an equal value skip the rebuild).
    pub fn register_config(&mut self, name: String, protocol: Box<dyn Config>) {
        config::register_config_cast(&mut self.configs, name, protocol);
    }

    /// Writes a component's in-place reconfiguration back to its entry.
    pub fn register_update_hook(&mut self)
        ensures
            final(self).writes_config_back(),
            final(self).writes_retire_back() == old(self).writes_retire_back(),
            final(self).spec_configs() == old(self).spec_configs(),
            final(self).spec_runtime() == old(self).spec_runtime(),
            final(self).n_top() == old(self).n_top(),
            forall|n: Seq<char>| #[trigger] final(self).registered(n) == old(self).registered(n),
    {
        self.update_hook = true;
    }

    /// Writes a component's own retirement back to its entry as
    /// `disabled`.
    pub fn register_retire_hook(&mut self)
        ensures
            final(self).writes_retire_back(),
            final(self).writes_config_back() == old(self).writes_config_back(),
            final(self).spec_configs() == old(self).spec_configs(),
            final(self).spec_runtime() == old(self).spec_runtime(),
            final(self).n_top() == old(self).n_top(),
            forall|n: Seq<char>| #[trigger] final(self).registered(n) == old(self).registered(n),
    {
        self.retire_hook = true;
    }

    fn protocol_of(&self, name: &String) -> (r: Option<usize>)
        ensures
            r is None <==> !has_cast(self.configs@, name@),
            r matches Some(i) ==> first_cast(self.configs@, name@, i as int),
    {
        let mut i: usize = 0;
        while i < self.configs.len()
            invariant
                i <= self.configs.len(),
                forall|k: int| 0 <= k < i ==> self.configs@[k].0@ != name@,
            decreases self.configs.len() - i,
        {
            if self.configs[i].0 == *name {
                return Some(i);
            }
            i = i + 1;
        }
        None
    }

    /// Value-level equality under the component's protocol (`false` when
    /// it has none: the revision decides).
    fn configs_same(&self, name: &String, a: &Value, b: &Value) -> (r: bool)
        ensures
            !has_cast(self.configs@, name@) ==> !r,
    {
        match self.protocol_of(name) {
            Some(i) => self.configs[i].1.same(a, b),
            None => false,
        }
    }

    /// The loaded entry's current fiber (`None` when unknown, disabled, not
    /// instantiated or retired).
    pub fn fiber(&self, id: &str) -> (r: Option<Fiber>)
        ensures
            r is None <==> self.live_fiber(id@) is None,
            r matches Some(f) ==> copy_of(f, self.live_fiber(id@)->0),
    {
        let l = match find_loaded(&self.entries, id, TREE_DEPTH) {
            Some(l) => l,
            None => return None,
        };
        let fid = match l.fiber {
            Some(f) => f,
            None => return None,
        };
        match self.runtime.fiber(fid) {
            Some(f) => if f.retired() { None } else { Some(f) },
            None => None,
        }
    }

    /// The entry's current configuration (after write-backs).
    pub fn entry_config(&self, id: &str) -> (r: Option<Value>)
        ensures
            r is None <==> self.current_config(id@) is None,
            r matches Some(v) ==> self.current_config(id@) == Some(v@),
    {
        let l = match find_loaded(&self.entries, id, TREE_DEPTH) {
            Some(l) => l,
            None => return None,
        };
        if self.update_hook {
            match l.fiber {
                Some(fid) => match self.runtime.fiber(fid) {
                    Some(f) => return Some(f.config().clone()),
                    None => {},
                },
                None => {},
            }
        }
        Some(l.config.clone())
    }

    /// The entry's current `disabled` flag (after write-backs).
    pub fn entry_disabled(&self, id: &str) -> (r: Option<bool>)
        ensures
            r == self.current_disabled(id@),
    {
        let l = match find_loaded(&self.entries, id, TREE_DEPTH) {
            Some(l) => l,
            None => return None,
        };
        if l.disabled {
            return Some(true);
        }
        if self.retire_hook {
            match l.fiber {
                Some(fid) => match self.runtime.fiber(fid) {
                    Some(f) => return Some(f.retired()),
                    None => {},
                },
                None => {},
            }
        }
        Some(false)
    }

    /// Number of loaded entries (the whole tree).
    pub fn len(&self) -> (r: usize)
        ensures
            r == capped(self.n_loaded()),
    {
        count(&self.entries, TREE_DEPTH)
    }

    /// Whether nothing is loaded.
    pub fn is_empty(&self) -> (r: bool)
        ensures
            r == (self.n_top() == 0),
    {
        self.entries.len() == 0
    }
}

} // verus!

verus! {

impl Loader {
    /// The context an entry is instantiated in: derived from `parent`, with
    /// the entry's isolations (per key), then its interception annotations,
    /// then its injected configuration (which shadows interception for the
    /// same key).
    fn annotated_ctx(&mut self, parent: Context, entry: &Entry) -> (r: Context)
        ensures
            final(self).names == old(self).names,
            final(self).events == old(self).events,
            final(self).configs@ == old(self).configs@,
            final(self).entries == old(self).entries,
            final(self).update_hook == old(self).update_hook,
            final(self).retire_hook == old(self).retire_hook,
            final(self).runtime.spec_env().ctx_valid(r),
            final(self).runtime.spec_env().ctx_fiber(r) == old(self).runtime.spec_env().ctx_fiber(parent),
            forall|k: Seq<char>| #[trigger] final(self).runtime.spec_env().realm_of(r, k) == iso_realm(
                iso_pairs(entry.isolate@),
                entry.id@,
                k,
                old(self).runtime.spec_env().realm_of(parent, k),
            ),
            final(self).runtime.spec_env().ctx_meta(r) == entry.inject@.reverse() + entry.intercept@.reverse()
                + old(self).runtime.spec_env().ctx_meta(parent),
            crate::env::same_components(final(self).runtime.spec_env(), old(self).runtime.spec_env()),
            final(self).runtime.spec_env().spec_fibers() == old(self).runtime.spec_env().spec_fibers(),
            final(self).runtime.spec_env().spec_store() == old(self).runtime.spec_env().spec_store(),
    {
        let ghost e0 = self.runtime.spec_env();
        let ghost isos = iso_pairs(entry.isolate@);
        let mut ctx = self.runtime.derive(parent);
        let mut i: usize = 0;
        while i < entry.isolate.len()
            invariant
                i <= entry.isolate@.len(),
                isos == iso_pairs(entry.isolate@),
                self.names == old(self).names,
                self.events == old(self).events,
                self.configs@ == old(self).configs@,
                self.entries == old(self).entries,
                self.update_hook == old(self).update_hook,
                self.retire_hook == old(self).retire_hook,
                self.runtime.spec_env().ctx_valid(ctx),
                self.runtime.spec_env().ctx_fiber(ctx) == e0.ctx_fiber(parent),
                self.runtime.spec_env().ctx_meta(ctx) == e0.ctx_meta(parent),
                forall|k: Seq<char>| #[trigger] self.runtime.spec_env().realm_of(ctx, k) == iso_realm(
                    isos.take(i as int),
                    entry.id@,
                    k,
                    e0.realm_of(parent, k),
                ),
                self.runtime.spec_env().spec_fibers() == e0.spec_fibers(),
                self.runtime.spec_env().spec_store() == e0.spec_store(),
                crate::env::same_components(self.runtime.spec_env(), e0),
            decreases entry.isolate.len() - i,
        {
            let key = entry.isolate[i].0.clone();
            let realm = realm_name(&entry.isolate[i].1, entry.id.as_str(), &key);
            ctx = self.runtime.isolate(ctx, key, realm);
            proof {
                assert(isos.take(i + 1).drop_last() =~= isos.take(i as int));
                assert(isos.take(i + 1).last() == isos[i as int]);
            }
            i = i + 1;
        }
        proof {
            assert(isos.take(isos.len() as int) =~= isos);
        }
        let env = self.runtime.env_mut();
        let metas = entry.intercept.iter();
        prepend_meta(env, ctx, &metas);
        let injected = entry.inject.iter();
        prepend_meta(env, ctx, &injected);
        proof {
            assert(entry.inject@.reverse() + (entry.intercept@.reverse() + e0.ctx_meta(parent))
                =~= entry.inject@.reverse() + entry.intercept@.reverse() + e0.ctx_meta(parent));
        }
        ctx
    }

    /// In-place interception update of `ctx`: desired keys are (re)set,
    /// vanished keys cleared — no reload.
    fn apply_intercept(&mut self, ctx: Context, previous: &Intercepts, desired: &Intercepts)
        ensures
            final(self).names == old(self).names,
            final(self).events == old(self).events,
            final(self).configs@ == old(self).configs@,
            final(self).entries == old(self).entries,
            final(self).update_hook == old(self).update_hook,
            final(self).retire_hook == old(self).retire_hook,
            old(self).runtime.spec_env().ctx_valid(ctx) ==> final(self).runtime.spec_env().ctx_meta(ctx) == (desired@.reverse()
                + old(self).runtime.spec_env().ctx_meta(ctx)).filter(keep_fn(previous@, previous@.len() as int, desired@)),
            final(self).runtime.spec_env().ctx_realms(ctx) == old(self).runtime.spec_env().ctx_realms(ctx),
            final(self).runtime.spec_env().ctx_fiber(ctx) == old(self).runtime.spec_env().ctx_fiber(ctx),
            final(self).runtime.spec_env().ctx_acc(ctx) == old(self).runtime.spec_env().ctx_acc(ctx),
            final(self).runtime.spec_env().spec_fibers() == old(self).runtime.spec_env().spec_fibers(),
            final(self).runtime.spec_env().spec_store() == old(self).runtime.spec_env().spec_store(),
    {
        let env = self.runtime.env_mut();
        let now = desired.iter();
        prepend_meta(env, ctx, &now);
        clear_vanished(env, ctx, previous, desired);
    }

    /// The provision-clash diagnostic for component `c`: every provided
    /// key a registered fiber also provides, and the entry owning the first.
    fn clash_error(&self, entry_id: &String, c: usize) -> (r: EntryError)
        ensures
            r.entry_id@ == entry_id@,
            r.kind matches EntryErrorKind::ProvisionClash { keys, owner } && names(keys@) == clash_keys(
                self.runtime.spec_env().spec_fibers(),
                provision_of(self.runtime, c),
            ) && owner@ == clash_owner_name(self.runtime, self.entries@, c),
    {
        let mut keys: Vec<Symbol> = Vec::new();
        let mut owner_fiber: Option<FiberId> = None;
        let ghost ps = Seq::<Seq<char>>::empty();
        let ghost fsv = self.runtime.spec_env().spec_fibers();
        if c < self.runtime.env().n_components() {
            let provide = self.runtime.env().component_provide(c).iter();
            proof {
                ps = names(provide@);
            }
            let fs = self.runtime.env().fibers();
            let mut k: usize = 0;
            proof {
                assert(ps.take(0) =~= Seq::<Seq<char>>::empty());
                assert(names(keys@) =~= Seq::<Seq<char>>::empty());
            }
            while k < provide.len()
                invariant
                    k <= provide@.len(),
                    ps == names(provide@),
                    fs@ == fsv,
                    names(keys@) == clash_keys(fsv, ps.take(k as int)),
                    owner_fiber == clash_owner(fsv, ps.take(k as int)),
                decreases provide.len() - k,
            {
                let ghost pk = ps[k as int];
                let ghost ow0 = owner_fiber;
                let mut i: usize = 0;
                let mut hit = false;
                while i < fs.len() && !hit
                    invariant
                        i <= fs.len(),
                        k < provide.len(),
                        fs@ == fsv,
                        pk == ps[k as int],
                        ps == names(provide@),
                        !hit ==> forall|ii: int| 0 <= ii < i ==> !fsv[ii].provide@.contains(pk),
                        !hit ==> owner_fiber == ow0,
                        hit ==> provides_key(fsv, pk),
                        hit ==> owner_fiber == match ow0 {
                            Some(x) => Some(x),
                            None => Some(fsv[choose|t: int| first_provider(fsv, pk, t)].id),
                        },
                    decreases fs.len() - i,
                {
                    if fs[i].provide.contains(provide[k].clone()) {
                        proof {
                            assert(first_provider(fsv, pk, i as int));
                            let t = choose|t: int| first_provider(fsv, pk, t);
                            assert(t == i);
                        }
                        hit = true;
                        if owner_fiber.is_none() {
                            owner_fiber = Some(fs[i].id);
                        }
                    }
                    i = i + 1;
                }
                proof {
                    assert(ps.take(k + 1).drop_last() =~= ps.take(k as int));
                    assert(ps.take(k + 1).last() == pk);
                    if !hit {
                        assert(!provides_key(fsv, pk));
                    }
                }
                if hit {
                    keys.push(provide[k].clone());
                    proof {
                        assert(names(keys@) =~= clash_keys(fsv, ps.take(k as int)).push(pk));
                    }
                }
                k = k + 1;
            }
            proof {
                assert(ps.take(provide@.len() as int) =~= ps);
            }
        } else {
            proof {
                assert(names(keys@) =~= Seq::<Seq<char>>::empty());
            }
        }
        let owner = match owner_fiber {
            Some(f) => match entry_of(&self.entries, f, TREE_DEPTH) {
                Some(s) => s,
                None => String::new(),
            },
            None => String::new(),
        };
        EntryError { entry_id: entry_id.clone(), kind: EntryErrorKind::ProvisionClash { keys, owner } }
    }

    /// Instantiates component `c` with `config` in `ctx`; under a group
    /// (`parent` belongs to a fiber) the child's retirement is registered
    /// on the parent (recovering the group retires its children).
    fn instantiate(&mut self, entry: &Entry, ctx: Context, c: usize, config: Value, parent: Context) -> (r: Result<FiberId, EntryError>)
        ensures
            final(self).names == old(self).names,
            old(self).events@.is_prefix_of(final(self).events@),
            final(self).configs@ == old(self).configs@,
            final(self).entries == old(self).entries,
            final(self).update_hook == old(self).update_hook,
            final(self).retire_hook == old(self).retire_hook,
            r is Err ==> final(self).runtime.spec_env() == old(self).runtime.spec_env(),
            !old(self).runtime.spec_env().ctx_valid(ctx) || c >= old(self).runtime.spec_env().n_declared() ==> (r matches Err(e)
                && e.entry_id@ == entry.id@ && (e.kind matches EntryErrorKind::UnknownComponent { component }
                && component@ == entry.component@)),
            old(self).runtime.spec_env().ctx_valid(ctx) && c < old(self).runtime.spec_env().n_declared()
                && old(self).runtime.spec_env().spec_next() == u64::MAX ==> (r matches Err(e) && e.entry_id@ == entry.id@
                && (e.kind matches EntryErrorKind::ConfigValidation { message } && message@ == "no fiber name left"@)),
            ({
                let e0 = old(self).runtime.spec_env();
                let clash = exists|i: int| 0 <= i < e0.spec_fibers().len()
                    && !(#[trigger] e0.spec_fibers()[i]).provide@.disjoint(e0.declared_provide(c));
                e0.ctx_valid(ctx) && c < e0.n_declared() && e0.spec_next() < u64::MAX ==> {
                    &&& clash ==> (r matches Err(e) && e.entry_id@ == entry.id@ && (e.kind matches EntryErrorKind::ProvisionClash { keys, owner }
                        && names(keys@) == clash_keys(e0.spec_fibers(), provision_of(old(self).runtime, c))
                        && owner@ == clash_owner_name(old(self).runtime, old(self).entries@, c)))
                    &&& !clash ==> r == Ok::<FiberId, EntryError>(FiberId(e0.spec_next()))
                }
            }),
    {
        if !self.runtime.env().is_context(ctx) || c >= self.runtime.env().n_components() {
            return Err(EntryError {
                entry_id: entry.id.clone(),
                kind: EntryErrorKind::UnknownComponent { component: entry.component.clone() },
            });
        }
        if self.runtime.env().next_name() == u64::MAX {
            return Err(EntryError {
                entry_id: entry.id.clone(),
                kind: EntryErrorKind::ConfigValidation { message: String::from_str("no fiber name left") },
            });
        }
        self.events = Ghost(self.events@.push(LoadEvent::Built(entry.id@)));
        match self.runtime.instantiate(ctx, c, config) {
            Err(_) => Err(self.clash_error(&entry.id, c)),
            Ok(f) => {
                if self.runtime.env().fiber_of(parent).is_some() {
                    self.runtime.attach_child(parent, f.id());
                }
                Ok(f.id())
            },
        }
    }

    /// The outcome of a mounted fiber: a failure when it ended
    /// `Inactive(Some(ζ))`.
    fn fiber_outcome(&self, fid: FiberId, fresh: bool) -> (r: EntryOutcome)
        ensures
            (record_in(self.runtime, fid) matches Some(rec) && rec.state.spec_error() is Some) ==> (r matches EntryOutcome::FailedFiber { error }
                && error@ == record_in(self.runtime, fid)->0.state.spec_error()->0),
            !(record_in(self.runtime, fid) matches Some(rec) && rec.state.spec_error() is Some) ==> r == (if fresh {
                EntryOutcome::Activated
            } else {
                EntryOutcome::Unchanged
            }),
    {
        match self.runtime.fiber(fid) {
            Some(f) => match f.state() {
                FiberState::Inactive(Some(e)) => EntryOutcome::FailedFiber { error: String::from_str(e.message()) },
                _ => if fresh { EntryOutcome::Activated } else { EntryOutcome::Unchanged },
            },
            None => if fresh { EntryOutcome::Activated } else { EntryOutcome::Unchanged },
        }
    }

    fn record_of(entry: &Entry, ctx: Context, fiber: Option<FiberId>, children: Vec<LoadedEntry>) -> (r: LoadedEntry)
        ensures
            r.id@ == entry.id@,
            r.component@ == entry.component@,
            r.config@ == entry.config@,
            r.revision == entry.revision,
            r.disabled == entry.disabled,
            iso_pairs(r.isolate@) == iso_pairs(entry.isolate@),
            r.intercept@ == entry.intercept@,
            r.ctx == ctx,
            r.fiber == fiber,
            r.children == children,
    {
        LoadedEntry {
            id: entry.id.clone(),
            component: entry.component.clone(),
            config: entry.config.clone(),
            revision: entry.revision,
            disabled: entry.disabled,
            isolate: clone_isolate(&entry.isolate),
            intercept: entry.intercept.duplicate(),
            ctx,
            fiber,
            children,
        }
    }

    /// Builds and loads an entry: a leaf instantiates its component; a
    /// branch instantiates its holder, then its children under it. The
    /// outcomes are reported in order (a branch before its children); an
    /// orchestration error leaves the entry unmounted (`None`).
    fn make_loaded(&mut self, entry: &Entry, parent: Context, outcomes: &mut Vec<EntryOutcome>, depth: u64) -> (r: Option<LoadedEntry>)
        ensures
            final(self).names == old(self).names,
            old(self).events@.is_prefix_of(final(self).events@),
            final(self).configs@ == old(self).configs@,
            old(outcomes)@.is_prefix_of(final(outcomes)@),
            final(outcomes)@.len() > old(outcomes)@.len(),
            r is None <==> final(outcomes)@[old(outcomes)@.len() as int] is Failed,
            r matches Some(l) ==> l.id@ == entry.id@ && l.revision == entry.revision && l.disabled == entry.disabled
                && l.component@ == entry.component@ && l.config@ == entry.config@,
            entry.disabled && (entry.children@.len() > 0 || old(self).registered(entry.component@) is Some) ==> (r matches Some(l)
                && l.fiber is None && final(outcomes)@ == old(outcomes)@.push(EntryOutcome::Unchanged)),
            entry.children@.len() == 0 && old(self).registered(entry.component@) is None ==> (r is None
                && final(outcomes)@.len() == old(outcomes)@.len() + 1),
            ({
                let e0 = old(self).runtime.spec_env();
                let c = old(self).registered(entry.component@)->0;
                entry.children@.len() == 0 && !entry.disabled && old(self).registered(entry.component@) is Some
                    && c < e0.n_declared() && !has_cast(old(self).configs@, entry.component@)
                    && e0.spec_next() < u64::MAX
                    && !(exists|i: int| 0 <= i < e0.spec_fibers().len()
                        && !(#[trigger] e0.spec_fibers()[i]).provide@.disjoint(e0.declared_provide(c)))
                    ==> (r matches Some(l) && l.fiber == Some(FiberId(e0.spec_next())))
            }),
        decreases depth, 1nat,
    {
        if entry.is_group() {
            let ctx = self.annotated_ctx(parent, entry);
            if entry.disabled {
                outcomes.push(EntryOutcome::Unchanged);
                return Some(Self::record_of(entry, ctx, None, Vec::new()));
            }
            let holder = match self.instantiate(entry, ctx, self.holder, entry.config.clone(), parent) {
                Ok(f) => f,
                Err(e) => {
                    outcomes.push(EntryOutcome::Failed(e));
                    return None;
                },
            };
            outcomes.push(EntryOutcome::Activated);
            let ghost mid = outcomes@;
            let holder_ctx = match self.runtime.fiber(holder) {
                Some(f) => f.ctx(),
                None => ctx,
            };
            let mut children: Vec<LoadedEntry> = Vec::new();
            if depth > 0 {
                self.apply_into(&entry.children, holder_ctx, &mut children, outcomes, depth - 1);
            }
            proof {
                assert(outcomes@.subrange(0, mid.len() as int)[old(outcomes)@.len() as int] == mid[old(outcomes)@.len() as int]);
            }
            return Some(Self::record_of(entry, ctx, Some(holder), children));
        }
        let c = match self.component_of(entry.component.as_str()) {
            Some(c) => c,
            None => {
                outcomes.push(EntryOutcome::Failed(EntryError {
                    entry_id: entry.id.clone(),
                    kind: EntryErrorKind::UnknownComponent { component: entry.component.clone() },
                }));
                return None;
            },
        };
        let ctx = self.annotated_ctx(parent, entry);
        if entry.disabled {
            outcomes.push(EntryOutcome::Unchanged);
            return Some(Self::record_of(entry, ctx, None, Vec::new()));
        }
        match self.protocol_of(&entry.component) {
            Some(i) => match self.configs[i].1.validate(&entry.config) {
                Ok(()) => {},
                Err(message) => {
                    outcomes.push(EntryOutcome::Failed(EntryError {
                        entry_id: entry.id.clone(),
                        kind: EntryErrorKind::ConfigValidation { message },
                    }));
                    return None;
                },
            },
            None => {},
        }
        match self.instantiate(entry, ctx, c, entry.config.clone(), parent) {
            Err(e) => {
                outcomes.push(EntryOutcome::Failed(e));
                None
            },
            Ok(fid) => {
                outcomes.push(self.fiber_outcome(fid, true));
                Some(Self::record_of(entry, ctx, Some(fid), Vec::new()))
            },
        }
    }

    /// Tears a loaded entry down: retires its fiber (its dependents and, for
    /// a group, its children unload), tears the children down, then removes
    /// the fiber from the registry (children first).
    fn teardown(&mut self, l: LoadedEntry, depth: u64)
        ensures
            final(self).names == old(self).names,
            old(self).events@.push(LoadEvent::TornDown(l.id@)).is_prefix_of(final(self).events@),
            old(self).events@.is_prefix_of(final(self).events@),
            builds_nothing(final(self).events@, old(self).events@.len() as int),
            final(self).configs@ == old(self).configs@,
        decreases depth, 0nat,
    {
        self.events = Ghost(self.events@.push(LoadEvent::TornDown(l.id@)));
        let ghost e1 = self.events@;
        proof {
            assert(e1 =~= e1.subrange(0, e1.len() as int));
        }
        match l.fiber {
            Some(f) => self.runtime.retire(f),
            None => {},
        }
        let mut children = l.children;
        if depth > 0 {
            while children.len() > 0
                invariant
                    self.names == old(self).names,
                    e1.is_prefix_of(self.events@),
                    e1 == old(self).events@.push(LoadEvent::TornDown(l.id@)),
                    builds_nothing(self.events@, old(self).events@.len() as int),
                    self.configs@ == old(self).configs@,
                    depth > 0,
                decreases children.len(),
            {
                let c = children.remove(0);
                let ghost ev0 = self.events@;
                self.teardown(c, depth - 1);
                proof {
                    lemma_events_prefix(e1, ev0, self.events@);
                    assert forall|k: int| old(self).events@.len() <= k < self.events@.len() implies !(#[trigger] self.events@[k] is Built) by {
                        if k < ev0.len() {
                            lemma_events_prefix(ev0, ev0, self.events@);
                            assert(self.events@[k] == ev0[k]);
                        }
                    }
                }
            }
        }
        match l.fiber {
            Some(f) => {
                let _ = self.runtime.remove_fiber(f);
            },
            None => {},
        }
        proof {
            lemma_events_prefix(old(self).events@, e1, self.events@);
        }
    }

    /// The removal phase of a level: every loaded entry whose last desired
    /// entry is absent, newly disabled or rebuilt is torn down (its
    /// provisions released) before anything of the level is instantiated.
    fn release_dropped(&mut self, desired: &Vec<Entry>, loaded: &mut Vec<LoadedEntry>, depth: u64)
        ensures
            final(self).names == old(self).names,
            old(self).events@.is_prefix_of(final(self).events@),
            final(self).configs@ == old(self).configs@,
            forall|t: int| 0 <= t < final(loaded)@.len() ==> desired_has(desired@, (#[trigger] final(loaded)@[t]).id@),
            released_first(final(self).events@, old(self).events@.len() as int, final(self).events@.len() as int, old(loaded)@, desired@),
    {
        let mut ids: Vec<String> = Vec::new();
        let mut i: usize = 0;
        while i < loaded.len()
            invariant
                self.names == old(self).names,
                old(self).events@.is_prefix_of(self.events@),
                self.configs@ == old(self).configs@,
                loaded@ == old(loaded)@,
                i <= loaded@.len(),
                ids@.len() == i,
                texts(ids@) == ids_of(loaded@).take(i as int),
            decreases loaded.len() - i,
        {
            let ghost prev = ids@;
            ids.push(loaded[i].id.clone());
            proof {
                assert(ids@ == prev.push(ids@.last()));
                assert forall|j: int| 0 <= j < i + 1 implies texts(ids@)[j] == ids_of(loaded@).take(i + 1)[j] by {
                    if j < i {
                        assert(texts(ids@)[j] == ids@[j]@);
                        assert(ids@[j] == prev[j]);
                        assert(texts(prev)[j] == prev[j]@);
                    } else {
                        assert(texts(ids@)[j] == ids@[j]@);
                        assert(ids_of(loaded@)[j] == loaded@[j].id@);
                    }
                }
                assert(texts(ids@) =~= ids_of(loaded@).take(i + 1));
            }
            i = i + 1;
        }
        proof {
            assert(ids_of(loaded@).take(loaded@.len() as int) =~= ids_of(loaded@));
            assert(texts(ids@).skip(0) =~= texts(ids@));
        }
        let mut k: usize = 0;
        proof {
            assert(self.events@ == old(self).events@);
            assert forall|t: int| 0 <= t < old(loaded)@.len() implies present(loaded@, #[trigger] old(loaded)@[t]) by {
                assert(loaded@[t] == old(loaded)@[t]);
            }
            assert forall|pos: int| 0 <= pos < loaded@.len() implies present(old(loaded)@, #[trigger] loaded@[pos]) by {
                assert(loaded@[pos] == old(loaded)@[pos]);
            }
        }
        while k < ids.len()
            invariant
                self.names == old(self).names,
                old(self).events@.is_prefix_of(self.events@),
                self.configs@ == old(self).configs@,
                k <= ids@.len(),
                texts(ids@) == ids_of(old(loaded)@),
                ids@.len() == old(loaded)@.len(),
                builds_nothing(self.events@, old(self).events@.len() as int),
                forall|pos: int| 0 <= pos < loaded@.len() ==> present(old(loaded)@, #[trigger] loaded@[pos]),
                forall|t: int| k <= t < old(loaded)@.len() && unique_at(old(loaded)@, t)
                    ==> present(loaded@, #[trigger] old(loaded)@[t]),
                forall|t: int| 0 <= t < k && unique_at(old(loaded)@, t) && released(desired@, #[trigger] old(loaded)@[t])
                    ==> torn(self.events@, old(self).events@.len() as int, self.events@.len() as int, old(loaded)@[t].id@),
                forall|x: Seq<char>| !desired_has(desired@, x) ==> key_count(ids_of(loaded@), x) <= key_count(
                    texts(ids@).skip(k as int),
                    x,
                ),
            decreases ids.len() - k,
        {
            let ghost before = loaded@;
            let ghost xk = texts(ids@)[k as int];
            let ghost ev_before = self.events@;
            let ghost ok = old(loaded)@[k as int];
            proof {
                assert(ids_of(old(loaded)@)[k as int] == ok.id@);
                assert(xk == ok.id@);
                assert(texts(ids@)[k as int] == ids@[k as int]@);
                assert(texts(ids@).skip(k as int).drop_first() =~= texts(ids@).skip(k + 1));
                assert(texts(ids@).skip(k as int)[0] == xk);
                assert forall|x: Seq<char>| #[trigger] key_count(texts(ids@).skip(k as int), x) == (if xk == x { 1nat } else { 0nat })
                    + key_count(texts(ids@).skip(k + 1), x) by {}
            }
            match index_of(loaded, &ids[k]) {
                None => {
                    proof {
                        assert forall|j: int| 0 <= j < ids_of(loaded@).len() implies ids_of(loaded@)[j] != xk by {}
                        lemma_count_zero(ids_of(loaded@), xk);
                        if unique_at(old(loaded)@, k as int) {
                            let pos2 = choose|pos2: int| 0 <= pos2 < loaded@.len() && loaded@[pos2] == old(loaded)@[k as int];
                            assert(loaded@[pos2].id@ == xk);
                        }
                    }
                },
                Some(pos) => {
                    let drop = match last_desired(desired, &ids[k]) {
                        None => true,
                        Some(e) => {
                            let l = &loaded[pos];
                            let disabling = !l.disabled && e.disabled;
                            let rebuilding = !e.disabled && (l.component != e.component
                                || (l.revision != e.revision && !self.configs_same(&e.component, &l.config, &e.config)));
                            disabling || rebuilding
                        },
                    };
                    proof {
                        assert(before[pos as int].id@ == xk);
                        if unique_at(old(loaded)@, k as int) {
                            let t1 = choose|t1: int| 0 <= t1 < old(loaded)@.len() && before[pos as int] == old(loaded)@[t1];
                            if t1 != k as int {
                                assert(old(loaded)@[t1].id@ != old(loaded)@[k as int].id@);
                            }
                            assert(before[pos as int] == ok);
                            if released(desired@, ok) {
                                assert(drop) by {
                                    if desired_has(desired@, xk) {
                                        let j = choose|j: int| 0 <= j < desired@.len() && desired@[j].id@ == xk
                                            && forall|t: int| j < t < desired@.len() ==> desired@[t].id@ != xk;
                                        assert(desired@[j].id@ == ok.id@);
                                    }
                                }
                            }
                        }
                    }
                    if drop {
                        let l = loaded.remove(pos);
                        proof {
                            assert(ids_of(loaded@) =~= ids_of(before).remove(pos as int));
                            assert(ids_of(before)[pos as int] == xk);
                            assert forall|x: Seq<char>| #[trigger] key_count(ids_of(loaded@), x) + (if xk == x { 1nat } else { 0nat })
                                == key_count(ids_of(before), x) by {
                                lemma_count_remove(ids_of(before), pos as int, x);
                            }
                        }
                        let ghost lid = l.id@;
                        self.teardown(l, depth);
                        proof {
                            lemma_events_prefix(ev_before, ev_before.push(LoadEvent::TornDown(lid)), self.events@);
                            assert(self.events@[ev_before.len() as int] == ev_before.push(LoadEvent::TornDown(lid))[ev_before.len() as int]);
                            assert forall|t: int| k + 1 <= t < old(loaded)@.len() && unique_at(old(loaded)@, t)
                                implies present(loaded@, #[trigger] old(loaded)@[t]) by {
                                let p1 = choose|p1: int| 0 <= p1 < before.len() && before[p1] == old(loaded)@[t];
                                assert(old(loaded)@[t].id@ != old(loaded)@[k as int].id@);
                                assert(p1 != pos as int);
                                let p2 = if p1 < pos as int { p1 } else { p1 - 1 };
                                assert(loaded@[p2] == before[p1]);
                            }
                            assert forall|q: int| 0 <= q < loaded@.len() implies present(old(loaded)@, #[trigger] loaded@[q]) by {
                                let q1 = if q < pos as int { q } else { q + 1 };
                                assert(loaded@[q] == before[q1]);
                            }
                            assert forall|t: int| 0 <= t < k + 1 && unique_at(old(loaded)@, t) && released(desired@, #[trigger] old(loaded)@[t])
                                implies torn(self.events@, old(self).events@.len() as int, self.events@.len() as int, old(loaded)@[t].id@) by {
                                if t < k {
                                    let w = choose|w: int| old(self).events@.len() <= w < ev_before.len() && ev_before[w] == LoadEvent::TornDown(old(loaded)@[t].id@);
                                    assert(self.events@[w] == ev_before[w]);
                                } else {
                                    assert(lid == old(loaded)@[t].id@);
                                }
                            }
                            assert forall|w: int| old(self).events@.len() <= w < self.events@.len() implies !(#[trigger] self.events@[w] is Built) by {
                                if w < ev_before.len() {
                                    assert(self.events@[w] == ev_before[w]);
                                }
                            }
                        }
                    } else {
                        proof {
                            assert forall|t: int| k + 1 <= t < old(loaded)@.len() && unique_at(old(loaded)@, t)
                                implies present(loaded@, #[trigger] old(loaded)@[t]) by {
                            }
                            if unique_at(old(loaded)@, k as int) {
                                assert(!released(desired@, ok));
                            }
                        }
                    }
                },
            }
            k = k + 1;
        }
        proof {
            assert forall|t: int| 0 <= t < loaded@.len() implies desired_has(desired@, (#[trigger] loaded@[t]).id@) by {
                let x = loaded@[t].id@;
                if !desired_has(desired@, x) {
                    assert(texts(ids@).skip(ids@.len() as int).len() == 0);
                    lemma_count_zero(ids_of(loaded@), x);
                    assert(ids_of(loaded@)[t] == x);
                }
            }
        }
    }

    /// Reconciles one level of entries under `parent`: first the removal
    /// side (vanished, disabled and rebuilt entries release their
    /// provisions), then the instantiation side (new, re-enabled and rebuilt
    /// entries; surviving ones are reconciled field by field).
    fn apply_into(&mut self, desired: &Vec<Entry>, parent: Context, loaded: &mut Vec<LoadedEntry>, outcomes: &mut Vec<EntryOutcome>, depth: u64)
        ensures
            final(self).names == old(self).names,
            old(self).events@.is_prefix_of(final(self).events@),
            final(self).configs@ == old(self).configs@,
            old(outcomes)@.is_prefix_of(final(outcomes)@),
            final(outcomes)@.len() >= old(outcomes)@.len() + desired@.len(),
            forall|t: int| 0 <= t < final(loaded)@.len() ==> desired_has(desired@, (#[trigger] final(loaded)@[t]).id@),
            forall|d: int| 0 <= d < desired@.len() ==> mounted_or_failed(
                ids_of(final(loaded)@),
                #[trigger] desired@[d].id@,
                final(outcomes)@,
                old(outcomes)@.len() as int,
            ),
            exists|p: int| #[trigger] released_first(final(self).events@, old(self).events@.len() as int, p, old(loaded)@, desired@),
        decreases depth, 4nat,
    {
        let ghost ev0 = self.events@;
        self.release_dropped(desired, loaded, depth);
        let ghost ev1 = self.events@;
        let ghost level0 = old(loaded)@;
        proof {
            lemma_events_prefix(ev1, ev1, ev1);
        }
        let mut d: usize = 0;
        while d < desired.len()
            invariant
                self.names == old(self).names,
                ev1.is_prefix_of(self.events@),
                old(self).events@.is_prefix_of(ev1),
                released_first(ev1, old(self).events@.len() as int, ev1.len() as int, old(loaded)@, desired@),
                old(self).events@.is_prefix_of(self.events@),
                self.configs@ == old(self).configs@,
                d <= desired@.len(),
                old(outcomes)@.is_prefix_of(outcomes@),
                outcomes@.len() >= old(outcomes)@.len() + d,
                forall|t: int| 0 <= t < loaded@.len() ==> desired_has(desired@, (#[trigger] loaded@[t]).id@),
                forall|d2: int| 0 <= d2 < d ==> mounted_or_failed(
                    ids_of(loaded@),
                    #[trigger] desired@[d2].id@,
                    outcomes@,
                    old(outcomes)@.len() as int,
                ),
            decreases desired.len() - d,
        {
            let entry = &desired[d];
            let ghost before = loaded@;
            let ghost o_before = outcomes@;
            proof {
                assert(desired_has(desired@, entry.id@));
            }
            match index_of(loaded, &entry.id) {
                None => {
                    match self.make_loaded(entry, parent, outcomes, depth) {
                        Some(l) => {
                            loaded.push(l);
                            proof {
                                lemma_keep_push(before, l, entry.id@);
                            }
                        },
                        None => {
                            proof {
                                lemma_keep_level(before, before, entry.id@);
                                assert(outcomes@[o_before.len() as int] is Failed);
                            }
                        },
                    }
                    proof {
                        assert forall|d2: int| 0 <= d2 < d + 1 implies mounted_or_failed(
                            ids_of(loaded@),
                            #[trigger] desired@[d2].id@,
                            outcomes@,
                            old(outcomes)@.len() as int,
                        ) by {
                            if d2 < d {
                                lemma_mounted_step(before, loaded@, entry.id@, o_before, outcomes@, old(outcomes)@.len() as int, desired@[d2].id@);
                            }
                        }
                    }
                },
                Some(pos) => {
                    self.reconcile_into(entry, pos, parent, loaded, outcomes, depth);
                    proof {
                        assert forall|d2: int| 0 <= d2 < d + 1 implies mounted_or_failed(
                            ids_of(loaded@),
                            #[trigger] desired@[d2].id@,
                            outcomes@,
                            old(outcomes)@.len() as int,
                        ) by {
                            if d2 < d {
                                lemma_mounted_step(before, loaded@, entry.id@, o_before, outcomes@, old(outcomes)@.len() as int, desired@[d2].id@);
                            }
                        }
                        assert forall|t: int| 0 <= t < loaded@.len() implies desired_has(desired@, (#[trigger] loaded@[t]).id@) by {
                            if ids_of(before).contains(loaded@[t].id@) {
                                let u = choose|u: int| 0 <= u < ids_of(before).len() && ids_of(before)[u] == loaded@[t].id@;
                                assert(before[u].id@ == loaded@[t].id@);
                            }
                        }
                    }
                },
            }
            d = d + 1;
        }
        proof {
            lemma_released_first_ext(ev1, self.events@, old(self).events@.len() as int, ev1.len() as int, old(loaded)@, desired@);
        }
    }

    /// Replaces the loaded entry at `pos` by a fresh build of `entry`.
    fn rebuild(&mut self, entry: &Entry, pos: usize, parent: Context, loaded: &mut Vec<LoadedEntry>, outcomes: &mut Vec<EntryOutcome>, depth: u64)
        ensures
            final(self).names == old(self).names,
            old(self).events@.is_prefix_of(final(self).events@),
            from_level(old(loaded)@, final(loaded)@, entry.id@),
            final(self).configs@ == old(self).configs@,
            old(outcomes)@.is_prefix_of(final(outcomes)@),
            final(outcomes)@.len() > old(outcomes)@.len(),
            pos < old(loaded)@.len() ==> old(loaded)@[pos as int].id@ == entry.id@ ==> keeps_others(old(loaded)@, final(loaded)@, entry.id@),
            mounted_or_failed(ids_of(final(loaded)@), entry.id@, final(outcomes)@, old(outcomes)@.len() as int),
            entry.disabled && (entry.children@.len() > 0 || old(self).registered(entry.component@) is Some) ==> {
                &&& final(loaded)@.len() > 0
                &&& (pos < old(loaded)@.len() ==> final(loaded)@.len() == old(loaded)@.len())
                &&& final(loaded)@.last().id@ == entry.id@
                &&& final(loaded)@.last().fiber is None
                &&& final(outcomes)@ == old(outcomes)@.push(EntryOutcome::Unchanged)
            },
        decreases depth, 2nat,
    {
        proof {
            lemma_level_same(loaded@, loaded@, entry.id@);
            lemma_keep_level(loaded@, loaded@, entry.id@);
        }
        if pos < loaded.len() {
            let l = loaded.remove(pos);
            proof {
                lemma_level_remove(old(loaded)@, pos as int, entry.id@);
                if old(loaded)@[pos as int].id@ == entry.id@ {
                    lemma_keep_remove(old(loaded)@, pos as int, entry.id@);
                }
            }
            self.teardown(l, depth);
        }
        let ghost mid = loaded@;
        let ghost o0 = outcomes@.len();
        match self.make_loaded(entry, parent, outcomes, depth) {
            Some(n) => {
                loaded.push(n);
                proof {
                    lemma_level_push(old(loaded)@, mid, n, entry.id@);
                    lemma_keep_push(mid, n, entry.id@);
                    if pos < old(loaded)@.len() && old(loaded)@[pos as int].id@ == entry.id@ {
                        lemma_keep_trans(old(loaded)@, mid, loaded@, entry.id@);
                    }
                }
            },
            None => {
                proof {
                    assert(outcomes@[o0 as int] is Failed);
                }
            },
        }
    }

    /// Per-field dispatch on a surviving entry (recursing into a branch's
    /// children).
    fn reconcile_into(&mut self, entry: &Entry, pos: usize, parent: Context, loaded: &mut Vec<LoadedEntry>, outcomes: &mut Vec<EntryOutcome>, depth: u64)
        requires
            pos < old(loaded)@.len() ==> old(loaded)@[pos as int].id@ == entry.id@,
        ensures
            keeps_others(old(loaded)@, final(loaded)@, entry.id@),
            pos < old(loaded)@.len() ==> mounted_or_failed(ids_of(final(loaded)@), entry.id@, final(outcomes)@, old(outcomes)@.len() as int),
            final(self).names == old(self).names,
            old(self).events@.is_prefix_of(final(self).events@),
            from_level(old(loaded)@, final(loaded)@, entry.id@),
            final(self).configs@ == old(self).configs@,
            old(outcomes)@.is_prefix_of(final(outcomes)@),
            pos < old(loaded)@.len() ==> final(outcomes)@.len() > old(outcomes)@.len(),
            pos >= old(loaded)@.len() ==> final(outcomes)@ == old(outcomes)@,
            pos < old(loaded)@.len() && old(loaded)@[pos as int].disabled == entry.disabled && entry.disabled
                ==> final(loaded)@ == old(loaded)@,
            pos < old(loaded)@.len() && !old(loaded)@[pos as int].disabled && entry.disabled
                && (entry.children@.len() > 0 || old(self).registered(entry.component@) is Some) ==> {
                &&& final(loaded)@.len() == old(loaded)@.len()
                &&& final(loaded)@.last().id@ == entry.id@
                &&& final(loaded)@.last().fiber is None
                &&& final(outcomes)@ == old(outcomes)@.push(EntryOutcome::Unchanged)
            },
            pos < old(loaded)@.len() && old(loaded)@[pos as int].disabled == entry.disabled && !entry.disabled
                && entry.children@.len() == 0 && old(loaded)@[pos as int].component@ == entry.component@
                && old(loaded)@[pos as int].revision == entry.revision ==> {
                &&& final(loaded)@.len() == old(loaded)@.len()
                &&& final(loaded)@[pos as int].id == old(loaded)@[pos as int].id
                &&& final(loaded)@[pos as int].fiber == old(loaded)@[pos as int].fiber
                &&& final(loaded)@[pos as int].config@ == entry.config@
                &&& iso_pairs(final(loaded)@[pos as int].isolate@) == iso_pairs(entry.isolate@)
                &&& final(loaded)@[pos as int].intercept@ == entry.intercept@
            },
        decreases depth, 3nat,
    {
        proof {
            lemma_level_same(loaded@, loaded@, entry.id@);
            lemma_keep_level(loaded@, loaded@, entry.id@);
        }
        if pos >= loaded.len() {
            return;
        }
        if loaded[pos].disabled != entry.disabled {
            if entry.disabled {
                self.rebuild(entry, pos, parent, loaded, outcomes, depth);
            } else {
                let l = loaded.remove(pos);
                proof {
                    lemma_level_remove(old(loaded)@, pos as int, entry.id@);
                    lemma_keep_remove(old(loaded)@, pos as int, entry.id@);
                }
                let retired = match l.fiber {
                    Some(f) => match self.runtime.fiber(f) {
                        Some(r) => r.retired(),
                        None => false,
                    },
                    None => false,
                };
                if retired {
                    self.teardown(l, depth);
                }
                let ghost mid = loaded@;
                let ghost o0 = outcomes@.len();
                match self.make_loaded(entry, parent, outcomes, depth) {
                    Some(n) => {
                        loaded.push(n);
                        proof {
                            lemma_level_push(old(loaded)@, mid, n, entry.id@);
                            lemma_keep_push(mid, n, entry.id@);
                            lemma_keep_trans(old(loaded)@, mid, loaded@, entry.id@);
                        }
                    },
                    None => {
                        proof {
                            assert(outcomes@[o0 as int] is Failed);
                        }
                    },
                }
            }
            return;
        }
        if entry.disabled {
            outcomes.push(EntryOutcome::Unchanged);
            proof {
                assert(ids_of(loaded@)[pos as int] == entry.id@);
            }
            return;
        }
        if entry.is_group() {
            if !same_isolate(&loaded[pos].isolate, &entry.isolate) {
                self.rebuild(entry, pos, parent, loaded, outcomes, depth);
                return;
            }
            let mut l = loaded.remove(pos);
            let holder_ctx = match l.fiber {
                Some(f) => match self.runtime.fiber(f) {
                    Some(r) => Some(r.ctx()),
                    None => None,
                },
                None => None,
            };
            match holder_ctx {
                Some(hc) => self.apply_intercept(hc, &l.intercept, &entry.intercept),
                None => {},
            }
            l.intercept = entry.intercept.duplicate();
            l.config = entry.config.clone();
            l.revision = entry.revision;
            outcomes.push(EntryOutcome::Unchanged);
            match holder_ctx {
                Some(hc) => if depth > 0 {
                    let mut children: Vec<LoadedEntry> = Vec::new();
                    std::mem::swap(&mut children, &mut l.children);
                    self.apply_into(&entry.children, hc, &mut children, outcomes, depth - 1);
                    l.children = children;
                },
                None => {},
            }
            loaded.insert(pos, l);
            proof {
                assert(loaded@ =~= old(loaded)@.update(pos as int, loaded@[pos as int]));
                lemma_level_same(old(loaded)@, loaded@, entry.id@);
                lemma_keep_level(old(loaded)@, loaded@, entry.id@);
                assert(ids_of(loaded@)[pos as int] == entry.id@);
            }
            return;
        }
        let rebuilding = loaded[pos].component != entry.component
            || (loaded[pos].revision != entry.revision
                && !self.configs_same(&entry.component, &loaded[pos].config, &entry.config));
        if rebuilding {
            self.rebuild(entry, pos, parent, loaded, outcomes, depth);
            return;
        }
        let mut l = loaded.remove(pos);
        if !same_isolate(&l.isolate, &entry.isolate) {
            self.patch_isolation(entry, &mut l);
        }
        match l.fiber {
            Some(f) => match self.runtime.fiber(f) {
                Some(r) => self.apply_intercept(r.ctx(), &l.intercept, &entry.intercept),
                None => {},
            },
            None => {},
        }
        l.intercept = entry.intercept.duplicate();
        l.config = entry.config.clone();
        l.revision = entry.revision;
        l.isolate = clone_isolate(&entry.isolate);
        let outcome = match l.fiber {
            Some(f) => self.fiber_outcome(f, false),
            None => EntryOutcome::Unchanged,
        };
        outcomes.push(outcome);
        loaded.insert(pos, l);
        proof {
            assert(loaded@ =~= old(loaded)@.update(pos as int, loaded@[pos as int]));
            lemma_level_same(old(loaded)@, loaded@, entry.id@);
            lemma_keep_level(old(loaded)@, loaded@, entry.id@);
            assert(ids_of(loaded@)[pos as int] == entry.id@);
        }
    }

    /// Isolation realm reassignment, in place: for every key
    /// whose realm changes (`s1 → s2`), redirect `ρ` in the entry's context
    /// and in every fiber context of its subtree, refresh the subtree,
    /// move the subtree's own bindings from `s1` to `s2` (when `s2` is
    /// free), and refresh the outside dependents that resolve to either
    /// realm.
    fn patch_isolation(&mut self, entry: &Entry, l: &mut LoadedEntry)
        ensures
            final(self).names == old(self).names,
            final(self).events == old(self).events,
            *final(l) == *old(l),
            final(self).configs@ == old(self).configs@,
    {
        let fid = match l.fiber {
            Some(f) => f,
            None => return,
        };
        let rec = match self.runtime.fiber(fid) {
            Some(r) => r,
            None => return,
        };
        let mut keys: Vec<Symbol> = Vec::new();
        let inject = rec.inject().iter();
        let mut a: usize = 0;
        while a < inject.len()
            invariant
                self.names == old(self).names,
                self.events == old(self).events,
                self.configs@ == old(self).configs@,
            decreases inject.len() - a,
        {
            push_unique(&mut keys, inject[a].clone());
            a = a + 1;
        }
        let provide = rec.provide().iter();
        let mut b: usize = 0;
        while b < provide.len()
            invariant
                self.names == old(self).names,
                self.events == old(self).events,
                self.configs@ == old(self).configs@,
            decreases provide.len() - b,
        {
            push_unique(&mut keys, provide[b].clone());
            b = b + 1;
        }
        let mut c: usize = 0;
        while c < entry.isolate.len()
            invariant
                self.names == old(self).names,
                self.events == old(self).events,
                self.configs@ == old(self).configs@,
            decreases entry.isolate.len() - c,
        {
            push_unique(&mut keys, entry.isolate[c].0.clone());
            c = c + 1;
        }
        let mut d: usize = 0;
        while d < l.isolate.len()
            invariant
                self.names == old(self).names,
                self.events == old(self).events,
                self.configs@ == old(self).configs@,
            decreases l.isolate.len() - d,
        {
            push_unique(&mut keys, l.isolate[d].0.clone());
            d = d + 1;
        }
        let mut diff: Vec<(Symbol, Symbol, Symbol)> = Vec::new();
        let mut k: usize = 0;
        while k < keys.len()
            invariant
                self.names == old(self).names,
                self.events == old(self).events,
                self.configs@ == old(self).configs@,
            decreases keys.len() - k,
        {
            let s1 = realm_for(&l.isolate, entry.id.as_str(), &keys[k]);
            let s2 = realm_for(&entry.isolate, entry.id.as_str(), &keys[k]);
            if !s1.same(&s2) {
                diff.push((keys[k].clone(), s1, s2));
            }
            k = k + 1;
        }
        if diff.len() == 0 {
            return;
        }
        let mut subtree: Vec<FiberId> = Vec::new();
        collect_fibers(l, &mut subtree, TREE_DEPTH);
        let mut x: usize = 0;
        while x < diff.len()
            invariant
                self.names == old(self).names,
                self.events == old(self).events,
                self.configs@ == old(self).configs@,
            decreases diff.len() - x,
        {
            self.runtime.env_mut().set_realm_in_place(l.ctx, diff[x].0.clone(), diff[x].2.clone());
            let mut y: usize = 0;
            while y < subtree.len()
                invariant
                    self.names == old(self).names,
                    self.events == old(self).events,
                    self.configs@ == old(self).configs@,
                    x < diff.len(),
                decreases subtree.len() - y,
            {
                match self.runtime.fiber(subtree[y]) {
                    Some(f) => self.runtime.env_mut().set_realm_in_place(f.ctx(), diff[x].0.clone(), diff[x].2.clone()),
                    None => {},
                }
                y = y + 1;
            }
            x = x + 1;
        }
        let mut z: usize = 0;
        while z < subtree.len()
            invariant
                self.names == old(self).names,
                self.events == old(self).events,
                self.configs@ == old(self).configs@,
            decreases subtree.len() - z,
        {
            self.runtime.refresh(subtree[z]);
            z = z + 1;
        }
        let mut own: Vec<bool> = Vec::new();
        let mut p: usize = 0;
        while p < diff.len()
            invariant
                self.names == old(self).names,
                self.events == old(self).events,
                self.configs@ == old(self).configs@,
                p <= diff.len(),
                own@.len() == p,
            decreases diff.len() - p,
        {
            let owned = match self.runtime.store().binding(diff[p].1.clone()) {
                Some(bd) => match bd.provider {
                    Some(pf) => contains_fiber(&subtree, pf),
                    None => false,
                },
                None => false,
            };
            own.push(owned);
            p = p + 1;
        }
        let mut q: usize = 0;
        while q < diff.len()
            invariant
                self.names == old(self).names,
                self.events == old(self).events,
                self.configs@ == old(self).configs@,
                own@.len() == diff@.len(),
            decreases diff.len() - q,
        {
            if own[q] {
                let _ = self.runtime.env_mut().move_binding(diff[q].1.clone(), diff[q].2.clone());
            }
            q = q + 1;
        }
        let mut outside: Vec<FiberId> = Vec::new();
        {
            let fs = self.runtime.env().fibers();
            let mut g: usize = 0;
            while g < fs.len()
                invariant
                    self.names == old(self).names,
                    self.events == old(self).events,
                    self.configs@ == old(self).configs@,
                    own@.len() == diff@.len(),
                decreases fs.len() - g,
            {
                if !contains_fiber(&subtree, fs[g].id) {
                    let gk = fs[g].inject.iter();
                    let mut hit = false;
                    let mut r: usize = 0;
                    while r < diff.len() && !hit
                        invariant
                            self.names == old(self).names,
                            self.events == old(self).events,
                            self.configs@ == old(self).configs@,
                            own@.len() == diff@.len(),
                            g < fs.len(),
                        decreases diff.len() - r,
                    {
                        if own[r] {
                            let mut t: usize = 0;
                            while t < gk.len() && !hit
                                invariant
                                    self.names == old(self).names,
                                    self.events == old(self).events,
                                    self.configs@ == old(self).configs@,
                                    r < diff.len(),
                                    g < fs.len(),
                                decreases gk.len() - t,
                            {
                                let realm = self.runtime.env().resolve_realm(fs[g].ctx, &gk[t]);
                                if realm.same(&diff[r].1) || realm.same(&diff[r].2) {
                                    hit = true;
                                }
                                t = t + 1;
                            }
                        }
                        r = r + 1;
                    }
                    if hit {
                        outside.push(fs[g].id);
                    }
                }
                g = g + 1;
            }
        }
        let mut o: usize = 0;
        while o < outside.len()
            invariant
                self.names == old(self).names,
                self.events == old(self).events,
                self.configs@ == old(self).configs@,
            decreases outside.len() - o,
        {
            self.runtime.refresh(outside[o]);
            o = o + 1;
        }
    }

    /// Reconciles the runtime with `desired` (the authoritative record),
    /// incrementally and idempotently, down the whole tree; returns the
    /// per-entry report.
    pub fn apply(&mut self, desired: &Vec<Entry>) -> (r: ApplyReport)
        ensures
            forall|n: Seq<char>| #[trigger] final(self).registered(n) == old(self).registered(n),
            final(self).spec_configs() == old(self).spec_configs(),
            r.outcomes@.len() >= desired@.len(),
            forall|t: int| 0 <= t < final(self).n_top() ==> desired_has(desired@, #[trigger] final(self).top_id(t)),
            no_failure(r.outcomes@) ==> forall|d: int| 0 <= d < desired@.len() ==> final(self).has_top(#[trigger] desired@[d].id@),
    {
        let mut loaded: Vec<LoadedEntry> = Vec::new();
        std::mem::swap(&mut loaded, &mut self.entries);
        self.sync_writebacks(&mut loaded, TREE_DEPTH);
        let mut outcomes: Vec<EntryOutcome> = Vec::new();
        let root = self.root;
        self.apply_into(desired, root, &mut loaded, &mut outcomes, TREE_DEPTH);
        self.entries = loaded;
        proof {
            assert forall|t: int| 0 <= t < self.n_top() implies desired_has(desired@, #[trigger] self.top_id(t)) by {
                assert(desired_has(desired@, self.entries@[t].id@));
            }
            assert forall|d: int| 0 <= d < desired@.len() && no_failure(outcomes@)
                implies self.has_top(#[trigger] desired@[d].id@) by {
                assert(mounted_or_failed(ids_of(self.entries@), desired@[d].id@, outcomes@, 0));
                if !ids_of(self.entries@).contains(desired@[d].id@) {
                    let k = choose|k: int| 0 <= k < outcomes@.len() && outcomes@[k] is Failed;
                    assert(!(outcomes@[k] is Failed));
                }
                let t = choose|t: int| 0 <= t < ids_of(self.entries@).len() && ids_of(self.entries@)[t] == desired@[d].id@;
                assert(self.entries@[t].id@ == desired@[d].id@);
            }
        }
        ApplyReport { outcomes }
    }

    /// Applies the registered write-backs to the loaded tree: a component's
    /// own retirement marks its entry disabled, a component's in-place
    /// reconfiguration becomes its entry's configuration.
    fn sync_writebacks(&self, list: &mut Vec<LoadedEntry>, depth: u64)
        ensures
            final(list)@.len() == old(list)@.len(),
            forall|t: int| 0 <= t < old(list)@.len() ==> synced(self.runtime, self.update_hook, self.retire_hook, old(list)@[t], #[trigger] final(list)@[t], depth as nat),
        decreases depth,
    {
        let mut i: usize = 0;
        while i < list.len()
            invariant
                list@.len() == old(list)@.len(),
                i <= list@.len(),
                forall|t: int| 0 <= t < i ==> synced(self.runtime, self.update_hook, self.retire_hook, old(list)@[t], #[trigger] list@[t], depth as nat),
                forall|t: int| i <= t < list@.len() ==> list@[t] == old(list)@[t],
            decreases list.len() - i,
        {
            let ghost before = list@;
            let mut l = list.remove(i);
            let ghost l0 = l;
            match l.fiber {
                Some(f) => match self.runtime.fiber(f) {
                    Some(r) => {
                        if self.retire_hook && r.retired() && !l.disabled {
                            l.disabled = true;
                        }
                        if self.update_hook {
                            l.config = r.config().clone();
                        }
                    },
                    None => {},
                },
                None => {},
            }
            if depth > 0 {
                let mut children: Vec<LoadedEntry> = Vec::new();
                std::mem::swap(&mut children, &mut l.children);
                self.sync_writebacks(&mut children, depth - 1);
                l.children = children;
            }
            list.insert(i, l);
            proof {
                assert(synced(self.runtime, self.update_hook, self.retire_hook, l0, list@[i as int], depth as nat));
                assert forall|t: int| 0 <= t < list@.len() && t != i implies list@[t] == before[t] by {}
            }
            i = i + 1;
        }
    }

    /// Reconfigures the loaded entry `id` in place (the entry side of the
    /// two-way binding): its recorded configuration becomes `config` and an
    /// active fiber reruns with it, keeping its name; the revision is
    /// unchanged, so a later reconciliation with the same revision does not
    /// rebuild.
    pub fn update_entry(&mut self, id: &str, config: Value)
        ensures
            forall|n: Seq<char>| #[trigger] final(self).registered(n) == old(self).registered(n),
            final(self).spec_configs() == old(self).spec_configs(),
            final(self).writes_config_back() == old(self).writes_config_back(),
            final(self).writes_retire_back() == old(self).writes_retire_back(),
            final(self).config_written(*old(self), id@, config@),
            !(old(self).write_target(id@) matches Some(f) && record_in(old(self).spec_runtime(), f) matches Some(rec) && !rec.retired
                && rec.state is Active) ==> final(self).spec_runtime() == old(self).spec_runtime(),
    {
        let mut loaded: Vec<LoadedEntry> = Vec::new();
        std::mem::swap(&mut loaded, &mut self.entries);
        let fid = Self::set_config(&mut loaded, id, &config, TREE_DEPTH);
        self.entries = loaded;
        match fid {
            Some(f) => match self.runtime.fiber(f) {
                Some(r) => if !r.retired() && r.state().is_active() {
                    let _ = self.runtime.update(f, config);
                },
                None => {},
            },
            None => {},
        }
    }

    fn set_config(list: &mut Vec<LoadedEntry>, id: &str, config: &Value, depth: u64) -> (r: Option<FiberId>)
        ensures
            r == set_result(old(list)@, id@, depth as nat),
            final(list)@.len() == old(list)@.len(),
            forall|t: int| 0 <= t < old(list)@.len() ==> (#[trigger] final(list)@[t]).id == old(list)@[t].id
                && final(list)@[t].fiber == old(list)@[t].fiber,
            forall|p: int| level_pos(old(list)@, id@, p) ==> (#[trigger] final(list)@[p]).config@ == config@,
            written(old(list)@, final(list)@, id@, config@, depth as nat),
        decreases depth,
    {
        let key = String::from_str(id);
        let mut i: usize = 0;
        proof {
            assert(list@.subrange(0, list@.len() as int) =~= list@);
        }
        while i < list.len()
            invariant
                i <= list@.len(),
                key@ == id@,
                list@ == old(list)@,
                forall|t: int| 0 <= t < i ==> list@[t].id@ != id@,
                level_find(list@, id@) == level_find(list@.subrange(i as int, list@.len() as int), id@),
            decreases list.len() - i,
        {
            proof {
                lemma_suffix_step(list@, i as int);
            }
            if list[i].id == key {
                let mut l = list.remove(i);
                l.config = config.clone();
                let f = l.fiber;
                list.insert(i, l);
                proof {
                    assert(level_find(old(list)@, id@) == Some(old(list)@[i as int]));
                    assert(level_pos(old(list)@, id@, i as int));
                    assert forall|p: int| level_pos(old(list)@, id@, p) implies p == i by {}
                    assert forall|t: int| 0 <= t < old(list)@.len() implies if level_pos(old(list)@, id@, t) {
                        same_but_config(old(list)@[t], #[trigger] list@[t]) && list@[t].config@ == config@
                    } else {
                        list@[t] == old(list)@[t]
                    } by {
                        if t != i {
                            assert(list@[t] == old(list)@[t]);
                        }
                    }
                    assert forall|t: int| 0 <= t < old(list)@.len() implies (#[trigger] list@[t]).id == old(list)@[t].id
                        && list@[t].fiber == old(list)@[t].fiber by {
                        if t != i {
                            assert(list@[t] == old(list)@[t]);
                        }
                    }
                }
                return f;
            }
            i = i + 1;
        }
        proof {
            assert forall|p: int| !level_pos(old(list)@, id@, p) by {}
        }
        if depth == 0 {
            return None;
        }
        let mut j: usize = 0;
        while j < list.len()
            invariant
                depth > 0,
                j <= list@.len(),
                list@.len() == old(list)@.len(),
                forall|p: int| !level_pos(old(list)@, id@, p),
                level_find(old(list)@, id@) is None,
                forall|t: int| 0 <= t < old(list)@.len() ==> (#[trigger] list@[t]).id == old(list)@[t].id
                    && list@[t].fiber == old(list)@[t].fiber,
                forall|t: int| j <= t < old(list)@.len() ==> list@[t] == old(list)@[t],
                forall|u: int| 0 <= u < j ==> (#[trigger] set_result(old(list)@[u].children@, id@, (depth - 1) as nat)) is None,
                forall|t: int| 0 <= t < j ==> same_but_children(old(list)@[t], #[trigger] list@[t])
                    && written(old(list)@[t].children@, list@[t].children@, id@, config@, (depth - 1) as nat),
                kids_result(old(list)@, id@, (depth - 1) as nat) == kids_result(
                    old(list)@.subrange(j as int, old(list)@.len() as int),
                    id@,
                    (depth - 1) as nat,
                ),
            decreases list.len() - j,
        {
            proof {
                lemma_suffix_step(old(list)@, j as int);
            }
            let ghost before = list@;
            let mut l = list.remove(j);
            let mut children: Vec<LoadedEntry> = Vec::new();
            std::mem::swap(&mut children, &mut l.children);
            let r = Self::set_config(&mut children, id, config, depth - 1);
            l.children = children;
            list.insert(j, l);
            proof {
                assert forall|t: int| 0 <= t < old(list)@.len() && t != j implies list@[t] == before[t] by {}
                assert(list@[j as int].id == before[j as int].id);
                assert(same_but_children(old(list)@[j as int], list@[j as int]));
                assert(r == set_result(old(list)@[j as int].children@, id@, (depth - 1) as nat));
            }
            if r.is_some() {
                proof {
                    assert forall|t: int| 0 <= t < old(list)@.len() implies if exists|u: int| 0 <= u < t && (#[trigger] set_result(old(list)@[u].children@, id@, (depth - 1) as nat)) is Some {
                        #[trigger] list@[t] == old(list)@[t]
                    } else {
                        same_but_children(old(list)@[t], list@[t]) && written(old(list)@[t].children@, list@[t].children@, id@, config@, (depth - 1) as nat)
                    } by {
                        if t > j {
                            assert(set_result(old(list)@[j as int].children@, id@, (depth - 1) as nat) is Some);
                        }
                    }
                }
                return r;
            }
            j = j + 1;
        }
        None
    }
}

} // verus!

verus! {

/// Registering reads back: after `name` was bound to component `c`, looking
/// `name` up finds `c`, and every other name keeps its component.
pub proof fn law_lookup_after_bind(before: Loader, after: Loader, name: Seq<char>, c: usize, other: Seq<char>)
    requires
        forall|n: Seq<char>| #[trigger] after.registered(n) == if n == name { Some(c) } else { before.registered(n) },
    ensures
        after.registered(name) == Some(c),
        other != name ==> after.registered(other) == before.registered(other),
{
    assert(after.registered(name) == Some(c));
    assert(after.registered(other) == if other == name { Some(c) } else { before.registered(other) });
}

} // verus!
