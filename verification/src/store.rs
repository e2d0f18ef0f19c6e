//! The coeffect table `σ`: realm → bound value (with its installing fiber).

use vstd::prelude::*;

use crate::fiber::FiberId;
use crate::keyset::{names, KeySet};
use crate::symbol::Symbol;
use crate::value::{Key, KeyValue, Value, ValueModel};

verus! {

/// Table operation errors: a violated precondition or a type mismatch.
#[derive(Clone, Debug, PartialEq, Eq)]
pub enum StoreError {
    /// `set(k, ·)` while `k ∈ dom(σ)`.
    AlreadyBound(Symbol),
    /// `get(k)` / revocation while `k ∉ dom(σ)`.
    NotBound(Symbol),
    /// Same symbol, different value type.
    TypeMismatch(Symbol),
}

/// The mathematical content of a [`StoreError`].
pub enum StoreErrorModel {
    AlreadyBound(Seq<char>),
    NotBound(Seq<char>),
    TypeMismatch(Seq<char>),
}

impl View for StoreError {
    type V = StoreErrorModel;

    open spec fn view(&self) -> StoreErrorModel {
        match self {
            StoreError::AlreadyBound(k) => StoreErrorModel::AlreadyBound(k@),
            StoreError::NotBound(k) => StoreErrorModel::NotBound(k@),
            StoreError::TypeMismatch(k) => StoreErrorModel::TypeMismatch(k@),
        }
    }
}

/// A binding: the value and the fiber that installed it (`None` = root).
#[derive(Debug)]
pub struct Binding {
    /// The bound value.
    pub value: Value,
    /// The installing fiber.
    pub provider: Option<FiberId>,
}

/// The mathematical content of a [`Binding`].
pub struct BindingModel {
    pub value: ValueModel,
    pub provider: Option<FiberId>,
}

impl View for Binding {
    type V = BindingModel;

    open spec fn view(&self) -> BindingModel {
        BindingModel { value: self.value@, provider: self.provider }
    }
}

pub open spec fn entry_name(p: (Symbol, Binding)) -> Seq<char> {
    p.0@
}

pub open spec fn entry_names(s: Seq<(Symbol, Binding)>) -> Seq<Seq<char>> {
    s.map_values(|p: (Symbol, Binding)| entry_name(p))
}

pub open spec fn has_name(s: Seq<(Symbol, Binding)>, k: Seq<char>) -> bool {
    exists|i: int| 0 <= i < s.len() && s[i].0@ == k
}

pub open spec fn name_pos(s: Seq<(Symbol, Binding)>, k: Seq<char>) -> int {
    choose|i: int| 0 <= i < s.len() && s[i].0@ == k
}

pub open spec fn table_of(s: Seq<(Symbol, Binding)>) -> Map<Seq<char>, BindingModel> {
    Map::new(|k: Seq<char>| has_name(s, k), |k: Seq<char>| s[name_pos(s, k)].1@)
}

/// With unique names, the position of a present name is the one holding it.
proof fn lemma_pos(s: Seq<(Symbol, Binding)>, i: int)
    requires
        entry_names(s).no_duplicates(),
        0 <= i < s.len(),
    ensures
        has_name(s, s[i].0@),
        name_pos(s, s[i].0@) == i,
{
    assert(has_name(s, s[i].0@));
    let c = name_pos(s, s[i].0@);
    if c != i {
        assert(entry_names(s)[c] == entry_names(s)[i]);
    }
}

/// Removing an entry removes its name from the table and keeps names unique.
proof fn lemma_table_remove(s: Seq<(Symbol, Binding)>, i: int)
    requires
        entry_names(s).no_duplicates(),
        0 <= i < s.len(),
    ensures
        entry_names(s.remove(i)).no_duplicates(),
        table_of(s.remove(i)) == table_of(s).remove(s[i].0@),
{
    let v = s.remove(i);
    let realm = s[i].0@;
    assert forall|a: int| 0 <= a < v.len() implies #[trigger] v[a] == s[if a < i { a } else { a + 1 }] by {}
    assert forall|a: int, c: int| 0 <= a < c < entry_names(v).len() implies entry_names(v)[a] != entry_names(v)[c] by {
        let a1 = if a < i { a } else { a + 1 };
        let c1 = if c < i { c } else { c + 1 };
        assert(entry_names(v)[a] == entry_names(s)[a1]);
        assert(entry_names(v)[c] == entry_names(s)[c1]);
    }
    lemma_pos(s, i);
    assert forall|k: Seq<char>| #[trigger] table_of(v).dom().contains(k) implies table_of(s).remove(realm).dom().contains(k)
        && table_of(v)[k] == table_of(s).remove(realm)[k] by {
        let p = name_pos(v, k);
        lemma_pos(v, p);
        let p1 = if p < i { p } else { p + 1 };
        assert(v[p] == s[p1]);
        lemma_pos(s, p1);
        assert(s[p1].0@ == k);
        assert(k != realm);
        assert(table_of(s).contains_key(k));
        assert(table_of(s)[k] == s[p1].1@);
        assert(table_of(v)[k] == v[p].1@);
    }
    assert forall|k: Seq<char>| #[trigger] table_of(s).remove(realm).dom().contains(k) implies table_of(v).dom().contains(k) by {
        let p = name_pos(s, k);
        assert(p != i);
        let p2 = if p < i { p } else { p - 1 };
        assert(v[p2] == s[p]);
        assert(v[p2].0@ == k);
        assert(has_name(v, k));
    }
    assert(table_of(v).dom() =~= table_of(s).remove(realm).dom());
    assert forall|k: Seq<char>| #[trigger] table_of(v).dom().contains(k) implies table_of(v)[k] == table_of(s).remove(realm)[k] by {
        assert(table_of(v).contains_key(k));
    }
    assert(table_of(v) =~= table_of(s).remove(realm));
}

/// The dependency table `σ: (k: K) ⇀ 𝒱 k`, keyed by realm.
///
/// Every operation checks its precondition (`bind` needs `k ∉ dom(σ)`,
/// `unbind` needs `k ∈ dom(σ)`); a violation is an error and changes nothing.
#[derive(Debug)]
pub struct Store {
    bindings: Vec<(Symbol, Binding)>,
}

impl View for Store {
    type V = Map<Seq<char>, BindingModel>;

    closed spec fn view(&self) -> Map<Seq<char>, BindingModel> {
        table_of(self.bindings@)
    }
}

impl Store {
    #[verifier::type_invariant]
    closed spec fn inv(self) -> bool {
        entry_names(self.bindings@).no_duplicates()
    }

    /// The bound realms in binding order.
    pub closed spec fn order(&self) -> Seq<Seq<char>> {
        entry_names(self.bindings@)
    }

    /// The empty table.
    pub fn new() -> (r: Store)
        ensures
            r@ == Map::<Seq<char>, BindingModel>::empty(),
    {
        let r = Store { bindings: Vec::new() };
        assert(r@ =~= Map::<Seq<char>, BindingModel>::empty());
        r
    }

    fn find(&self, realm: &Symbol) -> (r: Option<usize>)
        ensures
            r is Some <==> self@.contains_key(realm@),
            r matches Some(i) ==> i < self.bindings.len() && self.bindings@[i as int].0@ == realm@
                && self@[realm@] == self.bindings@[i as int].1@,
    {
        proof { use_type_invariant(self); }
        let mut i: usize = 0;
        while i < self.bindings.len()
            invariant
                i <= self.bindings.len(),
                entry_names(self.bindings@).no_duplicates(),
                forall|j: int| 0 <= j < i ==> self.bindings@[j].0@ != realm@,
            decreases self.bindings.len() - i,
        {
            if self.bindings[i].0.same(realm) {
                proof { lemma_pos(self.bindings@, i as int); }
                return Some(i);
            }
            i = i + 1;
        }
        None
    }

    /// `k ∈ dom(σ)`.
    pub fn contains(&self, symbol: Symbol) -> (r: bool)
        ensures
            r == self@.contains_key(symbol@),
    {
        self.find(&symbol).is_some()
    }

    /// The binding of `realm`, if any.
    pub fn binding(&self, realm: Symbol) -> (r: Option<&Binding>)
        ensures
            r is Some <==> self@.contains_key(realm@),
            r matches Some(b) ==> b@ == self@[realm@],
    {
        match self.find(&realm) {
            Some(i) => Some(&self.bindings[i].1),
            None => None,
        }
    }

    /// Binds `realm` to `value` installed by `provider`; `AlreadyBound` (and
    /// no change) when the realm is bound.
    pub fn bind_at(&mut self, realm: Symbol, value: Value, provider: Option<FiberId>) -> (r: Result<(), StoreError>)
        ensures
            r is Err <==> old(self)@.contains_key(realm@),
            r matches Err(e) ==> e@ == StoreErrorModel::AlreadyBound(realm@) && final(self)@ == old(self)@,
            r is Ok ==> final(self)@ == old(self)@.insert(realm@, BindingModel { value: value@, provider }),
    {
        proof { use_type_invariant(&*self); }
        if self.find(&realm).is_some() {
            return Err(StoreError::AlreadyBound(realm));
        }
        let ghost before = self.bindings@;
        let ghost bm = BindingModel { value: value@, provider };
        let mut v: Vec<(Symbol, Binding)> = Vec::new();
        std::mem::swap(&mut v, &mut self.bindings);
        v.push((realm, Binding { value, provider }));
        proof {
            let n = v@.last().0@;
            assert(entry_names(v@) =~= entry_names(before).push(n));
            assert(!entry_names(before).contains(n)) by {
                if entry_names(before).contains(n) {
                    let j = choose|j: int| 0 <= j < entry_names(before).len() && entry_names(before)[j] == n;
                    assert(before[j].0@ == n);
                    assert(has_name(before, n));
                }
            }
            assert forall|a: int, b: int| 0 <= a < b < entry_names(v@).len() implies entry_names(v@)[a] != entry_names(v@)[b] by {
                if b == before.len() {
                    assert(entry_names(before)[a] == entry_names(v@)[a]);
                }
            }
            assert(table_of(v@) =~= table_of(before).insert(n, bm)) by {
                assert forall|k: Seq<char>| table_of(v@).contains_key(k) implies table_of(v@)[k] == table_of(before).insert(n, bm)[k] by {
                    let p = name_pos(v@, k);
                    lemma_pos(v@, p);
                    if k != n {
                        assert(p < before.len());
                        lemma_pos(before, p);
                    }
                }
                assert forall|k: Seq<char>| table_of(before).insert(n, bm).contains_key(k) implies table_of(v@).contains_key(k) by {
                    if k != n {
                        let p = name_pos(before, k);
                        assert(v@[p] == before[p]);
                    } else {
                        assert(v@[before.len() as int].0@ == n);
                    }
                }
            }
        }
        self.bindings = v;
        Ok(())
    }

    /// Revokes the binding of `realm`, returning it; `NotBound` (and no
    /// change) when the realm is unbound.
    pub fn unbind_at(&mut self, realm: Symbol) -> (r: Result<Binding, StoreError>)
        ensures
            r is Err <==> !old(self)@.contains_key(realm@),
            r matches Err(e) ==> e@ == StoreErrorModel::NotBound(realm@) && final(self)@ == old(self)@,
            r matches Ok(b) ==> b@ == old(self)@[realm@] && final(self)@ == old(self)@.remove(realm@),
    {
        proof { use_type_invariant(&*self); }
        let i = match self.find(&realm) {
            None => return Err(StoreError::NotBound(realm)),
            Some(i) => i,
        };
        let ghost before = self.bindings@;
        let mut v: Vec<(Symbol, Binding)> = Vec::new();
        std::mem::swap(&mut v, &mut self.bindings);
        let (_k, b) = v.remove(i);
        proof {
            assert(v@ == before.remove(i as int));
            lemma_table_remove(before, i as int);
        }
        self.bindings = v;
        Ok(b)
    }

    /// `set(k, v)` for a typed key, bound at the key's own symbol by the
    /// root; `AlreadyBound` (and no change) when bound.
    pub fn bind<K: Key>(&mut self, value: K::Value) -> (r: Result<(), StoreError>)
        ensures
            r is Err <==> old(self)@.contains_key(K::SYMBOL@),
            r matches Err(e) ==> e@ == StoreErrorModel::AlreadyBound(K::SYMBOL@) && final(self)@ == old(self)@,
            r is Ok ==> final(self)@ == old(self)@.insert(K::SYMBOL@, BindingModel { value: value.encoding(), provider: None }),
    {
        let symbol = Symbol::intern(K::SYMBOL);
        self.bind_at(symbol, value.encode(), None)
    }

    /// Reads the value bound at `realm` as a `V`.
    pub fn get_at<V: KeyValue>(&self, realm: Symbol) -> (r: Result<V, StoreError>)
        ensures
            match r {
                Ok(x) => self@.contains_key(realm@) && x.encoding() == self@[realm@].value,
                Err(e) => if !self@.contains_key(realm@) {
                    e@ == StoreErrorModel::NotBound(realm@)
                } else {
                    !V::decodes(self@[realm@].value) && e@ == StoreErrorModel::TypeMismatch(realm@)
                },
            },
            r is Ok <==> self@.contains_key(realm@) && V::decodes(self@[realm@].value),
    {
        match self.find(&realm) {
            None => Err(StoreError::NotBound(realm)),
            Some(i) => match V::decode(&self.bindings[i].1.value) {
                Some(x) => Ok(x),
                None => Err(StoreError::TypeMismatch(realm)),
            },
        }
    }

    /// `get(k)`: reads a typed key's value; `NotBound` when unbound,
    /// `TypeMismatch` when bound under another value type.
    pub fn get<K: Key>(&self) -> (r: Result<K::Value, StoreError>)
        ensures
            match r {
                Ok(x) => self@.contains_key(K::SYMBOL@) && x.encoding() == self@[K::SYMBOL@].value,
                Err(e) => if !self@.contains_key(K::SYMBOL@) {
                    e@ == StoreErrorModel::NotBound(K::SYMBOL@)
                } else {
                    !K::Value::decodes(self@[K::SYMBOL@].value) && e@ == StoreErrorModel::TypeMismatch(K::SYMBOL@)
                },
            },
            r is Ok <==> self@.contains_key(K::SYMBOL@) && K::Value::decodes(self@[K::SYMBOL@].value),
    {
        self.get_at::<K::Value>(Symbol::intern(K::SYMBOL))
    }

    /// `σ ∖ k` for a typed key: revokes the binding and returns the value.
    /// The type check precedes the removal: on a mismatch nothing changes.
    pub fn unbind<K: Key>(&mut self) -> (r: Result<K::Value, StoreError>)
        ensures
            match r {
                Ok(x) => old(self)@.contains_key(K::SYMBOL@) && x.encoding() == old(self)@[K::SYMBOL@].value
                    && final(self)@ == old(self)@.remove(K::SYMBOL@),
                Err(e) => final(self)@ == old(self)@ && if !old(self)@.contains_key(K::SYMBOL@) {
                    e@ == StoreErrorModel::NotBound(K::SYMBOL@)
                } else {
                    !K::Value::decodes(old(self)@[K::SYMBOL@].value) && e@ == StoreErrorModel::TypeMismatch(K::SYMBOL@)
                },
            },
            r is Ok <==> old(self)@.contains_key(K::SYMBOL@) && K::Value::decodes(old(self)@[K::SYMBOL@].value),
    {
        let symbol = Symbol::intern(K::SYMBOL);
        let typed = self.get_at::<K::Value>(symbol.clone());
        match typed {
            Err(e) => Err(e),
            Ok(x) => {
                let _ = self.unbind_at(symbol);
                Ok(x)
            },
        }
    }

    /// The bound realms in binding order.
    pub fn symbols(&self) -> (r: Vec<Symbol>)
        ensures
            names(r@) == self.order(),
            self.order().to_set() == self@.dom(),
            self.order().no_duplicates(),
    {
        proof { use_type_invariant(self); }
        let mut out: Vec<Symbol> = Vec::new();
        let mut i: usize = 0;
        while i < self.bindings.len()
            invariant
                i <= self.bindings.len(),
                out@.len() == i,
                forall|j: int| 0 <= j < i ==> #[trigger] out@[j]@ == self.bindings@[j].0@,
            decreases self.bindings.len() - i,
        {
            out.push(self.bindings[i].0.clone());
            i = i + 1;
        }
        proof {
            assert(names(out@) =~= self.order());
            assert(self.order().to_set() =~= self@.dom()) by {
                assert forall|k: Seq<char>| self.order().to_set().contains(k) implies self@.dom().contains(k) by {
                    let j = choose|j: int| 0 <= j < self.order().len() && self.order()[j] == k;
                    assert(self.bindings@[j].0@ == k);
                }
                assert forall|k: Seq<char>| self@.dom().contains(k) implies self.order().to_set().contains(k) by {
                    let p = name_pos(self.bindings@, k);
                    assert(self.order()[p] == k);
                }
            }
        }
        out
    }

    /// The realms installed by fiber `fid`, in binding order.
    pub fn realms_with_provider(&self, fid: FiberId) -> (r: Vec<Symbol>)
        ensures
            forall|k: Seq<char>| names(r@).contains(k) <==> (self@.contains_key(k)
                && self@[k].provider == Some(fid)),
    {
        proof { use_type_invariant(self); }
        let mut out: Vec<Symbol> = Vec::new();
        let mut i: usize = 0;
        while i < self.bindings.len()
            invariant
                i <= self.bindings.len(),
                entry_names(self.bindings@).no_duplicates(),
                forall|k: Seq<char>| names(out@).contains(k) <==> exists|j: int|
                    0 <= j < i && self.bindings@[j].0@ == k && self.bindings@[j].1.provider == Some(fid),
            decreases self.bindings.len() - i,
        {
            let ghost before = out@;
            if self.bindings[i].1.provider == Some(fid) {
                let s = self.bindings[i].0.clone();
                out.push(s);
            }
            proof {
                assert forall|k: Seq<char>| names(out@).contains(k) <==> exists|j: int|
                    0 <= j < i + 1 && self.bindings@[j].0@ == k && self.bindings@[j].1.provider == Some(fid) by {
                    if names(out@).contains(k) {
                        let w = choose|w: int| 0 <= w < names(out@).len() && #[trigger] names(out@)[w] == k;
                        if w < before.len() {
                            assert(names(before)[w] == k);
                            assert(names(before).contains(k));
                        } else {
                            assert(self.bindings@[i as int].0@ == k);
                        }
                    }
                    if exists|j: int| 0 <= j < i + 1 && self.bindings@[j].0@ == k && self.bindings@[j].1.provider == Some(fid) {
                        let j = choose|j: int| 0 <= j < i + 1 && self.bindings@[j].0@ == k && self.bindings@[j].1.provider == Some(fid);
                        if j == i as int {
                            assert(names(out@)[before.len() as int] == k);
                        } else {
                            assert(names(before).contains(k));
                            let w = choose|w: int| 0 <= w < names(before).len() && #[trigger] names(before)[w] == k;
                            assert(names(out@)[w] == k);
                        }
                    }
                }
            }
            i = i + 1;
        }
        proof {
            assert forall|k: Seq<char>| names(out@).contains(k) <==> (self@.contains_key(k)
                && self@[k].provider == Some(fid)) by {
                if self@.contains_key(k) {
                    let p = name_pos(self.bindings@, k);
                    lemma_pos(self.bindings@, p);
                    if exists|j: int| 0 <= j < self.bindings@.len() && self.bindings@[j].0@ == k && self.bindings@[j].1.provider == Some(fid) {
                        let j = choose|j: int| 0 <= j < self.bindings@.len() && self.bindings@[j].0@ == k && self.bindings@[j].1.provider == Some(fid);
                        lemma_pos(self.bindings@, j);
                    }
                }
            }
        }
        out
    }

    /// `σ ⊧ d`: every key of `spec` is bound.
    pub fn satisfies(&self, spec: &KeySet) -> (r: bool)
        ensures
            r == spec@.subset_of(self@.dom()),
    {
        let keys = spec.iter();
        let mut i: usize = 0;
        while i < keys.len()
            invariant
                i <= keys.len(),
                names(keys@) == spec.elems(),
                forall|j: int| 0 <= j < i ==> self@.contains_key(#[trigger] keys@[j]@),
            decreases keys.len() - i,
        {
            if !self.contains(keys[i].clone()) {
                proof {
                    spec.lemma_elems();
                    assert(names(keys@)[i as int] == keys@[i as int]@);
                    assert(spec@.contains(keys@[i as int]@));
                }
                return false;
            }
            i = i + 1;
        }
        proof {
            spec.lemma_elems();
            assert forall|k: Seq<char>| spec@.contains(k) implies self@.dom().contains(k) by {
                let j = choose|j: int| 0 <= j < spec.elems().len() && spec.elems()[j] == k;
                assert(names(keys@)[j] == keys@[j]@);
            }
        }
        true
    }
}

} // verus!
