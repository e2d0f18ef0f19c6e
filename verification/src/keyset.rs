//! Key sets: coeffect specifications `d` and provisions `p`.

use vstd::prelude::*;

use crate::symbol::Symbol;

verus! {

/// The names of a sequence of symbols.
pub open spec fn names(s: Seq<Symbol>) -> Seq<Seq<char>> {
    s.map_values(|x: Symbol| x@)
}

/// A set of key symbols (a specification or a provision).
///
/// Iteration yields the keys in insertion order; no key occurs twice.
#[derive(Debug)]
pub struct KeySet {
    keys: Vec<Symbol>,
}

impl View for KeySet {
    type V = Set<Seq<char>>;

    closed spec fn view(&self) -> Set<Seq<char>> {
        names(self.keys@).to_set()
    }
}

impl KeySet {
    #[verifier::type_invariant]
    closed spec fn inv(self) -> bool {
        names(self.keys@).no_duplicates()
    }

    /// The keys in iteration order.
    pub closed spec fn elems(&self) -> Seq<Seq<char>> {
        names(self.keys@)
    }

    /// The iteration order and the set agree; the set is finite.
    pub proof fn lemma_elems(&self)
        ensures
            self.elems().to_set() == self@,
            self@.finite(),
    {
        broadcast use vstd::seq_lib::seq_to_set_is_finite;
    }

    /// The empty set.
    pub fn new() -> (r: KeySet)
        ensures
            r@ == Set::<Seq<char>>::empty(),
            r.elems() == Seq::<Seq<char>>::empty(),
    {
        let r = KeySet { keys: Vec::new() };
        assert(r@ =~= Set::<Seq<char>>::empty());
        r
    }

    /// Inserts a key; returns whether it was new.
    pub fn insert(&mut self, key: Symbol) -> (r: bool)
        ensures
            r == !old(self)@.contains(key@),
            final(self)@ == old(self)@.insert(key@),
            r ==> final(self).elems() == old(self).elems().push(key@),
            !r ==> final(self).elems() == old(self).elems(),
    {
        proof { use_type_invariant(&*self); }
        if self.contains(key.clone()) {
            false
        } else {
            let ghost before = self.keys@;
            let mut keys: Vec<Symbol> = Vec::new();
            std::mem::swap(&mut keys, &mut self.keys);
            keys.push(key);
            proof {
                assert(names(keys@) =~= names(before).push(keys@.last()@));
                names(before).lemma_push_to_set_commute(keys@.last()@);
            }
            self.keys = keys;
            true
        }
    }

    /// Whether `key` is a member.
    pub fn contains(&self, key: Symbol) -> (r: bool)
        ensures
            r == self@.contains(key@),
    {
        let mut i: usize = 0;
        while i < self.keys.len()
            invariant
                i <= self.keys.len(),
                forall|j: int| 0 <= j < i ==> self.keys@[j]@ != key@,
            decreases self.keys.len() - i,
        {
            if self.keys[i].same(&key) {
                proof { assert(names(self.keys@)[i as int] == key@); }
                return true;
            }
            i = i + 1;
        }
        proof {
            if names(self.keys@).contains(key@) {
                let j = choose|j: int| 0 <= j < names(self.keys@).len() && names(self.keys@)[j] == key@;
                assert(self.keys@[j]@ == key@);
            }
        }
        false
    }

    /// The keys in iteration order.
    pub fn iter(&self) -> (r: Vec<Symbol>)
        ensures
            names(r@) == self.elems(),
            self.elems().no_duplicates(),
    {
        proof { use_type_invariant(self); }
        let mut out: Vec<Symbol> = Vec::new();
        let mut i: usize = 0;
        while i < self.keys.len()
            invariant
                i <= self.keys.len(),
                out@.len() == i,
                names(out@) == names(self.keys@).take(i as int),
            decreases self.keys.len() - i,
        {
            let c = self.keys[i].clone();
            out.push(c);
            proof {
                assert(out@[i as int]@ == self.keys@[i as int]@);
                assert(names(out@) =~= names(self.keys@).take(i as int + 1));
            }
            i = i + 1;
        }
        proof { assert(names(self.keys@).take(i as int) =~= names(self.keys@)); }
        out
    }

    /// Whether the set is empty.
    pub fn is_empty(&self) -> (r: bool)
        ensures
            r == (self@ == Set::<Seq<char>>::empty()),
    {
        proof {
            use_type_invariant(self);
            names(self.keys@).unique_seq_to_set();
            if self.keys@.len() > 0 {
                assert(names(self.keys@)[0] == self.keys@[0]@);
                assert(self@.contains(self.keys@[0]@));
            } else {
                assert(self@ =~= Set::<Seq<char>>::empty());
            }
        }
        self.keys.len() == 0
    }

    /// Number of keys.
    pub fn len(&self) -> (r: usize)
        ensures
            r == self@.len(),
    {
        proof {
            use_type_invariant(self);
            names(self.keys@).unique_seq_to_set();
        }
        self.keys.len()
    }

    /// Whether the two sets share a key.
    pub fn intersects(&self, other: &KeySet) -> (r: bool)
        ensures
            r == !self@.disjoint(other@),
    {
        let mut i: usize = 0;
        while i < self.keys.len()
            invariant
                i <= self.keys.len(),
                forall|j: int| 0 <= j < i ==> !other@.contains(#[trigger] self.keys@[j]@),
            decreases self.keys.len() - i,
        {
            if other.contains(self.keys[i].clone()) {
                proof {
                    assert(names(self.keys@)[i as int] == self.keys@[i as int]@);
                    assert(self@.contains(self.keys@[i as int]@));
                }
                return true;
            }
            i = i + 1;
        }
        proof {
            assert forall|k: Seq<char>| self@.contains(k) implies !other@.contains(k) by {
                let j = choose|j: int| 0 <= j < names(self.keys@).len() && names(self.keys@)[j] == k;
                assert(self.keys@[j]@ == k);
            }
        }
        false
    }

    /// Builds a set from a list of keys (later duplicates are dropped).
    pub fn from_vec(keys: Vec<Symbol>) -> (r: KeySet)
        ensures
            r@ == names(keys@).to_set(),
    {
        let mut r = KeySet::new();
        r.extend(keys);
        r
    }

    /// Adds every key of `keys`.
    pub fn extend(&mut self, keys: Vec<Symbol>)
        ensures
            final(self)@ == old(self)@.union(names(keys@).to_set()),
    {
        let mut i: usize = 0;
        while i < keys.len()
            invariant
                i <= keys.len(),
                self@ == old(self)@.union(names(keys@).take(i as int).to_set()),
            decreases keys.len() - i,
        {
            let ghost before = self@;
            self.insert(keys[i].clone());
            proof {
                assert(names(keys@).take(i as int + 1) =~= names(keys@).take(i as int).push(keys@[i as int]@));
                names(keys@).take(i as int).lemma_push_to_set_commute(keys@[i as int]@);
                assert(self@ =~= old(self)@.union(names(keys@).take(i as int + 1).to_set()));
            }
            i = i + 1;
        }
        proof { assert(names(keys@).take(i as int) =~= names(keys@)); }
    }
}

impl KeySet {
    /// Set equality.
    pub fn same(&self, other: &KeySet) -> (r: bool)
        ensures
            r == (self@ == other@),
    {
        proof {
            self.lemma_elems();
            other.lemma_elems();
        }
        if self.len() != other.len() {
            return false;
        }
        let keys = self.iter();
        let mut i: usize = 0;
        while i < keys.len()
            invariant
                i <= keys.len(),
                names(keys@) == self.elems(),
                forall|j: int| 0 <= j < i ==> other@.contains(#[trigger] keys@[j]@),
            decreases keys.len() - i,
        {
            if !other.contains(keys[i].clone()) {
                proof {
                    assert(names(keys@)[i as int] == keys@[i as int]@);
                    self.lemma_elems();
                    assert(self@.contains(keys@[i as int]@));
                }
                return false;
            }
            i = i + 1;
        }
        proof {
            self.lemma_elems();
            other.lemma_elems();
            assert(self@.subset_of(other@)) by {
                assert forall|k: Seq<char>| self@.contains(k) implies other@.contains(k) by {
                    let j = choose|j: int| 0 <= j < self.elems().len() && self.elems()[j] == k;
                    assert(names(keys@)[j] == keys@[j]@);
                }
            }
            vstd::set_lib::lemma_subset_equality(self@, other@);
        }
        true
    }
}

impl PartialEq for KeySet {
    fn eq(&self, other: &KeySet) -> (r: bool) {
        self.same(other)
    }
}

impl vstd::std_specs::cmp::PartialEqSpecImpl for KeySet {
    open spec fn obeys_eq_spec() -> bool {
        true
    }

    open spec fn eq_spec(&self, other: &KeySet) -> bool {
        self@ == other@
    }
}

impl Clone for KeySet {
    fn clone(&self) -> (r: Self)
        ensures
            r@ == self@,
            r.elems() == self.elems(),
    {
        proof { use_type_invariant(self); }
        let v = self.iter();
        KeySet { keys: v }
    }
}

} // verus!
