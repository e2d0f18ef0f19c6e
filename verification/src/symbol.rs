//! Coeffect key symbols: atoms compared only for equality.

use vstd::prelude::*;

verus! {

/// A key symbol. Two symbols are the same symbol exactly when their
/// canonical names are equal (interning is by name).
#[derive(Debug, PartialEq, Eq, Hash, PartialOrd, Ord)]
pub struct Symbol {
    name: String,
}

impl View for Symbol {
    type V = Seq<char>;

    closed spec fn view(&self) -> Seq<char> {
        self.name@
    }
}

impl Clone for Symbol {
    fn clone(&self) -> (r: Self)
        ensures
            r@ == self@,
    {
        Symbol { name: self.name.clone() }
    }
}

impl Symbol {
    /// Interns a symbol: the same `name` always yields the same symbol.
    pub fn intern(name: &str) -> (r: Symbol)
        ensures
            r@ == name@,
    {
        Symbol { name: name.to_string() }
    }

    /// The canonical name of the symbol.
    pub fn as_str(&self) -> (r: &str)
        ensures
            r@ == self@,
    {
        self.name.as_str()
    }

    /// Symbol identity.
    pub fn same(&self, other: &Symbol) -> (r: bool)
        ensures
            r == (self@ == other@),
    {
        self.name == other.name
    }
}

} // verus!
