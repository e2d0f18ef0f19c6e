//! Cross-boundary values: the value carried by a binding.

use vstd::prelude::*;

verus! {

/// A cross-boundary value.
#[derive(Debug, PartialEq, Eq)]
pub enum Value {
    /// A boolean (`flag`).
    Flag(bool),
    /// An unsigned count (`count`).
    Count(u64),
    /// A 32-bit unsigned word.
    Word(u32),
    /// A machine-sized unsigned size.
    Size(usize),
    /// A signed offset (`offset`).
    Offset(i64),
    /// Text (`text`).
    Text(String),
    /// A byte string (`blob`).
    Blob(Vec<u8>),
    /// The presence of a shared service (no payload).
    Service,
}

/// The mathematical content of a [`Value`].
pub enum ValueModel {
    Flag(bool),
    Count(u64),
    Word(u32),
    Size(usize),
    Offset(i64),
    Text(Seq<char>),
    Blob(Seq<u8>),
    Service,
}

impl View for Value {
    type V = ValueModel;

    open spec fn view(&self) -> ValueModel {
        match self {
            Value::Flag(b) => ValueModel::Flag(*b),
            Value::Count(n) => ValueModel::Count(*n),
            Value::Word(n) => ValueModel::Word(*n),
            Value::Size(n) => ValueModel::Size(*n),
            Value::Offset(n) => ValueModel::Offset(*n),
            Value::Text(s) => ValueModel::Text(s@),
            Value::Blob(b) => ValueModel::Blob(b@),
            Value::Service => ValueModel::Service,
        }
    }
}

/// Copies a byte string.
fn copy_bytes(b: &Vec<u8>) -> (r: Vec<u8>)
    ensures
        r@ == b@,
{
    let mut out: Vec<u8> = Vec::new();
    let mut i: usize = 0;
    while i < b.len()
        invariant
            i <= b.len(),
            out@ == b@.take(i as int),
        decreases b.len() - i,
    {
        out.push(b[i]);
        assert(out@ =~= b@.take(i as int + 1));
        i = i + 1;
    }
    assert(b@.take(i as int) =~= b@);
    out
}

fn same_bytes(a: &Vec<u8>, b: &Vec<u8>) -> (r: bool)
    ensures
        r == (a@ == b@),
{
    if a.len() != b.len() {
        return false;
    }
    let mut i: usize = 0;
    while i < a.len()
        invariant
            i <= a.len(),
            a.len() == b.len(),
            forall|j: int| 0 <= j < i ==> a@[j] == b@[j],
        decreases a.len() - i,
    {
        if a[i] != b[i] {
            return false;
        }
        i = i + 1;
    }
    assert(a@ =~= b@);
    true
}

impl Value {
    /// Equality of values.
    pub fn same(&self, other: &Value) -> (r: bool)
        ensures
            r == (self@ == other@),
    {
        match (self, other) {
            (Value::Flag(a), Value::Flag(b)) => *a == *b,
            (Value::Count(a), Value::Count(b)) => *a == *b,
            (Value::Word(a), Value::Word(b)) => *a == *b,
            (Value::Size(a), Value::Size(b)) => *a == *b,
            (Value::Offset(a), Value::Offset(b)) => *a == *b,
            (Value::Text(a), Value::Text(b)) => {
                let r = *a == *b;
                proof {
                    if r {
                        assert(a@ == b@);
                    }
                }
                r
            },
            (Value::Blob(a), Value::Blob(b)) => same_bytes(a, b),
            (Value::Service, Value::Service) => true,
            _ => false,
        }
    }
}

impl Clone for Value {
    fn clone(&self) -> (r: Self)
        ensures
            r@ == self@,
    {
        match self {
            Value::Flag(b) => Value::Flag(*b),
            Value::Count(n) => Value::Count(*n),
            Value::Word(n) => Value::Word(*n),
            Value::Size(n) => Value::Size(*n),
            Value::Offset(n) => Value::Offset(*n),
            Value::Text(s) => Value::Text(s.clone()),
            Value::Blob(b) => Value::Blob(copy_bytes(b)),
            Value::Service => Value::Service,
        }
    }
}

/// A type whose values can be stored in a binding.
///
/// `decode` is the left inverse of `encode`; a value of another type does not
/// decode (a type mismatch).
pub trait KeyValue: Sized {
    /// The encoding of a value.
    spec fn encoding(&self) -> ValueModel;

    /// Whether `v` is the encoding of some value of this type.
    spec fn decodes(v: ValueModel) -> bool;

    /// Encodes the value.
    fn encode(self) -> (r: Value)
        ensures
            r@ == self.encoding(),
            Self::decodes(r@);

    /// Decodes a stored value.
    fn decode(v: &Value) -> (r: Option<Self>)
        ensures
            r is Some <==> Self::decodes(v@),
            r matches Some(x) ==> x.encoding() == v@;

    /// The round trip: the encoding of every value decodes (and, by
    /// `decode`, back to a value with that encoding).
    proof fn lemma_round_trip(&self)
        ensures
            Self::decodes(self.encoding());
}

impl KeyValue for bool {
    open spec fn encoding(&self) -> ValueModel {
        ValueModel::Flag(*self)
    }

    open spec fn decodes(v: ValueModel) -> bool {
        v is Flag
    }

    proof fn lemma_round_trip(&self) {
    }

    fn encode(self) -> (r: Value) {
        Value::Flag(self)
    }

    fn decode(v: &Value) -> (r: Option<Self>) {
        match v {
            Value::Flag(b) => Some(*b),
            _ => None,
        }
    }
}

impl KeyValue for u64 {
    open spec fn encoding(&self) -> ValueModel {
        ValueModel::Count(*self)
    }

    open spec fn decodes(v: ValueModel) -> bool {
        v is Count
    }

    proof fn lemma_round_trip(&self) {
    }

    fn encode(self) -> (r: Value) {
        Value::Count(self)
    }

    fn decode(v: &Value) -> (r: Option<Self>) {
        match v {
            Value::Count(n) => Some(*n),
            _ => None,
        }
    }
}

impl KeyValue for u32 {
    open spec fn encoding(&self) -> ValueModel {
        ValueModel::Word(*self)
    }

    open spec fn decodes(v: ValueModel) -> bool {
        v is Word
    }

    proof fn lemma_round_trip(&self) {
    }

    fn encode(self) -> (r: Value) {
        Value::Word(self)
    }

    fn decode(v: &Value) -> (r: Option<Self>) {
        match v {
            Value::Word(n) => Some(*n),
            _ => None,
        }
    }
}

impl KeyValue for usize {
    open spec fn encoding(&self) -> ValueModel {
        ValueModel::Size(*self)
    }

    open spec fn decodes(v: ValueModel) -> bool {
        v is Size
    }

    proof fn lemma_round_trip(&self) {
    }

    fn encode(self) -> (r: Value) {
        Value::Size(self)
    }

    fn decode(v: &Value) -> (r: Option<Self>) {
        match v {
            Value::Size(n) => Some(*n),
            _ => None,
        }
    }
}

impl KeyValue for i64 {
    open spec fn encoding(&self) -> ValueModel {
        ValueModel::Offset(*self)
    }

    open spec fn decodes(v: ValueModel) -> bool {
        v is Offset
    }

    proof fn lemma_round_trip(&self) {
    }

    fn encode(self) -> (r: Value) {
        Value::Offset(self)
    }

    fn decode(v: &Value) -> (r: Option<Self>) {
        match v {
            Value::Offset(n) => Some(*n),
            _ => None,
        }
    }
}

impl KeyValue for String {
    open spec fn encoding(&self) -> ValueModel {
        ValueModel::Text(self@)
    }

    open spec fn decodes(v: ValueModel) -> bool {
        v is Text
    }

    proof fn lemma_round_trip(&self) {
    }

    fn encode(self) -> (r: Value) {
        Value::Text(self)
    }

    fn decode(v: &Value) -> (r: Option<Self>) {
        match v {
            Value::Text(s) => Some(s.clone()),
            _ => None,
        }
    }
}

impl KeyValue for Vec<u8> {
    open spec fn encoding(&self) -> ValueModel {
        ValueModel::Blob(self@)
    }

    open spec fn decodes(v: ValueModel) -> bool {
        v is Blob
    }

    proof fn lemma_round_trip(&self) {
    }

    fn encode(self) -> (r: Value) {
        Value::Blob(self)
    }

    fn decode(v: &Value) -> (r: Option<Self>) {
        match v {
            Value::Blob(b) => Some(copy_bytes(b)),
            _ => None,
        }
    }
}

/// A typed coeffect key: the key's symbol and the type of its value.
///
/// Two key types must not declare the same symbol with different value
/// types (a violation is reported as a type mismatch at the access).
pub trait Key {
    /// The value type `𝒱 k`.
    type Value: KeyValue;

    /// The key's symbol name.
    const SYMBOL: &'static str;
}

} // verus!
