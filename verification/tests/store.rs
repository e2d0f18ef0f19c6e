use cordis::keyset::KeySet;
use cordis::notify::{classify, Classification};
use cordis::store::{Store, StoreError};
use cordis::symbol::Symbol;
use cordis::value::{Key, KeyValue};

struct DbKey;
impl Key for DbKey {
    type Value = String;
    const SYMBOL: &'static str = "db";
}

struct CacheKey;
impl Key for CacheKey {
    type Value = u64;
    const SYMBOL: &'static str = "cache";
}

/// Declares the same symbol as `DbKey` with another value type.
struct OtherDbKey;
impl Key for OtherDbKey {
    type Value = u32;
    const SYMBOL: &'static str = "db";
}

fn db() -> Symbol {
    Symbol::intern(DbKey::SYMBOL)
}

#[test]
fn bind_get_unbind_roundtrip() {
    let mut store = Store::new();
    assert_eq!(store.get::<DbKey>(), Err(StoreError::NotBound(db())));
    assert!(!store.contains(db()));

    store.bind::<DbKey>(String::from("pg")).unwrap();
    assert!(store.contains(db()));
    assert_eq!(store.get::<DbKey>().unwrap(), "pg");

    assert_eq!(store.unbind::<DbKey>().unwrap(), String::from("pg"));
    assert!(!store.contains(db()));
    assert_eq!(store.get::<DbKey>(), Err(StoreError::NotBound(db())));
}

#[test]
fn duplicate_bind_rejected_without_mutation() {
    let mut store = Store::new();
    store.bind::<DbKey>(String::from("pg")).unwrap();
    assert_eq!(
        store.bind::<DbKey>(String::from("mysql")),
        Err(StoreError::AlreadyBound(db()))
    );
    assert_eq!(store.get::<DbKey>().unwrap(), "pg", "the binding is kept");
}

#[test]
fn type_mismatch_on_symbol_collision() {
    let mut store = Store::new();
    store.bind::<DbKey>(String::from("pg")).unwrap();
    assert!(matches!(store.get::<OtherDbKey>(), Err(StoreError::TypeMismatch(s)) if s == db()));
    assert!(matches!(
        store.unbind::<OtherDbKey>(),
        Err(StoreError::TypeMismatch(s)) if s == db()
    ));
    assert!(store.contains(db()), "a mismatch removes nothing");
    assert_eq!(store.get::<DbKey>().unwrap(), "pg");
}

#[test]
fn unbind_on_missing_key_is_not_bound() {
    let mut store = Store::new();
    assert_eq!(store.unbind::<DbKey>(), Err(StoreError::NotBound(db())));
}

#[test]
fn satisfies_is_conjunctive() {
    let mut store = Store::new();
    store.bind::<DbKey>(String::from("pg")).unwrap();

    let empty: KeySet = KeySet::new();
    assert!(store.satisfies(&empty), "the empty spec is always satisfied");

    let both = KeySet::from_vec(vec![db(), Symbol::intern(CacheKey::SYMBOL)]);
    assert!(!store.satisfies(&both), "a missing key fails the spec");

    store.bind::<CacheKey>(3).unwrap();
    assert!(store.satisfies(&both));
    assert_eq!(store.symbols().len(), 2);
}

fn store_with(bindings: &[(&str, usize)]) -> Store {
    let mut store = Store::new();
    for (name, v) in bindings {
        let sym = Symbol::intern(name);
        store.bind_at(sym, (*v).encode(), None).unwrap();
    }
    store
}

#[test]
fn classification_matrix() {
    let d = KeySet::from_vec(vec![Symbol::intern("k1")]);
    let empty = Store::new();
    let k1 = store_with(&[("k1", 1)]);
    let k1_other_value = store_with(&[("k1", 2)]);
    let k2 = store_with(&[("k2", 1)]);
    let k1k2 = store_with(&[("k1", 1), ("k2", 1)]);

    assert_eq!(classify(&empty, &k1, &d), Classification::Activating);
    assert_eq!(classify(&k1, &empty, &d), Classification::Deactivating);
    assert_eq!(classify(&k2, &k1, &d), Classification::Activating);
    assert_eq!(classify(&k1k2, &k2, &d), Classification::Deactivating);
    assert_eq!(classify(&empty, &empty, &d), Classification::Neutral);
    assert_eq!(classify(&k1, &k1, &d), Classification::Neutral);
    assert_eq!(classify(&k1, &k1_other_value, &d), Classification::Neutral);
    assert_eq!(classify(&empty, &k2, &d), Classification::Neutral);
    assert_eq!(classify(&k1, &k1k2, &d), Classification::Neutral);
}
