//! Reactive notification: classification of a transition `σ → σ′` against a
//! specification `d` (activating / deactivating / neutral).

use vstd::prelude::*;

use crate::keyset::KeySet;
use crate::store::Store;

verus! {

/// Classification of a transition.
#[derive(Clone, Copy, Debug, PartialEq, Eq, Structural)]
pub enum Classification {
    /// `σ ⊭ d ∧ σ′ ⊧ d`.
    Activating,
    /// `σ ⊧ d ∧ σ′ ⊭ d`.
    Deactivating,
    /// Satisfaction unchanged.
    Neutral,
}

/// The classification of a transition from a state satisfying `d` or not
/// (`before`) to one satisfying it or not (`after`).
pub open spec fn classification_of(before: bool, after: bool) -> Classification {
    if !before && after {
        Classification::Activating
    } else if before && !after {
        Classification::Deactivating
    } else {
        Classification::Neutral
    }
}

/// Classifies the transition `prev → next` against `spec` by satisfaction
/// (binding presence only: a changed value with unchanged satisfaction is
/// neutral).
pub fn classify(prev: &Store, next: &Store, spec: &KeySet) -> (r: Classification)
    ensures
        r == classification_of(spec@.subset_of(prev@.dom()), spec@.subset_of(next@.dom())),
{
    match (prev.satisfies(spec), next.satisfies(spec)) {
        (false, true) => Classification::Activating,
        (true, false) => Classification::Deactivating,
        _ => Classification::Neutral,
    }
}

} // verus!
