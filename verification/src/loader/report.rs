//! Entry-level errors and the per-entry report of a reconciliation.
//!
//! An error that user configuration or a component can trigger is reported
//! here (the entry is not mounted, the reconciliation goes on) rather than
//! aborting the reconciliation.

use vstd::prelude::*;
use vstd::string::*;

use crate::symbol::Symbol;

verus! {

/// An entry-level error (the payload of an orchestration error).
#[derive(Debug)]
pub struct EntryError {
    /// The entry id.
    pub entry_id: String,
    /// The kind of error.
    pub kind: EntryErrorKind,
}

/// Entry-level error kinds.
#[derive(Debug)]
pub enum EntryErrorKind {
    /// The component name is not registered.
    UnknownComponent {
        /// The unknown name.
        component: String,
    },
    /// The configuration failed its validation (the entry is not mounted).
    ConfigValidation {
        /// The validation message.
        message: String,
    },
    /// The entry's provision meets a registered one (first wins).
    ProvisionClash {
        /// Every key the entry's provision shares with registered ones.
        keys: Vec<Symbol>,
        /// The entry that owns the binding of the first shared key.
        owner: String,
    },
    /// The parent entry does not exist (or was removed).
    UnknownParent {
        /// The missing parent.
        parent: String,
    },
}

/// The diagnostic line of a list of keys: `[a,b]`.
pub open spec fn keys_text(keys: Seq<Seq<char>>) -> Seq<char>
    decreases keys.len(),
{
    if keys.len() == 0 {
        Seq::empty()
    } else if keys.len() == 1 {
        keys[0]
    } else {
        keys_text(keys.drop_last()) + seq![','] + keys.last()
    }
}

fn push_keys(out: &mut String, keys: &Vec<Symbol>)
    ensures
        final(out)@ == old(out)@ + seq!['['] + keys_text(crate::keyset::names(keys@)) + seq![']'],
{
    out.append("[");
    proof { reveal_strlit("["); }
    let ghost start = out@;
    let mut i: usize = 0;
    while i < keys.len()
        invariant
            i <= keys.len(),
            out@ == start + keys_text(crate::keyset::names(keys@).subrange(0, i as int)),
        decreases keys.len() - i,
    {
        let ghost before = out@;
        if i > 0 {
            out.append(",");
            proof { reveal_strlit(","); }
        }
        out.append(keys[i].as_str());
        proof {
            let ns = crate::keyset::names(keys@);
            let p = ns.subrange(0, i as int + 1);
            assert(p.drop_last() =~= ns.subrange(0, i as int));
            assert(p.last() == keys@[i as int]@);
            if i == 0 {
                assert(ns.subrange(0, 0) =~= Seq::<Seq<char>>::empty());
            }
        }
        i = i + 1;
    }
    proof {
        assert(crate::keyset::names(keys@).subrange(0, keys@.len() as int) =~= crate::keyset::names(keys@));
    }
    out.append("]");
    proof { reveal_strlit("]"); }
}

impl EntryError {
    /// The one-line diagnostic: the entry id, the conflicting key or the
    /// component name, and the reason.
    pub fn message(&self) -> (r: String)
        ensures
            ({
                let id = self.entry_id@;
                match self.kind {
                    EntryErrorKind::UnknownComponent { component } =>
                        r@ == "entry \""@ + id + "\": unknown component \""@ + component@ + "\" (register it first)"@,
                    EntryErrorKind::ConfigValidation { message } =>
                        r@ == "entry \""@ + id + "\": configuration rejected: "@ + message@,
                    EntryErrorKind::ProvisionClash { keys, owner } =>
                        r@ == "entry \""@ + id + "\": provision clash: keys "@ + seq!['['] + keys_text(crate::keyset::names(keys@)) + seq![']']
                            + " already provided by entry \""@ + owner@ + "\" (first-wins)"@,
                    EntryErrorKind::UnknownParent { parent } =>
                        r@ == "entry \""@ + id + "\": parent entry \""@ + parent@ + "\" is missing or removed"@,
                }
            }),
    {
        let mut out = String::new();
        out.append("entry \"");
        out.append(self.entry_id.as_str());
        match &self.kind {
            EntryErrorKind::UnknownComponent { component } => {
                out.append("\": unknown component \"");
                out.append(component.as_str());
                out.append("\" (register it first)");
            },
            EntryErrorKind::ConfigValidation { message } => {
                out.append("\": configuration rejected: ");
                out.append(message.as_str());
            },
            EntryErrorKind::ProvisionClash { keys, owner } => {
                out.append("\": provision clash: keys ");
                push_keys(&mut out, keys);
                out.append(" already provided by entry \"");
                out.append(owner.as_str());
                out.append("\" (first-wins)");
            },
            EntryErrorKind::UnknownParent { parent } => {
                out.append("\": parent entry \"");
                out.append(parent.as_str());
                out.append("\" is missing or removed");
            },
        }
        out
    }
}

/// The outcome of one entry in a reconciliation.
#[derive(Debug)]
pub enum EntryOutcome {
    /// Unchanged (idempotent: the entry matched the loaded tree).
    Unchanged,
    /// Activated or rebuilt.
    Activated,
    /// An orchestration error: the entry is not mounted (retried on every
    /// reconciliation).
    Failed(EntryError),
    /// A component failure: mounted but `Inactive(ζ)`.
    FailedFiber {
        /// The failure message.
        error: String,
    },
}

impl EntryOutcome {
    /// Whether the outcome is a failure (`Failed` or `FailedFiber`).
    pub fn is_failure(&self) -> (r: bool)
        ensures
            r == (self is Failed || self is FailedFiber),
    {
        match self {
            EntryOutcome::Failed(_) => true,
            EntryOutcome::FailedFiber { .. } => true,
            _ => false,
        }
    }
}

/// The report of a reconciliation: the outcomes in reconciliation order
/// (a group before its children).
#[derive(Debug)]
pub struct ApplyReport {
    /// The outcomes.
    pub outcomes: Vec<EntryOutcome>,
}

impl ApplyReport {
    /// The positions of the failed outcomes, in order.
    pub fn failed(&self) -> (r: Vec<usize>)
        ensures
            forall|k: int| 0 <= k < r@.len() ==> r@[k] < self.outcomes@.len()
                && (#[trigger] self.outcomes@[r@[k] as int] is Failed || self.outcomes@[r@[k] as int] is FailedFiber),
            forall|i: int| 0 <= i < self.outcomes@.len() && (self.outcomes@[i] is Failed || self.outcomes@[i] is FailedFiber)
                ==> r@.contains(i as usize),
            forall|a: int, b: int| 0 <= a < b < r@.len() ==> r@[a] < r@[b],
    {
        let mut out: Vec<usize> = Vec::new();
        let mut i: usize = 0;
        while i < self.outcomes.len()
            invariant
                i <= self.outcomes.len(),
                forall|k: int| 0 <= k < out@.len() ==> #[trigger] out@[k] < i,
                forall|k: int| 0 <= k < out@.len() ==> out@[k] < self.outcomes@.len()
                    && (#[trigger] self.outcomes@[out@[k] as int] is Failed || self.outcomes@[out@[k] as int] is FailedFiber),
                forall|j: int| 0 <= j < i && (self.outcomes@[j] is Failed || self.outcomes@[j] is FailedFiber)
                    ==> out@.contains(j as usize),
                forall|a: int, b: int| 0 <= a < b < out@.len() ==> out@[a] < out@[b],
            decreases self.outcomes.len() - i,
        {
            if self.outcomes[i].is_failure() {
                let ghost before = out@;
                out.push(i);
                proof {
                    assert forall|a: int, b: int| 0 <= a < b < out@.len() implies out@[a] < out@[b] by {
                        if b == out@.len() - 1 {
                            assert(out@[a] == before[a]);
                        }
                    }
                    assert forall|j: int| 0 <= j < i + 1 && (self.outcomes@[j] is Failed || self.outcomes@[j] is FailedFiber)
                        implies out@.contains(j as usize) by {
                        if j < i {
                            let w = choose|w: int| 0 <= w < before.len() && before[w] == j as usize;
                            assert(out@[w] == j as usize);
                        } else {
                            assert(out@[out@.len() - 1] == j as usize);
                        }
                    }
                }
            }
            i = i + 1;
        }
        out
    }

    /// Whether every entry succeeded.
    pub fn ok(&self) -> (r: bool)
        ensures
            r == forall|i: int| 0 <= i < self.outcomes@.len() ==> !(self.outcomes@[i] is Failed || self.outcomes@[i] is FailedFiber),
    {
        let mut i: usize = 0;
        while i < self.outcomes.len()
            invariant
                i <= self.outcomes.len(),
                forall|j: int| 0 <= j < i ==> !(self.outcomes@[j] is Failed || self.outcomes@[j] is FailedFiber),
            decreases self.outcomes.len() - i,
        {
            if self.outcomes[i].is_failure() {
                return false;
            }
            i = i + 1;
        }
        true
    }
}

/// The state of a loaded entry.
#[derive(Debug)]
pub enum EntryState {
    /// Loaded (active or running).
    Loaded,
    /// Disabled.
    Disabled,
    /// An orchestration error: not mounted.
    Failed(EntryError),
    /// A component failure: `Inactive(ζ)`.
    FailedFiber(String),
}

} // verus!
