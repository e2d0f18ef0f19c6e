//! Patches on a desired entry tree: a pure transformation (the input tree is
//! left as is) that overrides fields of the entries with a given id and
//! inserts children into groups; the result is then reconciled as usual.

use vstd::prelude::*;

use super::{iso_pairs, Entry, TREE_DEPTH};
use crate::value::Value;

verus! {

/// One patch: overrides of the entry `id` (anywhere in the tree) and
/// children to insert into it when it is a group.
#[derive(Debug)]
pub struct Patch {
    /// The target entry (`None` matches nothing).
    pub id: Option<String>,
    /// Children to append to the target group (ignored on a leaf).
    pub insert: Option<Vec<Entry>>,
    /// A new component name.
    pub name: Option<String>,
    /// A new configuration.
    pub config: Option<Value>,
    /// A new revision.
    pub revision: Option<u64>,
    /// A new `disabled` flag.
    pub disabled: Option<bool>,
}

impl Patch {
    /// A patch inserting `children` into the group `id`.
    pub fn insert_into(id: Option<String>, children: Vec<Entry>) -> (r: Patch)
        ensures
            r.id == id,
            r.insert == Some(children),
            r.name is None,
            r.config is None,
            r.revision is None,
            r.disabled is None,
    {
        Patch { id, insert: Some(children), name: None, config: None, revision: None, disabled: None }
    }

    /// A patch overriding fields of entry `id` (set the fields to change).
    pub fn override_fields(id: String) -> (r: Patch)
        ensures
            r.id == Some(id),
            r.insert is None,
            r.name is None,
            r.config is None,
            r.revision is None,
            r.disabled is None,
    {
        Patch { id: Some(id), insert: None, name: None, config: None, revision: None, disabled: None }
    }
}

/// Whether `patch` targets the entry named `id`.
pub open spec fn targets(patch: Patch, id: Seq<char>) -> bool {
    patch.id matches Some(t) && t@ == id
}

fn matches_id(patch: &Patch, id: &String) -> (r: bool)
    ensures
        r == targets(*patch, id@),
{
    match &patch.id {
        Some(t) => *t == *id,
        None => false,
    }
}

/// The last value that a patch of `ps` targeting `id` sets with `f`.
pub open spec fn last_set<T>(ps: Seq<Patch>, id: Seq<char>, f: spec_fn(Patch) -> Option<T>) -> Option<T>
    decreases ps.len(),
{
    if ps.len() == 0 {
        None
    } else if targets(ps.last(), id) && f(ps.last()) is Some {
        f(ps.last())
    } else {
        last_set(ps.drop_last(), id, f)
    }
}

/// The children that the patches of `ps` targeting `id` insert, in order.
pub open spec fn inserted(ps: Seq<Patch>, id: Seq<char>) -> Seq<Entry>
    decreases ps.len(),
{
    if ps.len() == 0 {
        Seq::empty()
    } else if targets(ps.last(), id) && ps.last().insert is Some {
        inserted(ps.drop_last(), id) + ps.last().insert->0@
    } else {
        inserted(ps.drop_last(), id)
    }
}

/// The name a patch sets.
pub open spec fn patch_name(p: Patch) -> Option<String> {
    p.name
}

/// The configuration a patch sets.
pub open spec fn patch_config(p: Patch) -> Option<Value> {
    p.config
}

/// The revision a patch sets.
pub open spec fn patch_revision(p: Patch) -> Option<u64> {
    p.revision
}

/// The `disabled` flag a patch sets.
pub open spec fn patch_disabled(p: Patch) -> Option<bool> {
    p.disabled
}

/// What the patches make of one entry's own fields: the last patch
/// targeting it that sets a field decides that field.
pub open spec fn own_patched(entry: Entry, ps: Seq<Patch>, r: Entry) -> bool {
    let id = entry.id@;
    &&& r.id@ == id
    &&& r.component@ == (match last_set(ps, id, |p: Patch| patch_name(p)) {
        Some(n) => n@,
        None => entry.component@,
    })
    &&& r.config@ == (match last_set(ps, id, |p: Patch| patch_config(p)) {
        Some(c) => c@,
        None => entry.config@,
    })
    &&& r.revision == (match last_set(ps, id, |p: Patch| patch_revision(p)) {
        Some(v) => v,
        None => entry.revision,
    })
    &&& r.disabled == (match last_set(ps, id, |p: Patch| patch_disabled(p)) {
        Some(v) => v,
        None => entry.disabled,
    })
    &&& iso_pairs(r.isolate@) == iso_pairs(entry.isolate@)
    &&& r.intercept@ == entry.intercept@
    &&& r.inject@ == entry.inject@
}

/// The children of a patched entry before they are patched themselves: its
/// own, then (for a group) those the patches targeting it insert, in order.
pub open spec fn child_sources(entry: Entry, ps: Seq<Patch>) -> Seq<Entry> {
    entry.children@ + (if entry.children@.len() > 0 { inserted(ps, entry.id@) } else { Seq::<Entry>::empty() })
}

/// `r` is `entry` with the patches `ps` applied, `depth` levels deep:
/// its own fields patched, and each child the patched version of its
/// source (below `depth`, a child only keeps its source's id).
pub open spec fn patched(entry: Entry, ps: Seq<Patch>, r: Entry, depth: nat) -> bool
    decreases depth,
{
    let src = child_sources(entry, ps);
    &&& own_patched(entry, ps, r)
    &&& r.children@.len() == src.len()
    &&& forall|j: int| 0 <= j < src.len() ==> if depth == 0 {
        (#[trigger] r.children@[j]).id@ == src[j].id@
    } else {
        patched(src[j], ps, r.children@[j], (depth - 1) as nat)
    }
}

/// With no patch targeting `id`, no patch sets a field of it.
proof fn lemma_untargeted<T>(ps: Seq<Patch>, id: Seq<char>, f: spec_fn(Patch) -> Option<T>)
    requires
        forall|k: int| 0 <= k < ps.len() ==> !targets(#[trigger] ps[k], id),
    ensures
        last_set(ps, id, f) is None,
        inserted(ps, id).len() == 0,
    decreases ps.len(),
{
    if ps.len() > 0 {
        assert(!targets(ps[ps.len() - 1], id));
        lemma_untargeted(ps.drop_last(), id, f);
    }
}

/// Patches leave what they do not name: an entry that no patch targets
/// keeps every field of its own (component, configuration, revision,
/// `disabled`, isolation, interception and injection) and its number of
/// children.
pub proof fn law_patch_keeps_untargeted(entry: Entry, ps: Seq<Patch>, r: Entry, depth: nat)
    requires
        patched(entry, ps, r, depth),
        forall|k: int| 0 <= k < ps.len() ==> !targets(#[trigger] ps[k], entry.id@),
    ensures
        r.id@ == entry.id@,
        r.component@ == entry.component@,
        r.config@ == entry.config@,
        r.revision == entry.revision,
        r.disabled == entry.disabled,
        iso_pairs(r.isolate@) == iso_pairs(entry.isolate@),
        r.intercept@ == entry.intercept@,
        r.inject@ == entry.inject@,
        r.children@.len() == entry.children@.len(),
{
    lemma_untargeted(ps, entry.id@, |p: Patch| patch_name(p));
    lemma_untargeted(ps, entry.id@, |p: Patch| patch_config(p));
    lemma_untargeted(ps, entry.id@, |p: Patch| patch_revision(p));
    lemma_untargeted(ps, entry.id@, |p: Patch| patch_disabled(p));
}

/// A child version of `src`: patched below `depth`, or copied at the
/// bottom.
fn child_of(src: &Entry, patches: &Vec<Patch>, depth: u64) -> (r: Entry)
    ensures
        if depth == 0 {
            r.id@ == src.id@
        } else {
            patched(*src, patches@, r, (depth - 1) as nat)
        },
    decreases depth, 0nat,
{
    if depth == 0 {
        src.duplicate()
    } else {
        patch_entry(src, patches, depth - 1)
    }
}

/// Applies every patch once to `entry`'s own fields (inserting children
/// into a group), and patches its children, `depth` levels deep.
fn patch_entry(entry: &Entry, patches: &Vec<Patch>, depth: u64) -> (r: Entry)
    ensures
        patched(*entry, patches@, r, depth as nat),
    decreases depth, 1nat,
{
    let ghost id = entry.id@;
    let group = entry.is_group();
    let mut out = Entry {
        id: entry.id.clone(),
        component: entry.component.clone(),
        isolate: super::clone_isolate(&entry.isolate),
        intercept: entry.intercept.duplicate(),
        inject: entry.inject.duplicate(),
        config: entry.config.clone(),
        revision: entry.revision,
        disabled: entry.disabled,
        children: Vec::new(),
    };
    proof {
        assert(iso_pairs(out.isolate@) =~= iso_pairs(entry.isolate@));
    }
    let mut children: Vec<Entry> = Vec::new();
    let mut c: usize = 0;
    while c < entry.children.len()
        invariant
            c <= entry.children@.len(),
            children@.len() == c,
            forall|j: int| 0 <= j < c ==> if depth == 0 {
                (#[trigger] children@[j]).id@ == entry.children@[j].id@
            } else {
                patched(entry.children@[j], patches@, children@[j], (depth - 1) as nat)
            },
        decreases entry.children.len() - c,
    {
        children.push(child_of(&entry.children[c], patches, depth));
        c = c + 1;
    }
    let mut k: usize = 0;
    proof {
        assert(patches@.take(0) =~= Seq::<Patch>::empty());
        assert(child_sources(*entry, patches@.take(0)) =~= entry.children@);
    }
    while k < patches.len()
        invariant
            k <= patches.len(),
            id == entry.id@,
            group == (entry.children@.len() > 0),
            own_patched(*entry, patches@.take(k as int), out),
            children@.len() == child_sources(*entry, patches@.take(k as int)).len(),
            forall|j: int| 0 <= j < children@.len() ==> if depth == 0 {
                (#[trigger] children@[j]).id@ == child_sources(*entry, patches@.take(k as int))[j].id@
            } else {
                patched(child_sources(*entry, patches@.take(k as int))[j], patches@, children@[j], (depth - 1) as nat)
            },
        decreases patches.len() - k,
    {
        let patch = &patches[k];
        let ghost pk = patches@.take(k + 1);
        let ghost src0 = child_sources(*entry, patches@.take(k as int));
        proof {
            assert(pk.drop_last() =~= patches@.take(k as int));
            assert(pk.last() == *patch);
        }
        if matches_id(patch, &entry.id) {
            match &patch.name {
                Some(n) => { out.component = n.clone(); },
                None => {},
            }
            match &patch.config {
                Some(cfg) => { out.config = cfg.clone(); },
                None => {},
            }
            match patch.revision {
                Some(v) => { out.revision = v; },
                None => {},
            }
            match patch.disabled {
                Some(v) => { out.disabled = v; },
                None => {},
            }
            match &patch.insert {
                Some(ins) => if group {
                    let mut q: usize = 0;
                    while q < ins.len()
                        invariant
                            q <= ins@.len(),
                            children@.len() == src0.len() + q,
                            forall|j: int| 0 <= j < src0.len() + q ==> if depth == 0 {
                                (#[trigger] children@[j]).id@ == (src0 + ins@)[j].id@
                            } else {
                                patched((src0 + ins@)[j], patches@, children@[j], (depth - 1) as nat)
                            },
                        decreases ins.len() - q,
                    {
                        children.push(child_of(&ins[q], patches, depth));
                        proof {
                            assert((src0 + ins@)[src0.len() + q] == ins@[q as int]);
                        }
                        q = q + 1;
                    }
                },
                None => {},
            }
        }
        proof {
            let src1 = child_sources(*entry, pk);
            if targets(*patch, id) && patch.insert is Some && group {
                assert(src1 =~= src0 + patch.insert->0@);
            } else {
                assert(src1 =~= src0);
            }
        }
        k = k + 1;
    }
    proof {
        assert(patches@.take(patches@.len() as int) =~= patches@);
    }
    out.children = children;
    out
}

/// Applies `patches` to the desired tree `entries` (a pure transformation:
/// the result is a new tree). Every entry whose id a patch names, at any
/// depth, gets that patch's overrides, each patch applied once (the last
/// one that sets a field wins); a patch's `insert` appends children to a
/// target group and is ignored on a leaf; a patch naming no entry is
/// ignored.
pub fn apply_patches(entries: &Vec<Entry>, patches: &Vec<Patch>) -> (r: Vec<Entry>)
    ensures
        r@.len() == entries@.len(),
        forall|i: int| 0 <= i < entries@.len() ==> patched(entries@[i], patches@, #[trigger] r@[i], TREE_DEPTH as nat),
{
    let mut out: Vec<Entry> = Vec::new();
    let mut i: usize = 0;
    while i < entries.len()
        invariant
            i <= entries.len(),
            out@.len() == i,
            forall|j: int| 0 <= j < i ==> patched(entries@[j], patches@, #[trigger] out@[j], TREE_DEPTH as nat),
        decreases entries.len() - i,
    {
        out.push(patch_entry(&entries[i], patches, TREE_DEPTH));
        i = i + 1;
    }
    out
}

} // verus!
