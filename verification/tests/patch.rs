use cordis::loader::patch::{apply_patches, Patch};
use cordis::loader::Entry;
use cordis::value::Value;

fn entry(id: &str, component: &str, config: &str, revision: u64, disabled: bool) -> Entry {
    Entry::new(id.to_string(), component.to_string(), Value::Text(config.to_string()), revision, disabled)
}

fn text(v: &Value) -> &str {
    match v {
        Value::Text(t) => t,
        other => panic!("a text configuration is expected, not {other:?}"),
    }
}

#[test]
fn patch_overrides_fields_and_preserves_rest() {
    let tree = vec![entry("a", "comp", "v1", 1, false), entry("b", "comp", "v2", 1, false)];
    let mut p = Patch::override_fields("a".to_string());
    p.config = Some(Value::Text("v9".to_string()));
    p.revision = Some(2);
    p.disabled = Some(true);
    let out = apply_patches(&tree, &vec![p]);
    assert_eq!(out.len(), 2, "the tree keeps its size");
    assert_eq!(text(&out[0].config), "v9", "config overridden");
    assert_eq!(out[0].revision, 2, "revision overridden");
    assert!(out[0].disabled, "disabled overridden");
    assert_eq!(text(&out[1].config), "v2", "other entries untouched");
}

#[test]
fn patch_inserts_into_group_and_ignores_non_group() {
    let tree = vec![
        Entry::group("g".to_string(), vec![entry("c1", "comp", "v", 1, false)]),
        entry("leaf", "comp", "v", 1, false),
    ];
    let out = apply_patches(&tree, &vec![Patch::insert_into(Some("g".to_string()), vec![entry("c2", "comp", "v2", 1, false)])]);
    let g = &out[0];
    assert!(g.is_group(), "the group stays a group");
    assert_eq!(g.children.len(), 2, "the child is inserted");
    assert_eq!(g.children[1].id, "c2");

    let out2 = apply_patches(&tree, &vec![Patch::insert_into(Some("leaf".to_string()), vec![entry("c3", "comp", "v", 1, false)])]);
    assert_eq!(out2[1].children.len(), 0, "an insertion into a leaf is ignored");
}

#[test]
fn patch_matches_nested_ids_and_unknown_ids_ignored() {
    let tree = vec![Entry::group("g".to_string(), vec![entry("deep", "comp", "v", 1, false)])];
    let mut p = Patch::override_fields("deep".to_string());
    p.name = Some("other".to_string());
    let out = apply_patches(&tree, &vec![p]);
    assert_eq!(out[0].children[0].component, "other", "a nested id matches");

    let out2 = apply_patches(&tree, &vec![Patch::override_fields("ghost".to_string())]);
    assert_eq!(out2[0].children[0].component, "comp", "an unknown id is ignored");
}

#[test]
fn each_patch_applies_once_to_a_nested_group() {
    let inner = Entry::group("h".to_string(), vec![entry("c1", "comp", "v", 1, false)]);
    let tree = vec![Entry::group("g".to_string(), vec![inner])];
    let insert = Patch::insert_into(Some("h".to_string()), vec![entry("c2", "comp", "v2", 1, false)]);
    let mut other = Patch::override_fields("c1".to_string());
    other.revision = Some(5);
    let out = apply_patches(&tree, &vec![insert, other]);
    let h = &out[0].children[0];
    assert_eq!(h.children.len(), 2, "the insert is applied once");
    assert_eq!(h.children[1].id, "c2");
    assert_eq!(h.children[0].revision, 5);
}
