use cordis::loader::report::{ApplyReport, EntryError, EntryErrorKind, EntryOutcome, EntryState};
use cordis::symbol::Symbol;

fn sym(n: &str) -> Symbol {
    Symbol::intern(n)
}

#[test]
fn display_carries_three_elements() {
    let e = EntryError {
        entry_id: "web-search".into(),
        kind: EntryErrorKind::ProvisionClash {
            keys: vec![sym("web")],
            owner: "web-core".into(),
        },
    };
    let s = e.message();
    assert!(s.contains("web-search"), "the entry id");
    assert!(s.contains("web"), "the shared key");
    assert!(s.contains("web-core"), "the owner id");
    assert!(s.contains("first-wins"), "the reason");
    let c = EntryError {
        entry_id: "x".into(),
        kind: EntryErrorKind::ConfigValidation {
            message: "missing url".into(),
        },
    };
    assert!(c.message().contains("configuration rejected: missing url"));
}

#[test]
fn apply_report_failed_and_ok() {
    let r = ApplyReport {
        outcomes: vec![
            EntryOutcome::Activated,
            EntryOutcome::Failed(EntryError {
                entry_id: "x".into(),
                kind: EntryErrorKind::UnknownComponent {
                    component: "y".into(),
                },
            }),
        ],
    };
    assert_eq!(r.failed().len(), 1);
    assert!(!r.ok());
    let ok = ApplyReport {
        outcomes: vec![EntryOutcome::Activated, EntryOutcome::Unchanged],
    };
    assert!(ok.ok());
}

#[test]
fn entry_state_holds_failed() {
    let s = EntryState::Failed(EntryError {
        entry_id: "a".into(),
        kind: EntryErrorKind::ConfigValidation {
            message: "m".into(),
        },
    });
    assert!(matches!(s, EntryState::Failed(_)));
}

#[test]
fn provision_clash_message_lists_every_key() {
    let e = EntryError {
        entry_id: "e".into(),
        kind: EntryErrorKind::ProvisionClash {
            keys: vec![sym("a"), sym("b")],
            owner: "o".into(),
        },
    };
    assert_eq!(
        e.message(),
        "entry \"e\": provision clash: keys [a,b] already provided by entry \"o\" (first-wins)"
    );
}
