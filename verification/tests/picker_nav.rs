//! Tests of the picker state machine: row building, cyclic navigation,
//! selection and cancellation.
use sebas::groups::{SebasApp, StoreRoot};
use sebas::hashing::generate_hash;
use sebas::model::{CommandGroup, SavedCommand};
use sebas::picker::{Picker, PickerEvent, PickerOutcome, PickerRow};
use sebas::store::Store;

fn cmd(text: &str) -> SavedCommand {
    SavedCommand {
        command: text.to_string(),
        comment: None,
        hash: generate_hash(text),
        created_at: "2024-01-01T00:00:00+00:00".to_string(),
    }
}

fn two_group_picker() -> Picker {
    let mut store_a = Store::new();
    store_a.save(
        "dev",
        &CommandGroup { commands: vec![cmd("git status"), cmd("git pull")] },
    );
    let mut store_b = Store::new();
    store_b.save("ops", &CommandGroup { commands: vec![cmd("kubectl get pods")] });
    let roots = vec![
        StoreRoot { path: "/a/.sebas".to_string(), store: store_a },
        StoreRoot { path: "/b/.sebas".to_string(), store: store_b },
    ];
    let app = SebasApp::new(roots).unwrap();
    Picker::new(app.resolve_all_commands())
}

fn is_header(row: &PickerRow) -> bool {
    matches!(row, PickerRow::Header(_))
}

#[test]
fn rows_have_headers_before_each_group() {
    let p = two_group_picker();
    assert_eq!(p.rows.len(), 5);
    assert!(is_header(&p.rows[0]));
    assert!(!is_header(&p.rows[1]));
    assert!(!is_header(&p.rows[2]));
    assert!(is_header(&p.rows[3]));
    assert!(!is_header(&p.rows[4]));
    // the cursor starts on the first selectable row
    assert_eq!(p.cursor, 1);
}

#[test]
fn down_skips_headers_and_wraps() {
    let mut p = two_group_picker();
    assert!(p.step(PickerEvent::Down).is_none());
    assert_eq!(p.cursor, 2);
    assert!(p.step(PickerEvent::Down).is_none());
    assert_eq!(p.cursor, 4);
    // from the last selectable row, Down wraps to the first
    assert!(p.step(PickerEvent::Down).is_none());
    assert_eq!(p.cursor, 1);
}

#[test]
fn up_wraps_to_last_from_first() {
    let mut p = two_group_picker();
    assert_eq!(p.cursor, 1);
    assert!(p.step(PickerEvent::Up).is_none());
    assert_eq!(p.cursor, 4);
    assert!(p.step(PickerEvent::Up).is_none());
    assert_eq!(p.cursor, 2);
}

#[test]
fn single_entry_navigation_is_a_noop() {
    let mut store = Store::new();
    store.save("misc", &CommandGroup { commands: vec![cmd("echo hi")] });
    let app =
        SebasApp::new(vec![StoreRoot { path: "/p/.sebas".to_string(), store }]).unwrap();
    let mut p = Picker::new(app.resolve_all_commands());
    assert_eq!(p.cursor, 1);
    assert!(p.step(PickerEvent::Down).is_none());
    assert_eq!(p.cursor, 1);
    assert!(p.step(PickerEvent::Up).is_none());
    assert_eq!(p.cursor, 1);
}

#[test]
fn enter_selects_the_cursor_entry() {
    let mut p = two_group_picker();
    p.step(PickerEvent::Down);
    match p.step(PickerEvent::Enter) {
        Some(PickerOutcome::Selected(e)) => {
            assert_eq!(e.command.command, "git status");
            assert_eq!(e.index, 2);
        },
        _ => panic!("Enter on a selectable row must select it"),
    }
}

#[test]
fn cancel_ends_with_nothing() {
    let mut p = two_group_picker();
    match p.step(PickerEvent::Cancel) {
        Some(PickerOutcome::Cancelled) => {},
        _ => panic!("a cancel key must end the session with nothing chosen"),
    }
}

#[test]
fn other_keys_do_nothing() {
    let mut p = two_group_picker();
    assert!(p.step(PickerEvent::Other).is_none());
    assert_eq!(p.cursor, 1);
}

#[test]
fn empty_picker_is_inert() {
    let mut p = Picker::new(vec![]);
    assert!(p.rows.is_empty());
    assert_eq!(p.cursor, 0);
    assert!(p.step(PickerEvent::Down).is_none());
    assert_eq!(p.cursor, 0);
    assert!(p.step(PickerEvent::Enter).is_none());
}
