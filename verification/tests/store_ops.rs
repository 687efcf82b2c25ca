//! Tests of the store's group-file operations and the group-management
//! handlers.
use sebas::groups::{SebasApp, StoreRoot};
use sebas::hashing::generate_hash;
use sebas::model::{CommandGroup, SavedCommand, SebasError, StorageManager};
use sebas::store::Store;

fn cmd(text: &str) -> SavedCommand {
    SavedCommand {
        command: text.to_string(),
        comment: None,
        hash: generate_hash(text),
        created_at: "2024-01-01T00:00:00+00:00".to_string(),
    }
}

fn one_root_app(store: Store) -> SebasApp {
    SebasApp::new(vec![StoreRoot { path: "/w/.sebas".to_string(), store }]).unwrap()
}

#[test]
fn loading_an_absent_group_is_a_fresh_empty_group() {
    let store = Store::new();
    let g = store.load("missing");
    assert!(g.commands.is_empty());
}

#[test]
fn save_then_load_round_trips() {
    let mut store = Store::new();
    store.save("dev", &CommandGroup { commands: vec![cmd("ls -la")] });
    let g = store.load("dev");
    assert_eq!(g.commands.len(), 1);
    assert_eq!(g.commands[0].command, "ls -la");
    assert_eq!(g.commands[0].hash, "1de700c2");
}

#[test]
fn save_overwrites_an_existing_group() {
    let mut store = Store::new();
    store.save("dev", &CommandGroup { commands: vec![cmd("ls -la")] });
    store.save("dev", &CommandGroup { commands: vec![cmd("echo hi"), cmd("git pull")] });
    let g = store.load("dev");
    assert_eq!(g.commands.len(), 2);
    assert_eq!(store.list_groups(), vec!["dev".to_string()]);
}

#[test]
fn list_groups_is_sorted() {
    let mut store = Store::new();
    store.save("zeta", &CommandGroup::new());
    store.save("alpha", &CommandGroup::new());
    store.save("misc", &CommandGroup::new());
    assert_eq!(
        store.list_groups(),
        vec!["alpha".to_string(), "misc".to_string(), "zeta".to_string()]
    );
}

#[test]
fn delete_removes_the_group_file() {
    let mut store = Store::new();
    store.save("dev", &CommandGroup::new());
    store.delete("dev").unwrap();
    assert!(store.list_groups().is_empty());
    assert!(!store.has_group("dev"));
}

#[test]
fn deleting_an_absent_group_is_not_found() {
    let mut store = Store::new();
    assert_eq!(store.delete("ghost").unwrap_err(), SebasError::NotFound);
}

#[test]
fn rename_moves_contents() {
    let mut store = Store::new();
    store.save("old", &CommandGroup { commands: vec![cmd("git status")] });
    store.rename("old", "new").unwrap();
    assert!(!store.has_group("old"));
    let g = store.load("new");
    assert_eq!(g.commands.len(), 1);
    assert_eq!(g.commands[0].command, "git status");
}

#[test]
fn rename_onto_existing_group_already_exists() {
    let mut store = Store::new();
    store.save("old", &CommandGroup { commands: vec![cmd("git status")] });
    store.save("new", &CommandGroup { commands: vec![cmd("git pull")] });
    assert_eq!(store.rename("old", "new").unwrap_err(), SebasError::AlreadyExists);
    // both groups are unchanged
    assert_eq!(store.load("old").commands[0].command, "git status");
    assert_eq!(store.load("new").commands[0].command, "git pull");
}

#[test]
fn rename_of_absent_group_is_not_found() {
    let mut store = Store::new();
    assert_eq!(store.rename("ghost", "new").unwrap_err(), SebasError::NotFound);
}

#[test]
fn app_add_group_and_collision() {
    let mut app = one_root_app(Store::new());
    app.add_group("Dev Stuff").unwrap();
    // the stored name is sanitized
    assert_eq!(app.get_all_groups(), vec!["dev_stuff".to_string()]);
    assert_eq!(app.add_group("dev stuff").unwrap_err(), SebasError::AlreadyExists);
}

#[test]
fn app_rename_group_sanitizes_destination() {
    let mut store = Store::new();
    store.save("old", &CommandGroup { commands: vec![cmd("ls -la")] });
    let mut app = one_root_app(store);
    app.rename_group("old", "New Name").unwrap();
    assert_eq!(app.get_all_groups(), vec!["new_name".to_string()]);
}

#[test]
fn app_rename_collision_leaves_groups_unchanged() {
    let mut store = Store::new();
    store.save("old", &CommandGroup { commands: vec![cmd("git status")] });
    store.save("new", &CommandGroup { commands: vec![cmd("git pull")] });
    let mut app = one_root_app(store);
    assert_eq!(app.rename_group("old", "new").unwrap_err(), SebasError::AlreadyExists);
    assert_eq!(app.get_all_groups(), vec!["new".to_string(), "old".to_string()]);
    assert_eq!(app.load_group("old").commands[0].command, "git status");
    assert_eq!(app.load_group("new").commands[0].command, "git pull");
}

#[test]
fn app_remove_group() {
    let mut store = Store::new();
    store.save("dev", &CommandGroup { commands: vec![cmd("ls -la")] });
    let mut app = one_root_app(store);
    app.remove_group("dev").unwrap();
    assert!(app.get_all_groups().is_empty());
    assert_eq!(app.remove_group("dev").unwrap_err(), SebasError::NotFound);
}

#[test]
fn storage_manager_keeps_its_path() {
    let m = StorageManager::new("/home/user/.sebas-rs".to_string());
    assert_eq!(m.get_base_path().as_str(), "/home/user/.sebas-rs");
}
