//! End-to-end tests of the resolver and the command operations over
//! in-memory stores.
use sebas::groups::{SebasApp, StoreRoot};
use sebas::hashing::generate_hash;
use sebas::model::{CommandGroup, SavedCommand, SebasError};
use sebas::store::Store;

fn cmd(text: &str) -> SavedCommand {
    SavedCommand {
        command: text.to_string(),
        comment: None,
        hash: generate_hash(text),
        created_at: "2024-01-01T00:00:00+00:00".to_string(),
    }
}

fn cmd_with_comment(text: &str, comment: &str) -> SavedCommand {
    SavedCommand {
        command: text.to_string(),
        comment: Some(comment.to_string()),
        hash: generate_hash(text),
        created_at: "2024-01-01T00:00:00+00:00".to_string(),
    }
}

/// Store root `A` has group `dev` with `git status` and `git pull`; ancestor
/// root `B` has group `ops` with `kubectl get pods`.
fn two_root_app() -> SebasApp {
    let mut store_a = Store::new();
    store_a.save(
        "dev",
        &CommandGroup { commands: vec![cmd("git status"), cmd("git pull")] },
    );
    let mut store_b = Store::new();
    store_b.save("ops", &CommandGroup { commands: vec![cmd("kubectl get pods")] });
    let roots = vec![
        StoreRoot { path: "/home/user/proj/.sebas".to_string(), store: store_a },
        StoreRoot { path: "/home/user/.sebas".to_string(), store: store_b },
    ];
    SebasApp::new(roots).unwrap()
}

#[test]
fn hash_is_deterministic_and_exact() {
    assert_eq!(generate_hash("git status"), "e62b04aa");
    assert_eq!(generate_hash("git pull"), "b3244c57");
    assert_eq!(generate_hash("kubectl get pods"), "65fc12be");
    assert_eq!(generate_hash("git status"), generate_hash("git status"));
    assert_eq!(generate_hash("git status").len(), 8);
}

#[test]
fn editing_text_changes_the_hash() {
    assert_ne!(generate_hash("ls -la"), generate_hash("ls -l"));
}

#[test]
fn resolve_all_merges_in_order() {
    let app = two_root_app();
    let resolved = app.resolve_all_commands();
    assert_eq!(resolved.len(), 3);
    // commands alphabetical within the group, roots nearest-first
    assert_eq!(resolved[0].command.command, "git pull");
    assert_eq!(resolved[0].group, "dev");
    assert_eq!(resolved[0].folder_path, "/home/user/proj/.sebas");
    assert_eq!(resolved[0].index, 1);
    assert_eq!(resolved[1].command.command, "git status");
    assert_eq!(resolved[1].index, 2);
    assert_eq!(resolved[2].command.command, "kubectl get pods");
    assert_eq!(resolved[2].group, "ops");
    assert_eq!(resolved[2].folder_path, "/home/user/.sebas");
    assert_eq!(resolved[2].index, 3);
}

#[test]
fn resolve_all_is_order_stable() {
    let app = two_root_app();
    let first = app.resolve_all_commands();
    let second = app.resolve_all_commands();
    assert_eq!(first.len(), second.len());
    for (a, b) in first.iter().zip(second.iter()) {
        assert_eq!(a.index, b.index);
        assert_eq!(a.command.command, b.command.command);
        assert_eq!(a.command.hash, b.command.hash);
        assert_eq!(a.group, b.group);
        assert_eq!(a.folder_path, b.folder_path);
    }
}

#[test]
fn resolve_by_numeric_identifier() {
    let app = two_root_app();
    let e = app.find_command_by_identifier("3").unwrap();
    assert_eq!(e.command.command, "kubectl get pods");
    let e1 = app.find_command_by_identifier("1").unwrap();
    assert_eq!(e1.command.command, "git pull");
}

#[test]
fn resolve_by_hash_prefix() {
    let app = two_root_app();
    let e = app.find_command_by_identifier("65fc12be").unwrap();
    assert_eq!(e.command.command, "kubectl get pods");
    let p = app.find_command_by_identifier("65f").unwrap();
    assert_eq!(p.command.command, "kubectl get pods");
    // a digit-only prefix is read as a position, not as a hash prefix
    assert!(app.find_command_by_identifier("65").is_none());
}

#[test]
fn round_trip_every_entry() {
    let app = two_root_app();
    for e in app.resolve_all_commands() {
        let by_index = app.find_command_by_identifier(&e.index.to_string()).unwrap();
        assert_eq!(by_index.command.hash, e.command.hash);
        assert_eq!(by_index.index, e.index);
        let by_hash = app.find_command_by_identifier(&e.command.hash).unwrap();
        assert_eq!(by_hash.command.hash, e.command.hash);
        assert_eq!(by_hash.index, e.index);
    }
}

#[test]
fn out_of_range_index_is_not_found() {
    let app = two_root_app();
    assert!(app.find_command_by_identifier("99").is_none());
    assert_eq!(app.get_command("99").unwrap_err(), SebasError::NotFound);
}

#[test]
fn unknown_hash_prefix_is_not_found() {
    let app = two_root_app();
    assert!(app.find_command_by_identifier("zzzz").is_none());
}

#[test]
fn empty_identifier_permissively_finds_the_first_entry() {
    // an empty prefix opens every hash; the first match in merge order wins
    let app = two_root_app();
    let e = app.find_command_by_identifier("").unwrap();
    assert_eq!(e.index, 1);
    assert_eq!(e.command.command, "git pull");
}

#[test]
fn get_command_returns_the_entry() {
    let app = two_root_app();
    let e = app.get_command("2").unwrap();
    assert_eq!(e.command.command, "git status");
}

#[test]
fn list_commands_filters_by_group() {
    let app = two_root_app();
    let all = app.list_commands(None);
    assert_eq!(all.len(), 3);
    let dev = app.list_commands(Some("dev".to_string()));
    assert_eq!(dev.len(), 2);
    assert_eq!(dev[0].command.command, "git pull");
    // filtered entries keep the indices the full merge assigned
    assert_eq!(dev[1].index, 2);
    let none = app.list_commands(Some("absent".to_string()));
    assert!(none.is_empty());
}

#[test]
fn search_is_case_insensitive() {
    let mut store = Store::new();
    store.save(
        "dev",
        &CommandGroup {
            commands: vec![
                cmd("git status"),
                cmd_with_comment("ls -la", "List Everything"),
            ],
        },
    );
    let app = SebasApp::new(vec![StoreRoot { path: "/p/.sebas".to_string(), store }]).unwrap();
    let hits = app.search_commands("GIT");
    assert_eq!(hits.len(), 1);
    assert_eq!(hits[0].command.command, "git status");
    // the comment matches too, case-insensitively
    let hits2 = app.search_commands("everything");
    assert_eq!(hits2.len(), 1);
    assert_eq!(hits2[0].command.command, "ls -la");
    let hits3 = app.search_commands("nothing-here");
    assert!(hits3.is_empty());
}

#[test]
fn add_command_stores_hash_and_text() {
    let mut app = two_root_app();
    let stored = app.add_command("docker ps".to_string(), Some("Tools".to_string()), None);
    assert_eq!(stored.command, "docker ps");
    assert_eq!(stored.hash, generate_hash("docker ps"));
    // the group name is sanitized to lower case
    let g = app.load_group("tools");
    assert_eq!(g.commands.len(), 1);
    assert_eq!(g.commands[0].command, "docker ps");
}

#[test]
fn add_command_defaults_to_miscellaneous() {
    let mut app = two_root_app();
    let stored = app.add_command("echo hi".to_string(), None, Some("greets".to_string()));
    assert_eq!(stored.comment.as_deref(), Some("greets"));
    let g = app.load_group("miscellaneous");
    assert_eq!(g.commands.len(), 1);
    assert_eq!(g.commands[0].hash, "56a79f3b");
}

#[test]
fn remove_command_by_identifier() {
    let mut app = two_root_app();
    app.remove_command("1").unwrap();
    let resolved = app.resolve_all_commands();
    assert_eq!(resolved.len(), 2);
    assert_eq!(resolved[0].command.command, "git status");
    assert_eq!(resolved[0].index, 1);
}

#[test]
fn remove_missing_command_is_not_found() {
    let mut app = two_root_app();
    assert_eq!(app.remove_command("77").unwrap_err(), SebasError::NotFound);
    assert_eq!(app.resolve_all_commands().len(), 3);
}

#[test]
fn removing_last_command_removes_the_group() {
    let mut app = two_root_app();
    // the ops group at the ancestor root has a single command
    app.remove_command("65fc12be").unwrap();
    let resolved = app.resolve_all_commands();
    assert_eq!(resolved.len(), 2);
    assert!(resolved.iter().all(|e| e.group != "ops"));
    // the ancestor root no longer lists the group at all
    let names = app.roots[1].store.list_groups();
    assert!(names.is_empty());
}

#[test]
fn edit_command_text_changes_hash() {
    let mut app = two_root_app();
    app.edit_command("1", Some("git fetch".to_string()), None, None).unwrap();
    let resolved = app.resolve_all_commands();
    let e = resolved.iter().find(|e| e.command.command == "git fetch").unwrap();
    assert_eq!(e.command.hash, generate_hash("git fetch"));
    assert!(resolved.iter().all(|e| e.command.command != "git pull"));
}

#[test]
fn edit_command_moves_between_groups() {
    let mut app = two_root_app();
    app.edit_command("2", None, Some("Archive".to_string()), None).unwrap();
    let resolved = app.resolve_all_commands();
    let e = resolved.iter().find(|e| e.command.command == "git status").unwrap();
    assert_eq!(e.group, "archive");
    // the hash is preserved: the command's identity did not change
    assert_eq!(e.command.hash, generate_hash("git status"));
}

#[test]
fn edit_command_updates_comment() {
    let mut app = two_root_app();
    app.edit_command("1", None, None, Some("sync first".to_string())).unwrap();
    let e = app.find_command_by_identifier(&generate_hash("git pull")).unwrap();
    assert_eq!(e.command.comment.as_deref(), Some("sync first"));
}

#[test]
fn edit_missing_command_is_not_found() {
    let mut app = two_root_app();
    let r = app.edit_command("77", Some("x".to_string()), None, None);
    assert_eq!(r.unwrap_err(), SebasError::NotFound);
}

#[test]
fn new_with_no_roots_is_not_found() {
    match SebasApp::new(vec![]) {
        Err(e) => assert_eq!(e, SebasError::NotFound),
        Ok(_) => panic!("an empty discovery must not build an app"),
    }
}

#[test]
fn colliding_hashes_resolve_to_the_first_match() {
    // stored hashes may collide; lookup is not deduplicated, the first entry
    // in merge order wins
    let mut store = Store::new();
    let mut first = cmd("apple");
    first.hash = "feedc0de".to_string();
    let mut second = cmd("banana");
    second.hash = "feedc0de".to_string();
    store.save("misc", &CommandGroup { commands: vec![first, second] });
    let app = SebasApp::new(vec![StoreRoot { path: "/p/.sebas".to_string(), store }]).unwrap();
    let e = app.find_command_by_identifier("feedc0de").unwrap();
    assert_eq!(e.command.command, "apple");
    assert_eq!(e.index, 1);
}

#[test]
fn zero_identifier_is_read_as_hash_prefix() {
    // "0" is not a positive index; it is read as a hash prefix instead
    let mut store = Store::new();
    let mut c = cmd("true");
    c.hash = "0abc1234".to_string();
    store.save("misc", &CommandGroup { commands: vec![c] });
    let app = SebasApp::new(vec![StoreRoot { path: "/p/.sebas".to_string(), store }]).unwrap();
    let e = app.find_command_by_identifier("0").unwrap();
    assert_eq!(e.command.command, "true");
}
