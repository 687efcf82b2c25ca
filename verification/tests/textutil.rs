//! Tests of the string utilities: ordering, parsing, rendering, searching,
//! sanitizing, and the discovery filter.
use sebas::discovery::discover_roots;
use sebas::fzf::{find_by_command, fzf_display_line, selected_command_text};
use sebas::hashing::generate_hash;
use sebas::model::{sanitize_filename, ResolvedCommand, SavedCommand};
use sebas::text::{
    parse_usize, str_contains, str_eq, str_le, str_lt, str_starts_with, usize_to_dec,
};

#[test]
fn lexicographic_order() {
    assert!(str_le("git pull", "git status"));
    assert!(!str_le("git status", "git pull"));
    assert!(str_le("abc", "abc"));
    assert!(str_lt("abc", "abd"));
    assert!(!str_lt("abc", "abc"));
    assert!(str_le("ab", "abc"));
    assert!(!str_le("abc", "ab"));
    assert!(str_le("", "a"));
}

#[test]
fn string_equality() {
    assert!(str_eq("dev", "dev"));
    assert!(!str_eq("dev", "deV"));
    assert!(!str_eq("dev", "devops"));
    assert!(str_eq("", ""));
}

#[test]
fn prefix_tests() {
    assert!(str_starts_with("e62b04aa", "e62b"));
    assert!(str_starts_with("e62b04aa", ""));
    assert!(!str_starts_with("e62b04aa", "b04"));
    assert!(!str_starts_with("e6", "e62b"));
}

#[test]
fn substring_search() {
    assert!(str_contains("git status", "stat"));
    assert!(str_contains("git status", ""));
    assert!(!str_contains("git status", "pull"));
    assert!(str_contains("aaa", "aa"));
    assert!(!str_contains("ab", "abc"));
}

#[test]
fn parsing_identifiers() {
    assert_eq!(parse_usize("42"), Some(42));
    assert_eq!(parse_usize("0"), Some(0));
    assert_eq!(parse_usize("007"), Some(7));
    assert_eq!(parse_usize(""), None);
    assert_eq!(parse_usize("12a"), None);
    assert_eq!(parse_usize("e62b04aa"), None);
    assert_eq!(parse_usize("99999999999999999999999999"), None);
}

#[test]
fn decimal_rendering() {
    assert_eq!(usize_to_dec(0), "0");
    assert_eq!(usize_to_dec(7), "7");
    assert_eq!(usize_to_dec(12345), "12345");
    assert_eq!(parse_usize(&usize_to_dec(98765)), Some(98765));
}

#[test]
fn sanitizing_group_names() {
    assert_eq!(sanitize_filename("My Group!"), "my_group_");
    assert_eq!(sanitize_filename("AbC-12_z"), "abc-12_z");
    assert_eq!(sanitize_filename("Miscellaneous"), "miscellaneous");
    assert_eq!(sanitize_filename(""), "");
}

#[test]
fn sanitizing_keeps_unicode_alphanumerics() {
    assert_eq!(sanitize_filename("Café"), "café");
    assert_eq!(sanitize_filename("日本 x"), "日本_x");
    assert_eq!(sanitize_filename("Übung-1"), "übung-1");
}

#[test]
fn discovery_keeps_marked_ancestors_in_order() {
    let dirs = vec![
        "/h/u/proj/sub".to_string(),
        "/h/u/proj".to_string(),
        "/h/u".to_string(),
        "/h".to_string(),
    ];
    let marked = vec![false, true, true, false];
    let roots = discover_roots(&dirs, &marked);
    assert_eq!(roots, vec!["/h/u/proj".to_string(), "/h/u".to_string()]);
    let empty_dirs: Vec<String> = vec![];
    let empty_marks: Vec<bool> = vec![];
    let none = discover_roots(&empty_dirs, &empty_marks);
    assert!(none.is_empty());
}

fn entry(index: usize, group: &str, text: &str) -> ResolvedCommand {
    ResolvedCommand {
        command: SavedCommand {
            command: text.to_string(),
            comment: None,
            hash: generate_hash(text),
            created_at: "2024-01-01T00:00:00+00:00".to_string(),
        },
        group: group.to_string(),
        folder_path: "/w/.sebas".to_string(),
        index,
    }
}

#[test]
fn fzf_display_line_has_index_group_and_command() {
    let e = entry(2, "dev", "git status");
    assert_eq!(fzf_display_line(&e), "[2] dev | git status");
}

#[test]
fn selected_text_is_recovered_from_a_line() {
    assert_eq!(selected_command_text("[2] dev | git status"), "git status");
    assert_eq!(selected_command_text("no separator here"), "no separator here");
    assert_eq!(selected_command_text(""), "");
    // the first separator decides
    assert_eq!(selected_command_text("[1] g | a | b"), "a | b");
}

#[test]
fn find_by_command_takes_the_first_match() {
    let entries = vec![entry(1, "dev", "ls"), entry(2, "ops", "ls"), entry(3, "dev", "pwd")];
    let hit = find_by_command(&entries, "ls").unwrap();
    assert_eq!(hit.index, 1);
    assert_eq!(hit.group, "dev");
    assert!(find_by_command(&entries, "absent").is_none());
}
