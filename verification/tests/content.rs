use std::collections::hash_map::DefaultHasher;
use std::hash::{Hash, Hasher};

use listory::desktop::content::{add_content_matches, entry_name, listed_paths_of, trim};

fn hash_of(s: &str) -> u64 {
    let mut h = DefaultHasher::new();
    s.to_string().hash(&mut h);
    h.finish()
}

#[test]
fn content_lines_are_trimmed_and_blank_lines_dropped() {
    let out = "C:\\a\\one.txt\r\n\n  D:\\b\\two.md  \n\n";
    assert_eq!(listed_paths_of(out), vec!["C:\\a\\one.txt".to_string(), "D:\\b\\two.md".to_string()]);
    assert!(listed_paths_of("").is_empty());
    assert_eq!(listed_paths_of("x"), vec!["x".to_string()]);
    // Unicode white space is trimmed too; inner spaces stay.
    assert_eq!(listed_paths_of("\u{3000}a b\u{a0}\t\n"), vec!["a b".to_string()]);
}

#[test]
fn content_matches_become_entries() {
    let mut results = Vec::new();
    let reached = add_content_matches(&mut results, "c:\\a\\one.txt\nd:\\b\\two.md\n", 10);
    assert!(!reached);
    assert_eq!(results.len(), 2);
    assert_eq!(results[0].drive_letter, 'C');
    assert_eq!(results[0].file_ref, hash_of("c:\\a\\one.txt"));
    assert_eq!(results[1].drive_letter, 'D');
    assert_eq!(results[1].parent_ref, 0);
}

#[test]
fn content_limit_stops_the_search() {
    let mut results = Vec::new();
    assert!(add_content_matches(&mut results, "a\nb\nc\n", 2));
    assert_eq!(results.len(), 2);
    let mut results = Vec::new();
    assert!(add_content_matches(&mut results, "a\nb\n", 0));
    assert_eq!(results.len(), 1);
    let mut results = Vec::new();
    assert!(!add_content_matches(&mut results, "\n\n", 0));
    assert!(results.is_empty());
}

#[test]
fn content_entries_are_named_by_their_final_component() {
    let mut results = Vec::new();
    add_content_matches(&mut results, "/srv/docs/notes.txt\nplain\n", 10);
    assert_eq!(results[0].filename(), "notes.txt");
    assert_eq!(results[1].filename(), "plain");
    assert_eq!(entry_name("a/b.txt", Some("b.txt")), "b.txt");
    assert_eq!(entry_name("..", None), "..");
}

#[test]
fn content_trim_matches_std() {
    for s in ["  a b \u{3000}", "", "   ", "\u{85}x", "x\u{2028}", "\u{200B}y"] {
        assert_eq!(trim(s), s.trim());
    }
}
