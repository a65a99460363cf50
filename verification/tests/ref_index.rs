use listory::searchd::file_entry_v2::{FileEntry, MemoryIndex};

#[test]
fn file_entry_v2_test_add_and_search() {
    let mut index = MemoryIndex::new();

    index.add_entry(FileEntry::new(
        1,
        0,
        "file1.txt".to_string(),
        1024,
        0,
    ));

    index.add_entry(FileEntry::new(
        2,
        0,
        "file2.txt".to_string(),
        2048,
        0,
    ));

    let results = index.search("file", 10);
    assert_eq!(results.len(), 2);

    let results = index.search("file1", 10);
    assert_eq!(results.len(), 1);
    assert_eq!(results[0].name.as_ref(), "file1.txt");
}

#[test]
fn test_path_reconstruction() {
    let mut index = MemoryIndex::new();

    // Root directory
    index.add_entry(FileEntry::new(
        5,
        5, // Root points to itself
        "".to_string(),
        0,
        0x10, // Directory
    ));

    // Subdirectory: C:\Users
    index.add_entry(FileEntry::new(
        10,
        5,
        "Users".to_string(),
        0,
        0x10,
    ));

    // File: C:\Users\test.txt
    index.add_entry(FileEntry::new(
        20,
        10,
        "test.txt".to_string(),
        1024,
        0,
    ));

    let path = index.get_full_path(20, 'C');
    assert!(path.is_some());
    // Path should be something like "C:\Users\test.txt"
}

#[test]
fn file_entry_v2_test_remove_entry() {
    let mut index = MemoryIndex::new();

    index.add_entry(FileEntry::new(
        1,
        0,
        "file1.txt".to_string(),
        1024,
        0,
    ));

    assert_eq!(index.total_files(), 1);

    index.remove_entry(1);
    assert_eq!(index.total_files(), 0);
}

#[test]
fn test_update_entry() {
    let mut index = MemoryIndex::new();

    index.add_entry(FileEntry::new(
        1,
        0,
        "old_name.txt".to_string(),
        1024,
        0,
    ));

    index.update_entry(
        1,
        FileEntry::new(1, 0, "new_name.txt".to_string(), 1024, 0),
    );

    let entry = index.get_entry(1).unwrap();
    assert_eq!(entry.name.as_ref(), "new_name.txt");
}

#[test]
fn ref_index_full_path_skips_empty_names() {
    let mut index = MemoryIndex::new();
    index.add_entry(FileEntry::new(5, 5, "".to_string(), 0, 0x10));
    index.add_entry(FileEntry::new(10, 5, "Users".to_string(), 0, 0x10));
    index.add_entry(FileEntry::new(20, 10, "test.txt".to_string(), 1024, 0));
    assert_eq!(index.get_full_path(20, 'C').unwrap(), "C:\\Users\\test.txt");
    assert_eq!(index.get_full_path(10, 'D').unwrap(), "D:\\Users");
    // The root alone has only an empty name.
    assert_eq!(index.get_full_path(5, 'C'), None);
    assert_eq!(index.get_full_path(99, 'C'), None);
    // A parent that is not recorded ends the walk.
    index.add_entry(FileEntry::new(30, 77, "loose.txt".to_string(), 1, 0));
    assert_eq!(index.get_full_path(30, 'C').unwrap(), "C:\\loose.txt");
}

#[test]
fn ref_index_removed_entries_are_not_searched() {
    let mut index = MemoryIndex::new();
    index.add_entry(FileEntry::new(1, 0, "alpha.txt".to_string(), 1, 0));
    index.remove_entry(1);
    assert!(index.get_entry(1).is_none());
    assert!(index.search("alpha", 10).is_empty());
    assert_eq!(index.total_files(), 0);
    // Re-adding the reference under a new name hides the old entry.
    index.add_entry(FileEntry::new(1, 0, "beta.txt".to_string(), 1, 0));
    assert!(index.search("alpha", 10).is_empty());
    assert_eq!(index.search("beta", 10).len(), 1);
    assert_eq!(index.total_files(), 1);
}

#[test]
fn ref_index_children_follow_moves() {
    let mut index = MemoryIndex::new();
    index.add_entry(FileEntry::new(2, 1, "a".to_string(), 0, 0));
    index.add_entry(FileEntry::new(3, 1, "b".to_string(), 0, 0));
    let names: Vec<&str> = index.get_chien(1).iter().map(|e| e.name.as_ref()).collect();
    assert_eq!(names, vec!["a", "b"]);
    index.update_entry(2, FileEntry::new(2, 9, "a2".to_string(), 0, 0));
    let names: Vec<&str> = index.get_chien(1).iter().map(|e| e.name.as_ref()).collect();
    assert_eq!(names, vec!["b"]);
    let names: Vec<&str> = index.get_chien(9).iter().map(|e| e.name.as_ref()).collect();
    assert_eq!(names, vec!["a2"]);
    index.remove_entry(3);
    assert!(index.get_chien(1).is_empty());
    assert!(index.get_chien(42).is_empty());
}

#[test]
fn ref_index_search_limit_and_case() {
    let mut index = MemoryIndex::default();
    for (r, n) in [(1u64, "One.TXT"), (2, "two.txt"), (3, "three.doc")] {
        index.add_entry(FileEntry::new(r, 0, n.to_string(), 0, 0));
    }
    assert_eq!(index.search("TXT", 10).len(), 2);
    assert_eq!(index.search("txt", 1).len(), 1);
    assert_eq!(index.search("txt", 0).len(), 0);
    index.clear();
    assert_eq!(index.total_files(), 0);
    assert_eq!(index.search("", 5).len(), 0);
}

#[test]
fn ref_entry_helpers() {
    let dir = FileEntry::new(1, 0, "Dir".to_string(), 0, 0x10);
    let file = FileEntry::new(2, 1, "File.TXT".to_string(), 3, 0x20);
    assert!(dir.is_directory());
    assert!(!file.is_directory());
    assert_eq!(file.name_lowercase(), "file.txt");
    assert_eq!(file.copied().name.as_ref(), "File.TXT");
}

#[test]
fn ref_index_full_path_survives_cycles() {
    let mut index = MemoryIndex::new();
    index.add_entry(FileEntry::new(1, 2, "a".to_string(), 0, 0));
    index.add_entry(FileEntry::new(2, 1, "b".to_string(), 0, 0));
    assert_eq!(index.get_full_path(1, 'C').unwrap(), "C:\\b\\a");
}
