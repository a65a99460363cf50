use listory::searchd::file_entry::FileEntry;
use listory::searchd::memory::MemoryIndex;

fn entry(path: &str, filename: &str) -> FileEntry {
    FileEntry::new(path.to_string(), filename.to_string())
}

#[test]
fn memory_test_add_and_search() {
    let mut index = MemoryIndex::new();

    index.add_entry(FileEntry::new(
        "C:\\test\\file1.txt".to_string(),
        "file1.txt".to_string(),
    ));

    index.add_entry(FileEntry::new(
        "C:\\test\\file2.txt".to_string(),
        "file2.txt".to_string(),
    ));

    let results = index.search("file", 10);
    assert_eq!(results.len(), 2);

    let results = index.search("file1", 10);
    assert_eq!(results.len(), 1);
    assert_eq!(results[0].filename, "file1.txt");
}

#[test]
fn memory_test_remove_entry() {
    let mut index = MemoryIndex::new();

    index.add_entry(FileEntry::new(
        "C:\\test\\file1.txt".to_string(),
        "file1.txt".to_string(),
    ));

    assert_eq!(index.total_files(), 1);

    index.remove_entry("C:\\test\\file1.txt");
    assert_eq!(index.total_files(), 0);
}

#[test]
fn path_index_search_is_case_insensitive() {
    let mut index = MemoryIndex::new();
    index.add_entry(entry("C:\\docs\\Report.PDF", "Report.PDF"));
    let results = index.search("rEpOrT", 10);
    assert_eq!(results.len(), 1);
    assert_eq!(results[0].path, "C:\\docs\\Report.PDF");
    assert_eq!(index.search_lowercase("report.pdf", 10).len(), 1);
    assert_eq!(index.search_lowercase("REPORT", 10).len(), 0);
}

#[test]
fn path_index_same_name_is_grouped_in_insertion_order() {
    let mut index = MemoryIndex::new();
    index.add_entry(entry("C:\\a\\notes.txt", "notes.txt"));
    index.add_entry(entry("C:\\b\\other.txt", "other.txt"));
    index.add_entry(entry("D:\\c\\NOTES.txt", "NOTES.txt"));
    let results = index.search("notes", 10);
    let paths: Vec<&str> = results.iter().map(|e| e.path.as_str()).collect();
    assert_eq!(paths, vec!["C:\\a\\notes.txt", "D:\\c\\NOTES.txt"]);
    assert_eq!(index.total_files(), 3);
}

#[test]
fn path_index_limit_is_at_least_one() {
    let mut index = MemoryIndex::new();
    index.add_entry(entry("C:\\x\\a.txt", "a.txt"));
    index.add_entry(entry("C:\\x\\b.txt", "b.txt"));
    index.add_entry(entry("C:\\x\\c.txt", "c.txt"));
    assert_eq!(index.search("txt", 0).len(), 1);
    assert_eq!(index.search("txt", 2).len(), 2);
    assert_eq!(index.search("txt", 100).len(), 3);
    assert_eq!(index.search("zzz", 0).len(), 0);
}

#[test]
fn path_index_remove_drops_every_entry_with_the_path() {
    let mut index = MemoryIndex::new();
    index.add_entry(entry("C:\\x\\a.txt", "a.txt"));
    index.add_entry(entry("C:\\x\\a.txt", "A.TXT"));
    index.add_entry(entry("C:\\x\\b.txt", "b.txt"));
    index.remove_entry("C:\\x\\a.txt");
    assert_eq!(index.total_files(), 1);
    assert_eq!(index.search("a.txt", 10).len(), 0);
    assert_eq!(index.search("b", 10).len(), 1);
    index.remove_entry("C:\\nothing");
    assert_eq!(index.total_files(), 1);
}

#[test]
fn path_index_update_renames() {
    let mut index = MemoryIndex::new();
    index.add_entry(entry("C:\\x\\old.txt", "old.txt"));
    index.update_entry("C:\\x\\old.txt", entry("C:\\x\\new.txt", "new.txt"));
    assert_eq!(index.total_files(), 1);
    assert_eq!(index.search("old", 10).len(), 0);
    let results = index.search("new", 10);
    assert_eq!(results.len(), 1);
    assert_eq!(results[0].path, "C:\\x\\new.txt");
}

#[test]
fn path_index_clear_and_default() {
    let mut index = MemoryIndex::default();
    index.add_entry(entry("C:\\x\\a.txt", "a.txt"));
    index.clear();
    assert_eq!(index.total_files(), 0);
    assert_eq!(index.search("", 10).len(), 0);
}

#[test]
fn path_index_empty_keyword_matches_everything() {
    let mut index = MemoryIndex::new();
    index.add_entry(entry("C:\\x\\a.txt", "a.txt"));
    index.add_entry(entry("C:\\x\\b.txt", "b.txt"));
    assert_eq!(index.search("", 10).len(), 2);
}

#[test]
fn path_index_history_counts() {
    let mut index = MemoryIndex::new();
    index.add_entry(entry("C:\\a\\x.txt", "x.txt"));
    index.add_entry(entry("C:\\b\\x.txt", "x.txt"));
    index.add_entry(entry("C:\\a\\y.txt", "y.txt"));
    // Removing a path that no entry has changes nothing.
    index.remove_entry("C:\\nowhere.txt");
    assert_eq!(index.total_files(), 3);
    assert_eq!(index.search("x.txt", 10).len(), 2);
    // An update drops every entry of the old path and adds the new one.
    index.update_entry("C:\\a\\x.txt", entry("C:\\a\\z.txt", "z.txt"));
    assert_eq!(index.total_files(), 3);
    assert_eq!(index.search("x.txt", 10).len(), 1);
    assert_eq!(index.search("z.txt", 10)[0].path, "C:\\a\\z.txt");
    assert_eq!(index.search(".txt", 2).len(), 2);
}
