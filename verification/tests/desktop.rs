use std::collections::hash_map::DefaultHasher;
use std::hash::{Hash, Hasher};

use listory::desktop::commands::{search, total_indexed};
use listory::desktop::file_entry::FileEntry;
use listory::desktop::memory_index::MemoryIndex;
use listory::desktop::mft::index_mft_batch;
use listory::desktop::journal::apply_change;
use listory::usn::{ChangeKind, MftBatch, MftRecord, UsnChange};

fn tree() -> MemoryIndex {
    let mut index = MemoryIndex::new();
    index.add_entry(FileEntry::new('C', 5, 5, "".to_string(), 0, 0x10));
    index.add_entry(FileEntry::new('C', 10, 5, "Users".to_string(), 0, 0x10));
    index.add_entry(FileEntry::new('C', 20, 10, "test.txt".to_string(), 1024, 0x20));
    index.add_entry(FileEntry::new('D', 20, 0, "other.txt".to_string(), 7, 0));
    index
}

#[test]
fn desktop_full_path_skips_empty_names() {
    let index = tree();
    assert_eq!(index.get_full_path('C', 20).unwrap(), "C:\\Users\\test.txt");
    assert_eq!(index.get_full_path('D', 20).unwrap(), "D:\\other.txt");
    assert_eq!(index.get_full_path('C', 5), None);
    assert_eq!(index.get_full_path('E', 20), None);
}

#[test]
fn desktop_full_path_survives_cycles() {
    let mut index = MemoryIndex::new();
    index.add_entry(FileEntry::new('C', 1, 2, "a".to_string(), 0, 0));
    index.add_entry(FileEntry::new('C', 2, 1, "b".to_string(), 0, 0));
    assert_eq!(index.get_full_path('C', 1).unwrap(), "C:\\b\\a");
}

#[test]
fn desktop_drives_are_separate() {
    let mut index = tree();
    assert_eq!(&*index.get_entry('C', 20).unwrap().name, "test.txt");
    assert_eq!(&*index.get_entry('D', 20).unwrap().name, "other.txt");
    assert_eq!(index.total_files(), 4);
    index.remove_entry('D', 20);
    assert!(index.get_entry('D', 20).is_none());
    assert!(index.get_entry('C', 20).is_some());
    assert_eq!(index.total_files(), 3);
    // Removed entries are no longer found by a search.
    assert_eq!(index.search("other", 10).len(), 0);
    assert_eq!(index.search("TXT", 10).len(), 1);
}

#[test]
fn desktop_readded_key_hides_the_removed_entry() {
    let mut index = MemoryIndex::new();
    index.add_entry(FileEntry::new('C', 1, 0, "a.txt".to_string(), 0, 0));
    index.remove_entry('C', 1);
    index.add_entry(FileEntry::new('C', 1, 0, "b.txt".to_string(), 0, 0));
    assert!(index.search("a.txt", 10).is_empty());
    assert_eq!(index.search("b.txt", 10).len(), 1);
    assert_eq!(index.total_files(), 1);
}

#[test]
fn desktop_children_and_update() {
    let mut index = tree();
    let kids: Vec<&str> = index.get_children('C', 5).iter().map(|e| e.filename()).collect();
    assert_eq!(kids, vec!["", "Users"]);
    index.update_entry('C', 20, FileEntry::new('C', 20, 5, "moved.txt".to_string(), 1, 0));
    let kids: Vec<&str> = index.get_children('C', 5).iter().map(|e| e.filename()).collect();
    assert_eq!(kids, vec!["", "Users", "moved.txt"]);
    assert!(index.get_children('C', 10).is_empty());
    assert_eq!(index.get_full_path('C', 20).unwrap(), "C:\\moved.txt");
    index.clear();
    assert_eq!(index.total_files(), 0);
}

#[test]
fn desktop_entry_from_path() {
    let e = FileEntry::from_path_filename("d:\\docs\\a.txt".to_string(), "a.txt".to_string());
    let mut hasher = DefaultHasher::new();
    "d:\\docs\\a.txt".to_string().hash(&mut hasher);
    assert_eq!(e.file_ref, hasher.finish());
    assert_eq!(e.drive_letter, 'D');
    assert_eq!(e.parent_ref, 0);
    assert_eq!(e.filename(), "a.txt");
    let e = FileEntry::from_path_filename(String::new(), "x".to_string());
    assert_eq!(e.drive_letter, 'C');
    assert!(FileEntry::new('C', 1, 0, "d".to_string(), 0, 0x10).is_directory());
    assert_eq!(FileEntry::new('C', 1, 0, "MiXeD".to_string(), 0, 0).name_lowercase(), "mixed");
}

#[test]
fn desktop_search_command_adds_paths() {
    let index = tree();
    let results = search(&index, "test", 10);
    assert_eq!(results.len(), 1);
    assert_eq!(results[0].filename, "test.txt");
    assert_eq!(results[0].path, "C:\\Users\\test.txt");
    assert_eq!(results[0].size, 1024);
    assert_eq!(results[0].attributes, 0x20);
    // The root has an empty name and no path, so it is not shown.
    assert_eq!(search(&index, "", 10).len(), 3);
}

#[test]
fn desktop_total_indexed() {
    assert_eq!(total_indexed(&vec![Ok(3), Ok(4)]), Ok(7));
    assert_eq!(
        total_indexed(&vec![Ok(3), Err("boom".to_string()), Err("later".to_string())]),
        Err("boom".to_string())
    );
    assert_eq!(total_indexed(&vec![]), Ok(0));
}

#[test]
fn desktop_index_mft_batch() {
    let mut index = MemoryIndex::new();
    let batch = MftBatch {
        records: vec![
            MftRecord { file_ref: 1, parent_ref: 0, name: "a.txt".to_string(), attributes: 0 },
            MftRecord { file_ref: 2, parent_ref: 1, name: "b.txt".to_string(), attributes: 0x20 },
        ],
        next_start: 2,
    };
    assert_eq!(index_mft_batch(&mut index, 'E', batch), 2);
    let b = index.get_entry('E', 2).unwrap();
    assert_eq!(b.filename(), "b.txt");
    assert_eq!(b.size, 0);
    assert_eq!(b.attributes, 0x20);
    assert_eq!(index.get_full_path('E', 2).unwrap(), "E:\\a.txt\\b.txt");
}

#[test]
fn desktop_journal_changes_update_the_drive() {
    let mut index = tree();
    let change = |kind, file_ref, parent_ref, name: &str| UsnChange {
        kind,
        name: name.to_string(),
        file_ref,
        parent_ref,
        attributes: 0x20,
    };
    apply_change(&mut index, 'C', change(ChangeKind::Created, 30, 10, "fresh.txt"));
    assert_eq!(index.get_full_path('C', 30).unwrap(), "C:\\Users\\fresh.txt");
    apply_change(&mut index, 'C', change(ChangeKind::Renamed, 20, 5, "top.txt"));
    assert_eq!(index.get_full_path('C', 20).unwrap(), "C:\\top.txt");
    apply_change(&mut index, 'D', change(ChangeKind::Deleted, 20, 0, "other.txt"));
    assert!(index.get_entry('D', 20).is_none());
    assert!(index.get_entry('C', 20).is_some());
    assert_eq!(index.search("other", 10).len(), 0);
    assert_eq!(index.total_files(), 4);
}

#[test]
fn desktop_remove_clears_child_lists() {
    let mut index = tree();
    index.remove_entry('C', 10);
    assert!(index.get_children('C', 5).iter().all(|e| e.file_ref != 10));
    let before = index.total_files();
    index.remove_entry('C', 10);
    assert_eq!(index.total_files(), before);
    assert!(index.get_entry('C', 10).is_none());
    assert!(index.get_entry('C', 20).is_some());
}
