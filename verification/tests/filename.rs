use listory::desktop;
use listory::searchd;

#[test]
fn filename_test_search_filename() {
    // The daemon's path index.
    let mut index = searchd::memory::MemoryIndex::new();

    index.add_entry(searchd::file_entry::FileEntry::new(
        "C:\\test\\document.txt".to_string(),
        "document.txt".to_string(),
    ));

    index.add_entry(searchd::file_entry::FileEntry::new(
        "C:\\test\\image.png".to_string(),
        "image.png".to_string(),
    ));

    let results = searchd::filename::search_filename(&index, "doc", 10);
    assert_eq!(results.len(), 1);
    assert_eq!(results[0].filename, "document.txt");

    let results = searchd::filename::search_filename(&index, "test", 10);
    assert_eq!(results.len(), 0); // "test" is in path, not filename

    // The desktop application's drive index.
    let mut index = desktop::memory_index::MemoryIndex::new();

    index.add_entry(desktop::file_entry::FileEntry::new(
        'C',
        1,
        0,
        "document.txt".to_string(),
        1024,
        0,
    ));

    index.add_entry(desktop::file_entry::FileEntry::new('C', 2, 0, "image.png".to_string(), 2048, 0));

    let results = desktop::filename::search_filename(&index, "doc", 10);
    assert_eq!(results.len(), 1);
    assert_eq!(&*results[0].name, "document.txt");

    let results = desktop::filename::search_filename(&index, "test", 10);
    assert_eq!(results.len(), 0); // "test" is not in any filename
}
