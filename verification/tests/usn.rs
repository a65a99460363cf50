use listory::searchd::file_entry_v2::{FileEntry, MemoryIndex};
use listory::searchd::journal::apply_change;
use listory::usn::{
    classify_reason, parse_mft_batch, process_usn_records, read_header, ChangeKind, JournalBatch,
    MftBatch, UsnRecordHeader, USN_RECORD_SIZE,
};

/// One version-2 record: the header fields the parsers read, the name at
/// byte 60, padded to a multiple of 8 bytes.
fn record(file_ref: u64, parent: u64, usn: i64, reason: u32, attributes: u32, name: &str) -> Vec<u8> {
    let units: Vec<u16> = name.encode_utf16().collect();
    let name_len = units.len() * 2;
    let mut len = 60 + name_len;
    while len % 8 != 0 || len < 64 {
        len += 1;
    }
    let mut r = vec![0u8; len];
    r[0..4].copy_from_slice(&(len as u32).to_le_bytes());
    r[4..6].copy_from_slice(&2u16.to_le_bytes());
    r[8..16].copy_from_slice(&file_ref.to_le_bytes());
    r[16..24].copy_from_slice(&parent.to_le_bytes());
    r[24..32].copy_from_slice(&usn.to_le_bytes());
    r[40..44].copy_from_slice(&reason.to_le_bytes());
    r[52..56].copy_from_slice(&attributes.to_le_bytes());
    r[56..58].copy_from_slice(&(name_len as u16).to_le_bytes());
    r[58..60].copy_from_slice(&60u16.to_le_bytes());
    for (k, u) in units.iter().enumerate() {
        r[60 + 2 * k..62 + 2 * k].copy_from_slice(&u.to_le_bytes());
    }
    r
}

fn buffer(records: &[Vec<u8>]) -> Vec<u8> {
    let mut b = vec![0u8; 8];
    for r in records {
        b.extend_from_slice(r);
    }
    b
}

#[test]
fn test_usn_structures() {
    // Just verify the structures are properly sized
    assert!(std::mem::size_of::<UsnRecordHeader>() > 0);
    assert!(std::mem::size_of::<MftBatch>() > 0);
    assert!(std::mem::size_of::<JournalBatch>() > 0);
    assert!(USN_RECORD_SIZE > 0);
}

#[test]
fn usn_header_fields() {
    let b = record(0x1122334455667788, 5, -3, 0x100, 0x20, "a.txt");
    let h = read_header(&b, 0);
    assert_eq!(h.file_reference_number, 0x1122334455667788);
    assert_eq!(h.parent_file_reference_number, 5);
    assert_eq!(h.usn, -3);
    assert_eq!(h.reason, 0x100);
    assert_eq!(h.file_attributes, 0x20);
    assert_eq!(h.file_name_length, 10);
    assert_eq!(h.file_name_offset, 60);
    assert_eq!(h.record_length as usize, b.len());
}

#[test]
fn usn_mft_batch_skips_directories_and_metadata() {
    let b = buffer(&[
        record(10, 5, 0, 0, 0x20, "report.pdf"),
        record(11, 5, 0, 0, 0x10, "folder"),
        record(12, 5, 0, 0, 0x20, "$MFT"),
        record(13, 10, 0, 0, 0x20, "Ärger.txt"),
    ]);
    let batch = parse_mft_batch(&b, 0);
    let names: Vec<&str> = batch.records.iter().map(|r| r.name.as_str()).collect();
    assert_eq!(names, vec!["report.pdf", "Ärger.txt"]);
    assert_eq!(batch.records[1].file_ref, 13);
    assert_eq!(batch.records[1].parent_ref, 10);
    assert_eq!(batch.records[0].attributes, 0x20);
    assert_eq!(batch.next_start, 13);
}

#[test]
fn usn_mft_batch_stops_at_zero_length_and_short_tail() {
    let mut b = buffer(&[record(10, 5, 0, 0, 0, "a"), vec![0u8; 64], record(11, 5, 0, 0, 0, "b")]);
    let batch = parse_mft_batch(&b, 7);
    assert_eq!(batch.records.len(), 1);
    assert_eq!(batch.next_start, 10);
    b.truncate(8 + 40);
    let batch = parse_mft_batch(&b, 7);
    assert_eq!(batch.records.len(), 0);
    assert_eq!(batch.next_start, 7);
    let batch = parse_mft_batch(&[], 3);
    assert_eq!(batch.records.len(), 0);
    assert_eq!(batch.next_start, 3);
}

#[test]
fn usn_mft_batch_name_outside_buffer_is_skipped() {
    let mut r = record(10, 5, 0, 0, 0, "abc");
    r[56..58].copy_from_slice(&400u16.to_le_bytes());
    let b = buffer(&[r]);
    let batch = parse_mft_batch(&b, 0);
    assert_eq!(batch.records.len(), 0);
    assert_eq!(batch.next_start, 10);
}

#[test]
fn usn_journal_changes() {
    let b = buffer(&[
        record(1, 5, 100, 0x100, 0, "new.txt"),
        record(2, 5, 101, 0x200, 0, "gone.txt"),
        record(3, 5, 102, 0x2000, 0, "renamed.txt"),
        record(4, 5, 103, 0x8000, 0, "other.txt"),
        record(5, 5, 104, 0x300, 0, "both.txt"),
    ]);
    let batch = process_usn_records(&b, 7);
    let got: Vec<(ChangeKind, &str)> = batch.changes.iter().map(|c| (c.kind, c.name.as_str())).collect();
    assert_eq!(
        got,
        vec![
            (ChangeKind::Created, "new.txt"),
            (ChangeKind::Deleted, "gone.txt"),
            (ChangeKind::Renamed, "renamed.txt"),
            (ChangeKind::Created, "both.txt"),
        ]
    );
    assert_eq!(batch.next_usn, 104);
    let ids: Vec<(u64, u64, u32)> =
        batch.changes.iter().map(|c| (c.file_ref, c.parent_ref, c.attributes)).collect();
    assert_eq!(ids, vec![(1, 5, 0), (2, 5, 0), (3, 5, 0), (5, 5, 0)]);
    let empty = process_usn_records(&[0u8; 8], 9);
    assert_eq!(empty.next_usn, 9);
    assert!(empty.changes.is_empty());
}

#[test]
fn usn_classify_reason() {
    assert_eq!(classify_reason(0x100), Some(ChangeKind::Created));
    assert_eq!(classify_reason(0x200), Some(ChangeKind::Deleted));
    assert_eq!(classify_reason(0x2000), Some(ChangeKind::Renamed));
    assert_eq!(classify_reason(0x2300), Some(ChangeKind::Created));
    assert_eq!(classify_reason(0x1), None);
}

#[test]
fn usn_journal_changes_update_the_index() {
    let mut index = MemoryIndex::new();
    index.add_entry(FileEntry::new(5, 5, "".to_string(), 0, 0x10));
    index.add_entry(FileEntry::new(9, 5, "old.txt".to_string(), 3, 0x20));
    let b = buffer(&[
        record(1, 5, 100, 0x100, 0x20, "new.txt"),
        record(9, 1, 101, 0x2000, 0x20, "renamed.txt"),
        record(5, 5, 102, 0x200, 0x10, ""),
    ]);
    let batch = process_usn_records(&b, 0);
    for change in batch.changes {
        apply_change(&mut index, change);
    }
    assert_eq!(&*index.get_entry(1).unwrap().name, "new.txt");
    assert_eq!(index.get_entry(9).unwrap().parent_ref, 1);
    assert_eq!(index.search("old", 10).len(), 0);
    assert_eq!(index.search("renamed", 10).len(), 1);
    assert!(index.get_entry(5).is_none());
    assert_eq!(index.total_files(), 2);
    assert_eq!(index.get_full_path(9, 'C').unwrap(), "C:\\new.txt\\renamed.txt");
}

#[test]
fn usn_names_with_surrogate_pairs_decode() {
    let b = buffer(&[record(7, 5, 1, 0x100, 0, "\u{1F600}é.txt")]);
    let batch = process_usn_records(&b, 0);
    assert_eq!(batch.changes[0].name, "\u{1F600}é.txt");
}
