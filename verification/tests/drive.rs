use listory::drive::{build_strategy, extract_drive_letter, is_root_drive_path, volume_path, BuildStrategy, DriveError};

#[test]
fn mft_test_is_root_drive_path() {
    // Valid root drives
    assert!(is_root_drive_path("C:\\"));
    assert!(is_root_drive_path("D:\\"));
    assert!(is_root_drive_path("C:"));
    assert!(is_root_drive_path("D:"));

    // Invalid - subdirectories
    assert!(!is_root_drive_path("C:\\Windows"));
    assert!(!is_root_drive_path("D:\\Project\\test"));
    assert!(!is_root_drive_path("C:\\Users\\test"));

    // Invalid - other formats
    assert!(!is_root_drive_path("invalid"));
    assert!(!is_root_drive_path("\\\\network\\share"));
}

#[test]
fn mft_test_extract_drive_letter() {
    assert_eq!(extract_drive_letter("C:\\test").unwrap(), 'C');
    assert_eq!(extract_drive_letter("D:\\folder\\file.txt").unwrap(), 'D');
    assert_eq!(extract_drive_letter("C:\\").unwrap(), 'C');
    assert!(extract_drive_letter("invalid").is_err());
}

#[test]
fn drive_root_forms() {
    assert!(is_root_drive_path("e:/"));
    assert!(is_root_drive_path("z:"));
    assert!(!is_root_drive_path("1:\\"));
    assert!(!is_root_drive_path("C:x"));
    assert!(!is_root_drive_path(""));
    assert!(!is_root_drive_path("é:"));
}

#[test]
fn drive_letter_is_upper_cased() {
    assert_eq!(extract_drive_letter("d:\\x").unwrap(), 'D');
    assert_eq!(extract_drive_letter("q:"), Ok('Q'));
    assert_eq!(extract_drive_letter("1:\\x"), Err(DriveError::InvalidPathFormat));
    assert_eq!(extract_drive_letter("C"), Err(DriveError::InvalidPathFormat));
    assert_eq!(
        DriveError::InvalidPathFormat.message(),
        "Invalid path format, expected drive letter (e.g., C:\\)"
    );
}

#[test]
fn drive_build_strategy() {
    assert_eq!(build_strategy("c:\\"), Ok(BuildStrategy::MftScan('C')));
    assert_eq!(build_strategy("D:"), Ok(BuildStrategy::MftScan('D')));
    assert_eq!(build_strategy("C:\\Users"), Ok(BuildStrategy::DirectoryWalk));
    assert_eq!(build_strategy("/tmp"), Ok(BuildStrategy::DirectoryWalk));
}

#[test]
fn drive_volume_path() {
    assert_eq!(volume_path('C'), "\\\\.\\C:");
}
