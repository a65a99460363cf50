use listory::text::{
    chars_of, first_char_is, is_ascii_alphabetic, str_contains, to_ascii_uppercase, to_wide_string,
};

#[test]
fn text_wide_string() {
    assert_eq!(to_wide_string("C:"), vec![0x43, 0x3a, 0]);
    let s = "a😀é";
    let mut expected: Vec<u16> = s.encode_utf16().collect();
    expected.push(0);
    assert_eq!(to_wide_string(s), expected);
    assert_eq!(to_wide_string(""), vec![0]);
}

#[test]
fn text_char_helpers() {
    assert_eq!(to_ascii_uppercase('q'), 'Q');
    assert_eq!(to_ascii_uppercase('Q'), 'Q');
    assert_eq!(to_ascii_uppercase('ä'), 'ä');
    assert!(is_ascii_alphabetic('z'));
    assert!(!is_ascii_alphabetic('1'));
    assert!(first_char_is("$MFT", '$'));
    assert!(!first_char_is("", '$'));
    assert_eq!(chars_of("héllo"), vec!['h', 'é', 'l', 'l', 'o']);
}

#[test]
fn text_substring_search() {
    assert!(str_contains("document.txt", "doc"));
    assert!(str_contains("document.txt", ".txt"));
    assert!(str_contains("abc", ""));
    assert!(str_contains("", ""));
    assert!(!str_contains("ab", "abc"));
    assert!(!str_contains("abab", "ba b"));
    assert!(str_contains("aab", "ab"));
}
