use promptpal::fileinfo::{content_from_bytes, FileInfo};
use promptpal::paths::decompose_path;
use promptpal::strutil::{str_lt, u64_to_string};

#[test]
fn test_content_from_utf8_bytes() {
    let bytes: Vec<u8> = "Hello, World!".as_bytes().to_vec();
    assert_eq!(content_from_bytes(&bytes), "Hello, World!");
}

#[test]
fn test_content_from_binary_bytes_hex_fallback() {
    let bytes: Vec<u8> = vec![0xff, 0x00, 0xfe, 0x12];
    assert_eq!(content_from_bytes(&bytes), "ff 00 fe 12");
}

#[test]
fn test_content_from_empty_bytes() {
    let bytes: Vec<u8> = Vec::new();
    assert_eq!(content_from_bytes(&bytes), "");
}

#[test]
fn test_with_preview_bytes() {
    let path: Vec<String> = vec!["test.txt".to_string()];
    let bytes: Vec<u8> = "Hello".as_bytes().to_vec();
    let info = FileInfo::with_preview_bytes(path, 13, &bytes, 5);
    assert_eq!(info.size, 13);
    assert_eq!(info.content, Some("Hello".to_string()));
    assert!(!info.is_content_complete);

    let path2: Vec<String> = vec!["test.txt".to_string()];
    let none = FileInfo::with_preview_bytes(path2, 13, &Vec::new(), 0);
    assert_eq!(none.content, None);
    assert!(!none.is_content_complete);

    let path3: Vec<String> = vec!["test.txt".to_string()];
    let all: Vec<u8> = "Hello, World!".as_bytes().to_vec();
    let full = FileInfo::with_preview_bytes(path3, 13, &all, 1024);
    assert_eq!(full.content, Some("Hello, World!".to_string()));
    assert!(full.is_content_complete);
}

#[test]
fn test_with_full_bytes() {
    let path: Vec<String> = vec!["test.txt".to_string()];
    let bytes: Vec<u8> = "Hello, World!".as_bytes().to_vec();
    let info = FileInfo::with_full_bytes(path, 13, &bytes);
    assert_eq!(info.size, 13);
    assert_eq!(info.content, Some("Hello, World!".to_string()));
    assert!(info.is_content_complete);
}

#[test]
fn test_decompose_path() {
    assert_eq!(decompose_path("a/b/c"), vec!["a", "b", "c"]);
    assert_eq!(decompose_path("/a//b/"), vec!["a", "b"]);
    assert_eq!(decompose_path("plain.txt"), vec!["plain.txt"]);
    let empty: Vec<String> = Vec::new();
    assert_eq!(decompose_path(""), empty);
    assert_eq!(decompose_path("///"), empty);
}

#[test]
fn test_u64_to_string() {
    assert_eq!(u64_to_string(0), "0");
    assert_eq!(u64_to_string(7), "7");
    assert_eq!(u64_to_string(1234567890), "1234567890");
    assert_eq!(u64_to_string(u64::MAX), "18446744073709551615");
}

#[test]
fn test_str_lt_is_lexicographic() {
    assert!(str_lt("a", "b"));
    assert!(!str_lt("b", "a"));
    assert!(str_lt("a", "ab"));
    assert!(!str_lt("ab", "a"));
    assert!(!str_lt("same", "same"));
    assert!(str_lt("", "a"));
}
