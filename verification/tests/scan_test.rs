use promptpal::scan_directory;

#[test]
fn test_scan_nonexistent_directory() {
    let result = scan_directory("nonexistent_directory");
    assert!(result.is_err());
    assert_eq!(result.unwrap_err().kind(), std::io::ErrorKind::NotFound);
}
