use promptpal::fileinfo::FileInfo;
use promptpal::xml::XmlGenerator;

fn record(path: &[&str], size: u64, content: Option<&str>, complete: bool) -> FileInfo {
    FileInfo {
        path: path.iter().map(|s| s.to_string()).collect(),
        size,
        content: content.map(|s| s.to_string()),
        is_content_complete: complete,
    }
}

#[test]
fn test_escape_xml_round_trip_example() {
    let escaped = XmlGenerator::escape_xml("<a>&\"b\"</a>");
    assert_eq!(escaped, "&lt;a&gt;&amp;&quot;b&quot;&lt;/a&gt;");
}

#[test]
fn test_escape_xml_not_idempotent() {
    let once = XmlGenerator::escape_xml("&");
    let twice = XmlGenerator::escape_xml(&once);
    assert_eq!(once, "&amp;");
    assert_eq!(twice, "&amp;amp;");
    assert_ne!(once, twice);
}

#[test]
fn test_escape_xml_plain_text_unchanged() {
    assert_eq!(XmlGenerator::escape_xml("plain text 123"), "plain text 123");
    assert_eq!(XmlGenerator::escape_xml(""), "");
}

#[test]
fn test_escape_xml_apostrophe() {
    assert_eq!(XmlGenerator::escape_xml("it's"), "it&apos;s");
}

#[test]
fn test_tree_view_connectors() {
    let files = vec![record(&["x"], 0, None, false), record(&["y"], 0, None, false)];
    let root = XmlGenerator::build_tree(&files);
    let view = XmlGenerator::generate_tree_view(&root);
    assert_eq!(view, "├── x\n└── y\n");
}

#[test]
fn test_tree_view_sorted_regardless_of_input_order() {
    let files = vec![record(&["b.txt"], 0, None, false), record(&["a.txt"], 0, None, false)];
    let root = XmlGenerator::build_tree(&files);
    let view = XmlGenerator::generate_tree_view(&root);
    assert_eq!(view, "├── a.txt\n└── b.txt\n");
}

#[test]
fn test_tree_view_nested_directories() {
    let files = vec![
        record(&["dir", "sub", "a.txt"], 1, None, false),
        record(&["dir", "b.txt"], 1, None, false),
    ];
    let root = XmlGenerator::build_tree(&files);
    let view = XmlGenerator::generate_tree_view(&root);
    assert_eq!(view, "└── dir/\n    ├── b.txt\n    └── sub/\n        └── a.txt\n");
}

#[test]
fn test_terminal_nodes_carry_file_and_inner_nodes_do_not() {
    let files = vec![record(&["dir", "sub", "a.txt"], 3, None, false)];
    let root = XmlGenerator::build_tree(&files);
    assert_eq!(root.children.len(), 1);
    let dir = &root.children[0];
    assert_eq!(dir.name, "dir");
    assert!(dir.file.is_none());
    assert_eq!(dir.children.len(), 1);
    let sub = &dir.children[0];
    assert_eq!(sub.name, "sub");
    assert!(sub.file.is_none());
    assert_eq!(sub.children.len(), 1);
    let leaf = &sub.children[0];
    assert_eq!(leaf.name, "a.txt");
    assert!(leaf.file.is_some());
    assert!(leaf.children.is_empty());
}

#[test]
fn test_directory_nodes_produce_no_file_element() {
    let files = vec![record(&["dir", "sub", "a.txt"], 3, None, false)];
    let doc = XmlGenerator::generate(&files, "");
    assert_eq!(doc.matches("<file>").count(), 1);
    assert!(doc.contains("<path>dir/sub/a.txt</path>"));
    assert!(!doc.contains("<path>dir</path>"));
    assert!(!doc.contains("<path>dir/sub</path>"));
}

#[test]
fn test_duplicate_path_last_record_wins() {
    let files = vec![record(&["a.txt"], 1, None, false), record(&["a.txt"], 2, None, false)];
    let doc = XmlGenerator::generate(&files, "");
    assert_eq!(doc.matches("<file>").count(), 1);
    assert!(doc.contains("<size>2</size>"));
    assert!(!doc.contains("<size>1</size>"));
}

#[test]
fn test_empty_path_records_are_skipped() {
    let files = vec![record(&[], 7, None, false), record(&["a"], 1, None, false)];
    let root = XmlGenerator::build_tree(&files);
    assert_eq!(root.children.len(), 1);
    assert_eq!(root.children[0].name, "a");
}

#[test]
fn test_detect_file_type() {
    let upper: Vec<String> = vec!["x".to_string(), "A.TXT".to_string()];
    assert_eq!(XmlGenerator::detect_file_type(&upper), "txt");
    let none: Vec<String> = vec!["noext".to_string()];
    assert_eq!(XmlGenerator::detect_file_type(&none), "text");
    let hidden: Vec<String> = vec![".gitignore".to_string()];
    assert_eq!(XmlGenerator::detect_file_type(&hidden), "text");
    let double: Vec<String> = vec!["foo.tar.gz".to_string()];
    assert_eq!(XmlGenerator::detect_file_type(&double), "gz");
}

#[test]
fn test_instructions_embedded_verbatim() {
    let files: Vec<FileInfo> = Vec::new();
    let doc = XmlGenerator::generate(&files, "keep <this> & that");
    assert!(doc.contains("<![CDATA[\nkeep <this> & that\n    ]]>"));
}

#[test]
fn test_tree_view_lines_escaped_in_document() {
    let files = vec![record(&["a&b.txt"], 0, None, false)];
    let doc = XmlGenerator::generate(&files, "");
    assert!(doc.contains("    └── a&amp;b.txt\n"));
    assert!(doc.contains("<path>a&b.txt</path>"));
}

#[test]
fn test_path_that_is_also_a_directory_keeps_both_roles() {
    let files = vec![record(&["a", "b"], 1, None, false), record(&["a"], 2, None, false)];
    let root = XmlGenerator::build_tree(&files);
    assert_eq!(root.children.len(), 1);
    let a = &root.children[0];
    assert_eq!(a.name, "a");
    assert!(a.file.is_some());
    assert_eq!(a.children.len(), 1);
    assert!(a.children[0].file.is_some());
}

#[test]
fn test_detect_file_type_trailing_dot_gives_empty_extension() {
    let trailing: Vec<String> = vec!["foo.".to_string()];
    assert_eq!(XmlGenerator::detect_file_type(&trailing), "");
}

#[test]
fn test_escape_xml_all_metacharacters() {
    assert_eq!(XmlGenerator::escape_xml("&<>\"'"), "&amp;&lt;&gt;&quot;&apos;");
}

#[test]
fn test_content_embedded_verbatim_without_escaping() {
    let files = vec![record(&["a.txt"], 4, Some("x<&y"), true)];
    let doc = XmlGenerator::generate(&files, "");
    assert!(doc.contains("<![CDATA[\nx<&y\n"));
}

#[test]
fn test_generate_end_to_end() {
    let files = vec![
        record(&["src", "main.txt"], 5, Some("hello"), true),
        record(&["README.md"], 0, None, false),
    ];
    let doc = XmlGenerator::generate(&files, "");
    let expected = "<?xml version=\"1.0\" encoding=\"UTF-8\"?>\n<files>\n  <instructions>\n    <![CDATA[\n\n    ]]>\n  </instructions>\n\n  <tree_view>\n    ├── README.md\n    └── src/\n        └── main.txt\n  </tree_view>\n\n  <file>\n    <path>README.md</path>\n    <size>0</size>\n  </file>\n  <file>\n    <path>src/main.txt</path>\n    <size>5</size>\n    <content complete=\"true\" type=\"txt\">\n      <![CDATA[\nhello\n      ]]>\n    </content>\n  </file>\n</files>";
    assert_eq!(doc, expected);
    let readme = doc.find("README.md").unwrap();
    let src = doc.find("src/").unwrap();
    assert!(readme < src);
}
