use notes2vec::discovery::{extension, is_markdown_file, is_notes_file};

#[test]
fn test_is_markdown_file() {
    assert!(is_markdown_file("test.md"));
    assert!(is_markdown_file("test.MD"));
    assert!(is_markdown_file("test.markdown"));
    assert!(!is_markdown_file("test.txt"));
    assert!(!is_markdown_file("test"));
}

#[test]
fn test_is_notes_file() {
    assert!(is_notes_file("test.md"));
    assert!(is_notes_file("test.MD"));
    assert!(is_notes_file("test.markdown"));
    assert!(is_notes_file("test.mdown"));
    assert!(is_notes_file("test.mkd"));
    assert!(is_notes_file("test.mkdn"));
    assert!(is_notes_file("test.txt"));
    assert!(!is_notes_file("test"));
    assert!(!is_notes_file("test.js"));
}

#[test]
fn extension_edge_cases() {
    assert_eq!(extension("dir.d/file"), None);
    assert_eq!(extension(".md"), None);
    assert_eq!(extension("a/b.tar.GZ"), Some("GZ".to_string()));
    assert!(is_notes_file("sub/Notes.TXT"));
    assert!(!is_markdown_file("sub/.md"));
}
