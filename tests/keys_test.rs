use notes2vec::keys::{chunk_id, count_files, key_belongs_to, key_file_part, select_file_keys};

#[test]
fn test_vector_entry_chunk_id() {
    assert_eq!(chunk_id("file1.md", 0), "file1.md:0");
    assert_eq!(chunk_id("file2.md", 42), "file2.md:42");
    assert_eq!(chunk_id("a", 1234567), "a:1234567");
}

#[test]
fn key_prefix_matching() {
    assert!(key_belongs_to("test.md:4", "test.md"));
    assert!(!key_belongs_to("test.md:4", "test"));
    assert!(!key_belongs_to("other.md:0", "test.md"));
    assert!(!key_belongs_to("test.md", "test.md"));
    assert_eq!(key_file_part("dir/a.md:3"), "dir/a.md");
    assert_eq!(key_file_part("nocolon"), "nocolon");
    assert_eq!(key_file_part("a:b.md:12"), "a:b.md");
}

#[test]
fn removing_one_file_keeps_the_other() {
    let keys: Vec<String> = (0..5)
        .map(|i| chunk_id("test.md", i))
        .chain(std::iter::once(chunk_id("other.md", 0)))
        .collect();
    let removed = select_file_keys(&keys, "test.md");
    assert_eq!(removed.len(), 5);
    let left: Vec<String> = keys.iter().filter(|k| !removed.contains(k)).cloned().collect();
    assert_eq!(left, vec!["other.md:0".to_string()]);
    assert!(select_file_keys(&left, "test.md").is_empty());
}

#[test]
fn distinct_files_are_counted() {
    let keys: Vec<String> = ["file1.md:0", "file1.md:1", "file2.md:0", "file3.md:0", "file3.md:9"]
        .iter()
        .map(|s| s.to_string())
        .collect();
    assert_eq!(count_files(&keys), 3);
    assert_eq!(count_files(&Vec::new()), 0);
    let colons = vec![chunk_id("a:b.md", 0), chunk_id("a:c.md", 0), chunk_id("a:c.md", 1)];
    assert_eq!(count_files(&colons), 2);
}
