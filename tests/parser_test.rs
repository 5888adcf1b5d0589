use notes2vec::chunker::{build_context, MAX_CHUNK_SIZE, MIN_CHUNK_SIZE};
use notes2vec::parser::{file_stem, parse_markdown};

#[test]
fn parser_test_parse_simple_markdown() {
    let content = "# Title\n\nThis is some content.";
    let result = parse_markdown(content, "test.md");
    assert!(result.is_ok());
    let doc = result.unwrap();
    assert_eq!(doc.title, "Title");
    assert!(!doc.chunks.is_empty());
}

#[test]
fn test_parse_markdown_without_title() {
    let content = "This is content without a title.";
    let result = parse_markdown(content, "test.md");
    assert!(result.is_ok());
    let doc = result.unwrap();
    assert_eq!(doc.title, "test");
}

#[test]
fn test_parse_empty_file() {
    let content = "";
    let result = parse_markdown(content, "empty.md");
    assert!(result.is_ok());
    let doc = result.unwrap();
    assert_eq!(doc.title, "empty");
    assert!(doc.chunks.is_empty() || doc.chunks.iter().all(|c| c.text.trim().is_empty()));
}

#[test]
fn test_parse_frontmatter() {
    let content = "---\ntitle: Test Document\ntags: [rust, testing]\ncustom_field: custom_value\n---\n\n# Main Title\n\nContent here.\n";
    let result = parse_markdown(content, "test.md");
    assert!(result.is_ok());
    let doc = result.unwrap();
    assert_eq!(doc.metadata.title, Some("Test Document".to_string()));
    assert_eq!(doc.metadata.tags.len(), 2);
    assert!(doc.metadata.tags.contains(&"rust".to_string()));
    assert!(doc.metadata.tags.contains(&"testing".to_string()));
    assert_eq!(doc.metadata.custom_value("custom_field"), Some("custom_value".to_string()));
}

#[test]
fn test_parse_frontmatter_comma_separated_tags() {
    let content = "---\ntitle: Test\ntags: rust, testing, cli\n---\n\nContent.\n";
    let result = parse_markdown(content, "test.md");
    assert!(result.is_ok());
    let doc = result.unwrap();
    assert_eq!(doc.metadata.tags.len(), 3);
}

#[test]
fn frontmatter_comma_tags_exact() {
    let content = "---\ntitle: Test\ntags: rust, testing, cli\n---\n\nContent.\n";
    let doc = parse_markdown(content, "test.md").unwrap();
    assert_eq!(doc.metadata.tags, vec!["rust".to_string(), "testing".to_string(), "cli".to_string()]);
}

#[test]
fn test_parse_frontmatter_no_tags() {
    let content = "---\ntitle: Test\n---\n\nContent.\n";
    let result = parse_markdown(content, "test.md");
    assert!(result.is_ok());
    let doc = result.unwrap();
    assert!(doc.metadata.tags.is_empty());
}

#[test]
fn test_parse_header_hierarchy() {
    let content = "# Level 1\n\nContent 1.\n\n## Level 2\n\nContent 2.\n\n### Level 3\n\nContent 3.\n\n## Another Level 2\n\nContent 4.\n";
    let result = parse_markdown(content, "test.md");
    assert!(result.is_ok());
    let doc = result.unwrap();
    assert_eq!(doc.title, "Level 1");
    assert!(!doc.header_hierarchy.is_empty());
}

#[test]
fn test_parse_chunking() {
    let content = "# Title\n\nFirst paragraph with some content.\n\nSecond paragraph with more content.\n\n## Section\n\nThird paragraph.\n";
    let result = parse_markdown(content, "test.md");
    assert!(result.is_ok());
    let doc = result.unwrap();
    assert!(!doc.chunks.is_empty());
    for chunk in &doc.chunks {
        assert!(!chunk.text.trim().is_empty());
        assert!(!chunk.context.is_empty() || chunk.chunk_index == 0);
    }
}

#[test]
fn test_parse_chunking_large_text() {
    let mut content = "# Title\n\n".to_string();
    let large_paragraph = "This is a sentence. ".repeat(100);
    content.push_str(&large_paragraph);

    let result = parse_markdown(&content, "test.md");
    assert!(result.is_ok());
    let doc = result.unwrap();
    assert!(doc.chunks.len() > 1);
    for chunk in &doc.chunks {
        assert!(chunk.text.len() <= MAX_CHUNK_SIZE);
    }
}

#[test]
fn large_text_chunks_keep_all_words() {
    let mut content = "# Title\n\n".to_string();
    content.push_str(&"This is a sentence. ".repeat(100));
    let doc = parse_markdown(&content, "test.md").unwrap();
    let joined: String = doc.chunks.iter().map(|c| c.text.clone()).collect::<Vec<_>>().join(" ");
    let strip = |s: &str| s.chars().filter(|c| !c.is_whitespace()).collect::<String>();
    assert_eq!(strip(&joined), strip(&"This is a sentence. ".repeat(100)));
    for (i, c) in doc.chunks.iter().enumerate() {
        assert_eq!(c.chunk_index, i);
        assert_eq!(c.context, "Title");
        assert!(c.text.len() >= MIN_CHUNK_SIZE);
    }
}

#[test]
fn test_parse_chunk_context() {
    let content = "# Document\n\nContent at root.\n\n## Section 1\n\nContent in section 1.\n\n### Subsection 1.1\n\nContent in subsection.\n\n## Section 2\n\nContent in section 2.\n";
    let result = parse_markdown(content, "test.md");
    assert!(result.is_ok());
    let doc = result.unwrap();
    for chunk in &doc.chunks {
        if chunk.context.contains("Section 1") {
            assert!(chunk.context.contains("Document"));
        }
        if chunk.context.contains("Subsection 1.1") {
            assert!(chunk.context.contains("Section 1"));
        }
    }
}

#[test]
fn chunk_contexts_exact() {
    let content = "# Document\n\nContent at root.\n\n## Section 1\n\nContent in section 1.\n\n### Subsection 1.1\n\nContent in subsection.\n\n## Section 2\n\nContent in section 2.\n";
    let doc = parse_markdown(content, "test.md").unwrap();
    let contexts: Vec<&str> = doc.chunks.iter().map(|c| c.context.as_str()).collect();
    assert_eq!(
        contexts,
        vec![
            "Document",
            "Document > Section 1",
            "Document > Section 1 > Subsection 1.1",
            "Document > Section 2"
        ]
    );
    assert_eq!(doc.chunks[0].text, "Content at root.");
    assert_eq!(doc.header_hierarchy, vec!["Document".to_string(), "Section 2".to_string()]);
}

#[test]
fn test_parse_chunk_line_numbers() {
    let content = "# Title\n\nLine 3 content.\n\nLine 5 content.\n\n## Section\n\nLine 9 content.\n";
    let result = parse_markdown(content, "test.md");
    assert!(result.is_ok());
    let doc = result.unwrap();
    for chunk in &doc.chunks {
        assert!(chunk.start_line > 0);
        assert!(chunk.end_line >= chunk.start_line);
    }
}

#[test]
fn test_parse_multiple_h1_headers() {
    let content = "# First Title\n\nContent 1.\n\n# Second Title\n\nContent 2.\n";
    let result = parse_markdown(content, "test.md");
    assert!(result.is_ok());
    let doc = result.unwrap();
    assert_eq!(doc.title, "First Title");
}

#[test]
fn test_parse_code_blocks() {
    let content = "# Title\n\nHere is some code:\n\n```rust\nfn main() {\n    println!(\"Hello\");\n}\n```\n\nMore content.\n";
    let result = parse_markdown(content, "test.md");
    assert!(result.is_ok());
    let doc = result.unwrap();
    assert!(!doc.chunks.is_empty());
}

#[test]
fn test_parse_lists() {
    let content = "# Title\n\n- Item 1\n- Item 2\n- Item 3\n\n1. Numbered 1\n2. Numbered 2\n";
    let result = parse_markdown(content, "test.md");
    assert!(result.is_ok());
    let doc = result.unwrap();
    assert!(!doc.chunks.is_empty());
}

#[test]
fn test_build_context() {
    let headers = vec!["Document".to_string(), "Section".to_string(), "Subsection".to_string()];
    let context = build_context(&headers);
    assert_eq!(context, "Document > Section > Subsection");
}

#[test]
fn test_build_context_empty() {
    let headers: Vec<String> = vec![];
    let context = build_context(&headers);
    assert_eq!(context, "");
}

#[test]
fn test_build_context_single() {
    let headers = vec!["Document".to_string()];
    let context = build_context(&headers);
    assert_eq!(context, "Document");
}

#[test]
fn test_markdown_parsing_edge_cases() {
    let doc = parse_markdown("", "empty.md").unwrap();
    assert_eq!(doc.title, "empty");

    let doc = parse_markdown("Just some text without headers.", "no_headers.md").unwrap();
    assert_eq!(doc.title, "no_headers");

    let content = "# First Title\n\nContent.\n\n# Second Title\n\nMore content.\n";
    let doc = parse_markdown(content, "test.md").unwrap();
    assert_eq!(doc.title, "First Title");

    let content = "---\ntitle: Frontmatter Title\n---\n\n# Markdown Title\n\nContent.\n";
    let doc = parse_markdown(content, "test.md").unwrap();
    assert_eq!(doc.metadata.title, Some("Frontmatter Title".to_string()));
    assert_eq!(doc.title, "Frontmatter Title");
}

#[test]
fn title_falls_back_to_stem() {
    assert_eq!(file_stem("notes/daily.log.md"), Some("daily.log".to_string()));
    assert_eq!(file_stem(".hidden"), Some(".hidden".to_string()));
    assert_eq!(file_stem(""), None);
    assert_eq!(parse_markdown("text", "").unwrap().title, "Untitled");
}

#[test]
fn short_remainder_merges_into_previous_chunk() {
    let content = format!("{}. {}.", "a".repeat(480), "b".repeat(30));
    let doc = parse_markdown(&content, "x.md").unwrap();
    assert_eq!(doc.chunks.len(), 1);
    assert_eq!(doc.chunks[0].text, content);
    assert!(doc.chunks[0].text.len() > MAX_CHUNK_SIZE);
}

#[test]
fn undersized_first_chunk_stands_alone() {
    let doc = parse_markdown("# A

Short.

# B

Also short.
", "x.md").unwrap();
    assert_eq!(doc.chunks.len(), 2);
    assert_eq!(doc.chunks[0].text, "Short.");
    assert_eq!(doc.chunks[1].context, "B");
    assert_eq!(doc.chunks[1].chunk_index, 1);
}

#[test]
fn crlf_frontmatter_is_recognised() {
    let content = "---\r\ntitle: Test\r\ntags: rust, testing, cli\r\n---\r\n\r\nContent.\r\n";
    let doc = parse_markdown(content, "test.md").unwrap();
    assert_eq!(doc.metadata.tags, vec!["rust".to_string(), "testing".to_string(), "cli".to_string()]);
    assert_eq!(doc.title, "Test");
    assert_eq!(doc.chunks[0].text, "Content.");
}

#[test]
fn scalar_frontmatter_values_become_custom() {
    let content = "---\ntitle: T\ntags: [rust, testing]\ncustom_field: custom_value\npriority: 3\ndraft: true\n---\n\nBody.\n";
    let doc = parse_markdown(content, "x.md").unwrap();
    assert_eq!(doc.metadata.title, Some("T".to_string()));
    assert_eq!(doc.metadata.tags, vec!["rust".to_string(), "testing".to_string()]);
    assert_eq!(doc.metadata.custom_value("custom_field"), Some("custom_value".to_string()));
    assert_eq!(doc.metadata.custom_value("priority"), Some("3".to_string()));
    assert_eq!(doc.metadata.custom_value("draft"), Some("true".to_string()));
    assert_eq!(doc.metadata.custom_value("title"), None);
}

#[test]
fn inline_code_and_html_reach_chunks() {
    let doc = parse_markdown("Run `cargo test` now <b>please</b>.", "x.md").unwrap();
    assert_eq!(doc.chunks.len(), 1);
    assert!(doc.chunks[0].text.contains("cargo test"));
    assert!(doc.chunks[0].text.contains("<b>"));
}
