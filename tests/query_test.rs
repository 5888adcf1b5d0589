use notes2vec::query::{contains_case_insensitive, parse_file_filter_query, path_matches_filter, plan_search};

#[test]
fn filter_is_extracted_and_trimmed() {
    let (f, q) = parse_file_filter_query("  meeting   file:\"Notes.md\", agenda ");
    assert_eq!(f, Some("Notes.md".to_string()));
    assert_eq!(q, "meeting agenda");
}

#[test]
fn bare_file_prefix_stays_in_query() {
    let (f, q) = parse_file_filter_query("file: rust");
    assert_eq!(f, None);
    assert_eq!(q, "file: rust");
}

#[test]
fn later_filter_wins() {
    let (f, q) = parse_file_filter_query("file:a.md x file:b.md");
    assert_eq!(f, Some("b.md".to_string()));
    assert_eq!(q, "x");
}

#[test]
fn case_insensitive_contains() {
    assert!(contains_case_insensitive("Project Agenda", "agenda"));
    assert!(contains_case_insensitive("ÜBER notes", "über"));
    assert!(!contains_case_insensitive("abc", "abcd"));
    assert!(contains_case_insensitive("abc", ""));
}

#[test]
fn path_filter_matches_name_or_path() {
    assert!(path_matches_filter("work/Meetings/Q3.md", "meetings"));
    assert!(path_matches_filter("work/q3.md", "Q3"));
    assert!(!path_matches_filter("work/q3.md", "q4"));
}

#[test]
fn search_plan_skips_blank_queries() {
    assert!(plan_search("   file:notes.md  ", false).is_none());
    let r = plan_search("agenda file:notes.md", true).unwrap();
    assert_eq!(r.query, "agenda");
    assert_eq!(r.filter, Some("notes.md".to_string()));
    assert_eq!(r.candidates, 500);
    assert_eq!(plan_search("agenda", false).unwrap().candidates, 200);
}
