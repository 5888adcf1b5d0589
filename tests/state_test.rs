use notes2vec::state::{has_file_changed, model_changed, FileState, MODEL_ID_KEY};

#[test]
fn test_file_state_creation() {
    let state = FileState::new(12345, "abc123".to_string());
    assert_eq!(state.last_modified, 12345);
    assert_eq!(state.content_hash, "abc123");
    assert!(state.indexed_at > 0);
}

#[test]
fn unseen_file_has_changed() {
    assert!(has_file_changed(&None, 12345, "hash1"));
}

#[test]
fn recorded_file_changes_only_with_time_or_hash() {
    let stored = Some(FileState::new(12345, "hash1".to_string()));
    assert!(!has_file_changed(&stored, 12345, "hash1"));
    assert!(has_file_changed(&stored, 12346, "hash1"));
    assert!(has_file_changed(&stored, 12345, "hash2"));
}

#[test]
fn model_change_requires_reset() {
    assert!(model_changed(&Some("model-a".to_string()), "model-b"));
    assert!(!model_changed(&Some("model-a".to_string()), "model-a"));
    assert!(model_changed(&None, "model-a"));
    assert!(!model_changed(&None, ""));
    assert!(MODEL_ID_KEY.starts_with("__"));
}

#[test]
fn file_state_at_given_time() {
    let s = FileState::at(12345, "abc123".to_string(), 777);
    assert_eq!(s.last_modified, 12345);
    assert_eq!(s.content_hash, "abc123");
    assert_eq!(s.indexed_at, 777);
}
