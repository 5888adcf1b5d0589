use notes2vec::indexing::{plan_index, FileStatus, IndexStep};
use notes2vec::state::FileState;

fn indexed(path: &str, modified: u64, hash: &str) -> FileStatus {
    FileStatus {
        path: path.to_string(),
        stored: Some(FileState::new(modified, hash.to_string())),
        modified,
        hash: hash.to_string(),
    }
}

#[test]
fn model_change_clears_before_reindexing_everything() {
    let files = vec![indexed("a.md", 1, "h1"), indexed("b.md", 2, "h2")];
    let plan = plan_index(&Some("old-model".to_string()), "new-model", &files, false);
    assert_eq!(
        plan,
        vec![
            IndexStep::ClearStores,
            IndexStep::Reindex("a.md".to_string()),
            IndexStep::Reindex("b.md".to_string()),
            IndexStep::RecordModel,
        ]
    );
}

#[test]
fn same_model_reindexes_changed_files_only() {
    let mut files = vec![indexed("a.md", 1, "h1"), indexed("b.md", 2, "h2")];
    files[1].hash = "h3".to_string();
    files.push(FileStatus { path: "c.md".to_string(), stored: None, modified: 5, hash: "h5".to_string() });
    let plan = plan_index(&Some("m".to_string()), "m", &files, false);
    assert_eq!(
        plan,
        vec![
            IndexStep::Skip("a.md".to_string()),
            IndexStep::Reindex("b.md".to_string()),
            IndexStep::Reindex("c.md".to_string()),
            IndexStep::RecordModel,
        ]
    );
    let forced = plan_index(&Some("m".to_string()), "m", &files, true);
    assert_eq!(forced[0], IndexStep::Reindex("a.md".to_string()));
}
