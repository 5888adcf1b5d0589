use notes2vec::config::{join, Config};
use notes2vec::query::{lexical_bonus_points, passage_input, query_input};
use notes2vec::watch::{classify_path, relative_path, FileWatcher, WatchAction};

#[test]
fn config_paths_under_base() {
    let c = Config::new(Some("/tmp/test_notes2vec".to_string())).unwrap();
    assert_eq!(c.base_dir, "/tmp/test_notes2vec");
    assert_eq!(c.database_dir, "/tmp/test_notes2vec/database");
    assert_eq!(c.models_dir, "/tmp/test_notes2vec/models");
    assert_eq!(c.state_path, "/tmp/test_notes2vec/state/state.redb");
    assert_eq!(join("dir/", "x"), "dir/x");
    let w = FileWatcher::new("/notes", c).unwrap();
    assert_eq!(w.root_path, "/notes");
}

#[test]
fn watcher_classifies_paths() {
    assert_eq!(classify_path("/notes/a.md", "/notes", true), WatchAction::Check("a.md".to_string()));
    assert_eq!(classify_path("/notes/sub/b.md", "/notes/", false), WatchAction::Remove("sub/b.md".to_string()));
    assert_eq!(classify_path("/notes/c.js", "/notes", true), WatchAction::Ignore);
    assert_eq!(classify_path("/other/a.md", "/notes", true), WatchAction::Ignore);
    assert_eq!(relative_path("/notesx/a.md", "/notes"), None);
}

#[test]
fn lexical_bonus_adds_up() {
    assert_eq!(lexical_bonus_points("notes/Agenda.md", "Meeting > Agenda", "the agenda", "agenda"), 30);
    assert_eq!(lexical_bonus_points("notes/x.md", "Agenda", "none", "agenda"), 10);
    assert_eq!(lexical_bonus_points("a", "b", "c", "zzz"), 0);
}

#[test]
fn query_and_passage_framing_differ() {
    assert_eq!(query_input("rust"), "query: rust");
    assert_eq!(passage_input("Doc > Sec", "body"), "passage: Doc > Sec\nbody");
    assert_eq!(passage_input("  ", "body"), "passage: body");
}

#[test]
fn test_config_edge_cases() {
    let base_dir = "/tmp/notes2vec_tests/test_config".to_string();
    let config = Config::new(Some(base_dir.clone())).unwrap();
    assert_eq!(config.base_dir, base_dir);

    let config_default = Config::new(None).unwrap();
    assert!(config_default.base_dir.contains(".notes2vec"));
}
