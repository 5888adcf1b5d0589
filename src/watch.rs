//! The watcher's decisions: which changed paths matter and what to do with each.
use vstd::prelude::*;
use crate::config::Config;
use crate::error::Error;
use crate::text::copy_range;
use crate::text::{chars_of, lower_of, string_of};

verus! {

/// The watcher's settings: the directory watched and where the stores are.
#[derive(Debug, Clone)]
pub struct FileWatcher {
    pub root_path: String,
    pub config: Config,
}

impl FileWatcher {
    /// A watcher of `root_path`.
    pub fn new(root_path: &str, config: Config) -> (r: Result<FileWatcher, Error>)
        ensures
            r matches Ok(w) && w.root_path@ == root_path@ && w.config == config,
    {
        Ok(FileWatcher { root_path: string_of(chars_of(root_path).as_slice()), config })
    }
}

/// `path` below directory `root`: the rest of the path after `root` and a slash.
pub open spec fn relative_to(path: Seq<char>, root: Seq<char>) -> Option<Seq<char>> {
    if root.len() > 0 && root.last() == '/' && root.len() <= path.len() && path.take(
        root.len() as int,
    ) == root {
        Some(path.skip(root.len() as int))
    } else if root.len() < path.len() && path.take(root.len() as int) == root && path[root.len() as int]
        == '/' {
        Some(path.skip(root.len() as int + 1))
    } else if path == root {
        Some(seq![])
    } else {
        None
    }
}

/// The path of `path` relative to the directory `root`, if it lies below it.
pub fn relative_path(path: &str, root: &str) -> (r: Option<String>)
    ensures
        crate::text::opt_view(r) == relative_to(path@, root@),
{
    let p = chars_of(path);
    let d = chars_of(root);
    if d.len() > p.len() || !crate::text::occurs_here(p.as_slice(), d.as_slice(), 0) {
        proof {
            if d@.len() <= p@.len() {
                assert(p@.subrange(0, d@.len() as int) =~= p@.take(d@.len() as int));
            }
            if p@ == d@ {
                assert(p@.take(d@.len() as int) =~= d@);
            }
        }
        return None;
    }
    assert(p@.subrange(0, d@.len() as int) =~= p@.take(d@.len() as int));
    if d.len() > 0 && d[d.len() - 1] == '/' {
        let rest = copy_range(p.as_slice(), d.len(), p.len());
        assert(rest@ =~= p@.skip(d@.len() as int));
        return Some(string_of(rest.as_slice()));
    }
    if d.len() < p.len() && p[d.len()] == '/' {
        let rest = copy_range(p.as_slice(), d.len() + 1, p.len());
        assert(rest@ =~= p@.skip(d@.len() as int + 1));
        return Some(string_of(rest.as_slice()));
    }
    if d.len() == p.len() {
        assert(p@ =~= d@);
        return Some(String::new());
    }
    None
}

/// What the watcher does with a changed path.
#[derive(Debug, Clone, PartialEq, Eq)]
pub enum WatchAction {
    /// Not a note, or outside the watched directory.
    Ignore,
    /// The note is gone: drop its vectors and its ledger record.
    Remove(String),
    /// The note exists: compare it with its ledger record, and index it again if it changed.
    Check(String),
}

/// The watcher's decision for `path` under `root`, given whether the path still exists.
pub open spec fn watch_action(path: Seq<char>, root: Seq<char>, exists: bool) -> Option<(bool, Seq<char>)> {
    if !(crate::discovery::extension_of(path) matches Some(e) && crate::discovery::is_notes_ext(
        lower_of(e),
    )) {
        None
    } else {
        match relative_to(path, root) {
            Some(rel) => Some((exists, rel)),
            None => None,
        }
    }
}

/// Decides what to do with one changed path: ignore it, remove the note, or check it.
pub fn classify_path(path: &str, root: &str, exists: bool) -> (r: WatchAction)
    ensures
        match watch_action(path@, root@, exists) {
            None => r is Ignore,
            Some((true, rel)) => r matches WatchAction::Check(s) && s@ == rel,
            Some((false, rel)) => r matches WatchAction::Remove(s) && s@ == rel,
        },
{
    if !crate::discovery::is_notes_file(path) {
        return WatchAction::Ignore;
    }
    match relative_path(path, root) {
        None => WatchAction::Ignore,
        Some(rel) => if exists {
            WatchAction::Check(rel)
        } else {
            WatchAction::Remove(rel)
        },
    }
}

} // verus!
