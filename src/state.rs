//! Change detection: what the state ledger records of each indexed file, and when a file
//! must be indexed again.
use vstd::prelude::*;

verus! {

/// What the ledger records of a file after it was indexed.
#[derive(Debug, Clone)]
pub struct FileState {
    /// Modification time, in seconds since the Unix epoch.
    pub last_modified: u64,
    /// Hex digest of the file's contents.
    pub content_hash: String,
    /// When the file was indexed, in seconds since the Unix epoch.
    pub indexed_at: u64,
}

/// Relies on `std::time::SystemTime::now` for the current time, in whole seconds since the
/// Unix epoch (0 for a clock set before it).
#[verifier::external_body]
fn unix_now() -> (r: u64) {
    std::time::SystemTime::now().duration_since(std::time::UNIX_EPOCH).map(|d| d.as_secs()).unwrap_or(0)
}

impl FileState {
    /// The record of a file indexed at time `indexed_at`.
    pub fn at(last_modified: u64, content_hash: String, indexed_at: u64) -> (r: FileState)
        ensures
            r.last_modified == last_modified,
            r.content_hash@ == content_hash@,
            r.indexed_at == indexed_at,
    {
        FileState { last_modified, content_hash, indexed_at }
    }

    /// The record of a file indexed now, by the system clock.
    pub fn new(last_modified: u64, content_hash: String) -> (r: FileState)
        ensures
            r.last_modified == last_modified,
            r.content_hash@ == content_hash@,
    {
        FileState::at(last_modified, content_hash, unix_now())
    }
}

/// A file must be indexed again: the ledger has no record of it, or its modification time
/// or content hash differs from the record.
pub open spec fn changed(stored: Option<FileState>, modified: u64, hash: Seq<char>) -> bool {
    match stored {
        None => true,
        Some(s) => s.last_modified != modified || s.content_hash@ != hash,
    }
}

/// Decides whether a file whose ledger record is `stored` has changed.
pub fn has_file_changed(stored: &Option<FileState>, current_modified: u64, current_hash: &str) -> (r:
    bool)
    ensures
        r == changed(*stored, current_modified, current_hash@),
{
    match stored {
        None => true,
        Some(s) => s.last_modified != current_modified || !crate::text::str_eq(
            s.content_hash.as_str(),
            current_hash,
        ),
    }
}

/// A file that was never recorded has changed; one just recorded with a modification time and
/// hash has not changed for the same pair, and has changed as soon as either differs.
pub proof fn lemma_change_detection(
    modified: u64,
    hash: Seq<char>,
    recorded: FileState,
    other_modified: u64,
    other_hash: Seq<char>,
)
    requires
        recorded.last_modified == modified,
        recorded.content_hash@ == hash,
    ensures
        changed(None, modified, hash),
        !changed(Some(recorded), modified, hash),
        (other_modified != modified || other_hash != hash) ==> changed(
            Some(recorded),
            other_modified,
            other_hash,
        ),
{
}

/// Ledger key under which the identity of the embedding model is kept.
pub const MODEL_ID_KEY: &'static str = "__notes2vec_meta_model_id__";

/// The index must be cleared: the recorded model identity (empty when none) differs from
/// the current one.
pub open spec fn needs_reset(stored: Option<Seq<char>>, current: Seq<char>) -> bool {
    match stored {
        Some(s) => s != current,
        None => current.len() != 0,
    }
}

/// Decides whether the whole index must be cleared before writing with model `current`.
pub fn model_changed(stored: &Option<String>, current: &str) -> (r: bool)
    ensures
        r == needs_reset(
            match stored {
                Some(s) => Some(s@),
                None => None,
            },
            current@,
        ),
{
    match stored {
        Some(s) => !crate::text::str_eq(s.as_str(), current),
        None => !current.is_empty(),
    }
}

} // verus!
