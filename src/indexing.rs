//! The decisions of an indexing pass: whether the index must be cleared for a new model,
//! and which files are indexed again.
use vstd::prelude::*;
use crate::state::{changed, has_file_changed, model_changed, needs_reset, FileState};
use crate::text::{chars_of, string_of};

verus! {

/// What a discovered file looks like now, with its ledger record.
#[derive(Debug, Clone)]
pub struct FileStatus {
    /// The file's relative path.
    pub path: String,
    /// The ledger's record of the file, if any.
    pub stored: Option<FileState>,
    /// Current modification time.
    pub modified: u64,
    /// Current content hash.
    pub hash: String,
}

/// One step of an indexing pass, carried out in order.
#[derive(Debug, Clone, PartialEq, Eq)]
pub enum IndexStep {
    /// Delete every vector entry and every ledger record.
    ClearStores,
    /// Replace the file's vectors with those of its current contents, then record it.
    Reindex(String),
    /// Leave the file as it is.
    Skip(String),
    /// Record the current model identity.
    RecordModel,
}

/// The model of a step: 0 clear, 1 reindex, 2 skip, 3 record, with the path.
pub open spec fn step_model(s: IndexStep) -> (int, Seq<char>) {
    match s {
        IndexStep::ClearStores => (0, seq![]),
        IndexStep::Reindex(p) => (1, p@),
        IndexStep::Skip(p) => (2, p@),
        IndexStep::RecordModel => (3, seq![]),
    }
}

/// The file must be indexed in this pass.
pub open spec fn must_index(f: FileStatus, reset: bool, force: bool) -> bool {
    reset || force || changed(f.stored, f.modified, f.hash@)
}

/// The steps of a pass: a clear first when the model changed, one step per file in order,
/// and the model identity recorded last.
pub open spec fn planned(files: Seq<FileStatus>, reset: bool, force: bool) -> Seq<(int, Seq<char>)> {
    let head: Seq<(int, Seq<char>)> = if reset { seq![(0int, Seq::<char>::empty())] } else { seq![] };
    let body = Seq::new(
        files.len(),
        |i: int|
            if must_index(files[i], reset, force) {
                (1int, files[i].path@)
            } else {
                (2int, files[i].path@)
            },
    );
    head + body + seq![(3int, Seq::<char>::empty())]
}

/// Plans an indexing pass over the discovered files.
pub fn plan_index(stored_model: &Option<String>, current_model: &str, files: &Vec<FileStatus>, force: bool) -> (r: Vec<IndexStep>)
    ensures
        r@.map_values(|s: IndexStep| step_model(s)) == planned(
            files@,
            needs_reset(
                match stored_model {
                    Some(m) => Some(m@),
                    None => None,
                },
                current_model@,
            ),
            force,
        ),
{
    let reset = model_changed(stored_model, current_model);
    let ghost rs = needs_reset(
        match stored_model {
            Some(m) => Some(m@),
            None => None,
        },
        current_model@,
    );
    let mut out: Vec<IndexStep> = Vec::new();
    if reset {
        out.push(IndexStep::ClearStores);
    }
    let ghost head: Seq<(int, Seq<char>)> = if rs { seq![(0int, Seq::<char>::empty())] } else { seq![] };
    assert(out@.map_values(|s: IndexStep| step_model(s)) =~= head);
    let mut i: usize = 0;
    while i < files.len()
        invariant
            i <= files@.len(),
            reset == rs,
            out@.map_values(|s: IndexStep| step_model(s)) == head + Seq::new(
                i as nat,
                |j: int|
                    if must_index(files@[j], rs, force) {
                        (1int, files@[j].path@)
                    } else {
                        (2int, files@[j].path@)
                    },
            ),
        decreases files.len() - i,
    {
        let f = &files[i];
        let p = string_of(chars_of(f.path.as_str()).as_slice());
        let step = if reset || force || has_file_changed(&f.stored, f.modified, f.hash.as_str()) {
            IndexStep::Reindex(p)
        } else {
            IndexStep::Skip(p)
        };
        let ghost prev = out@;
        out.push(step);
        proof {
            assert(out@.map_values(|s: IndexStep| step_model(s)) =~= prev.map_values(
                |s: IndexStep| step_model(s),
            ).push(step_model(step)));
            assert(head + Seq::new(
                (i + 1) as nat,
                |j: int|
                    if must_index(files@[j], rs, force) {
                        (1int, files@[j].path@)
                    } else {
                        (2int, files@[j].path@)
                    },
            ) =~= (head + Seq::new(
                i as nat,
                |j: int|
                    if must_index(files@[j], rs, force) {
                        (1int, files@[j].path@)
                    } else {
                        (2int, files@[j].path@)
                    },
            )).push(step_model(step)));
        }
        i = i + 1;
    }
    let ghost prev = out@;
    out.push(IndexStep::RecordModel);
    proof {
        assert(out@.map_values(|s: IndexStep| step_model(s)) =~= prev.map_values(
            |s: IndexStep| step_model(s),
        ).push((3int, Seq::<char>::empty())));
        assert(planned(files@, rs, force) =~= out@.map_values(|s: IndexStep| step_model(s)));
    }
    out
}

/// When the model identity changes, the pass clears both stores before anything else, clears
/// them only then, and indexes every file again, so nothing made with the earlier model is
/// left; with the same model, a file is indexed again only when forced or changed.
pub proof fn lemma_model_change_clears_first(files: Seq<FileStatus>, force: bool, reset: bool)
    ensures
        reset ==> planned(files, reset, force)[0].0 == 0,
        forall|i: int|
            0 < i < planned(files, reset, force).len() ==> (#[trigger] planned(files, reset, force)[i]).0
                != 0,
        reset ==> forall|i: int|
            0 <= i < files.len() ==> (#[trigger] planned(files, reset, force)[i + 1]) == (
                1int,
                files[i].path@,
            ),
        !reset ==> forall|i: int|
            0 <= i < files.len() ==> ((#[trigger] planned(files, reset, force)[i]).0 == 1 <==> (force
                || changed(files[i].stored, files[i].modified, files[i].hash@))),
        planned(files, reset, force).last().0 == 3,
{
}

} // verus!
