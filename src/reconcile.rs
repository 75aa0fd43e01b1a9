use crate::archive::{index_error_text, path_entries, IndexError};
use crate::path::prefixed;
use crate::path::PathEntry;
use crate::store::{apply_op, replace_paths, StoreModel, StoreOp};
use crate::sync::entries_for;
use vstd::prelude::*;

verus! {

/// The operation that rebuilds the path entries of one file from a fresh
/// index of its archive. A failed index yields no operation: the file keeps
/// the entries it had, and the failure is handed back for reporting.
pub fn rebuild_step(file_id: u64, indexed: Result<Vec<String>, IndexError>) -> (r: Result<
    StoreOp,
    IndexError,
>)
    ensures
        match indexed {
            Ok(paths) => r matches Ok(StoreOp::ReplacePaths { file_id: f, entries }) && f == file_id
                && entries_for(file_id, paths@, entries@),
            Err(e) => r matches Err(e2) && e2 == e,
        },
{
    match indexed {
        Ok(paths) => {
            let entries = path_entries(file_id, &paths);
            Ok(StoreOp::ReplacePaths { file_id, entries })
        },
        Err(e) => Err(e),
    }
}

/// One file of a rebuild and what its fresh index gave: the new path entries,
/// or nothing when its archive was missing or failed to index.
pub struct Rebuilt {
    pub file_id: u64,
    pub entries: Option<Seq<PathEntry>>,
}

/// The store after the rebuild of one file.
pub open spec fn rebuild_one(s: StoreModel, item: Rebuilt) -> StoreModel {
    match item.entries {
        Some(entries) => replace_paths(s, item.file_id, entries),
        None => s,
    }
}

/// The store after the rebuilds of `items`, committed in order.
pub open spec fn rebuild_all(s: StoreModel, items: Seq<Rebuilt>) -> StoreModel
    decreases items.len(),
{
    if items.len() == 0 {
        s
    } else {
        rebuild_one(rebuild_all(s, items.drop_last()), items.last())
    }
}

/// Law of a rebuild step: the operation of a file whose index succeeded
/// replaces that file's path entries, and nothing else.
pub proof fn lemma_rebuild_step_effect(s: StoreModel, op: StoreOp, file_id: u64, entries: Seq<PathEntry>)
    requires
        op matches StoreOp::ReplacePaths { file_id: f, entries: e } && f == file_id && e@ == entries,
    ensures
        apply_op(s, op) == rebuild_one(s, Rebuilt { file_id, entries: Some(entries) }),
{
}

/// In `after`, the file of `item` holds the entries of its index when that
/// succeeded, and what it held in `before` when it failed.
pub open spec fn rebuilt_in(before: StoreModel, after: StoreModel, item: Rebuilt) -> bool {
    match item.entries {
        Some(entries) => after.paths.contains_key(item.file_id) && after.paths[item.file_id]
            == entries,
        None => {
            &&& after.paths.contains_key(item.file_id) == before.paths.contains_key(item.file_id)
            &&& before.paths.contains_key(item.file_id) ==> after.paths[item.file_id]
                == before.paths[item.file_id]
        },
    }
}

/// `after` holds for file `id` what `before` held.
pub open spec fn untouched(before: StoreModel, after: StoreModel, id: u64) -> bool {
    &&& after.paths.contains_key(id) == before.paths.contains_key(id)
    &&& before.paths.contains_key(id) ==> after.paths[id] == before.paths[id]
}

/// Law of the local rebuild: over files with distinct ids, each file whose
/// index succeeded ends with exactly the entries of that index, and each file
/// whose archive was missing or corrupt keeps what it had, whatever befell the
/// others.
pub proof fn lemma_rebuild_all(s: StoreModel, items: Seq<Rebuilt>)
    requires
        forall|i: int, j: int|
            0 <= i < j < items.len() ==> #[trigger] items[i].file_id != #[trigger] items[j].file_id,
    ensures
        forall|i: int| 0 <= i < items.len() ==> rebuilt_in(s, rebuild_all(s, items), #[trigger] items[i]),
        forall|id: u64|
            (forall|k: int| 0 <= k < items.len() ==> items[k].file_id != id) ==> #[trigger] untouched(
                s,
                rebuild_all(s, items),
                id,
            ),
    decreases items.len(),
{
    if items.len() > 0 {
        let rest = items.drop_last();
        assert forall|i: int, j: int| 0 <= i < j < rest.len() implies #[trigger] rest[i].file_id
            != #[trigger] rest[j].file_id by {
            assert(rest[i] == items[i] && rest[j] == items[j]);
        }
        lemma_rebuild_all(s, rest);
        let before = rebuild_all(s, rest);
        let last = items.last();
        assert forall|i: int| 0 <= i < items.len() implies rebuilt_in(
            s,
            rebuild_all(s, items),
            #[trigger] items[i],
        ) by {
            if i < items.len() - 1 {
                assert(rest[i] == items[i]);
                assert(rebuilt_in(s, before, rest[i]));
                assert(items[i].file_id != items[items.len() - 1].file_id);
            } else {
                assert forall|k: int| 0 <= k < rest.len() implies rest[k].file_id != last.file_id by {
                    assert(rest[k] == items[k]);
                }
                assert(untouched(s, before, last.file_id));
            }
        }
        assert forall|id: u64|
            (forall|k: int| 0 <= k < items.len() ==> items[k].file_id != id) implies #[trigger] untouched(
            s,
            rebuild_all(s, items),
            id,
        ) by {
            assert forall|k: int| 0 <= k < rest.len() implies rest[k].file_id != id by {
                assert(rest[k] == items[k]);
            }
            assert(untouched(s, before, id));
            assert(items[items.len() - 1].file_id != id);
        }
    }
}

/// Why the rebuild of one file failed. None of these stops the others.
#[derive(Debug)]
pub enum RebuildError {
    /// The archive was missing or could not be indexed.
    Index(IndexError),
    /// The store refused the file's transaction; carries the message.
    Storage(String),
    /// The worker that indexed the archive did not finish; carries the message.
    Worker(String),
}

/// The message of a rebuild error.
pub open spec fn rebuild_error_text(e: RebuildError) -> Seq<char> {
    match e {
        RebuildError::Index(i) => index_error_text(i),
        RebuildError::Storage(m) => "storage error: "@ + m@,
        RebuildError::Worker(m) => "worker failed: "@ + m@,
    }
}

impl RebuildError {
    /// The message of this error, with what it carries.
    pub fn message(&self) -> (r: String)
        ensures
            r@ == rebuild_error_text(*self),
    {
        match self {
            RebuildError::Index(i) => i.message(),
            RebuildError::Storage(m) => prefixed("storage error: ", m.as_str()),
            RebuildError::Worker(m) => prefixed("worker failed: ", m.as_str()),
        }
    }
}

/// What a local rebuild did: the files rebuilt and the files that failed,
/// with their errors, in the order their results came in.
#[derive(Debug)]
pub struct RebuildReport {
    pub rebuilt: Vec<u64>,
    pub failed: Vec<(u64, RebuildError)>,
}

impl RebuildReport {
    pub fn new() -> (r: RebuildReport)
        ensures
            r.rebuilt@.len() == 0,
            r.failed@.len() == 0,
    {
        RebuildReport { rebuilt: Vec::new(), failed: Vec::new() }
    }

    /// Records the outcome of one file: rebuilt, or failed with its error.
    pub fn record(&mut self, file_id: u64, outcome: Result<(), RebuildError>)
        ensures
            outcome is Ok ==> final(self).rebuilt@ == old(self).rebuilt@.push(file_id),
            outcome is Ok ==> final(self).failed@ == old(self).failed@,
            outcome is Err ==> final(self).failed@ == old(self).failed@.push((file_id, outcome->Err_0)),
            outcome is Err ==> final(self).rebuilt@ == old(self).rebuilt@,
    {
        match outcome {
            Ok(()) => self.rebuilt.push(file_id),
            Err(e) => self.failed.push((file_id, e)),
        }
    }

    /// The number of files handled so far.
    pub fn total(&self) -> (r: usize)
        requires
            self.rebuilt@.len() + self.failed@.len() <= usize::MAX,
        ensures
            r == self.rebuilt@.len() + self.failed@.len(),
    {
        self.rebuilt.len() + self.failed.len()
    }
}

} // verus!
