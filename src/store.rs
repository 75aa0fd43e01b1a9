use crate::path::PathEntry;
use vstd::prelude::*;

verus! {

/// The metadata of a mod that a sync refreshes.
#[derive(Debug)]
pub struct ModRow {
    pub id: u64,
    pub name: String,
    pub slug: String,
    pub summary: String,
    pub description: Option<String>,
}

/// One release of a mod's archive. `added_at` is in seconds since the epoch.
#[derive(Debug)]
pub struct FileRow {
    pub id: u64,
    pub mod_id: u64,
    pub added_at: i64,
    pub content_hash: String,
    pub filename: String,
    pub version: Option<String>,
    pub changelog: Option<String>,
}

/// One change to the store. A unit of work is a sequence of these, committed
/// in one transaction.
#[derive(Debug)]
pub enum StoreOp {
    /// Insert the mod, or overwrite the metadata of the mod with that id.
    UpsertMod(ModRow),
    /// Insert the file, or overwrite the file with that id.
    UpsertFile(FileRow),
    /// Set or clear the current file of a mod.
    SetCurrentFile { mod_id: u64, current: Option<u64> },
    /// Delete every path entry of a file, then insert these.
    ReplacePaths { file_id: u64, entries: Vec<PathEntry> },
}

/// The contents of the store: mods and files by id, the current file of each
/// mod that has one, and the path entries of each indexed file.
pub struct StoreModel {
    pub mods: Map<u64, ModRow>,
    pub current: Map<u64, u64>,
    pub files: Map<u64, FileRow>,
    pub paths: Map<u64, Seq<PathEntry>>,
}

/// The current file of mod `mod_id`, as a read of the store gives it.
pub open spec fn stored_current(s: StoreModel, mod_id: u64) -> Option<u64> {
    if s.current.contains_key(mod_id) {
        Some(s.current[mod_id])
    } else {
        None
    }
}

/// The store with the path entries of `file_id` replaced by `entries`.
pub open spec fn replace_paths(s: StoreModel, file_id: u64, entries: Seq<PathEntry>) -> StoreModel {
    StoreModel { paths: s.paths.insert(file_id, entries), ..s }
}

/// The store after one operation.
pub open spec fn apply_op(s: StoreModel, op: StoreOp) -> StoreModel {
    match op {
        StoreOp::UpsertMod(row) => StoreModel { mods: s.mods.insert(row.id, row), ..s },
        StoreOp::UpsertFile(row) => StoreModel { files: s.files.insert(row.id, row), ..s },
        StoreOp::SetCurrentFile { mod_id, current } => match current {
            Some(f) => StoreModel { current: s.current.insert(mod_id, f), ..s },
            None => StoreModel { current: s.current.remove(mod_id), ..s },
        },
        StoreOp::ReplacePaths { file_id, entries } => replace_paths(s, file_id, entries@),
    }
}

/// The store after a sequence of operations, applied in order.
pub open spec fn apply_ops(s: StoreModel, ops: Seq<StoreOp>) -> StoreModel
    decreases ops.len(),
{
    if ops.len() == 0 {
        s
    } else {
        apply_ops(apply_op(s, ops[0]), ops.skip(1))
    }
}

pub proof fn lemma_apply_ops_append(s: StoreModel, ops: Seq<StoreOp>, op: StoreOp)
    ensures
        apply_ops(s, ops.push(op)) == apply_op(apply_ops(s, ops), op),
    decreases ops.len(),
{
    if ops.len() == 0 {
        assert(ops.push(op) =~= seq![op]);
        lemma_apply_ops_single(s, op);
    } else {
        assert(ops.push(op).skip(1) =~= ops.skip(1).push(op));
        lemma_apply_ops_append(apply_op(s, ops[0]), ops.skip(1), op);
    }
}

pub proof fn lemma_apply_ops_single(s: StoreModel, op: StoreOp)
    ensures
        apply_ops(s, seq![op]) == apply_op(s, op),
{
    assert(seq![op].skip(1) =~= Seq::<StoreOp>::empty());
    assert(apply_ops(apply_op(s, op), Seq::<StoreOp>::empty()) == apply_op(s, op));
}

} // verus!
