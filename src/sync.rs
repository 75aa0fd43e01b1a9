use crate::archive::{index_error_text, path_entries, IndexError};
use crate::path::prefixed;
use crate::path::{entry_of, PathEntry};
use crate::store::{
    apply_ops, lemma_apply_ops_append, lemma_apply_ops_single, replace_paths, stored_current,
    FileRow, ModRow, StoreModel, StoreOp,
};
use vstd::prelude::*;

verus! {

/// A release of a mod as the remote catalog describes it.
#[derive(Debug)]
pub struct FileRecord {
    pub id: u64,
    pub added_at: i64,
    pub content_hash: String,
    pub filename: String,
    pub version: Option<String>,
    pub changelog: Option<String>,
    pub size: u64,
}

/// A mod as the remote catalog describes it.
#[derive(Debug)]
pub struct ModRecord {
    pub id: u64,
    pub name: String,
    pub slug: String,
    pub summary: String,
    pub description: Option<String>,
    pub current_file: Option<FileRecord>,
}

/// An archive that a sync needs on local storage before it can index it.
#[derive(Debug)]
pub struct FetchRequest {
    pub file_id: u64,
    /// Where the archive lives in local storage: its content hash and `.zip`.
    pub archive_name: String,
    pub size: u64,
}

/// What a sync of one mod does before its archive is read: the operations to
/// commit, and the archive to fetch and index when the current file changed.
#[derive(Debug)]
pub struct SyncPlan {
    pub ops: Vec<StoreOp>,
    pub fetch: Option<FetchRequest>,
}

pub open spec fn remote_file_id(m: ModRecord) -> Option<u64> {
    match m.current_file {
        Some(f) => Some(f.id),
        None => None,
    }
}

pub open spec fn mod_row_of(m: ModRecord) -> ModRow {
    ModRow {
        id: m.id,
        name: m.name,
        slug: m.slug,
        summary: m.summary,
        description: m.description,
    }
}

pub open spec fn file_row_of(mod_id: u64, f: FileRecord) -> FileRow {
    FileRow {
        id: f.id,
        mod_id,
        added_at: f.added_at,
        content_hash: f.content_hash,
        filename: f.filename,
        version: f.version,
        changelog: f.changelog,
    }
}

/// The local archive name of a content hash.
pub open spec fn archive_name_of(content_hash: Seq<char>) -> Seq<char> {
    content_hash + seq!['.', 'z', 'i', 'p']
}

/// The operations of a sync of `m` when the store holds `stored` as its
/// current file: the mod's metadata always; when the current file changed,
/// either clearing it or recording the new file and making it current.
pub open spec fn plan_ops(m: ModRecord, stored: Option<u64>) -> Seq<StoreOp> {
    if remote_file_id(m) == stored {
        seq![StoreOp::UpsertMod(mod_row_of(m))]
    } else {
        match m.current_file {
            None => seq![
                StoreOp::UpsertMod(mod_row_of(m)),
                StoreOp::SetCurrentFile { mod_id: m.id, current: None },
            ],
            Some(f) => seq![
                StoreOp::UpsertMod(mod_row_of(m)),
                StoreOp::UpsertFile(file_row_of(m.id, f)),
                StoreOp::SetCurrentFile { mod_id: m.id, current: Some(f.id) },
            ],
        }
    }
}

/// A fetch is due exactly when the current file changed to another file.
pub open spec fn fetch_due(m: ModRecord, stored: Option<u64>) -> bool {
    remote_file_id(m) != stored && m.current_file is Some
}

/// `req` asks for the archive of the remote current file of `m`.
pub open spec fn fetch_of(m: ModRecord, req: FetchRequest) -> bool {
    &&& m.current_file is Some
    &&& req.file_id == m.current_file->Some_0.id
    &&& req.archive_name@ == archive_name_of(m.current_file->Some_0.content_hash@)
    &&& req.size == m.current_file->Some_0.size
}

pub open spec fn plan_of(m: ModRecord, stored: Option<u64>, p: SyncPlan) -> bool {
    &&& p.ops@ == plan_ops(m, stored)
    &&& p.fetch is Some <==> fetch_due(m, stored)
    &&& p.fetch matches Some(req) ==> fetch_of(m, req)
}

fn copy_text(o: &Option<String>) -> (r: Option<String>)
    ensures
        r == *o,
{
    match o {
        Some(s) => Some(s.clone()),
        None => None,
    }
}

/// The local archive name of a content hash: the hash followed by `.zip`.
pub fn archive_name(content_hash: &str) -> (r: String)
    ensures
        r@ == archive_name_of(content_hash@),
{
    let mut name = content_hash.to_owned();
    proof {
        reveal_strlit(".zip");
    }
    name.append(".zip");
    name
}

/// Decides the sync of one remote mod, given the current file that the store
/// holds for it after its metadata was written. The mod's metadata is always
/// refreshed. When the remote current file equals the stored one nothing else
/// happens; when the remote mod has none, the stored one is cleared; otherwise
/// the file is recorded, made current, and its archive is to be fetched.
pub fn plan_sync(remote: &ModRecord, stored: Option<u64>) -> (r: SyncPlan)
    ensures
        plan_of(*remote, stored, r),
{
    let row = ModRow {
        id: remote.id,
        name: remote.name.clone(),
        slug: remote.slug.clone(),
        summary: remote.summary.clone(),
        description: copy_text(&remote.description),
    };
    let mut ops: Vec<StoreOp> = Vec::new();
    ops.push(StoreOp::UpsertMod(row));
    let remote_id = match &remote.current_file {
        Some(f) => Some(f.id),
        None => None,
    };
    let same = match (remote_id, stored) {
        (Some(a), Some(b)) => a == b,
        (None, None) => true,
        _ => false,
    };
    if same {
        assert(ops@ =~= plan_ops(*remote, stored));
        return SyncPlan { ops, fetch: None };
    }
    match &remote.current_file {
        None => {
            ops.push(StoreOp::SetCurrentFile { mod_id: remote.id, current: None });
            assert(ops@ =~= plan_ops(*remote, stored));
            SyncPlan { ops, fetch: None }
        },
        Some(f) => {
            let file = FileRow {
                id: f.id,
                mod_id: remote.id,
                added_at: f.added_at,
                content_hash: f.content_hash.clone(),
                filename: f.filename.clone(),
                version: copy_text(&f.version),
                changelog: copy_text(&f.changelog),
            };
            ops.push(StoreOp::UpsertFile(file));
            ops.push(StoreOp::SetCurrentFile { mod_id: remote.id, current: Some(f.id) });
            assert(ops@ =~= plan_ops(*remote, stored));
            let fetch = FetchRequest {
                file_id: f.id,
                archive_name: archive_name(f.content_hash.as_str()),
                size: f.size,
            };
            SyncPlan { ops, fetch: Some(fetch) }
        },
    }
}

/// `entries` are the path entries of `file_id` for `paths`, in order.
pub open spec fn entries_for(file_id: u64, paths: Seq<String>, entries: Seq<PathEntry>) -> bool {
    &&& entries.len() == paths.len()
    &&& forall|j: int| 0 <= j < entries.len() ==> entry_of(#[trigger] entries[j], file_id, paths[j]@)
}

/// The operation that closes the sync of a fetched file: its path entries are
/// replaced by those of the indexed paths, or emptied when indexing failed;
/// the failure is handed back for reporting.
pub fn finish_sync(fetch: &FetchRequest, indexed: Result<Vec<String>, IndexError>) -> (r: (
    StoreOp,
    Option<IndexError>,
))
    ensures
        r.0 matches StoreOp::ReplacePaths { file_id, entries } && file_id == fetch.file_id && match indexed {
            Ok(paths) => entries_for(fetch.file_id, paths@, entries@) && r.1 is None,
            Err(e) => entries@.len() == 0 && r.1 == Some(e),
        },
{
    match indexed {
        Ok(paths) => {
            let entries = path_entries(fetch.file_id, &paths);
            (StoreOp::ReplacePaths { file_id: fetch.file_id, entries }, None)
        },
        Err(e) => (StoreOp::ReplacePaths { file_id: fetch.file_id, entries: Vec::new() }, Some(e)),
    }
}

/// The store after a whole sync of `m`: the plan's operations and, when a
/// fetch was due, the replacement of the new file's path entries.
pub open spec fn after_sync(s: StoreModel, m: ModRecord, entries: Seq<PathEntry>) -> StoreModel {
    let ops = plan_ops(m, stored_current(s, m.id));
    if fetch_due(m, stored_current(s, m.id)) {
        replace_paths(apply_ops(s, ops), m.current_file->Some_0.id, entries)
    } else {
        apply_ops(s, ops)
    }
}

/// Law of a sync's plan: the mod's metadata is always written and no path
/// entry is touched; with an unchanged current file nothing else changes; with
/// a changed one the store's current file becomes the remote one, and the file
/// table gains the remote file, if there is one, and nothing else.
pub proof fn lemma_plan_effect(s: StoreModel, m: ModRecord, stored: Option<u64>)
    ensures
        apply_ops(s, plan_ops(m, stored)).mods == s.mods.insert(m.id, mod_row_of(m)),
        apply_ops(s, plan_ops(m, stored)).paths == s.paths,
        remote_file_id(m) == stored ==> {
            &&& apply_ops(s, plan_ops(m, stored)).current == s.current
            &&& apply_ops(s, plan_ops(m, stored)).files == s.files
        },
        remote_file_id(m) != stored ==> {
            &&& stored_current(apply_ops(s, plan_ops(m, stored)), m.id) == remote_file_id(m)
            &&& apply_ops(s, plan_ops(m, stored)).files == match m.current_file {
                Some(f) => s.files.insert(f.id, file_row_of(m.id, f)),
                None => s.files,
            }
        },
{
    let a = StoreOp::UpsertMod(mod_row_of(m));
    lemma_apply_ops_single(s, a);
    if remote_file_id(m) != stored {
        match m.current_file {
            None => {
                let b = StoreOp::SetCurrentFile { mod_id: m.id, current: None };
                assert(plan_ops(m, stored) =~= seq![a].push(b));
                lemma_apply_ops_append(s, seq![a], b);
            },
            Some(f) => {
                let b = StoreOp::UpsertFile(file_row_of(m.id, f));
                let c = StoreOp::SetCurrentFile { mod_id: m.id, current: Some(f.id) };
                assert(plan_ops(m, stored) =~= seq![a].push(b).push(c));
                lemma_apply_ops_append(s, seq![a], b);
                lemma_apply_ops_append(s, seq![a].push(b), c);
            },
        }
    }
}

/// Law of resync: once a mod was synced, syncing it again with the same
/// remote state fetches nothing, and leaves the files, the current file and
/// every path entry as they were; only the mod's metadata is written again.
pub proof fn lemma_resync_is_idempotent(s: StoreModel, m: ModRecord, entries: Seq<PathEntry>)
    ensures
        ({
            let first = after_sync(s, m, entries);
            let stored = stored_current(first, m.id);
            &&& stored == remote_file_id(m)
            &&& !fetch_due(m, stored)
            &&& apply_ops(first, plan_ops(m, stored)).paths == first.paths
            &&& apply_ops(first, plan_ops(m, stored)).files == first.files
            &&& apply_ops(first, plan_ops(m, stored)).current == first.current
        }),
{
    let stored0 = stored_current(s, m.id);
    lemma_plan_effect(s, m, stored0);
    let first = after_sync(s, m, entries);
    let stored = stored_current(first, m.id);
    lemma_plan_effect(first, m, stored);
}

/// Law of a changed file: when the remote current file differs from the
/// stored one, one fetch is due, for that file, and the sync records the file,
/// makes it current and replaces the path entries of that file alone; those
/// of every other file stay as they were.
pub proof fn lemma_changed_file_replaces_only_its_paths(
    s: StoreModel,
    m: ModRecord,
    entries: Seq<PathEntry>,
)
    requires
        m.current_file is Some,
        stored_current(s, m.id) != remote_file_id(m),
    ensures
        fetch_due(m, stored_current(s, m.id)),
        ({
            let f = m.current_file->Some_0;
            let after = after_sync(s, m, entries);
            &&& after.paths == s.paths.insert(f.id, entries)
            &&& forall|id: u64|
                id != f.id && s.paths.contains_key(id) ==> after.paths.contains_key(id)
                    && #[trigger] after.paths[id] == s.paths[id]
            &&& after.files == s.files.insert(f.id, file_row_of(m.id, f))
            &&& stored_current(after, m.id) == Some(f.id)
            &&& after.mods == s.mods.insert(m.id, mod_row_of(m))
        }),
{
    lemma_plan_effect(s, m, stored_current(s, m.id));
}

/// Law of a removed file: when the remote mod has no current file and the
/// store holds one, the sync clears it and fetches nothing; files and path
/// entries stay as they were.
pub proof fn lemma_removed_file_clears_current(s: StoreModel, m: ModRecord, entries: Seq<PathEntry>)
    requires
        m.current_file is None,
        stored_current(s, m.id) is Some,
    ensures
        !fetch_due(m, stored_current(s, m.id)),
        stored_current(after_sync(s, m, entries), m.id) is None,
        after_sync(s, m, entries).files == s.files,
        after_sync(s, m, entries).paths == s.paths,
{
    lemma_plan_effect(s, m, stored_current(s, m.id));
}

/// Why the sync of one mod failed.
#[derive(Debug)]
pub enum SyncError {
    /// The catalog or the download failed; carries the message.
    Transport(String),
    /// The store refused the mod's transaction; carries the message.
    Storage(String),
    /// Local storage failed; carries the message.
    Io(String),
    /// The new archive could not be indexed; its metadata was still committed.
    Index(IndexError),
}

/// The message of a sync error.
pub open spec fn sync_error_text(e: SyncError) -> Seq<char> {
    match e {
        SyncError::Transport(m) => "transport error: "@ + m@,
        SyncError::Storage(m) => "storage error: "@ + m@,
        SyncError::Io(m) => "i/o error: "@ + m@,
        SyncError::Index(i) => "indexing failed: "@ + index_error_text(i),
    }
}

impl SyncError {
    /// The message of this error, with what it carries.
    pub fn message(&self) -> (r: String)
        ensures
            r@ == sync_error_text(*self),
    {
        match self {
            SyncError::Transport(m) => prefixed("transport error: ", m.as_str()),
            SyncError::Storage(m) => prefixed("storage error: ", m.as_str()),
            SyncError::Io(m) => prefixed("i/o error: ", m.as_str()),
            SyncError::Index(i) => {
                let inner = i.message();
                prefixed("indexing failed: ", inner.as_str())
            },
        }
    }
}

/// What a sync of the catalog did: how many mods it handled, and the failures
/// with the mod each belongs to, in order. A failure never stops the batch.
#[derive(Debug)]
pub struct SyncReport {
    pub processed: u64,
    pub failures: Vec<(u64, SyncError)>,
}

impl SyncReport {
    pub fn new() -> (r: SyncReport)
        ensures
            r.processed == 0,
            r.failures@.len() == 0,
    {
        SyncReport { processed: 0, failures: Vec::new() }
    }

    /// Records the outcome of one mod.
    pub fn record(&mut self, mod_id: u64, outcome: Result<(), SyncError>)
        requires
            old(self).processed < u64::MAX,
        ensures
            final(self).processed == old(self).processed + 1,
            outcome is Ok ==> final(self).failures@ == old(self).failures@,
            outcome is Err ==> final(self).failures@ == old(self).failures@.push((mod_id, outcome->Err_0)),
    {
        self.processed = self.processed + 1;
        match outcome {
            Ok(()) => {},
            Err(e) => self.failures.push((mod_id, e)),
        }
    }
}

} // verus!
