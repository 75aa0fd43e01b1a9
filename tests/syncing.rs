use std::collections::BTreeMap;

use mod_mirror::archive::IndexError;
use mod_mirror::path::PathEntry;
use mod_mirror::reconcile::{rebuild_step, RebuildError, RebuildReport};
use mod_mirror::store::{FileRow, ModRow, StoreOp};
use mod_mirror::sync::{
    archive_name, finish_sync, plan_sync, FileRecord, ModRecord, SyncError, SyncPlan, SyncReport,
};

/// A store held in memory that applies operations as the real one does.
#[derive(Default)]
struct MemStore {
    mods: BTreeMap<u64, ModRow>,
    current: BTreeMap<u64, u64>,
    files: BTreeMap<u64, FileRow>,
    paths: BTreeMap<u64, Vec<PathEntry>>,
}

impl MemStore {
    fn apply(&mut self, op: StoreOp) {
        match op {
            StoreOp::UpsertMod(row) => {
                self.mods.insert(row.id, row);
            }
            StoreOp::UpsertFile(row) => {
                self.files.insert(row.id, row);
            }
            StoreOp::SetCurrentFile { mod_id, current } => match current {
                Some(f) => {
                    self.current.insert(mod_id, f);
                }
                None => {
                    self.current.remove(&mod_id);
                }
            },
            StoreOp::ReplacePaths { file_id, entries } => {
                self.paths.insert(file_id, entries);
            }
        }
    }

    fn path_list(&self, file_id: u64) -> Vec<String> {
        self.paths.get(&file_id).map(|v| v.iter().map(|e| e.path.clone()).collect()).unwrap_or_default()
    }
}

fn file(id: u64, hash: &str) -> FileRecord {
    FileRecord {
        id,
        added_at: 1_650_000_000,
        content_hash: hash.to_string(),
        filename: format!("{hash}.zip"),
        version: Some("1.0".to_string()),
        changelog: None,
        size: 42,
    }
}

fn remote(name: &str, current: Option<FileRecord>) -> ModRecord {
    ModRecord {
        id: 1,
        name: name.to_string(),
        slug: "the-mod".to_string(),
        summary: "sum".to_string(),
        description: Some("desc".to_string()),
        current_file: current,
    }
}

/// Runs one sync of `m` against `store`; `archives` gives the indexed paths
/// of each archive name. Returns the archive names fetched.
fn sync(
    store: &mut MemStore,
    m: &ModRecord,
    archives: &BTreeMap<String, Vec<String>>,
) -> Vec<String> {
    let mut upsert = None;
    let SyncPlan { ops, fetch } = {
        // The metadata is written first, then the current file read back.
        let stored = store.current.get(&m.id).copied();
        plan_sync(m, stored)
    };
    for op in ops {
        if let StoreOp::UpsertMod(_) = &op {
            upsert = Some(());
        }
        store.apply(op);
    }
    assert!(upsert.is_some());
    let mut fetched = vec![];
    if let Some(req) = fetch {
        fetched.push(req.archive_name.clone());
        let indexed = match archives.get(&req.archive_name) {
            Some(paths) => Ok(paths.clone()),
            None => Err(IndexError::Io("missing".to_string())),
        };
        let (op, _failure) = finish_sync(&req, indexed);
        store.apply(op);
    }
    fetched
}

fn archives() -> BTreeMap<String, Vec<String>> {
    let mut a = BTreeMap::new();
    a.insert("abc.zip".to_string(), vec!["FSD/A.uasset".to_string(), "FSD/B.uexp".to_string()]);
    a.insert("def.zip".to_string(), vec!["FSD/C.uasset".to_string()]);
    a
}

#[test]
fn archive_name_appends_zip() {
    assert_eq!(archive_name("abc"), "abc.zip");
}

#[test]
fn scenario_first_sync_creates_everything() {
    let mut store = MemStore::default();
    let fetched = sync(&mut store, &remote("Mod", Some(file(10, "abc"))), &archives());
    assert_eq!(fetched, vec!["abc.zip"]);
    assert_eq!(store.mods[&1].name, "Mod");
    assert_eq!(store.current[&1], 10);
    assert_eq!(store.files[&10].mod_id, 1);
    assert_eq!(store.files[&10].content_hash, "abc");
    assert_eq!(store.path_list(10), vec!["FSD/A.uasset", "FSD/B.uexp"]);
    let e = &store.paths[&10][0];
    assert_eq!(e.extension.as_deref(), Some("uasset"));
    assert_eq!(e.stem.as_deref(), Some("A"));
}

#[test]
fn scenario_unchanged_resync_refreshes_metadata_only() {
    let mut store = MemStore::default();
    sync(&mut store, &remote("Mod", Some(file(10, "abc"))), &archives());
    let fetched = sync(&mut store, &remote("Renamed", Some(file(10, "abc"))), &BTreeMap::new());
    assert!(fetched.is_empty());
    assert_eq!(store.mods[&1].name, "Renamed");
    assert_eq!(store.current[&1], 10);
    assert_eq!(store.path_list(10), vec!["FSD/A.uasset", "FSD/B.uexp"]);
    assert_eq!(store.files.len(), 1);
}

#[test]
fn scenario_changed_file_keeps_old_paths() {
    let mut store = MemStore::default();
    sync(&mut store, &remote("Mod", Some(file(10, "abc"))), &archives());
    let fetched = sync(&mut store, &remote("Mod", Some(file(11, "def"))), &archives());
    assert_eq!(fetched, vec!["def.zip"]);
    assert_eq!(store.current[&1], 11);
    assert!(store.files.contains_key(&10));
    assert_eq!(store.files[&11].content_hash, "def");
    assert_eq!(store.path_list(10), vec!["FSD/A.uasset", "FSD/B.uexp"]);
    assert_eq!(store.path_list(11), vec!["FSD/C.uasset"]);
}

#[test]
fn scenario_removed_file_clears_current() {
    let mut store = MemStore::default();
    sync(&mut store, &remote("Mod", Some(file(10, "abc"))), &archives());
    let fetched = sync(&mut store, &remote("Mod", None), &archives());
    assert!(fetched.is_empty());
    assert!(!store.current.contains_key(&1));
    assert_eq!(store.files.len(), 1);
    assert_eq!(store.path_list(10), vec!["FSD/A.uasset", "FSD/B.uexp"]);
}

#[test]
fn plan_for_unchanged_file_is_metadata_only() {
    let plan = plan_sync(&remote("Mod", Some(file(10, "abc"))), Some(10));
    assert!(plan.fetch.is_none());
    assert_eq!(plan.ops.len(), 1);
    assert!(matches!(&plan.ops[0], StoreOp::UpsertMod(r) if r.id == 1 && r.slug == "the-mod"));
    let plan = plan_sync(&remote("Mod", None), None);
    assert!(plan.fetch.is_none());
    assert_eq!(plan.ops.len(), 1);
}

#[test]
fn plan_for_new_file() {
    let plan = plan_sync(&remote("Mod", Some(file(10, "abc"))), Some(9));
    let req = plan.fetch.unwrap();
    assert_eq!(req.file_id, 10);
    assert_eq!(req.archive_name, "abc.zip");
    assert_eq!(req.size, 42);
    assert_eq!(plan.ops.len(), 3);
    match &plan.ops[1] {
        StoreOp::UpsertFile(f) => {
            assert_eq!(f.id, 10);
            assert_eq!(f.mod_id, 1);
            assert_eq!(f.added_at, 1_650_000_000);
            assert_eq!(f.version.as_deref(), Some("1.0"));
        }
        other => panic!("unexpected {:?}", other),
    }
    assert!(matches!(
        &plan.ops[2],
        StoreOp::SetCurrentFile { mod_id: 1, current: Some(10) }
    ));
}

#[test]
fn plan_for_removed_file() {
    let plan = plan_sync(&remote("Mod", None), Some(10));
    assert!(plan.fetch.is_none());
    assert_eq!(plan.ops.len(), 2);
    assert!(matches!(&plan.ops[1], StoreOp::SetCurrentFile { mod_id: 1, current: None }));
}

#[test]
fn failed_index_empties_paths_and_reports() {
    let mut store = MemStore::default();
    let m = remote("Mod", Some(file(12, "zzz")));
    let fetched = sync(&mut store, &m, &BTreeMap::new());
    assert_eq!(fetched, vec!["zzz.zip"]);
    assert_eq!(store.current[&1], 12);
    assert!(store.path_list(12).is_empty());
    let plan = plan_sync(&m, None);
    let (op, failure) = finish_sync(plan.fetch.as_ref().unwrap(), Err(IndexError::MissingPackageEntry));
    assert!(matches!(op, StoreOp::ReplacePaths { file_id: 12, ref entries } if entries.is_empty()));
    assert!(matches!(failure, Some(IndexError::MissingPackageEntry)));
}

#[test]
fn rebuild_isolates_a_corrupt_archive() {
    let mut store = MemStore::default();
    store.paths.insert(2, vec![]);
    let results: Vec<(u64, Result<Vec<String>, IndexError>)> = vec![
        (1, Ok(vec!["FSD/a.uasset".to_string()])),
        (2, Err(IndexError::ContainerCorrupt("bad".to_string()))),
        (3, Ok(vec!["FSD/b.uasset".to_string(), "FSD/c".to_string()])),
    ];
    let mut report = RebuildReport::new();
    for (id, indexed) in results {
        match rebuild_step(id, indexed) {
            Ok(op) => {
                store.apply(op);
                report.record(id, Ok(()));
            }
            Err(e) => report.record(id, Err(RebuildError::Index(e))),
        }
    }
    assert_eq!(store.path_list(1), vec!["FSD/a.uasset"]);
    assert!(store.path_list(2).is_empty());
    assert_eq!(store.path_list(3), vec!["FSD/b.uasset", "FSD/c"]);
    assert_eq!(report.rebuilt, vec![1, 3]);
    assert_eq!(report.failed.len(), 1);
    assert_eq!(report.failed[0].0, 2);
    assert_eq!(report.total(), 3);
}

#[test]
fn sync_report_counts_and_keeps_failures() {
    let mut report = SyncReport::new();
    report.record(1, Ok(()));
    report.record(2, Err(SyncError::Transport("timeout".to_string())));
    report.record(3, Ok(()));
    assert_eq!(report.processed, 3);
    assert_eq!(report.failures.len(), 1);
    assert_eq!(report.failures[0].0, 2);
}

#[test]
fn sync_and_rebuild_error_messages() {
    assert_eq!(SyncError::Transport("t".to_string()).message(), "transport error: t");
    assert_eq!(SyncError::Storage("s".to_string()).message(), "storage error: s");
    assert_eq!(
        SyncError::Index(IndexError::MissingPackageEntry).message(),
        "indexing failed: no package entry in archive"
    );
    assert_eq!(RebuildError::Worker("w".to_string()).message(), "worker failed: w");
    assert_eq!(
        RebuildError::Index(IndexError::Io("x".to_string())).message(),
        "i/o error: x"
    );
}
