use rockdown::document::Document;
use rockdown::documents::{Documents, OpenDocument};
use rockdown::recovery::{
    check_snapshot, persist_plan, restore_plan, DocumentStamp, LiveEntry, LoadedEntry,
    RecoveryError, RecoveryGate, Restored, StoredCheck, StoredChoice, StoredPathCheck,
    WorkspaceCheck, SNAPSHOT_VERSION, explicit_key, workspace_key,
};
use sha2::{Digest, Sha256};

fn stored(path: StoredPathCheck, has_contents: bool) -> StoredCheck {
    StoredCheck { path, has_contents }
}

#[test]
fn snapshot_checks_version_then_workspace_then_documents_in_order() {
    let fine = vec![
        stored(StoredPathCheck::Absent, true),
        stored(StoredPathCheck::Absolute, false),
    ];
    assert_eq!(check_snapshot(SNAPSHOT_VERSION, WorkspaceCheck::Same, &fine), Ok(()));
    assert_eq!(
        check_snapshot(SNAPSHOT_VERSION + 1, WorkspaceCheck::Other, &fine),
        Err(RecoveryError::UnsupportedVersion(2))
    );
    assert_eq!(
        check_snapshot(SNAPSHOT_VERSION, WorkspaceCheck::Foreign, &fine),
        Err(RecoveryError::ForeignPath)
    );
    assert_eq!(
        check_snapshot(SNAPSHOT_VERSION, WorkspaceCheck::Other, &fine),
        Err(RecoveryError::WorkspaceMismatch)
    );
    let bad = vec![
        stored(StoredPathCheck::Absolute, true),
        stored(StoredPathCheck::Relative, true),
        stored(StoredPathCheck::Absent, false),
    ];
    assert_eq!(
        check_snapshot(SNAPSHOT_VERSION, WorkspaceCheck::Same, &bad),
        Err(RecoveryError::RelativePath)
    );
    let neither = vec![stored(StoredPathCheck::Absent, false)];
    assert_eq!(
        check_snapshot(SNAPSHOT_VERSION, WorkspaceCheck::Same, &neither),
        Err(RecoveryError::NoFileOrContents)
    );
    let foreign = vec![stored(StoredPathCheck::Foreign, true)];
    assert_eq!(
        check_snapshot(SNAPSHOT_VERSION, WorkspaceCheck::Same, &foreign),
        Err(RecoveryError::ForeignPath)
    );
}

fn loaded(path: Option<&str>, dirty: bool, line_count: usize, top: usize) -> Option<LoadedEntry> {
    Some(LoadedEntry { path: path.map(|p| p.to_string()), dirty, line_count, top })
}

#[test]
fn restore_drops_unreadable_files_and_clean_aliases_but_keeps_dirty_copies() {
    let entries = vec![
        loaded(Some("/w/a.md"), false, 2, 1),
        None,
        loaded(None, true, 1, 0),
        loaded(Some("/w/a.md"), false, 3, 0),
        loaded(Some("/w/a.md"), true, 1, 5),
    ];
    let plan = restore_plan(&entries, 3);
    assert_eq!(
        plan.kept,
        vec![
            Restored { index: 0, id: 1, top: 1, top_kept: true },
            Restored { index: 2, id: 3, top: 0, top_kept: true },
            Restored { index: 4, id: 5, top: 0, top_kept: false },
        ]
    );
    assert_eq!(plan.active, 1);
    let plan = restore_plan(&entries, 4);
    assert_eq!(plan.active, 2);
    let plan = restore_plan(&entries, 0);
    assert_eq!(plan.active, 0);
}

#[test]
fn restore_of_nothing_restores_no_documents() {
    let plan = restore_plan(&vec![None, None], 1);
    assert!(plan.kept.is_empty());
    assert_eq!(plan.active, 0);
    let none: Option<Documents<u32>> = Documents::from_recovery(Vec::new(), 0);
    assert!(none.is_none());
}

#[test]
fn restored_documents_keep_their_identities_and_active_position() {
    let entries = vec![
        OpenDocument { id: 1, document: Document::untitled("one"), viewport: 0u32 },
        OpenDocument { id: 4, document: Document::untitled("two"), viewport: 3u32 },
    ];
    let mut documents = Documents::from_recovery(entries, 1).unwrap();
    assert_eq!(documents.active_id(), 4);
    assert_eq!(*documents.viewport(), 3);
    documents.new_document(9);
    assert_eq!(documents.active_id(), 5);
}

fn live(id: u64, dirty: bool, has_saved_file: bool) -> LiveEntry {
    LiveEntry { id, dirty, has_saved_file }
}

#[test]
fn checkpoints_store_every_document_and_the_text_of_unsaved_ones() {
    let entries = vec![live(1, true, true), live(2, false, true), live(3, false, false)];
    let plan = persist_plan(&entries, 3, false);
    assert_eq!(
        plan.stored,
        vec![
            StoredChoice { index: 0, with_contents: true },
            StoredChoice { index: 1, with_contents: false },
            StoredChoice { index: 2, with_contents: true },
        ]
    );
    assert_eq!(plan.active, 2);
}

#[test]
fn clean_exit_keeps_only_saved_files_and_no_text() {
    let entries = vec![live(1, true, true), live(2, false, false), live(3, false, true)];
    let plan = persist_plan(&entries, 3, true);
    assert_eq!(
        plan.stored,
        vec![
            StoredChoice { index: 0, with_contents: false },
            StoredChoice { index: 2, with_contents: false },
        ]
    );
    assert_eq!(plan.active, 1);
    let plan = persist_plan(&entries, 2, true);
    assert_eq!(plan.active, 0);
}

fn stamp(id: u64, path: Option<&str>, row: usize) -> DocumentStamp {
    DocumentStamp {
        id,
        token: (id, 7),
        path: path.map(|p| p.to_string()),
        row,
        col: 0,
        top: 0,
        offset_bits: 0,
    }
}

#[test]
fn stamps_match_only_the_same_state() {
    assert!(stamp(1, Some("/w/a.md"), 2).matches(&stamp(1, Some("/w/a.md"), 2)));
    assert!(!stamp(1, Some("/w/a.md"), 2).matches(&stamp(1, Some("/w/b.md"), 2)));
    assert!(!stamp(1, Some("/w/a.md"), 2).matches(&stamp(1, None, 2)));
    assert!(!stamp(1, None, 2).matches(&stamp(1, None, 3)));
}

#[test]
fn failed_loads_block_writes_until_a_load_succeeds() {
    let mut gate = RecoveryGate::acquire(true);
    assert_eq!(gate.checkpoint_needed(1, &vec![stamp(1, None, 0)]), Err(RecoveryError::NotWritable));
    assert_eq!(gate.finish_allowed(), Err(RecoveryError::NotWritable));
    gate.after_load(false);
    assert_eq!(gate.checkpoint_needed(1, &vec![stamp(1, None, 0)]), Err(RecoveryError::NotWritable));
    gate.after_load(true);
    assert_eq!(gate.checkpoint_needed(1, &vec![stamp(1, None, 0)]), Ok(true));
    assert_eq!(gate.finish_allowed(), Ok(()));
    let fresh = RecoveryGate::acquire(false);
    assert_eq!(fresh.checkpoint_needed(1, &Vec::new()), Ok(true));
}

#[test]
fn unchanged_ticks_write_nothing() {
    let mut gate = RecoveryGate::acquire(false);
    gate.record_checkpoint(1, vec![stamp(1, None, 0), stamp(2, Some("/w/a.md"), 4)]);
    assert_eq!(gate.checkpoint_needed(1, &vec![stamp(1, None, 0), stamp(2, Some("/w/a.md"), 4)]), Ok(false));
    assert_eq!(gate.checkpoint_needed(2, &vec![stamp(1, None, 0), stamp(2, Some("/w/a.md"), 4)]), Ok(true));
    assert_eq!(gate.checkpoint_needed(1, &vec![stamp(1, None, 0), stamp(2, Some("/w/a.md"), 5)]), Ok(true));
    assert_eq!(gate.checkpoint_needed(1, &vec![stamp(1, None, 0)]), Ok(true));
    gate.finished();
    assert_eq!(gate.checkpoint_needed(1, &vec![stamp(1, None, 0), stamp(2, Some("/w/a.md"), 4)]), Ok(true));
    gate.record_checkpoint(1, vec![stamp(1, None, 0)]);
    gate.after_load(true);
    assert_eq!(gate.checkpoint_needed(1, &vec![stamp(1, None, 0)]), Ok(true));
}

#[test]
fn recovery_directories_are_named_by_sha256_in_lower_hex() {
    assert_eq!(
        workspace_key(b"abc"),
        "ba7816bf8f01cfea414140de5dae2223b00361a396177a9cb410ff61f20015ad"
    );
    assert_eq!(
        workspace_key(b""),
        "e3b0c44298fc1c149afbf4c8996fb92427ae41e4649b934ca495991b7852b855"
    );
    let paths = vec![b"/w/a.md".to_vec(), "/w/é.md".as_bytes().to_vec()];
    let mut hash = Sha256::new();
    for path in &paths {
        hash.update((path.len() as u64).to_le_bytes());
        hash.update(path);
    }
    assert_eq!(explicit_key(&paths), format!("{:x}", hash.finalize()));
    assert_ne!(explicit_key(&paths), workspace_key(b"/w/a.md/w/\xc3\xa9.md"));
    assert_eq!(explicit_key(&Vec::new()), workspace_key(b""));
}
