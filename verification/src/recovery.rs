//! Crash recovery of the open documents: whether a stored snapshot can be
//! restored, which documents come back and from where, what a snapshot
//! stores, and when the snapshot on disk may be replaced.
//!
//! Dirty and never-saved buffers come back from the snapshot; clean saved
//! files come back from disk, and those that can no longer be read are left
//! out. A snapshot that fails to load blocks every write until a later load
//! succeeds, so the only recovery evidence is never replaced by a fresh tab.
//!
//! Each workspace keeps its recovery under a directory named by the SHA-256
//! of its canonical path (or, for a session opened on explicit files, of
//! those files' paths, each framed by its length).
use sha2::{Digest, Sha256};
use vstd::prelude::*;

use crate::document::opt_view;
use crate::text::{chars_equal, chars_vec};

verus! {

/// The snapshot format this library reads and writes.
pub const SNAPSHOT_VERSION: u32 = 1;

/// Why a snapshot is not restored, or not replaced.
#[derive(Clone, Copy, Debug, PartialEq, Eq, Structural)]
pub enum RecoveryError {
    /// The snapshot has another format version.
    UnsupportedVersion(u32),
    /// A stored path uses a different operating system's paths.
    ForeignPath,
    /// The snapshot belongs to another workspace.
    WorkspaceMismatch,
    /// A stored document path is not absolute.
    RelativePath,
    /// A stored document has neither a file nor contents.
    NoFileOrContents,
    /// The snapshot must load successfully before it can be replaced.
    NotWritable,
}

/// A stored path as read back on this system.
#[derive(Clone, Copy, Debug, PartialEq, Eq, Structural)]
pub enum StoredPathCheck {
    /// No path was stored (an untitled document).
    Absent,
    /// The path was written on another operating system.
    Foreign,
    /// A native path that is not absolute.
    Relative,
    /// A native absolute path.
    Absolute,
}

/// The stored workspace identity compared with the workspace being opened.
#[derive(Clone, Copy, Debug, PartialEq, Eq, Structural)]
pub enum WorkspaceCheck {
    Foreign,
    Other,
    Same,
}

/// What decides whether one stored document is acceptable.
#[derive(Clone, Copy, Debug, PartialEq, Eq, Structural)]
pub struct StoredCheck {
    pub path: StoredPathCheck,
    pub has_contents: bool,
}

/// The error one stored document raises, if any.
pub open spec fn entry_error(e: StoredCheck) -> Option<RecoveryError> {
    match e.path {
        StoredPathCheck::Foreign => Some(RecoveryError::ForeignPath),
        StoredPathCheck::Relative => Some(RecoveryError::RelativePath),
        StoredPathCheck::Absent => if e.has_contents {
            None
        } else {
            Some(RecoveryError::NoFileOrContents)
        },
        StoredPathCheck::Absolute => None,
    }
}

/// The error of the first stored document that raises one.
pub open spec fn first_entry_error(es: Seq<StoredCheck>) -> Option<RecoveryError>
    decreases es.len(),
{
    if es.len() == 0 {
        None
    } else {
        match first_entry_error(es.drop_last()) {
            Some(e) => Some(e),
            None => entry_error(es.last()),
        }
    }
}

proof fn lemma_first_error_extends(es: Seq<StoredCheck>, n: int)
    requires
        0 <= n <= es.len(),
        first_entry_error(es.take(n)) is Some,
    ensures
        first_entry_error(es) == first_entry_error(es.take(n)),
    decreases es.len() - n,
{
    if n < es.len() {
        assert(es.take(n + 1).drop_last() =~= es.take(n));
        lemma_first_error_extends(es, n + 1);
    } else {
        assert(es.take(n) =~= es);
    }
}

/// Whether a snapshot may be restored: its version, then the workspace it
/// belongs to, then each stored document in order.
pub open spec fn spec_check_snapshot(version: u32, workspace: WorkspaceCheck, es: Seq<StoredCheck>) -> Result<
    (),
    RecoveryError,
> {
    if version != SNAPSHOT_VERSION {
        Err(RecoveryError::UnsupportedVersion(version))
    } else if workspace == WorkspaceCheck::Foreign {
        Err(RecoveryError::ForeignPath)
    } else if workspace == WorkspaceCheck::Other {
        Err(RecoveryError::WorkspaceMismatch)
    } else {
        match first_entry_error(es) {
            Some(e) => Err(e),
            None => Ok(()),
        }
    }
}

pub fn check_snapshot(version: u32, workspace: WorkspaceCheck, entries: &Vec<StoredCheck>) -> (r: Result<(), RecoveryError>)
    ensures
        r == spec_check_snapshot(version, workspace, entries@),
{
    if version != SNAPSHOT_VERSION {
        return Err(RecoveryError::UnsupportedVersion(version));
    }
    match workspace {
        WorkspaceCheck::Foreign => return Err(RecoveryError::ForeignPath),
        WorkspaceCheck::Other => return Err(RecoveryError::WorkspaceMismatch),
        WorkspaceCheck::Same => {},
    }
    let mut i: usize = 0;
    while i < entries.len()
        invariant
            i <= entries@.len(),
            first_entry_error(entries@.take(i as int)) is None,
            version == SNAPSHOT_VERSION,
            workspace == WorkspaceCheck::Same,
        decreases entries.len() - i,
    {
        assert(entries@.take(i + 1).drop_last() =~= entries@.take(i as int));
        let e = entries[i];
        let error = match e.path {
            StoredPathCheck::Foreign => Some(RecoveryError::ForeignPath),
            StoredPathCheck::Relative => Some(RecoveryError::RelativePath),
            StoredPathCheck::Absent => if e.has_contents {
                None
            } else {
                Some(RecoveryError::NoFileOrContents)
            },
            StoredPathCheck::Absolute => None,
        };
        if let Some(found) = error {
            assert(entries@.take(i + 1).last() == e);
            assert(first_entry_error(entries@.take(i + 1)) == Some(found));
            proof {
                lemma_first_error_extends(entries@, i + 1);
            }
            assert(first_entry_error(entries@) == Some(found));
            return Err(found);
        }
        i += 1;
    }
    assert(entries@.take(entries@.len() as int) =~= entries@);
    Ok(())
}

/// A stored document after its file, if it needed one, was read again:
/// its canonical path, whether it has unsaved changes, how many lines it
/// holds, and the stored top row of its viewport.
pub struct LoadedEntry {
    pub path: Option<String>,
    pub dirty: bool,
    pub line_count: usize,
    pub top: usize,
}

pub struct LoadedView {
    pub path: Option<Seq<char>>,
    pub dirty: bool,
    pub line_count: nat,
    pub top: nat,
}

impl View for LoadedEntry {
    type V = LoadedView;

    open spec fn view(&self) -> LoadedView {
        LoadedView {
            path: opt_view(self.path),
            dirty: self.dirty,
            line_count: self.line_count as nat,
            top: self.top as nat,
        }
    }
}

pub open spec fn loaded_views(v: Seq<Option<LoadedEntry>>) -> Seq<Option<LoadedView>> {
    v.map_values(
        |o: Option<LoadedEntry>|
            match o {
                Some(e) => Some(e@),
                None => None,
            },
    )
}

/// A document that comes back: its place in the snapshot, its identity, the
/// top row of its viewport, and whether that row is the stored one (if it
/// was clamped, the stored scroll offset no longer applies).
#[derive(Clone, Copy, Debug, PartialEq, Eq, Structural)]
pub struct Restored {
    pub index: usize,
    pub id: u64,
    pub top: usize,
    pub top_kept: bool,
}

pub struct RestorePlan {
    pub kept: Vec<Restored>,
    pub active: usize,
}

pub struct RestoreView {
    pub kept: Seq<Restored>,
    pub paths: Seq<Option<Seq<char>>>,
    pub active: nat,
}

/// The document at `index` restored: identity `index + 1`, its viewport top
/// clamped to its last line.
pub open spec fn restored_at(index: int, e: LoadedView) -> Restored {
    Restored {
        index: index as usize,
        id: (index + 1) as u64,
        top: if e.top + 1 <= e.line_count {
            e.top as usize
        } else {
            (e.line_count - 1) as usize
        },
        top_kept: e.top + 1 <= e.line_count,
    }
}

/// A clean document whose file an earlier restored document already holds:
/// symlinks may have made two clean tabs aliases. Dirty copies are all kept.
pub open spec fn is_alias(paths: Seq<Option<Seq<char>>>, e: LoadedView) -> bool {
    !e.dirty && e.path is Some && paths.contains(e.path)
}

/// Which documents come back, in order, and which of them is active: the
/// last one restored at or before the stored active position (else the first).
pub open spec fn restore(loaded: Seq<Option<LoadedView>>, snapshot_active: nat) -> RestoreView
    decreases loaded.len(),
{
    if loaded.len() == 0 {
        RestoreView { kept: Seq::empty(), paths: Seq::empty(), active: 0 }
    } else {
        let r = restore(loaded.drop_last(), snapshot_active);
        let i = loaded.len() - 1;
        match loaded.last() {
            None => r,
            Some(e) => if is_alias(r.paths, e) {
                r
            } else {
                RestoreView {
                    kept: r.kept.push(restored_at(i, e)),
                    paths: r.paths.push(e.path),
                    active: if i <= snapshot_active {
                        r.kept.len()
                    } else {
                        r.active
                    },
                }
            },
        }
    }
}

/// Every document that `restore` keeps holds at least one line.
pub open spec fn has_lines(loaded: Seq<Option<LoadedView>>) -> bool {
    forall|i: int| 0 <= i < loaded.len() ==> (#[trigger] loaded[i] matches Some(e) ==> e.line_count >= 1)
}

/// The shape of a restore: kept and paths line up, indices strictly
/// increase and name loaded documents, identities are the indices plus one,
/// and the active position names a kept document whenever one is kept.
pub open spec fn restore_shape(loaded: Seq<Option<LoadedView>>, r: RestoreView) -> bool {
    &&& r.kept.len() == r.paths.len()
    &&& (r.kept.len() > 0 ==> r.active < r.kept.len())
    &&& (r.kept.len() == 0 ==> r.active == 0)
    &&& forall|k: int| 0 <= k < r.kept.len() ==> {
        let x = #[trigger] r.kept[k];
        &&& 0 <= x.index < loaded.len()
        &&& x.id == x.index + 1
        &&& loaded[x.index as int] is Some
        &&& r.paths[k] == loaded[x.index as int]->0.path
        &&& r.kept[k] == restored_at(x.index as int, loaded[x.index as int]->0)
    }
    &&& forall|k: int, l: int| 0 <= k < l < r.kept.len() ==> #[trigger] r.kept[k].index < #[trigger] r.kept[l].index
}

proof fn lemma_restore_shape(loaded: Seq<Option<LoadedView>>, snapshot_active: nat)
    requires
        loaded.len() <= usize::MAX,
    ensures
        restore_shape(loaded, restore(loaded, snapshot_active)),
    decreases loaded.len(),
{
    if loaded.len() > 0 {
        let prefix = loaded.drop_last();
        lemma_restore_shape(prefix, snapshot_active);
        let r = restore(prefix, snapshot_active);
        let i = loaded.len() - 1;
        assert forall|k: int| 0 <= k < r.kept.len() implies #[trigger] r.kept[k].index < i by {
            assert(r.kept[k].index < prefix.len());
        }
        assert forall|k: int| 0 <= k < r.kept.len() implies loaded[#[trigger] r.kept[k].index as int]
            == prefix[r.kept[k].index as int] by {
            assert(r.kept[k].index < prefix.len());
        }
    }
}

/// Whether the two paths are the same (both absent, or equal text).
fn same_path(a: &Option<String>, b: &Option<String>) -> (r: bool)
    ensures
        r == (opt_view(*a) == opt_view(*b)),
{
    match (a, b) {
        (None, None) => true,
        (Some(x), Some(y)) => {
            let xs = chars_vec(x.as_str());
            let ys = chars_vec(y.as_str());
            chars_equal(xs.as_slice(), ys.as_slice())
        },
        _ => false,
    }
}

fn clone_path(p: &Option<String>) -> (r: Option<String>)
    ensures
        opt_view(r) == opt_view(*p),
{
    match p {
        None => None,
        Some(s) => Some(String::from_str(s.as_str())),
    }
}

/// The documents to restore from `loaded` (one per stored document, `None`
/// where its file could not be read again) and which one is active.
pub fn restore_plan(loaded: &Vec<Option<LoadedEntry>>, snapshot_active: usize) -> (r: RestorePlan)
    requires
        has_lines(loaded_views(loaded@)),
    ensures
        r.kept@ == restore(loaded_views(loaded@), snapshot_active as nat).kept,
        r.active == restore(loaded_views(loaded@), snapshot_active as nat).active,
        restore_shape(loaded_views(loaded@), restore(loaded_views(loaded@), snapshot_active as nat)),
{
    let ghost lv = loaded_views(loaded@);
    let mut kept: Vec<Restored> = Vec::new();
    let mut paths: Vec<Option<String>> = Vec::new();
    let mut active: usize = 0;
    let mut i: usize = 0;
    while i < loaded.len()
        invariant
            i <= loaded@.len(),
            lv == loaded_views(loaded@),
            has_lines(lv),
            kept@ == restore(lv.take(i as int), snapshot_active as nat).kept,
            paths@.map_values(|p: Option<String>| opt_view(p)) == restore(
                lv.take(i as int),
                snapshot_active as nat,
            ).paths,
            active == restore(lv.take(i as int), snapshot_active as nat).active,
            restore_shape(lv.take(i as int), restore(lv.take(i as int), snapshot_active as nat)),
        decreases loaded.len() - i,
    {
        let ghost prefix = lv.take(i as int);
        let ghost next = lv.take(i + 1);
        assert(next.drop_last() =~= prefix);
        proof {
            lemma_restore_shape(next, snapshot_active as nat);
        }
        match &loaded[i] {
            None => {},
            Some(e) => {
                let ghost ev = e@;
                assert(lv[i as int] == Some(ev));
                let mut alias = false;
                if !e.dirty && e.path.is_some() {
                    let mut k: usize = 0;
                    while k < paths.len()
                        invariant
                            k <= paths@.len(),
                            e.path is Some,
                            alias == exists|j: int|
                                0 <= j < k && opt_view(#[trigger] paths@[j]) == opt_view(e.path),
                        decreases paths.len() - k,
                    {
                        if same_path(&paths[k], &e.path) {
                            alias = true;
                        }
                        k += 1;
                    }
                    let ghost pv = paths@.map_values(|p: Option<String>| opt_view(p));
                    if alias {
                        let ghost j = choose|j: int| 0 <= j < paths@.len() && opt_view(#[trigger] paths@[j]) == opt_view(e.path);
                        assert(pv[j] == ev.path);
                    } else {
                        assert forall|j: int| 0 <= j < pv.len() implies pv[j] != ev.path by {
                            assert(opt_view(paths@[j]) != opt_view(e.path));
                        }
                    }
                    assert(alias == pv.contains(ev.path));
                }
                if !alias {
                    assert(ev.line_count >= 1) by {
                        assert(lv[i as int] matches Some(x) ==> x.line_count >= 1);
                    }
                    let top = if e.top < e.line_count {
                        e.top
                    } else {
                        e.line_count - 1
                    };
                    if i <= snapshot_active {
                        active = kept.len();
                    }
                    kept.push(Restored { index: i, id: i as u64 + 1, top, top_kept: e.top < e.line_count });
                    let p = clone_path(&e.path);
                    paths.push(p);
                    assert(paths@.map_values(|p: Option<String>| opt_view(p)) =~= restore(
                        prefix,
                        snapshot_active as nat,
                    ).paths.push(ev.path));
                }
            },
        }
        i += 1;
    }
    assert(lv.take(loaded@.len() as int) =~= lv);
    RestorePlan { kept, active }
}

/// A document restored from a snapshot is never dropped while it has
/// unsaved changes, and a document whose file could not be read again is
/// never restored.
pub proof fn law_dirty_documents_come_back(loaded: Seq<Option<LoadedView>>, snapshot_active: nat, i: int)
    requires
        0 <= i < loaded.len(),
        loaded.len() <= usize::MAX,
    ensures
        (loaded[i] matches Some(e) && e.dirty) ==> exists|k: int|
            0 <= k < restore(loaded, snapshot_active).kept.len() && #[trigger] restore(
                loaded,
                snapshot_active,
            ).kept[k].index == i,
        loaded[i] is None ==> forall|k: int|
            0 <= k < restore(loaded, snapshot_active).kept.len() ==> #[trigger] restore(
                loaded,
                snapshot_active,
            ).kept[k].index != i,
    decreases loaded.len(),
{
    lemma_restore_shape(loaded, snapshot_active);
    let prefix = loaded.drop_last();
    let r = restore(prefix, snapshot_active);
    if i < loaded.len() - 1 {
        law_dirty_documents_come_back(prefix, snapshot_active, i);
        lemma_restore_shape(prefix, snapshot_active);
        if loaded[i] matches Some(e) && e.dirty {
            let k = choose|k: int| 0 <= k < r.kept.len() && #[trigger] r.kept[k].index == i;
            assert(restore(loaded, snapshot_active).kept[k] == r.kept[k]);
        }
    } else {
        lemma_restore_shape(prefix, snapshot_active);
        if loaded[i] matches Some(e) && e.dirty {
            let n = r.kept.len() as int;
            assert(restore(loaded, snapshot_active).kept[n].index == i);
        }
    }
}

/// A document of the live workspace, as a snapshot sees it.
#[derive(Clone, Copy, Debug, PartialEq, Eq, Structural)]
pub struct LiveEntry {
    pub id: u64,
    pub dirty: bool,
    pub has_saved_file: bool,
}

/// A document a snapshot stores: its position among the open documents and
/// whether its contents are written (otherwise it is reopened from disk).
#[derive(Clone, Copy, Debug, PartialEq, Eq, Structural)]
pub struct StoredChoice {
    pub index: usize,
    pub with_contents: bool,
}

/// Whether a document's text is stored: on a crash checkpoint, when it has
/// unsaved changes or no saved file; on a clean exit, never.
pub open spec fn stores_contents(e: LiveEntry, clean_exit: bool) -> bool {
    !clean_exit && (e.dirty || !e.has_saved_file)
}

/// Whether a document is stored at all: a clean exit keeps only saved files.
pub open spec fn is_stored(e: LiveEntry, clean_exit: bool) -> bool {
    !(clean_exit && !e.has_saved_file)
}

/// The documents a snapshot stores, in order.
pub open spec fn persisted(entries: Seq<LiveEntry>, clean_exit: bool) -> Seq<StoredChoice>
    decreases entries.len(),
{
    if entries.len() == 0 {
        Seq::empty()
    } else {
        let rest = persisted(entries.drop_last(), clean_exit);
        let e = entries.last();
        if is_stored(e, clean_exit) {
            rest.push(
                StoredChoice {
                    index: (entries.len() - 1) as usize,
                    with_contents: stores_contents(e, clean_exit),
                },
            )
        } else {
            rest
        }
    }
}

/// The stored position of the active document, or 0 if it is not stored.
pub open spec fn persisted_active(entries: Seq<LiveEntry>, active_id: u64, clean_exit: bool) -> nat
    decreases entries.len(),
{
    if entries.len() == 0 {
        0
    } else {
        let e = entries.last();
        if is_stored(e, clean_exit) && e.id == active_id {
            persisted(entries.drop_last(), clean_exit).len()
        } else {
            persisted_active(entries.drop_last(), active_id, clean_exit)
        }
    }
}

pub struct PersistPlan {
    pub stored: Vec<StoredChoice>,
    pub active: usize,
}

/// What a snapshot of `entries` stores, and which stored document is active.
pub fn persist_plan(entries: &Vec<LiveEntry>, active_id: u64, clean_exit: bool) -> (r: PersistPlan)
    ensures
        r.stored@ == persisted(entries@, clean_exit),
        r.active == persisted_active(entries@, active_id, clean_exit),
{
    let mut stored: Vec<StoredChoice> = Vec::new();
    let mut active: usize = 0;
    let mut i: usize = 0;
    while i < entries.len()
        invariant
            i <= entries@.len(),
            stored@ == persisted(entries@.take(i as int), clean_exit),
            active == persisted_active(entries@.take(i as int), active_id, clean_exit),
            stored@.len() <= i,
        decreases entries.len() - i,
    {
        assert(entries@.take(i + 1).drop_last() =~= entries@.take(i as int));
        let e = entries[i];
        if !(clean_exit && !e.has_saved_file) {
            if e.id == active_id {
                active = stored.len();
            }
            stored.push(StoredChoice { index: i, with_contents: !clean_exit && (e.dirty || !e.has_saved_file) });
        }
        i += 1;
    }
    assert(entries@.take(entries@.len() as int) =~= entries@);
    PersistPlan { stored, active }
}

proof fn lemma_persisted(entries: Seq<LiveEntry>, clean_exit: bool)
    requires
        entries.len() <= usize::MAX,
    ensures
        forall|k: int| 0 <= k < persisted(entries, clean_exit).len() ==> {
            let c = #[trigger] persisted(entries, clean_exit)[k];
            &&& 0 <= c.index < entries.len()
            &&& is_stored(entries[c.index as int], clean_exit)
            &&& c.with_contents == stores_contents(entries[c.index as int], clean_exit)
        },
        !clean_exit ==> persisted(entries, clean_exit).len() == entries.len(),
        !clean_exit ==> forall|k: int|
            0 <= k < entries.len() ==> (#[trigger] persisted(entries, clean_exit)[k]).index == k,
    decreases entries.len(),
{
    if entries.len() > 0 {
        let prefix = entries.drop_last();
        lemma_persisted(prefix, clean_exit);
        let rest = persisted(prefix, clean_exit);
        let all = persisted(entries, clean_exit);
        let n = entries.len() - 1;
        assert forall|k: int| 0 <= k < all.len() implies {
            let c = #[trigger] all[k];
            &&& 0 <= c.index < entries.len()
            &&& is_stored(entries[c.index as int], clean_exit)
            &&& c.with_contents == stores_contents(entries[c.index as int], clean_exit)
        } by {
            if k < rest.len() {
                assert(all[k] == rest[k]);
                assert(entries[rest[k].index as int] == prefix[rest[k].index as int]);
            } else {
                assert(all[k].index == n);
            }
        }
        if !clean_exit {
            assert forall|k: int| 0 <= k < entries.len() implies (#[trigger] all[k]).index == k by {
                if k < rest.len() {
                    assert(all[k] == rest[k]);
                }
            }
        }
    }
}

/// A clean exit never writes a buffer's text, and keeps only documents with
/// a saved file; a crash checkpoint keeps every document, with the text of
/// each one that has unsaved changes or was never saved.
pub proof fn law_snapshot_contents(entries: Seq<LiveEntry>, clean_exit: bool, k: int)
    requires
        entries.len() <= usize::MAX,
    ensures
        0 <= k < persisted(entries, clean_exit).len() && clean_exit ==> {
            let c = persisted(entries, clean_exit)[k];
            !c.with_contents && entries[c.index as int].has_saved_file
        },
        0 <= k < entries.len() && !clean_exit ==> {
            let c = persisted(entries, clean_exit)[k];
            c.index == k && c.with_contents == (entries[k].dirty || !entries[k].has_saved_file)
        },
{
    lemma_persisted(entries, clean_exit);
    if 0 <= k < persisted(entries, clean_exit).len() {
        let c = persisted(entries, clean_exit)[k];
        assert(is_stored(entries[c.index as int], clean_exit));
    }
}

/// What a checkpoint remembers of one document, to tell whether anything
/// changed since: its identity, its change token, its path, its cursor and
/// its viewport (the scroll offset by its bits).
pub struct DocumentStamp {
    pub id: u64,
    pub token: (u64, u64),
    pub path: Option<String>,
    pub row: usize,
    pub col: usize,
    pub top: usize,
    pub offset_bits: u32,
}

pub struct StampView {
    pub id: u64,
    pub token: (u64, u64),
    pub path: Option<Seq<char>>,
    pub row: usize,
    pub col: usize,
    pub top: usize,
    pub offset_bits: u32,
}

impl View for DocumentStamp {
    type V = StampView;

    open spec fn view(&self) -> StampView {
        StampView {
            id: self.id,
            token: self.token,
            path: opt_view(self.path),
            row: self.row,
            col: self.col,
            top: self.top,
            offset_bits: self.offset_bits,
        }
    }
}

pub open spec fn stamp_views(v: Seq<DocumentStamp>) -> Seq<StampView> {
    v.map_values(|s: DocumentStamp| s@)
}

impl DocumentStamp {
    /// Whether the two stamps record the same state.
    pub fn matches(&self, other: &DocumentStamp) -> (r: bool)
        ensures
            r == (self@ == other@),
    {
        self.id == other.id && self.token.0 == other.token.0 && self.token.1 == other.token.1
            && same_path(&self.path, &other.path) && self.row == other.row && self.col == other.col
            && self.top == other.top && self.offset_bits == other.offset_bits
    }
}

/// The state of the workspace when the snapshot was last written.
pub struct Checkpoint {
    pub active: u64,
    pub documents: Vec<DocumentStamp>,
}

pub struct CheckpointView {
    pub active: u64,
    pub documents: Seq<StampView>,
}

impl View for Checkpoint {
    type V = CheckpointView;

    open spec fn view(&self) -> CheckpointView {
        CheckpointView { active: self.active, documents: stamp_views(self.documents@) }
    }
}

/// Whether and how the snapshot on disk may be replaced: not before a
/// snapshot that was found has loaded successfully, and not again for a
/// workspace that has not changed since the last checkpoint.
pub struct RecoveryGate {
    pub writable: bool,
    pub checkpoint: Option<Checkpoint>,
}

pub struct GateView {
    pub writable: bool,
    pub checkpoint: Option<CheckpointView>,
}

impl View for RecoveryGate {
    type V = GateView;

    open spec fn view(&self) -> GateView {
        GateView {
            writable: self.writable,
            checkpoint: match self.checkpoint {
                Some(c) => Some(c@),
                None => None,
            },
        }
    }
}

/// Whether a checkpoint of `active` and `stamps` must write the snapshot.
pub open spec fn spec_checkpoint_needed(g: GateView, active: u64, stamps: Seq<StampView>) -> Result<
    bool,
    RecoveryError,
> {
    if !g.writable {
        Err(RecoveryError::NotWritable)
    } else {
        match g.checkpoint {
            Some(c) => Ok(!(c.active == active && c.documents == stamps)),
            None => Ok(true),
        }
    }
}

/// The state after loading the snapshot: it may be replaced exactly when
/// loading succeeded, and no checkpoint is remembered.
pub open spec fn spec_after_load(succeeded: bool) -> GateView {
    GateView { writable: succeeded, checkpoint: None }
}

impl RecoveryGate {
    /// A gate for a workspace whose snapshot file exists or not: an existing
    /// snapshot must be loaded before anything replaces it.
    pub fn acquire(snapshot_exists: bool) -> (g: RecoveryGate)
        ensures
            g@ == (GateView { writable: !snapshot_exists, checkpoint: None }),
    {
        RecoveryGate { writable: !snapshot_exists, checkpoint: None }
    }

    /// Record the outcome of loading the snapshot.
    pub fn after_load(&mut self, succeeded: bool)
        ensures
            final(self)@ == spec_after_load(succeeded),
    {
        self.writable = succeeded;
        self.checkpoint = None;
    }

    /// Whether a checkpoint must write: refused until a load succeeded, and
    /// skipped when nothing changed since the last one written.
    pub fn checkpoint_needed(&self, active: u64, stamps: &Vec<DocumentStamp>) -> (r: Result<bool, RecoveryError>)
        ensures
            r == spec_checkpoint_needed(self@, active, stamp_views(stamps@)),
    {
        if !self.writable {
            return Err(RecoveryError::NotWritable);
        }
        match &self.checkpoint {
            None => Ok(true),
            Some(c) => {
                assert(self@.checkpoint == Some(c@));
                assert(stamp_views(c.documents@).len() == c.documents@.len());
                assert(stamp_views(stamps@).len() == stamps@.len());
                if c.active != active || c.documents.len() != stamps.len() {
                    return Ok(true);
                }
                let mut i: usize = 0;
                while i < stamps.len()
                    invariant
                        i <= stamps@.len(),
                        c.documents@.len() == stamps@.len(),
                        self@.checkpoint == Some(c@),
                        self@.writable,
                        c.active == active,
                        forall|j: int| 0 <= j < i ==> #[trigger] c.documents@[j]@ == stamps@[j]@,
                    decreases stamps.len() - i,
                {
                    if !c.documents[i].matches(&stamps[i]) {
                        assert(stamp_views(c.documents@)[i as int] != stamp_views(stamps@)[i as int]);
                        return Ok(true);
                    }
                    i += 1;
                }
                assert(stamp_views(c.documents@) =~= stamp_views(stamps@));
                Ok(false)
            },
        }
    }

    /// Remember the state a checkpoint has just written.
    pub fn record_checkpoint(&mut self, active: u64, stamps: Vec<DocumentStamp>)
        ensures
            final(self)@ == (GateView {
                writable: old(self)@.writable,
                checkpoint: Some(CheckpointView { active, documents: stamp_views(stamps@) }),
            }),
    {
        self.checkpoint = Some(Checkpoint { active, documents: stamps });
    }

    /// Whether the final snapshot of a clean exit may be written.
    pub fn finish_allowed(&self) -> (r: Result<(), RecoveryError>)
        ensures
            r == (if self@.writable {
                Ok::<(), RecoveryError>(())
            } else {
                Err(RecoveryError::NotWritable)
            }),
    {
        if self.writable {
            Ok(())
        } else {
            Err(RecoveryError::NotWritable)
        }
    }

    /// Forget the checkpoint once the final snapshot is written.
    pub fn finished(&mut self)
        ensures
            final(self)@ == (GateView { writable: old(self)@.writable, checkpoint: None }),
    {
        self.checkpoint = None;
    }
}

/// A snapshot that fails to load blocks every later checkpoint until a load
/// succeeds; a successful load allows the next checkpoint to write.
pub proof fn law_failed_load_blocks_writes(active: u64, stamps: Seq<StampView>)
    ensures
        spec_checkpoint_needed(spec_after_load(false), active, stamps) == Err::<bool, RecoveryError>(
            RecoveryError::NotWritable,
        ),
        spec_checkpoint_needed(spec_after_load(true), active, stamps) == Ok::<bool, RecoveryError>(true),
{
}

/// Right after a checkpoint is written, a checkpoint of the same state
/// writes nothing, while any change in the active document or in a stamp
/// writes again.
pub proof fn law_unchanged_checkpoint_is_skipped(
    writable: bool,
    active: u64,
    stamps: Seq<StampView>,
    active2: u64,
    stamps2: Seq<StampView>,
)
    requires
        writable,
    ensures
        ({
            let g = GateView {
                writable,
                checkpoint: Some(CheckpointView { active, documents: stamps }),
            };
            &&& spec_checkpoint_needed(g, active, stamps) == Ok::<bool, RecoveryError>(false)
            &&& (active2 != active || stamps2 != stamps) ==> spec_checkpoint_needed(g, active2, stamps2)
                == Ok::<bool, RecoveryError>(true)
        }),
{
}

/// The SHA-256 digest of `data` (FIPS 180-4).
pub uninterp spec fn sha256(data: Seq<u8>) -> Seq<u8>;

/// `sha2::Sha256::digest`: the SHA-256 of the bytes, which is 32 bytes long.
#[verifier::external_body]
fn sha256_digest(data: &[u8]) -> (r: Vec<u8>)
    ensures
        r@ == sha256(data@),
        r@.len() == 32,
{
    Sha256::digest(data).to_vec()
}

pub open spec fn hex_digit(d: int) -> char {
    if d < 10 {
        (d + 48) as char
    } else {
        (d - 10 + 97) as char
    }
}

/// Bytes in lowercase hexadecimal, two digits each.
pub open spec fn lower_hex(bytes: Seq<u8>) -> Seq<char>
    decreases bytes.len(),
{
    if bytes.len() == 0 {
        Seq::empty()
    } else {
        lower_hex(bytes.drop_last()) + seq![
            hex_digit(bytes.last() as int / 16),
            hex_digit(bytes.last() as int % 16),
        ]
    }
}

fn hex_digit_exec(d: u8) -> (c: char)
    requires
        d < 16,
    ensures
        c == hex_digit(d as int),
{
    if d < 10 {
        (d + 48) as char
    } else {
        (d - 10 + 97) as char
    }
}

fn lower_hex_exec(bytes: &Vec<u8>) -> (r: String)
    ensures
        r@ == lower_hex(bytes@),
{
    let mut r = String::new();
    let mut i: usize = 0;
    while i < bytes.len()
        invariant
            i <= bytes@.len(),
            r@ == lower_hex(bytes@.take(i as int)),
        decreases bytes.len() - i,
    {
        assert(bytes@.take(i + 1).drop_last() =~= bytes@.take(i as int));
        crate::text::push_char(&mut r, hex_digit_exec(bytes[i] / 16));
        crate::text::push_char(&mut r, hex_digit_exec(bytes[i] % 16));
        assert(r@ =~= lower_hex(bytes@.take(i + 1)));
        i += 1;
    }
    assert(bytes@.take(bytes@.len() as int) =~= bytes@);
    r
}

/// `n` as `k` little-endian bytes.
pub open spec fn le_bytes(n: nat, k: nat) -> Seq<u8>
    decreases k,
{
    if k == 0 {
        Seq::empty()
    } else {
        seq![(n % 256) as u8] + le_bytes(n / 256, (k - 1) as nat)
    }
}

fn push_le_u64(out: &mut Vec<u8>, n: u64)
    ensures
        final(out)@ == old(out)@ + le_bytes(n as nat, 8),
{
    let mut rest = n;
    let mut i: usize = 0;
    while i < 8
        invariant
            i <= 8,
            old(out)@ + le_bytes(n as nat, 8) == out@ + le_bytes(rest as nat, (8 - i) as nat),
        decreases 8 - i,
    {
        out.push((rest % 256) as u8);
        assert(le_bytes(rest as nat, (8 - i) as nat) =~= seq![(rest % 256) as u8] + le_bytes(
            (rest / 256) as nat,
            (8 - i - 1) as nat,
        ));
        rest = rest / 256;
        i += 1;
    }
    assert(le_bytes(rest as nat, 0) =~= Seq::<u8>::empty());
}

/// The bytes hashed for a session opened on explicit files: each path's
/// length as eight little-endian bytes, then the path.
pub open spec fn framed_paths(paths: Seq<Seq<u8>>) -> Seq<u8>
    decreases paths.len(),
{
    if paths.len() == 0 {
        Seq::empty()
    } else {
        framed_paths(paths.drop_last()) + le_bytes(paths.last().len(), 8) + paths.last()
    }
}

/// The recovery directory name of a workspace: the SHA-256 of its
/// canonical path's bytes, in lowercase hex.
pub fn workspace_key(path: &[u8]) -> (r: String)
    ensures
        r@ == lower_hex(sha256(path@)),
{
    let digest = sha256_digest(path);
    lower_hex_exec(&digest)
}

/// The recovery directory name of a session opened on explicit files: the
/// SHA-256 of their framed paths, in order, in lowercase hex.
pub fn explicit_key(paths: &Vec<Vec<u8>>) -> (r: String)
    ensures
        r@ == lower_hex(sha256(framed_paths(paths@.map_values(|p: Vec<u8>| p@)))),
{
    let ghost views = paths@.map_values(|p: Vec<u8>| p@);
    let mut framed: Vec<u8> = Vec::new();
    let mut i: usize = 0;
    while i < paths.len()
        invariant
            i <= paths@.len(),
            views == paths@.map_values(|p: Vec<u8>| p@),
            framed@ == framed_paths(views.take(i as int)),
        decreases paths.len() - i,
    {
        assert(views.take(i + 1).drop_last() =~= views.take(i as int));
        let path = &paths[i];
        push_le_u64(&mut framed, path.len() as u64);
        crate::text::append_bytes(&mut framed, path.as_slice());
        assert(framed@ =~= framed_paths(views.take(i + 1)));
        i += 1;
    }
    assert(views.take(views.len() as int) =~= views);
    let digest = sha256_digest(framed.as_slice());
    lower_hex_exec(&digest)
}

} // verus!
