//! The open documents of a workspace: one buffer per document, each with a
//! stable identity and its own viewport, and one of them active.
use vstd::prelude::*;

use crate::document::{opt_view, reconciled, Document};
use crate::explorer::CommitReport;

verus! {

/// An open document, its identity and where its view stands. The viewport is
/// the renderer's own value, carried along unread.
pub struct OpenDocument<V> {
    pub id: u64,
    pub document: Document,
    pub viewport: V,
}

/// Why a request on the open documents is refused.
#[derive(Clone, Copy, Debug, PartialEq, Eq, Structural)]
pub enum DocumentsError {
    /// No such buffer.
    NoSuchBuffer,
    /// The buffer has unsaved changes and the request was not forced.
    UnsavedChanges,
    /// An untitled document has no file to reload or save to.
    Untitled,
    /// The file is already open in another buffer.
    OpenElsewhere,
}

/// The index after `a` among `n` documents, wrapping around.
pub open spec fn next_index(a: int, n: int) -> int {
    if a + 1 < n {
        a + 1
    } else {
        0
    }
}

/// The index before `a` among `n` documents, wrapping around.
pub open spec fn previous_index(a: int, n: int) -> int {
    if a == 0 {
        n - 1
    } else {
        a - 1
    }
}

/// Switching to the next document and back (or back and then forward)
/// returns to the same document.
pub proof fn law_next_previous_inverse(a: int, n: int)
    requires
        0 <= a < n,
    ensures
        previous_index(next_index(a, n), n) == a,
        next_index(previous_index(a, n), n) == a,
{
}

pub struct Documents<V> {
    pub entries: Vec<OpenDocument<V>>,
    pub active: usize,
    pub next_id: u64,
}

impl<V> Documents<V> {
    pub open spec fn ids(&self) -> Seq<u64> {
        self.entries@.map_values(|e: OpenDocument<V>| e.id)
    }

    pub open spec fn next_fresh(&self) -> u64 {
        self.next_id
    }

    pub open spec fn docs(&self) -> Seq<Document> {
        self.entries@.map_values(|e: OpenDocument<V>| e.document)
    }

    pub open spec fn spec_active_id(&self) -> u64 {
        self.entries@[self.active as int].id
    }

    pub open spec fn spec_current(&self) -> Document {
        self.entries@[self.active as int].document
    }

    /// At least one document is open, one of them active; identities are
    /// distinct and below the next one to be handed out.
    pub open spec fn wf(&self) -> bool {
        &&& self.entries@.len() >= 1
        &&& self.active < self.entries@.len()
        &&& forall|i: int, j: int|
            0 <= i < j < self.entries@.len() ==> #[trigger] self.entries@[i].id
                != #[trigger] self.entries@[j].id
        &&& forall|i: int| 0 <= i < self.entries@.len() ==> #[trigger] self.entries@[i].id < self.next_id
    }

    /// The index of the document with identity `id`.
    pub open spec fn index_of(&self, id: u64) -> Option<int> {
        if exists|i: int| 0 <= i < self.entries@.len() && self.entries@[i].id == id {
            Some(choose|i: int| 0 <= i < self.entries@.len() && self.entries@[i].id == id)
        } else {
            None
        }
    }

    pub fn new(document: Document, viewport: V) -> (d: Documents<V>)
        ensures
            d.wf(),
            d.entries@.len() == 1,
            d.spec_active_id() == 1,
            d.spec_current() == document,
            d.next_fresh() == 2,
    {
        let mut entries = Vec::new();
        entries.push(OpenDocument { id: 1, document, viewport });
        Documents { entries, active: 0, next_id: 2 }
    }

    /// The documents a recovery snapshot brought back, `active` among them,
    /// or `None` when none came back. Identities continue after the last one.
    pub fn from_recovery(entries: Vec<OpenDocument<V>>, active: usize) -> (r: Option<Documents<V>>)
        requires
            entries@.len() > 0 ==> active < entries@.len(),
            forall|i: int, j: int|
                0 <= i < j < entries@.len() ==> #[trigger] entries@[i].id < #[trigger] entries@[j].id,
            forall|i: int| 0 <= i < entries@.len() ==> #[trigger] entries@[i].id < u64::MAX,
        ensures
            r is None <==> entries@.len() == 0,
            r matches Some(d) ==> {
                &&& d.wf()
                &&& d.entries@ == entries@
                &&& d.active == active
                &&& d.next_fresh() == entries@.last().id + 1
            },
    {
        let n = entries.len();
        if n == 0 {
            return None;
        }
        let next_id = entries[n - 1].id + 1;
        assert forall|i: int| 0 <= i < entries@.len() implies #[trigger] entries@[i].id < next_id by {
            if i < n - 1 {
                assert(entries@[i].id < entries@[n - 1].id);
            }
        }
        Some(Documents { entries, active, next_id })
    }

    pub fn current(&self) -> (r: &Document)
        requires
            self.wf(),
        ensures
            *r == self.spec_current(),
    {
        &self.entries[self.active].document
    }

    pub fn current_mut(&mut self) -> (r: &mut Document)
        requires
            old(self).wf(),
        ensures
            *r == old(self).spec_current(),
            final(self).entries@ == old(self).entries@.update(
                old(self).active as int,
                OpenDocument { document: *final(r), ..old(self).entries@[old(self).active as int] },
            ),
            final(self).active == old(self).active,
            final(self).next_id == old(self).next_id,
    {
        &mut self.entries[self.active].document
    }

    pub fn active_id(&self) -> (r: u64)
        requires
            self.wf(),
        ensures
            r == self.spec_active_id(),
    {
        self.entries[self.active].id
    }

    pub fn entries(&self) -> (r: &Vec<OpenDocument<V>>)
        ensures
            r@ == self.entries@,
    {
        &self.entries
    }

    pub fn viewport(&self) -> (r: &V)
        requires
            self.wf(),
        ensures
            *r == self.entries@[self.active as int].viewport,
    {
        &self.entries[self.active].viewport
    }

    pub fn viewport_mut(&mut self) -> (r: &mut V)
        requires
            old(self).wf(),
        ensures
            *r == old(self).entries@[old(self).active as int].viewport,
            final(self).entries@ == old(self).entries@.update(
                old(self).active as int,
                OpenDocument { viewport: *final(r), ..old(self).entries@[old(self).active as int] },
            ),
            final(self).active == old(self).active,
            final(self).next_id == old(self).next_id,
    {
        &mut self.entries[self.active].viewport
    }

    fn position(&self, id: u64) -> (r: Option<usize>)
        requires
            self.wf(),
        ensures
            match r {
                Some(i) => i < self.entries@.len() && self.entries@[i as int].id == id,
                None => forall|i: int| 0 <= i < self.entries@.len() ==> #[trigger] self.entries@[i].id != id,
            },
    {
        let mut i: usize = 0;
        while i < self.entries.len()
            invariant
                i <= self.entries@.len(),
                forall|k: int| 0 <= k < i ==> #[trigger] self.entries@[k].id != id,
            decreases self.entries.len() - i,
        {
            if self.entries[i].id == id {
                return Some(i);
            }
            i += 1;
        }
        None
    }

    /// Activate the document with identity `id`.
    pub fn select(&mut self, id: u64) -> (r: Result<(), DocumentsError>)
        requires
            old(self).wf(),
        ensures
            final(self).wf(),
            final(self).entries == old(self).entries,
            final(self).next_id == old(self).next_id,
            r is Ok <==> old(self).ids().contains(id),
            r is Ok ==> final(self).spec_active_id() == id,
            r is Err ==> final(self).active == old(self).active && r == Err::<(), _>(
                DocumentsError::NoSuchBuffer,
            ),
    {
        match self.position(id) {
            Some(i) => {
                self.active = i;
                assert(self.ids()[i as int] == id);
                Ok(())
            },
            None => {
                assert(!self.ids().contains(id)) by {
                    if self.ids().contains(id) {
                        let k = choose|k: int| 0 <= k < self.ids().len() && self.ids()[k] == id;
                        assert(self.entries@[k].id == id);
                    }
                }
                Err(DocumentsError::NoSuchBuffer)
            },
        }
    }

    /// The document with identity `id`, if open.
    pub fn get(&self, id: u64) -> (r: Option<&Document>)
        requires
            self.wf(),
        ensures
            r is Some <==> self.ids().contains(id),
            match r {
                Some(d) => exists|i: int|
                    0 <= i < self.entries@.len() && self.entries@[i].id == id && *d
                        == self.entries@[i].document,
                None => true,
            },
    {
        match self.position(id) {
            Some(i) => {
                assert(self.ids()[i as int] == id);
                Some(&self.entries[i].document)
            },
            None => {
                assert(!self.ids().contains(id)) by {
                    if self.ids().contains(id) {
                        let k = choose|k: int| 0 <= k < self.ids().len() && self.ids()[k] == id;
                        assert(self.entries@[k].id == id);
                    }
                }
                None
            },
        }
    }

    fn fresh_entry(&mut self, document: Document, viewport: V) -> (e: OpenDocument<V>)
        requires
            old(self).next_id < u64::MAX,
        ensures
            e.id == old(self).next_id,
            e.document == document,
            e.viewport == viewport,
            final(self).next_id == old(self).next_id + 1,
            final(self).entries == old(self).entries,
            final(self).active == old(self).active,
    {
        let id = self.next_id;
        self.next_id = self.next_id + 1;
        OpenDocument { id, document, viewport }
    }

    /// Open `document` as a new buffer with a fresh identity and activate it.
    pub fn push_document(&mut self, document: Document, viewport: V)
        requires
            old(self).wf(),
            old(self).next_id < u64::MAX,
        ensures
            final(self).wf(),
            final(self).ids() == old(self).ids().push(old(self).next_id),
            final(self).docs() == old(self).docs().push(document),
            final(self).active == old(self).entries@.len(),
            final(self).next_id == old(self).next_id + 1,
            forall|i: int|
                0 <= i < old(self).entries@.len() ==> #[trigger] final(self).entries@[i] == old(self).entries@[i],
    {
        let e = self.fresh_entry(document, viewport);
        self.entries.push(e);
        self.active = self.entries.len() - 1;
        proof {
            assert(self.ids() =~= old(self).ids().push(old(self).next_id));
            assert(self.docs() =~= old(self).docs().push(document));
        }
    }

    /// Open an empty untitled document and activate it.
    pub fn new_document(&mut self, viewport: V)
        requires
            old(self).wf(),
            old(self).next_id < u64::MAX,
        ensures
            final(self).wf(),
            final(self).ids() == old(self).ids().push(old(self).next_id),
            final(self).active == old(self).entries@.len(),
            final(self).spec_current().path is None,
            !final(self).spec_current().buffer.spec_dirty(),
            final(self).spec_current().buffer.texts() == seq![Seq::<char>::empty()],
    {
        proof {
            reveal_strlit("");
        }
        let d = Document::untitled("");
        assert(crate::document::without_bom(""@) =~= Seq::<char>::empty());
        assert(crate::buffer::split_lines(Seq::<char>::empty()) =~= seq![Seq::<char>::empty()]);
        self.push_document(d, viewport);
        assert(self.docs()[self.active as int] == self.spec_current());
    }

    /// Activate the next document, wrapping around.
    pub fn next(&mut self)
        requires
            old(self).wf(),
        ensures
            final(self).wf(),
            final(self).entries == old(self).entries,
            final(self).next_id == old(self).next_id,
            final(self).active == next_index(old(self).active as int, old(self).entries@.len() as int),
    {
        let n = self.entries.len();
        self.active = if self.active + 1 < n {
            self.active + 1
        } else {
            0
        };
    }

    /// Activate the previous document, wrapping around.
    pub fn previous(&mut self)
        requires
            old(self).wf(),
        ensures
            final(self).wf(),
            final(self).entries == old(self).entries,
            final(self).next_id == old(self).next_id,
            final(self).active == previous_index(old(self).active as int, old(self).entries@.len() as int),
    {
        self.active = if self.active == 0 {
            self.entries.len() - 1
        } else {
            self.active - 1
        };
    }

    /// Close the active document. A dirty one closes only when forced; the
    /// last one is replaced by a fresh untitled document with a new identity.
    pub fn delete(&mut self, force: bool, viewport: V) -> (r: Result<(), DocumentsError>)
        requires
            old(self).wf(),
            old(self).next_id < u64::MAX,
        ensures
            final(self).wf(),
            r is Err <==> !force && old(self).spec_current().buffer.spec_dirty(),
            r is Err ==> *final(self) == *old(self) && r == Err::<(), _>(
                DocumentsError::UnsavedChanges,
            ),
            r is Ok && old(self).entries@.len() == 1 ==> {
                &&& final(self).ids() == seq![old(self).next_id]
                &&& final(self).next_id == old(self).next_id + 1
                &&& final(self).spec_current().path is None
                &&& !final(self).spec_current().buffer.spec_dirty()
                &&& final(self).spec_current().buffer.texts() == seq![Seq::<char>::empty()]
            },
            r is Ok && old(self).entries@.len() > 1 ==> {
                &&& final(self).entries@ == old(self).entries@.remove(old(self).active as int)
                &&& final(self).ids() == old(self).ids().remove(old(self).active as int)
                &&& final(self).docs() == old(self).docs().remove(old(self).active as int)
                &&& final(self).next_id == old(self).next_id
                &&& final(self).active == if old(self).active < final(self).entries@.len() {
                    old(self).active as int
                } else {
                    final(self).entries@.len() - 1
                }
            },
    {
        if !force && self.entries[self.active].document.buffer.dirty() {
            return Err(DocumentsError::UnsavedChanges);
        }
        if self.entries.len() == 1 {
            proof {
                reveal_strlit("");
            }
            let d = Document::untitled("");
            assert(crate::document::without_bom(""@) =~= Seq::<char>::empty());
            assert(crate::buffer::split_lines(Seq::<char>::empty()) =~= seq![Seq::<char>::empty()]);
            let e = self.fresh_entry(d, viewport);
            self.entries.set(0, e);
            proof {
                assert(self.ids() =~= seq![old(self).next_id]);
            }
        } else {
            self.entries.remove(self.active);
            if self.active >= self.entries.len() {
                self.active = self.entries.len() - 1;
            }
            proof {
                assert(self.ids() =~= old(self).ids().remove(old(self).active as int));
                assert(self.docs() =~= old(self).docs().remove(old(self).active as int));
                assert forall|i: int, j: int|
                    0 <= i < j < self.entries@.len() implies #[trigger] self.entries@[i].id
                        != #[trigger] self.entries@[j].id by {
                    let oi = if i < old(self).active { i } else { i + 1 };
                    let oj = if j < old(self).active { j } else { j + 1 };
                    assert(self.entries@[i] == old(self).entries@[oi]);
                    assert(self.entries@[j] == old(self).entries@[oj]);
                }
                assert forall|i: int| 0 <= i < self.entries@.len() implies #[trigger] self.entries@[i].id
                    < self.next_id by {
                    let oi = if i < old(self).active { i } else { i + 1 };
                    assert(self.entries@[i] == old(self).entries@[oi]);
                }
            }
        }
        Ok(())
    }

    /// Close the document with identity `id`, discarding its changes (a
    /// close request has already asked about them). Closing another tab keeps
    /// the active document active.
    pub fn close(&mut self, id: u64, viewport: V) -> (r: Result<(), DocumentsError>)
        requires
            old(self).wf(),
            old(self).next_id < u64::MAX,
        ensures
            final(self).wf(),
            r is Ok <==> old(self).ids().contains(id),
            r is Err ==> *final(self) == *old(self) && r == Err::<(), _>(DocumentsError::NoSuchBuffer),
            r is Ok && old(self).entries@.len() == 1 ==> {
                &&& final(self).ids() == seq![old(self).next_id]
                &&& final(self).next_id == old(self).next_id + 1
                &&& final(self).spec_current().path is None
                &&& !final(self).spec_current().buffer.spec_dirty()
                &&& final(self).spec_current().buffer.texts() == seq![Seq::<char>::empty()]
            },
            r is Ok && old(self).entries@.len() > 1 ==> {
                &&& final(self).entries@ == old(self).entries@.remove(old(self).index_of(id)->0)
                &&& !final(self).ids().contains(id)
                &&& final(self).ids().len() == old(self).ids().len() - 1
                &&& forall|other: u64|
                    other != id ==> (final(self).ids().contains(other) <==> old(self).ids().contains(other))
                &&& final(self).next_id == old(self).next_id
            },
            r is Ok && old(self).entries@.len() > 1 && id != old(self).spec_active_id()
                ==> final(self).spec_active_id() == old(self).spec_active_id(),
            r is Ok && old(self).entries@.len() > 1 && id == old(self).spec_active_id()
                ==> final(self).active == if old(self).active < final(self).entries@.len() {
                old(self).active as int
            } else {
                final(self).entries@.len() - 1
            },
    {
        let active = self.active_id();
        let count = self.entries.len();
        let ghost before = *self;
        match self.position(id) {
            None => {
                assert(!self.ids().contains(id)) by {
                    if self.ids().contains(id) {
                        let k = choose|k: int| 0 <= k < self.ids().len() && self.ids()[k] == id;
                        assert(self.entries@[k].id == id);
                    }
                }
                return Err(DocumentsError::NoSuchBuffer);
            },
            Some(k) => {
                assert(self.ids()[k as int] == id);
                assert(before.index_of(id) == Some(k as int)) by {
                    let c = choose|i: int| 0 <= i < before.entries@.len() && before.entries@[i].id == id;
                    assert(before.entries@[c].id == id);
                    if c != k as int {
                        if c < k as int {
                            assert(before.entries@[c].id != before.entries@[k as int].id);
                        } else {
                            assert(before.entries@[k as int].id != before.entries@[c].id);
                        }
                    }
                }
                if id == active {
                    assert(k == before.active) by {
                        if k != before.active {
                            if k < before.active {
                                assert(before.entries@[k as int].id != before.entries@[before.active as int].id);
                            } else {
                                assert(before.entries@[before.active as int].id != before.entries@[k as int].id);
                            }
                        }
                    }
                }
                self.active = k;
                let ghost selected = *self;
                let deleted = self.delete(true, viewport);
                assert(deleted is Ok);
                if count > 1 {
                    let ghost after = self.ids();
                    assert(after == selected.ids().remove(k as int));
                    assert(selected.ids() == before.ids());
                    assert forall|other: u64| other != id implies (after.contains(other) <==> before.ids().contains(other)) by {
                        if before.ids().contains(other) {
                            let j = choose|j: int| 0 <= j < before.ids().len() && before.ids()[j] == other;
                            assert(j != k);
                            if j < k {
                                assert(after[j] == other);
                            } else {
                                assert(after[j - 1] == other);
                            }
                        }
                        if after.contains(other) {
                            let j = choose|j: int| 0 <= j < after.len() && after[j] == other;
                            if j < k {
                                assert(before.ids()[j] == other);
                            } else {
                                assert(before.ids()[j + 1] == other);
                            }
                        }
                    }
                    assert(!after.contains(id)) by {
                        if after.contains(id) {
                            let j = choose|j: int| 0 <= j < after.len() && after[j] == id;
                            if j < k {
                                assert(before.entries@[j].id == id);
                            } else {
                                assert(before.entries@[j + 1].id == id);
                            }
                        }
                    }
                    if id != active {
                        assert(before.ids()[before.active as int] == active);
                        assert(after.contains(active));
                        let reselected = self.select(active);
                        assert(reselected is Ok);
                    }
                }
                Ok(())
            },
        }
    }

    /// The index of the open document whose file is `path`, if any.
    pub fn find_path(&self, path: &String) -> (r: Option<usize>)
        requires
            self.wf(),
        ensures
            match r {
                Some(i) => i < self.entries@.len() && opt_view(self.entries@[i as int].document.path)
                    == Some(path@),
                None => forall|i: int|
                    0 <= i < self.entries@.len() ==> opt_view(#[trigger] self.entries@[i].document.path)
                        != Some(path@),
            },
    {
        let mut i: usize = 0;
        while i < self.entries.len()
            invariant
                i <= self.entries@.len(),
                forall|k: int|
                    0 <= k < i ==> opt_view(#[trigger] self.entries@[k].document.path) != Some(path@),
            decreases self.entries.len() - i,
        {
            match &self.entries[i].document.path {
                Some(p) => {
                    if *p == *path {
                        return Some(i);
                    }
                },
                None => {},
            }
            i += 1;
        }
        None
    }

    /// Opening a file (by its canonical path) that is already open activates
    /// that buffer and keeps its edits; the file is read only when it is not.
    /// Returns whether the caller must read the file and `open_read` it.
    pub fn open(&mut self, path: &String) -> (needs_read: bool)
        requires
            old(self).wf(),
        ensures
            final(self).wf(),
            final(self).entries == old(self).entries,
            final(self).next_id == old(self).next_id,
            needs_read <==> forall|i: int|
                0 <= i < old(self).entries@.len() ==> opt_view(
                    #[trigger] old(self).entries@[i].document.path,
                ) != Some(path@),
            !needs_read ==> opt_view(final(self).spec_current().path) == Some(path@),
            needs_read ==> final(self).active == old(self).active,
    {
        match self.find_path(path) {
            Some(i) => {
                self.active = i;
                false
            },
            None => true,
        }
    }

    /// The active document's file, for `reload`, when it may be reloaded.
    pub fn reload_path(&self, force: bool) -> (r: Result<String, DocumentsError>)
        requires
            self.wf(),
        ensures
            match r {
                Ok(p) => (force || !self.spec_current().buffer.spec_dirty()) && opt_view(
                    self.spec_current().path,
                ) == Some(p@),
                Err(e) => if !force && self.spec_current().buffer.spec_dirty() {
                    e == DocumentsError::UnsavedChanges
                } else {
                    e == DocumentsError::Untitled && self.spec_current().path is None
                },
            },
    {
        if !force && self.entries[self.active].document.buffer.dirty() {
            return Err(DocumentsError::UnsavedChanges);
        }
        match &self.entries[self.active].document.path {
            Some(p) => Ok(p.clone()),
            None => Err(DocumentsError::Untitled),
        }
    }

    /// Replace the active document by its file's text read again; its
    /// identity stays and its viewport starts over.
    pub fn reload(&mut self, document: Document, viewport: V)
        requires
            old(self).wf(),
        ensures
            final(self).wf(),
            final(self).ids() == old(self).ids(),
            final(self).active == old(self).active,
            final(self).next_id == old(self).next_id,
            final(self).spec_current() == document,
            final(self).entries@[final(self).active as int].viewport == viewport,
            forall|i: int|
                0 <= i < old(self).entries@.len() && i != old(self).active ==> #[trigger] final(self).entries@[i]
                    == old(self).entries@[i],
    {
        let id = self.entries[self.active].id;
        self.entries.set(self.active, OpenDocument { id, document, viewport });
        proof {
            assert(self.ids() =~= old(self).ids());
        }
    }

    /// The file the active document is saved to: `target` when given, else
    /// its own. Saving over a file open in another buffer is refused.
    pub fn save_target(&self, target: Option<String>) -> (r: Result<String, DocumentsError>)
        requires
            self.wf(),
        ensures
            match r {
                Ok(p) => {
                    &&& opt_view(target) == Some(p@) || (target is None && opt_view(
                        self.spec_current().path,
                    ) == Some(p@))
                    &&& forall|i: int|
                        0 <= i < self.entries@.len() && i != self.active ==> opt_view(
                            #[trigger] self.entries@[i].document.path,
                        ) != Some(p@)
                },
                Err(DocumentsError::Untitled) => target is None && self.spec_current().path is None,
                Err(DocumentsError::OpenElsewhere) => exists|i: int|
                    0 <= i < self.entries@.len() && i != self.active && #[trigger] opt_view(
                        self.entries@[i].document.path,
                    ) == if target is Some {
                        opt_view(target)
                    } else {
                        opt_view(self.spec_current().path)
                    },
                Err(_) => false,
            },
    {
        let ghost want = if target is Some {
            opt_view(target)
        } else {
            opt_view(self.spec_current().path)
        };
        let path = match target {
            Some(t) => t,
            None => match &self.entries[self.active].document.path {
                Some(p) => p.clone(),
                None => return Err(DocumentsError::Untitled),
            },
        };
        assert(Some(path@) == want);
        let mut i: usize = 0;
        while i < self.entries.len()
            invariant
                i <= self.entries@.len(),
                self.wf(),
                Some(path@) == want,
                want == if target is Some {
                    opt_view(target)
                } else {
                    opt_view(self.spec_current().path)
                },
                forall|k: int|
                    0 <= k < i && k != self.active ==> opt_view(#[trigger] self.entries@[k].document.path)
                        != Some(path@),
            decreases self.entries.len() - i,
        {
            if i != self.active {
                match &self.entries[i].document.path {
                    Some(p) => {
                        if *p == path {
                            assert(opt_view(self.entries@[i as int].document.path) == want);
                            return Err(DocumentsError::OpenElsewhere);
                        }
                    },
                    None => {},
                }
            }
            i += 1;
        }
        Ok(path)
    }

    /// Whether any open document has unsaved changes.
    pub fn dirty(&self) -> (r: bool)
        ensures
            r <==> exists|i: int|
                0 <= i < self.entries@.len() && #[trigger] self.entries@[i].document.buffer.spec_dirty(),
    {
        let mut i: usize = 0;
        while i < self.entries.len()
            invariant
                i <= self.entries@.len(),
                forall|k: int| 0 <= k < i ==> !#[trigger] self.entries@[k].document.buffer.spec_dirty(),
            decreases self.entries.len() - i,
        {
            if self.entries[i].document.buffer.dirty() {
                return true;
            }
            i += 1;
        }
        false
    }

    /// Follow an explorer commit in every open document: each document
    /// keeps its identity, place and viewport, and its file follows the
    /// commit's renames and deletions.
    pub fn reconcile(&mut self, report: &CommitReport)
        requires
            old(self).wf(),
        ensures
            final(self).wf(),
            final(self).ids() == old(self).ids(),
            final(self).active == old(self).active,
            final(self).next_id == old(self).next_id,
            final(self).entries@.len() == old(self).entries@.len(),
            forall|i: int|
                0 <= i < old(self).entries@.len() ==> #[trigger] final(self).entries@[i].document.buffer.lines
                    == old(self).entries@[i].document.buffer.lines,
            forall|i: int|
                0 <= i < old(self).entries@.len() ==> {
                    &&& (#[trigger] final(self).entries@[i]).id == old(self).entries@[i].id
                    &&& final(self).entries@[i].viewport == old(self).entries@[i].viewport
                    &&& reconciled(old(self).entries@[i].document, final(self).entries@[i].document, *report)
                },
    {
        let mut i: usize = 0;
        while i < self.entries.len()
            invariant
                i <= self.entries@.len(),
                self.entries@.len() == old(self).entries@.len(),
                self.active == old(self).active,
                self.next_id == old(self).next_id,
                forall|k: int| 0 <= k < self.entries@.len() ==> #[trigger] self.entries@[k].id == old(self).entries@[k].id,
                forall|k: int|
                    0 <= k < self.entries@.len() ==> #[trigger] self.entries@[k].viewport == old(self).entries@[k].viewport,
                forall|k: int|
                    0 <= k < self.entries@.len() ==> #[trigger] self.entries@[k].document.buffer.lines
                        == old(self).entries@[k].document.buffer.lines,
                forall|k: int|
                    0 <= k < i ==> reconciled(old(self).entries@[k].document, #[trigger] self.entries@[k].document, *report),
                forall|k: int|
                    i <= k < self.entries@.len() ==> #[trigger] self.entries@[k].document == old(self).entries@[k].document,
            decreases self.entries.len() - i,
        {
            self.entries[i].document.reconcile(report);
            i += 1;
        }
        proof {
            assert(self.ids() =~= old(self).ids());
        }
    }
}

/// The identity handed to the next opened document belongs to no open one,
/// so identities are never reused while a workspace lives.
pub proof fn law_fresh_identity<V>(d: Documents<V>)
    requires
        d.wf(),
    ensures
        !d.ids().contains(d.next_fresh()),
{
    if d.ids().contains(d.next_fresh()) {
        let k = choose|k: int| 0 <= k < d.ids().len() && d.ids()[k] == d.next_fresh();
        assert(d.entries@[k].id < d.next_id);
    }
}

} // verus!
