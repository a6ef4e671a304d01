use rockdown::document::Document;
use rockdown::documents::{Documents, DocumentsError};
use rockdown::explorer::CommitReport;

fn docs() -> Documents<u32> {
    Documents::new(Document::untitled("first\nsecond"), 0)
}

#[test]
fn identities_are_fresh_and_selection_finds_them() {
    let mut d = docs();
    let first = d.active_id();
    assert_eq!(first, 1);
    d.push_document(Document::opened("/w/a.md".to_string(), "a".to_string()), 7);
    let second = d.active_id();
    assert_eq!(second, 2);
    assert_eq!(*d.viewport(), 7);
    assert_eq!(d.select(first), Ok(()));
    assert_eq!(d.active_id(), first);
    assert_eq!(*d.viewport(), 0);
    assert_eq!(d.select(99), Err(DocumentsError::NoSuchBuffer));
    assert_eq!(d.active_id(), first);
    assert!(d.get(second).is_some());
    assert!(d.get(99).is_none());
}

#[test]
fn next_and_previous_wrap_around() {
    let mut d = docs();
    d.new_document(1);
    d.new_document(2);
    assert_eq!(d.active_id(), 3);
    d.next();
    assert_eq!(d.active_id(), 1);
    d.previous();
    assert_eq!(d.active_id(), 3);
    d.previous();
    assert_eq!(d.active_id(), 2);
}

#[test]
fn deleting_dirty_buffers_requires_force_and_last_buffer_gets_fresh_identity() {
    let mut d = docs();
    let first = d.active_id();
    d.current_mut().buffer.lines[0].text = "changed".to_string();
    assert!(d.dirty());
    assert_eq!(d.delete(false, 0), Err(DocumentsError::UnsavedChanges));
    assert_eq!(d.active_id(), first);
    d.push_document(Document::opened("/w/a.md".to_string(), "a".to_string()), 0);
    let second = d.active_id();
    d.select(first).unwrap();
    d.delete(true, 0).unwrap();
    assert_eq!(d.active_id(), second);
    assert!(d.select(first).is_err());
    d.delete(false, 0).unwrap();
    let fresh = d.active_id();
    assert_ne!(fresh, first);
    assert_ne!(fresh, second);
    assert_eq!(d.entries().len(), 1);
    assert!(d.current().path.is_none());
    assert_eq!(d.current().buffer.text(), "");
    assert!(!d.dirty());
}

#[test]
fn opening_an_open_file_activates_its_buffer() {
    let mut d = docs();
    d.push_document(Document::opened("/w/a.md".to_string(), "a".to_string()), 0);
    let a = d.active_id();
    d.select(1).unwrap();
    assert!(!d.open(&"/w/a.md".to_string()));
    assert_eq!(d.active_id(), a);
    assert!(d.open(&"/w/b.md".to_string()));
    assert_eq!(d.active_id(), a);
}

#[test]
fn saving_over_a_file_open_elsewhere_is_refused() {
    let mut d = docs();
    d.push_document(Document::opened("/w/a.md".to_string(), "a".to_string()), 0);
    d.select(1).unwrap();
    assert_eq!(d.save_target(None), Err(DocumentsError::Untitled));
    assert_eq!(
        d.save_target(Some("/w/a.md".to_string())),
        Err(DocumentsError::OpenElsewhere)
    );
    assert_eq!(
        d.save_target(Some("/w/b.md".to_string())),
        Ok("/w/b.md".to_string())
    );
    d.select(2).unwrap();
    assert_eq!(d.save_target(None), Ok("/w/a.md".to_string()));
}

#[test]
fn reload_needs_a_file_and_no_unsaved_changes() {
    let mut d = docs();
    assert_eq!(d.reload_path(false), Err(DocumentsError::Untitled));
    d.push_document(Document::opened("/w/a.md".to_string(), "a".to_string()), 3);
    assert_eq!(d.reload_path(false), Ok("/w/a.md".to_string()));
    d.current_mut().buffer.lines[0].text = "edit".to_string();
    assert_eq!(d.reload_path(false), Err(DocumentsError::UnsavedChanges));
    assert_eq!(d.reload_path(true), Ok("/w/a.md".to_string()));
    let id = d.active_id();
    d.reload(Document::opened("/w/a.md".to_string(), "disk".to_string()), 0);
    assert_eq!(d.active_id(), id);
    assert_eq!(d.current().buffer.text(), "disk");
    assert_eq!(*d.viewport(), 0);
}

#[test]
fn closing_a_tab_keeps_the_active_document() {
    let mut d = docs();
    d.new_document(1);
    d.new_document(2);
    assert_eq!(d.active_id(), 3);
    assert_eq!(d.close(1, 9), Ok(()));
    assert_eq!(d.active_id(), 3);
    assert_eq!(d.entries().len(), 2);
    assert!(d.get(1).is_none());
    assert_eq!(d.close(3, 9), Ok(()));
    assert_eq!(d.active_id(), 2);
    assert_eq!(d.close(7, 9), Err(DocumentsError::NoSuchBuffer));
    assert_eq!(d.close(2, 9), Ok(()));
    assert_eq!(d.entries().len(), 1);
    assert_eq!(d.active_id(), 4);
    assert!(d.current().path.is_none());
    assert_eq!(d.current().buffer.text(), "");
    assert!(!d.dirty());
}

#[test]
fn closing_keeps_the_other_documents_and_their_edits() {
    let mut d = docs();
    d.current_mut().buffer.lines[0].text = "edited".to_string();
    d.push_document(Document::opened("/w/a.md".to_string(), "a".to_string()), 7);
    d.push_document(Document::opened("/w/b.md".to_string(), "b".to_string()), 8);
    assert_eq!(d.close(3, 0), Ok(()));
    assert_eq!(d.entries().len(), 2);
    assert_eq!(d.active_id(), 2);
    assert_eq!(d.entries()[0].id, 1);
    assert_eq!(d.entries()[0].document.buffer.lines[0].text, "edited");
    assert!(d.entries()[0].document.buffer.dirty());
    assert_eq!(d.entries()[1].viewport, 7);
}

#[test]
fn reconcile_moves_and_unlinks_every_open_file() {
    let mut d = docs();
    d.push_document(Document::opened("/w/dir/a.md".to_string(), "a".to_string()), 3);
    d.push_document(Document::opened("/w/old.md".to_string(), "b".to_string()), 5);
    let active = d.active_id();
    let report = CommitReport {
        renamed: vec![("/w/dir".to_string(), "/w/moved".to_string())],
        deleted: vec!["/w/old.md".to_string()],
        created: Vec::new(),
    };
    d.reconcile(&report);
    assert_eq!(d.active_id(), active);
    let entries = d.entries();
    assert_eq!(entries.len(), 3);
    assert!(entries[0].document.path.is_none());
    assert_eq!(entries[1].document.path.as_deref(), Some("/w/moved/a.md"));
    assert_eq!(entries[1].document.saved.as_deref(), Some("a"));
    assert_eq!(entries[1].viewport, 3);
    assert!(entries[2].document.path.is_none());
    assert!(entries[2].document.saved.is_none());
    assert_eq!(entries[2].viewport, 5);
    assert_eq!(entries[2].document.buffer.text(), "b");
}
