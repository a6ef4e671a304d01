use rockdown::document::{DiskText, Document, SaveError};
use rockdown::explorer::CommitReport;

#[test]
fn untitled_documents_are_markdown_and_keep_their_line_endings() {
    let d = Document::untitled("a\r\nb");
    assert!(d.crlf);
    assert!(d.is_markdown());
    assert_eq!(d.buffer.text(), "a\nb");
    assert_eq!(d.encoded_text(), "a\r\nb");
    let plain = Document::untitled("x");
    assert_eq!(plain.crlf, std::path::MAIN_SEPARATOR == '\\');
}

#[test]
fn a_byte_order_mark_survives_encoding() {
    let d = Document::untitled("\u{feff}hi\n");
    assert!(d.bom);
    assert_eq!(d.buffer.text(), "hi\n");
    assert_eq!(d.encoded_text(), "\u{feff}hi\n");
}

#[test]
fn markdown_is_recognized_by_extension_in_any_case() {
    let d = Document::opened("/w/NOTE.MD".to_string(), String::new());
    assert!(d.is_markdown());
    let t = Document::opened("/w/note.txt".to_string(), String::new());
    assert!(!t.is_markdown());
}

#[test]
fn saving_checks_conflicts_unless_forced() {
    let d = Document::opened("/w/a.md".to_string(), "old".to_string());
    assert_eq!(
        d.check_save("/w/a.md", &DiskText::Text("old".to_string()), false),
        Ok(())
    );
    assert_eq!(
        d.check_save("/w/a.md", &DiskText::Text("new".to_string()), false),
        Err(SaveError::ChangedOnDisk)
    );
    assert_eq!(
        d.check_save("/w/b.md", &DiskText::Text("x".to_string()), false),
        Err(SaveError::AlreadyExists)
    );
    assert_eq!(
        d.check_save("/w/a.md", &DiskText::Missing, false),
        Err(SaveError::RemovedOnDisk)
    );
    assert_eq!(d.check_save("/w/a.md", &DiskText::Missing, true), Ok(()));
}

#[test]
fn reconcile_follows_renames_and_deletions() {
    let mut d = Document::opened("/w/dir/a.md".to_string(), "a".to_string());
    let report = CommitReport {
        renamed: vec![("/w/dir".to_string(), "/w/moved".to_string())],
        deleted: Vec::new(),
        created: Vec::new(),
    };
    d.reconcile(&report);
    assert_eq!(d.path.as_deref(), Some("/w/moved/a.md"));
    let gone = CommitReport {
        renamed: Vec::new(),
        deleted: vec!["/w/moved".to_string()],
        created: Vec::new(),
    };
    d.reconcile(&gone);
    assert!(d.path.is_none());
}

#[test]
fn untouched_files_are_written_back_byte_for_byte() {
    for text in [
        "\u{feff}",
        "one\rtwo\r",
        "\u{feff}one\rtwo\r\nlast\r",
        "\u{feff}\u{feff}content\r\n",
        "a\nb\n",
        "",
    ] {
        let d = Document::opened("/w/a.md".to_string(), text.to_string());
        assert!(!d.buffer.dirty());
        assert_eq!(d.encoded_text(), text);
    }
}
