use rockdown::buffer::Line;
use rockdown::explorer::{
    adopt_rolled_back, same_restored, Fingerprint,
    invalid_windows_name, listed_name, parse_name, parse_name_on, reserved_name, CommitAction, CommitPhase, CommitReport, CommitRun, Entry, EntryKind,
    Explorer, ExplorerError, Location, Operation,
};

fn entry(name: &str, kind: EntryKind) -> Entry {
    Entry {
        name: name.to_string(),
        kind,
    }
}

fn listed() -> Explorer {
    Explorer::listing(
        "/w".to_string(),
        "/w".to_string(),
        vec![entry("b.md", EntryKind::File), entry("a", EntryKind::Directory)],
    )
}

#[test]
fn listing_puts_directories_first_with_a_slash() {
    let x = listed();
    let texts: Vec<&str> = x.buffer.lines.iter().map(|l| l.text.as_str()).collect();
    assert_eq!(texts, ["a/", "b.md"]);
    assert!(!x.dirty());
}

#[test]
fn an_empty_directory_lists_one_empty_line() {
    let x = Explorer::listing("/w".to_string(), "/w".to_string(), Vec::new());
    assert_eq!(x.buffer.lines.len(), 1);
    assert_eq!(x.buffer.lines[0].text, "");
    assert!(!x.dirty());
}

#[test]
fn edits_plan_renames_creations_and_deletions() {
    let mut x = listed();
    x.buffer.lines.remove(0);
    x.buffer.lines[0].text = "c.md".to_string();
    x.buffer.lines.push(Line {
        id: 77,
        text: "new/".to_string(),
    });
    assert!(x.dirty());
    let desired = x.desired().unwrap();
    let report: CommitReport = x.plan_commit(&desired);
    assert_eq!(
        report.renamed,
        vec![("/w/b.md".to_string(), "/w/c.md".to_string())]
    );
    assert_eq!(report.created, vec!["/w/new".to_string()]);
    assert_eq!(report.deleted, vec!["/w/a".to_string()]);
}

#[test]
fn invalid_duplicate_and_retyped_lines_are_refused() {
    let mut x = listed();
    x.buffer.lines[1].text = "a/".to_string();
    assert_eq!(x.desired().err(), Some(ExplorerError::DuplicateDestination));
    let mut x = listed();
    x.buffer.lines[0].text = "a".to_string();
    assert_eq!(x.desired().err(), Some(ExplorerError::TypeChange));
    let mut x = listed();
    x.buffer.lines[1].text = "../up".to_string();
    assert_eq!(x.desired().err(), Some(ExplorerError::InvalidName));
    let mut x = listed();
    x.buffer.lines[1].id = x.buffer.lines[0].id;
    assert_eq!(x.desired().err(), Some(ExplorerError::DuplicateIdentity));
}

#[test]
fn names_are_single_components_and_the_trash_is_reserved() {
    assert_eq!(parse_name("dir/"), Ok(("dir".to_string(), true)));
    assert_eq!(parse_name("  spaced  "), Ok(("  spaced  ".to_string(), false)));
    assert_eq!(parse_name("a/b"), Err(ExplorerError::InvalidName));
    assert_eq!(parse_name(".."), Err(ExplorerError::InvalidName));
    assert!(reserved_name(".rockdown-trash"));
    assert!(!reserved_name("notes"));
}

#[test]
fn dirty_listings_refuse_navigation() {
    let mut x = listed();
    assert!(x.reload(vec![entry("z", EntryKind::File)]).is_ok());
    assert_eq!(x.buffer.lines[0].text, "z");
    x.buffer.lines[0].text = "y".to_string();
    assert_eq!(x.reload(Vec::new()), Err(ExplorerError::PendingChanges));
    assert_eq!(x.enter(), Err(ExplorerError::PendingChanges));
    assert_eq!(x.parent(), Err(ExplorerError::PendingChanges));
}

#[test]
fn entering_reports_the_caret_entry_and_parent_climbs_one_level() {
    let mut x = listed();
    x.buffer.row = 1;
    assert_eq!(x.enter(), Ok(Some(("/w/b.md".to_string(), EntryKind::File))));
    assert_eq!(x.parent(), Ok(Some("/".to_string())));
    x.navigate("/tmp".to_string(), Vec::new());
    assert_eq!(x.workspace, "/tmp");
}

fn op(source: Option<&str>, destination: &str) -> Operation {
    Operation {
        source: source.map(str::to_string),
        staged: format!("/w/.stage/{destination}"),
        destination: destination.to_string(),
        directory: false,
        location: Location::Original,
    }
}

#[test]
fn a_commit_stages_then_installs_every_entry() {
    let mut run = CommitRun::new(vec![op(Some("/w/a"), "/w/b"), op(None, "/w/new")]);
    let mut actions = Vec::new();
    while let Some(action) = run.next_action() {
        actions.push(action);
        run.complete(true);
    }
    assert_eq!(run.phase, CommitPhase::Done);
    assert_eq!(
        actions,
        vec![
            CommitAction::CreateFile("/w/.stage//w/new".to_string()),
            CommitAction::VerifySnapshot,
            CommitAction::Rename {
                from: "/w/a".to_string(),
                to: "/w/.stage//w/b".to_string()
            },
            CommitAction::MoveNoReplace {
                from: "/w/.stage//w/b".to_string(),
                to: "/w/b".to_string()
            },
            CommitAction::MoveNoReplace {
                from: "/w/.stage//w/new".to_string(),
                to: "/w/new".to_string()
            },
        ]
    );
}

#[test]
fn a_failed_install_rolls_everything_back() {
    let mut run = CommitRun::new(vec![op(Some("/w/a"), "/w/b"), op(None, "/w/new")]);
    let mut failed = false;
    let mut steps = 0;
    while let Some(action) = run.next_action() {
        steps += 1;
        assert!(steps < 20);
        let ok = !(matches!(action, CommitAction::MoveNoReplace { ref to, .. } if to == "/w/new")
            && !failed);
        if !ok {
            failed = true;
        }
        run.complete(ok);
    }
    assert_eq!(run.phase, CommitPhase::RolledBack);
    assert_eq!(run.failures, 0);
    assert!(run
        .operations
        .iter()
        .all(|o| o.location == Location::Original));
}

fn fingerprint(inode: u64, len: u64, changed_secs: i64) -> Fingerprint {
    Fingerprint {
        kind: EntryKind::File,
        len,
        modified: Some(1_700_000_000_000_000_000),
        device: 7,
        inode,
        changed_secs,
        changed_nanos: 0,
        mode: 0o100644,
    }
}

#[test]
fn rollback_adopts_metadata_only_when_every_entry_is_restored() {
    let snapshot = vec![("a.md".to_string(), fingerprint(1, 10, 100)), ("b.md".to_string(), fingerprint(2, 20, 100))];
    // Renamed back: only the status-change time differs.
    let restored = vec![("b.md".to_string(), fingerprint(2, 20, 200)), ("a.md".to_string(), fingerprint(1, 10, 200))];
    assert!(same_restored(&snapshot[0].1, &restored[1].1));
    assert!(adopt_rolled_back(&snapshot, &restored));
    // Another process changed the content length.
    let changed = vec![("a.md".to_string(), fingerprint(1, 11, 200)), ("b.md".to_string(), fingerprint(2, 20, 200))];
    assert!(!adopt_rolled_back(&snapshot, &changed));
    // A name is missing and another appeared.
    let moved = vec![("a.md".to_string(), fingerprint(1, 10, 200)), ("c.md".to_string(), fingerprint(2, 20, 200))];
    assert!(!adopt_rolled_back(&snapshot, &moved));
    // An extra entry.
    let mut extra = restored.clone();
    extra.push(("d.md".to_string(), fingerprint(3, 1, 200)));
    assert!(!adopt_rolled_back(&snapshot, &extra));
}

#[test]
fn windows_names_follow_windows_rules() {
    for bad in ["CON", "con.txt", "Lpt1", "COM\u{b9}.md", "aux .log", "name.", "name ", "a:b", "a*b", "a\u{1}b"] {
        assert!(invalid_windows_name(bad), "{bad}");
    }
    for good in ["CONSOLE", "com10", "notes.md", "LPT0", "a.b.c", ".hidden"] {
        assert!(!invalid_windows_name(good), "{good}");
    }
    assert!(invalid_windows_name(&"x".repeat(256)));
    assert!(!invalid_windows_name(&"x".repeat(255)));
    assert_eq!(parse_name_on("con.txt", true), Err(ExplorerError::InvalidWindowsName));
    assert_eq!(parse_name_on("con.txt", false), Ok(("con.txt".to_string(), false)));
    assert_eq!(parse_name_on("dir/", true), Ok(("dir".to_string(), true)));
    assert_eq!(parse_name_on("..", true), Err(ExplorerError::InvalidName));
}

#[test]
fn reloading_lists_the_new_entries_directories_first() {
    let mut x = listed();
    let entries = vec![
        entry("z.md", EntryKind::File),
        entry("docs", EntryKind::Directory),
        entry("a.md", EntryKind::File),
    ];
    assert_eq!(x.reload(entries), Ok(()));
    let texts: Vec<&str> = x.buffer.lines.iter().map(|line| line.text.as_str()).collect();
    assert_eq!(texts, vec!["docs/", "z.md", "a.md"]);
    let ids: Vec<u64> = x.buffer.lines.iter().map(|line| line.id).collect();
    assert_eq!(ids, vec![1, 2, 3]);
    assert_eq!(x.entries.len(), 3);
    assert_eq!(x.entries[0].0, 1);
    assert_eq!(x.entries[0].1.name, "docs");
    assert_eq!(x.entries[2].1.name, "a.md");
    assert_eq!(x.directory, "/w");
    assert!(!x.dirty());
    x.refresh(Vec::new());
    let texts: Vec<&str> = x.buffer.lines.iter().map(|line| line.text.as_str()).collect();
    assert_eq!(texts, vec![""]);
    assert!(x.entries.is_empty());
    assert!(!x.dirty());
}

#[test]
fn navigating_lists_the_new_directory() {
    let mut x = listed();
    x.navigate("/w/a".to_string(), vec![entry("n.md", EntryKind::File), entry("sub", EntryKind::Directory)]);
    assert_eq!(x.directory, "/w/a");
    assert_eq!(x.workspace, "/w");
    let texts: Vec<&str> = x.buffer.lines.iter().map(|line| line.text.as_str()).collect();
    assert_eq!(texts, vec!["sub/", "n.md"]);
    assert!(!x.dirty());
}

#[test]
fn directory_reads_skip_the_trash_and_refuse_unlistable_names() {
    assert_eq!(listed_name(".rockdown-trash", false), Ok(false));
    assert_eq!(listed_name("notes.md", false), Ok(true));
    assert_eq!(listed_name("line\nbreak", false), Err(ExplorerError::InvalidName));
    assert_eq!(listed_name("CON", true), Err(ExplorerError::InvalidWindowsName));
    assert_eq!(listed_name("CON", false), Ok(true));
}
