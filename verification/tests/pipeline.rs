use vertebrae::config::Config;
use vertebrae::config_location;
use vertebrae::file::{FileHandler, FileOp};
use vertebrae::handler::IntentHandler;
use vertebrae::intent::{Intent, IntentKind, IntentList};
use vertebrae::journal::{Journal, JournalEntry};
use vertebrae::message::{MessageHandler, WorkerMessage};
use vertebrae::rescan::rescan_observations;
use vertebrae::snapshot::{encode_snapshot, parse_snapshot, SnapshotError};
use vertebrae::types::{ChangeKind, FsState, Signature};
use vertebrae::worker::{Worker, WorkerError, WorkerState};

fn chars_of(s: &str) -> Vec<char> {
    s.chars().collect()
}

fn text_of(v: &[char]) -> String {
    v.iter().collect()
}

fn test_config() -> Config {
    Config {
        backup_path: chars_of("/backup"),
        watch_paths: vec![chars_of("/src")],
        fs_refresh_timeout_secs: 60,
    }
}

fn sig(size: u64, mtime: u64) -> Signature {
    Signature { size, mtime }
}

#[test]
fn config_location_prefers_xdg() {
    let r = config_location(Some(chars_of("/xdg")), Some(chars_of("/home/u")));
    assert_eq!(text_of(&r), "/xdg/vertebrae/config.ron");
}

#[test]
fn config_location_falls_back_to_home() {
    let r = config_location(None, Some(chars_of("/home/u")));
    assert_eq!(text_of(&r), "/home/u/.config/vertebrae/config.ron");
}

#[test]
fn config_location_falls_back_to_etc() {
    let r = config_location(None, None);
    assert_eq!(text_of(&r), "/etc/vertebrae/config.ron");
}

#[test]
fn resolve_dest_mirrors_under_backup_root() {
    let cfg = test_config();
    let r = cfg.resolve_dest(&chars_of("/src/a/b.txt")).unwrap();
    assert_eq!(text_of(&r), "/backup/a/b.txt");
}

#[test]
fn resolve_dest_accepts_the_root_itself() {
    let cfg = test_config();
    let r = cfg.resolve_dest(&chars_of("/src")).unwrap();
    assert_eq!(text_of(&r), "/backup");
}

#[test]
fn resolve_dest_rejects_outside_paths() {
    let cfg = test_config();
    assert!(cfg.resolve_dest(&chars_of("/elsewhere/a.txt")).is_none());
    // a sibling whose name merely starts with the root is not under it
    assert!(cfg.resolve_dest(&chars_of("/srcfoo/a.txt")).is_none());
}

#[test]
fn intent_list_coalesces_create_then_delete() {
    // pushing a create-intent then a delete-intent for one path before the
    // drain collapses to the single delete-intent
    let mut list = IntentList::new();
    list.push(Intent {
        kind: IntentKind::CopyUpdate(sig(10, 1)),
        source: chars_of("/src/a.txt"),
        dest: chars_of("/backup/a.txt"),
    });
    list.push(Intent {
        kind: IntentKind::Delete,
        source: chars_of("/src/a.txt"),
        dest: chars_of("/backup/a.txt"),
    });
    assert_eq!(list.len(), 1);
    let drained = list.drain();
    assert_eq!(drained.len(), 1);
    assert!(matches!(drained[0].kind, IntentKind::Delete));
    assert_eq!(text_of(&drained[0].source), "/src/a.txt");
}

#[test]
fn intent_list_keeps_first_observed_order() {
    let mut list = IntentList::new();
    list.push(Intent {
        kind: IntentKind::CopyUpdate(sig(1, 1)),
        source: chars_of("/src/a"),
        dest: chars_of("/backup/a"),
    });
    list.push(Intent {
        kind: IntentKind::CopyUpdate(sig(2, 2)),
        source: chars_of("/src/b"),
        dest: chars_of("/backup/b"),
    });
    // a newer intent for the first path keeps its original position
    list.push(Intent {
        kind: IntentKind::CopyUpdate(sig(3, 3)),
        source: chars_of("/src/a"),
        dest: chars_of("/backup/a"),
    });
    let drained = list.drain();
    assert_eq!(drained.len(), 2);
    assert_eq!(text_of(&drained[0].source), "/src/a");
    assert!(matches!(drained[0].kind, IntentKind::CopyUpdate(s) if s == sig(3, 3)));
    assert_eq!(text_of(&drained[1].source), "/src/b");
}

#[test]
fn drain_leaves_the_list_empty() {
    let mut list = IntentList::new();
    list.push(Intent {
        kind: IntentKind::Delete,
        source: chars_of("/src/a"),
        dest: chars_of("/backup/a"),
    });
    let _ = list.drain();
    assert_eq!(list.len(), 0);
    assert_eq!(list.drain().len(), 0);
}

#[test]
fn handle_change_is_idempotent_for_files() {
    // applying the same resolved change twice: one execution, one journal
    // mutation; the second call is a no-op
    let cfg = test_config();
    let mut journal = Journal::new();
    let mut handler = IntentHandler::new();
    let work = handler.handle_change(&cfg, &journal, chars_of("/src/a.txt"), FsState::File(sig(10, 1)));
    assert_eq!(work.len(), 1);
    IntentHandler::record_success(&mut journal, &work[0]);
    assert!(journal.is_dirty());
    assert_eq!(journal.num_entries(), 1);
    let again = handler.handle_change(&cfg, &journal, chars_of("/src/a.txt"), FsState::File(sig(10, 1)));
    assert_eq!(again.len(), 0);
    assert_eq!(journal.num_entries(), 1);
}

#[test]
fn handle_change_deletes_only_tracked_paths() {
    let cfg = test_config();
    let mut journal = Journal::new();
    let mut handler = IntentHandler::new();
    // nothing recorded for the path: a removal decides no work
    let work = handler.handle_change(&cfg, &journal, chars_of("/src/a.txt"), FsState::Missing);
    assert_eq!(work.len(), 0);
    // record a copy, then the removal deletes the recorded destination
    let work = handler.handle_change(&cfg, &journal, chars_of("/src/a.txt"), FsState::File(sig(10, 1)));
    IntentHandler::record_success(&mut journal, &work[0]);
    let work = handler.handle_change(&cfg, &journal, chars_of("/src/a.txt"), FsState::Missing);
    assert_eq!(work.len(), 1);
    assert!(matches!(work[0].kind, IntentKind::Delete));
    assert_eq!(text_of(&work[0].dest), "/backup/a.txt");
    IntentHandler::record_success(&mut journal, &work[0]);
    assert_eq!(journal.num_entries(), 0);
    // deleting twice is a no-op the second time
    let again = handler.handle_change(&cfg, &journal, chars_of("/src/a.txt"), FsState::Missing);
    assert_eq!(again.len(), 0);
}

#[test]
fn handle_change_ignores_paths_outside_watched_roots() {
    let cfg = test_config();
    let journal = Journal::new();
    let mut handler = IntentHandler::new();
    let work = handler.handle_change(&cfg, &journal, chars_of("/etc/passwd"), FsState::File(sig(1, 1)));
    assert_eq!(work.len(), 0);
}

#[test]
fn file_handler_plans_copy_with_parent_dir() {
    let fh = FileHandler::new();
    let ops = fh.plan(&Intent {
        kind: IntentKind::CopyUpdate(sig(10, 1)),
        source: chars_of("/src/a/b.txt"),
        dest: chars_of("/backup/a/b.txt"),
    });
    assert_eq!(ops.len(), 2);
    assert!(matches!(&ops[0], FileOp::EnsureDir(d) if text_of(d) == "/backup/a"));
    assert!(
        matches!(&ops[1], FileOp::CopyFile(s, d) if text_of(s) == "/src/a/b.txt" && text_of(d) == "/backup/a/b.txt")
    );
}

#[test]
fn file_handler_plans_delete() {
    let fh = FileHandler::new();
    let ops = fh.plan(&Intent {
        kind: IntentKind::Delete,
        source: chars_of("/src/a.txt"),
        dest: chars_of("/backup/a.txt"),
    });
    assert_eq!(ops.len(), 1);
    assert!(matches!(&ops[0], FileOp::RemoveFile(d) if text_of(d) == "/backup/a.txt"));
}

#[test]
fn parent_dir_of_a_bare_name_is_empty() {
    let r = FileHandler::parent_dir(&chars_of("name"));
    assert_eq!(text_of(&r), "");
}

#[test]
fn worker_processes_while_running_and_refuses_after_shutdown() {
    let cfg = test_config();
    let journal = Journal::new();
    let mut intents = IntentHandler::new();
    let mut worker = Worker::new(MessageHandler::new());
    assert!(worker.is_running());
    let msg = WorkerMessage::FilesystemEvent {
        path: chars_of("/src/a.txt"),
        kind: ChangeKind::Create,
        found: FsState::File(sig(10, 1)),
    };
    let work = worker.send_message(&cfg, &journal, &mut intents, msg).unwrap();
    assert_eq!(work.len(), 1);
    assert!(matches!(work[0].kind, IntentKind::CopyUpdate(s) if s == sig(10, 1)));
    worker.shutdown();
    assert_eq!(worker.state, WorkerState::ShuttingDown);
    let msg = WorkerMessage::FilesystemEvent {
        path: chars_of("/src/a.txt"),
        kind: ChangeKind::Create,
        found: FsState::File(sig(10, 1)),
    };
    let refused = worker.send_message(&cfg, &journal, &mut intents, msg);
    assert_eq!(refused.err().unwrap(), WorkerError::NotRunning);
    worker.wait_for_shutdown();
    assert_eq!(worker.state, WorkerState::Stopped);
}

#[test]
fn remove_notification_wins_over_lookup_race() {
    // a Remove notification classifies to a missing path even if a racing
    // lookup still saw the file
    let cfg = test_config();
    let mut journal = Journal::new();
    let mut intents = IntentHandler::new();
    let handler = MessageHandler::new();
    let work = intents.handle_change(&cfg, &journal, chars_of("/src/a.txt"), FsState::File(sig(10, 1)));
    IntentHandler::record_success(&mut journal, &work[0]);
    let msg = WorkerMessage::FilesystemEvent {
        path: chars_of("/src/a.txt"),
        kind: ChangeKind::Remove,
        found: FsState::File(sig(10, 1)),
    };
    let work = handler.handle(&cfg, &journal, &mut intents, msg);
    assert_eq!(work.len(), 1);
    assert!(matches!(work[0].kind, IntentKind::Delete));
}

#[test]
fn startup_rescan_creates_missing_entries() {
    // watched root /src holds a.txt (size 10, mtime T1); the journal is
    // empty; the rescan produces one create observation, and executing it
    // records {a.txt: sig (10, T1), dest /backup/a.txt}
    let cfg = test_config();
    let mut journal = Journal::new();
    let mut handler = IntentHandler::new();
    let listing = vec![(chars_of("/src/a.txt"), sig(10, 1))];
    let obs = rescan_observations(&cfg, &journal, &listing);
    assert_eq!(obs.len(), 1);
    assert_eq!(text_of(&obs[0].0), "/src/a.txt");
    assert_eq!(obs[0].1, FsState::File(sig(10, 1)));
    for (path, state) in obs {
        let work = handler.handle_change(&cfg, &journal, path, state);
        for intent in &work {
            IntentHandler::record_success(&mut journal, intent);
        }
    }
    assert_eq!(journal.num_entries(), 1);
    assert!(journal.entry_matches(&chars_of("/src/a.txt"), &sig(10, 1), &chars_of("/backup/a.txt")));
}

#[test]
fn rescan_updates_changed_signature() {
    // a.txt changed to (12, T2) while the daemon was stopped: the rescan
    // sees the stored (10, T1) disagree and produces an update
    let cfg = test_config();
    let mut journal = Journal::new();
    let mut handler = IntentHandler::new();
    journal.upsert(
        chars_of("/src/a.txt"),
        JournalEntry { sig: sig(10, 1), dest: chars_of("/backup/a.txt") },
    );
    let listing = vec![(chars_of("/src/a.txt"), sig(12, 2))];
    let obs = rescan_observations(&cfg, &journal, &listing);
    assert_eq!(obs.len(), 1);
    assert_eq!(obs[0].1, FsState::File(sig(12, 2)));
    for (path, state) in obs {
        let work = handler.handle_change(&cfg, &journal, path, state);
        for intent in &work {
            IntentHandler::record_success(&mut journal, intent);
        }
    }
    assert_eq!(journal.num_entries(), 1);
    assert!(journal.entry_matches(&chars_of("/src/a.txt"), &sig(12, 2), &chars_of("/backup/a.txt")));
}

#[test]
fn rescan_deletes_vanished_paths() {
    // a.txt was deleted while the daemon was stopped: the journal record has
    // no source file, so the rescan produces a delete and the record goes
    let cfg = test_config();
    let mut journal = Journal::new();
    let mut handler = IntentHandler::new();
    journal.upsert(
        chars_of("/src/a.txt"),
        JournalEntry { sig: sig(10, 1), dest: chars_of("/backup/a.txt") },
    );
    let listing: Vec<(Vec<char>, Signature)> = Vec::new();
    let obs = rescan_observations(&cfg, &journal, &listing);
    assert_eq!(obs.len(), 1);
    assert_eq!(text_of(&obs[0].0), "/src/a.txt");
    assert_eq!(obs[0].1, FsState::Missing);
    for (path, state) in obs {
        let work = handler.handle_change(&cfg, &journal, path, state);
        assert_eq!(work.len(), 1);
        assert!(matches!(work[0].kind, IntentKind::Delete));
        assert_eq!(text_of(&work[0].dest), "/backup/a.txt");
        for intent in &work {
            IntentHandler::record_success(&mut journal, intent);
        }
    }
    assert_eq!(journal.num_entries(), 0);
}

#[test]
fn rescan_leaves_a_synced_tree_alone() {
    let cfg = test_config();
    let mut journal = Journal::new();
    journal.upsert(
        chars_of("/src/a.txt"),
        JournalEntry { sig: sig(10, 1), dest: chars_of("/backup/a.txt") },
    );
    let listing = vec![(chars_of("/src/a.txt"), sig(10, 1))];
    let obs = rescan_observations(&cfg, &journal, &listing);
    assert_eq!(obs.len(), 0);
}

#[test]
fn flush_skipped_when_not_dirty() {
    // the periodic flush fires while the journal is not dirty: the caller
    // sees a clean journal and writes nothing, so the snapshot is unchanged
    let mut journal = Journal::new();
    journal.upsert(chars_of("/src/a"), JournalEntry { sig: sig(1, 1), dest: chars_of("/backup/a") });
    let payload = encode_snapshot(&journal);
    let flushed = journal.mark_flushed();
    assert_eq!(flushed, 1);
    assert!(!journal.is_dirty());
    // nothing mutated since: still clean, and the payload would be identical
    assert!(!journal.is_dirty());
    assert_eq!(encode_snapshot(&journal), payload);
}

#[test]
fn journal_dirty_tracking() {
    let mut journal = Journal::new();
    assert!(!journal.is_dirty());
    journal.upsert(chars_of("/src/a"), JournalEntry { sig: sig(1, 1), dest: chars_of("/backup/a") });
    assert!(journal.is_dirty());
    journal.mark_flushed();
    assert!(!journal.is_dirty());
    // removing an untracked path is no mutation
    journal.remove(&chars_of("/src/zzz"));
    assert!(!journal.is_dirty());
    journal.remove(&chars_of("/src/a"));
    assert!(journal.is_dirty());
}

#[test]
fn snapshot_of_empty_journal_is_exact() {
    let journal = Journal::new();
    let text = encode_snapshot(&journal);
    assert_eq!(text_of(&text), "{\"count\":\"00000000000000000000\",\"entries\":[]}");
}

#[test]
fn snapshot_of_one_entry_is_exact() {
    let mut journal = Journal::new();
    journal.upsert(chars_of("a"), JournalEntry { sig: sig(10, 7), dest: chars_of("b") });
    let text = encode_snapshot(&journal);
    assert_eq!(
        text_of(&text),
        "{\"count\":\"00000000000000000001\",\"entries\":[{\"path\":\"000061\",\"size\":\"00000000000000000010\",\"mtime\":\"00000000000000000007\",\"dest\":\"000062\"}]}"
    );
}

#[test]
fn snapshot_roundtrip_restores_content() {
    // journal -> snapshot -> fresh journal: the mapping is equivalent
    let mut journal = Journal::new();
    journal.upsert(
        chars_of("/src/a.txt"),
        JournalEntry { sig: sig(10, 111), dest: chars_of("/backup/a.txt") },
    );
    journal.upsert(
        chars_of("/src/dir/ünïcode — name.txt"),
        JournalEntry { sig: sig(u64::MAX, 0), dest: chars_of("/backup/dir/ünïcode — name.txt") },
    );
    let text = encode_snapshot(&journal);
    let reloaded = parse_snapshot(&text).unwrap();
    assert!(!reloaded.is_dirty());
    assert_eq!(reloaded.num_entries(), 2);
    assert!(reloaded.entry_matches(
        &chars_of("/src/a.txt"),
        &sig(10, 111),
        &chars_of("/backup/a.txt"),
    ));
    assert!(reloaded.entry_matches(
        &chars_of("/src/dir/ünïcode — name.txt"),
        &sig(u64::MAX, 0),
        &chars_of("/backup/dir/ünïcode — name.txt"),
    ));
    // and re-encoding the reloaded journal gives the same bytes
    assert_eq!(encode_snapshot(&reloaded), text);
}

#[test]
fn snapshot_roundtrip_of_empty_journal() {
    let journal = Journal::new();
    let text = encode_snapshot(&journal);
    let reloaded = parse_snapshot(&text).unwrap();
    assert_eq!(reloaded.num_entries(), 0);
    assert!(!reloaded.is_dirty());
}

#[test]
fn corrupt_snapshot_is_rejected() {
    assert_eq!(parse_snapshot(&chars_of("")).err().unwrap(), SnapshotError::Malformed);
    assert_eq!(parse_snapshot(&chars_of("{}")).err().unwrap(), SnapshotError::Malformed);
    assert_eq!(
        parse_snapshot(&chars_of("{\"count\":\"00000000000000000001\",\"entries\":[]}"))
            .err().unwrap(),
        SnapshotError::Malformed,
    );
    // trailing garbage after a well-formed document
    assert_eq!(
        parse_snapshot(&chars_of("{\"count\":\"00000000000000000000\",\"entries\":[]} "))
            .err().unwrap(),
        SnapshotError::Malformed,
    );
}

#[test]
fn duplicate_path_snapshot_is_rejected() {
    let entry = "{\"path\":\"000061\",\"size\":\"00000000000000000010\",\"mtime\":\"00000000000000000007\",\"dest\":\"000062\"}";
    let doc = format!(
        "{{\"count\":\"00000000000000000002\",\"entries\":[{},{}]}}",
        entry, entry
    );
    let doc_chars: Vec<char> = doc.chars().collect();
    assert_eq!(parse_snapshot(&doc_chars).err().unwrap(), SnapshotError::DuplicatePath);
}

#[test]
fn crash_between_execute_and_flush_is_repaired_by_rescan() {
    // the copy executed and /backup/a.txt is current, but the process died
    // before the flush: the reloaded journal is stale. The next rescan sees
    // the live signature disagree and catches the journal up.
    let cfg = test_config();
    let mut journal = Journal::new();
    journal.upsert(
        chars_of("/src/a.txt"),
        JournalEntry { sig: sig(10, 1), dest: chars_of("/backup/a.txt") },
    );
    let flushed_text = encode_snapshot(&journal);
    // after the flush the file changed and the operation ran, but the
    // journal update never reached disk; restart from the stale snapshot
    let mut reloaded = parse_snapshot(&flushed_text).unwrap();
    let mut handler = IntentHandler::new();
    let listing = vec![(chars_of("/src/a.txt"), sig(12, 2))];
    let obs = rescan_observations(&cfg, &reloaded, &listing);
    assert_eq!(obs.len(), 1);
    for (path, state) in obs {
        let work = handler.handle_change(&cfg, &reloaded, path, state);
        for intent in &work {
            IntentHandler::record_success(&mut reloaded, intent);
        }
    }
    assert!(reloaded.entry_matches(&chars_of("/src/a.txt"), &sig(12, 2), &chars_of("/backup/a.txt")));
    // a second rescan over the same tree finds nothing left to do
    let obs = rescan_observations(&cfg, &reloaded, &listing);
    assert_eq!(obs.len(), 0);
}
