use mdvault::watcher::{
    diff_snapshots, fingerprint, scan_files, ChangePoller, ChangeType, FileChangeEvent, FileSnapshot,
    FileStat, LoopStep, WatchedFile, WatcherControl, WatcherState, POLL_INTERVAL_SECS,
};

const T: u64 = 1_700_000_000;

fn md(path: &str, size: u64, secs: u64) -> WatchedFile {
    WatchedFile {
        path: path.to_string(),
        is_file: true,
        stat: Some(FileStat { size, modified_secs: Some(secs) }),
    }
}

fn event(path: &str, change_type: ChangeType) -> FileChangeEvent {
    FileChangeEvent { path: path.to_string(), change_type }
}

#[test]
fn fingerprint_is_size_xor_seconds() {
    assert_eq!(fingerprint(10, Some(T)), 10 ^ T);
    assert_eq!(fingerprint(0b1100, Some(0b1010)), 0b0110);
    assert_eq!(fingerprint(77, None), 77);
    assert_eq!(fingerprint(0, Some(0)), 0);
    assert_eq!(fingerprint(u64::MAX, Some(u64::MAX)), 0);
}

#[test]
fn resized_file_is_modified() {
    let mut poller = ChangePoller::new(scan_files(&vec![md("a.md", 10, T)]));
    let batch = poller.poll(scan_files(&vec![md("a.md", 20, T)]));
    assert_eq!(batch, Some(vec![event("a.md", ChangeType::Modified)]));
}

#[test]
fn new_file_is_created() {
    let mut poller = ChangePoller::new(scan_files(&vec![md("a.md", 10, T)]));
    let batch = poller.poll(scan_files(&vec![md("a.md", 10, T), md("b.md", 5, T)]));
    assert_eq!(batch, Some(vec![event("b.md", ChangeType::Created)]));
}

#[test]
fn removed_file_is_deleted() {
    let mut poller = ChangePoller::new(scan_files(&vec![md("a.md", 10, T)]));
    let batch = poller.poll(scan_files(&vec![]));
    assert_eq!(batch, Some(vec![event("a.md", ChangeType::Deleted)]));
}

#[test]
fn nothing_changed_nothing_emitted() {
    let files = vec![md("a.md", 10, T), md("dir/b.md", 3, T + 5)];
    let mut poller = ChangePoller::new(scan_files(&files));
    assert_eq!(poller.poll(scan_files(&files)), None);
    assert_eq!(poller.poll(scan_files(&files)), None);
    let mut empty = ChangePoller::new(FileSnapshot::new());
    assert_eq!(empty.poll(FileSnapshot::new()), None);
}

#[test]
fn poller_retains_the_latest_snapshot() {
    let mut poller = ChangePoller::new(scan_files(&vec![md("a.md", 10, T)]));
    assert!(poller.poll(scan_files(&vec![md("a.md", 20, T)])).is_some());
    assert_eq!(poller.poll(scan_files(&vec![md("a.md", 20, T)])), None);
    assert_eq!(
        poller.poll(scan_files(&vec![md("a.md", 10, T)])),
        Some(vec![event("a.md", ChangeType::Modified)])
    );
}

#[test]
fn changes_come_before_deletions_in_path_order() {
    let old = scan_files(&vec![md("z.md", 1, T), md("k.md", 1, T), md("c.md", 1, T), md("m.md", 1, T)]);
    let new = scan_files(&vec![md("x.md", 1, T), md("m.md", 2, T), md("b.md", 1, T), md("k.md", 1, T)]);
    assert_eq!(
        diff_snapshots(&old, &new),
        vec![
            event("b.md", ChangeType::Created),
            event("m.md", ChangeType::Modified),
            event("x.md", ChangeType::Created),
            event("c.md", ChangeType::Deleted),
            event("z.md", ChangeType::Deleted),
        ]
    );
}

#[test]
fn scan_records_readable_markdown_files_only() {
    let files = vec![
        md("b.md", 2, T),
        md("a.txt", 1, T),
        WatchedFile { path: "dir.md".to_string(), is_file: false, stat: Some(FileStat { size: 1, modified_secs: Some(T) }) },
        WatchedFile { path: "gone.md".to_string(), is_file: true, stat: None },
        md("A.MD", 7, T),
        WatchedFile { path: "old.md".to_string(), is_file: true, stat: Some(FileStat { size: 9, modified_secs: None }) },
    ];
    let snapshot = scan_files(&files);
    assert_eq!(snapshot.len(), 3);
    assert_eq!(snapshot.get("b.md"), Some(2 ^ T));
    assert_eq!(snapshot.get("A.MD"), Some(7 ^ T));
    assert_eq!(snapshot.get("old.md"), Some(9));
    assert_eq!(snapshot.get("a.txt"), None);
    assert_eq!(snapshot.get("dir.md"), None);
    assert_eq!(snapshot.get("gone.md"), None);
    assert_eq!(snapshot.entry(0).path, "A.MD");
    assert_eq!(snapshot.entry(2).fingerprint, 9);
}

#[test]
fn insert_replaces_the_fingerprint_of_a_path() {
    let mut snapshot = FileSnapshot::new();
    snapshot.insert("n.md".to_string(), 1);
    snapshot.insert("a.md".to_string(), 2);
    snapshot.insert("n.md".to_string(), 3);
    assert_eq!(snapshot.len(), 2);
    assert_eq!(snapshot.get("n.md"), Some(3));
    assert_eq!(snapshot.get("a.md"), Some(2));
    assert_eq!(snapshot.get("zz.md"), None);
}

#[test]
fn many_inserts_stay_findable() {
    let mut snapshot = FileSnapshot::new();
    for i in 0..200u64 {
        snapshot.insert(format!("f{}.md", (i * 37) % 200), i);
    }
    assert_eq!(snapshot.len(), 200);
    for i in 0..200u64 {
        assert_eq!(snapshot.get(&format!("f{}.md", (i * 37) % 200)), Some(i));
    }
    for i in 1..snapshot.len() {
        assert!(snapshot.entry(i - 1).path < snapshot.entry(i).path);
    }
}

#[test]
fn control_starts_stopped_and_runs_one_session() {
    let mut control = WatcherControl::new();
    assert_eq!(control.state(), WatcherState::Stopped);
    assert!(!control.is_active(0));
    let first = control.start().unwrap();
    assert_eq!(first, 1);
    assert_eq!(control.state(), WatcherState::Running);
    assert!(control.is_active(first));
    assert_eq!(control.next_step(first), LoopStep::Poll);
    let second = control.start().unwrap();
    assert_eq!(second, 2);
    assert!(!control.is_active(first));
    assert_eq!(control.next_step(first), LoopStep::Exit);
    assert!(control.is_active(second));
    control.stop();
    assert_eq!(control.state(), WatcherState::Stopped);
    assert!(!control.is_active(second));
    assert_eq!(control.next_step(second), LoopStep::Exit);
    control.stop();
    assert_eq!(control.state(), WatcherState::Stopped);
    let third = control.start().unwrap();
    assert_eq!(third, 3);
    assert!(!control.is_active(second) && control.is_active(third));
}

#[test]
fn change_names_and_interval() {
    assert_eq!(ChangeType::Created.name(), "created");
    assert_eq!(ChangeType::Modified.name(), "modified");
    assert_eq!(ChangeType::Deleted.name(), "deleted");
    assert_eq!(POLL_INTERVAL_SECS, 2);
}
