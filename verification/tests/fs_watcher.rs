use postflight::config::Config;
use postflight::diff::{FileSnapshot, SnapshotEntry};
use postflight::events::Event;
use postflight::fs_watcher::{poll_changes, FileChange, FsWatcher, Notice, WatchTable};
use postflight::time::Timestamp;

fn notice(name: Option<&str>) -> Notice {
    Notice {
        watch: 3,
        name: name.map(str::to_string),
        is_dir: false,
        create: false,
        modify: false,
        delete: false,
        access: false,
    }
}

fn table() -> WatchTable {
    let mut table = WatchTable::new();
    table.insert(3, "/old".to_string());
    table.insert(3, "/w/src".to_string());
    table
}

fn watcher() -> FsWatcher {
    FsWatcher::new("/w".to_string(), Config::default())
}

#[test]
fn notices_come_to_changes() {
    let watcher = watcher();
    let table = table();
    let found = |notice: Notice| watcher.consider(&table, &notice).unwrap();

    let created = found(Notice { create: true, modify: true, ..notice(Some("a.rs")) });
    assert_eq!(created.path, "/w/src/a.rs");
    assert!(created.change == Some(FileChange::Created) && !created.new_directory);
    let directory = found(Notice { create: true, is_dir: true, ..notice(Some("sub")) });
    assert!(directory.new_directory && directory.change == Some(FileChange::Created));
    let modified = found(Notice { modify: true, access: true, ..notice(Some("a.rs")) });
    assert!(modified.change == Some(FileChange::Modified));
    let deleted = found(Notice { delete: true, is_dir: true, ..notice(Some("a.rs")) });
    assert!(deleted.change == Some(FileChange::Deleted) && !deleted.new_directory);
    let read = found(Notice { access: true, ..notice(Some("a.rs")) });
    assert!(read.change == Some(FileChange::Read));
    assert!(found(notice(Some("a.rs"))).change.is_none());
}

#[test]
fn some_notices_come_to_nothing() {
    let watcher = watcher();
    let table = table();
    let unknown = Notice { watch: 4, create: true, ..notice(Some("a.rs")) };
    assert!(watcher.consider(&table, &unknown).is_none());
    assert!(watcher.consider(&table, &Notice { create: true, ..notice(None) }).is_none());
    let excluded = Notice { create: true, ..notice(Some("target")) };
    assert!(watcher.consider(&table, &excluded).is_none());
}

#[test]
fn changes_are_taken_down_and_handed_out_once() {
    let mut watcher = watcher();
    watcher.take_down("/w/a".to_string(), FileChange::Created, Some(5));
    watcher.take_down("/w/a".to_string(), FileChange::Modified, None);
    watcher.take_down("/w/a".to_string(), FileChange::Deleted, Some(9));
    watcher.take_down("/w/b".to_string(), FileChange::Read, Some(1));
    watcher.take_down("/w/a".to_string(), FileChange::Read, None);
    watcher.take_down("/w//b".to_string(), FileChange::Read, None);

    let events = watcher.drain_events();
    assert_eq!(events.len(), 3);
    assert!(matches!(&events[0], Event::FileCreated(e) if e.path == "/w/a" && e.size_bytes == Some(5)));
    assert!(matches!(&events[1], Event::FileModified(e) if e.size_bytes.is_none()));
    assert!(matches!(&events[2], Event::FileDeleted(e) if e.size_bytes.is_none()));
    assert!(watcher.drain_events().is_empty());
    assert_eq!(watcher.read_paths(), vec!["/w/a", "/w/b"]);
    assert_eq!(watcher.workspace(), "/w");
}

#[test]
fn polling_compares_the_times() {
    let at = |secs: i64| SnapshotEntry {
        mtime: Timestamp { secs, nanos: 0 },
        size: 0,
        content_hash: 0,
    };
    let mut known = FileSnapshot::new();
    known.insert("/w/same".to_string(), at(1));
    known.insert("/w/touched".to_string(), at(1));
    known.insert("/w/gone".to_string(), at(1));
    let mut current = FileSnapshot::new();
    current.insert("/w/same".to_string(), at(1));
    current.insert("/w/touched".to_string(), at(2));
    current.insert("/w/new".to_string(), at(3));

    let changes = poll_changes(&known, &current);
    let seen: Vec<(&str, FileChange)> =
        changes.iter().map(|c| (c.path.as_str(), c.change)).collect();
    assert_eq!(
        seen,
        vec![
            ("/w/new", FileChange::Created),
            ("/w/touched", FileChange::Modified),
            ("/w/gone", FileChange::Deleted),
        ]
    );
}

#[test]
fn a_workspace_that_stands_still_shows_no_change() {
    let entry = SnapshotEntry {
        mtime: Timestamp { secs: 5, nanos: 6 },
        size: 1,
        content_hash: 2,
    };
    let mut known = FileSnapshot::new();
    known.insert("/w/a".to_string(), entry);
    let mut current = FileSnapshot::new();
    current.insert("/w//a".to_string(), SnapshotEntry { content_hash: 3, ..entry });
    assert!(poll_changes(&known, &current).is_empty());
}

#[test]
fn changes_are_dated_when_they_are_taken_down() {
    let mut watcher = watcher();
    let before = Timestamp::now();
    watcher.take_down("/w/a".to_string(), FileChange::Created, None);
    let after = Timestamp::now();
    match &watcher.drain_events()[0] {
        Event::FileCreated(event) => {
            assert!(before.secs <= event.timestamp.secs && event.timestamp.secs <= after.secs);
            assert!(event.timestamp.nanos < 1_000_000_000);
        }
        _ => panic!("not a creation"),
    }
}
