use postflight::diff::{
    assemble_diff, can_compare, capture_content, capture_snapshot, diff_snapshots,
    format_diff_colored, generate_unified_diff, generate_unified_diff_relative, hash_file_content,
    FileSnapshot, SnapshotEntry, WalkedFile,
};
use postflight::time::Timestamp;
use std::hash::{Hash, Hasher};

const EPOCH: Timestamp = Timestamp { secs: 0, nanos: 0 };

#[test]
fn test_unified_diff() {
    let old = "line1\nline2\nline3\n";
    let new = "line1\nmodified\nline3\n";
    let diff = generate_unified_diff(old, new, "test.txt");
    assert!(diff.contains("--- a/test.txt"));
    assert!(diff.contains("+++ b/test.txt"));
    assert!(diff.contains("-line2"));
    assert!(diff.contains("+modified"));
}

#[test]
fn test_unified_diff_uses_relative_path() {
    let old = "aaa\n";
    let new = "bbb\n";
    let abs_path = "/home/user/project/src/main.rs";
    let workspace = "/home/user/project";
    let diff = generate_unified_diff_relative(old, new, abs_path, Some(workspace));
    assert!(diff.contains("--- a/src/main.rs"));
    assert!(diff.contains("+++ b/src/main.rs"));
    assert!(!diff.contains("/home/user/project"));
}

#[test]
fn test_diff_snapshots_detects_changes() {
    let mut before = FileSnapshot::new();
    let mut after = FileSnapshot::new();
    let time1 = EPOCH;
    let time2 = Timestamp::now();

    before.insert(
        "/a.txt".to_string(),
        SnapshotEntry { mtime: time1, size: 100, content_hash: 111 },
    );
    before.insert(
        "/b.txt".to_string(),
        SnapshotEntry { mtime: time1, size: 50, content_hash: 222 },
    );
    after.insert(
        "/a.txt".to_string(),
        SnapshotEntry { mtime: time2, size: 120, content_hash: 333 },
    );
    after.insert(
        "/c.txt".to_string(),
        SnapshotEntry { mtime: time2, size: 30, content_hash: 444 },
    );

    let result = diff_snapshots(&before, &after);
    assert_eq!(result.modified, vec!["/a.txt".to_string()]);
    assert_eq!(result.created, vec!["/c.txt".to_string()]);
    assert_eq!(result.deleted, vec!["/b.txt".to_string()]);
}

#[test]
fn test_diff_snapshots_same_mtime_different_content() {
    let mut before = FileSnapshot::new();
    let mut after = FileSnapshot::new();

    before.insert(
        "/sneaky.txt".to_string(),
        SnapshotEntry { mtime: EPOCH, size: 10, content_hash: 100 },
    );
    after.insert(
        "/sneaky.txt".to_string(),
        SnapshotEntry { mtime: EPOCH, size: 10, content_hash: 200 },
    );

    let result = diff_snapshots(&before, &after);
    assert_eq!(result.modified, vec!["/sneaky.txt".to_string()]);
    assert!(result.created.is_empty());
    assert!(result.deleted.is_empty());
}

#[test]
fn test_diff_snapshots_same_content_no_false_positive() {
    let mut before = FileSnapshot::new();
    let mut after = FileSnapshot::new();

    before.insert(
        "/stable.txt".to_string(),
        SnapshotEntry { mtime: EPOCH, size: 10, content_hash: 999 },
    );
    after.insert(
        "/stable.txt".to_string(),
        SnapshotEntry { mtime: Timestamp::now(), size: 10, content_hash: 999 },
    );

    let result = diff_snapshots(&before, &after);
    assert!(result.modified.is_empty());
}

fn entry(hash: u64) -> SnapshotEntry {
    SnapshotEntry { mtime: EPOCH, size: 1, content_hash: hash }
}

fn snapshot(files: &[(&str, u64)]) -> FileSnapshot {
    let mut snapshot = FileSnapshot::new();
    for (path, hash) in files {
        snapshot.insert(path.to_string(), entry(*hash));
    }
    snapshot
}

#[test]
fn changes_come_in_path_order() {
    let before = snapshot(&[("/w/z", 1), ("/w/a/x", 1), ("/w/a.b", 1)]);
    let after = snapshot(&[]);
    let result = diff_snapshots(&before, &after);
    assert_eq!(result.deleted, vec!["/w/a/x", "/w/a.b", "/w/z"]);
    assert_eq!(diff_snapshots(&after, &before).created, result.deleted);
}

#[test]
fn a_snapshot_does_not_differ_from_itself() {
    let files = snapshot(&[("/a", 1), ("/b", 2)]);
    let result = diff_snapshots(&files, &files);
    assert!(result.created.is_empty() && result.modified.is_empty() && result.deleted.is_empty());
}

#[test]
fn paths_with_the_same_components_are_one_file() {
    let mut files = FileSnapshot::new();
    assert_eq!(files.insert("/a//b/".to_string(), entry(1)), None);
    assert_eq!(files.insert("/a/b".to_string(), entry(2)), Some(entry(1)));
    assert_eq!(files.len(), 1);
    assert_eq!(files.path_at(0), "/a//b/");
    assert_eq!(files.entry_at(0), entry(2));
    assert_eq!(files.get("/a/./b"), Some(entry(2)));
    assert!(!files.contains_key("/a"));
}

#[test]
fn a_walk_records_files_that_could_be_read() {
    let walked = vec![
        WalkedFile { path: "/w/b".to_string(), entry: Some(entry(1)) },
        WalkedFile { path: "/w/a".to_string(), entry: Some(entry(2)) },
        WalkedFile { path: "/w/c".to_string(), entry: None },
        WalkedFile { path: "/w/b".to_string(), entry: Some(entry(3)) },
    ];
    let files = capture_snapshot(&walked);
    assert_eq!(files.len(), 2);
    assert_eq!(files.path_at(0), "/w/a");
    assert_eq!(files.get("/w/b"), Some(entry(3)));
    assert_eq!(files.get("/w/c"), None);
}

#[test]
fn the_hash_of_a_content_is_that_of_the_standard_library() {
    for content in [b"".to_vec(), b"x".to_vec(), vec![0u8; 1000]] {
        let mut hasher = std::collections::hash_map::DefaultHasher::new();
        content.hash(&mut hasher);
        assert_eq!(hash_file_content(&Some(content)), hasher.finish());
    }
    assert_eq!(hash_file_content(&None), 0);
}

#[test]
fn small_files_are_kept_for_a_comparison() {
    let mut files = FileSnapshot::new();
    let sized = |size: u64| SnapshotEntry { mtime: EPOCH, size, content_hash: 0 };
    files.insert("/limit".to_string(), sized(512 * 1024));
    files.insert("/above".to_string(), sized(512 * 1024 + 1));
    files.insert("/small".to_string(), sized(0));
    assert_eq!(capture_content(&files), vec!["/limit", "/small"]);
}

#[test]
fn a_unified_diff_in_full() {
    let old = "1\n2\n3\n4\n5\n6\n7\n8\n9\n";
    let new = "1\n2\n3\n4\nfive\n6\n7\n8\n9\n";
    assert_eq!(
        generate_unified_diff(old, new, "n.txt"),
        "--- a/n.txt\n+++ b/n.txt\n@@ -2,7 +2,7 @@\n 2\n 3\n 4\n-5\n+five\n 6\n 7\n 8\n"
    );
}

#[test]
fn a_text_does_not_differ_from_itself() {
    assert_eq!(generate_unified_diff("a\nb\n", "a\nb\n", "x"), "--- a/x\n+++ b/x\n");
    assert_eq!(generate_unified_diff("", "", "x"), "--- a/x\n+++ b/x\n");
}

#[test]
fn a_file_outside_the_workspace_keeps_its_path() {
    let diff = generate_unified_diff_relative("a\n", "b\n", "/etc/hosts", Some("/home/user"));
    assert!(diff.starts_with("--- a//etc/hosts\n+++ b//etc/hosts\n@@"));
}

#[test]
fn hunks_are_put_below_the_names() {
    let hunks = vec!["@@ one\n".to_string(), "@@ two\n".to_string()];
    assert_eq!(assemble_diff("f", &hunks), "--- a/f\n+++ b/f\n@@ one\n@@ two\n");
}

#[test]
fn lines_of_a_diff_have_their_looks() {
    colored::control::set_override(true);
    let content = "--- a/f\n+++ b/f\n@@ -1 +1 @@\n-old\n+new\n same\n--x\n";
    assert_eq!(
        format_diff_colored(content),
        "\u{1b}[1m--- a/f\u{1b}[0m\n\u{1b}[1m+++ b/f\u{1b}[0m\n\u{1b}[36m@@ -1 +1 @@\u{1b}[0m\n\
         \u{1b}[31m-old\u{1b}[0m\n\u{1b}[32m+new\u{1b}[0m\n same\n\u{1b}[31m--x\u{1b}[0m\n"
    );
    colored::control::set_override(false);
    assert_eq!(format_diff_colored("+a\nb"), "+a\nb\n");
}

#[test]
fn ordinary_texts_can_be_compared() {
    assert!(can_compare("", ""));
    assert!(can_compare("a\nb\r\nc", &"x\n".repeat(1000)));
}

#[test]
fn every_change_is_in_one_list() {
    let hashed = |hash: u64| SnapshotEntry { mtime: EPOCH, size: 0, content_hash: hash };
    let mut before = FileSnapshot::new();
    let mut after = FileSnapshot::new();
    for name in ["kept", "changed", "gone"] {
        before.insert(format!("/w/{name}"), hashed(1));
    }
    after.insert("/w/./kept".to_string(), hashed(1));
    after.insert("/w//changed".to_string(), hashed(2));
    after.insert("/w/new".to_string(), hashed(3));
    let changes = diff_snapshots(&before, &after);
    assert_eq!(changes.created, vec!["/w/new"]);
    assert_eq!(changes.modified, vec!["/w//changed"]);
    assert_eq!(changes.deleted, vec!["/w/gone"]);
}

#[test]
fn a_walk_keeps_the_first_text_of_a_path() {
    let walked = vec![
        WalkedFile { path: "/w/src/a.rs".to_string(), entry: Some(entry(1)) },
        WalkedFile { path: "/w/b.rs".to_string(), entry: Some(entry(2)) },
        WalkedFile { path: "/w/./src//a.rs".to_string(), entry: Some(entry(3)) },
    ];
    let found = capture_snapshot(&walked);
    assert!(found.get("/w/src/a.rs").unwrap().content_hash == 3);
    let changes = diff_snapshots(&FileSnapshot::new(), &found);
    assert_eq!(changes.created, vec!["/w/b.rs", "/w/src/a.rs"]);
}

/// Carries out the lines of a unified diff on a text, from the places where its hunks begin.
fn patched(old: &str, diff: &str) -> String {
    let old: Vec<&str> = old.split_inclusive('\n').collect();
    let mut at = 0;
    let mut new = String::new();
    let mut lines = diff.split_inclusive('\n').skip(2).peekable();
    while let Some(line) = lines.next() {
        if let Some(range) = line.strip_prefix("@@ -") {
            let numbers = range.split(' ').next().unwrap();
            let (start, count) = numbers.split_once(',').unwrap_or((numbers, "1"));
            let start: usize = start.parse().unwrap();
            let first = if count == "0" { start } else { start - 1 };
            new.extend(old[at..first].iter().copied());
            at = first;
            continue;
        }
        let mut text = &line[1..];
        if lines.peek().is_some_and(|next| next.starts_with('\\')) {
            assert_eq!(lines.next(), Some("\\ No newline at end of file\n"));
            text = text.strip_suffix('\n').unwrap();
        }
        if !line.starts_with('+') {
            assert_eq!(text, old[at]);
            at += 1;
        }
        if !line.starts_with('-') {
            new.push_str(text);
        }
    }
    new.extend(old[at..].iter().copied());
    new
}

#[test]
fn the_hunks_of_a_diff_are_a_patch() {
    let numbered: Vec<String> = (0..40).map(|n| format!("line {n}\n")).collect();
    let old = numbered.concat();
    let mut changed = numbered.clone();
    changed[2] = "changed\n".to_string();
    changed.remove(20);
    changed.insert(35, "added\n".to_string());
    for new in [changed.concat(), String::new(), format!("first\n{old}last\n"), old.clone()] {
        assert_eq!(patched(&old, &generate_unified_diff(&old, &new, "f")), new);
        assert_eq!(patched(&new, &generate_unified_diff(&new, &old, "f")), old);
    }
}

#[test]
fn the_hunks_of_short_texts_are_patches() {
    let mut texts = vec![String::new()];
    let mut from = 0;
    for _ in 0..4 {
        let to = texts.len();
        for i in from..to {
            for letter in ["a", "b", "c"] {
                let longer = format!("{}{letter}\n", texts[i]);
                texts.push(longer);
            }
        }
        from = to;
    }
    let unended: Vec<String> =
        texts.iter().filter_map(|text| text.strip_suffix('\n')).map(str::to_string).collect();
    texts.extend(unended);
    for old in &texts {
        for new in &texts {
            let diff = generate_unified_diff(old, new, "f");
            assert_eq!(&patched(old, &diff), new);
            assert_eq!(old == new, diff == "--- a/f\n+++ b/f\n");
        }
    }
}

#[test]
fn the_numbers_of_a_hunk_need_not_count_its_lines() {
    assert_eq!(
        generate_unified_diff("a\nb\n", "b\nb\n", "f"),
        "--- a/f\n+++ b/f\n@@ -1 +2 @@\n-a\n b\n+b\n"
    );
}

#[test]
fn a_last_line_without_an_end_is_noted() {
    assert_eq!(
        generate_unified_diff("a\n", "b", "f"),
        "--- a/f\n+++ b/f\n@@ -1 +1 @@\n-a\n+b\n\\ No newline at end of file\n"
    );
}

#[test]
fn changes_look_the_same_from_the_other_side() {
    let before = snapshot(&[("/w/a", 1), ("/w/b", 2), ("/w/src/c", 3)]);
    let after = snapshot(&[("/w/b", 5), ("/w/d", 4), ("/w/src/./c", 6)]);
    let there = diff_snapshots(&before, &after);
    let back = diff_snapshots(&after, &before);
    assert_eq!(there.created, back.deleted);
    assert_eq!(there.deleted, back.created);
    assert_eq!(there.modified, vec!["/w/b", "/w/src/./c"]);
    assert_eq!(back.modified, vec!["/w/b", "/w/src/c"]);
}
