use postflight::config::Config;
use postflight::walk::{entry_kind, visit, DirEntry, DirWalk, EntryKind, Visit};

#[test]
fn links_to_directories_are_never_gone_into() {
    assert!(visit(EntryKind::Directory, false) == Visit::Descend);
    assert!(visit(EntryKind::File, false) == Visit::Record);
    assert!(visit(EntryKind::LinkToFile, false) == Visit::Record);
    assert!(visit(EntryKind::OtherLink, false) == Visit::Skip);
    assert!(visit(EntryKind::Other, false) == Visit::Skip);
    assert!(visit(EntryKind::Directory, true) == Visit::Skip);
    assert!(visit(EntryKind::File, true) == Visit::Skip);
}

#[test]
fn kinds_follow_from_what_the_system_tells() {
    assert!(entry_kind(true, false, false, false) == EntryKind::Directory);
    assert!(entry_kind(false, true, false, false) == EntryKind::File);
    assert!(entry_kind(false, false, true, true) == EntryKind::LinkToFile);
    assert!(entry_kind(false, false, true, false) == EntryKind::OtherLink);
    assert!(entry_kind(false, false, false, false) == EntryKind::Other);
}

fn entries(list: &[(&str, EntryKind)]) -> Vec<DirEntry> {
    list.iter().map(|(path, kind)| DirEntry { path: path.to_string(), kind: *kind }).collect()
}

fn holds(dir: &str) -> Vec<DirEntry> {
    match dir {
        "/w" => entries(&[
            ("/w/src", EntryKind::Directory),
            ("/w/a", EntryKind::File),
            ("/w/target", EntryKind::Directory),
            ("/w/link", EntryKind::OtherLink),
            ("/w/to_a", EntryKind::LinkToFile),
            ("/w/docs", EntryKind::Directory),
        ]),
        "/w/src" => entries(&[
            ("/w/src/deep", EntryKind::Directory),
            ("/w/src/main.rs", EntryKind::File),
            ("/w/src/.git", EntryKind::File),
        ]),
        "/w/src/deep" => entries(&[("/w/src/deep/x", EntryKind::File)]),
        "/w/target" => panic!("left out"),
        _ => Vec::new(),
    }
}

#[test]
fn a_walk_goes_through_every_directory_that_is_not_left_out() {
    let config = Config::default();
    let mut walk = DirWalk::start("/w");
    let mut visited = Vec::new();
    while let Some(dir) = walk.next_dir() {
        walk.take_listing(&config, &holds(&dir));
        visited.push(dir);
    }
    assert_eq!(visited, vec!["/w", "/w/docs", "/w/src", "/w/src/deep"]);
    assert_eq!(walk.files, vec!["/w/a", "/w/to_a", "/w/src/main.rs", "/w/src/deep/x"]);
    assert!(walk.to_visit.is_empty());
}

#[test]
fn a_directory_that_is_left_out_can_still_be_begun_with() {
    let config = Config::default();
    assert_eq!(DirWalk::start("/w/target").to_visit, vec!["/w/target"]);
    assert_eq!(DirWalk::start_unless_excluded(&config, "/w").to_visit, vec!["/w"]);
    let mut none = DirWalk::start_unless_excluded(&config, "/w/target");
    assert_eq!(none.next_dir(), None);
}
