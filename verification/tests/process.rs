use postflight::process::{
    children_path, cmdline_argv, cmdline_path, listed_count, listed_pids, parse_children,
    placeholder_argv, procargs_argv, PidWalk, ProcessTracker,
};
use postflight::time::Duration;

fn argv(words: &[&str]) -> Vec<String> {
    words.iter().map(|word| word.to_string()).collect()
}

#[test]
fn processes_are_followed_from_spawn_to_exit() {
    let mut tracker = ProcessTracker::new(10, 250);
    assert_eq!(tracker.poll_interval().subsec_nanos(), 250_000_000);

    let current = vec![11, 12, 11];
    assert_eq!(tracker.new_pids(&current), vec![11, 12]);
    let (spawns, exits) =
        tracker.poll(&current, vec![argv(&["sh", "-c"]), argv(&["ls"])], Duration::from_secs(1));
    assert_eq!(spawns.len(), 2);
    assert_eq!((spawns[0].pid, spawns[0].ppid), (11, 10));
    assert_eq!(spawns[0].argv, vec!["sh", "-c"]);
    assert_eq!((spawns[1].pid, spawns[1].ppid), (12, 10));
    assert!(exits.is_empty());

    let current = vec![12, 13];
    assert_eq!(tracker.new_pids(&current), vec![13]);
    let (spawns, exits) = tracker.poll(&current, vec![argv(&["cat"])], Duration::from_secs(4));
    assert_eq!(spawns.len(), 1);
    assert_eq!(exits.len(), 1);
    assert_eq!(exits[0].pid, 11);
    assert_eq!(exits[0].exit_code, None);
    assert!(exits[0].duration == Duration::from_secs(3));

    let exits = tracker.finish_all(Duration::from_secs(10));
    assert_eq!(exits.iter().map(|e| e.pid).collect::<Vec<_>>(), vec![12, 13]);
    assert!(exits[0].duration == Duration::from_secs(9));
    assert!(exits[1].duration == Duration::from_secs(6));
    assert!(tracker.finish_all(Duration::from_secs(11)).is_empty());
}

#[test]
fn a_process_that_comes_back_is_reported_again() {
    let mut tracker = ProcessTracker::new(1, 10);
    let one = vec![5];
    let none = Vec::new();
    assert_eq!(tracker.poll(&one, vec![argv(&["a"])], Duration::from_secs(0)).0.len(), 1);
    assert_eq!(tracker.poll(&one, vec![], Duration::from_secs(1)).0.len(), 0);
    assert_eq!(tracker.poll(&none, vec![], Duration::from_secs(2)).1.len(), 1);
    assert_eq!(tracker.poll(&one, vec![argv(&["b"])], Duration::from_secs(3)).0.len(), 1);
}

#[test]
fn lists_of_children_are_read() {
    assert_eq!(parse_children("12 34\n56 "), vec![12, 34, 56]);
    assert_eq!(parse_children("12 x -3 99999999999 4"), vec![12, 4]);
    assert_eq!(parse_children(""), Vec::<u32>::new());
    assert_eq!(children_path(42), "/proc/42/task/42/children");
}

#[test]
fn slots_of_a_listing_are_read() {
    assert_eq!(listed_count(12, 10), 3);
    assert_eq!(listed_count(15, 10), 3);
    assert_eq!(listed_count(400, 10), 10);
    assert_eq!(listed_count(0, 10), 0);
    assert_eq!(listed_count(-1, 10), 0);
    assert_eq!(listed_pids(&vec![7, 0, -2, 9, 11], 4), vec![7, 9]);
}

#[test]
fn a_walk_finds_the_whole_tree() {
    let children = |pid: u32| match pid {
        1 => vec![2, 3],
        3 => vec![4],
        _ => vec![],
    };
    let mut walk = PidWalk::with_root(1);
    let mut checked = Vec::new();
    while let Some(parent) = walk.next_parent() {
        checked.push(parent);
        walk.take_children(&children(parent));
    }
    assert_eq!(walk.found, vec![1, 2, 3, 4]);
    assert_eq!(checked, vec![1, 3, 4, 2]);

    let mut walk = PidWalk::below_root(1);
    while let Some(parent) = walk.next_parent() {
        walk.take_children(&children(parent));
    }
    assert_eq!(walk.found, vec![2, 3, 4]);
}

#[test]
fn arguments_are_read_between_zero_bytes() {
    let data = Some(b"cargo\0test\0\0--lib\0".to_vec());
    assert_eq!(cmdline_argv(7, &data), vec!["cargo", "test", "--lib"]);
    assert_eq!(cmdline_argv(7, &Some("grüß\0".as_bytes().to_vec())), vec!["grüß"]);
    assert_eq!(cmdline_argv(7, &Some(b"a\0\xff\0b".to_vec())), vec!["a", "b"]);
    assert_eq!(cmdline_argv(7, &Some(b"".to_vec())), vec!["<pid:7>"]);
    assert_eq!(cmdline_argv(7, &Some(b"\0\0".to_vec())), vec!["<pid:7>"]);
    assert_eq!(cmdline_argv(7, &Some(b"\xff\0".to_vec())), vec!["<pid:7>"]);
    assert_eq!(cmdline_argv(7, &None), vec!["<pid:7>"]);
    assert_eq!(cmdline_path(7), "/proc/7/cmdline");
    assert_eq!(placeholder_argv(0), vec!["<pid:0>"]);
}

#[test]
fn arguments_are_read_from_the_block_of_a_mac() {
    let block = |rest: &[u8]| {
        let mut data = vec![2, 0, 0, 0];
        data.extend_from_slice(rest);
        data
    };
    let data = block(b"/bin/ls\0\0\0ls\0-l\0HOME=/root\0");
    assert_eq!(procargs_argv(9, 2, &data), vec!["ls", "-l"]);
    assert_eq!(procargs_argv(9, 5, &data), vec!["ls", "-l", "HOME=/root"]);
    assert_eq!(procargs_argv(9, 0, &data), vec!["<pid:9>"]);
    assert_eq!(procargs_argv(9, -1, &data), vec!["<pid:9>"]);
    assert_eq!(procargs_argv(9, 3, &block(b"/bin/ls\0ls\0\0x")), vec!["ls", "", "x"]);
    assert_eq!(procargs_argv(9, 2, &block(b"/p\0\xff\0ok\0")), vec!["ok"]);
    assert_eq!(procargs_argv(9, 1, &vec![1, 0, 0]), vec!["<pid:9>"]);
    assert_eq!(procargs_argv(9, 1, &block(b"/bin/ls")), vec!["<pid:9>"]);
}

#[test]
fn spawns_and_exits_of_a_process_take_turns() {
    let looks: [&[u32]; 7] = [&[5, 6], &[6], &[6, 5], &[], &[5], &[5, 7], &[7]];
    let mut tracker = ProcessTracker::new(1, 10);
    let mut reports: Vec<(u32, bool)> = Vec::new();
    for (second, pids) in looks.iter().enumerate() {
        let current = pids.to_vec();
        let argvs = tracker.new_pids(&current).iter().map(|_| argv(&["x"])).collect();
        let (spawns, exits) = tracker.poll(&current, argvs, Duration::from_secs(second as u64));
        assert!(spawns.iter().all(|event| event.timestamp.secs > 1_700_000_000));
        assert!(exits.iter().all(|event| event.timestamp.secs > 1_700_000_000));
        reports.extend(spawns.iter().map(|event| (event.pid, true)));
        reports.extend(exits.iter().map(|event| (event.pid, false)));
    }
    let last = tracker.finish_all(Duration::from_secs(9));
    assert!(last.iter().all(|event| event.timestamp.secs > 1_700_000_000));
    reports.extend(last.iter().map(|event| (event.pid, false)));
    assert!(tracker.finish_all(Duration::from_secs(9)).is_empty());

    let of = |pid: u32| -> Vec<bool> {
        reports.iter().filter(|report| report.0 == pid).map(|report| report.1).collect()
    };
    assert_eq!(of(5), vec![true, false, true, false, true, false]);
    assert_eq!(of(6), vec![true, false]);
    assert_eq!(of(7), vec![true, false]);
    assert!(of(8).is_empty());
}
