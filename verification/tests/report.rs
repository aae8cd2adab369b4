use postflight::report::{
    file_size_label, format_bytes, format_duration, format_exit_code, group_by_directory,
    render_terminal, summarize_directories,
};
use postflight::session::{ConnectionSummary, SessionSummary, SubprocessSummary};
use postflight::time::{Duration, Timestamp};

#[test]
fn test_format_duration() {
    assert_eq!(format_duration(Duration::from_secs(5)), "5s");
    assert_eq!(format_duration(Duration::from_secs(65)), "1m 5s");
    assert_eq!(format_duration(Duration::from_secs(3665)), "1h 1m 5s");
}

#[test]
fn test_format_bytes() {
    assert_eq!(format_bytes(500), "500 B");
    assert_eq!(format_bytes(1536), "1.5 KiB");
    assert_eq!(format_bytes(1_572_864), "1.5 MiB");
}

fn strings(list: &[&str]) -> Vec<String> {
    list.iter().map(|text| text.to_string()).collect()
}

fn full_summary() -> SessionSummary {
    SessionSummary {
        id: "20260721_143022_456".to_string(),
        command: "aider fix server.py".to_string(),
        workspace: "/home/dev/myproject".to_string(),
        start_time: Timestamp { secs: 0, nanos: 0 },
        duration: Duration::from_secs(34),
        exit_code: 0,
        files_created: strings(&["src/auth/middleware.rs"]),
        files_modified: strings(&["src/server.rs", "src/auth/mod.rs"]),
        files_deleted: strings(&["old.rs"]),
        files_read: strings(&["/b/x", "/a/y", "/b/z", "top"]),
        network_connections: vec![ConnectionSummary {
            remote_host: "api.anthropic.com".to_string(),
            remote_port: 443,
            protocol: "tcp".to_string(),
        }],
        subprocesses: vec![
            SubprocessSummary {
                argv: strings(&["cargo", "test"]),
                exit_code: None,
                duration: Duration::from_secs(8),
            },
            SubprocessSummary {
                argv: strings(&["false"]),
                exit_code: Some(1),
                duration: Duration::from_secs(3700),
            },
        ],
        total_bytes_written: 890,
    }
}

#[test]
fn a_full_report_without_colours() {
    colored::control::set_override(false);
    let report = render_terminal(
        &full_summary(),
        false,
        &vec![Some(1229)],
        &vec![Some(4915), None],
    );
    assert_eq!(
        report,
        "\n\
         ━━━ postflight session report ━━━\n  \
           command: aider fix server.py\n  \
           workspace: /home/dev/myproject\n  \
           duration: 34s\n  \
           exit code: 0\n\
         \n\
         files changed\n  \
           created (1)\n    \
             + src/auth/middleware.rs (1.2 KiB)\n  \
           modified (2)\n    \
             ~ src/server.rs (4.8 KiB)\n    \
             ~ src/auth/mod.rs \n  \
           deleted (1)\n    \
             - old.rs\n\
         \n\
         files read\n   \
           (1 files)\n    \
             top\n  \
           /a (1 files)\n    \
             y\n  \
           /b (2 files)\n    \
             x\n    \
             z\n\
         \n\
         network connections\n  \
           → api.anthropic.com:443 (tcp)\n\
         \n\
         subprocesses\n  \
           ▸ cargo test [exit:?] (8s)\n  \
           ▸ false [exit:1] (1h 1m 40s)\n\
         \n\
         ━━━ verdict ━━━\n  \
           touched 4 files in , src, src/auth, read 4 files, 1 network connections, \
         2 subprocesses, ran for 34s\n  \
           total disk writes: 890 B\n\
         \n"
    );
}

fn empty_summary() -> SessionSummary {
    SessionSummary {
        exit_code: -1,
        files_created: vec![],
        files_modified: vec![],
        files_deleted: vec![],
        files_read: vec![],
        network_connections: vec![],
        subprocesses: vec![],
        total_bytes_written: 0,
        ..full_summary()
    }
}

#[test]
fn an_empty_report_in_colours() {
    colored::control::set_override(true);
    let report = render_terminal(&empty_summary(), true, &vec![], &vec![]);
    assert_eq!(
        report,
        "\n\u{1b}[1m━━━ postflight session report ━━━\u{1b}[0m\n  \
         \u{1b}[2mcommand:\u{1b}[0m \u{1b}[1maider fix server.py\u{1b}[0m\n  \
         \u{1b}[2mworkspace:\u{1b}[0m /home/dev/myproject\n  \
         \u{1b}[2mduration:\u{1b}[0m 34s\n  \
         \u{1b}[2mexit code:\u{1b}[0m \u{1b}[31m-1\u{1b}[0m\n\
         \n\
         \u{1b}[1m━━━ verdict ━━━\u{1b}[0m\n  \
         touched 0 files in ., read 0 files, 0 network connections, 0 subprocesses, ran for 34s\n\
         \n"
    );
}

#[test]
fn long_command_lines_are_cut_to_80_characters() {
    colored::control::set_override(false);
    let run = |argv: &str| {
        let summary = SessionSummary {
            subprocesses: vec![SubprocessSummary {
                argv: strings(&[argv]),
                exit_code: Some(0),
                duration: Duration::from_secs(1),
            }],
            ..empty_summary()
        };
        render_terminal(&summary, false, &vec![], &vec![])
    };
    let limit = "ä".repeat(80);
    assert!(run(&limit).contains(&format!("▸ {limit} [exit:0]")));
    let above = "ä".repeat(81);
    assert!(run(&above).contains(&format!("▸ {}... [exit:0]", "ä".repeat(77))));
}

#[test]
fn exit_codes_are_green_or_red() {
    colored::control::set_override(true);
    assert_eq!(format_exit_code(0), "\u{1b}[32m0\u{1b}[0m");
    assert_eq!(format_exit_code(42), "\u{1b}[31m42\u{1b}[0m");
}

#[test]
fn sizes_have_labels_where_they_are_known() {
    assert_eq!(file_size_label(Some(1023)), "(1023 B)");
    assert_eq!(file_size_label(Some(2048)), "(2.0 KiB)");
    assert_eq!(file_size_label(None), "");
}

#[test]
fn paths_are_grouped_by_directory() {
    let groups = group_by_directory(&strings(&["/b/x", "/a/y", "/b/w", "/", "..", "z"]));
    let expected: Vec<(String, Vec<String>)> = vec![
        ("".to_string(), strings(&["..", "z"])),
        (".".to_string(), strings(&["/"])),
        ("/a".to_string(), strings(&["y"])),
        ("/b".to_string(), strings(&["x", "w"])),
    ];
    assert_eq!(groups, expected);
}

#[test]
fn directories_are_named_in_short() {
    let none = strings(&[]);
    assert_eq!(summarize_directories(&none, &none, &none), ".");
    assert_eq!(summarize_directories(&strings(&["/"]), &none, &none), ".");
    assert_eq!(
        summarize_directories(&strings(&["/w/p/src/a"]), &strings(&["x/y"]), &strings(&["x/z"])),
        ".../p/src, x"
    );
    assert_eq!(
        summarize_directories(&strings(&["d/1", "b/1"]), &strings(&["a/1", "e/1"]), &strings(&["c/1"])),
        "a, b, c (+2 more)"
    );
}

fn report_lines(summary: &SessionSummary) -> Vec<String> {
    colored::control::set_override(false);
    let created = vec![Some(10); summary.files_created.len()];
    let modified = vec![Some(2048); summary.files_modified.len()];
    let report = render_terminal(summary, false, &created, &modified);
    assert_eq!(report, render_terminal(summary, true, &created, &modified));
    report.lines().map(str::to_string).collect()
}

fn titles_of(summary: &SessionSummary) -> Vec<String> {
    let starts = |line: &String| line.starts_with(' ') || line.starts_with('\u{2501}');
    report_lines(summary)
        .into_iter()
        .filter(|line| !line.is_empty() && !starts(line))
        .collect()
}

#[test]
fn a_section_has_a_title_where_there_is_something_in_it() {
    let all = ["files changed", "files read", "network connections", "subprocesses"];
    assert_eq!(titles_of(&full_summary()), all);
    assert!(titles_of(&empty_summary()).is_empty());

    let full = full_summary();
    let deleted = SessionSummary { files_deleted: strings(&["x"]), ..empty_summary() };
    assert_eq!(titles_of(&deleted), ["files changed"]);
    let read = SessionSummary { files_read: full.files_read, ..empty_summary() };
    assert_eq!(titles_of(&read), ["files read"]);
    let talked =
        SessionSummary { network_connections: full.network_connections, ..empty_summary() };
    assert_eq!(titles_of(&talked), ["network connections"]);
    let ran = SessionSummary { subprocesses: full.subprocesses, ..empty_summary() };
    assert_eq!(titles_of(&ran), ["subprocesses"]);
}

#[test]
fn disk_writes_follow_the_verdict_where_there_were_any() {
    let lines = report_lines(&full_summary());
    let n = lines.len();
    assert_eq!(lines[n - 1], "");
    assert_eq!(lines[n - 2], "  total disk writes: 890 B");
    assert!(lines[n - 3].starts_with("  touched 4 files in "));

    let lines = report_lines(&empty_summary());
    let n = lines.len();
    assert_eq!(lines[n - 1], "");
    assert!(lines[n - 2].starts_with("  touched 0 files in "));
}

#[test]
fn whole_tenths_of_a_unit_are_written_as_they_are() {
    assert_eq!(format_bytes(1023), "1023 B");
    assert_eq!(format_bytes(1024), "1.0 KiB");
    assert_eq!(format_bytes(1023 * 1024 + 512), "1023.5 KiB");
    assert_eq!(format_bytes(1 << 20), "1.0 MiB");
    assert_eq!(format_bytes(5 << 29), "2.5 GiB");
    assert_eq!(format_bytes(3 << 40), "3.0 TiB");
    assert_eq!(format_bytes((1 << 50) - (1 << 39)), "1023.5 TiB");
    assert_eq!(format_bytes(15 << 49), "7.5 PiB");
}

#[test]
fn other_sizes_are_less_than_a_tenth_off() {
    for bytes in [1025u64, 1100, 1_500_000, 999_999_999, (1 << 53) - 1] {
        let text = format_bytes(bytes);
        let (number, unit) = text.split_once(' ').unwrap();
        let (whole, digit) = number.split_once('.').unwrap();
        let tenths: i128 = format!("{whole}{digit}").parse().unwrap();
        let place = ["KiB", "MiB", "GiB", "TiB", "PiB"].iter().position(|u| *u == unit).unwrap();
        let size = 1i128 << (10 * (place + 1));
        assert!(i128::from(bytes) >= size && i128::from(bytes) < 1024 * size);
        assert!((tenths * size - i128::from(bytes) * 10).abs() < size, "{bytes} {text}");
    }
}
