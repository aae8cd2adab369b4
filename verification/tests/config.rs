use postflight::config::{pattern_excludes, Config, ConfigFile, CONFIG_TEMPLATE};
use postflight::glob::glob_match;

#[test]
fn test_default_config() {
    let config = Config::default();
    assert_eq!(config.session_retention, 20);
    assert_eq!(config.exclude_patterns.len(), 4);
}

#[test]
fn test_should_exclude() {
    let config = Config::default();
    assert!(config.should_exclude("project/.git/objects/abc"));
    assert!(config.should_exclude("project/target/debug/build"));
    assert!(config.should_exclude("project/node_modules/foo"));
    assert!(!config.should_exclude("project/src/main.rs"));
}

#[test]
fn test_should_exclude_respects_path_boundaries() {
    let config = Config::default();
    assert!(!config.should_exclude("project/.gitignore"));
    assert!(!config.should_exclude("project/retarget/foo.rs"));
    assert!(!config.should_exclude("project/src/node_modules_helper.rs"));
    assert!(config.should_exclude(".git/HEAD"));
    assert!(config.should_exclude("target/release/bin"));
}

#[test]
fn test_should_exclude_builtin_patterns_always_apply() {
    let config = Config { exclude_patterns: vec!["*.log".to_string()], ..Config::default() };
    assert!(config.should_exclude("project/.git/objects/abc"));
    assert!(config.should_exclude("project/.postflight/sessions/x"));
    assert!(config.should_exclude("debug.log"));
    assert!(!config.should_exclude("project/src/main.rs"));
}

#[test]
fn test_glob_match() {
    assert!(glob_match("*.rs", "main.rs"));
    assert!(!glob_match("*.rs", "main.py"));
    assert!(glob_match("src/*", "src/main.rs"));
}

#[test]
fn defaults_are_as_documented() {
    let config = Config::default();
    assert_eq!(config.workspace_root, None);
    assert_eq!(
        config.exclude_patterns,
        vec![".git/**", "target/**", "node_modules/**", ".postflight/**"]
    );
    assert_eq!(config.network_poll_interval_ms, 500);
    assert_eq!(config.process_poll_interval_ms, 250);
    assert_eq!(config.max_duration_secs, None);
    assert_eq!(config.grace_period_secs, 60);
    assert_eq!(
        config.shutdown_message,
        "You have 60 seconds to finish. Wrap up and produce your final output now.\n"
    );
}

#[test]
fn a_missing_file_gives_the_defaults_without_a_warning() {
    let (config, warning) = Config::load(ConfigFile::Missing, "/c.toml").unwrap();
    assert_eq!(config.session_retention, 20);
    assert_eq!(warning, None);
}

#[test]
fn a_malformed_file_gives_the_defaults_and_a_warning() {
    let file = ConfigFile::Malformed("expected `=`".to_string());
    let (config, warning) = Config::load(file, "/c.toml").unwrap();
    assert_eq!(config.grace_period_secs, 60);
    assert_eq!(
        warning,
        Some("warning: failed to parse /c.toml, using defaults: expected `=`".to_string())
    );
}

#[test]
fn an_unreadable_file_is_an_error() {
    let file = ConfigFile::Unreadable("permission denied".to_string());
    assert_eq!(Config::load(file, "/c.toml").err(), Some("permission denied".to_string()));
}

#[test]
fn settings_that_were_read_are_used() {
    let settings = Config { session_retention: 3, ..Config::default() };
    let (config, warning) = Config::load(ConfigFile::Parsed(settings), "/c.toml").unwrap();
    assert_eq!(config.session_retention, 3);
    assert_eq!(warning, None);
}

#[test]
fn places_below_the_home_directory() {
    let home = Some("/home/dev".to_string());
    assert_eq!(Config::config_dir_in(&home), "/home/dev/.postflight");
    assert_eq!(Config::config_path_in(&home), "/home/dev/.postflight/config.toml");
    assert_eq!(Config::sessions_dir_in(&home), "/home/dev/.postflight/sessions");
    assert_eq!(Config::config_dir_in(&None), "./.postflight");
}

#[test]
fn places_of_the_user_lie_below_their_home() {
    let expected = match dirs::home_dir() {
        Some(home) => home.join(".postflight"),
        None => std::path::PathBuf::from("./.postflight"),
    };
    assert_eq!(std::path::PathBuf::from(Config::config_dir()), expected);
    assert_eq!(std::path::PathBuf::from(Config::config_path()), expected.join("config.toml"));
    assert_eq!(std::path::PathBuf::from(Config::sessions_dir()), expected.join("sessions"));
}

#[test]
fn the_template_holds_the_defaults_and_two_more_patterns() {
    let parsed: toml::Table = CONFIG_TEMPLATE.parse().unwrap();
    let defaults = Config::default();
    assert_eq!(parsed["session_retention"].as_integer(), Some(20));
    assert_eq!(parsed["network_poll_interval_ms"].as_integer(), Some(500));
    assert_eq!(parsed["process_poll_interval_ms"].as_integer(), Some(250));
    assert_eq!(parsed["grace_period_secs"].as_integer(), Some(60));
    assert_eq!(parsed["shutdown_message"].as_str(), Some(defaults.shutdown_message.as_str()));
    let patterns: Vec<&str> =
        parsed["exclude_patterns"].as_array().unwrap().iter().map(|p| p.as_str().unwrap()).collect();
    assert_eq!(
        patterns,
        vec![".git/**", "target/**", "node_modules/**", ".postflight/**", "*.pyc", "__pycache__/**"]
    );
    assert!(!parsed.contains_key("max_duration_secs"));
    assert!(CONFIG_TEMPLATE.starts_with("# postflight configuration\n\n"));
}

#[test]
fn a_directory_pattern_names_a_whole_piece_of_the_path() {
    assert!(pattern_excludes("target/**", "target"));
    assert!(pattern_excludes("target/**", "/a/target"));
    assert!(pattern_excludes("target/**", "a/target/b"));
    assert!(!pattern_excludes("target/**", "a/targets/b"));
    assert!(!pattern_excludes("target/**", "a/my-target"));
    assert!(pattern_excludes("a/b/**", "x/a/b/y"));
    assert!(pattern_excludes("/**", "a//b"));
    assert!(!pattern_excludes("/**", "a/b"));
}

#[test]
fn stars_stand_for_any_text() {
    assert!(glob_match("*", ""));
    assert!(glob_match("*", "anything"));
    assert!(glob_match("a*b*c", "aXbYc"));
    assert!(!glob_match("a*b*c", "aXcYb"));
    assert!(!glob_match("ab*b", "ab"));
    assert!(glob_match("**", "x"));
    assert!(glob_match("plain", "plain"));
    assert!(!glob_match("plain", "plain "));
    assert!(!glob_match("", "x"));
    assert!(glob_match("", ""));
    assert!(glob_match("*ö*", "schön"));
}

#[test]
fn directories_of_several_names_are_left_out_by_whole_names() {
    let excluded = |path: &str| pattern_excludes("build/out/**", path);
    for path in ["build/out", "build/out/x", "/w/build/out", "/w/build/out/x"] {
        assert!(excluded(path), "{path}");
    }
    for path in ["build/output", "rebuild/out/x", "build", "out", "build/x/out", ""] {
        assert!(!excluded(path), "{path}");
    }
}
