//! Settings, where they are kept, and which paths they leave out.

use vstd::prelude::*;

use crate::glob::{
    fills, glob_match, glob_matches, lemma_ending_pattern, lemma_plain_pattern,
    lemma_stars_give_way,
};
use crate::path::{join_path, joined};
use crate::text::{
    chars_between, chars_of, contains, ends_with, has_infix, has_prefix, has_suffix, join,
    lemma_split_at, lemma_split_whole, occurs_at, same_chars, split, starts_with, texts,
};

verus! {

/// The settings of the recorder.
#[derive(Debug, Clone)]
pub struct Config {
    pub session_retention: usize,
    pub workspace_root: Option<String>,
    pub exclude_patterns: Vec<String>,
    pub network_poll_interval_ms: u64,
    pub process_poll_interval_ms: u64,
    pub max_duration_secs: Option<u64>,
    pub grace_period_secs: u64,
    pub shutdown_message: String,
}

/// What was found where the settings are kept.
pub enum ConfigFile {
    /// There is no file.
    Missing,
    /// The file could not be read, for this reason.
    Unreadable(String),
    /// The file does not hold settings, for this reason.
    Malformed(String),
    /// The file holds these settings.
    Parsed(Config),
}

/// The patterns that are left out unless the settings say otherwise.
pub open spec fn default_patterns() -> Seq<Seq<char>> {
    seq![".git/**"@, "target/**"@, "node_modules/**"@, ".postflight/**"@]
}

/// Whether these are the settings that hold where none were made.
pub open spec fn is_default(config: Config) -> bool {
    &&& config.session_retention == 20
    &&& config.workspace_root is None
    &&& texts(config.exclude_patterns@) == default_patterns()
    &&& config.network_poll_interval_ms == 500
    &&& config.process_poll_interval_ms == 250
    &&& config.max_duration_secs is None
    &&& config.grace_period_secs == 60
    &&& config.shutdown_message@
        == "You have 60 seconds to finish. Wrap up and produce your final output now.\n"@
}

impl Default for Config {
    fn default() -> (r: Config)
        ensures
            is_default(r),
    {
        let mut patterns: Vec<String> = Vec::new();
        patterns.push(".git/**".to_owned());
        patterns.push("target/**".to_owned());
        patterns.push("node_modules/**".to_owned());
        patterns.push(".postflight/**".to_owned());
        assert(texts(patterns@) =~= default_patterns());
        Config {
            session_retention: 20,
            workspace_root: None,
            exclude_patterns: patterns,
            network_poll_interval_ms: 500,
            process_poll_interval_ms: 250,
            max_duration_secs: None,
            grace_period_secs: 60,
            shutdown_message:
                "You have 60 seconds to finish. Wrap up and produce your final output now.\n".to_owned(),
        }
    }
}

/// Whether `path` lies in, or is, a directory `dir`: `dir` with a separator, or an end of the
/// path, on either side.
pub open spec fn under_directory(dir: Seq<char>, path: Seq<char>) -> bool {
    ||| has_infix(path, seq!['/'] + dir + seq!['/'])
    ||| has_prefix(path, dir + seq!['/'])
    ||| has_suffix(path, seq!['/'] + dir)
    ||| path == dir
}

/// Whether a pattern leaves `path` out. A pattern that ends in `/**` names a directory; any other
/// has `*` for any run of characters.
pub open spec fn excluded_by(pattern: Seq<char>, path: Seq<char>) -> bool {
    if has_suffix(pattern, "/**"@) {
        under_directory(pattern.take(pattern.len() - 3), path)
    } else {
        glob_matches(pattern, path)
    }
}

/// Whether `path` is left out under these patterns, or under one of the two that always hold.
pub open spec fn excluded(patterns: Seq<Seq<char>>, path: Seq<char>) -> bool {
    ||| exists|i: int| 0 <= i < patterns.len() && excluded_by(#[trigger] patterns[i], path)
    ||| excluded_by(".git/**"@, path)
    ||| excluded_by(".postflight/**"@, path)
}

/// Tests whether `path` lies in, or is, a directory `dir`.
fn in_directory(dir: &Vec<char>, path: &Vec<char>) -> (r: bool)
    ensures
        r == under_directory(dir@, path@),
{
    let mut after: Vec<char> = dir.clone();
    after.push('/');
    let mut before: Vec<char> = dir.clone();
    before.insert(0, '/');
    let mut both: Vec<char> = after.clone();
    both.insert(0, '/');
    proof {
        assert(after@ =~= dir@ + seq!['/']);
        assert(before@ =~= seq!['/'] + dir@);
        assert(both@ =~= seq!['/'] + dir@ + seq!['/']);
    }
    contains(path, &both) || starts_with(path, &after) || ends_with(path, &before) || same_chars(
        path,
        dir,
    )
}

/// Tests whether a pattern leaves `path` out.
pub fn pattern_excludes(pattern: &str, path: &str) -> (r: bool)
    ensures
        r == excluded_by(pattern@, path@),
{
    let chars = chars_of(pattern);
    let tail = chars_of("/**");
    proof {
        reveal_strlit("/**");
    }
    if ends_with(&chars, &tail) {
        let dir = chars_between(&chars, 0, chars.len() - 3);
        assert(dir@ =~= pattern@.take(pattern@.len() - 3));
        in_directory(&dir, &chars_of(path))
    } else {
        glob_match(pattern, path)
    }
}

/// The home directory of the user.
///
/// Calls `dirs::home_dir` and takes the path as text, with characters that are not Unicode
/// replaced. Nothing is claimed: the answer is up to the environment.
#[verifier::external_body]
fn home_dir() -> (r: Option<String>) {
    dirs::home_dir().map(|home| home.to_string_lossy().into_owned())
}

/// The directory of the recorder below a home directory, or below the current directory where
/// there is no home.
pub open spec fn config_dir_below(home: Option<Seq<char>>) -> Seq<char> {
    joined(
        match home {
            Some(dir) => dir,
            None => "."@,
        },
        ".postflight"@,
    )
}

/// The text of a home directory.
pub open spec fn home_text(home: Option<String>) -> Option<Seq<char>> {
    match home {
        Some(dir) => Some(dir@),
        None => None,
    }
}

impl Config {
    /// The settings to use, and a warning to print, for what was found at `path`. A file that is
    /// missing or malformed gives the default settings, the second with a warning; a file that
    /// cannot be read is an error.
    pub fn load(file: ConfigFile, path: &str) -> (r: Result<(Config, Option<String>), String>)
        ensures
            match file {
                ConfigFile::Missing => r is Ok && is_default(r->Ok_0.0) && r->Ok_0.1 is None,
                ConfigFile::Unreadable(reason) => r == Err::<(Config, Option<String>), String>(
                    reason,
                ),
                ConfigFile::Malformed(reason) => {
                    &&& r is Ok
                    &&& is_default(r->Ok_0.0)
                    &&& r->Ok_0.1 is Some
                    &&& r->Ok_0.1->0@ == "warning: failed to parse "@ + path@
                        + ", using defaults: "@ + reason@
                },
                ConfigFile::Parsed(config) => r == Ok::<(Config, Option<String>), String>(
                    (config, None),
                ),
            },
    {
        match file {
            ConfigFile::Missing => Ok((Config::default(), None)),
            ConfigFile::Unreadable(reason) => Err(reason),
            ConfigFile::Malformed(reason) => {
                let mut warning = "warning: failed to parse ".to_owned();
                warning.append(path);
                warning.append(", using defaults: ");
                warning.append(reason.as_str());
                Ok((Config::default(), Some(warning)))
            },
            ConfigFile::Parsed(config) => Ok((config, None)),
        }
    }

    /// The directory of the recorder, for a given home directory.
    pub fn config_dir_in(home: &Option<String>) -> (r: String)
        ensures
            r@ == config_dir_below(home_text(*home)),
    {
        match home {
            Some(dir) => join_path(dir.as_str(), ".postflight"),
            None => join_path(".", ".postflight"),
        }
    }

    /// The file of the settings, for a given home directory.
    pub fn config_path_in(home: &Option<String>) -> (r: String)
        ensures
            r@ == joined(config_dir_below(home_text(*home)), "config.toml"@),
    {
        join_path(Config::config_dir_in(home).as_str(), "config.toml")
    }

    /// The directory of the sessions, for a given home directory.
    pub fn sessions_dir_in(home: &Option<String>) -> (r: String)
        ensures
            r@ == joined(config_dir_below(home_text(*home)), "sessions"@),
    {
        join_path(Config::config_dir_in(home).as_str(), "sessions")
    }

    /// The directory of the recorder. Which home directory it lies in is up to the environment.
    pub fn config_dir() -> (r: String)
        ensures
            exists|home: Option<Seq<char>>| r@ == #[trigger] config_dir_below(home),
    {
        Config::config_dir_in(&home_dir())
    }

    /// The file of the settings. Which home directory it lies in is up to the environment.
    pub fn config_path() -> (r: String)
        ensures
            exists|home: Option<Seq<char>>|
                r@ == joined(#[trigger] config_dir_below(home), "config.toml"@),
    {
        Config::config_path_in(&home_dir())
    }

    /// The directory of the sessions. Which home directory it lies in is up to the environment.
    pub fn sessions_dir() -> (r: String)
        ensures
            exists|home: Option<Seq<char>>|
                r@ == joined(#[trigger] config_dir_below(home), "sessions"@),
    {
        Config::sessions_dir_in(&home_dir())
    }

    /// Tests whether the settings leave `path` out.
    pub fn should_exclude(&self, path: &str) -> (r: bool)
        ensures
            r == excluded(texts(self.exclude_patterns@), path@),
    {
        let ghost patterns = texts(self.exclude_patterns@);
        let mut i: usize = 0;
        while i < self.exclude_patterns.len()
            invariant
                i <= self.exclude_patterns@.len(),
                patterns == texts(self.exclude_patterns@),
                forall|j: int| 0 <= j < i ==> !excluded_by(#[trigger] patterns[j], path@),
            decreases self.exclude_patterns@.len() - i,
        {
            assert(patterns[i as int] == self.exclude_patterns@[i as int]@);
            if pattern_excludes(self.exclude_patterns[i].as_str(), path) {
                return true;
            }
            i += 1;
        }
        pattern_excludes(".git/**", path) || pattern_excludes(".postflight/**", path)
    }
}

/// The text that `init` writes as the first settings file.
pub const CONFIG_TEMPLATE: &'static str =
    "# postflight configuration\n\n# Number of sessions to keep before auto-pruning\nsession_retention = 20\n\n# Workspace root override (defaults to current directory)\n# workspace_root = \"/path/to/project\"\n\n# Glob patterns for files/directories to ignore during observation\nexclude_patterns = [\n    \".git/**\",\n    \"target/**\",\n    \"node_modules/**\",\n    \".postflight/**\",\n    \"*.pyc\",\n    \"__pycache__/**\",\n]\n\n# How often to poll for network connections (milliseconds)\nnetwork_poll_interval_ms = 500\n\n# How often to poll for subprocess changes (milliseconds)\nprocess_poll_interval_ms = 250\n\n# Maximum session duration before triggering graceful shutdown (seconds)\n# Uncomment to enforce a timeout on agent sessions:\n# max_duration_secs = 3600\n\n# Grace period after sending wrap-up message before SIGTERM (seconds)\ngrace_period_secs = 60\n\n# Message written to the agent's stdin when graceful shutdown begins\nshutdown_message = \"You have 60 seconds to finish. Wrap up and produce your final output now.\\n\"\n";

/// A path lies in a directory exactly where, with a separator put before and behind either, the
/// directory stands in the path. So what a pattern for a directory leaves out is told by whole names,
/// however many the directory has.
pub proof fn lemma_whole_names(dir: Seq<char>, path: Seq<char>)
    ensures
        under_directory(dir, path) == has_infix(
            seq!['/'] + path + seq!['/'],
            seq!['/'] + dir + seq!['/'],
        ),
{
    let text = seq!['/'] + path + seq!['/'];
    let needle = seq!['/'] + dir + seq!['/'];
    let n = dir.len() as int;
    if under_directory(dir, path) {
        if has_infix(path, needle) {
            let at = choose|at: int| occurs_at(path, needle, at);
            assert(text.subrange(at + 1, at + 1 + n + 2) =~= path.subrange(at, at + n + 2));
            assert(occurs_at(text, needle, at + 1));
        } else if has_prefix(path, dir + seq!['/']) {
            assert(path.subrange(0, n + 1) == dir + seq!['/']);
            assert(text.subrange(0, n + 2) =~= seq!['/'] + path.subrange(0, n + 1));
            assert(seq!['/'] + (dir + seq!['/']) =~= needle);
            assert(occurs_at(text, needle, 0));
        } else if has_suffix(path, seq!['/'] + dir) {
            let at = path.len() - n - 1;
            assert(path.subrange(at, at + n + 1) == seq!['/'] + dir);
            assert(text.subrange(at + 1, at + n + 3) =~= path.subrange(at, at + n + 1) + seq!['/']);
            assert(occurs_at(text, needle, at + 1));
        } else {
            assert(text =~= needle);
            assert(text.subrange(0, n + 2) =~= needle);
            assert(occurs_at(text, needle, 0));
        }
    }
    if has_infix(text, needle) {
        let at = choose|at: int| occurs_at(text, needle, at);
        let found = text.subrange(at, at + n + 2);
        assert(found == needle);
        if at == 0 && n == path.len() {
            assert(path =~= dir) by {
                assert forall|i: int| 0 <= i < n implies path[i] == dir[i] by {
                    assert(found[i + 1] == needle[i + 1]);
                }
            }
        } else if at == 0 {
            assert(path.subrange(0, n + 1) =~= dir + seq!['/']) by {
                assert forall|i: int| 0 <= i < n + 1 implies path[i] == (dir + seq!['/'])[i] by {
                    assert(found[i + 1] == needle[i + 1]);
                }
            }
        } else if at + n + 2 == text.len() {
            let start = path.len() - n - 1;
            assert(path.subrange(start, start + n + 1) =~= seq!['/'] + dir) by {
                assert forall|i: int| 0 <= i < n + 1 implies path[start + i] == (seq!['/'] + dir)[i] by {
                    assert(found[i] == needle[i]);
                }
            }
        } else {
            assert(path.subrange(at - 1, at - 1 + n + 2) =~= found);
            assert(occurs_at(path, needle, at - 1));
        }
    }
}

/// A directory name has a separator, or an end of the path, on either side of it exactly where
/// it is one of the pieces between the separators. So a pattern for the directory `target`
/// leaves out what lies in a directory of that very name, and nothing whose name merely
/// contains it.
pub proof fn lemma_directory_boundaries(dir: Seq<char>, path: Seq<char>)
    requires
        !dir.contains('/'),
    ensures
        under_directory(dir, path) == split(path, '/').contains(dir),
{
    if under_directory(dir, path) {
        lemma_under_is_piece(dir, path);
    }
    if split(path, '/').contains(dir) {
        lemma_piece_is_under(dir, path);
    }
}

proof fn lemma_under_is_piece(dir: Seq<char>, path: Seq<char>)
    requires
        !dir.contains('/'),
        under_directory(dir, path),
    ensures
        split(path, '/').contains(dir),
{
    lemma_split_whole(dir, '/');
    let around = seq!['/'] + dir + seq!['/'];
    if path == dir {
        assert(split(path, '/')[0] == dir);
    } else if has_prefix(path, dir + seq!['/']) {
        let rest = path.skip(dir.len() as int + 1);
        assert(path.subrange(0, dir.len() as int + 1) == dir + seq!['/']);
        assert(path =~= path.subrange(0, dir.len() as int + 1) + rest);
        assert(path =~= dir.push('/') + rest);
        lemma_split_at(dir, '/', rest);
        assert(split(path, '/')[0] == dir);
    } else if has_suffix(path, seq!['/'] + dir) {
        let n = path.len() - dir.len() - 1;
        let front = path.take(n);
        assert(path.subrange(n, n + dir.len() + 1) == seq!['/'] + dir);
        assert(path =~= front + path.subrange(n, n + dir.len() + 1));
        assert(path =~= front.push('/') + dir);
        lemma_split_at(front, '/', dir);
        assert(split(path, '/')[split(front, '/').len() as int] == dir);
    } else {
        let n = choose|n: int| occurs_at(path, around, n);
        let front = path.take(n);
        let rest = path.skip(n + dir.len() + 2);
        assert(path.subrange(n, n + around.len()) == around);
        assert(path =~= front + path.subrange(n, n + around.len()) + rest);
        assert(path =~= front.push('/') + (dir.push('/') + rest));
        lemma_split_at(front, '/', dir.push('/') + rest);
        lemma_split_at(dir, '/', rest);
        assert(split(path, '/')[split(front, '/').len() as int] == dir);
    }
}

proof fn lemma_under_front(dir: Seq<char>, front: Seq<char>, rest: Seq<char>)
    requires
        under_directory(dir, front),
    ensures
        under_directory(dir, front.push('/') + rest),
{
    let path = front.push('/') + rest;
    let around = seq!['/'] + dir + seq!['/'];
    let after = dir + seq!['/'];
    let before = seq!['/'] + dir;
    if front == dir {
        assert(path.subrange(0, after.len() as int) =~= after);
    } else if has_prefix(front, after) {
        assert(path.subrange(0, after.len() as int) =~= front.subrange(0, after.len() as int));
    } else if has_suffix(front, before) {
        let n = front.len() - before.len();
        assert(path.subrange(n, n + around.len()) =~= front.subrange(n, n + before.len()).push('/'));
        assert(path.subrange(n, n + around.len()) =~= around);
        assert(occurs_at(path, around, n));
    } else {
        let n = choose|n: int| occurs_at(front, around, n);
        assert(path.subrange(n, n + around.len()) =~= front.subrange(n, n + around.len()));
        assert(occurs_at(path, around, n));
    }
}

proof fn lemma_under_rest(dir: Seq<char>, front: Seq<char>, rest: Seq<char>)
    requires
        under_directory(dir, rest),
    ensures
        under_directory(dir, front.push('/') + rest),
{
    let path = front.push('/') + rest;
    let around = seq!['/'] + dir + seq!['/'];
    let after = dir + seq!['/'];
    let before = seq!['/'] + dir;
    let at = front.len() as int;
    if rest == dir {
        assert(path.subrange(at, at + before.len()) =~= before);
    } else if has_prefix(rest, after) {
        assert(path.subrange(at, at + around.len()) =~= seq!['/'] + rest.subrange(
            0,
            after.len() as int,
        ));
        assert(path.subrange(at, at + around.len()) =~= around);
        assert(occurs_at(path, around, at));
    } else if has_suffix(rest, before) {
        let n = rest.len() - before.len();
        assert(path.subrange(at + 1 + n, at + 1 + n + before.len()) =~= rest.subrange(
            n,
            n + before.len(),
        ));
    } else {
        let n = choose|n: int| occurs_at(rest, around, n);
        assert(path.subrange(at + 1 + n, at + 1 + n + around.len()) =~= rest.subrange(
            n,
            n + around.len(),
        ));
        assert(occurs_at(path, around, at + 1 + n));
    }
}

proof fn lemma_piece_is_under(dir: Seq<char>, path: Seq<char>)
    requires
        !dir.contains('/'),
        split(path, '/').contains(dir),
    ensures
        under_directory(dir, path),
    decreases path.len(),
{
    if !path.contains('/') {
        lemma_split_whole(path, '/');
    } else {
        let n = choose|n: int| 0 <= n < path.len() && path[n] == '/';
        let front = path.take(n);
        let rest = path.skip(n + 1);
        assert(path =~= front.push('/') + rest);
        lemma_split_at(front, '/', rest);
        let at = choose|at: int|
            0 <= at < split(path, '/').len() && split(path, '/')[at] == dir;
        if at < split(front, '/').len() {
            assert(split(front, '/')[at] == dir);
            lemma_piece_is_under(dir, front);
            lemma_under_front(dir, front, rest);
        } else {
            assert(split(rest, '/')[at - split(front, '/').len()] == dir);
            lemma_piece_is_under(dir, rest);
            lemma_under_rest(dir, front, rest);
        }
    }
}

/// The directories `.git` and `.postflight` are left out at any depth, whatever the patterns.
pub proof fn lemma_builtin_patterns(patterns: Seq<Seq<char>>, path: Seq<char>)
    requires
        split(path, '/').contains(".git"@) || split(path, '/').contains(".postflight"@),
    ensures
        excluded(patterns, path),
{
    reveal_strlit("/**");
    reveal_strlit(".git");
    reveal_strlit(".git/**");
    reveal_strlit(".postflight");
    reveal_strlit(".postflight/**");
    if split(path, '/').contains(".git"@) {
        lemma_directory_pattern(".git"@, path);
        assert(".git/**"@ =~= ".git"@ + "/**"@);
    } else {
        lemma_directory_pattern(".postflight"@, path);
        assert(".postflight/**"@ =~= ".postflight"@ + "/**"@);
    }
}

/// A pattern made of a directory name and `/**` leaves out a path exactly where the name is one
/// of the pieces of the path.
pub proof fn lemma_directory_pattern(dir: Seq<char>, path: Seq<char>)
    requires
        !dir.contains('/'),
    ensures
        excluded_by(dir + "/**"@, path) == split(path, '/').contains(dir),
{
    reveal_strlit("/**");
    let pattern = dir + "/**"@;
    assert(pattern.subrange(pattern.len() - 3, pattern.len() as int) =~= "/**"@);
    assert(pattern.take(pattern.len() - 3) =~= dir);
    lemma_directory_boundaries(dir, path);
}

/// A path is left out where one of the patterns leaves it out, or where one of its pieces is the name
/// of a directory of git or of the recorder; the other patterns have no part in it.
pub proof fn lemma_patterns_work_alone(patterns: Seq<Seq<char>>, path: Seq<char>)
    ensures
        excluded(patterns, path) <==> {
            ||| split(path, '/').contains(".git"@)
            ||| split(path, '/').contains(".postflight"@)
            ||| exists|i: int| 0 <= i < patterns.len() && excluded(seq![#[trigger] patterns[i]], path)
        },
{
    lemma_builtin_alone(path);
    let built_in = split(path, '/').contains(".git"@) || split(path, '/').contains(".postflight"@);
    assert forall|i: int| 0 <= i < patterns.len() implies (excluded(
        seq![#[trigger] patterns[i]],
        path,
    ) <==> built_in || excluded_by(patterns[i], path)) by {
        let one = seq![patterns[i]];
        assert(one[0] == patterns[i]);
        assert(one.len() == 1);
    }
    if exists|i: int| 0 <= i < patterns.len() && excluded_by(#[trigger] patterns[i], path) {
        let i = choose|i: int| 0 <= i < patterns.len() && excluded_by(#[trigger] patterns[i], path);
        assert(excluded(seq![patterns[i]], path));
    }
}

proof fn lemma_builtin_alone(path: Seq<char>)
    ensures
        excluded_by(".git/**"@, path) == split(path, '/').contains(".git"@),
        excluded_by(".postflight/**"@, path) == split(path, '/').contains(".postflight"@),
{
    reveal_strlit("/**");
    reveal_strlit(".git");
    reveal_strlit(".git/**");
    reveal_strlit(".postflight");
    reveal_strlit(".postflight/**");
    lemma_directory_pattern(".git"@, path);
    assert(".git/**"@ =~= ".git"@ + "/**"@);
    lemma_directory_pattern(".postflight"@, path);
    assert(".postflight/**"@ =~= ".postflight"@ + "/**"@);
}

/// Whether one of the pieces of a path is a directory that is always left out.
pub open spec fn always_left_out(path: Seq<char>) -> bool {
    split(path, '/').contains(".git"@) || split(path, '/').contains(".postflight"@)
}

/// What a single pattern leaves out besides what is always left out.
proof fn lemma_single_pattern(pattern: Seq<char>, path: Seq<char>)
    ensures
        excluded(seq![pattern], path) <==> always_left_out(path) || excluded_by(pattern, path),
{
    let one = seq![pattern];
    lemma_builtin_alone(path);
    assert(one[0] == pattern);
    assert(one.len() == 1);
    if excluded_by(pattern, path) {
        assert(excluded_by(one[0], path));
    }
}

/// A star and an ending leave out every path with that ending, whatever stands before it, separators
/// included, and no other path.
pub proof fn lemma_ending_left_out(
    patterns: Seq<Seq<char>>,
    i: int,
    tail: Seq<char>,
    front: Seq<char>,
    path: Seq<char>,
)
    requires
        !tail.contains('*'),
        0 <= i < patterns.len(),
        patterns[i] == seq!['*'] + tail,
    ensures
        excluded(patterns, front + tail),
        excluded(seq![patterns[i]], path) && !always_left_out(path) ==> exists|start: Seq<char>|
            path == #[trigger] (start + tail),
{
    let pattern = seq!['*'] + tail;
    lemma_no_directory_pattern(seq!['*'], tail);
    lemma_ending_pattern(tail, front + tail);
    lemma_ending_pattern(tail, path);
    let whole = front + tail;
    assert(whole.subrange(front.len() as int, whole.len() as int) =~= tail);
    assert(excluded_by(patterns[i], whole));
    lemma_single_pattern(pattern, path);
    if has_suffix(path, tail) {
        let n = path.len() - tail.len();
        assert(path =~= path.take(n) + path.subrange(n, path.len() as int));
        assert(path == path.take(n) + tail);
    }
}

/// A pattern that ends in a text without stars, where that is not empty, names no directory.
proof fn lemma_no_directory_pattern(front: Seq<char>, tail: Seq<char>)
    requires
        !tail.contains('*'),
        tail.len() > 0 || front.len() < 3,
    ensures
        !has_suffix(front + tail, "/**"@),
{
    reveal_strlit("/**");
    let pattern = front + tail;
    if has_suffix(pattern, "/**"@) {
        let end = pattern.subrange(pattern.len() - 3, pattern.len() as int);
        assert(end[2] == '*');
        assert(pattern.last() == '*');
        assert(tail[tail.len() - 1] == '*');
    }
}

/// A pattern without a star leaves out the path equal to it, and no other.
pub proof fn lemma_plain_pattern_left_out(pattern: Seq<char>, path: Seq<char>)
    requires
        !pattern.contains('*'),
        !always_left_out(path),
    ensures
        excluded(seq![pattern], path) <==> path == pattern,
{
    let none = Seq::<char>::empty();
    if pattern.len() > 0 {
        lemma_no_directory_pattern(none, pattern);
        assert(none + pattern =~= pattern);
    } else {
        reveal_strlit("/**");
    }
    lemma_plain_pattern(pattern, path);
    lemma_single_pattern(pattern, path);
}

/// A pattern with stars leaves out exactly the paths that come of it when each star gives way to a
/// text, unless it ends in `/**`.
pub proof fn lemma_stars_left_out(parts: Seq<Seq<char>>, path: Seq<char>)
    requires
        parts.len() > 0,
        forall|i: int| 0 <= i < parts.len() ==> !(#[trigger] parts[i]).contains('*'),
        !has_suffix(join(parts, seq!['*']), "/**"@),
        !always_left_out(path),
    ensures
        excluded(seq![join(parts, seq!['*'])], path) <==> exists|fillers: Seq<Seq<char>>|
            fills(parts, fillers, path),
{
    lemma_stars_give_way(parts, path);
    lemma_single_pattern(join(parts, seq!['*']), path);
}

/// A pattern that ends in `/**` leaves out the directory before it, at any depth, and everything in
/// it, told by whole names; and nothing else.
pub proof fn lemma_directory_left_out(dir: Seq<char>, path: Seq<char>)
    requires
        !always_left_out(path),
    ensures
        excluded(seq![dir + "/**"@], path) <==> has_infix(
            seq!['/'] + path + seq!['/'],
            seq!['/'] + dir + seq!['/'],
        ),
{
    reveal_strlit("/**");
    let pattern = dir + "/**"@;
    assert(pattern.subrange(pattern.len() - 3, pattern.len() as int) =~= "/**"@);
    assert(pattern.take(pattern.len() - 3) =~= dir);
    lemma_whole_names(dir, path);
    lemma_single_pattern(pattern, path);
}

/// What holds where no settings were made: twenty sessions are kept, the current directory is watched,
/// no time is set for the end, and what version control, builds, packages and the recorder itself keep
/// is left out.
pub proof fn lemma_what_holds_by_default(config: Config)
    requires
        is_default(config),
    ensures
        config.session_retention == 20,
        config.workspace_root is None,
        config.exclude_patterns@.len() == 4,
        config.exclude_patterns@[0]@ == ".git/**"@,
        config.exclude_patterns@[1]@ == "target/**"@,
        config.exclude_patterns@[2]@ == "node_modules/**"@,
        config.exclude_patterns@[3]@ == ".postflight/**"@,
        config.network_poll_interval_ms == 500,
        config.process_poll_interval_ms == 250,
        config.max_duration_secs is None,
        config.grace_period_secs == 60,
        config.shutdown_message@
            == "You have 60 seconds to finish. Wrap up and produce your final output now.\n"@,
{
    let patterns = texts(config.exclude_patterns@);
    assert(patterns.len() == config.exclude_patterns@.len());
    assert(patterns[0] == config.exclude_patterns@[0]@);
    assert(patterns[1] == config.exclude_patterns@[1]@);
    assert(patterns[2] == config.exclude_patterns@[2]@);
    assert(patterns[3] == config.exclude_patterns@[3]@);
}

/// The recorder keeps its things in one directory below the home directory, or below the current
/// directory where there is no home.
pub proof fn lemma_where_settings_lie(home: Seq<char>)
    ensures
        home.len() > 0 && home.last() != '/' ==> config_dir_below(Some(home)) == home
            + "/.postflight"@,
        config_dir_below(Some(home + seq!['/'])) == home + "/.postflight"@,
        config_dir_below(None) == "./.postflight"@,
{
    reveal_strlit(".postflight");
    reveal_strlit("/.postflight");
    reveal_strlit("./.postflight");
    reveal_strlit(".");
    assert(".postflight"@[0] == '.');
    let slashed = home + seq!['/'];
    assert(slashed.last() == '/');
    assert(home.push('/') + ".postflight"@ =~= home + "/.postflight"@);
    assert(slashed + ".postflight"@ =~= home + "/.postflight"@);
    assert("."@.push('/') + ".postflight"@ =~= "./.postflight"@);
}

} // verus!
