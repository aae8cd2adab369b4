//! What the lines of the report on a session say.
//!
//! Line by line, and entry by entry: which line tells of which file, connection or process, counted
//! from the title of its section.

use vstd::prelude::*;

use crate::number::{decimal, signed_decimal};
use crate::report::{
    byte_size_text, change_title, changes_pieces, connection_lines, connections_pieces,
    deleted_lines, deleted_list, directories_text, directory_label, duration_text, exit_code_piece,
    exit_text, file_label, files_under, group_lines, grouped, heading_pieces, labelled, name_lines,
    plain, reads_pieces, report_pieces, shortened, size_label, sized_lines, sized_list,
    subprocess_lines, subprocesses_pieces, title_pieces, verdict_pieces, verdict_text,
};
use crate::report_layout::{
    all_lines, are_line_groups, are_line_labels, is_line_by_line, lemma_bare_empty,
    lemma_bare_line, lemma_bare_push, lemma_banner_line, lemma_decimal_line, lemma_duration_line,
    lemma_grouped_lines, lemma_piece_line, lemma_shortened_line, lemma_shown_add,
    lemma_signed_line, lemma_verdict_line, lemma_verdict_lines, shows_lines, verdict_line,
    verdict_lines,
};
use crate::session::{ConnectionSummary, SessionSummary, SubprocessSummary};
use crate::style::{bare, Piece, Style};
use crate::text::{
    is_line, join, lemma_line_add, lemma_line_join, lemma_no_lines, lemma_one_line, lines, texts,
    without_cr,
};

verus! {

broadcast use crate::text::lemma_line_add;

/// Whether a title stands in line `t`.
pub open spec fn has_title(list: Seq<Seq<char>>, t: int, title: Seq<char>) -> bool {
    0 <= t < list.len() && list[t] == title
}

/// Whether the report begins with the command, the workspace, how long the session ran, and its exit
/// code.
pub open spec fn tells_heading(list: Seq<Seq<char>>, summary: SessionSummary) -> bool {
    &&& list.len() >= 7
    &&& list[0].len() == 0
    &&& list[1] == "━━━ postflight session report ━━━"@
    &&& list[2] == without_cr("  command: "@ + summary.command@)
    &&& list[3] == without_cr("  workspace: "@ + summary.workspace@)
    &&& list[4] == "  duration: "@ + duration_text(summary.duration@ / 1_000_000_000)
    &&& list[5] == "  exit code: "@ + signed_decimal(summary.exit_code as int)
    &&& list[6].len() == 0
}

/// Whether the lines below the title of the section tell of every connection, one line each in their
/// order, and an empty line follows.
pub open spec fn tells_connections(list: Seq<Seq<char>>, told: Seq<ConnectionSummary>) -> bool {
    told.len() > 0 ==> exists|t: int| #[trigger]
        has_title(list, t, "network connections"@) && t + 1 + told.len() < list.len() && list[t + 1
            + told.len()].len() == 0 && forall|k: int|
            0 <= k < told.len() ==> list[t + 1 + k] == "  \u{2192} "@ + (
            #[trigger] told[k]).remote_host@ + ":"@ + decimal(told[k].remote_port as nat) + " ("@
                + told[k].protocol@ + ")"@
}

/// Whether the lines below the title of the section tell of every subprocess, one line each in their
/// order, and an empty line follows.
pub open spec fn tells_subprocesses(list: Seq<Seq<char>>, told: Seq<SubprocessSummary>) -> bool {
    told.len() > 0 ==> exists|t: int| #[trigger]
        has_title(list, t, "subprocesses"@) && t + 1 + told.len() < list.len() && list[t + 1
            + told.len()].len() == 0 && forall|k: int|
            0 <= k < told.len() ==> list[t + 1 + k] == "  \u{25b8} "@ + shortened(
                join(texts((#[trigger] told[k]).argv@), " "@),
            ) + " [exit:"@ + (match told[k].exit_code {
                Some(code) => signed_decimal(code as int),
                None => "?"@,
            }) + "] ("@ + duration_text(told[k].duration@ / 1_000_000_000) + ")"@
}

/// How many lines a list of so many changed files takes.
pub open spec fn block_len(count: nat) -> int {
    if count == 0 {
        0
    } else {
        count as int + 1
    }
}

/// Whether the lines from `at` on tell of changed files: a line with their number, and one for each
/// with a mark and its size.
pub open spec fn tells_files(
    list: Seq<Seq<char>>,
    at: int,
    word: Seq<char>,
    mark: char,
    told: Seq<Seq<char>>,
    sizes: Seq<Option<u64>>,
) -> bool {
    told.len() > 0 ==> {
        &&& list[at] == "  "@ + word + " ("@ + decimal(told.len()) + ")"@
        &&& forall|k: int|
            0 <= k < told.len() ==> list[at + 1 + k] == "    "@ + seq![mark] + " "@ + (
            #[trigger] told[k]) + " "@ + (match sizes[k] {
                Some(bytes) => "("@ + byte_size_text(bytes) + ")"@,
                None => ""@,
            })
    }
}

/// Whether the lines from `at` on tell of files that are gone.
pub open spec fn tells_deleted(list: Seq<Seq<char>>, at: int, told: Seq<Seq<char>>) -> bool {
    told.len() > 0 ==> {
        &&& list[at] == "  deleted ("@ + decimal(told.len()) + ")"@
        &&& forall|k: int|
            0 <= k < told.len() ==> list[at + 1 + k] == without_cr("    - "@ + (#[trigger] told[k]))
    }
}

/// Whether the lines below the title of the section tell of every file that was created, modified or
/// deleted, in this order, and an empty line follows.
pub open spec fn tells_changes(
    list: Seq<Seq<char>>,
    created: Seq<Seq<char>>,
    created_sizes: Seq<Option<u64>>,
    modified: Seq<Seq<char>>,
    modified_sizes: Seq<Option<u64>>,
    deleted: Seq<Seq<char>>,
) -> bool {
    created.len() + modified.len() + deleted.len() > 0 ==> exists|t: int| #[trigger]
        has_title(list, t, "files changed"@) && ({
            let second = t + 1 + block_len(created.len());
            let third = second + block_len(modified.len());
            let end = third + block_len(deleted.len());
            &&& end < list.len()
            &&& list[end].len() == 0
            &&& tells_files(list, t + 1, "created"@, '+', created, created_sizes)
            &&& tells_files(list, second, "modified"@, '~', modified, modified_sizes)
            &&& tells_deleted(list, third, deleted)
        })
}

/// Whether lines `g` and `l` tell of a file that was read: the first of its directory and of how many
/// of the files were read there, and the second, which is among the lines for that directory, of its
/// name.
pub open spec fn tells_read(
    list: Seq<Seq<char>>,
    g: int,
    l: int,
    path: Seq<char>,
    paths: Seq<Seq<char>>,
) -> bool {
    let count = paths.filter(|other: Seq<char>| directory_label(other) == directory_label(path)).len();
    &&& 0 <= g < l <= g + count
    &&& l < list.len()
    &&& list[g] == "  "@ + directory_label(path) + " ("@ + decimal(count) + " files)"@
    &&& list[l] == without_cr("    "@ + file_label(path))
}

/// Whether two lines below line `t` tell of a file that was read.
pub open spec fn is_told_below(
    list: Seq<Seq<char>>,
    t: int,
    path: Seq<char>,
    paths: Seq<Seq<char>>,
) -> bool {
    exists|g: int, l: int| t < g && #[trigger] tells_read(list, g, l, path, paths)
}

/// Whether the lines below the title of the section tell of every file that was read.
pub open spec fn tells_reads(list: Seq<Seq<char>>, paths: Seq<Seq<char>>) -> bool {
    paths.len() > 0 ==> exists|t: int| #[trigger]
        has_title(list, t, "files read"@) && forall|i: int|
            0 <= i < paths.len() ==> is_told_below(list, t, #[trigger] paths[i], paths)
}

/// Whether the report ends in the sentence that sums the session up, with the numbers and the
/// directories of the files that it changed, and how long it ran.
pub open spec fn tells_verdict(list: Seq<Seq<char>>, summary: SessionSummary) -> bool {
    let at = if summary.total_bytes_written > 0 {
        list.len() - 3
    } else {
        list.len() - 2
    };
    let changed = texts(summary.files_created@) + texts(summary.files_modified@) + texts(
        summary.files_deleted@,
    );
    at >= 0 && list[at] == "  touched "@ + decimal(changed.len()) + " files in "@
        + directories_text(changed) + ", read "@ + decimal(summary.files_read@.len()) + " files, "@
        + decimal(summary.network_connections@.len()) + " network connections, "@ + decimal(
        summary.subprocesses@.len(),
    ) + " subprocesses, ran for "@ + duration_text(summary.duration@ / 1_000_000_000)
}

/// Whether the lines of a report tell all that the summary holds.
pub open spec fn tells_all(
    list: Seq<Seq<char>>,
    summary: SessionSummary,
    created_sizes: Seq<Option<u64>>,
    modified_sizes: Seq<Option<u64>>,
) -> bool {
    &&& tells_heading(list, summary)
    &&& tells_changes(
        list,
        texts(summary.files_created@),
        created_sizes,
        texts(summary.files_modified@),
        modified_sizes,
        texts(summary.files_deleted@),
    )
    &&& tells_reads(list, texts(summary.files_read@))
    &&& tells_connections(list, summary.network_connections@)
    &&& tells_subprocesses(list, summary.subprocesses@)
    &&& tells_verdict(list, summary)
}

/// The text of two pieces.
proof fn lemma_bare_two(a: Piece, b: Piece)
    ensures
        bare(seq![a, b]) == a.0 + b.0,
{
    let none = Seq::<Piece>::empty();
    lemma_bare_empty();
    lemma_bare_push(none, a);
    lemma_bare_push(none.push(a), b);
    assert(seq![a, b] =~= none.push(a).push(b));
    assert(bare(seq![a, b]) =~= a.0 + b.0);
}

/// The text of four pieces.
proof fn lemma_bare_four(a: Piece, b: Piece, c: Piece, d: Piece)
    ensures
        bare(seq![a, b, c, d]) == a.0 + b.0 + c.0 + d.0,
{
    lemma_bare_two(a, b);
    lemma_bare_push(seq![a, b], c);
    lemma_bare_push(seq![a, b].push(c), d);
    assert(seq![a, b, c, d] =~= seq![a, b].push(c).push(d));
}

/// The text of six pieces.
proof fn lemma_bare_six(a: Piece, b: Piece, c: Piece, d: Piece, e: Piece, f: Piece)
    ensures
        bare(seq![a, b, c, d, e, f]) == a.0 + b.0 + c.0 + d.0 + e.0 + f.0,
{
    lemma_bare_four(a, b, c, d);
    lemma_bare_push(seq![a, b, c, d], e);
    lemma_bare_push(seq![a, b, c, d].push(e), f);
    assert(seq![a, b, c, d, e, f] =~= seq![a, b, c, d].push(e).push(f));
}

/// Some pieces of text without line feeds, and a line feed at their end, are one line.
proof fn lemma_row(front: Seq<Piece>, end: Seq<char>)
    requires
        forall|i: int| 0 <= i < front.len() ==> is_line((#[trigger] front[i]).0),
        is_line(end),
    ensures
        shows_lines(front.push(plain(end.push('\n'))), seq![without_cr(bare(front) + end)]),
{
    let line = bare(front) + end;
    lemma_bare_line(front);
    lemma_bare_push(front, plain(end.push('\n')));
    assert(bare(front) + end.push('\n') =~= line.push('\n'));
    lemma_one_line(line);
}

proof fn lemma_none_shown()
    ensures
        shows_lines(Seq::empty(), Seq::empty()),
{
    lemma_bare_empty();
    lemma_no_lines();
}

/// An empty line.
proof fn lemma_gap()
    ensures
        shows_lines(seq![plain("\n"@)], seq![Seq::empty()]),
{
    reveal_strlit("\n");
    let none = Seq::<char>::empty();
    lemma_piece_line(none);
    assert("\n"@ =~= none.push('\n'));
}

/// A section: a title, some lines, and an empty line.
proof fn lemma_section_lines(title: Seq<char>, inside: Seq<Piece>, rows: Seq<Seq<char>>)
    requires
        is_line(title),
        without_cr(title) == title,
        shows_lines(inside, rows),
    ensures
        shows_lines(
            title_pieces(title) + inside + seq![plain("\n"@)],
            seq![title] + rows + seq![Seq::empty()],
        ),
{
    lemma_banner_line(title, Style::Heading);
    lemma_gap();
    lemma_shown_add(title_pieces(title), inside, seq![title], rows);
    lemma_shown_add(
        title_pieces(title) + inside,
        seq![plain("\n"@)],
        seq![title] + rows,
        seq![Seq::empty()],
    );
}

/// The line for a connection.
spec fn connection_row(c: ConnectionSummary) -> Seq<char> {
    "  \u{2192} "@ + c.remote_host@ + ":"@ + decimal(c.remote_port as nat) + " ("@ + c.protocol@
        + ")"@
}

proof fn lemma_connection_rows(list: Seq<ConnectionSummary>, n: nat)
    requires
        forall|i: int|
            0 <= i < list.len() ==> is_line((#[trigger] list[i]).remote_host@) && is_line(
                list[i].protocol@,
            ),
        n <= list.len(),
    ensures
        shows_lines(connection_lines(list, n), Seq::new(n, |k: int| connection_row(list[k]))),
    decreases n,
{
    let rows = Seq::new(n, |k: int| connection_row(list[k]));
    if n == 0 {
        lemma_none_shown();
        assert(rows =~= Seq::empty());
    } else {
        reveal_strlit("  ");
        reveal_strlit("\u{2192}");
        reveal_strlit("  \u{2192} ");
        reveal_strlit(" ");
        reveal_strlit(":");
        reveal_strlit(" (");
        reveal_strlit(")");
        reveal_strlit(")\n");
        let c = list[n - 1];
        let before = connection_lines(list, (n - 1) as nat);
        lemma_connection_rows(list, (n - 1) as nat);
        lemma_decimal_line(c.remote_port as nat);
        let first = plain("  "@);
        let arrow = ("\u{2192}"@, Style::Cyan);
        let middle = " "@ + c.remote_host@ + ":"@ + decimal(c.remote_port as nat) + " ("@
            + c.protocol@;
        let end = middle + ")"@;
        lemma_row(seq![first, arrow], end);
        lemma_bare_two(first, arrow);
        assert(bare(seq![first, arrow]) + end =~= connection_row(c));
        assert(connection_row(c).last() == ')');
        assert(middle + ")\n"@ =~= end.push('\n'));
        let line = seq![first, arrow].push(plain(end.push('\n')));
        let shorter = Seq::new((n - 1) as nat, |k: int| connection_row(list[k]));
        lemma_shown_add(before, line, shorter, seq![connection_row(c)]);
        assert(rows =~= shorter + seq![connection_row(c)]);
        assert(connection_lines(list, n) =~= before + line);
    }
}

/// The line for a subprocess.
spec fn subprocess_row(p: SubprocessSummary) -> Seq<char> {
    "  \u{25b8} "@ + shortened(join(texts(p.argv@), " "@)) + " [exit:"@ + (match p.exit_code {
        Some(code) => signed_decimal(code as int),
        None => "?"@,
    }) + "] ("@ + duration_text(p.duration@ / 1_000_000_000) + ")"@
}

/// The pieces of the line for a subprocess, but for its end.
spec fn subprocess_front(p: SubprocessSummary) -> Seq<Piece> {
    seq![
        plain("  "@),
        ("\u{25b8}"@, Style::Dimmed),
        plain(" "@ + shortened(join(texts(p.argv@), " "@)) + " "@),
        ("[exit:"@ + exit_text(p.exit_code) + "]"@, Style::Dimmed),
        plain(" "@),
        ("("@ + duration_text(p.duration@ / 1_000_000_000) + ")"@, Style::Dimmed),
    ]
}

proof fn lemma_subprocess_row(p: SubprocessSummary)
    requires
        all_lines(texts(p.argv@)),
    ensures
        shows_lines(subprocess_front(p).push(plain("\n"@)), seq![subprocess_row(p)]),
{
    reveal_strlit("  ");
    reveal_strlit("\u{25b8}");
    reveal_strlit("  \u{25b8} ");
    reveal_strlit(" ");
    reveal_strlit("[exit:");
    reveal_strlit(" [exit:");
    reveal_strlit("]");
    reveal_strlit("?");
    reveal_strlit("(");
    reveal_strlit("] (");
    reveal_strlit(")");
    reveal_strlit("\n");
    let secs = p.duration@ / 1_000_000_000;
    lemma_duration_line(secs);
    if p.exit_code is Some {
        lemma_signed_line(p.exit_code->0 as int);
    }
    lemma_line_join(texts(p.argv@), " "@);
    lemma_shortened_line(join(texts(p.argv@), " "@));
    let none = Seq::<char>::empty();
    let f = subprocess_front(p);
    lemma_row(f, none);
    assert("\n"@ =~= none.push('\n'));
    lemma_bare_six(f[0], f[1], f[2], f[3], f[4], f[5]);
    assert(f =~= seq![f[0], f[1], f[2], f[3], f[4], f[5]]);
    assert(bare(f) + none =~= subprocess_row(p));
    assert(subprocess_row(p).last() == ')');
}

proof fn lemma_subprocess_rows(list: Seq<SubprocessSummary>, n: nat)
    requires
        forall|i: int| 0 <= i < list.len() ==> all_lines(texts((#[trigger] list[i]).argv@)),
        n <= list.len(),
    ensures
        shows_lines(subprocess_lines(list, n), Seq::new(n, |k: int| subprocess_row(list[k]))),
    decreases n,
{
    let rows = Seq::new(n, |k: int| subprocess_row(list[k]));
    if n == 0 {
        lemma_none_shown();
        assert(rows =~= Seq::empty());
    } else {
        let p = list[n - 1];
        let before = subprocess_lines(list, (n - 1) as nat);
        lemma_subprocess_rows(list, (n - 1) as nat);
        lemma_subprocess_row(p);
        let line = subprocess_front(p).push(plain("\n"@));
        let shorter = Seq::new((n - 1) as nat, |k: int| subprocess_row(list[k]));
        lemma_shown_add(before, line, shorter, seq![subprocess_row(p)]);
        assert(rows =~= shorter + seq![subprocess_row(p)]);
        assert(subprocess_lines(list, n) =~= before + line);
    }
}

/// The line with the number of changed files of one sort.
spec fn count_row(word: Seq<char>, count: nat) -> Seq<char> {
    "  "@ + word + " ("@ + decimal(count) + ")"@
}

proof fn lemma_count_row(word: Seq<char>, style: Style, count: nat)
    requires
        is_line(word),
    ensures
        shows_lines(change_title(word, style, count), seq![count_row(word, count)]),
{
    reveal_strlit("  ");
    reveal_strlit(" (");
    reveal_strlit(")");
    reveal_strlit(")\n");
    lemma_decimal_line(count);
    let first = plain("  "@);
    let second = (word, style);
    let end = " ("@ + decimal(count) + ")"@;
    lemma_row(seq![first, second], end);
    lemma_bare_two(first, second);
    assert(bare(seq![first, second]) + end =~= count_row(word, count));
    assert(count_row(word, count).last() == ')');
    assert(" ("@ + decimal(count) + ")\n"@ =~= end.push('\n'));
    assert(change_title(word, style, count) =~= seq![first, second].push(plain(end.push('\n'))));
}

/// The line for a changed file.
spec fn file_row(mark: char, path: Seq<char>, size: Option<u64>) -> Seq<char> {
    "    "@ + seq![mark] + " "@ + path + " "@ + (match size {
        Some(bytes) => "("@ + byte_size_text(bytes) + ")"@,
        None => ""@,
    })
}

proof fn lemma_file_rows(
    mark: Seq<char>,
    c: char,
    style: Style,
    paths: Seq<Seq<char>>,
    sizes: Seq<Option<u64>>,
    n: nat,
)
    requires
        mark == seq![c],
        c != '\n',
        all_lines(paths),
        are_line_labels(sizes),
        n <= paths.len(),
        n <= sizes.len(),
    ensures
        shows_lines(
            sized_lines(mark, style, paths, sizes, n),
            Seq::new(n, |k: int| file_row(c, paths[k], sizes[k])),
        ),
    decreases n,
{
    let rows = Seq::new(n, |k: int| file_row(c, paths[k], sizes[k]));
    if n == 0 {
        lemma_none_shown();
        assert(rows =~= Seq::empty());
    } else {
        reveal_strlit("    ");
        reveal_strlit(" ");
        reveal_strlit("\n");
        reveal_strlit("(");
        reveal_strlit(")");
        reveal_strlit("");
        let path = paths[n - 1];
        let size = sizes[n - 1];
        let before = sized_lines(mark, style, paths, sizes, (n - 1) as nat);
        lemma_file_rows(mark, c, style, paths, sizes, (n - 1) as nat);
        assert(is_line(path));
        assert(is_line(size_label(size)));
        let f = seq![
            plain("    "@),
            (mark, style),
            plain(" "@ + path + " "@),
            (size_label(size), Style::Dimmed),
        ];
        let none = Seq::<char>::empty();
        lemma_row(f, none);
        assert("\n"@ =~= none.push('\n'));
        lemma_bare_four(f[0], f[1], f[2], f[3]);
        assert(f =~= seq![f[0], f[1], f[2], f[3]]);
        let row = file_row(c, path, size);
        assert(bare(f) + none =~= row);
        assert(row.last() != '\r');
        let line = f.push(plain("\n"@));
        let shorter = Seq::new((n - 1) as nat, |k: int| file_row(c, paths[k], sizes[k]));
        lemma_shown_add(before, line, shorter, seq![row]);
        assert(rows =~= shorter + seq![row]);
        assert(sized_lines(mark, style, paths, sizes, n) =~= before + line);
    }
}

/// The lines for changed files of one sort.
spec fn file_block(
    word: Seq<char>,
    c: char,
    paths: Seq<Seq<char>>,
    sizes: Seq<Option<u64>>,
) -> Seq<Seq<char>> {
    if paths.len() == 0 {
        Seq::empty()
    } else {
        seq![count_row(word, paths.len())] + Seq::new(
            paths.len(),
            |k: int| file_row(c, paths[k], sizes[k]),
        )
    }
}

proof fn lemma_file_block(
    word: Seq<char>,
    word_style: Style,
    mark: Seq<char>,
    c: char,
    style: Style,
    paths: Seq<Seq<char>>,
    sizes: Seq<Option<u64>>,
)
    requires
        is_line(word),
        mark == seq![c],
        c != '\n',
        all_lines(paths),
        are_line_labels(sizes),
        paths.len() == sizes.len(),
    ensures
        shows_lines(
            sized_list(word, word_style, mark, style, paths, sizes),
            file_block(word, c, paths, sizes),
        ),
{
    lemma_none_shown();
    lemma_count_row(word, word_style, paths.len());
    lemma_file_rows(mark, c, style, paths, sizes, paths.len());
    lemma_shown_add(
        change_title(word, word_style, paths.len()),
        sized_lines(mark, style, paths, sizes, paths.len()),
        seq![count_row(word, paths.len())],
        Seq::new(paths.len(), |k: int| file_row(c, paths[k], sizes[k])),
    );
}

/// The line for a file that is gone.
spec fn gone_row(path: Seq<char>) -> Seq<char> {
    without_cr("    - "@ + path)
}

proof fn lemma_gone_rows(paths: Seq<Seq<char>>, n: nat)
    requires
        all_lines(paths),
        n <= paths.len(),
    ensures
        shows_lines(deleted_lines(paths, n), Seq::new(n, |k: int| gone_row(paths[k]))),
    decreases n,
{
    let rows = Seq::new(n, |k: int| gone_row(paths[k]));
    if n == 0 {
        lemma_none_shown();
        assert(rows =~= Seq::empty());
    } else {
        reveal_strlit("    ");
        reveal_strlit("-");
        reveal_strlit(" ");
        reveal_strlit("    - ");
        reveal_strlit("\n");
        let path = paths[n - 1];
        let before = deleted_lines(paths, (n - 1) as nat);
        lemma_gone_rows(paths, (n - 1) as nat);
        assert(is_line(path));
        let first = plain("    "@);
        let second = ("-"@, Style::Red);
        let end = " "@ + path;
        lemma_row(seq![first, second], end);
        lemma_bare_two(first, second);
        assert(bare(seq![first, second]) + end =~= "    - "@ + path);
        assert(end + "\n"@ =~= end.push('\n'));
        let line = seq![first, second].push(plain(end.push('\n')));
        let shorter = Seq::new((n - 1) as nat, |k: int| gone_row(paths[k]));
        lemma_shown_add(before, line, shorter, seq![gone_row(path)]);
        assert(rows =~= shorter + seq![gone_row(path)]);
        assert(deleted_lines(paths, n) =~= before + line);
    }
}

/// The lines for files that are gone.
spec fn gone_block(paths: Seq<Seq<char>>) -> Seq<Seq<char>> {
    if paths.len() == 0 {
        Seq::empty()
    } else {
        seq![count_row("deleted"@, paths.len())] + Seq::new(
            paths.len(),
            |k: int| gone_row(paths[k]),
        )
    }
}

proof fn lemma_gone_block(paths: Seq<Seq<char>>)
    requires
        all_lines(paths),
    ensures
        shows_lines(deleted_list(paths), gone_block(paths)),
{
    reveal_strlit("deleted");
    lemma_none_shown();
    lemma_count_row("deleted"@, Style::BoldRed, paths.len());
    lemma_gone_rows(paths, paths.len());
    lemma_shown_add(
        change_title("deleted"@, Style::BoldRed, paths.len()),
        deleted_lines(paths, paths.len()),
        seq![count_row("deleted"@, paths.len())],
        Seq::new(paths.len(), |k: int| gone_row(paths[k])),
    );
}

/// A section, where there is something in it.
spec fn section(present: bool, title: Seq<char>, rows: Seq<Seq<char>>) -> Seq<Seq<char>> {
    if present {
        seq![title] + rows + seq![Seq::empty()]
    } else {
        Seq::empty()
    }
}

spec fn change_rows(
    summary: SessionSummary,
    created_sizes: Seq<Option<u64>>,
    modified_sizes: Seq<Option<u64>>,
) -> Seq<Seq<char>> {
    file_block("created"@, '+', texts(summary.files_created@), created_sizes) + file_block(
        "modified"@,
        '~',
        texts(summary.files_modified@),
        modified_sizes,
    ) + gone_block(texts(summary.files_deleted@))
}

spec fn has_changes(summary: SessionSummary) -> bool {
    summary.files_created@.len() + summary.files_modified@.len() + summary.files_deleted@.len() > 0
}

proof fn lemma_change_rows(
    summary: SessionSummary,
    created_sizes: Seq<Option<u64>>,
    modified_sizes: Seq<Option<u64>>,
)
    requires
        is_line_by_line(summary),
        are_line_labels(created_sizes),
        are_line_labels(modified_sizes),
        created_sizes.len() == summary.files_created@.len(),
        modified_sizes.len() == summary.files_modified@.len(),
    ensures
        shows_lines(
            changes_pieces(summary, created_sizes, modified_sizes),
            section(
                has_changes(summary),
                "files changed"@,
                change_rows(summary, created_sizes, modified_sizes),
            ),
        ),
{
    reveal_strlit("files changed");
    reveal_strlit("created");
    reveal_strlit("modified");
    reveal_strlit("+");
    reveal_strlit("~");
    assert("+"@ =~= seq!['+']);
    assert("~"@ =~= seq!['~']);
    let cr = texts(summary.files_created@);
    let mo = texts(summary.files_modified@);
    let de = texts(summary.files_deleted@);
    let a = sized_list("created"@, Style::BoldGreen, "+"@, Style::Green, cr, created_sizes);
    let b = sized_list("modified"@, Style::BoldYellow, "~"@, Style::Yellow, mo, modified_sizes);
    let c = deleted_list(de);
    let x = file_block("created"@, '+', cr, created_sizes);
    let y = file_block("modified"@, '~', mo, modified_sizes);
    let z = gone_block(de);
    lemma_none_shown();
    lemma_file_block("created"@, Style::BoldGreen, "+"@, '+', Style::Green, cr, created_sizes);
    lemma_file_block("modified"@, Style::BoldYellow, "~"@, '~', Style::Yellow, mo, modified_sizes);
    lemma_gone_block(de);
    lemma_shown_add(a, b, x, y);
    lemma_shown_add(a + b, c, x + y, z);
    lemma_section_lines("files changed"@, a + b + c, x + y + z);
    if has_changes(summary) {
        assert(changes_pieces(summary, created_sizes, modified_sizes) =~= title_pieces(
            "files changed"@,
        ) + (a + b + c) + seq![plain("\n"@)]);
    }
}

/// The lines for names.
spec fn name_rows(names: Seq<Seq<char>>, n: nat) -> Seq<Seq<char>> {
    Seq::new(n, |k: int| without_cr("    "@ + names[k]))
}

proof fn lemma_name_rows(names: Seq<Seq<char>>, n: nat)
    requires
        all_lines(names),
        n <= names.len(),
    ensures
        shows_lines(name_lines(names, n), name_rows(names, n)),
    decreases n,
{
    if n == 0 {
        lemma_none_shown();
        assert(name_rows(names, 0) =~= Seq::empty());
    } else {
        reveal_strlit("    ");
        reveal_strlit("\n");
        let before = name_lines(names, (n - 1) as nat);
        lemma_name_rows(names, (n - 1) as nat);
        assert(is_line(names[n - 1]));
        let line = "    "@ + names[n - 1];
        let none = Seq::<Piece>::empty();
        assert(line + "\n"@ =~= line.push('\n'));
        lemma_row(none, line);
        lemma_bare_empty();
        assert(bare(none) + line =~= line);
        let piece = none.push(plain(line.push('\n')));
        let shorter = name_rows(names, (n - 1) as nat);
        lemma_shown_add(before, piece, shorter, seq![without_cr(line)]);
        assert(name_rows(names, n) =~= shorter + seq![without_cr(line)]);
        assert(name_lines(names, n) =~= before + piece);
    }
}

/// The line for a directory.
spec fn directory_row(dir: Seq<char>, count: nat) -> Seq<char> {
    "  "@ + dir + " ("@ + decimal(count) + " files)"@
}

/// The lines for the first `n` directories with their names.
spec fn group_rows(list: Seq<(Seq<char>, Seq<Seq<char>>)>, n: nat) -> Seq<Seq<char>>
    decreases n,
{
    if n == 0 {
        Seq::empty()
    } else {
        let (dir, names) = list[n - 1];
        group_rows(list, (n - 1) as nat) + seq![directory_row(dir, names.len())] + name_rows(
            names,
            names.len(),
        )
    }
}

proof fn lemma_group_rows(list: Seq<(Seq<char>, Seq<Seq<char>>)>, n: nat)
    requires
        are_line_groups(list),
        n <= list.len(),
    ensures
        shows_lines(group_lines(list, n), group_rows(list, n)),
    decreases n,
{
    if n == 0 {
        lemma_none_shown();
    } else {
        reveal_strlit("  ");
        reveal_strlit(" (");
        reveal_strlit(" files)");
        reveal_strlit(" files)\n");
        let (dir, names) = list[n - 1];
        let before = group_lines(list, (n - 1) as nat);
        lemma_group_rows(list, (n - 1) as nat);
        lemma_decimal_line(names.len());
        lemma_name_rows(names, names.len());
        let first = plain("  "@);
        let second = (dir, Style::Dimmed);
        let end = " ("@ + decimal(names.len()) + " files)"@;
        lemma_row(seq![first, second], end);
        lemma_bare_two(first, second);
        let row = directory_row(dir, names.len());
        assert(bare(seq![first, second]) + end =~= row);
        assert(row.last() == ')');
        assert(" ("@ + decimal(names.len()) + " files)\n"@ =~= end.push('\n'));
        let line = seq![first, second].push(plain(end.push('\n')));
        lemma_shown_add(before, line, group_rows(list, (n - 1) as nat), seq![row]);
        lemma_shown_add(
            before + line,
            name_lines(names, names.len()),
            group_rows(list, (n - 1) as nat) + seq![row],
            name_rows(names, names.len()),
        );
        assert(group_lines(list, n) =~= before + line + name_lines(names, names.len()));
    }
}

/// Where the lines for directory number `k` begin.
proof fn lemma_group_place(list: Seq<(Seq<char>, Seq<Seq<char>>)>, n: nat, k: int) -> (at: int)
    requires
        0 <= k < n,
        n <= list.len(),
    ensures
        0 <= at,
        at + list[k].1.len() < group_rows(list, n).len(),
        group_rows(list, n)[at] == directory_row(list[k].0, list[k].1.len()),
        forall|m: int|
            0 <= m < list[k].1.len() ==> #[trigger] group_rows(list, n)[at + 1 + m] == without_cr(
                "    "@ + list[k].1[m],
            ),
    decreases n,
{
    let before = group_rows(list, (n - 1) as nat);
    let all = group_rows(list, n);
    if k == n - 1 {
        let at = before.len() as int;
        let names = list[k].1;
        assert forall|m: int| 0 <= m < names.len() implies #[trigger] all[at + 1 + m] == without_cr(
            "    "@ + names[m],
        ) by {
            assert(all[at + 1 + m] == name_rows(names, names.len())[m]);
        }
        at
    } else {
        let at = lemma_group_place(list, (n - 1) as nat, k);
        assert forall|m: int| 0 <= m < list[k].1.len() implies #[trigger] all[at + 1 + m]
            == without_cr("    "@ + list[k].1[m]) by {
            assert(all[at + 1 + m] == before[at + 1 + m]);
        }
        at
    }
}

/// The line that tells of a file which was read, and that of its directory.
proof fn lemma_read_place(paths: Seq<Seq<char>>, i: int) -> (r: (int, int))
    requires
        0 <= i < paths.len(),
    ensures
        tells_read(group_rows(grouped(paths), grouped(paths).len()), r.0, r.1, paths[i], paths),
{
    let path = paths[i];
    let dir = directory_label(path);
    let groups = grouped(paths);
    let rows = group_rows(groups, groups.len());
    let keep = crate::report::listed_under(dir);
    let other = |other: Seq<char>| directory_label(other) == directory_label(path);
    assert(keep =~= other);
    let kept = paths.filter(keep);
    crate::report::lemma_every_path_grouped(paths, i);
    let k = choose|k: int|
        0 <= k < groups.len() && (#[trigger] groups[k]).0 == dir && groups[k].1.contains(
            file_label(path),
        );
    let names = groups[k].1;
    assert(names == files_under(paths, dir));
    assert(names.len() == kept.len());
    let m = choose|m: int| 0 <= m < names.len() && names[m] == file_label(path);
    let at = lemma_group_place(groups, groups.len(), k);
    assert(rows[at + 1 + m] == without_cr("    "@ + names[m]));
    (at, at + 1 + m)
}

proof fn lemma_read_rows(paths: Seq<Seq<char>>)
    requires
        all_lines(paths),
    ensures
        shows_lines(
            reads_pieces(paths),
            section(
                paths.len() > 0,
                "files read"@,
                group_rows(grouped(paths), grouped(paths).len()),
            ),
        ),
{
    reveal_strlit("files read");
    lemma_none_shown();
    lemma_grouped_lines(paths);
    lemma_group_rows(grouped(paths), grouped(paths).len());
    lemma_section_lines(
        "files read"@,
        group_lines(grouped(paths), grouped(paths).len()),
        group_rows(grouped(paths), grouped(paths).len()),
    );
}

/// A line of the heading.
proof fn lemma_labelled_row(label: Seq<char>, value: Piece)
    requires
        is_line(label),
        is_line(value.0),
    ensures
        shows_lines(
            labelled(label, value),
            seq![without_cr("  "@ + label + " "@ + value.0)],
        ),
{
    reveal_strlit("  ");
    reveal_strlit(" ");
    reveal_strlit("\n");
    let none = Seq::<char>::empty();
    let f = seq![plain("  "@), (label, Style::Dimmed), plain(" "@), value];
    lemma_row(f, none);
    assert("\n"@ =~= none.push('\n'));
    lemma_bare_four(f[0], f[1], f[2], f[3]);
    assert(f =~= seq![f[0], f[1], f[2], f[3]]);
    assert(bare(f) + none =~= "  "@ + label + " "@ + value.0);
    assert(labelled(label, value) =~= f.push(plain("\n"@)));
}

/// The lines of the heading.
spec fn heading_rows(summary: SessionSummary) -> Seq<Seq<char>> {
    seq![
        Seq::empty(),
        "━━━ postflight session report ━━━"@,
        without_cr("  command: "@ + summary.command@),
        without_cr("  workspace: "@ + summary.workspace@),
        "  duration: "@ + duration_text(summary.duration@ / 1_000_000_000),
        "  exit code: "@ + signed_decimal(summary.exit_code as int),
        Seq::empty(),
    ]
}

/// Neither a number nor a length of time ends in a carriage return.
proof fn lemma_no_return_at_end(secs: nat, code: int)
    ensures
        duration_text(secs).len() > 0 && duration_text(secs).last() == 's',
        signed_decimal(code).len() > 0 && signed_decimal(code).last() != '\r',
{
    reveal_strlit("s");
    let n = if code < 0 {
        (-code) as nat
    } else {
        code as nat
    };
    crate::number::lemma_decimal_value(n);
    let digits = decimal(n);
    assert(crate::number::is_digit(digits[digits.len() - 1]));
}

proof fn lemma_heading_rows(summary: SessionSummary)
    requires
        is_line_by_line(summary),
    ensures
        shows_lines(heading_pieces(summary), heading_rows(summary)),
{
    reveal_strlit("━━━ postflight session report ━━━");
    reveal_strlit("command:");
    reveal_strlit("workspace:");
    reveal_strlit("duration:");
    reveal_strlit("exit code:");
    reveal_strlit("  command: ");
    reveal_strlit("  workspace: ");
    reveal_strlit("  duration: ");
    reveal_strlit("  exit code: ");
    reveal_strlit("  ");
    reveal_strlit(" ");
    let secs = summary.duration@ / 1_000_000_000;
    let code = summary.exit_code as int;
    let rule = "━━━ postflight session report ━━━"@;
    let gap = seq![plain("\n"@)];
    let a = seq![(rule, Style::Bold), plain("\n"@)];
    let b = labelled("command:"@, (summary.command@, Style::Bold));
    let c = labelled("workspace:"@, plain(summary.workspace@));
    let d = labelled("duration:"@, plain(duration_text(secs)));
    let e = labelled("exit code:"@, exit_code_piece(summary.exit_code));
    let rows = heading_rows(summary);
    lemma_duration_line(secs);
    lemma_signed_line(code);
    lemma_no_return_at_end(secs, code);
    lemma_gap();
    lemma_banner_line(rule, Style::Bold);
    lemma_labelled_row("command:"@, (summary.command@, Style::Bold));
    lemma_labelled_row("workspace:"@, plain(summary.workspace@));
    lemma_labelled_row("duration:"@, plain(duration_text(secs)));
    lemma_labelled_row("exit code:"@, exit_code_piece(summary.exit_code));
    assert("  "@ + "command:"@ + " "@ + summary.command@ =~= "  command: "@ + summary.command@);
    assert("  "@ + "workspace:"@ + " "@ + summary.workspace@ =~= "  workspace: "@
        + summary.workspace@);
    assert("  "@ + "duration:"@ + " "@ + duration_text(secs) =~= rows[4]);
    assert("  "@ + "exit code:"@ + " "@ + signed_decimal(code) =~= rows[5]);
    assert(without_cr(rows[4]) == rows[4]);
    assert(without_cr(rows[5]) == rows[5]);
    let none = Seq::<char>::empty();
    lemma_shown_add(gap, a, seq![none], seq![rule]);
    lemma_shown_add(gap + a, b, seq![none] + seq![rule], seq![rows[2]]);
    lemma_shown_add(gap + a + b, c, seq![none] + seq![rule] + seq![rows[2]], seq![rows[3]]);
    let first = seq![none] + seq![rule] + seq![rows[2]] + seq![rows[3]];
    lemma_shown_add(gap + a + b + c, d, first, seq![rows[4]]);
    lemma_shown_add(gap + a + b + c + d, e, first + seq![rows[4]], seq![rows[5]]);
    lemma_shown_add(
        gap + a + b + c + d + e,
        gap,
        first + seq![rows[4]] + seq![rows[5]],
        seq![none],
    );
    assert(heading_pieces(summary) =~= gap + a + b + c + d + e + gap);
    assert(rows =~= first + seq![rows[4]] + seq![rows[5]] + seq![none]);
}

spec fn change_section(
    summary: SessionSummary,
    created_sizes: Seq<Option<u64>>,
    modified_sizes: Seq<Option<u64>>,
) -> Seq<Seq<char>> {
    section(
        has_changes(summary),
        "files changed"@,
        change_rows(summary, created_sizes, modified_sizes),
    )
}

spec fn read_section(paths: Seq<Seq<char>>) -> Seq<Seq<char>> {
    section(paths.len() > 0, "files read"@, group_rows(grouped(paths), grouped(paths).len()))
}

spec fn connection_section(told: Seq<ConnectionSummary>) -> Seq<Seq<char>> {
    section(
        told.len() > 0,
        "network connections"@,
        Seq::new(told.len(), |k: int| connection_row(told[k])),
    )
}

spec fn subprocess_section(told: Seq<SubprocessSummary>) -> Seq<Seq<char>> {
    section(
        told.len() > 0,
        "subprocesses"@,
        Seq::new(told.len(), |k: int| subprocess_row(told[k])),
    )
}

proof fn lemma_connection_section(told: Seq<ConnectionSummary>)
    requires
        forall|i: int|
            0 <= i < told.len() ==> is_line((#[trigger] told[i]).remote_host@) && is_line(
                told[i].protocol@,
            ),
    ensures
        shows_lines(connections_pieces(told), connection_section(told)),
{
    reveal_strlit("network connections");
    lemma_none_shown();
    lemma_connection_rows(told, told.len());
    lemma_section_lines(
        "network connections"@,
        connection_lines(told, told.len()),
        Seq::new(told.len(), |k: int| connection_row(told[k])),
    );
}

proof fn lemma_subprocess_section(told: Seq<SubprocessSummary>)
    requires
        forall|i: int| 0 <= i < told.len() ==> all_lines(texts((#[trigger] told[i]).argv@)),
    ensures
        shows_lines(subprocesses_pieces(told), subprocess_section(told)),
{
    reveal_strlit("subprocesses");
    lemma_none_shown();
    lemma_subprocess_rows(told, told.len());
    lemma_section_lines(
        "subprocesses"@,
        subprocess_lines(told, told.len()),
        Seq::new(told.len(), |k: int| subprocess_row(told[k])),
    );
}

/// Six rows of pieces, one after the other.
proof fn lemma_shown_six(
    a: Seq<Piece>,
    b: Seq<Piece>,
    c: Seq<Piece>,
    d: Seq<Piece>,
    e: Seq<Piece>,
    f: Seq<Piece>,
    u: Seq<Seq<char>>,
    v: Seq<Seq<char>>,
    w: Seq<Seq<char>>,
    x: Seq<Seq<char>>,
    y: Seq<Seq<char>>,
    z: Seq<Seq<char>>,
)
    requires
        shows_lines(a, u),
        shows_lines(b, v),
        shows_lines(c, w),
        shows_lines(d, x),
        shows_lines(e, y),
        shows_lines(f, z),
    ensures
        shows_lines(a + b + c + d + e + f, u + v + w + x + y + z),
{
    lemma_shown_add(a, b, u, v);
    lemma_shown_add(a + b, c, u + v, w);
    lemma_shown_add(a + b + c, d, u + v + w, x);
    lemma_shown_add(a + b + c + d, e, u + v + w + x, y);
    lemma_shown_add(a + b + c + d + e, f, u + v + w + x + y, z);
}

/// Six lists of lines, around each of the middle ones.
proof fn lemma_around(
    u: Seq<Seq<char>>,
    v: Seq<Seq<char>>,
    w: Seq<Seq<char>>,
    x: Seq<Seq<char>>,
    y: Seq<Seq<char>>,
    z: Seq<Seq<char>>,
)
    ensures
        u + v + w + x + y + z == u + v + (w + x + y + z),
        u + v + w + x + y + z == (u + v) + w + (x + y + z),
        u + v + w + x + y + z == (u + v + w) + x + (y + z),
        u + v + w + x + y + z == (u + v + w + x) + y + z,
        u + v + w + x + y + z == u + (v + w + x + y + z),
{
    assert(u + v + w + x + y + z =~= u + v + (w + x + y + z));
    assert(u + v + w + x + y + z =~= (u + v) + w + (x + y + z));
    assert(u + v + w + x + y + z =~= (u + v + w) + x + (y + z));
    assert(u + v + w + x + y + z =~= u + (v + w + x + y + z));
}

proof fn lemma_report_rows(
    summary: SessionSummary,
    created_sizes: Seq<Option<u64>>,
    modified_sizes: Seq<Option<u64>>,
)
    requires
        is_line_by_line(summary),
        are_line_labels(created_sizes),
        are_line_labels(modified_sizes),
        created_sizes.len() == summary.files_created@.len(),
        modified_sizes.len() == summary.files_modified@.len(),
        summary.total_bytes_written > 0 ==> is_line(byte_size_text(summary.total_bytes_written))
            && byte_size_text(summary.total_bytes_written).last() != '\r',
    ensures
        lines(bare(report_pieces(summary, created_sizes, modified_sizes))) == heading_rows(summary)
            + change_section(summary, created_sizes, modified_sizes) + read_section(
            texts(summary.files_read@),
        ) + connection_section(summary.network_connections@) + subprocess_section(
            summary.subprocesses@,
        ) + verdict_lines(summary),
{
    lemma_heading_rows(summary);
    lemma_change_rows(summary, created_sizes, modified_sizes);
    lemma_read_rows(texts(summary.files_read@));
    lemma_connection_section(summary.network_connections@);
    lemma_subprocess_section(summary.subprocesses@);
    lemma_verdict_lines(summary);
    lemma_shown_six(
        heading_pieces(summary),
        changes_pieces(summary, created_sizes, modified_sizes),
        reads_pieces(texts(summary.files_read@)),
        connections_pieces(summary.network_connections@),
        subprocesses_pieces(summary.subprocesses@),
        verdict_pieces(summary),
        heading_rows(summary),
        change_section(summary, created_sizes, modified_sizes),
        read_section(texts(summary.files_read@)),
        connection_section(summary.network_connections@),
        subprocess_section(summary.subprocesses@),
        verdict_lines(summary),
    );
}

/// Where the lines of a section stand.
proof fn lemma_section_place(
    list: Seq<Seq<char>>,
    before: Seq<Seq<char>>,
    title: Seq<char>,
    rows: Seq<Seq<char>>,
    after: Seq<Seq<char>>,
)
    requires
        list == before + section(true, title, rows) + after,
    ensures
        has_title(list, before.len() as int, title),
        before.len() + 1 + rows.len() < list.len(),
        list[before.len() as int + 1 + rows.len()].len() == 0,
        forall|k: int| 0 <= k < rows.len() ==> #[trigger] list[before.len() + 1 + k] == rows[k],
{
    let t = before.len() as int;
    let mid = section(true, title, rows);
    assert(mid.len() == rows.len() + 2);
    assert(list[t] == mid[0]);
    assert(list[t + 1 + rows.len()] == mid[rows.len() as int + 1]);
    assert forall|k: int| 0 <= k < rows.len() implies #[trigger] list[before.len() + 1 + k]
        == rows[k] by {
        assert(list[t + 1 + k] == mid[1 + k]);
    }
}

proof fn lemma_tells_changes(
    list: Seq<Seq<char>>,
    before: Seq<Seq<char>>,
    after: Seq<Seq<char>>,
    summary: SessionSummary,
    created_sizes: Seq<Option<u64>>,
    modified_sizes: Seq<Option<u64>>,
)
    requires
        has_changes(summary),
        list == before + section(
            true,
            "files changed"@,
            change_rows(summary, created_sizes, modified_sizes),
        ) + after,
    ensures
        tells_changes(
            list,
            texts(summary.files_created@),
            created_sizes,
            texts(summary.files_modified@),
            modified_sizes,
            texts(summary.files_deleted@),
        ),
{
    reveal_strlit("  ");
    reveal_strlit("deleted");
    reveal_strlit(" (");
    reveal_strlit("  deleted (");
    let t = before.len() as int;
    let rows = change_rows(summary, created_sizes, modified_sizes);
    let cr = texts(summary.files_created@);
    let mo = texts(summary.files_modified@);
    let de = texts(summary.files_deleted@);
    let x = file_block("created"@, '+', cr, created_sizes);
    let y = file_block("modified"@, '~', mo, modified_sizes);
    let z = gone_block(de);
    lemma_section_place(list, before, "files changed"@, rows, after);
    let second = t + 1 + block_len(cr.len());
    let third = second + block_len(mo.len());
    assert(x.len() == block_len(cr.len()));
    assert(y.len() == block_len(mo.len()));
    assert(z.len() == block_len(de.len()));
    if cr.len() > 0 {
        assert(list[t + 1 + 0] == rows[0]);
        assert(rows[0] == x[0]);
        assert forall|k: int| 0 <= k < cr.len() implies list[t + 1 + 1 + k] == file_row(
            '+',
            #[trigger] cr[k],
            created_sizes[k],
        ) by {
            assert(list[t + 1 + (1 + k)] == rows[1 + k]);
            assert(rows[1 + k] == x[1 + k]);
        }
    }
    if mo.len() > 0 {
        assert(list[t + 1 + x.len()] == rows[x.len() as int]);
        assert(rows[x.len() as int] == y[0]);
        assert forall|k: int| 0 <= k < mo.len() implies list[second + 1 + k] == file_row(
            '~',
            #[trigger] mo[k],
            modified_sizes[k],
        ) by {
            assert(list[t + 1 + (x.len() + 1 + k)] == rows[x.len() + 1 + k]);
            assert(rows[x.len() + 1 + k] == y[1 + k]);
        }
    }
    if de.len() > 0 {
        assert(list[t + 1 + (x.len() + y.len())] == rows[(x.len() + y.len()) as int]);
        assert(rows[(x.len() + y.len()) as int] == z[0]);
        assert(z[0] =~= "  deleted ("@ + decimal(de.len()) + ")"@);
        assert forall|k: int| 0 <= k < de.len() implies list[third + 1 + k] == without_cr(
            "    - "@ + (#[trigger] de[k]),
        ) by {
            assert(list[t + 1 + (x.len() + y.len() + 1 + k)] == rows[x.len() + y.len() + 1 + k]);
            assert(rows[x.len() + y.len() + 1 + k] == z[1 + k]);
        }
    }
    assert(has_title(list, t, "files changed"@));
}

proof fn lemma_tells_reads(
    list: Seq<Seq<char>>,
    before: Seq<Seq<char>>,
    after: Seq<Seq<char>>,
    paths: Seq<Seq<char>>,
)
    requires
        list == before + section(
            true,
            "files read"@,
            group_rows(grouped(paths), grouped(paths).len()),
        ) + after,
    ensures
        tells_reads(list, paths),
{
    let rows = group_rows(grouped(paths), grouped(paths).len());
    let t = before.len() as int;
    lemma_section_place(list, before, "files read"@, rows, after);
    assert forall|i: int| 0 <= i < paths.len() implies is_told_below(
        list,
        t,
        #[trigger] paths[i],
        paths,
    ) by {
        let (g, l) = lemma_read_place(paths, i);
        assert(list[t + 1 + g] == rows[g]);
        assert(list[t + 1 + l] == rows[l]);
        assert(tells_read(list, t + 1 + g, t + 1 + l, paths[i], paths));
    }
    assert(has_title(list, t, "files read"@));
}

proof fn lemma_tells_connections(
    list: Seq<Seq<char>>,
    before: Seq<Seq<char>>,
    after: Seq<Seq<char>>,
    told: Seq<ConnectionSummary>,
)
    requires
        list == before + section(
            true,
            "network connections"@,
            Seq::new(told.len(), |k: int| connection_row(told[k])),
        ) + after,
    ensures
        tells_connections(list, told),
{
    let rows = Seq::new(told.len(), |k: int| connection_row(told[k]));
    let t = before.len() as int;
    lemma_section_place(list, before, "network connections"@, rows, after);
    assert forall|k: int| 0 <= k < told.len() implies list[t + 1 + k] == connection_row(
        #[trigger] told[k],
    ) by {
        assert(list[t + 1 + k] == rows[k]);
    }
    assert(has_title(list, t, "network connections"@));
}

proof fn lemma_tells_subprocesses(
    list: Seq<Seq<char>>,
    before: Seq<Seq<char>>,
    after: Seq<Seq<char>>,
    told: Seq<SubprocessSummary>,
)
    requires
        list == before + section(
            true,
            "subprocesses"@,
            Seq::new(told.len(), |k: int| subprocess_row(told[k])),
        ) + after,
    ensures
        tells_subprocesses(list, told),
{
    let rows = Seq::new(told.len(), |k: int| subprocess_row(told[k]));
    let t = before.len() as int;
    lemma_section_place(list, before, "subprocesses"@, rows, after);
    assert forall|k: int| 0 <= k < told.len() implies list[t + 1 + k] == subprocess_row(
        #[trigger] told[k],
    ) by {
        assert(list[t + 1 + k] == rows[k]);
    }
    assert(has_title(list, t, "subprocesses"@));
}

proof fn lemma_tells_heading(list: Seq<Seq<char>>, rest: Seq<Seq<char>>, summary: SessionSummary)
    requires
        list == heading_rows(summary) + rest,
    ensures
        tells_heading(list, summary),
{
    let rows = heading_rows(summary);
    assert forall|i: int| 0 <= i < 7 implies #[trigger] list[i] == rows[i] by {}
}

proof fn lemma_tells_verdict(list: Seq<Seq<char>>, front: Seq<Seq<char>>, summary: SessionSummary)
    requires
        is_line_by_line(summary),
        list == front + verdict_lines(summary),
    ensures
        tells_verdict(list, summary),
{
    reveal_strlit("\n");
    let n = front.len() as int;
    let changed = texts(summary.files_created@) + texts(summary.files_modified@) + texts(
        summary.files_deleted@,
    );
    let line = "  touched "@ + decimal(changed.len()) + " files in "@ + directories_text(changed)
        + ", read "@ + decimal(summary.files_read@.len()) + " files, "@ + decimal(
        summary.network_connections@.len(),
    ) + " network connections, "@ + decimal(summary.subprocesses@.len())
        + " subprocesses, ran for "@ + duration_text(summary.duration@ / 1_000_000_000);
    lemma_verdict_line(summary);
    assert(verdict_text(summary) =~= line.push('\n'));
    assert(verdict_line(summary) =~= line);
    assert(list[n + 1] == verdict_lines(summary)[1]);
}

/// A report without colours tells all that the summary holds: every file, connection and process has
/// its line, and the lines stand in the order of the lists, below the title of their section. The
/// texts of the summary, and those of the sizes, are taken to hold no line feeds.
pub proof fn lemma_report_tells_all(
    summary: SessionSummary,
    created_sizes: Seq<Option<u64>>,
    modified_sizes: Seq<Option<u64>>,
)
    requires
        is_line_by_line(summary),
        are_line_labels(created_sizes),
        are_line_labels(modified_sizes),
        created_sizes.len() == summary.files_created@.len(),
        modified_sizes.len() == summary.files_modified@.len(),
        summary.total_bytes_written > 0 ==> is_line(byte_size_text(summary.total_bytes_written))
            && byte_size_text(summary.total_bytes_written).last() != '\r',
    ensures
        tells_all(
            lines(bare(report_pieces(summary, created_sizes, modified_sizes))),
            summary,
            created_sizes,
            modified_sizes,
        ),
{
    let list = lines(bare(report_pieces(summary, created_sizes, modified_sizes)));
    let u = heading_rows(summary);
    let v = change_section(summary, created_sizes, modified_sizes);
    let w = read_section(texts(summary.files_read@));
    let x = connection_section(summary.network_connections@);
    let y = subprocess_section(summary.subprocesses@);
    let z = verdict_lines(summary);
    lemma_report_rows(summary, created_sizes, modified_sizes);
    lemma_around(u, v, w, x, y, z);
    lemma_tells_heading(list, v + w + x + y + z, summary);
    if has_changes(summary) {
        lemma_tells_changes(list, u, w + x + y + z, summary, created_sizes, modified_sizes);
    }
    if summary.files_read@.len() > 0 {
        lemma_tells_reads(list, u + v, x + y + z, texts(summary.files_read@));
    }
    if summary.network_connections@.len() > 0 {
        lemma_tells_connections(list, u + v + w, y + z, summary.network_connections@);
    }
    if summary.subprocesses@.len() > 0 {
        lemma_tells_subprocesses(list, u + v + w + x, z, summary.subprocesses@);
    }
    lemma_tells_verdict(list, u + v + w + x + y, summary);
}

} // verus!
