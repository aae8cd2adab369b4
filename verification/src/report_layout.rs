//! How the report on a session falls into lines.
//!
//! The titles of its sections stand at the start of a line; everything else is indented, begins with
//! a rule or is empty. So a reader, or a program, finds the sections by their titles.

use vstd::prelude::*;

use crate::number::{all_digits, decimal, lemma_decimal_value, signed_decimal};
use crate::order::{lemma_sorted_set_exists, sorted_set};
use crate::path::{lemma_parts_hold_only, parent};
use crate::report::{
    byte_size_text, change_count, change_title, changes_pieces, connection_lines,
    connections_pieces, deleted_lines, deleted_list, directories, directories_text,
    directory_label, duration_text, exit_code_piece, exit_text, file_label, files_under,
    group_lines, grouped, heading_pieces, labelled, listed_under, name_lines, plain, reads_pieces,
    report_pieces, short_directory, short_parent, shortened, size_label, sized_lines, sized_list,
    subprocess_lines, subprocesses_pieces, title_pieces, verdict_pieces, verdict_text,
};
use crate::session::{ConnectionSummary, SessionSummary, SubprocessSummary};
use crate::style::{bare, Piece, Style};
use crate::text::{
    is_line, is_whole_lines, join, lemma_concat_add, lemma_line_add,
    lemma_line_join, lemma_lines_add, lemma_no_lines, lemma_one_line, lines, split, texts,
    without_cr,
};

verus! {

broadcast use crate::text::lemma_line_add;

/// Whether a line is no title: it is empty, indented, or begins with a rule.
pub open spec fn is_body(line: Seq<char>) -> bool {
    line.len() == 0 || line[0] == ' ' || line[0] == '\u{2501}'
}

/// The titles among some lines.
pub open spec fn titles(list: Seq<Seq<char>>) -> Seq<Seq<char>> {
    list.filter(|line: Seq<char>| !is_body(line))
}

/// A title, where there is something below it.
pub open spec fn title_if(present: bool, title: Seq<char>) -> Seq<Seq<char>> {
    if present {
        seq![title]
    } else {
        Seq::empty()
    }
}

/// The titles of the sections of a report that are not empty.
pub open spec fn section_titles(summary: SessionSummary) -> Seq<Seq<char>> {
    title_if(change_count(summary) > 0, "files changed"@) + title_if(
        summary.files_read@.len() > 0,
        "files read"@,
    ) + title_if(summary.network_connections@.len() > 0, "network connections"@) + title_if(
        summary.subprocesses@.len() > 0,
        "subprocesses"@,
    )
}

/// Whether no text of a list holds a line feed.
pub open spec fn all_lines(list: Seq<Seq<char>>) -> bool {
    forall|i: int| 0 <= i < list.len() ==> is_line(#[trigger] list[i])
}

/// Whether no text of a summary holds a line feed.
pub open spec fn is_line_by_line(summary: SessionSummary) -> bool {
    &&& is_line(summary.command@)
    &&& is_line(summary.workspace@)
    &&& all_lines(texts(summary.files_created@))
    &&& all_lines(texts(summary.files_modified@))
    &&& all_lines(texts(summary.files_deleted@))
    &&& all_lines(texts(summary.files_read@))
    &&& forall|i: int|
        0 <= i < summary.network_connections@.len() ==> is_line(
            (#[trigger] summary.network_connections@[i]).remote_host@,
        ) && is_line(summary.network_connections@[i].protocol@)
    &&& forall|i: int|
        0 <= i < summary.subprocesses@.len() ==> all_lines(
            texts((#[trigger] summary.subprocesses@[i]).argv@),
        )
}

/// Whether the labels of some sizes hold no line feed.
pub open spec fn are_line_labels(sizes: Seq<Option<u64>>) -> bool {
    forall|i: int| 0 <= i < sizes.len() ==> is_line(size_label(#[trigger] sizes[i]))
}

/// Whether the lines of a report lie as they should: each title is there exactly where its section
/// is not empty, and the report ends in the verdict, a line on disk writes exactly where there were
/// any, and an empty line.
pub open spec fn is_laid_out(list: Seq<Seq<char>>, summary: SessionSummary) -> bool {
    let end = if summary.total_bytes_written > 0 {
        list.len() - 3
    } else {
        list.len() - 2
    };
    &&& titles(list) == section_titles(summary)
    &&& list.contains("files changed"@) <==> change_count(summary) > 0
    &&& list.contains("files read"@) <==> summary.files_read@.len() > 0
    &&& list.contains("network connections"@) <==> summary.network_connections@.len() > 0
    &&& list.contains("subprocesses"@) <==> summary.subprocesses@.len() > 0
    &&& end >= 0
    &&& list[end].push('\n') == verdict_text(summary)
    &&& summary.total_bytes_written > 0 ==> list[end + 1] == "  total disk writes: "@
        + byte_size_text(summary.total_bytes_written)
    &&& list.last().len() == 0
}

/// Whether some pieces of text are whole lines with these titles.
spec fn shows_titles(pieces: Seq<Piece>, list: Seq<Seq<char>>) -> bool {
    is_whole_lines(bare(pieces)) && titles(lines(bare(pieces))) == list
}

pub(crate) proof fn lemma_bare_add(a: Seq<Piece>, b: Seq<Piece>)
    ensures
        bare(a + b) == bare(a) + bare(b),
{
    let text = |p: Piece| p.0;
    lemma_concat_add(a.map_values(text), b.map_values(text));
    assert((a + b).map_values(text) =~= a.map_values(text) + b.map_values(text));
}

pub(crate) proof fn lemma_bare_push(a: Seq<Piece>, p: Piece)
    ensures
        bare(a.push(p)) == bare(a) + p.0,
{
    let text = |p: Piece| p.0;
    assert(a.push(p).map_values(text) =~= a.map_values(text).push(p.0));
    assert(a.map_values(text).push(p.0).drop_last() =~= a.map_values(text));
}

pub(crate) proof fn lemma_bare_empty()
    ensures
        bare(Seq::empty()) == Seq::<char>::empty(),
{
    let none = Seq::<Piece>::empty();
    assert(none.map_values(|p: Piece| p.0) =~= Seq::empty());
}

proof fn lemma_titles_add(a: Seq<Piece>, b: Seq<Piece>, x: Seq<Seq<char>>, y: Seq<Seq<char>>)
    requires
        shows_titles(a, x),
        shows_titles(b, y),
    ensures
        shows_titles(a + b, x + y),
{
    lemma_bare_add(a, b);
    lemma_lines_add(bare(a), bare(b));
    Seq::filter_distributes_over_add(
        lines(bare(a)),
        lines(bare(b)),
        |line: Seq<char>| !is_body(line),
    );
}

proof fn lemma_no_titles()
    ensures
        shows_titles(Seq::empty(), Seq::empty()),
{
    lemma_bare_empty();
    lemma_no_lines();
    reveal(Seq::filter);
    assert(titles(Seq::empty()) =~= Seq::<Seq<char>>::empty());
}

/// The pieces before the last of a line, put together, hold no line feed and begin as the first does.
pub(crate) proof fn lemma_bare_line(pieces: Seq<Piece>)
    requires
        forall|i: int| 0 <= i < pieces.len() ==> is_line((#[trigger] pieces[i]).0),
    ensures
        is_line(bare(pieces)),
        pieces.len() > 0 && pieces[0].0.len() > 0 ==> bare(pieces).len() > 0 && bare(pieces)[0]
            == pieces[0].0[0],
    decreases pieces.len(),
{
    if pieces.len() == 0 {
        lemma_bare_empty();
        assert(pieces =~= Seq::empty());
    } else {
        let front = pieces.drop_last();
        assert(front.push(pieces.last()) =~= pieces);
        assert forall|i: int| 0 <= i < front.len() implies is_line((#[trigger] front[i]).0) by {
            assert(is_line(pieces[i].0));
        }
        lemma_bare_line(front);
        lemma_bare_push(front, pieces.last());
        assert(is_line(pieces[pieces.len() - 1].0));
        if front.len() == 0 {
            lemma_bare_empty();
            assert(front =~= Seq::empty());
        }
    }
}

/// Some pieces of text without line feeds, and a line feed at their end, are one line.
proof fn lemma_line_of_pieces(front: Seq<Piece>, end: Seq<char>)
    requires
        forall|i: int| 0 <= i < front.len() ==> is_line((#[trigger] front[i]).0),
        is_line(end),
        front.len() > 0,
        front[0].0.len() > 0,
        is_body(front[0].0),
    ensures
        shows_titles(front.push(plain(end.push('\n'))), Seq::empty()),
{
    let line = bare(front) + end;
    lemma_bare_line(front);
    lemma_bare_push(front, plain(end.push('\n')));
    assert(bare(front) + end.push('\n') =~= line.push('\n'));
    lemma_body_line(line);
}

/// A line that is no title adds none.
proof fn lemma_body_line(line: Seq<char>)
    requires
        is_line(line),
        is_body(line),
    ensures
        is_whole_lines(line.push('\n')),
        titles(lines(line.push('\n'))) == Seq::<Seq<char>>::empty(),
{
    lemma_one_line(line);
    let shown = seq![without_cr(line)];
    assert(is_body(shown.last()));
    reveal(Seq::filter);
    assert(shown.drop_last() =~= Seq::empty());
    assert(shown.drop_last().filter(|line: Seq<char>| !is_body(line)) =~= Seq::empty());
    assert(titles(shown) =~= Seq::<Seq<char>>::empty());
}

/// An empty line.
proof fn lemma_empty_line()
    ensures
        shows_titles(seq![plain("\n"@)], Seq::empty()),
{
    reveal_strlit("\n");
    let none = Seq::<char>::empty();
    lemma_bare_empty();
    lemma_bare_push(Seq::empty(), plain("\n"@));
    assert(none + "\n"@ =~= none.push('\n'));
    lemma_body_line(none);
}

/// The title of a section.
proof fn lemma_title(title: Seq<char>)
    requires
        is_line(title),
        !is_body(title),
        title.last() != '\r',
    ensures
        shows_titles(title_pieces(title), seq![title]),
{
    reveal_strlit("\n");
    let first = Seq::<Piece>::empty().push((title, Style::Heading));
    lemma_bare_empty();
    lemma_bare_push(Seq::empty(), (title, Style::Heading));
    lemma_bare_push(first, plain("\n"@));
    assert(title_pieces(title) =~= first.push(plain("\n"@)));
    assert(bare(title_pieces(title)) =~= title.push('\n'));
    lemma_one_line(title);
    let shown = seq![title];
    reveal(Seq::filter);
    assert(shown.drop_last() =~= Seq::empty());
    assert(shown.drop_last().filter(|line: Seq<char>| !is_body(line)) =~= Seq::empty());
    assert(titles(shown) =~= shown);
}

pub(crate) proof fn lemma_decimal_line(n: nat)
    ensures
        is_line(decimal(n)),
{
    lemma_decimal_value(n);
    if decimal(n).contains('\n') {
        let k = choose|k: int| 0 <= k < decimal(n).len() && decimal(n)[k] == '\n';
        assert(all_digits(decimal(n)));
        assert(crate::number::is_digit(decimal(n)[k]));
    }
}

pub(crate) proof fn lemma_signed_line(n: int)
    ensures
        is_line(signed_decimal(n)),
{
    if n < 0 {
        lemma_decimal_line((-n) as nat);
        assert(is_line(seq!['-']));
    } else {
        lemma_decimal_line(n as nat);
    }
}

pub(crate) proof fn lemma_duration_line(secs: nat)
    ensures
        is_line(duration_text(secs)),
{
    reveal_strlit("s");
    reveal_strlit("m ");
    reveal_strlit("h ");
    lemma_decimal_line(secs);
    lemma_decimal_line(secs / 60);
    lemma_decimal_line(secs % 60);
    lemma_decimal_line(secs / 3600);
    lemma_decimal_line((secs % 3600) / 60);
}

proof fn lemma_label_lines(path: Seq<char>)
    requires
        is_line(path),
    ensures
        is_line(directory_label(path)),
        is_line(file_label(path)),
{
    reveal_strlit(".");
    lemma_parts_hold_only(path, '\n');
}

proof fn lemma_short_directory_line(dir: Seq<char>)
    requires
        is_line(dir),
    ensures
        is_line(short_directory(dir)),
{
    reveal_strlit(".../");
    reveal_strlit("/");
    lemma_parts_hold_only(dir, '\n');
    let parts = split(dir, '/');
    if parts.len() > 2 {
        let last = parts.skip(parts.len() - 2);
        assert forall|i: int| 0 <= i < last.len() implies is_line(#[trigger] last[i]) by {
            assert(is_line(split(dir, '/')[i + parts.len() - 2]));
        }
        lemma_line_join(last, "/"@);
    }
}

proof fn lemma_short_parents_lines(paths: Seq<Seq<char>>)
    requires
        all_lines(paths),
    ensures
        all_lines(paths.filter_map(|path: Seq<char>| short_parent(path))),
    decreases paths.len(),
{
    let read = |path: Seq<char>| short_parent(path);
    reveal(Seq::filter_map);
    if paths.len() > 0 {
        let n = paths.len() - 1;
        let front = paths.take(n);
        assert forall|i: int| 0 <= i < front.len() implies is_line(#[trigger] front[i]) by {
            assert(is_line(paths[i]));
        }
        lemma_short_parents_lines(front);
        paths.lemma_filter_map_take_succ(read, n);
        assert(paths.take(n + 1) =~= paths);
        assert(is_line(paths[n]));
        lemma_parts_hold_only(paths[n], '\n');
        if parent(paths[n]) is Some {
            lemma_short_directory_line(parent(paths[n])->0);
        }
        let before = front.filter_map(read);
        let all = paths.filter_map(read);
        assert forall|i: int| 0 <= i < all.len() implies is_line(#[trigger] all[i]) by {
            if i < before.len() {
                assert(all[i] == before[i]);
                assert(is_line(before[i]));
            } else {
                assert(Some(all[i]) == short_parent(paths[n]));
            }
        }
    }
}

proof fn lemma_directories_line(paths: Seq<Seq<char>>)
    requires
        all_lines(paths),
    ensures
        is_line(directories_text(paths)),
{
    reveal_strlit(".");
    reveal_strlit(", ");
    reveal_strlit(" (+");
    reveal_strlit(" more)");
    let short = paths.filter_map(|path: Seq<char>| short_parent(path));
    let dirs = sorted_set(short);
    lemma_short_parents_lines(paths);
    lemma_sorted_set_exists(short);
    assert forall|i: int| 0 <= i < dirs.len() implies is_line(#[trigger] dirs[i]) by {
        assert(dirs.contains(dirs[i]));
        let k = choose|k: int| 0 <= k < short.len() && short[k] == dirs[i];
        assert(is_line(short[k]));
    }
    lemma_line_join(dirs, ", "@);
    if dirs.len() > 3 {
        let first = dirs.take(3);
        assert forall|i: int| 0 <= i < first.len() implies is_line(#[trigger] first[i]) by {
            assert(is_line(dirs[i]));
        }
        lemma_line_join(first, ", "@);
        lemma_decimal_line((dirs.len() - 3) as nat);
    }
}

proof fn lemma_labelled(label: Seq<char>, value: Piece)
    requires
        is_line(label),
        is_line(value.0),
    ensures
        shows_titles(labelled(label, value), Seq::empty()),
{
    reveal_strlit("  ");
    reveal_strlit(" ");
    reveal_strlit("\n");
    let none = Seq::<char>::empty();
    let front = seq![plain("  "@), (label, Style::Dimmed), plain(" "@), value];
    lemma_line_of_pieces(front, none);
    assert("\n"@ =~= none.push('\n'));
    assert(labelled(label, value) =~= front.push(plain(none.push('\n'))));
}

proof fn lemma_heading(summary: SessionSummary)
    requires
        is_line_by_line(summary),
    ensures
        shows_titles(heading_pieces(summary), Seq::empty()),
{
    reveal_strlit("\n");
    reveal_strlit("━━━ postflight session report ━━━");
    reveal_strlit("command:");
    reveal_strlit("workspace:");
    reveal_strlit("duration:");
    reveal_strlit("exit code:");
    let none = Seq::<Seq<char>>::empty();
    let secs = summary.duration@ / 1_000_000_000;
    let banner = seq![("━━━ postflight session report ━━━"@, Style::Bold)];
    let a = seq![plain("\n"@)];
    let b = banner.push(plain("\n"@));
    let c = labelled("command:"@, (summary.command@, Style::Bold));
    let d = labelled("workspace:"@, plain(summary.workspace@));
    let e = labelled("duration:"@, plain(duration_text(secs)));
    let f = labelled("exit code:"@, exit_code_piece(summary.exit_code));
    lemma_empty_line();
    lemma_line_of_pieces(banner, Seq::empty());
    assert("\n"@ =~= Seq::<char>::empty().push('\n'));
    lemma_duration_line(secs);
    lemma_signed_line(summary.exit_code as int);
    lemma_labelled("command:"@, (summary.command@, Style::Bold));
    lemma_labelled("workspace:"@, plain(summary.workspace@));
    lemma_labelled("duration:"@, plain(duration_text(secs)));
    lemma_labelled("exit code:"@, exit_code_piece(summary.exit_code));
    assert(none + none =~= none);
    lemma_titles_add(a, b, none, none);
    lemma_titles_add(a + b, c, none, none);
    lemma_titles_add(a + b + c, d, none, none);
    lemma_titles_add(a + b + c + d, e, none, none);
    lemma_titles_add(a + b + c + d + e, f, none, none);
    lemma_titles_add(a + b + c + d + e + f, a, none, none);
    assert(heading_pieces(summary) =~= a + b + c + d + e + f + a);
}

proof fn lemma_change_title(word: Seq<char>, style: Style, count: nat)
    requires
        is_line(word),
    ensures
        shows_titles(change_title(word, style, count), Seq::empty()),
{
    reveal_strlit("  ");
    reveal_strlit(" (");
    reveal_strlit(")\n");
    lemma_decimal_line(count);
    let end = " ("@ + decimal(count) + seq![')'];
    assert(is_line(seq![')']));
    let front = seq![plain("  "@), (word, style)];
    lemma_line_of_pieces(front, end);
    assert(" ("@ + decimal(count) + ")\n"@ =~= end.push('\n'));
    assert(change_title(word, style, count) =~= front.push(plain(end.push('\n'))));
}

proof fn lemma_sized_lines(
    mark: Seq<char>,
    style: Style,
    paths: Seq<Seq<char>>,
    sizes: Seq<Option<u64>>,
    n: nat,
)
    requires
        is_line(mark),
        all_lines(paths),
        are_line_labels(sizes),
        n <= paths.len(),
        n <= sizes.len(),
    ensures
        shows_titles(sized_lines(mark, style, paths, sizes, n), Seq::empty()),
    decreases n,
{
    let none = Seq::<Seq<char>>::empty();
    if n == 0 {
        lemma_no_titles();
    } else {
        reveal_strlit("    ");
        reveal_strlit(" ");
        reveal_strlit("\n");
        let before = sized_lines(mark, style, paths, sizes, (n - 1) as nat);
        lemma_sized_lines(mark, style, paths, sizes, (n - 1) as nat);
        assert(is_line(paths[n - 1]));
        assert(is_line(size_label(sizes[n - 1])));
        let front = seq![
            plain("    "@),
            (mark, style),
            plain(" "@ + paths[n - 1] + " "@),
            (size_label(sizes[n - 1]), Style::Dimmed),
        ];
        let line = front.push(plain("\n"@));
        lemma_line_of_pieces(front, Seq::empty());
        assert("\n"@ =~= Seq::<char>::empty().push('\n'));
        lemma_titles_add(before, line, none, none);
        assert(none + none =~= none);
        assert(sized_lines(mark, style, paths, sizes, n) =~= before + line);
    }
}

proof fn lemma_sized_list(
    word: Seq<char>,
    word_style: Style,
    mark: Seq<char>,
    style: Style,
    paths: Seq<Seq<char>>,
    sizes: Seq<Option<u64>>,
)
    requires
        is_line(word),
        is_line(mark),
        all_lines(paths),
        are_line_labels(sizes),
        paths.len() == sizes.len(),
    ensures
        shows_titles(sized_list(word, word_style, mark, style, paths, sizes), Seq::empty()),
{
    let none = Seq::<Seq<char>>::empty();
    lemma_no_titles();
    lemma_change_title(word, word_style, paths.len());
    lemma_sized_lines(mark, style, paths, sizes, paths.len());
    lemma_titles_add(
        change_title(word, word_style, paths.len()),
        sized_lines(mark, style, paths, sizes, paths.len()),
        none,
        none,
    );
    assert(none + none =~= none);
}

proof fn lemma_deleted_lines(paths: Seq<Seq<char>>, n: nat)
    requires
        all_lines(paths),
        n <= paths.len(),
    ensures
        shows_titles(deleted_lines(paths, n), Seq::empty()),
    decreases n,
{
    let none = Seq::<Seq<char>>::empty();
    if n == 0 {
        lemma_no_titles();
    } else {
        reveal_strlit("    ");
        reveal_strlit("-");
        reveal_strlit(" ");
        reveal_strlit("\n");
        let before = deleted_lines(paths, (n - 1) as nat);
        lemma_deleted_lines(paths, (n - 1) as nat);
        assert(is_line(paths[n - 1]));
        let front = seq![plain("    "@), ("-"@, Style::Red)];
        let end = " "@ + paths[n - 1];
        lemma_line_of_pieces(front, end);
        assert(end + "\n"@ =~= end.push('\n'));
        let line = front.push(plain(end.push('\n')));
        lemma_titles_add(before, line, none, none);
        assert(none + none =~= none);
        assert(deleted_lines(paths, n) =~= before + line);
    }
}

proof fn lemma_deleted_list(paths: Seq<Seq<char>>)
    requires
        all_lines(paths),
    ensures
        shows_titles(deleted_list(paths), Seq::empty()),
{
    let none = Seq::<Seq<char>>::empty();
    reveal_strlit("deleted");
    lemma_no_titles();
    lemma_change_title("deleted"@, Style::BoldRed, paths.len());
    lemma_deleted_lines(paths, paths.len());
    lemma_titles_add(
        change_title("deleted"@, Style::BoldRed, paths.len()),
        deleted_lines(paths, paths.len()),
        none,
        none,
    );
    assert(none + none =~= none);
}

/// A section: a title, some lines without titles, and an empty line.
proof fn lemma_section(title: Seq<char>, inside: Seq<Piece>)
    requires
        is_line(title),
        !is_body(title),
        title.last() != '\r',
        shows_titles(inside, Seq::empty()),
    ensures
        shows_titles(title_pieces(title) + inside + seq![plain("\n"@)], seq![title]),
{
    let none = Seq::<Seq<char>>::empty();
    lemma_title(title);
    lemma_empty_line();
    lemma_titles_add(title_pieces(title), inside, seq![title], none);
    lemma_titles_add(
        title_pieces(title) + inside,
        seq![plain("\n"@)],
        seq![title] + none,
        none,
    );
    assert(seq![title] + none + none =~= seq![title]);
}

proof fn lemma_changes(
    summary: SessionSummary,
    created_sizes: Seq<Option<u64>>,
    modified_sizes: Seq<Option<u64>>,
)
    requires
        is_line_by_line(summary),
        are_line_labels(created_sizes),
        are_line_labels(modified_sizes),
        created_sizes.len() == summary.files_created@.len(),
        modified_sizes.len() == summary.files_modified@.len(),
    ensures
        shows_titles(
            changes_pieces(summary, created_sizes, modified_sizes),
            title_if(change_count(summary) > 0, "files changed"@),
        ),
{
    let none = Seq::<Seq<char>>::empty();
    reveal_strlit("files changed");
    reveal_strlit("created");
    reveal_strlit("modified");
    reveal_strlit("+");
    reveal_strlit("~");
    let a = sized_list(
        "created"@,
        Style::BoldGreen,
        "+"@,
        Style::Green,
        texts(summary.files_created@),
        created_sizes,
    );
    let b = sized_list(
        "modified"@,
        Style::BoldYellow,
        "~"@,
        Style::Yellow,
        texts(summary.files_modified@),
        modified_sizes,
    );
    let c = deleted_list(texts(summary.files_deleted@));
    lemma_no_titles();
    lemma_sized_list(
        "created"@,
        Style::BoldGreen,
        "+"@,
        Style::Green,
        texts(summary.files_created@),
        created_sizes,
    );
    lemma_sized_list(
        "modified"@,
        Style::BoldYellow,
        "~"@,
        Style::Yellow,
        texts(summary.files_modified@),
        modified_sizes,
    );
    lemma_deleted_list(texts(summary.files_deleted@));
    assert(none + none =~= none);
    lemma_titles_add(a, b, none, none);
    lemma_titles_add(a + b, c, none, none);
    lemma_section("files changed"@, a + b + c);
    if change_count(summary) > 0 {
        assert(changes_pieces(summary, created_sizes, modified_sizes) =~= title_pieces(
            "files changed"@,
        ) + (a + b + c) + seq![plain("\n"@)]);
    }
}

proof fn lemma_name_lines(names: Seq<Seq<char>>, n: nat)
    requires
        all_lines(names),
        n <= names.len(),
    ensures
        shows_titles(name_lines(names, n), Seq::empty()),
    decreases n,
{
    let none = Seq::<Seq<char>>::empty();
    if n == 0 {
        lemma_no_titles();
    } else {
        reveal_strlit("    ");
        reveal_strlit("\n");
        let before = name_lines(names, (n - 1) as nat);
        lemma_name_lines(names, (n - 1) as nat);
        assert(is_line(names[n - 1]));
        let line = "    "@ + names[n - 1];
        let piece = plain(line + "\n"@);
        assert(line + "\n"@ =~= line.push('\n'));
        lemma_body_line(line);
        lemma_bare_empty();
        lemma_bare_push(Seq::empty(), piece);
        assert(bare(seq![piece]) =~= line.push('\n'));
        lemma_titles_add(before, seq![piece], none, none);
        assert(none + none =~= none);
        assert(name_lines(names, n) =~= before + seq![piece]);
    }
}

/// Whether no text of some groups holds a line feed.
pub open spec fn are_line_groups(list: Seq<(Seq<char>, Seq<Seq<char>>)>) -> bool {
    forall|i: int| 0 <= i < list.len() ==> is_line((#[trigger] list[i]).0) && all_lines(list[i].1)
}

proof fn lemma_group_lines(list: Seq<(Seq<char>, Seq<Seq<char>>)>, n: nat)
    requires
        are_line_groups(list),
        n <= list.len(),
    ensures
        shows_titles(group_lines(list, n), Seq::empty()),
    decreases n,
{
    let none = Seq::<Seq<char>>::empty();
    if n == 0 {
        lemma_no_titles();
    } else {
        reveal_strlit("  ");
        reveal_strlit(" (");
        reveal_strlit(" files)\n");
        let (dir, names) = list[n - 1];
        let before = group_lines(list, (n - 1) as nat);
        lemma_group_lines(list, (n - 1) as nat);
        lemma_decimal_line(names.len());
        lemma_name_lines(names, names.len());
        let files = seq![' ', 'f', 'i', 'l', 'e', 's', ')'];
        assert(is_line(files));
        let front = seq![plain("  "@), (dir, Style::Dimmed)];
        let end = " ("@ + decimal(names.len()) + files;
        lemma_line_of_pieces(front, end);
        assert(" ("@ + decimal(names.len()) + " files)\n"@ =~= end.push('\n'));
        let line = front.push(plain(end.push('\n')));
        assert(none + none =~= none);
        lemma_titles_add(before, line, none, none);
        lemma_titles_add(before + line, name_lines(names, names.len()), none, none);
        assert(group_lines(list, n) =~= before + line + name_lines(names, names.len()));
    }
}

pub(crate) proof fn lemma_grouped_lines(paths: Seq<Seq<char>>)
    requires
        all_lines(paths),
    ensures
        are_line_groups(grouped(paths)),
{
    let labels = paths.map_values(|path: Seq<char>| directory_label(path));
    let dirs = directories(paths);
    lemma_sorted_set_exists(labels);
    assert forall|k: int| 0 <= k < grouped(paths).len() implies is_line(
        (#[trigger] grouped(paths)[k]).0,
    ) && all_lines(grouped(paths)[k].1) by {
        let dir = dirs[k];
        let names = files_under(paths, dir);
        let keep = listed_under(dir);
        let kept = paths.filter(keep);
        assert(grouped(paths)[k] == (dir, names));
        assert(dirs.contains(dir));
        let j = choose|j: int| 0 <= j < labels.len() && labels[j] == dir;
        assert(is_line(paths[j]));
        lemma_label_lines(paths[j]);
        assert forall|i: int| 0 <= i < names.len() implies is_line(#[trigger] names[i]) by {
            assert(kept.contains(kept[i]));
            paths.lemma_filter_contains_rev(keep, kept[i]);
            let m = choose|m: int| 0 <= m < paths.len() && paths[m] == kept[i];
            assert(is_line(paths[m]));
            lemma_label_lines(paths[m]);
        }
    }
}

proof fn lemma_reads(paths: Seq<Seq<char>>)
    requires
        all_lines(paths),
    ensures
        shows_titles(reads_pieces(paths), title_if(paths.len() > 0, "files read"@)),
{
    reveal_strlit("files read");
    lemma_no_titles();
    lemma_grouped_lines(paths);
    lemma_group_lines(grouped(paths), grouped(paths).len());
    lemma_section("files read"@, group_lines(grouped(paths), grouped(paths).len()));
}

proof fn lemma_connection_lines(list: Seq<ConnectionSummary>, n: nat)
    requires
        forall|i: int|
            0 <= i < list.len() ==> is_line((#[trigger] list[i]).remote_host@) && is_line(
                list[i].protocol@,
            ),
        n <= list.len(),
    ensures
        shows_titles(connection_lines(list, n), Seq::empty()),
    decreases n,
{
    let none = Seq::<Seq<char>>::empty();
    if n == 0 {
        lemma_no_titles();
    } else {
        reveal_strlit("  ");
        reveal_strlit("\u{2192}");
        reveal_strlit(" ");
        reveal_strlit(":");
        reveal_strlit(" (");
        reveal_strlit(")\n");
        let conn = list[n - 1];
        let before = connection_lines(list, (n - 1) as nat);
        lemma_connection_lines(list, (n - 1) as nat);
        lemma_decimal_line(conn.remote_port as nat);
        assert(is_line(seq![')']));
        let front = seq![plain("  "@), ("\u{2192}"@, Style::Cyan)];
        let middle = " "@ + conn.remote_host@ + ":"@ + decimal(conn.remote_port as nat) + " ("@
            + conn.protocol@;
        let end = middle + seq![')'];
        lemma_line_of_pieces(front, end);
        assert(middle + ")\n"@ =~= end.push('\n'));
        let line = front.push(plain(end.push('\n')));
        lemma_titles_add(before, line, none, none);
        assert(none + none =~= none);
        assert(connection_lines(list, n) =~= before + line);
    }
}

proof fn lemma_connections(list: Seq<ConnectionSummary>)
    requires
        forall|i: int|
            0 <= i < list.len() ==> is_line((#[trigger] list[i]).remote_host@) && is_line(
                list[i].protocol@,
            ),
    ensures
        shows_titles(connections_pieces(list), title_if(list.len() > 0, "network connections"@)),
{
    reveal_strlit("network connections");
    lemma_no_titles();
    lemma_connection_lines(list, list.len());
    lemma_section("network connections"@, connection_lines(list, list.len()));
}

pub(crate) proof fn lemma_shortened_line(text: Seq<char>)
    requires
        is_line(text),
    ensures
        is_line(shortened(text)),
{
    reveal_strlit("...");
    if text.len() > 80 {
        let front = text.take(77);
        if front.contains('\n') {
            let k = choose|k: int| 0 <= k < front.len() && front[k] == '\n';
            assert(text[k] == '\n');
        }
    }
}

proof fn lemma_subprocess_lines(list: Seq<SubprocessSummary>, n: nat)
    requires
        forall|i: int| 0 <= i < list.len() ==> all_lines(texts((#[trigger] list[i]).argv@)),
        n <= list.len(),
    ensures
        shows_titles(subprocess_lines(list, n), Seq::empty()),
    decreases n,
{
    let none = Seq::<Seq<char>>::empty();
    if n == 0 {
        lemma_no_titles();
    } else {
        reveal_strlit("  ");
        reveal_strlit("\u{25b8}");
        reveal_strlit(" ");
        reveal_strlit("[exit:");
        reveal_strlit("]");
        reveal_strlit("?");
        reveal_strlit("(");
        reveal_strlit(")");
        reveal_strlit("\n");
        let process = list[n - 1];
        let before = subprocess_lines(list, (n - 1) as nat);
        let secs = process.duration@ / 1_000_000_000;
        lemma_subprocess_lines(list, (n - 1) as nat);
        lemma_duration_line(secs);
        if process.exit_code is Some {
            lemma_signed_line(process.exit_code->0 as int);
        }
        lemma_line_join(texts(process.argv@), " "@);
        lemma_shortened_line(join(texts(process.argv@), " "@));
        let argv = shortened(join(texts(process.argv@), " "@));
        let front = seq![
            plain("  "@),
            ("\u{25b8}"@, Style::Dimmed),
            plain(" "@ + argv + " "@),
            ("[exit:"@ + exit_text(process.exit_code) + "]"@, Style::Dimmed),
            plain(" "@),
            ("("@ + duration_text(secs) + ")"@, Style::Dimmed),
        ];
        lemma_line_of_pieces(front, Seq::empty());
        assert("\n"@ =~= Seq::<char>::empty().push('\n'));
        let line = front.push(plain("\n"@));
        lemma_titles_add(before, line, none, none);
        assert(none + none =~= none);
        assert(subprocess_lines(list, n) =~= before + line);
    }
}

proof fn lemma_subprocesses(list: Seq<SubprocessSummary>)
    requires
        forall|i: int| 0 <= i < list.len() ==> all_lines(texts((#[trigger] list[i]).argv@)),
    ensures
        shows_titles(subprocesses_pieces(list), title_if(list.len() > 0, "subprocesses"@)),
{
    reveal_strlit("subprocesses");
    lemma_no_titles();
    lemma_subprocess_lines(list, list.len());
    lemma_section("subprocesses"@, subprocess_lines(list, list.len()));
}

/// The sentence that sums the session up, without the line feed at its end.
pub open spec fn verdict_line(summary: SessionSummary) -> Seq<char> {
    verdict_text(summary).drop_last()
}

pub(crate) proof fn lemma_verdict_line(summary: SessionSummary)
    requires
        is_line_by_line(summary),
    ensures
        verdict_text(summary) == verdict_line(summary).push('\n'),
        is_line(verdict_line(summary)),
        is_body(verdict_line(summary)),
        without_cr(verdict_line(summary)) == verdict_line(summary),
{
    reveal_strlit("  touched ");
    reveal_strlit(" files in ");
    reveal_strlit(", read ");
    reveal_strlit(" files, ");
    reveal_strlit(" network connections, ");
    reveal_strlit(" subprocesses, ran for ");
    reveal_strlit("\n");
    let secs = summary.duration@ / 1_000_000_000;
    let changed = texts(summary.files_created@) + texts(summary.files_modified@) + texts(
        summary.files_deleted@,
    );
    assert forall|i: int| 0 <= i < changed.len() implies is_line(#[trigger] changed[i]) by {
        let a = texts(summary.files_created@);
        let b = texts(summary.files_modified@);
        let c = texts(summary.files_deleted@);
        if i < a.len() {
            assert(is_line(a[i]));
        } else if i < a.len() + b.len() {
            assert(is_line(b[i - a.len()]));
        } else {
            assert(is_line(c[i - a.len() - b.len()]));
        }
    }
    lemma_directories_line(changed);
    lemma_decimal_line(change_count(summary));
    lemma_decimal_line(summary.files_read@.len());
    lemma_decimal_line(summary.network_connections@.len());
    lemma_decimal_line(summary.subprocesses@.len());
    lemma_duration_line(secs);
    let start = "  touched "@ + decimal(change_count(summary)) + " files in "@ + directories_text(
        changed,
    ) + ", read "@ + decimal(summary.files_read@.len()) + " files, "@ + decimal(
        summary.network_connections@.len(),
    ) + " network connections, "@ + decimal(summary.subprocesses@.len())
        + " subprocesses, ran for "@;
    let line = start + duration_text(secs);
    assert(verdict_text(summary) =~= line.push('\n'));
    assert(verdict_line(summary) =~= line);
    assert(line[0] == ' ');
    assert(duration_text(secs).last() == 's') by {
        reveal_strlit("s");
    }
    assert(line.last() == 's');
}

/// The lines of the last section.
pub open spec fn verdict_lines(summary: SessionSummary) -> Seq<Seq<char>> {
    seq![
        "\u{2501}\u{2501}\u{2501} verdict \u{2501}\u{2501}\u{2501}"@,
        verdict_line(summary),
    ] + title_if(
        summary.total_bytes_written > 0,
        "  total disk writes: "@ + byte_size_text(summary.total_bytes_written),
    ) + seq![Seq::empty()]
}

/// Whether some pieces of text are exactly these lines.
pub open spec fn shows_lines(pieces: Seq<Piece>, list: Seq<Seq<char>>) -> bool {
    is_whole_lines(bare(pieces)) && lines(bare(pieces)) == list
}

pub(crate) proof fn lemma_shown_add(a: Seq<Piece>, b: Seq<Piece>, x: Seq<Seq<char>>, y: Seq<Seq<char>>)
    requires
        shows_lines(a, x),
        shows_lines(b, y),
    ensures
        shows_lines(a + b, x + y),
{
    lemma_bare_add(a, b);
    lemma_lines_add(bare(a), bare(b));
}

/// A single piece that is a line.
pub(crate) proof fn lemma_piece_line(line: Seq<char>)
    requires
        is_line(line),
        without_cr(line) == line,
    ensures
        shows_lines(seq![plain(line.push('\n'))], seq![line]),
{
    let piece = plain(line.push('\n'));
    lemma_bare_empty();
    lemma_bare_push(Seq::empty(), piece);
    assert(bare(seq![piece]) =~= line.push('\n'));
    lemma_one_line(line);
}

/// The title of the last section.
pub(crate) proof fn lemma_banner_line(rule: Seq<char>, style: Style)
    requires
        is_line(rule),
        without_cr(rule) == rule,
    ensures
        shows_lines(seq![(rule, style), plain("\n"@)], seq![rule]),
{
    reveal_strlit("\n");
    let first = Seq::<Piece>::empty().push((rule, style));
    lemma_bare_empty();
    lemma_bare_push(Seq::empty(), (rule, style));
    lemma_bare_push(first, plain("\n"@));
    assert(seq![(rule, style), plain("\n"@)] =~= first.push(plain("\n"@)));
    assert(bare(first.push(plain("\n"@))) =~= rule.push('\n'));
    lemma_one_line(rule);
}

/// The line on disk writes, where there is one.
proof fn lemma_writes_line(summary: SessionSummary)
    requires
        summary.total_bytes_written > 0,
        is_line(byte_size_text(summary.total_bytes_written)),
        byte_size_text(summary.total_bytes_written).last() != '\r',
    ensures
        shows_lines(
            seq![
                plain(
                    "  total disk writes: "@ + byte_size_text(summary.total_bytes_written)
                        + "\n"@,
                ),
            ],
            seq!["  total disk writes: "@ + byte_size_text(summary.total_bytes_written)],
        ),
{
    reveal_strlit("\n");
    reveal_strlit("  total disk writes: ");
    let size = byte_size_text(summary.total_bytes_written);
    let line = "  total disk writes: "@ + size;
    assert(line + "\n"@ =~= line.push('\n'));
    assert(line.last() != '\r') by {
        if size.len() > 0 {
            assert(line.last() == size.last());
        } else {
            assert(line.last() == ' ');
        }
    }
    lemma_piece_line(line);
}

pub(crate) proof fn lemma_verdict_lines(summary: SessionSummary)
    requires
        is_line_by_line(summary),
        summary.total_bytes_written > 0 ==> is_line(byte_size_text(summary.total_bytes_written))
            && byte_size_text(summary.total_bytes_written).last() != '\r',
    ensures
        shows_lines(verdict_pieces(summary), verdict_lines(summary)),
{
    let rule = "\u{2501}\u{2501}\u{2501} verdict \u{2501}\u{2501}\u{2501}"@;
    let nothing = Seq::<char>::empty();
    let a = seq![(rule, Style::Bold), plain("\n"@)];
    let b = seq![plain(verdict_text(summary))];
    let d = seq![plain("\n"@)];
    let text = "  total disk writes: "@ + byte_size_text(summary.total_bytes_written);
    let x = seq![rule];
    let y = seq![verdict_line(summary)];
    let w = seq![nothing];
    assert(is_line(rule) && without_cr(rule) == rule) by {
        reveal_strlit("\u{2501}\u{2501}\u{2501} verdict \u{2501}\u{2501}\u{2501}");
    }
    lemma_banner_line(rule, Style::Bold);
    lemma_verdict_line(summary);
    lemma_piece_line(verdict_line(summary));
    assert("\n"@ == nothing.push('\n')) by {
        reveal_strlit("\n");
    }
    lemma_piece_line(nothing);
    lemma_shown_add(a, b, x, y);
    if summary.total_bytes_written > 0 {
        let c = seq![plain(text + "\n"@)];
        lemma_writes_line(summary);
        lemma_shown_add(a + b, c, x + y, seq![text]);
        lemma_shown_add(a + b + c, d, x + y + seq![text], w);
        assert(verdict_pieces(summary) =~= a + b + c + d);
        assert(verdict_lines(summary) =~= x + y + seq![text] + w);
    } else {
        lemma_shown_add(a + b, d, x + y, w);
        assert(verdict_pieces(summary) =~= a + b + d);
        assert(verdict_lines(summary) =~= x + y + w);
    }
}

/// Lines that are all no titles have none among them.
proof fn lemma_all_body(list: Seq<Seq<char>>)
    requires
        forall|i: int| 0 <= i < list.len() ==> is_body(#[trigger] list[i]),
    ensures
        titles(list) == Seq::<Seq<char>>::empty(),
{
    let keep = |line: Seq<char>| !is_body(line);
    let kept = titles(list);
    if kept.len() > 0 {
        assert(kept.contains(kept[0]));
        list.lemma_filter_contains_rev(keep, kept[0]);
        list.lemma_filter_pred(keep, 0);
    }
    assert(kept =~= Seq::empty());
}

proof fn lemma_verdict(summary: SessionSummary)
    requires
        is_line_by_line(summary),
        summary.total_bytes_written > 0 ==> is_line(byte_size_text(summary.total_bytes_written))
            && byte_size_text(summary.total_bytes_written).last() != '\r',
    ensures
        shows_titles(verdict_pieces(summary), Seq::empty()),
        lines(bare(verdict_pieces(summary))) == verdict_lines(summary),
{
    reveal_strlit("\u{2501}\u{2501}\u{2501} verdict \u{2501}\u{2501}\u{2501}");
    reveal_strlit("  total disk writes: ");
    lemma_verdict_lines(summary);
    lemma_verdict_line(summary);
    lemma_all_body(verdict_lines(summary));
}

/// A text that is no body line is among some lines exactly where it is among their titles.
proof fn lemma_title_occurs(list: Seq<Seq<char>>, title: Seq<char>)
    requires
        !is_body(title),
    ensures
        list.contains(title) <==> titles(list).contains(title),
{
    let keep = |line: Seq<char>| !is_body(line);
    if list.contains(title) {
        let i = choose|i: int| 0 <= i < list.len() && list[i] == title;
        list.lemma_filter_contains(keep, i);
    }
    if titles(list).contains(title) {
        list.lemma_filter_contains_rev(keep, title);
    }
}

proof fn lemma_title_if(a: Seq<Seq<char>>, present: bool, title: Seq<char>, x: Seq<char>)
    ensures
        (a + title_if(present, title)).contains(x) <==> a.contains(x) || (present && x == title),
{
    let all = a + title_if(present, title);
    if a.contains(x) {
        let k = choose|k: int| 0 <= k < a.len() && a[k] == x;
        assert(all[k] == x);
    }
    if present && x == title {
        assert(all[a.len() as int] == x);
    }
    if all.contains(x) {
        let k = choose|k: int| 0 <= k < all.len() && all[k] == x;
        if k < a.len() {
            assert(a[k] == x);
        }
    }
}

/// Which of the four titles a report has.
proof fn lemma_section_titles(summary: SessionSummary, x: Seq<char>)
    ensures
        section_titles(summary).contains(x) <==> {
            ||| change_count(summary) > 0 && x == "files changed"@
            ||| summary.files_read@.len() > 0 && x == "files read"@
            ||| summary.network_connections@.len() > 0 && x == "network connections"@
            ||| summary.subprocesses@.len() > 0 && x == "subprocesses"@
        },
{
    let none = Seq::<Seq<char>>::empty();
    let a = title_if(change_count(summary) > 0, "files changed"@);
    let b = a + title_if(summary.files_read@.len() > 0, "files read"@);
    let c = b + title_if(summary.network_connections@.len() > 0, "network connections"@);
    assert(none + a =~= a);
    lemma_title_if(none, change_count(summary) > 0, "files changed"@, x);
    lemma_title_if(a, summary.files_read@.len() > 0, "files read"@, x);
    lemma_title_if(b, summary.network_connections@.len() > 0, "network connections"@, x);
    lemma_title_if(c, summary.subprocesses@.len() > 0, "subprocesses"@, x);
}

/// The pieces of a report that come before its last section.
spec fn front_pieces(
    summary: SessionSummary,
    created_sizes: Seq<Option<u64>>,
    modified_sizes: Seq<Option<u64>>,
) -> Seq<Piece> {
    heading_pieces(summary) + changes_pieces(summary, created_sizes, modified_sizes) + reads_pieces(
        texts(summary.files_read@),
    ) + connections_pieces(summary.network_connections@) + subprocesses_pieces(
        summary.subprocesses@,
    )
}

/// Lists of pieces with titles, one after the other.
proof fn lemma_titles_add_all(parts: Seq<Seq<Piece>>, lists: Seq<Seq<Seq<char>>>)
    requires
        parts.len() == 5,
        lists.len() == 5,
        forall|i: int| 0 <= i < 5 ==> shows_titles(#[trigger] parts[i], lists[i]),
    ensures
        shows_titles(
            parts[0] + parts[1] + parts[2] + parts[3] + parts[4],
            lists[0] + lists[1] + lists[2] + lists[3] + lists[4],
        ),
{
    lemma_titles_add(parts[0], parts[1], lists[0], lists[1]);
    lemma_titles_add(parts[0] + parts[1], parts[2], lists[0] + lists[1], lists[2]);
    lemma_titles_add(
        parts[0] + parts[1] + parts[2],
        parts[3],
        lists[0] + lists[1] + lists[2],
        lists[3],
    );
    lemma_titles_add(
        parts[0] + parts[1] + parts[2] + parts[3],
        parts[4],
        lists[0] + lists[1] + lists[2] + lists[3],
        lists[4],
    );
}

proof fn lemma_front(
    summary: SessionSummary,
    created_sizes: Seq<Option<u64>>,
    modified_sizes: Seq<Option<u64>>,
)
    requires
        is_line_by_line(summary),
        are_line_labels(created_sizes),
        are_line_labels(modified_sizes),
        created_sizes.len() == summary.files_created@.len(),
        modified_sizes.len() == summary.files_modified@.len(),
    ensures
        shows_titles(
            front_pieces(summary, created_sizes, modified_sizes),
            section_titles(summary),
        ),
{
    let none = Seq::<Seq<char>>::empty();
    let parts = seq![
        heading_pieces(summary),
        changes_pieces(summary, created_sizes, modified_sizes),
        reads_pieces(texts(summary.files_read@)),
        connections_pieces(summary.network_connections@),
        subprocesses_pieces(summary.subprocesses@),
    ];
    let lists = seq![
        none,
        title_if(change_count(summary) > 0, "files changed"@),
        title_if(summary.files_read@.len() > 0, "files read"@),
        title_if(summary.network_connections@.len() > 0, "network connections"@),
        title_if(summary.subprocesses@.len() > 0, "subprocesses"@),
    ];
    assert forall|i: int| 0 <= i < 5 implies shows_titles(#[trigger] parts[i], lists[i]) by {
        if i == 0 {
            lemma_heading(summary);
        } else if i == 1 {
            lemma_changes(summary, created_sizes, modified_sizes);
        } else if i == 2 {
            lemma_reads(texts(summary.files_read@));
        } else if i == 3 {
            lemma_connections(summary.network_connections@);
        } else {
            lemma_subprocesses(summary.subprocesses@);
        }
    }
    lemma_titles_add_all(parts, lists);
    assert(none + lists[1] =~= lists[1]);
}

/// Where the lines of the last section stand.
proof fn lemma_ending(list: Seq<Seq<char>>, front: Seq<Seq<char>>, summary: SessionSummary)
    requires
        is_line_by_line(summary),
        list == front + verdict_lines(summary),
    ensures
        ({
            let end = if summary.total_bytes_written > 0 {
                list.len() - 3
            } else {
                list.len() - 2
            };
            &&& end >= 0
            &&& list[end].push('\n') == verdict_text(summary)
            &&& summary.total_bytes_written > 0 ==> list[end + 1] == "  total disk writes: "@
                + byte_size_text(summary.total_bytes_written)
            &&& list.last().len() == 0
        }),
{
    lemma_verdict_line(summary);
    let last = verdict_lines(summary);
    let n = front.len() as int;
    assert(list[n + 1] == last[1]);
    assert(list[n + 2] == last[2]);
    assert(list.last() == last.last());
}

/// Which titles the lines of a report hold.
proof fn lemma_found_titles(list: Seq<Seq<char>>, summary: SessionSummary)
    requires
        titles(list) == section_titles(summary),
    ensures
        list.contains("files changed"@) <==> change_count(summary) > 0,
        list.contains("files read"@) <==> summary.files_read@.len() > 0,
        list.contains("network connections"@) <==> summary.network_connections@.len() > 0,
        list.contains("subprocesses"@) <==> summary.subprocesses@.len() > 0,
{
    reveal_strlit("files changed");
    reveal_strlit("files read");
    reveal_strlit("network connections");
    reveal_strlit("subprocesses");
    lemma_title_occurs(list, "files changed"@);
    lemma_title_occurs(list, "files read"@);
    lemma_title_occurs(list, "network connections"@);
    lemma_title_occurs(list, "subprocesses"@);
    lemma_section_titles(summary, "files changed"@);
    lemma_section_titles(summary, "files read"@);
    lemma_section_titles(summary, "network connections"@);
    lemma_section_titles(summary, "subprocesses"@);
}

/// In a report without colours each section has its title on a line of its own exactly where there
/// is something in it, the titles come in their order, nothing else looks like a title, and a line on
/// disk writes follows the verdict exactly where there were any. The texts of the summary, and those
/// of the sizes, are taken to hold no line feeds.
pub proof fn lemma_layout(
    summary: SessionSummary,
    created_sizes: Seq<Option<u64>>,
    modified_sizes: Seq<Option<u64>>,
)
    requires
        is_line_by_line(summary),
        are_line_labels(created_sizes),
        are_line_labels(modified_sizes),
        created_sizes.len() == summary.files_created@.len(),
        modified_sizes.len() == summary.files_modified@.len(),
        summary.total_bytes_written > 0 ==> is_line(byte_size_text(summary.total_bytes_written))
            && byte_size_text(summary.total_bytes_written).last() != '\r',
    ensures
        is_laid_out(lines(bare(report_pieces(summary, created_sizes, modified_sizes))), summary),
{
    let none = Seq::<Seq<char>>::empty();
    let front = front_pieces(summary, created_sizes, modified_sizes);
    let last = verdict_pieces(summary);
    let list = lines(bare(front + last));
    lemma_front(summary, created_sizes, modified_sizes);
    lemma_verdict(summary);
    lemma_titles_add(front, last, section_titles(summary), none);
    assert(section_titles(summary) + none =~= section_titles(summary));
    lemma_bare_add(front, last);
    lemma_lines_add(bare(front), bare(last));
    lemma_ending(list, lines(bare(front)), summary);
    lemma_found_titles(list, summary);
    assert(report_pieces(summary, created_sizes, modified_sizes) == front + last);
}

} // verus!
