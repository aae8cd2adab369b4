//! The report on a session.

use vstd::prelude::*;

use crate::number::{decimal, format_i32, format_u128, format_u64, format_usize, signed_decimal};
use crate::order::{
    increasing, lemma_sorted_set, lemma_sorted_set_exists, sorted_set, sorted_set_of, text_less,
};
use crate::path::{file_name, file_name_of, parent, parent_of};
use crate::report_layout::{are_line_labels, is_laid_out, is_line_by_line, lemma_layout};
use crate::report_lines::{lemma_report_tells_all, tells_all};
use crate::session::{ConnectionSummary, SessionSummary, SubprocessSummary};
use crate::style::{add_span, bare, paint, paint_all, renders, shows, spans, Piece, Span, Style};
use crate::text::{
    chars_of, is_line, join, join_strings, lemma_filter_map_add, lemma_filter_map_contains,
    lemma_one_more_joined, lemma_split, lemma_split_at, lemma_split_whole, lines, pieces, split,
    split_on, string_between, string_of, texts,
};
use crate::time::Duration;

verus! {

/// A length of time in hours, minutes and seconds, without leading units that are nought.
pub open spec fn duration_text(secs: nat) -> Seq<char> {
    if secs < 60 {
        decimal(secs) + "s"@
    } else if secs < 3600 {
        decimal(secs / 60) + "m "@ + decimal(secs % 60) + "s"@
    } else {
        decimal(secs / 3600) + "h "@ + decimal((secs % 3600) / 60) + "m "@ + decimal(secs % 60)
            + "s"@
    }
}

/// Writes a length of time in hours, minutes and seconds.
pub fn format_duration(d: Duration) -> (r: String)
    ensures
        r@ == duration_text(d@ / 1_000_000_000),
{
    let secs: u64 = d.as_secs();
    if secs < 60 {
        let mut out = format_u64(secs);
        out.append("s");
        out
    } else if secs < 3600 {
        let mut out = format_u64(secs / 60);
        out.append("m ");
        out.append(format_u64(secs % 60).as_str());
        out.append("s");
        out
    } else {
        let mut out = format_u64(secs / 3600);
        out.append("h ");
        out.append(format_u64((secs % 3600) / 60).as_str());
        out.append("m ");
        out.append(format_u64(secs % 60).as_str());
        out.append("s");
        out
    }
}

/// The exit code as a piece of text: green where all went well, red otherwise.
pub open spec fn exit_code_piece(code: i32) -> Piece {
    (
        signed_decimal(code as int),
        if code == 0 {
            Style::Green
        } else {
            Style::Red
        },
    )
}

/// Writes an exit code as a terminal gets it.
pub fn format_exit_code(code: i32) -> (r: String)
    ensures
        shows(r@, exit_code_piece(code)),
{
    if code == 0 {
        paint(format_i32(code).as_str(), Style::Green)
    } else {
        paint(format_i32(code).as_str(), Style::Red)
    }
}

/// The text that bytesize writes for a number of bytes, in binary units.
pub uninterp spec fn byte_size_text(bytes: u64) -> Seq<char>;

/// The binary unit in which a number of bytes from 1024 up is written, and its letter.
pub open spec fn binary_unit(bytes: u64) -> (int, char) {
    if bytes < 0x10_0000 {
        (0x400, 'K')
    } else if bytes < 0x4000_0000 {
        (0x10_0000, 'M')
    } else if bytes < 0x100_0000_0000 {
        (0x4000_0000, 'G')
    } else if bytes < 0x4_0000_0000_0000 {
        (0x100_0000_0000, 'T')
    } else {
        (0x4_0000_0000_0000, 'P')
    }
}

/// So many tenths of a binary unit, with one digit behind the point.
pub open spec fn tenths_text(tenths: nat, letter: char) -> Seq<char> {
    decimal(tenths / 10) + "."@ + decimal(tenths % 10) + " "@ + seq![letter] + "iB"@
}

/// Whether `text` is a number of tenths of the unit for `bytes`, less than one tenth off.
pub open spec fn shows_size(text: Seq<char>, bytes: u64, tenths: nat) -> bool {
    let (unit, letter) = binary_unit(bytes);
    text == tenths_text(tenths, letter) && -unit < tenths * unit - bytes * 10 < unit
}

/// Whether the text for a number of bytes is told in digits here: from 1024 up to the point where
/// floating-point numbers no longer hold every whole number.
pub open spec fn is_told_in_tenths(bytes: u64) -> bool {
    1024 <= bytes < 0x20_0000_0000_0000
}

/// Writes a number of bytes in binary units.
///
/// Calls the `Display` of `bytesize::ByteSize`. The text is named and not spelled out; beside the
/// name the contract claims that a number below 1024 is written in full, with the unit `B`; that a
/// larger one, below two to the power of 53, is written in its binary unit with one digit behind the
/// point, less than one tenth off; that the text is a line and that its last letter is the `B` of the
/// unit. How a number between two tenths is rounded is left unsaid.
#[verifier::external_body]
fn byte_size(bytes: u64) -> (r: String)
    ensures
        r@ == byte_size_text(bytes),
        bytes < 1024 ==> r@ == decimal(bytes as nat) + " B"@,
        is_told_in_tenths(bytes) ==> exists|tenths: nat| #[trigger] shows_size(r@, bytes, tenths),
        is_line(r@),
        r@.len() > 0 && r@.last() == 'B',
{
    bytesize::ByteSize(bytes).to_string()
}

/// Writes a number of bytes in binary units. Whole tenths of a unit are written as they are.
pub fn format_bytes(bytes: u64) -> (r: String)
    ensures
        r@ == byte_size_text(bytes),
        bytes < 1024 ==> r@ == decimal(bytes as nat) + " B"@,
        is_told_in_tenths(bytes) ==> exists|tenths: nat| #[trigger] shows_size(r@, bytes, tenths),
        is_told_in_tenths(bytes) && (bytes * 10) % binary_unit(bytes).0 == 0 ==> r@ == tenths_text(
            ((bytes * 10) / binary_unit(bytes).0) as nat,
            binary_unit(bytes).1,
        ),
        is_line(r@),
        r@.len() > 0 && r@.last() == 'B',
{
    let r = byte_size(bytes);
    proof {
        if is_told_in_tenths(bytes) {
            let tenths = choose|tenths: nat| #[trigger] shows_size(r@, bytes, tenths);
            let unit = binary_unit(bytes).0;
            lemma_whole_tenths(tenths as int, bytes * 10, unit);
        }
    }
    r
}

/// A number of units that is less than one unit off, where there is nothing to be off by, is exact.
proof fn lemma_whole_tenths(count: int, amount: int, unit: int)
    requires
        unit > 0,
        -unit < count * unit - amount < unit,
    ensures
        amount % unit == 0 ==> count == amount / unit,
{
    if amount % unit == 0 {
        let whole = amount / unit;
        vstd::arithmetic::div_mod::lemma_fundamental_div_mod(amount, unit);
        assert(count == whole) by (nonlinear_arith)
            requires
                unit > 0,
                amount == unit * whole,
                -unit < count * unit - amount < unit,
        ;
    }
}

/// The label for the size of a file: nothing where it is not known.
pub open spec fn size_label(size: Option<u64>) -> Seq<char> {
    match size {
        Some(bytes) => "("@ + byte_size_text(bytes) + ")"@,
        None => ""@,
    }
}

/// The label for the size of a file.
pub fn file_size_label(size: Option<u64>) -> (r: String)
    ensures
        r@ == size_label(size),
        is_line(r@),
{
    broadcast use crate::text::lemma_line_add;

    proof {
        reveal_strlit("(");
        reveal_strlit(")");
        reveal_strlit("");
    }
    match size {
        Some(bytes) => {
            let mut out = "(".to_owned();
            out.append(byte_size(bytes).as_str());
            out.append(")");
            out
        },
        None => "".to_owned(),
    }
}

/// The directory that a path is listed under.
pub open spec fn directory_label(path: Seq<char>) -> Seq<char> {
    match parent(path) {
        Some(dir) => dir,
        None => "."@,
    }
}

/// The name that a path is listed by.
pub open spec fn file_label(path: Seq<char>) -> Seq<char> {
    match file_name(path) {
        Some(name) => name,
        None => path,
    }
}

/// The names of the paths that are listed under one directory, in their order.
pub open spec fn files_under(paths: Seq<Seq<char>>, dir: Seq<char>) -> Seq<Seq<char>> {
    paths.filter(listed_under(dir)).map_values(|path: Seq<char>| file_label(path))
}

/// Whether a path is listed under a directory.
pub open spec fn listed_under(dir: Seq<char>) -> spec_fn(Seq<char>) -> bool {
    |path: Seq<char>| directory_label(path) == dir
}

/// The directories that some paths are listed under, in dictionary order.
pub open spec fn directories(paths: Seq<Seq<char>>) -> Seq<Seq<char>> {
    sorted_set(paths.map_values(|path: Seq<char>| directory_label(path)))
}

/// Paths by directory: the directories in dictionary order, each with the names of its paths.
pub open spec fn grouped(paths: Seq<Seq<char>>) -> Seq<(Seq<char>, Seq<Seq<char>>)> {
    directories(paths).map_values(|dir: Seq<char>| (dir, files_under(paths, dir)))
}

/// Directories with the names listed under each.
pub open spec fn groups(list: Seq<(String, Vec<String>)>) -> Seq<(Seq<char>, Seq<Seq<char>>)> {
    list.map_values(|g: (String, Vec<String>)| (g.0@, texts(g.1@)))
}

fn label_directory(path: &str) -> (r: String)
    ensures
        r@ == directory_label(path@),
{
    match parent_of(path) {
        Some(dir) => dir,
        None => ".".to_owned(),
    }
}

fn label_file(path: &str) -> (r: String)
    ensures
        r@ == file_label(path@),
{
    match file_name_of(path) {
        Some(name) => name,
        None => path.to_owned(),
    }
}

fn names_under(paths: &Vec<String>, labels: &Vec<String>, dir: &String) -> (r: Vec<String>)
    requires
        texts(labels@) == texts(paths@).map_values(|path: Seq<char>| directory_label(path)),
    ensures
        texts(r@) == files_under(texts(paths@), dir@),
{
    let ghost all = texts(paths@);
    let ghost keep = listed_under(dir@);
    let ghost name = |path: Seq<char>| file_label(path);
    let mut out: Vec<String> = Vec::new();
    let mut i: usize = 0;
    proof {
        assert(texts(labels@).len() == labels@.len());
        reveal(Seq::filter);
        assert(all.take(0) =~= Seq::empty());
        assert(texts(out@) =~= all.take(0).filter(keep).map_values(name));
    }
    while i < paths.len()
        invariant
            i <= paths@.len(),
            labels@.len() == paths@.len(),
            all == texts(paths@),
            keep == listed_under(dir@),
            name == (|path: Seq<char>| file_label(path)),
            texts(labels@) == all.map_values(|path: Seq<char>| directory_label(path)),
            texts(out@) == all.take(i as int).filter(keep).map_values(name),
        decreases paths@.len() - i,
    {
        let ghost before = all.take(i as int).filter(keep);
        let ghost out_before = texts(out@);
        proof {
            assert(all[i as int] == paths@[i as int]@);
            assert(texts(labels@)[i as int] == labels@[i as int]@);
            assert(all.take(i + 1) =~= all.take(i as int).push(all[i as int]));
            all.take(i as int).lemma_filter_push(all[i as int], keep);
        }
        if labels[i] == *dir {
            let file = label_file(paths[i].as_str());
            let ghost added = file@;
            out.push(file);
            proof {
                assert(texts(out@) =~= out_before.push(added));
                assert(before.push(all[i as int]).map_values(name) =~= before.map_values(name).push(
                    added,
                ));
            }
        }
        i += 1;
    }
    assert(all.take(i as int) =~= all);
    out
}

/// Groups paths by directory.
pub fn group_by_directory(paths: &Vec<String>) -> (r: Vec<(String, Vec<String>)>)
    ensures
        groups(r@) == grouped(texts(paths@)),
{
    let ghost all = texts(paths@);
    let mut labels: Vec<String> = Vec::new();
    let mut i: usize = 0;
    let ghost wanted = all.map_values(|path: Seq<char>| directory_label(path));
    while i < paths.len()
        invariant
            i <= paths@.len(),
            all == texts(paths@),
            wanted == all.map_values(|path: Seq<char>| directory_label(path)),
            texts(labels@) == wanted.take(i as int),
        decreases paths@.len() - i,
    {
        let ghost before = texts(labels@);
        let label = label_directory(paths[i].as_str());
        let ghost added = label@;
        labels.push(label);
        i += 1;
        assert(texts(labels@) =~= before.push(added));
        assert(texts(labels@) =~= wanted.take(i as int));
    }
    assert(wanted.take(i as int) =~= wanted);
    let dirs = sorted_set_of(&labels);
    let mut out: Vec<(String, Vec<String>)> = Vec::new();
    let mut k: usize = 0;
    let ghost target = grouped(all);
    proof {
        assert(texts(dirs@).len() == dirs@.len());
        assert(groups(out@) =~= target.take(0));
    }
    while k < dirs.len()
        invariant
            k <= dirs@.len(),
            texts(dirs@) == directories(all),
            target == grouped(all),
            target.len() == dirs@.len(),
            all == texts(paths@),
            texts(labels@) == all.map_values(|path: Seq<char>| directory_label(path)),
            groups(out@) == target.take(k as int),
        decreases dirs@.len() - k,
    {
        let ghost before = groups(out@);
        assert(texts(dirs@)[k as int] == dirs@[k as int]@);
        let names = names_under(paths, &labels, &dirs[k]);
        let group = (dirs[k].clone(), names);
        let ghost added = (group.0@, texts(group.1@));
        out.push(group);
        k += 1;
        assert(groups(out@) =~= before.push(added));
        assert(groups(out@) =~= target.take(k as int));
    }
    assert(target.take(k as int) =~= target);
    out
}

/// A directory in short: its last two names where it has more.
pub open spec fn short_directory(dir: Seq<char>) -> Seq<char> {
    let parts = split(dir, '/');
    if parts.len() > 2 {
        ".../"@ + join(parts.skip(parts.len() - 2), "/"@)
    } else {
        dir
    }
}

/// The directory of a path in short, where it has one.
pub open spec fn short_parent(path: Seq<char>) -> Option<Seq<char>> {
    match parent(path) {
        Some(dir) => Some(short_directory(dir)),
        None => None,
    }
}

/// The directories of some paths, in dictionary order: up to three by name, and the number of the
/// others.
pub open spec fn directories_text(paths: Seq<Seq<char>>) -> Seq<char> {
    let dirs = sorted_set(paths.filter_map(|path: Seq<char>| short_parent(path)));
    if dirs.len() == 0 {
        "."@
    } else if dirs.len() <= 3 {
        join(dirs, ", "@)
    } else {
        join(dirs.take(3), ", "@) + " (+"@ + decimal((dirs.len() - 3) as nat) + " more)"@
    }
}

fn shorten_directory(dir: &str) -> (r: String)
    ensures
        r@ == short_directory(dir@),
{
    let parts = split_on(&chars_of(dir), '/');
    assert(pieces(parts@).len() == parts@.len());
    if parts.len() > 2 {
        let n: usize = parts.len();
        let mut last: Vec<String> = Vec::new();
        last.push(string_of(&parts[n - 2]));
        last.push(string_of(&parts[n - 1]));
        assert(texts(last@) =~= pieces(parts@).skip(n - 2));
        let mut out = ".../".to_owned();
        out.append(join_strings(&last, "/").as_str());
        out
    } else {
        dir.to_owned()
    }
}

fn add_short_parents(list: &Vec<String>, out: &mut Vec<String>)
    ensures
        texts(final(out)@) == texts(old(out)@) + texts(list@).filter_map(
            |path: Seq<char>| short_parent(path),
        ),
{
    let ghost all = texts(list@);
    let ghost read = |path: Seq<char>| short_parent(path);
    let ghost start = texts(out@);
    let mut i: usize = 0;
    proof {
        reveal(Seq::filter_map);
        assert(all.take(0) =~= Seq::empty());
        assert(texts(out@) =~= start + all.take(0).filter_map(read));
    }
    while i < list.len()
        invariant
            i <= list@.len(),
            all == texts(list@),
            read == (|path: Seq<char>| short_parent(path)),
            texts(out@) == start + all.take(i as int).filter_map(read),
        decreases list@.len() - i,
    {
        let ghost before = texts(out@);
        proof {
            assert(all[i as int] == list@[i as int]@);
            all.lemma_filter_map_take_succ(read, i as int);
        }
        match parent_of(list[i].as_str()) {
            Some(dir) => {
                let short = shorten_directory(dir.as_str());
                let ghost added = short@;
                out.push(short);
                assert(texts(out@) =~= before.push(added));
            },
            None => {},
        }
        i += 1;
        assert(texts(out@) =~= start + all.take(i as int).filter_map(read));
    }
    assert(all.take(i as int) =~= all);
}

/// The directories of the files that a session changed, in short.
pub fn summarize_directories(
    created: &Vec<String>,
    modified: &Vec<String>,
    deleted: &Vec<String>,
) -> (r: String)
    ensures
        r@ == directories_text(texts(created@) + texts(modified@) + texts(deleted@)),
{
    let ghost read = |path: Seq<char>| short_parent(path);
    let mut short: Vec<String> = Vec::new();
    assert(texts(short@) =~= Seq::empty());
    add_short_parents(created, &mut short);
    add_short_parents(modified, &mut short);
    add_short_parents(deleted, &mut short);
    proof {
        lemma_filter_map_add(texts(created@), texts(modified@), read);
        lemma_filter_map_add(texts(created@) + texts(modified@), texts(deleted@), read);
        assert(texts(short@) =~= (texts(created@) + texts(modified@) + texts(deleted@)).filter_map(
            read,
        ));
    }
    let dirs = sorted_set_of(&short);
    assert(texts(dirs@).len() == dirs@.len());
    if dirs.len() == 0 {
        ".".to_owned()
    } else if dirs.len() <= 3 {
        join_strings(&dirs, ", ")
    } else {
        let mut first: Vec<String> = Vec::new();
        first.push(dirs[0].clone());
        first.push(dirs[1].clone());
        first.push(dirs[2].clone());
        assert(texts(first@) =~= texts(dirs@).take(3));
        let mut out = join_strings(&first, ", ");
        out.append(" (+");
        out.append(format_usize(dirs.len() - 3).as_str());
        out.append(" more)");
        out
    }
}

/// A piece of plain text.
pub open spec fn plain(text: Seq<char>) -> Piece {
    (text, Style::Plain)
}

/// A line of the heading: a label and a value.
pub open spec fn labelled(label: Seq<char>, value: Piece) -> Seq<Piece> {
    seq![plain("  "@), (label, Style::Dimmed), plain(" "@), value, plain("\n"@)]
}

/// The heading of the report.
pub open spec fn heading_pieces(summary: SessionSummary) -> Seq<Piece> {
    seq![plain("\n"@), ("━━━ postflight session report ━━━"@, Style::Bold), plain("\n"@)]
        + labelled("command:"@, (summary.command@, Style::Bold)) + labelled(
        "workspace:"@,
        plain(summary.workspace@),
    ) + labelled("duration:"@, plain(duration_text(summary.duration@ / 1_000_000_000)))
        + labelled("exit code:"@, exit_code_piece(summary.exit_code)) + seq![plain("\n"@)]
}

/// The title of a section.
pub open spec fn title_pieces(title: Seq<char>) -> Seq<Piece> {
    seq![(title, Style::Heading), plain("\n"@)]
}

/// The title of a list of changed files.
pub open spec fn change_title(word: Seq<char>, style: Style, count: nat) -> Seq<Piece> {
    seq![plain("  "@), (word, style), plain(" ("@ + decimal(count) + ")\n"@)]
}

/// The lines for the first `n` of some files, with a mark and the size of each.
pub open spec fn sized_lines(
    mark: Seq<char>,
    style: Style,
    paths: Seq<Seq<char>>,
    sizes: Seq<Option<u64>>,
    n: nat,
) -> Seq<Piece>
    decreases n,
{
    if n == 0 {
        Seq::empty()
    } else {
        sized_lines(mark, style, paths, sizes, (n - 1) as nat) + seq![
            plain("    "@),
            (mark, style),
            plain(" "@ + paths[n - 1] + " "@),
            (size_label(sizes[n - 1]), Style::Dimmed),
            plain("\n"@),
        ]
    }
}

/// The list of changed files of one sort, where there are any, with their sizes.
pub open spec fn sized_list(
    word: Seq<char>,
    word_style: Style,
    mark: Seq<char>,
    style: Style,
    paths: Seq<Seq<char>>,
    sizes: Seq<Option<u64>>,
) -> Seq<Piece> {
    if paths.len() == 0 {
        Seq::empty()
    } else {
        change_title(word, word_style, paths.len()) + sized_lines(
            mark,
            style,
            paths,
            sizes,
            paths.len(),
        )
    }
}

/// The lines for the first `n` of some files that are gone.
pub open spec fn deleted_lines(paths: Seq<Seq<char>>, n: nat) -> Seq<Piece>
    decreases n,
{
    if n == 0 {
        Seq::empty()
    } else {
        deleted_lines(paths, (n - 1) as nat) + seq![
            plain("    "@),
            ("-"@, Style::Red),
            plain(" "@ + paths[n - 1] + "\n"@),
        ]
    }
}

/// The list of files that are gone, where there are any.
pub open spec fn deleted_list(paths: Seq<Seq<char>>) -> Seq<Piece> {
    if paths.len() == 0 {
        Seq::empty()
    } else {
        change_title("deleted"@, Style::BoldRed, paths.len()) + deleted_lines(paths, paths.len())
    }
}

/// How many files a session changed.
pub open spec fn change_count(summary: SessionSummary) -> nat {
    summary.files_created@.len() + summary.files_modified@.len() + summary.files_deleted@.len()
}

/// The section on changed files, where there are any.
pub open spec fn changes_pieces(
    summary: SessionSummary,
    created_sizes: Seq<Option<u64>>,
    modified_sizes: Seq<Option<u64>>,
) -> Seq<Piece> {
    if change_count(summary) == 0 {
        Seq::empty()
    } else {
        title_pieces("files changed"@) + sized_list(
            "created"@,
            Style::BoldGreen,
            "+"@,
            Style::Green,
            texts(summary.files_created@),
            created_sizes,
        ) + sized_list(
            "modified"@,
            Style::BoldYellow,
            "~"@,
            Style::Yellow,
            texts(summary.files_modified@),
            modified_sizes,
        ) + deleted_list(texts(summary.files_deleted@)) + seq![plain("\n"@)]
    }
}

/// The lines for the first `n` of some names.
pub open spec fn name_lines(names: Seq<Seq<char>>, n: nat) -> Seq<Piece>
    decreases n,
{
    if n == 0 {
        Seq::empty()
    } else {
        name_lines(names, (n - 1) as nat).push(plain("    "@ + names[n - 1] + "\n"@))
    }
}

/// The lines for the first `n` of some directories with names.
pub open spec fn group_lines(list: Seq<(Seq<char>, Seq<Seq<char>>)>, n: nat) -> Seq<Piece>
    decreases n,
{
    if n == 0 {
        Seq::empty()
    } else {
        let (dir, names) = list[n - 1];
        group_lines(list, (n - 1) as nat) + seq![
            plain("  "@),
            (dir, Style::Dimmed),
            plain(" ("@ + decimal(names.len()) + " files)\n"@),
        ] + name_lines(names, names.len())
    }
}

/// The section on files that were read, where there are any.
pub open spec fn reads_pieces(paths: Seq<Seq<char>>) -> Seq<Piece> {
    if paths.len() == 0 {
        Seq::empty()
    } else {
        title_pieces("files read"@) + group_lines(grouped(paths), grouped(paths).len()) + seq![
            plain("\n"@),
        ]
    }
}

/// The lines for the first `n` of some connections.
pub open spec fn connection_lines(list: Seq<ConnectionSummary>, n: nat) -> Seq<Piece>
    decreases n,
{
    if n == 0 {
        Seq::empty()
    } else {
        let conn = list[n - 1];
        connection_lines(list, (n - 1) as nat) + seq![
            plain("  "@),
            ("\u{2192}"@, Style::Cyan),
            plain(
                " "@ + conn.remote_host@ + ":"@ + decimal(conn.remote_port as nat) + " ("@
                    + conn.protocol@ + ")\n"@,
            ),
        ]
    }
}

/// The section on connections, where there are any.
pub open spec fn connections_pieces(list: Seq<ConnectionSummary>) -> Seq<Piece> {
    if list.len() == 0 {
        Seq::empty()
    } else {
        title_pieces("network connections"@) + connection_lines(list, list.len()) + seq![
            plain("\n"@),
        ]
    }
}

/// A command line in at most 80 characters: of a longer one the first 77, and three dots.
pub open spec fn shortened(text: Seq<char>) -> Seq<char> {
    if text.len() > 80 {
        text.take(77) + "..."@
    } else {
        text
    }
}

/// The exit code of a subprocess, or a question mark where it is not known.
pub open spec fn exit_text(code: Option<i32>) -> Seq<char> {
    match code {
        Some(code) => signed_decimal(code as int),
        None => "?"@,
    }
}

/// The lines for the first `n` of some subprocesses.
pub open spec fn subprocess_lines(list: Seq<SubprocessSummary>, n: nat) -> Seq<Piece>
    decreases n,
{
    if n == 0 {
        Seq::empty()
    } else {
        let process = list[n - 1];
        subprocess_lines(list, (n - 1) as nat) + seq![
            plain("  "@),
            ("\u{25b8}"@, Style::Dimmed),
            plain(" "@ + shortened(join(texts(process.argv@), " "@)) + " "@),
            ("[exit:"@ + exit_text(process.exit_code) + "]"@, Style::Dimmed),
            plain(" "@),
            ("("@ + duration_text(process.duration@ / 1_000_000_000) + ")"@, Style::Dimmed),
            plain("\n"@),
        ]
    }
}

/// The section on subprocesses, where there are any.
pub open spec fn subprocesses_pieces(list: Seq<SubprocessSummary>) -> Seq<Piece> {
    if list.len() == 0 {
        Seq::empty()
    } else {
        title_pieces("subprocesses"@) + subprocess_lines(list, list.len()) + seq![plain("\n"@)]
    }
}

/// The sentence that sums the session up.
pub open spec fn verdict_text(summary: SessionSummary) -> Seq<char> {
    "  touched "@ + decimal(change_count(summary)) + " files in "@ + directories_text(
        texts(summary.files_created@) + texts(summary.files_modified@) + texts(
            summary.files_deleted@,
        ),
    ) + ", read "@ + decimal(summary.files_read@.len()) + " files, "@ + decimal(
        summary.network_connections@.len(),
    ) + " network connections, "@ + decimal(summary.subprocesses@.len())
        + " subprocesses, ran for "@ + duration_text(summary.duration@ / 1_000_000_000) + "\n"@
}

/// The last section: what it all came to.
pub open spec fn verdict_pieces(summary: SessionSummary) -> Seq<Piece> {
    let verdict = seq![
        ("\u{2501}\u{2501}\u{2501} verdict \u{2501}\u{2501}\u{2501}"@, Style::Bold),
        plain("\n"@),
        plain(verdict_text(summary)),
    ];
    let writes = if summary.total_bytes_written > 0 {
        seq![plain("  total disk writes: "@ + byte_size_text(summary.total_bytes_written) + "\n"@)]
    } else {
        Seq::empty()
    };
    verdict + writes + seq![plain("\n"@)]
}

/// The report on a session, as a row of pieces of text. `created_sizes` and `modified_sizes` are
/// the sizes of the files that it created and modified, where they are known.
pub open spec fn report_pieces(
    summary: SessionSummary,
    created_sizes: Seq<Option<u64>>,
    modified_sizes: Seq<Option<u64>>,
) -> Seq<Piece> {
    heading_pieces(summary) + changes_pieces(summary, created_sizes, modified_sizes)
        + reads_pieces(texts(summary.files_read@)) + connections_pieces(
        summary.network_connections@,
    ) + subprocesses_pieces(summary.subprocesses@) + verdict_pieces(summary)
}

fn add_labelled(out: &mut Vec<Span>, label: &str, value: &str, style: Style)
    ensures
        spans(final(out)@) == spans(old(out)@) + labelled(label@, (value@, style)),
{
    let ghost before = spans(out@);
    add_span(out, "  ", Style::Plain);
    add_span(out, label, Style::Dimmed);
    add_span(out, " ", Style::Plain);
    add_span(out, value, style);
    add_span(out, "\n", Style::Plain);
    assert(spans(out@) =~= before + labelled(label@, (value@, style)));
}

fn add_heading(out: &mut Vec<Span>, summary: &SessionSummary)
    ensures
        spans(final(out)@) == spans(old(out)@) + heading_pieces(*summary),
{
    let ghost before = spans(out@);
    add_span(out, "\n", Style::Plain);
    add_span(out, "━━━ postflight session report ━━━", Style::Bold);
    add_span(out, "\n", Style::Plain);
    add_labelled(out, "command:", summary.command.as_str(), Style::Bold);
    add_labelled(out, "workspace:", summary.workspace.as_str(), Style::Plain);
    add_labelled(out, "duration:", format_duration(summary.duration).as_str(), Style::Plain);
    let style = if summary.exit_code == 0 {
        Style::Green
    } else {
        Style::Red
    };
    add_labelled(out, "exit code:", format_i32(summary.exit_code).as_str(), style);
    add_span(out, "\n", Style::Plain);
    assert(spans(out@) =~= before + heading_pieces(*summary));
}

fn add_title(out: &mut Vec<Span>, title: &str)
    ensures
        spans(final(out)@) == spans(old(out)@) + title_pieces(title@),
{
    let ghost before = spans(out@);
    add_span(out, title, Style::Heading);
    add_span(out, "\n", Style::Plain);
    assert(spans(out@) =~= before + title_pieces(title@));
}

fn add_change_title(out: &mut Vec<Span>, word: &str, style: Style, count: usize)
    ensures
        spans(final(out)@) == spans(old(out)@) + change_title(word@, style, count as nat),
{
    let ghost before = spans(out@);
    add_span(out, "  ", Style::Plain);
    add_span(out, word, style);
    let mut rest = " (".to_owned();
    rest.append(format_usize(count).as_str());
    rest.append(")\n");
    add_span(out, rest.as_str(), Style::Plain);
    assert(spans(out@) =~= before + change_title(word@, style, count as nat));
}

fn add_sized_list(
    out: &mut Vec<Span>,
    word: &str,
    word_style: Style,
    mark: &str,
    style: Style,
    paths: &Vec<String>,
    sizes: &Vec<Option<u64>>,
)
    requires
        paths@.len() == sizes@.len(),
    ensures
        spans(final(out)@) == spans(old(out)@) + sized_list(
            word@,
            word_style,
            mark@,
            style,
            texts(paths@),
            sizes@,
        ),
        are_line_labels(sizes@),
{
    let ghost start = spans(out@);
    let ghost all = texts(paths@);
    if paths.len() == 0 {
        assert(spans(out@) =~= start + sized_list(word@, word_style, mark@, style, all, sizes@));
        return;
    }
    add_change_title(out, word, word_style, paths.len());
    let ghost head = spans(out@);
    let mut i: usize = 0;
    assert(spans(out@) =~= head + sized_lines(mark@, style, all, sizes@, 0));
    while i < paths.len()
        invariant
            i <= paths@.len(),
            paths@.len() == sizes@.len(),
            all == texts(paths@),
            spans(out@) == head + sized_lines(mark@, style, all, sizes@, i as nat),
            forall|j: int| 0 <= j < i ==> is_line(size_label(#[trigger] sizes@[j])),
        decreases paths@.len() - i,
    {
        add_span(out, "    ", Style::Plain);
        add_span(out, mark, style);
        let mut middle = " ".to_owned();
        middle.append(paths[i].as_str());
        middle.append(" ");
        add_span(out, middle.as_str(), Style::Plain);
        add_span(out, file_size_label(sizes[i]).as_str(), Style::Dimmed);
        add_span(out, "\n", Style::Plain);
        assert(all[i as int] == paths@[i as int]@);
        i += 1;
        assert(spans(out@) =~= head + sized_lines(mark@, style, all, sizes@, i as nat));
    }
    assert(spans(out@) =~= start + sized_list(word@, word_style, mark@, style, all, sizes@));
}

fn add_deleted_list(out: &mut Vec<Span>, paths: &Vec<String>)
    ensures
        spans(final(out)@) == spans(old(out)@) + deleted_list(texts(paths@)),
{
    let ghost start = spans(out@);
    let ghost all = texts(paths@);
    if paths.len() == 0 {
        assert(spans(out@) =~= start + deleted_list(all));
        return;
    }
    add_change_title(out, "deleted", Style::BoldRed, paths.len());
    let ghost head = spans(out@);
    let mut i: usize = 0;
    assert(spans(out@) =~= head + deleted_lines(all, 0));
    while i < paths.len()
        invariant
            i <= paths@.len(),
            all == texts(paths@),
            spans(out@) == head + deleted_lines(all, i as nat),
        decreases paths@.len() - i,
    {
        add_span(out, "    ", Style::Plain);
        add_span(out, "-", Style::Red);
        let mut rest = " ".to_owned();
        rest.append(paths[i].as_str());
        rest.append("\n");
        add_span(out, rest.as_str(), Style::Plain);
        assert(all[i as int] == paths@[i as int]@);
        i += 1;
        assert(spans(out@) =~= head + deleted_lines(all, i as nat));
    }
    assert(spans(out@) =~= start + deleted_list(all));
}

fn add_changes(
    out: &mut Vec<Span>,
    summary: &SessionSummary,
    created_sizes: &Vec<Option<u64>>,
    modified_sizes: &Vec<Option<u64>>,
)
    requires
        created_sizes@.len() == summary.files_created@.len(),
        modified_sizes@.len() == summary.files_modified@.len(),
    ensures
        spans(final(out)@) == spans(old(out)@) + changes_pieces(
            *summary,
            created_sizes@,
            modified_sizes@,
        ),
        are_line_labels(created_sizes@),
        are_line_labels(modified_sizes@),
{
    let ghost start = spans(out@);
    if summary.files_created.len() == 0 && summary.files_modified.len() == 0
        && summary.files_deleted.len() == 0 {
        assert(spans(out@) =~= start + changes_pieces(*summary, created_sizes@, modified_sizes@));
        return;
    }
    add_title(out, "files changed");
    add_sized_list(
        out,
        "created",
        Style::BoldGreen,
        "+",
        Style::Green,
        &summary.files_created,
        created_sizes,
    );
    add_sized_list(
        out,
        "modified",
        Style::BoldYellow,
        "~",
        Style::Yellow,
        &summary.files_modified,
        modified_sizes,
    );
    add_deleted_list(out, &summary.files_deleted);
    add_span(out, "\n", Style::Plain);
    assert(spans(out@) =~= start + changes_pieces(*summary, created_sizes@, modified_sizes@));
}

fn add_names(out: &mut Vec<Span>, names: &Vec<String>)
    ensures
        spans(final(out)@) == spans(old(out)@) + name_lines(texts(names@), names@.len()),
{
    let ghost start = spans(out@);
    let ghost all = texts(names@);
    let mut i: usize = 0;
    assert(spans(out@) =~= start + name_lines(all, 0));
    while i < names.len()
        invariant
            i <= names@.len(),
            all == texts(names@),
            spans(out@) == start + name_lines(all, i as nat),
        decreases names@.len() - i,
    {
        let mut line = "    ".to_owned();
        line.append(names[i].as_str());
        line.append("\n");
        add_span(out, line.as_str(), Style::Plain);
        assert(all[i as int] == names@[i as int]@);
        i += 1;
        assert(spans(out@) =~= start + name_lines(all, i as nat));
    }
}

fn add_reads(out: &mut Vec<Span>, paths: &Vec<String>)
    ensures
        spans(final(out)@) == spans(old(out)@) + reads_pieces(texts(paths@)),
{
    let ghost start = spans(out@);
    assert(texts(paths@).len() == paths@.len());
    if paths.len() == 0 {
        assert(spans(out@) =~= start + reads_pieces(texts(paths@)));
        return;
    }
    add_title(out, "files read");
    let list = group_by_directory(paths);
    let ghost all = groups(list@);
    let ghost head = spans(out@);
    let mut i: usize = 0;
    assert(spans(out@) =~= head + group_lines(all, 0));
    while i < list.len()
        invariant
            i <= list@.len(),
            all == groups(list@),
            spans(out@) == head + group_lines(all, i as nat),
        decreases list@.len() - i,
    {
        assert(all[i as int] == (list@[i as int].0@, texts(list@[i as int].1@)));
        assert(texts(list@[i as int].1@).len() == list@[i as int].1@.len());
        add_span(out, "  ", Style::Plain);
        add_span(out, list[i].0.as_str(), Style::Dimmed);
        let mut rest = " (".to_owned();
        rest.append(format_usize(list[i].1.len()).as_str());
        rest.append(" files)\n");
        add_span(out, rest.as_str(), Style::Plain);
        add_names(out, &list[i].1);
        i += 1;
        assert(spans(out@) =~= head + group_lines(all, i as nat));
    }
    add_span(out, "\n", Style::Plain);
    assert(spans(out@) =~= start + reads_pieces(texts(paths@)));
}

fn add_connections(out: &mut Vec<Span>, list: &Vec<ConnectionSummary>)
    ensures
        spans(final(out)@) == spans(old(out)@) + connections_pieces(list@),
{
    let ghost start = spans(out@);
    if list.len() == 0 {
        assert(spans(out@) =~= start + connections_pieces(list@));
        return;
    }
    add_title(out, "network connections");
    let ghost head = spans(out@);
    let mut i: usize = 0;
    assert(spans(out@) =~= head + connection_lines(list@, 0));
    while i < list.len()
        invariant
            i <= list@.len(),
            spans(out@) == head + connection_lines(list@, i as nat),
        decreases list@.len() - i,
    {
        add_span(out, "  ", Style::Plain);
        add_span(out, "\u{2192}", Style::Cyan);
        let mut rest = " ".to_owned();
        rest.append(list[i].remote_host.as_str());
        rest.append(":");
        rest.append(format_u128(list[i].remote_port as u128).as_str());
        rest.append(" (");
        rest.append(list[i].protocol.as_str());
        rest.append(")\n");
        add_span(out, rest.as_str(), Style::Plain);
        i += 1;
        assert(spans(out@) =~= head + connection_lines(list@, i as nat));
    }
    add_span(out, "\n", Style::Plain);
    assert(spans(out@) =~= start + connections_pieces(list@));
}

fn shorten(text: &str) -> (r: String)
    ensures
        r@ == shortened(text@),
{
    let chars = chars_of(text);
    if chars.len() > 80 {
        let mut out = string_between(&chars, 0, 77);
        assert(out@ =~= text@.take(77));
        out.append("...");
        out
    } else {
        text.to_owned()
    }
}

fn add_subprocesses(out: &mut Vec<Span>, list: &Vec<SubprocessSummary>)
    ensures
        spans(final(out)@) == spans(old(out)@) + subprocesses_pieces(list@),
{
    let ghost start = spans(out@);
    if list.len() == 0 {
        assert(spans(out@) =~= start + subprocesses_pieces(list@));
        return;
    }
    add_title(out, "subprocesses");
    let ghost head = spans(out@);
    let mut i: usize = 0;
    assert(spans(out@) =~= head + subprocess_lines(list@, 0));
    while i < list.len()
        invariant
            i <= list@.len(),
            spans(out@) == head + subprocess_lines(list@, i as nat),
        decreases list@.len() - i,
    {
        let process = &list[i];
        add_span(out, "  ", Style::Plain);
        add_span(out, "\u{25b8}", Style::Dimmed);
        let mut argv = " ".to_owned();
        argv.append(shorten(join_strings(&process.argv, " ").as_str()).as_str());
        argv.append(" ");
        add_span(out, argv.as_str(), Style::Plain);
        let mut exit = "[exit:".to_owned();
        match process.exit_code {
            Some(code) => {
                exit.append(format_i32(code).as_str());
            },
            None => {
                exit.append("?");
            },
        }
        exit.append("]");
        add_span(out, exit.as_str(), Style::Dimmed);
        add_span(out, " ", Style::Plain);
        let mut time = "(".to_owned();
        time.append(format_duration(process.duration).as_str());
        time.append(")");
        add_span(out, time.as_str(), Style::Dimmed);
        add_span(out, "\n", Style::Plain);
        i += 1;
        assert(spans(out@) =~= head + subprocess_lines(list@, i as nat));
    }
    add_span(out, "\n", Style::Plain);
    assert(spans(out@) =~= start + subprocesses_pieces(list@));
}

fn verdict(summary: &SessionSummary) -> (r: String)
    ensures
        r@ == verdict_text(*summary),
{
    let count: u128 = summary.files_created.len() as u128 + summary.files_modified.len() as u128
        + summary.files_deleted.len() as u128;
    let mut out = "  touched ".to_owned();
    out.append(format_u128(count).as_str());
    out.append(" files in ");
    out.append(
        summarize_directories(
            &summary.files_created,
            &summary.files_modified,
            &summary.files_deleted,
        ).as_str(),
    );
    out.append(", read ");
    out.append(format_usize(summary.files_read.len()).as_str());
    out.append(" files, ");
    out.append(format_usize(summary.network_connections.len()).as_str());
    out.append(" network connections, ");
    out.append(format_usize(summary.subprocesses.len()).as_str());
    out.append(" subprocesses, ran for ");
    out.append(format_duration(summary.duration).as_str());
    out.append("\n");
    out
}

fn add_verdict(out: &mut Vec<Span>, summary: &SessionSummary)
    ensures
        spans(final(out)@) == spans(old(out)@) + verdict_pieces(*summary),
        summary.total_bytes_written > 0 ==> is_line(byte_size_text(summary.total_bytes_written))
            && byte_size_text(summary.total_bytes_written).last() == 'B',
{
    let ghost start = spans(out@);
    add_span(
        out,
        "\u{2501}\u{2501}\u{2501} verdict \u{2501}\u{2501}\u{2501}",
        Style::Bold,
    );
    add_span(out, "\n", Style::Plain);
    add_span(out, verdict(summary).as_str(), Style::Plain);
    if summary.total_bytes_written > 0 {
        let mut writes = "  total disk writes: ".to_owned();
        writes.append(format_bytes(summary.total_bytes_written).as_str());
        writes.append("\n");
        add_span(out, writes.as_str(), Style::Plain);
    }
    add_span(out, "\n", Style::Plain);
    assert(spans(out@) =~= start + verdict_pieces(*summary));
}

/// The report on a session, as a row of pieces of text. `created_sizes` and `modified_sizes` are
/// the sizes of the files that it created and modified, where they are known. Where no text of the
/// summary holds a line feed, a section has its title on a line exactly where there is something in
/// it.
pub fn render_document(
    summary: &SessionSummary,
    created_sizes: &Vec<Option<u64>>,
    modified_sizes: &Vec<Option<u64>>,
) -> (r: Vec<Span>)
    requires
        created_sizes@.len() == summary.files_created@.len(),
        modified_sizes@.len() == summary.files_modified@.len(),
    ensures
        spans(r@) == report_pieces(*summary, created_sizes@, modified_sizes@),
        is_line_by_line(*summary) ==> is_laid_out(lines(bare(spans(r@))), *summary),
        is_line_by_line(*summary) ==> tells_all(
            lines(bare(spans(r@))),
            *summary,
            created_sizes@,
            modified_sizes@,
        ),
{
    let mut out: Vec<Span> = Vec::new();
    assert(spans(out@) =~= Seq::empty());
    add_heading(&mut out, summary);
    add_changes(&mut out, summary, created_sizes, modified_sizes);
    add_reads(&mut out, &summary.files_read);
    add_connections(&mut out, &summary.network_connections);
    add_subprocesses(&mut out, &summary.subprocesses);
    add_verdict(&mut out, summary);
    assert(spans(out@) =~= report_pieces(*summary, created_sizes@, modified_sizes@));
    proof {
        if is_line_by_line(*summary) {
            lemma_layout(*summary, created_sizes@, modified_sizes@);
            lemma_report_tells_all(*summary, created_sizes@, modified_sizes@);
        }
    }
    out
}

/// The report on a session, as a terminal gets it. Whether it is in colours is up to the
/// environment. The differences of changed files are printed apart from it, so `show_diffs` changes
/// nothing.
pub fn render_terminal(
    summary: &SessionSummary,
    show_diffs: bool,
    created_sizes: &Vec<Option<u64>>,
    modified_sizes: &Vec<Option<u64>>,
) -> (r: String)
    requires
        created_sizes@.len() == summary.files_created@.len(),
        modified_sizes@.len() == summary.files_modified@.len(),
    ensures
        renders(r@, report_pieces(*summary, created_sizes@, modified_sizes@)),
        is_line_by_line(*summary) && r@ == bare(
            report_pieces(*summary, created_sizes@, modified_sizes@),
        ) ==> is_laid_out(lines(r@), *summary) && tells_all(
            lines(r@),
            *summary,
            created_sizes@,
            modified_sizes@,
        ),
{
    paint_all(&render_document(summary, created_sizes, modified_sizes))
}

/// A command line in the report takes at most 80 characters, and begins as the whole one does.
pub proof fn lemma_shortened(text: Seq<char>)
    ensures
        shortened(text).len() <= 80,
        text.len() <= 80 ==> shortened(text) == text,
        text.len() > 80 ==> shortened(text).take(77) == text.take(77),
{
    reveal_strlit("...");
    if text.len() > 80 {
        assert(shortened(text).take(77) =~= text.take(77));
    }
}

/// Every path is listed under its directory, by its name.
pub proof fn lemma_every_path_grouped(paths: Seq<Seq<char>>, i: int)
    requires
        0 <= i < paths.len(),
    ensures
        exists|k: int|
            0 <= k < grouped(paths).len() && (#[trigger] grouped(paths)[k]).0 == directory_label(
                paths[i],
            ) && grouped(paths)[k].1.contains(file_label(paths[i])),
{
    let labels = paths.map_values(|path: Seq<char>| directory_label(path));
    let dir = directory_label(paths[i]);
    let keep = listed_under(dir);
    let kept = paths.filter(keep);
    lemma_sorted_set_exists(labels);
    assert(labels[i] == dir);
    assert(labels.contains(dir));
    assert(directories(paths).contains(dir));
    let k = choose|k: int| 0 <= k < directories(paths).len() && directories(paths)[k] == dir;
    paths.lemma_filter_contains(keep, i);
    let m = choose|m: int| 0 <= m < kept.len() && kept[m] == paths[i];
    assert(files_under(paths, dir)[m] == file_label(paths[i]));
    assert(grouped(paths)[k] == (dir, files_under(paths, dir)));
}

/// A length of time tells its hours, minutes and seconds, from the largest unit that it fills.
pub proof fn lemma_durations(hours: nat, minutes: nat, seconds: nat)
    requires
        minutes < 60,
        seconds < 60,
    ensures
        ({
            let text = duration_text(hours * 3600 + minutes * 60 + seconds);
            &&& hours > 0 ==> text == decimal(hours) + "h "@ + decimal(minutes) + "m "@ + decimal(
                seconds,
            ) + "s"@
            &&& hours == 0 && minutes > 0 ==> text == decimal(minutes) + "m "@ + decimal(seconds)
                + "s"@
            &&& hours == 0 && minutes == 0 ==> text == decimal(seconds) + "s"@
        }),
{
    let secs = hours * 3600 + minutes * 60 + seconds;
    assert(secs / 3600 == hours);
    assert(secs % 3600 == minutes * 60 + seconds);
    assert((secs % 3600) / 60 == minutes);
    assert(secs % 60 == seconds);
    if hours == 0 {
        assert(secs / 60 == minutes);
    }
}

/// What the report says of exit codes and sizes: a code is green where all went well and red where
/// not; a code that is not known is a question mark, and a size that is not known is left out.
pub proof fn lemma_codes_and_sizes(code: i32, bytes: u64)
    ensures
        exit_code_piece(0) == (decimal(0), Style::Green),
        code > 0 ==> exit_code_piece(code) == (decimal(code as nat), Style::Red),
        code < 0 ==> exit_code_piece(code) == (seq!['-'] + decimal((-code) as nat), Style::Red),
        code >= 0 ==> exit_text(Some(code)) == decimal(code as nat),
        code < 0 ==> exit_text(Some(code)) == seq!['-'] + decimal((-code) as nat),
        exit_text(None) == seq!['?'],
        size_label(None) == Seq::<char>::empty(),
        size_label(Some(bytes)) == seq!['('] + byte_size_text(bytes) + seq![')'],
{
    reveal_strlit("?");
    reveal_strlit("");
    reveal_strlit("(");
    reveal_strlit(")");
    assert("?"@ =~= seq!['?']);
    assert(""@ =~= Seq::<char>::empty());
    assert("("@ =~= seq!['(']);
    assert(")"@ =~= seq![')']);
}

/// A command line that is too long ends in three dots, and takes all the room there is.
pub proof fn lemma_shortened_ends_in_dots(text: Seq<char>)
    requires
        text.len() > 80,
    ensures
        shortened(text) == text.take(77) + seq!['.', '.', '.'],
        shortened(text).len() == 80,
{
    reveal_strlit("...");
    assert("..."@ =~= seq!['.', '.', '.']);
}

/// A directory in short is its last two names, behind dots that stand for the others; one with no more
/// than two stands for itself.
pub proof fn lemma_directory_in_short(above: Seq<char>, a: Seq<char>, b: Seq<char>)
    requires
        !a.contains('/'),
        !b.contains('/'),
    ensures
        short_directory(b) == b,
        short_directory(a.push('/') + b) == a.push('/') + b,
        short_directory(above.push('/') + (a.push('/') + b)) == seq!['.', '.', '.', '/'] + a + seq![
            '/',
        ] + b,
{
    let below = a.push('/') + b;
    let dir = above.push('/') + below;
    let none = Seq::<Seq<char>>::empty();
    reveal_strlit(".../");
    reveal_strlit("/");
    assert(".../"@ =~= seq!['.', '.', '.', '/']);
    assert("/"@ =~= seq!['/']);
    lemma_split_whole(a, '/');
    lemma_split_whole(b, '/');
    lemma_split_at(a, '/', b);
    lemma_split_at(above, '/', below);
    lemma_split(above, '/');
    assert(split(below, '/') =~= seq![a, b]);
    let parts = split(dir, '/');
    assert(parts.skip(parts.len() - 2) =~= none.push(a).push(b));
    lemma_one_more_joined(none, a, b, "/"@);
    assert(none.push(a) =~= seq![a]);
    assert(short_directory(dir) =~= seq!['.', '.', '.', '/'] + a + seq!['/'] + b);
}

/// How the directories of some paths are told: `dirs` are those that the paths lie in, each once and
/// in dictionary order. Up to three are named, and only the number of the others is told.
pub proof fn lemma_directories_told(paths: Seq<Seq<char>>, dirs: Seq<Seq<char>>)
    requires
        forall|i: int, j: int| 0 <= i < j < dirs.len() ==> text_less(#[trigger] dirs[i], #[trigger] dirs[j]),
        forall|x: Seq<char>| #[trigger]
            dirs.contains(x) <==> exists|i: int|
                0 <= i < paths.len() && short_parent(#[trigger] paths[i]) == Some(x),
    ensures
        dirs.len() == 0 ==> directories_text(paths) == seq!['.'],
        dirs.len() == 1 ==> directories_text(paths) == dirs[0],
        dirs.len() == 2 ==> directories_text(paths) == dirs[0] + ", "@ + dirs[1],
        dirs.len() == 3 ==> directories_text(paths) == dirs[0] + ", "@ + dirs[1] + ", "@ + dirs[2],
        dirs.len() > 3 ==> directories_text(paths) == dirs[0] + ", "@ + dirs[1] + ", "@ + dirs[2]
            + " (+"@ + decimal((dirs.len() - 3) as nat) + " more)"@,
{
    let read = |path: Seq<char>| short_parent(path);
    let found = paths.filter_map(read);
    assert forall|x: Seq<char>| #[trigger] dirs.contains(x) <==> found.contains(x) by {
        lemma_filter_map_contains(paths, read, x);
        if found.contains(x) {
            let i = choose|i: int| 0 <= i < paths.len() && read(#[trigger] paths[i]) == Some(x);
            assert(short_parent(paths[i]) == Some(x));
        }
        if dirs.contains(x) {
            let i = choose|i: int| 0 <= i < paths.len() && short_parent(#[trigger] paths[i]) == Some(x);
            assert(read(paths[i]) == Some(x));
        }
    }
    assert(increasing(dirs));
    lemma_sorted_set(dirs, found);
    assert(sorted_set(found) == dirs);
    reveal_strlit(".");
    assert("."@ =~= seq!['.']);
    let none = Seq::<Seq<char>>::empty();
    if dirs.len() > 0 {
        let one = none.push(dirs[0]);
        assert(one =~= seq![dirs[0]]);
        if dirs.len() == 1 {
            assert(dirs =~= one);
            lemma_one_more_joined(none, dirs[0], dirs[0], ", "@);
        } else {
            lemma_one_more_joined(none, dirs[0], dirs[1], ", "@);
            let two = one.push(dirs[1]);
            if dirs.len() == 2 {
                assert(dirs =~= two);
            } else {
                lemma_one_more_joined(one, dirs[1], dirs[2], ", "@);
                assert(dirs.take(3) =~= two.push(dirs[2]));
                if dirs.len() == 3 {
                    assert(dirs =~= two.push(dirs[2]));
                }
            }
        }
    }
}

/// How paths are grouped: under each directory in dictionary order, no directory twice, with the names
/// of the paths that lie there, in the order of the paths.
pub proof fn lemma_groups(paths: Seq<Seq<char>>, path: Seq<char>, dir: Seq<char>, i: int, j: int)
    ensures
        0 <= i < j < grouped(paths).len() ==> text_less(grouped(paths)[i].0, grouped(paths)[j].0),
        0 <= i < grouped(paths).len() ==> grouped(paths)[i].1 == files_under(
            paths,
            grouped(paths)[i].0,
        ) && exists|k: int|
            0 <= k < paths.len() && directory_label(#[trigger] paths[k]) == grouped(paths)[i].0,
        files_under(Seq::empty(), dir) == Seq::<Seq<char>>::empty(),
        directory_label(path) == dir ==> files_under(paths.push(path), dir) == files_under(
            paths,
            dir,
        ).push(file_label(path)),
        directory_label(path) != dir ==> files_under(paths.push(path), dir) == files_under(
            paths,
            dir,
        ),
{
    let labels = paths.map_values(|path: Seq<char>| directory_label(path));
    lemma_sorted_set_exists(labels);
    let dirs = directories(paths);
    if 0 <= i < dirs.len() {
        assert(dirs.contains(dirs[i]));
        assert(labels.contains(dirs[i]));
        let k = choose|k: int| 0 <= k < labels.len() && labels[k] == dirs[i];
        assert(directory_label(paths[k]) == dirs[i]);
    }
    if 0 <= i < j < dirs.len() {
        assert(text_less(dirs[i], dirs[j]));
    }
    paths.lemma_filter_push(path, listed_under(dir));
    assert(files_under(Seq::empty(), dir) =~= Seq::<Seq<char>>::empty()) by {
        reveal(Seq::filter);
    }
    if directory_label(path) == dir {
        assert(files_under(paths.push(path), dir) =~= files_under(paths, dir).push(file_label(path)));
    }
}

/// A path that has a directory above it is listed there, and one that has a name is listed by it; any
/// other path is listed under a dot and by itself.
pub proof fn lemma_labels(path: Seq<char>)
    ensures
        parent(path) matches Some(dir) ==> directory_label(path) == dir && short_parent(path) == Some(
            short_directory(dir),
        ),
        parent(path) is None ==> directory_label(path) == seq!['.'] && short_parent(path) is None,
        file_name(path) matches Some(name) ==> file_label(path) == name,
        file_name(path) is None ==> file_label(path) == path,
{
    reveal_strlit(".");
    assert("."@ =~= seq!['.']);
}

/// One more connection in a report is one more line, in its looks.
pub proof fn lemma_one_more_connection_line(list: Seq<ConnectionSummary>, conn: ConnectionSummary)
    ensures
        connections_pieces(Seq::empty()) == Seq::<Piece>::empty(),
        connections_pieces(list.push(conn)) == title_pieces("network connections"@)
            + connection_lines(list, list.len()) + seq![
            plain("  "@),
            ("\u{2192}"@, Style::Cyan),
            plain(
                " "@ + conn.remote_host@ + ":"@ + decimal(conn.remote_port as nat) + " ("@
                    + conn.protocol@ + ")\n"@,
            ),
        ] + seq![plain("\n"@)],
{
    lemma_connection_lines_front(list, conn, list.len());
    assert(list.push(conn)[list.len() as int] == conn);
    assert(connections_pieces(list.push(conn)) =~= title_pieces("network connections"@)
        + connection_lines(list, list.len()) + seq![
        plain("  "@),
        ("\u{2192}"@, Style::Cyan),
        plain(
            " "@ + conn.remote_host@ + ":"@ + decimal(conn.remote_port as nat) + " ("@
                + conn.protocol@ + ")\n"@,
        ),
    ] + seq![plain("\n"@)]);
}

proof fn lemma_connection_lines_front(
    list: Seq<ConnectionSummary>,
    conn: ConnectionSummary,
    n: nat,
)
    requires
        n <= list.len(),
    ensures
        connection_lines(list.push(conn), n) == connection_lines(list, n),
    decreases n,
{
    if n > 0 {
        lemma_connection_lines_front(list, conn, (n - 1) as nat);
        assert(list.push(conn)[n - 1] == list[n - 1]);
    }
}

/// One more subprocess in a report is one more line, in its looks.
pub proof fn lemma_one_more_subprocess_line(list: Seq<SubprocessSummary>, process: SubprocessSummary)
    ensures
        subprocesses_pieces(Seq::empty()) == Seq::<Piece>::empty(),
        subprocesses_pieces(list.push(process)) == title_pieces("subprocesses"@) + subprocess_lines(
            list,
            list.len(),
        ) + seq![
            plain("  "@),
            ("\u{25b8}"@, Style::Dimmed),
            plain(" "@ + shortened(join(texts(process.argv@), " "@)) + " "@),
            ("[exit:"@ + exit_text(process.exit_code) + "]"@, Style::Dimmed),
            plain(" "@),
            ("("@ + duration_text(process.duration@ / 1_000_000_000) + ")"@, Style::Dimmed),
            plain("\n"@),
        ] + seq![plain("\n"@)],
{
    lemma_subprocess_lines_front(list, process, list.len());
    assert(list.push(process)[list.len() as int] == process);
    assert(subprocess_lines(list.push(process), list.len() + 1) == subprocess_lines(
        list,
        list.len(),
    ) + seq![
        plain("  "@),
        ("\u{25b8}"@, Style::Dimmed),
        plain(" "@ + shortened(join(texts(process.argv@), " "@)) + " "@),
        ("[exit:"@ + exit_text(process.exit_code) + "]"@, Style::Dimmed),
        plain(" "@),
        ("("@ + duration_text(process.duration@ / 1_000_000_000) + ")"@, Style::Dimmed),
        plain("\n"@),
    ]);
    assert(subprocesses_pieces(list.push(process)) =~= title_pieces("subprocesses"@)
        + subprocess_lines(list.push(process), list.len() + 1) + seq![plain("\n"@)]);
    assert(title_pieces("subprocesses"@) + subprocess_lines(list.push(process), list.len() + 1)
        =~= title_pieces("subprocesses"@) + subprocess_lines(list, list.len()) + seq![
        plain("  "@),
        ("\u{25b8}"@, Style::Dimmed),
        plain(" "@ + shortened(join(texts(process.argv@), " "@)) + " "@),
        ("[exit:"@ + exit_text(process.exit_code) + "]"@, Style::Dimmed),
        plain(" "@),
        ("("@ + duration_text(process.duration@ / 1_000_000_000) + ")"@, Style::Dimmed),
        plain("\n"@),
    ]);
}

proof fn lemma_subprocess_lines_front(
    list: Seq<SubprocessSummary>,
    process: SubprocessSummary,
    n: nat,
)
    requires
        n <= list.len(),
    ensures
        subprocess_lines(list.push(process), n) == subprocess_lines(list, n),
    decreases n,
{
    if n > 0 {
        lemma_subprocess_lines_front(list, process, (n - 1) as nat);
        assert(list.push(process)[n - 1] == list[n - 1]);
    }
}

/// One more changed file in a report is one more line below the title that counts them: its mark in the
/// colour of the change, its path, and its size.
pub proof fn lemma_one_more_sized_line(
    word: Seq<char>,
    word_style: Style,
    mark: Seq<char>,
    style: Style,
    paths: Seq<Seq<char>>,
    sizes: Seq<Option<u64>>,
    path: Seq<char>,
    size: Option<u64>,
)
    requires
        sizes.len() == paths.len(),
    ensures
        sized_list(word, word_style, mark, style, Seq::empty(), Seq::empty()) == Seq::<Piece>::empty(),
        sized_list(word, word_style, mark, style, paths.push(path), sizes.push(size)) == seq![
            plain("  "@),
            (word, word_style),
            plain(" ("@ + decimal(paths.len() + 1) + ")\n"@),
        ] + sized_lines(mark, style, paths, sizes, paths.len()) + seq![
            plain("    "@),
            (mark, style),
            plain(" "@ + path + " "@),
            (size_label(size), Style::Dimmed),
            plain("\n"@),
        ],
{
    let n = paths.len();
    let all = paths.push(path);
    let known = sizes.push(size);
    lemma_sized_lines_front(mark, style, paths, sizes, path, size, n);
    assert(all[n as int] == path);
    assert(known[n as int] == size);
    assert(sized_list(word, word_style, mark, style, all, known) == change_title(
        word,
        word_style,
        n + 1,
    ) + sized_lines(mark, style, all, known, n + 1));
    assert(sized_list(word, word_style, mark, style, all, known) =~= seq![
        plain("  "@),
        (word, word_style),
        plain(" ("@ + decimal(n + 1) + ")\n"@),
    ] + sized_lines(mark, style, paths, sizes, n) + seq![
        plain("    "@),
        (mark, style),
        plain(" "@ + path + " "@),
        (size_label(size), Style::Dimmed),
        plain("\n"@),
    ]);
}

proof fn lemma_sized_lines_front(
    mark: Seq<char>,
    style: Style,
    paths: Seq<Seq<char>>,
    sizes: Seq<Option<u64>>,
    path: Seq<char>,
    size: Option<u64>,
    n: nat,
)
    requires
        n <= paths.len(),
        sizes.len() == paths.len(),
    ensures
        sized_lines(mark, style, paths.push(path), sizes.push(size), n) == sized_lines(
            mark,
            style,
            paths,
            sizes,
            n,
        ),
    decreases n,
{
    if n > 0 {
        lemma_sized_lines_front(mark, style, paths, sizes, path, size, (n - 1) as nat);
        assert(paths.push(path)[n - 1] == paths[n - 1]);
        assert(sizes.push(size)[n - 1] == sizes[n - 1]);
    }
}

/// One more file that is gone is one more line below the title that counts them, and one more name
/// that was read is one more line below its directory.
pub proof fn lemma_one_more_plain_line(paths: Seq<Seq<char>>, path: Seq<char>)
    ensures
        deleted_list(Seq::empty()) == Seq::<Piece>::empty(),
        deleted_list(paths.push(path)) == seq![
            plain("  "@),
            ("deleted"@, Style::BoldRed),
            plain(" ("@ + decimal(paths.len() + 1) + ")\n"@),
        ] + deleted_lines(paths, paths.len()) + seq![
            plain("    "@),
            ("-"@, Style::Red),
            plain(" "@ + path + "\n"@),
        ],
        name_lines(Seq::empty(), 0) == Seq::<Piece>::empty(),
        name_lines(paths.push(path), paths.len() + 1) == name_lines(paths, paths.len()).push(
            plain("    "@ + path + "\n"@),
        ),
{
    let n = paths.len();
    let all = paths.push(path);
    lemma_plain_lines_front(paths, path, n);
    assert(all[n as int] == path);
    assert(deleted_list(all) == change_title("deleted"@, Style::BoldRed, n + 1) + deleted_lines(
        all,
        n + 1,
    ));
    assert(deleted_list(all) =~= seq![
        plain("  "@),
        ("deleted"@, Style::BoldRed),
        plain(" ("@ + decimal(n + 1) + ")\n"@),
    ] + deleted_lines(paths, n) + seq![
        plain("    "@),
        ("-"@, Style::Red),
        plain(" "@ + path + "\n"@),
    ]);
}

proof fn lemma_plain_lines_front(paths: Seq<Seq<char>>, path: Seq<char>, n: nat)
    requires
        n <= paths.len(),
    ensures
        deleted_lines(paths.push(path), n) == deleted_lines(paths, n),
        name_lines(paths.push(path), n) == name_lines(paths, n),
    decreases n,
{
    if n > 0 {
        lemma_plain_lines_front(paths, path, (n - 1) as nat);
        assert(paths.push(path)[n - 1] == paths[n - 1]);
    }
}

/// One more directory in the list of files that were read is one more group of lines: the directory,
/// how many of its files were read, and their names.
pub proof fn lemma_one_more_group(
    list: Seq<(Seq<char>, Seq<Seq<char>>)>,
    dir: Seq<char>,
    names: Seq<Seq<char>>,
)
    ensures
        group_lines(Seq::empty(), 0) == Seq::<Piece>::empty(),
        group_lines(list.push((dir, names)), list.len() + 1) == group_lines(list, list.len()) + seq![
            plain("  "@),
            (dir, Style::Dimmed),
            plain(" ("@ + decimal(names.len()) + " files)\n"@),
        ] + name_lines(names, names.len()),
{
    lemma_group_lines_front(list, (dir, names), list.len());
    assert(list.push((dir, names))[list.len() as int] == (dir, names));
}

proof fn lemma_group_lines_front(
    list: Seq<(Seq<char>, Seq<Seq<char>>)>,
    group: (Seq<char>, Seq<Seq<char>>),
    n: nat,
)
    requires
        n <= list.len(),
    ensures
        group_lines(list.push(group), n) == group_lines(list, n),
    decreases n,
{
    if n > 0 {
        lemma_group_lines_front(list, group, (n - 1) as nat);
        assert(list.push(group)[n - 1] == list[n - 1]);
    }
}

/// What a session created is green, what it modified is yellow, what it deleted is red, and nothing is
/// said of changes where there were none.
pub proof fn lemma_colors_of_changes(
    summary: SessionSummary,
    created_sizes: Seq<Option<u64>>,
    modified_sizes: Seq<Option<u64>>,
)
    ensures
        ({
            let created = texts(summary.files_created@);
            let modified = texts(summary.files_modified@);
            let deleted = texts(summary.files_deleted@);
            let shown = changes_pieces(summary, created_sizes, modified_sizes);
            &&& created.len() + modified.len() + deleted.len() == 0 ==> shown == Seq::<Piece>::empty()
            &&& created.len() + modified.len() + deleted.len() > 0 ==> shown == seq![
                ("files changed"@, Style::Heading),
                plain("\n"@),
            ] + sized_list(
                "created"@,
                Style::BoldGreen,
                "+"@,
                Style::Green,
                created,
                created_sizes,
            ) + sized_list(
                "modified"@,
                Style::BoldYellow,
                "~"@,
                Style::Yellow,
                modified,
                modified_sizes,
            ) + deleted_list(deleted) + seq![plain("\n"@)]
        }),
{
}

/// The report begins with the command in bold, the workspace, how long the session ran and the exit
/// code in its colour, each behind a dimmed label. It ends with the sentence that sums the session up
/// and, where anything was written to disk, how much.
pub proof fn lemma_looks_of_heading_and_end(summary: SessionSummary)
    ensures
        heading_pieces(summary).len() == 24,
        heading_pieces(summary)[1] == ("━━━ postflight session report ━━━"@, Style::Bold),
        heading_pieces(summary)[4] == ("command:"@, Style::Dimmed),
        heading_pieces(summary)[6] == (summary.command@, Style::Bold),
        heading_pieces(summary)[9] == ("workspace:"@, Style::Dimmed),
        heading_pieces(summary)[11] == plain(summary.workspace@),
        heading_pieces(summary)[14] == ("duration:"@, Style::Dimmed),
        heading_pieces(summary)[16] == plain(duration_text(summary.duration@ / 1_000_000_000)),
        heading_pieces(summary)[19] == ("exit code:"@, Style::Dimmed),
        heading_pieces(summary)[21] == exit_code_piece(summary.exit_code),
        verdict_pieces(summary)[0].1 == Style::Bold,
        verdict_pieces(summary)[2] == plain(verdict_text(summary)),
        summary.total_bytes_written == 0 ==> verdict_pieces(summary).len() == 4,
        summary.total_bytes_written > 0 ==> verdict_pieces(summary).len() == 5
            && verdict_pieces(summary)[3] == plain(
            "  total disk writes: "@ + byte_size_text(summary.total_bytes_written) + "\n"@,
        ),
        verdict_pieces(summary).last() == plain("\n"@),
{
}

} // verus!
