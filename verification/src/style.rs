//! Text with colours and weights, for terminals that show them.

use vstd::prelude::*;

use colored::Colorize;

use crate::text::{concat, has_suffix};

verus! {

/// How a piece of text looks.
#[derive(Debug, Clone, Copy, PartialEq, Eq, Structural)]
pub enum Style {
    Plain,
    Bold,
    Dimmed,
    Heading,
    Green,
    Yellow,
    Red,
    Cyan,
    BoldGreen,
    BoldYellow,
    BoldRed,
}

/// A piece of text that looks one way.
#[derive(Debug)]
pub struct Span {
    pub text: String,
    pub style: Style,
}

/// A piece of text that looks one way.
pub type Piece = (Seq<char>, Style);

impl View for Span {
    type V = Piece;

    open spec fn view(&self) -> Piece {
        (self.text@, self.style)
    }
}

/// The pieces of text that a list of spans holds.
pub open spec fn spans(list: Seq<Span>) -> Seq<Piece> {
    list.map_values(|s: Span| s@)
}

/// The sequence that puts a terminal back to plain text.
pub open spec fn reset() -> Seq<char> {
    seq!['\u{1b}', '[', '0', 'm']
}

/// The sequence that switches a terminal to the look with these codes.
pub open spec fn switch(codes: Seq<char>) -> Seq<char> {
    seq!['\u{1b}', '['] + codes + seq!['m']
}

/// `text` with `look` put behind every reset in it.
pub open spec fn resumed(text: Seq<char>, look: Seq<char>) -> Seq<char>
    decreases text.len(),
{
    if text.len() == 0 {
        text
    } else {
        let before = resumed(text.drop_last(), look).push(text.last());
        if has_suffix(text, reset()) {
            before + look
        } else {
            before
        }
    }
}

/// `text` in the look with these codes: switched on before it and behind every reset in it, and off
/// behind it.
pub open spec fn painted(text: Seq<char>, codes: Seq<char>) -> Seq<char> {
    switch(codes) + resumed(text, switch(codes)) + reset()
}

/// The code of a colour.
pub open spec fn color_code(color: Seq<char>) -> Seq<char> {
    if color == "red"@ {
        "31"@
    } else if color == "green"@ {
        "32"@
    } else if color == "yellow"@ {
        "33"@
    } else {
        "36"@
    }
}

/// Whether this is one of the colours in use.
pub open spec fn is_color(color: Seq<char>) -> bool {
    color == "red"@ || color == "green"@ || color == "yellow"@ || color == "cyan"@
}

/// The codes of a look.
pub open spec fn codes(style: Style) -> Seq<char> {
    match style {
        Style::Plain => Seq::empty(),
        Style::Bold => "1"@,
        Style::Dimmed => "2"@,
        Style::Heading => "1;4"@,
        Style::Green => color_code("green"@),
        Style::Yellow => color_code("yellow"@),
        Style::Red => color_code("red"@),
        Style::Cyan => color_code("cyan"@),
        Style::BoldGreen => "1;"@ + color_code("green"@),
        Style::BoldYellow => "1;"@ + color_code("yellow"@),
        Style::BoldRed => "1;"@ + color_code("red"@),
    }
}

/// Whether `out` is a piece of text as a terminal gets it: the bare text, or the text in its look.
/// Which of the two it is, is up to the environment.
pub open spec fn shows(out: Seq<char>, piece: Piece) -> bool {
    out == piece.0 || (piece.1 != Style::Plain && out == painted(piece.0, codes(piece.1)))
}

/// Text in bold.
///
/// Calls `colored::Colorize::bold` and the `Display` of the `ColoredString` that it returns. That
/// gives the bare text where the environment, or a switch of the program, asks for no colours, and
/// otherwise the text between the codes of the look; which of the two is not said. The switch is
/// taken to stay as it is during the call; nothing in this library turns it.
#[verifier::external_body]
fn bold(text: &str) -> (r: String)
    ensures
        r@ == text@ || r@ == painted(text@, "1"@),
{
    text.bold().to_string()
}

/// Text in a faint look.
///
/// Calls `colored::Colorize::dimmed` and the `Display` of the `ColoredString` that it returns, which
/// gives the bare text or the text between the codes of the look.
#[verifier::external_body]
fn dimmed(text: &str) -> (r: String)
    ensures
        r@ == text@ || r@ == painted(text@, "2"@),
{
    text.dimmed().to_string()
}

/// Text in bold with a line below.
///
/// Calls `colored::Colorize::bold`, `colored::Colorize::underline` and the `Display` of the
/// `ColoredString` that they return, which gives the bare text or the text between the codes of the
/// look.
#[verifier::external_body]
fn heading(text: &str) -> (r: String)
    ensures
        r@ == text@ || r@ == painted(text@, "1;4"@),
{
    text.bold().underline().to_string()
}

/// Text in a colour.
///
/// Calls `colored::Colorize::color` with the name of the colour, and the `Display` of the
/// `ColoredString` that it returns, which gives the bare text or the text between the codes of the
/// colour.
#[verifier::external_body]
fn colored(text: &str, color: &str) -> (r: String)
    requires
        is_color(color@),
    ensures
        r@ == text@ || r@ == painted(text@, color_code(color@)),
{
    text.color(color).to_string()
}

/// Text in a colour and in bold.
///
/// Calls `colored::Colorize::color` with the name of the colour, `colored::Colorize::bold`, and the
/// `Display` of the `ColoredString` that they return, which gives the bare text or the text between
/// the codes of the look.
#[verifier::external_body]
fn bold_colored(text: &str, color: &str) -> (r: String)
    requires
        is_color(color@),
    ensures
        r@ == text@ || r@ == painted(text@, "1;"@ + color_code(color@)),
{
    text.color(color).bold().to_string()
}

/// A piece of text as a terminal gets it.
pub fn paint(text: &str, style: Style) -> (r: String)
    ensures
        shows(r@, (text@, style)),
{
    match style {
        Style::Plain => text.to_owned(),
        Style::Bold => bold(text),
        Style::Dimmed => dimmed(text),
        Style::Heading => heading(text),
        Style::Green => colored(text, "green"),
        Style::Yellow => colored(text, "yellow"),
        Style::Red => colored(text, "red"),
        Style::Cyan => colored(text, "cyan"),
        Style::BoldGreen => bold_colored(text, "green"),
        Style::BoldYellow => bold_colored(text, "yellow"),
        Style::BoldRed => bold_colored(text, "red"),
    }
}

/// Whether `parts` are pieces of text, each as a terminal gets it.
pub open spec fn parts_show(parts: Seq<Seq<char>>, pieces: Seq<Piece>) -> bool {
    &&& parts.len() == pieces.len()
    &&& forall|i: int| 0 <= i < parts.len() ==> shows(#[trigger] parts[i], pieces[i])
}

/// Whether `out` is a row of pieces of text as a terminal gets them.
pub open spec fn renders(out: Seq<char>, pieces: Seq<Piece>) -> bool {
    exists|parts: Seq<Seq<char>>| #[trigger] parts_show(parts, pieces) && out == concat(parts)
}

/// A row of pieces of text as a terminal gets them.
pub fn paint_all(list: &Vec<Span>) -> (r: String)
    ensures
        renders(r@, spans(list@)),
{
    let mut out = String::new();
    let ghost mut parts: Seq<Seq<char>> = Seq::empty();
    let mut i: usize = 0;
    while i < list.len()
        invariant
            i <= list@.len(),
            parts_show(parts, spans(list@).take(i as int)),
            out@ == concat(parts),
        decreases list@.len() - i,
    {
        let part = paint(list[i].text.as_str(), list[i].style);
        let ghost before = parts;
        out.append(part.as_str());
        proof {
            parts = before.push(part@);
            assert(parts.drop_last() =~= before);
            assert forall|j: int| 0 <= j < parts.len() implies shows(
                #[trigger] parts[j],
                spans(list@).take(i + 1)[j],
            ) by {
                if j < before.len() {
                    assert(parts[j] == before[j]);
                    assert(spans(list@).take(i + 1)[j] == spans(list@).take(i as int)[j]);
                } else {
                    assert(spans(list@).take(i + 1)[j] == list@[i as int]@);
                }
            }
        }
        i += 1;
    }
    assert(spans(list@).take(i as int) =~= spans(list@));
    out
}

/// The texts of some pieces, one after the other.
pub open spec fn bare(pieces: Seq<Piece>) -> Seq<char> {
    concat(pieces.map_values(|p: Piece| p.0))
}

/// The bare text of the pieces is one way in which a terminal may get them.
pub proof fn lemma_bare_renders(pieces: Seq<Piece>)
    ensures
        renders(bare(pieces), pieces),
{
    let parts = pieces.map_values(|p: Piece| p.0);
    assert(parts_show(parts, pieces));
}

/// Adds a piece of text at the end of a row.
pub fn add_span(list: &mut Vec<Span>, text: &str, style: Style)
    ensures
        spans(final(list)@) == spans(old(list)@).push((text@, style)),
{
    let ghost before = spans(list@);
    list.push(Span { text: text.to_owned(), style });
    assert(spans(list@) =~= before.push((text@, style)));
}

/// The numbers by which a terminal knows the looks.
pub proof fn lemma_codes_of_looks()
    ensures
        codes(Style::Plain) == Seq::<char>::empty(),
        codes(Style::Bold) == seq!['1'],
        codes(Style::Dimmed) == seq!['2'],
        codes(Style::Heading) == seq!['1', ';', '4'],
        codes(Style::Red) == seq!['3', '1'],
        codes(Style::Green) == seq!['3', '2'],
        codes(Style::Yellow) == seq!['3', '3'],
        codes(Style::Cyan) == seq!['3', '6'],
        codes(Style::BoldRed) == seq!['1', ';', '3', '1'],
        codes(Style::BoldGreen) == seq!['1', ';', '3', '2'],
        codes(Style::BoldYellow) == seq!['1', ';', '3', '3'],
{
    reveal_strlit("1");
    reveal_strlit("2");
    reveal_strlit("1;4");
    reveal_strlit("1;");
    reveal_strlit("31");
    reveal_strlit("32");
    reveal_strlit("33");
    reveal_strlit("36");
    reveal_strlit("red");
    reveal_strlit("green");
    reveal_strlit("yellow");
    reveal_strlit("cyan");
    assert("red"@.len() == 3);
    assert("green"@.len() == 5);
    assert("yellow"@.len() == 6);
    assert("cyan"@.len() == 4);
    assert(codes(Style::Bold) =~= seq!['1']);
    assert(codes(Style::Dimmed) =~= seq!['2']);
    assert(codes(Style::Heading) =~= seq!['1', ';', '4']);
    assert(codes(Style::Red) =~= seq!['3', '1']);
    assert(codes(Style::Green) =~= seq!['3', '2']);
    assert(codes(Style::Yellow) =~= seq!['3', '3']);
    assert(codes(Style::Cyan) =~= seq!['3', '6']);
    assert(codes(Style::BoldRed) =~= seq!['1', ';', '3', '1']);
    assert(codes(Style::BoldGreen) =~= seq!['1', ';', '3', '2']);
    assert(codes(Style::BoldYellow) =~= seq!['1', ';', '3', '3']);
}

/// A look is switched on before a text and off behind it; within, it is switched on again behind every
/// reset, and nothing else is added.
pub proof fn lemma_painted_text(text: Seq<char>, c: char, codes: Seq<char>, look: Seq<char>)
    ensures
        !text.contains('\u{1b}') ==> painted(text, codes) == seq!['\u{1b}', '['] + codes + seq!['m']
            + text + seq!['\u{1b}', '[', '0', 'm'],
        resumed(Seq::empty(), look) == Seq::<char>::empty(),
        c != 'm' ==> resumed(text.push(c), look) == resumed(text, look).push(c),
        resumed(text + seq!['\u{1b}', '[', '0', 'm'], look) == resumed(text, look) + seq![
            '\u{1b}',
            '[',
            '0',
            'm',
        ] + look,
{
    if !text.contains('\u{1b}') {
        lemma_nothing_resumed(text, switch(codes));
        assert(painted(text, codes) =~= seq!['\u{1b}', '['] + codes + seq!['m'] + text + seq![
            '\u{1b}',
            '[',
            '0',
            'm',
        ]);
    }
    lemma_no_reset(text, c, look);
    let a = text.push('\u{1b}');
    let b = a.push('[');
    let d = b.push('0');
    lemma_no_reset(text, '\u{1b}', look);
    lemma_no_reset(a, '[', look);
    lemma_no_reset(b, '0', look);
    let whole = text + reset();
    assert(whole =~= d.push('m'));
    assert(whole.drop_last() =~= d);
    assert(whole.skip(whole.len() - 4) =~= reset());
    assert(has_suffix(whole, reset()));
    assert(resumed(whole, look) =~= resumed(text, look) + reset() + look);
}

proof fn lemma_no_reset(text: Seq<char>, c: char, look: Seq<char>)
    ensures
        c != 'm' ==> resumed(text.push(c), look) == resumed(text, look).push(c),
{
    let longer = text.push(c);
    assert(longer.drop_last() =~= text);
    if c != 'm' && has_suffix(longer, reset()) {
        assert(longer[longer.len() - 1] == reset()[3]);
    }
}

proof fn lemma_nothing_resumed(text: Seq<char>, look: Seq<char>)
    requires
        !text.contains('\u{1b}'),
    ensures
        resumed(text, look) == text,
    decreases text.len(),
{
    if text.len() > 0 {
        let front = text.drop_last();
        assert forall|k: int| 0 <= k < front.len() implies front[k] != '\u{1b}' by {
            assert(text.contains(text[k]));
        }
        lemma_nothing_resumed(front, look);
        if has_suffix(text, reset()) {
            assert(text.contains(text[text.len() - 4]));
        }
        assert(front.push(text.last()) =~= text);
    }
}

/// A row of spans holds each with its text and its look, and the bare text of a row is the texts of
/// its pieces one behind the other.
pub proof fn lemma_what_a_row_holds(list: Seq<Span>, span: Span, pieces: Seq<Piece>, piece: Piece)
    ensures
        spans(list.push(span)) == spans(list).push((span.text@, span.style)),
        spans(list).len() == list.len(),
        bare(Seq::empty()) == Seq::<char>::empty(),
        bare(pieces.push(piece)) == bare(pieces) + piece.0,
{
    assert(spans(list.push(span)) =~= spans(list).push((span.text@, span.style)));
    let read = |p: Piece| p.0;
    assert(Seq::<Piece>::empty().map_values(read) =~= Seq::<Seq<char>>::empty());
    assert(pieces.push(piece).map_values(read) =~= pieces.map_values(read).push(piece.0));
    assert(pieces.map_values(read).push(piece.0).drop_last() =~= pieces.map_values(read));
}

} // verus!
