use colored::Colorize;
use postflight::style::{paint, paint_all, Span, Style};

const STYLES: [(Style, &str); 10] = [
    (Style::Bold, "1"),
    (Style::Dimmed, "2"),
    (Style::Heading, "1;4"),
    (Style::Green, "32"),
    (Style::Yellow, "33"),
    (Style::Red, "31"),
    (Style::Cyan, "36"),
    (Style::BoldGreen, "1;32"),
    (Style::BoldYellow, "1;33"),
    (Style::BoldRed, "1;31"),
];

#[test]
fn looks_have_their_codes() {
    colored::control::set_override(true);
    for (style, codes) in STYLES {
        assert_eq!(paint("text", style), format!("\u{1b}[{codes}mtext\u{1b}[0m"));
    }
    assert_eq!(paint("text", Style::Plain), "text");
}

#[test]
fn looks_are_those_of_the_outside_crate() {
    colored::control::set_override(true);
    assert_eq!(paint("t", Style::Green), "t".green().to_string());
    assert_eq!(paint("t", Style::Yellow), "t".yellow().to_string());
    assert_eq!(paint("t", Style::Red), "t".red().to_string());
    assert_eq!(paint("t", Style::Cyan), "t".cyan().to_string());
    assert_eq!(paint("t", Style::BoldGreen), "t".green().bold().to_string());
    assert_eq!(paint("t", Style::BoldYellow), "t".yellow().bold().to_string());
    assert_eq!(paint("t", Style::BoldRed), "t".red().bold().to_string());
    assert_eq!(paint("t", Style::Heading), "t".bold().underline().to_string());
}

#[test]
fn a_look_is_resumed_behind_a_reset() {
    colored::control::set_override(true);
    assert_eq!(
        paint("a\u{1b}[0mb", Style::Bold),
        "\u{1b}[1ma\u{1b}[0m\u{1b}[1mb\u{1b}[0m"
    );
}

#[test]
fn without_colours_the_text_is_bare() {
    colored::control::set_override(false);
    for (style, _) in STYLES {
        assert_eq!(paint("text", style), "text");
    }
}

#[test]
fn a_row_of_pieces_is_painted_in_order() {
    colored::control::set_override(true);
    let row = vec![
        Span { text: "a ".to_string(), style: Style::Plain },
        Span { text: "b".to_string(), style: Style::Green },
        Span { text: "".to_string(), style: Style::Dimmed },
    ];
    assert_eq!(paint_all(&row), "a \u{1b}[32mb\u{1b}[0m\u{1b}[2m\u{1b}[0m");
}
