use crossterm::style::{Colored, Stylize};
use git_log_pretty::colors::Color;
use git_log_pretty::style::{
    is_dark, join_pieces, look_of, paint_line, paint_span, Span, Style, Theme,
};

fn term(color: Color) -> crossterm::style::Color {
    match color {
        Color::Rgb { r, g, b } => crossterm::style::Color::Rgb { r, g, b },
        Color::White => crossterm::style::Color::White,
        Color::DarkGrey => crossterm::style::Color::DarkGrey,
        Color::Yellow => crossterm::style::Color::Yellow,
        Color::Green => crossterm::style::Color::Green,
        Color::Cyan => crossterm::style::Color::Cyan,
    }
}

#[test]
fn dark_is_the_default_background() {
    assert!(is_dark(&None));
    assert!(is_dark(&Some(Theme::Dark)));
    assert!(!is_dark(&Some(Theme::Light)));
}

#[test]
fn a_span_holds_its_text_and_look() {
    let span = Span::new("text", Style::Foreground(Color::Cyan));
    assert_eq!(span.text, "text");
    assert_eq!(span.style, Style::Foreground(Color::Cyan));
}

#[test]
fn plain_text_is_painted_as_itself() {
    assert_eq!(paint_span(&Span::new("as it is", Style::Plain)), "as it is");
    assert_eq!(paint_span(&Span::new("", Style::Plain)), "");
}

#[test]
fn a_foreground_color_is_painted_with_escape_codes() {
    Colored::set_ansi_color_disabled(false);
    let painted = paint_span(&Span::new("name", Style::Foreground(Color::DarkGrey)));
    assert_eq!(painted, "\u{1b}[38;5;8mname\u{1b}[39m");
    assert_ne!(painted, "name");
}

#[test]
fn each_color_is_painted_as_the_terminal_library_paints_it() {
    Colored::set_ansi_color_disabled(false);
    let colors = [
        Color::Rgb { r: 1, g: 20, b: 255 },
        Color::White,
        Color::DarkGrey,
        Color::Yellow,
        Color::Green,
        Color::Cyan,
    ];
    for color in colors {
        assert_eq!(
            paint_span(&Span::new("x", Style::Foreground(color))),
            "x".with(term(color)).to_string()
        );
        assert_eq!(
            paint_span(&Span::new("x", Style::Badge(color))),
            "x".on(term(color)).with(crossterm::style::Color::White).bold().to_string()
        );
    }
}

#[test]
fn a_badge_is_bold_white_on_its_background() {
    Colored::set_ansi_color_disabled(false);
    let painted = paint_span(&Span::new("feat", Style::Badge(Color::Rgb { r: 1, g: 2, b: 3 })));
    assert_eq!(painted, "\u{1b}[48;2;1;2;3m\u{1b}[38;5;15m\u{1b}[1mfeat\u{1b}[0m");
}

#[test]
fn pieces_are_joined_in_order() {
    let pieces = vec!["a".to_string(), "".to_string(), "bc".to_string()];
    assert_eq!(join_pieces(&pieces), "abc");
    assert_eq!(join_pieces(&Vec::new()), "");
}

#[test]
fn a_line_is_its_painted_spans_one_after_the_other() {
    Colored::set_ansi_color_disabled(false);
    let line = vec![
        Span::new("  ", Style::Plain),
        Span::new("id", Style::Foreground(Color::Yellow)),
        Span::new(" tail", Style::Plain),
    ];
    assert_eq!(paint_line(&line), "  \u{1b}[38;5;11mid\u{1b}[39m tail");
    assert_eq!(paint_line(&Vec::new()), "");
}

#[test]
fn plain_text_asks_nothing_of_the_terminal() {
    assert_eq!(look_of(Style::Plain), (None, None, false));
}

#[test]
fn a_foreground_asks_for_its_color_only() {
    assert_eq!(look_of(Style::Foreground(Color::Green)), (Some(Color::Green), None, false));
}

#[test]
fn a_badge_asks_for_bold_white_on_its_color() {
    let ground = Color::Rgb { r: 9, g: 8, b: 7 };
    assert_eq!(look_of(Style::Badge(ground)), (Some(Color::White), Some(ground), true));
}

#[test]
fn a_styled_span_is_its_text_in_a_frame_of_codes() {
    Colored::set_ansi_color_disabled(false);
    for style in [Style::Foreground(Color::Cyan), Style::Badge(Color::Yellow)] {
        let painted = paint_span(&Span::new("text", style));
        let at = painted.find("text").unwrap();
        assert!(at > 0);
        assert!(painted.starts_with('\u{1b}'));
    }
}
