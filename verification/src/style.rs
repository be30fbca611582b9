//! Styled text: runs of characters with a look, and their painting with
//! terminal escape codes.

use crossterm::style::Stylize;
use vstd::prelude::*;
use vstd::string::StringExecFns;
use crate::colors::Color;
use crate::text::views;

verus! {

/// A light or a dark terminal background.
#[derive(Clone, Copy, Debug, PartialEq, Eq, Structural)]
pub enum Theme {
    Light,
    Dark,
}

/// Whether text is to be styled for a dark background: always, unless the
/// background is known to be light.
pub open spec fn on_dark(theme: Option<Theme>) -> bool {
    theme != Some(Theme::Light)
}

/// Tells whether to style for a dark background.
pub fn is_dark(theme: &Option<Theme>) -> (dark: bool)
    ensures
        dark == on_dark(*theme),
{
    match theme {
        Some(Theme::Light) => false,
        _ => true,
    }
}

/// The look of a run of text.
#[derive(Clone, Copy, Debug, PartialEq, Eq, Structural)]
pub enum Style {
    /// As the terminal shows text by itself.
    Plain,
    /// In the given foreground color.
    Foreground(Color),
    /// Bold and white on the given background color.
    Badge(Color),
}

/// A piece of text with one look.
#[derive(Clone, Debug, PartialEq, Eq)]
pub struct Span {
    pub text: String,
    pub style: Style,
}

/// What a `Span` stands for: its characters and its look.
pub struct Run {
    pub text: Seq<char>,
    pub style: Style,
}

impl View for Span {
    type V = Run;

    open spec fn view(&self) -> Run {
        Run { text: self.text@, style: self.style }
    }
}

impl Span {
    /// A span of `text` with the look `style`.
    pub fn new(text: &str, style: Style) -> (span: Span)
        ensures
            span@ == (Run { text: text@, style }),
    {
        Span { text: text.to_owned(), style }
    }
}

/// The runs that a sequence of spans stands for.
pub open spec fn runs(spans: Seq<Span>) -> Seq<Run> {
    Seq::new(spans.len(), |i: int| spans[i]@)
}

/// A run of plain text.
pub open spec fn plain(text: Seq<char>) -> Run {
    Run { text, style: Style::Plain }
}

/// A run in a foreground color.
pub open spec fn tinted(color: Color, text: Seq<char>) -> Run {
    Run { text, style: Style::Foreground(color) }
}

/// The pieces of a text, one after the other.
pub open spec fn concat(pieces: Seq<Seq<char>>) -> Seq<char>
    decreases pieces.len(),
{
    if pieces.len() == 0 {
        Seq::empty()
    } else {
        concat(pieces.drop_last()) + pieces.last()
    }
}

/// Whether `out` is `text` in a frame of codes: some codes that open, the
/// text as it is, and what closes. It may also be empty, as it is on a
/// console that takes no codes.
pub open spec fn is_framed(text: Seq<char>, out: Seq<char>) -> bool {
    out.len() == 0 || exists|open: Seq<char>, close: Seq<char>|
        open.len() > 0 && out == open + text + close
}

/// Whether `out` may be the painted form of `run`. A plain run is painted as
/// its own text. A styled run is painted as its text in a frame of codes;
/// which codes they are is up to the terminal library, which looks at its
/// surroundings.
pub open spec fn paints(run: Run, out: Seq<char>) -> bool {
    if run.style is Plain {
        out == run.text
    } else {
        is_framed(run.text, out)
    }
}

/// Whether `out` may be the painted form of a line of runs: the painted
/// runs, one after the other.
pub open spec fn is_painting(line: Seq<Run>, out: Seq<char>) -> bool {
    exists|pieces: Seq<Seq<char>>|
        {
            &&& pieces.len() == line.len()
            &&& forall|i: int| 0 <= i < line.len() ==> paints(line[i], #[trigger] pieces[i])
            &&& out == concat(pieces)
        }
}

/// `text` in the given colors, by `ContentStyle::apply` of `crossterm` and
/// the `Display` of the styled text. With a color, the codes that set the
/// colors are written, then the text, then the codes that reset them; where
/// colors are switched off the codes hold no color but are written still. A
/// console that takes no codes gets nothing at all. Which codes are written
/// depends on the process's surroundings, so they are not stated.
#[verifier::external_body]
fn paint_colors(text: &str, foreground: Option<Color>, background: Option<Color>) -> (out: String)
    ensures
        foreground is Some || background is Some ==> is_framed(text@, out@),
{
    let term = |color: Color| match color {
        Color::Rgb { r, g, b } => crossterm::style::Color::Rgb { r, g, b },
        Color::White => crossterm::style::Color::White,
        Color::DarkGrey => crossterm::style::Color::DarkGrey,
        Color::Yellow => crossterm::style::Color::Yellow,
        Color::Green => crossterm::style::Color::Green,
        Color::Cyan => crossterm::style::Color::Cyan,
    };
    let mut look = crossterm::style::ContentStyle::new();
    look.foreground_color = foreground.map(term);
    look.background_color = background.map(term);
    look.apply(text).to_string()
}

/// `text` bold and in the given colors, by `ContentStyle::apply` and
/// `Stylize::bold` of `crossterm` and the `Display` of the styled text. With
/// a color, the codes that set the colors and the weight are written, then
/// the text, then the code that resets them; a console that takes no codes
/// gets nothing at all. Which codes are written depends on the process's
/// surroundings, so they are not stated.
#[verifier::external_body]
fn paint_bold(text: &str, foreground: Option<Color>, background: Option<Color>) -> (out: String)
    ensures
        foreground is Some || background is Some ==> is_framed(text@, out@),
{
    let term = |color: Color| match color {
        Color::Rgb { r, g, b } => crossterm::style::Color::Rgb { r, g, b },
        Color::White => crossterm::style::Color::White,
        Color::DarkGrey => crossterm::style::Color::DarkGrey,
        Color::Yellow => crossterm::style::Color::Yellow,
        Color::Green => crossterm::style::Color::Green,
        Color::Cyan => crossterm::style::Color::Cyan,
    };
    let mut look = crossterm::style::ContentStyle::new();
    look.foreground_color = foreground.map(term);
    look.background_color = background.map(term);
    look.apply(text).bold().to_string()
}

/// What a look asks of the terminal: the foreground color, the background
/// color, and whether the text is bold. Plain text asks for nothing; a badge
/// is bold and white on its color.
pub open spec fn look(style: Style) -> (Option<Color>, Option<Color>, bool) {
    match style {
        Style::Plain => (None, None, false),
        Style::Foreground(color) => (Some(color), None, false),
        Style::Badge(color) => (Some(Color::White), Some(color), true),
    }
}

/// Tells what a look asks of the terminal.
pub fn look_of(style: Style) -> (asked: (Option<Color>, Option<Color>, bool))
    ensures
        asked == look(style),
{
    match style {
        Style::Plain => (None, None, false),
        Style::Foreground(color) => (Some(color), None, false),
        Style::Badge(color) => (Some(Color::White), Some(color), true),
    }
}

/// Paints one span: plain text stays as it is, any other look is handed to
/// the terminal library as `look_of` tells.
pub fn paint_span(span: &Span) -> (out: String)
    ensures
        paints(span@, out@),
{
    let (foreground, background, bold) = look_of(span.style);
    if foreground.is_none() && background.is_none() && !bold {
        span.text.clone()
    } else if bold {
        paint_bold(span.text.as_str(), foreground, background)
    } else {
        paint_colors(span.text.as_str(), foreground, background)
    }
}

/// Puts painted pieces together, in order.
pub fn join_pieces(pieces: &Vec<String>) -> (out: String)
    ensures
        out@ == concat(views(pieces@)),
{
    let mut out = String::new();
    let mut i: usize = 0;
    assert(views(pieces@).take(0) =~= Seq::empty());
    while i < pieces.len()
        invariant
            i <= pieces.len(),
            out@ == concat(views(pieces@).take(i as int)),
        decreases pieces.len() - i,
    {
        proof {
            let done = views(pieces@).take(i + 1);
            assert(done.drop_last() =~= views(pieces@).take(i as int));
            assert(done.last() == pieces@[i as int]@);
        }
        out.append(pieces[i].as_str());
        i += 1;
    }
    assert(views(pieces@).take(i as int) =~= views(pieces@));
    out
}

/// Paints a line: each span in turn, put together.
pub fn paint_line(spans: &Vec<Span>) -> (out: String)
    ensures
        is_painting(runs(spans@), out@),
{
    let mut pieces: Vec<String> = Vec::new();
    let mut i: usize = 0;
    while i < spans.len()
        invariant
            i <= spans.len(),
            pieces.len() == i,
            forall|k: int| 0 <= k < i ==> paints(spans@[k]@, #[trigger] pieces@[k]@),
        decreases spans.len() - i,
    {
        let piece = paint_span(&spans[i]);
        pieces.push(piece);
        i += 1;
    }
    let out = join_pieces(&pieces);
    proof {
        let texts = views(pieces@);
        assert(texts.len() == runs(spans@).len());
        assert forall|k: int| 0 <= k < runs(spans@).len() implies paints(
            runs(spans@)[k],
            #[trigger] texts[k],
        ) by {
            assert(paints(spans@[k]@, pieces@[k]@));
        }
    }
    out
}

} // verus!
