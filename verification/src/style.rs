//! Styled text: the lines that cards, the status bar and the help are made of.

use vstd::prelude::*;
use vstd::string::*;

use crate::columns;

verus! {

/// A terminal color.
#[derive(Debug, Clone, Copy, PartialEq, Eq, Structural)]
pub enum Color {
    Red,
    Green,
    Yellow,
    Blue,
    Magenta,
    Cyan,
    LightRed,
    Rgb(u8, u8, u8),
    /// Behind a deleted row.
    RemovedBg,
    /// Behind an inserted row.
    AddedBg,
    /// Behind a changed word of a deleted row.
    RemovedEmphBg,
    /// Behind a changed word of an inserted row.
    AddedEmphBg,
    /// Line numbers, rules and separators.
    Gutter,
}

/// Red, green and blue of a color that is not left to the terminal. The
/// palette is for dark terminals, after delta's defaults.
pub open spec fn components(color: Color) -> Option<(u8, u8, u8)> {
    match color {
        Color::Rgb(r, g, b) => Some((r, g, b)),
        Color::RemovedBg => Some((0x3f, 0x00, 0x01)),
        Color::AddedBg => Some((0x00, 0x28, 0x00)),
        Color::RemovedEmphBg => Some((0x90, 0x10, 0x11)),
        Color::AddedEmphBg => Some((0x00, 0x60, 0x00)),
        Color::Gutter => Some((0x6c, 0x6c, 0x6c)),
        _ => None,
    }
}

impl Color {
    /// Red, green and blue of a color that is not left to the terminal.
    pub fn rgb(self) -> (r: Option<(u8, u8, u8)>)
        ensures
            r == components(self),
    {
        match self {
            Color::Rgb(r, g, b) => Some((r, g, b)),
            Color::RemovedBg => Some((0x3f, 0x00, 0x01)),
            Color::AddedBg => Some((0x00, 0x28, 0x00)),
            Color::RemovedEmphBg => Some((0x90, 0x10, 0x11)),
            Color::AddedEmphBg => Some((0x00, 0x60, 0x00)),
            Color::Gutter => Some((0x6c, 0x6c, 0x6c)),
            _ => None,
        }
    }
}

/// How a span is drawn. `None` leaves the terminal's own color.
#[derive(Debug, Clone, Copy, PartialEq, Eq, Structural)]
pub struct Style {
    pub fg: Option<Color>,
    pub bg: Option<Color>,
    pub bold: bool,
    pub dim: bool,
    pub italic: bool,
    pub reversed: bool,
}

/// The style of plain text.
pub open spec fn plain() -> Style {
    Style { fg: None, bg: None, bold: false, dim: false, italic: false, reversed: false }
}

impl Style {
    pub fn new() -> (r: Style)
        ensures
            r == plain(),
    {
        Style { fg: None, bg: None, bold: false, dim: false, italic: false, reversed: false }
    }

    pub fn fg(self, color: Color) -> (r: Style)
        ensures
            r == (Style { fg: Some(color), ..self }),
    {
        Style { fg: Some(color), ..self }
    }

    pub fn bg(self, color: Color) -> (r: Style)
        ensures
            r == (Style { bg: Some(color), ..self }),
    {
        Style { bg: Some(color), ..self }
    }

    pub fn bold(self) -> (r: Style)
        ensures
            r == (Style { bold: true, ..self }),
    {
        Style { bold: true, ..self }
    }

    pub fn dim(self) -> (r: Style)
        ensures
            r == (Style { dim: true, ..self }),
    {
        Style { dim: true, ..self }
    }

    pub fn italic(self) -> (r: Style)
        ensures
            r == (Style { italic: true, ..self }),
    {
        Style { italic: true, ..self }
    }

    pub fn reversed(self) -> (r: Style)
        ensures
            r == (Style { reversed: true, ..self }),
    {
        Style { reversed: true, ..self }
    }
}

/// A piece of text in one style.
#[derive(Debug, Clone, PartialEq, Eq)]
pub struct Span {
    pub content: String,
    pub style: Style,
}

impl View for Span {
    type V = (Seq<char>, Style);

    open spec fn view(&self) -> (Seq<char>, Style) {
        (self.content@, self.style)
    }
}

impl Span {
    pub fn styled(content: String, style: Style) -> (r: Span)
        ensures
            r@ == (content@, style),
    {
        Span { content, style }
    }

    pub fn raw(content: String) -> (r: Span)
        ensures
            r@ == (content@, plain()),
    {
        Span { content, style: Style::new() }
    }

    /// A copy of the span.
    pub fn copy(&self) -> (r: Span)
        ensures
            r@ == self@,
    {
        Span { content: self.content.clone(), style: self.style }
    }
}

/// The views of a list of spans.
pub open spec fn span_views(spans: Seq<Span>) -> Seq<(Seq<char>, Style)> {
    spans.map_values(|s: Span| s@)
}

/// One line of styled text.
#[derive(Debug, Clone, PartialEq, Eq)]
pub struct Line {
    pub spans: Vec<Span>,
}

impl View for Line {
    type V = Seq<(Seq<char>, Style)>;

    open spec fn view(&self) -> Seq<(Seq<char>, Style)> {
        span_views(self.spans@)
    }
}

/// The views of a list of lines.
pub open spec fn line_views(lines: Seq<Line>) -> Seq<Seq<(Seq<char>, Style)>> {
    lines.map_values(|l: Line| l@)
}

/// The text of a line.
pub open spec fn line_text(line: Seq<(Seq<char>, Style)>) -> Seq<char>
    decreases line.len(),
{
    if line.len() == 0 {
        Seq::empty()
    } else {
        line_text(line.drop_last()) + line.last().0
    }
}

/// The columns of a line: those of its spans, each by itself.
pub open spec fn line_cols(line: Seq<(Seq<char>, Style)>) -> nat
    decreases line.len(),
{
    if line.len() == 0 {
        0
    } else {
        line_cols(line.drop_last()) + columns::cols(line.last().0)
    }
}

/// The columns of two lines, one after the other, add up.
pub proof fn lemma_line_cols_join(a: Seq<(Seq<char>, Style)>, b: Seq<(Seq<char>, Style)>)
    ensures
        line_cols(a + b) == line_cols(a) + line_cols(b),
    decreases b.len(),
{
    if b.len() == 0 {
        assert(a + b =~= a);
    } else {
        assert((a + b).drop_last() =~= a + b.drop_last());
        lemma_line_cols_join(a, b.drop_last());
    }
}

impl Line {
    /// A line of one span.
    pub fn of(span: Span) -> (r: Line)
        ensures
            r@ == seq![span@],
    {
        let mut spans: Vec<Span> = Vec::new();
        spans.push(span);
        Line { spans }
    }

    /// The text of the line.
    pub fn text(&self) -> (r: String)
        ensures
            r@ == line_text(self@),
    {
        let spans = &self.spans;
        let mut s = String::new();
        let mut i: usize = 0;
        while i < spans.len()
            invariant
                i <= spans@.len(),
                s@ == line_text(span_views(spans@).take(i as int)),
            decreases spans@.len() - i,
        {
            assert(span_views(spans@).take(i + 1).drop_last() =~= span_views(spans@).take(
                i as int,
            ));
            s.append(spans[i].content.as_str());
            i += 1;
        }
        assert(span_views(spans@).take(i as int) =~= span_views(spans@));
        s
    }

    /// The columns of the line, as far as they can be counted.
    pub fn width(&self) -> (n: usize)
        ensures
            n == if line_cols(self@) <= usize::MAX {
                line_cols(self@)
            } else {
                usize::MAX as nat
            },
    {
        let spans = &self.spans;
        let mut n: usize = 0;
        let mut i: usize = 0;
        while i < spans.len()
            invariant
                i <= spans@.len(),
                n == if line_cols(span_views(spans@).take(i as int)) <= usize::MAX {
                    line_cols(span_views(spans@).take(i as int))
                } else {
                    usize::MAX as nat
                },
            decreases spans@.len() - i,
        {
            assert(span_views(spans@).take(i + 1).drop_last() =~= span_views(spans@).take(
                i as int,
            ));
            n = n.saturating_add(columns::width(spans[i].content.as_str()));
            i += 1;
        }
        assert(span_views(spans@).take(i as int) =~= span_views(spans@));
        n
    }

    /// A copy of the line.
    pub fn copy(&self) -> (r: Line)
        ensures
            r@ == self@,
    {
        let mut spans: Vec<Span> = Vec::new();
        let mut i: usize = 0;
        while i < self.spans.len()
            invariant
                i <= self.spans@.len(),
                span_views(spans@) == span_views(self.spans@).take(i as int),
            decreases self.spans@.len() - i,
        {
            let ghost before = span_views(spans@);
            let span = self.spans[i].copy();
            let ghost v = span@;
            spans.push(span);
            assert(span_views(spans@) =~= before.push(v));
            assert(span_views(self.spans@).take(i + 1) =~= before.push(v));
            i += 1;
        }
        Line { spans }
    }
}

/// The text of two lines, one after the other, is that of both.
pub proof fn lemma_line_text_join(a: Seq<(Seq<char>, Style)>, b: Seq<(Seq<char>, Style)>)
    ensures
        line_text(a + b) == line_text(a) + line_text(b),
    decreases b.len(),
{
    if b.len() == 0 {
        assert(a + b =~= a);
        assert(line_text(a) + line_text(b) =~= line_text(a));
    } else {
        assert((a + b).drop_last() =~= a + b.drop_last());
        lemma_line_text_join(a, b.drop_last());
        assert(line_text(a + b) =~= line_text(a) + line_text(b));
    }
}

/// The text of a line of one span is that of the span.
pub proof fn lemma_one_span_text(s: Seq<char>, look: Style)
    ensures
        line_text(seq![(s, look)]) == s,
{
    let one = seq![(s, look)];
    assert(one.drop_last() =~= Seq::empty());
    assert(line_text(one.drop_last()) =~= Seq::empty());
    assert(line_text(one) =~= s);
}

/// The tints are dark: red for what goes, green for what comes, stronger where
/// words differ. A color given by its parts is drawn as it is, and the named
/// ones are the terminal's own.
pub proof fn law_tints_are_for_dark_terminals(r: u8, g: u8, b: u8)
    ensures
        components(Color::Rgb(r, g, b)) == Some((r, g, b)),
        components(Color::RemovedBg) == Some((63u8, 0u8, 1u8)),
        components(Color::RemovedEmphBg) == Some((144u8, 16u8, 17u8)),
        components(Color::AddedBg) == Some((0u8, 40u8, 0u8)),
        components(Color::AddedEmphBg) == Some((0u8, 96u8, 0u8)),
        components(Color::Gutter) == Some((108u8, 108u8, 108u8)),
        components(Color::Red) is None,
        components(Color::Green) is None,
        components(Color::Yellow) is None,
        components(Color::Cyan) is None,
{
}

} // verus!
