//! Turn a `CardInput` into styled terminal lines.
//!
//! Rendering has two stages. `paint` runs once per card: it merges syntax
//! colors from syntect with the word-level marks from the diff. `layout` runs
//! whenever the width, view mode, or wrap setting changes and only arranges
//! painted rows into lines.

use syntect::easy::HighlightLines;
use syntect::highlighting::Theme;
use syntect::parsing::{SyntaxReference, SyntaxSet};
use vstd::prelude::*;
use vstd::string::*;

use crate::columns;
use crate::diff;
use crate::diff::{DiffKind, DiffResult, Hunk, Row, RowKind, MAX_LINES};
use crate::linediff;
use crate::paths;
use crate::session::CardInput;
use crate::style;
use crate::style::{Color, Line, Span, Style};
use crate::syntax;
use crate::syntax::{History, Ink, Painter, Rgba};
use crate::text;

verus! {

/// How a card lays out its diff.
#[derive(Debug, Clone, Copy, PartialEq, Eq, Structural)]
pub enum ViewMode {
    /// Old and new text in two columns.
    SideBySide,
    /// One column of `-`/`+` lines.
    Unified,
}

impl Default for ViewMode {
    fn default() -> (r: ViewMode)
        ensures
            r is SideBySide,
    {
        ViewMode::SideBySide
    }
}

/// Below this many columns side by side renders as unified.
pub const SPLIT_MIN_WIDTH: u16 = 100;

/// The mode drawn at `width`.
pub open spec fn drawn_mode(mode: ViewMode, width: u16) -> ViewMode {
    if mode is SideBySide && width >= SPLIT_MIN_WIDTH {
        ViewMode::SideBySide
    } else {
        ViewMode::Unified
    }
}

/// The other mode.
pub open spec fn other_mode(mode: ViewMode) -> ViewMode {
    match mode {
        ViewMode::SideBySide => ViewMode::Unified,
        ViewMode::Unified => ViewMode::SideBySide,
    }
}

/// Toggling twice changes nothing.
pub proof fn law_toggle_twice(mode: ViewMode)
    ensures
        other_mode(other_mode(mode)) == mode,
{
}

impl ViewMode {
    pub fn toggle(self) -> (r: ViewMode)
        ensures
            r == other_mode(self),
    {
        match self {
            ViewMode::SideBySide => ViewMode::Unified,
            ViewMode::Unified => ViewMode::SideBySide,
        }
    }

    /// The mode actually drawn at `width`: side by side needs room for two
    /// columns, so a narrow terminal gets unified regardless of the choice.
    pub fn effective(self, width: u16) -> (r: ViewMode)
        ensures
            r == drawn_mode(self, width),
    {
        match self {
            ViewMode::SideBySide if width >= SPLIT_MIN_WIDTH => ViewMode::SideBySide,
            _ => ViewMode::Unified,
        }
    }

    pub fn label(self) -> (r: &'static str)
        ensures
            r@ == mode_label(self),
    {
        match self {
            ViewMode::SideBySide => "split",
            ViewMode::Unified => "unified",
        }
    }
}

/// The name of a mode.
pub open spec fn mode_label(mode: ViewMode) -> Seq<char> {
    match mode {
        ViewMode::SideBySide => "split"@,
        ViewMode::Unified => "unified"@,
    }
}

/// Everything `layout` needs besides the painted rows.
#[derive(Debug, Clone, Copy, PartialEq, Eq, Structural)]
pub struct LayoutOpts {
    pub mode: ViewMode,
    pub width: u16,
    pub wrap: bool,
}

pub const REMOVED_BG: Color = Color::RemovedBg;

pub const ADDED_BG: Color = Color::AddedBg;

pub const REMOVED_EMPH_BG: Color = Color::RemovedEmphBg;

pub const ADDED_EMPH_BG: Color = Color::AddedEmphBg;

pub const GUTTER_FG: Color = Color::Gutter;

/// Columns between two tab stops.
pub const TAB_STOP: usize = 4;

/// A run of text with one color and one emphasis state.
#[derive(Debug, Clone, PartialEq, Eq)]
pub struct Seg {
    pub text: String,
    pub fg: Option<Color>,
    pub emph: bool,
}

impl View for Seg {
    type V = (Seq<char>, Option<Color>, bool);

    open spec fn view(&self) -> (Seq<char>, Option<Color>, bool) {
        (self.text@, self.fg, self.emph)
    }
}

/// The views of a list of runs.
pub open spec fn seg_views(segs: Seq<Seg>) -> Seq<(Seq<char>, Option<Color>, bool)> {
    segs.map_values(|s: Seg| s@)
}

/// `runs` with one more character: it joins the last run when color and
/// emphasis are the same.
pub open spec fn with_cell(
    runs: Seq<(Seq<char>, Option<Color>, bool)>,
    cell: (char, Option<Color>, bool),
) -> Seq<(Seq<char>, Option<Color>, bool)> {
    if runs.len() > 0 && runs.last().1 == cell.1 && runs.last().2 == cell.2 {
        runs.drop_last().push((runs.last().0.push(cell.0), cell.1, cell.2))
    } else {
        runs.push((seq![cell.0], cell.1, cell.2))
    }
}

/// Characters in the fewest runs of one color and emphasis.
pub open spec fn runs(cells: Seq<(char, Option<Color>, bool)>) -> Seq<
    (Seq<char>, Option<Color>, bool),
>
    decreases cells.len(),
{
    if cells.len() == 0 {
        Seq::empty()
    } else {
        with_cell(runs(cells.drop_last()), cells.last())
    }
}

/// The characters of a list of runs.
pub open spec fn cells(segs: Seq<(Seq<char>, Option<Color>, bool)>) -> Seq<
    (char, Option<Color>, bool),
>
    decreases segs.len(),
{
    if segs.len() == 0 {
        Seq::empty()
    } else {
        cells(segs.drop_last()) + tinted(segs.last().0, segs.last().1, segs.last().2)
    }
}

/// The characters of one text in one color and emphasis.
pub open spec fn tinted(s: Seq<char>, fg: Option<Color>, emph: bool) -> Seq<
    (char, Option<Color>, bool),
> {
    Seq::new(s.len(), |i: int| (s[i], fg, emph))
}

/// Cutting characters into runs loses none of them.
pub proof fn law_runs_keep_every_cell(c: Seq<(char, Option<Color>, bool)>)
    ensures
        cells(runs(c)) == c,
    decreases c.len(),
{
    if c.len() > 0 {
        let front = c.drop_last();
        let last = c.last();
        law_runs_keep_every_cell(front);
        let r = runs(front);
        let s = runs(c);
        if r.len() > 0 && r.last().1 == last.1 && r.last().2 == last.2 {
            assert(s.drop_last() =~= r.drop_last());
            assert(tinted(s.last().0, last.1, last.2) =~= tinted(
                r.last().0,
                last.1,
                last.2,
            ).push(last));
            assert(cells(s) =~= cells(r).push(last));
        } else {
            assert(s.drop_last() =~= r);
            assert(tinted(s.last().0, last.1, last.2) =~= seq![last]);
            assert(cells(s) =~= cells(r).push(last));
        }
        assert(c =~= front.push(last));
    } else {
        assert(cells(runs(c)) =~= c);
    }
}

/// Whether two optional colors are the same.
fn same_color(a: Option<Color>, b: Option<Color>) -> (r: bool)
    ensures
        r == (a == b),
{
    match (a, b) {
        (Some(x), Some(y)) => x == y,
        (None, None) => true,
        _ => false,
    }
}

/// Adds one character to a list of runs.
fn push_cell(segs: &mut Vec<Seg>, c: char, fg: Option<Color>, emph: bool)
    ensures
        seg_views(final(segs)@) == with_cell(seg_views(old(segs)@), (c, fg, emph)),
{
    let ghost before = seg_views(segs@);
    let n = segs.len();
    if n > 0 && same_color(segs[n - 1].fg, fg) && segs[n - 1].emph == emph {
        let mut last = segs.pop().unwrap();
        last.text.push(c);
        let ghost v = last@;
        segs.push(last);
        assert(seg_views(segs@) =~= before.drop_last().push(v));
    } else {
        let mut s = String::new();
        s.push(c);
        let seg = Seg { text: s, fg, emph };
        let ghost v = seg@;
        segs.push(seg);
        assert(v.0 =~= seq![c]);
        assert(seg_views(segs@) =~= before.push(v));
    }
}

/// A painted diff row.
#[derive(Debug, Clone, PartialEq, Eq)]
pub struct PaintedRow {
    pub kind: RowKind,
    pub old_no: Option<usize>,
    pub new_no: Option<usize>,
    pub segs: Vec<Seg>,
}

/// A painted hunk.
#[derive(Debug, Clone, PartialEq, Eq)]
pub struct PaintedHunk {
    pub header: String,
    pub rows: Vec<PaintedRow>,
}

/// A syntect color as a terminal color; a transparent one is none.
pub open spec fn color_of(c: Rgba) -> Option<Color> {
    if c.3 != 0 {
        Some(Color::Rgb(c.0, c.1, c.2))
    } else {
        None
    }
}

fn to_color(c: Rgba) -> (r: Option<Color>)
    ensures
        r == color_of(c),
{
    if c.3 != 0 {
        Some(Color::Rgb(c.0, c.1, c.2))
    } else {
        None
    }
}

/// The color of each character of a list of pieces.
pub open spec fn spread(inks: Seq<(Rgba, Seq<char>)>) -> Seq<Option<Color>>
    decreases inks.len(),
{
    if inks.len() == 0 {
        Seq::empty()
    } else {
        spread(inks.drop_last()) + Seq::new(
            inks.last().1.len(),
            |i: int| color_of(inks.last().0),
        )
    }
}

/// The colors of the characters of a line that may have none.
pub open spec fn line_colors(inks: Option<Seq<(Rgba, Seq<char>)>>) -> Seq<Option<Color>> {
    match inks {
        Some(p) => spread(p),
        None => Seq::empty(),
    }
}

/// The characters of a row, each in its color and with its mark.
pub open spec fn row_cells(
    segments: Seq<(bool, String)>,
    colors: Seq<Option<Color>>,
) -> Seq<(char, Option<Color>, bool)> {
    let m = linediff::marks(segments);
    Seq::new(
        m.len(),
        |i: int|
            (
                m[i].1,
                if i < colors.len() {
                    colors[i]
                } else {
                    None
                },
                m[i].0,
            ),
    )
}

/// Whether `p` is `row` in the given colors.
pub open spec fn is_painted(p: PaintedRow, row: Row, colors: Seq<Option<Color>>) -> bool {
    &&& p.kind == row.kind
    &&& p.old_no == row.old_no
    &&& p.new_no == row.new_no
    &&& seg_views(p.segs@) == runs(row_cells(row.segments@, colors))
}

/// The color of each character of a list of pieces.
fn colors_of(inks: &Vec<Ink>) -> (r: Vec<Option<Color>>)
    ensures
        r@ == spread(syntax::inks(inks@)),
{
    let ghost all = syntax::inks(inks@);
    let mut out: Vec<Option<Color>> = Vec::new();
    let mut i: usize = 0;
    while i < inks.len()
        invariant
            i <= inks@.len(),
            all == syntax::inks(inks@),
            out@ == spread(all.take(i as int)),
        decreases inks@.len() - i,
    {
        let n: usize = text::char_count(inks[i].text.as_str());
        let color = to_color(inks[i].color);
        let ghost before = out@;
        let mut k: usize = 0;
        while k < n
            invariant
                k <= n,
                out@ == before + Seq::new(k as nat, |j: int| color),
            decreases n - k,
        {
            out.push(color);
            k += 1;
        }
        proof {
            assert(all.take(i + 1).drop_last() =~= all.take(i as int));
            assert(Seq::new(n as nat, |j: int| color) =~= Seq::new(
                all[i as int].1.len(),
                |j: int| color_of(all[i as int].0),
            ));
        }
        i += 1;
    }
    assert(all.take(i as int) =~= all);
    out
}

/// Color `row` and cut it at the diff's word marks. `colors` are those of its
/// characters; one beyond them has none.
pub fn paint_row(row: &Row, colors: &Vec<Option<Color>>) -> (p: PaintedRow)
    ensures
        is_painted(p, *row, colors@),
{
    let segments = &row.segments;
    let ghost want = row_cells(segments@, colors@);
    let mut segs: Vec<Seg> = Vec::new();
    let mut at: usize = 0;
    let mut i: usize = 0;
    assert(seg_views(segs@) =~= runs(want.take(0)));
    assert(segments@.take(0) =~= Seq::empty());
    while i < segments.len()
        invariant
            i <= segments@.len(),
            want == row_cells(segments@, colors@),
            linediff::marks(segments@.take(i as int)).len() <= want.len(),
            linediff::marks(segments@.take(i as int)) == linediff::marks(segments@).take(
                linediff::marks(segments@.take(i as int)).len() as int,
            ),
            at == reached(linediff::marks(segments@.take(i as int)).len(), colors@.len()),
            seg_views(segs@) == runs(
                want.take(linediff::marks(segments@.take(i as int)).len() as int),
            ),
        decreases segments@.len() - i,
    {
        let ghost done = linediff::marks(segments@.take(i as int));
        let emph = segments[i].0;
        let chars = text::chars_of(segments[i].1.as_str());
        proof {
            assert(segments@.take(i + 1).drop_last() =~= segments@.take(i as int));
            lemma_marks_prefix(segments@, i + 1);
        }
        let ghost next_done = linediff::marks(segments@.take(i + 1));
        let mut k: usize = 0;
        while k < chars.len()
            invariant
                k <= chars@.len(),
                want == row_cells(segments@, colors@),
                next_done == done + linediff::marked(emph, chars@),
                next_done == linediff::marks(segments@).take(next_done.len() as int),
                next_done.len() <= want.len(),
                at == reached((done.len() + k) as nat, colors@.len()),
                seg_views(segs@) == runs(want.take(done.len() + k)),
            decreases chars@.len() - k,
        {
            let fg = if at < colors.len() {
                colors[at]
            } else {
                None
            };
            proof {
                let n = done.len() + k;
                assert(next_done[n] == (emph, chars@[k as int]));
                assert(want[n] == (chars@[k as int], fg, emph));
                assert(want.take(n + 1).drop_last() =~= want.take(n));
            }
            push_cell(&mut segs, chars[k], fg, emph);
            if at < colors.len() {
                at += 1;
            }
            k += 1;
        }
        i += 1;
    }
    assert(segments@.take(i as int) =~= segments@);
    assert(want.take(want.len() as int) =~= want);
    PaintedRow { kind: row.kind, old_no: row.old_no, new_no: row.new_no, segs }
}

/// How far `n` steps lead into a list of `len`.
spec fn reached(n: nat, len: nat) -> nat {
    if n < len {
        n
    } else {
        len
    }
}

proof fn lemma_marks_prefix(p: Seq<(bool, String)>, n: int)
    requires
        0 <= n <= p.len(),
    ensures
        linediff::marks(p.take(n)).len() <= linediff::marks(p).len(),
        linediff::marks(p.take(n)) == linediff::marks(p).take(linediff::marks(p.take(n)).len() as int),
    decreases p.len() - n,
{
    if n < p.len() {
        lemma_marks_prefix(p, n + 1);
        assert(p.take(n + 1).drop_last() =~= p.take(n));
        let a = linediff::marks(p.take(n));
        let b = linediff::marks(p.take(n + 1));
        assert(b.take(a.len() as int) =~= a);
        assert(linediff::marks(p).take(a.len() as int) =~= b.take(a.len() as int));
    } else {
        assert(p.take(n) =~= p);
        assert(linediff::marks(p).take(linediff::marks(p).len() as int) =~= linediff::marks(p));
    }
}

/// A row as the highlighter is given it.
pub open spec fn fed_line(row: Row) -> Seq<char> {
    linediff::pieces_text(row.segments@) + "\n"@
}

/// `h` once a highlighter was given `row`, if it is on its side.
pub open spec fn advanced(h: Option<History>, set: SyntaxSet, row: Row, on_side: bool) -> Option<
    History,
> {
    match h {
        Some(h) => Some(
            if on_side {
                syntax::fed(h, set, fed_line(row))
            } else {
                h
            },
        ),
        None => None,
    }
}

/// What the highlighter of the old side has been given after `rows`.
pub open spec fn old_after(h: Option<History>, set: SyntaxSet, rows: Seq<Row>) -> Option<History>
    decreases rows.len(),
{
    if rows.len() == 0 {
        h
    } else {
        advanced(old_after(h, set, rows.drop_last()), set, rows.last(), rows.last().kind !is Insert)
    }
}

/// What the highlighter of the new side has been given after `rows`.
pub open spec fn new_after(h: Option<History>, set: SyntaxSet, rows: Seq<Row>) -> Option<History>
    decreases rows.len(),
{
    if rows.len() == 0 {
        h
    } else {
        advanced(new_after(h, set, rows.drop_last()), set, rows.last(), rows.last().kind !is Delete)
    }
}

/// The colors of the last line of a history; none without one.
pub open spec fn last_colors(h: Option<History>) -> Seq<Option<Color>> {
    match h {
        Some(h) => line_colors(syntax::colored(h)),
        None => Seq::empty(),
    }
}

/// The colors of row `n` of a diff: a deleted row has those of the old side,
/// any other those of the new one. Each side is colored as if its lines stood
/// one after the other, so that constructs of several lines keep their state.
pub open spec fn colors_at(h: Option<History>, set: SyntaxSet, rows: Seq<Row>, n: int) -> Seq<
    Option<Color>,
> {
    if rows[n].kind is Delete {
        last_colors(old_after(h, set, rows.take(n + 1)))
    } else {
        last_colors(new_after(h, set, rows.take(n + 1)))
    }
}

/// Whether `p` is `hunk` in the colors of a highlighter that begins with `h`
/// and goes through `rows`, where those of the hunk begin at `from`.
pub open spec fn is_painted_hunk(
    p: PaintedHunk,
    hunk: Hunk,
    h: Option<History>,
    set: SyntaxSet,
    rows: Seq<Row>,
    from: nat,
) -> bool {
    &&& p.header@ == diff::hunk_header(hunk)
    &&& p.rows@.len() == hunk.rows@.len()
    &&& forall|k: int|
        0 <= k < hunk.rows@.len() ==> is_painted(
            #[trigger] p.rows@[k],
            hunk.rows@[k],
            colors_at(h, set, rows, from + k),
        )
}

/// Whether `painted` are `hunks` in the colors of a highlighter that begins
/// with `h`.
pub open spec fn is_painting(
    painted: Seq<PaintedHunk>,
    hunks: Seq<Hunk>,
    h: Option<History>,
    set: SyntaxSet,
) -> bool {
    &&& painted.len() == hunks.len()
    &&& forall|g: int|
        0 <= g < hunks.len() ==> is_painted_hunk(
            #[trigger] painted[g],
            hunks[g],
            h,
            set,
            diff::all_rows(hunks),
            diff::all_rows(hunks.take(g)).len(),
        )
}

/// What a highlighter that is there has been given.
pub open spec fn opt_history(hl: Option<HighlightLines<'_>>) -> Option<History> {
    match hl {
        Some(x) => Some(syntax::history(x)),
        None => None,
    }
}

/// Whether a highlighter that is there can go on with `set`.
pub open spec fn opt_continues(h: Option<History>, set: SyntaxSet) -> bool {
    h matches Some(x) ==> syntax::continues(x, set)
}

/// Gives a row to a highlighter that is there; the colors of its characters.
fn feed(hl: &mut Option<HighlightLines<'_>>, row: &Row, set: &SyntaxSet) -> (r: Vec<Option<Color>>)
    requires
        opt_continues(opt_history(*old(hl)), *set),
    ensures
        opt_continues(opt_history(*final(hl)), *set),
        opt_history(*final(hl)) == advanced(opt_history(*old(hl)), *set, *row, true),
        r@ == last_colors(opt_history(*final(hl))),
{
    match hl {
        Some(x) => {
            let mut line = row.text();
            line.append("\n");
            match syntax::highlight_line(x, line.as_str(), set) {
                Some(inks) => colors_of(&inks),
                None => Vec::new(),
            }
        },
        None => Vec::new(),
    }
}

/// Paints one row and moves the highlighters of its sides on.
fn paint_next(
    row: &Row,
    old_hl: &mut Option<HighlightLines<'_>>,
    new_hl: &mut Option<HighlightLines<'_>>,
    set: &SyntaxSet,
) -> (p: PaintedRow)
    requires
        opt_continues(opt_history(*old(old_hl)), *set),
        opt_continues(opt_history(*old(new_hl)), *set),
    ensures
        opt_continues(opt_history(*final(old_hl)), *set),
        opt_continues(opt_history(*final(new_hl)), *set),
        opt_history(*final(old_hl)) == advanced(
            opt_history(*old(old_hl)),
            *set,
            *row,
            row.kind !is Insert,
        ),
        opt_history(*final(new_hl)) == advanced(
            opt_history(*old(new_hl)),
            *set,
            *row,
            row.kind !is Delete,
        ),
        is_painted(
            p,
            *row,
            last_colors(
                if row.kind is Delete {
                    opt_history(*final(old_hl))
                } else {
                    opt_history(*final(new_hl))
                },
            ),
        ),
{
    match row.kind {
        RowKind::Delete => {
            let colors = feed(old_hl, row, set);
            paint_row(row, &colors)
        },
        RowKind::Insert => {
            let colors = feed(new_hl, row, set);
            paint_row(row, &colors)
        },
        RowKind::Equal => {
            // Keep the old-side highlighter in step.
            let _ = feed(old_hl, row, set);
            let colors = feed(new_hl, row, set);
            paint_row(row, &colors)
        },
    }
}

/// The syntax of an edited file.
pub open spec fn card_syntax(input: CardInput, set: SyntaxSet) -> Option<SyntaxReference> {
    syntax::syntax_of(
        set,
        paths::suffix_of(input.file@),
        paths::base_name(input.file@),
        input.diff.first_line@,
    )
}

/// What a highlighter for `syntax` begins with.
pub open spec fn fresh(syntax: Option<SyntaxReference>, theme: Theme) -> Option<History> {
    match syntax {
        Some(s) => Some(History { theme, syntax: s, lines: Seq::empty() }),
        None => None,
    }
}

/// Syntax for the edited file: by extension, then by file name (Makefile,
/// Dockerfile), then by the first line (shebang, mode line). Plain text is
/// reported as `None` so the terminal's own foreground is used.
pub fn detect_syntax<'a>(input: &CardInput, set: &'a SyntaxSet) -> (r: Option<&'a SyntaxReference>)
    ensures
        syntax::target(r) == card_syntax(*input, *set),
{
    let extension = paths::extension(input.file.as_str());
    let name = paths::file_name(input.file.as_str());
    syntax::find_syntax(set, &extension, &name, input.diff.first_line.as_str())
}

fn start<'a>(syntax: Option<&SyntaxReference>, theme: &'a Theme) -> (r: Option<HighlightLines<'a>>)
    ensures
        opt_history(r) == fresh(syntax::target(syntax), *theme),
{
    match syntax {
        Some(s) => Some(syntax::highlighter(s, theme)),
        None => None,
    }
}

proof fn lemma_rows_prefix(hunks: Seq<Hunk>, g: int, k: int)
    requires
        0 <= g < hunks.len(),
        0 <= k <= hunks[g].rows@.len(),
    ensures
        diff::all_rows(hunks.take(g)).len() + k <= diff::all_rows(hunks).len(),
        diff::all_rows(hunks).take(diff::all_rows(hunks.take(g)).len() + k) == diff::all_rows(
            hunks.take(g),
        ) + hunks[g].rows@.take(k),
    decreases hunks.len(),
{
    let front = hunks.drop_last();
    let n = diff::all_rows(hunks.take(g)).len() + k;
    let want = diff::all_rows(hunks.take(g)) + hunks[g].rows@.take(k);
    if g < hunks.len() - 1 {
        lemma_rows_prefix(front, g, k);
        assert(front.take(g) =~= hunks.take(g));
        assert(diff::all_rows(hunks).take(n) =~= diff::all_rows(front).take(n));
    } else {
        assert(hunks.take(g) =~= front);
        assert(diff::all_rows(hunks).take(n) =~= want);
    }
}

/// Stage one: syntax colors plus word marks, once per card. One highlighter
/// walks the old side and one the new side so multi-line constructs keep
/// their state across rows.
pub fn paint(input: &CardInput, painter: &Painter) -> (painted: Vec<PaintedHunk>)
    ensures
        is_painting(
            painted@,
            input.diff.hunks@,
            fresh(card_syntax(*input, painter.syntaxes), painter.theme),
            painter.syntaxes,
        ),
{
    let set = &painter.syntaxes;
    let syntax = detect_syntax(input, set);
    let ghost h = fresh(card_syntax(*input, *set), painter.theme);
    let mut old_hl = start(syntax, &painter.theme);
    let mut new_hl = start(syntax, &painter.theme);
    let hunks = &input.diff.hunks;
    let ghost rows_all = diff::all_rows(hunks@);
    let mut painted: Vec<PaintedHunk> = Vec::new();
    let mut g: usize = 0;
    assert(hunks@.take(0) =~= Seq::empty());
    while g < hunks.len()
        invariant
            g <= hunks@.len(),
            rows_all == diff::all_rows(hunks@),
            opt_continues(opt_history(old_hl), *set),
            opt_continues(opt_history(new_hl), *set),
            opt_history(old_hl) == old_after(h, *set, diff::all_rows(hunks@.take(g as int))),
            opt_history(new_hl) == new_after(h, *set, diff::all_rows(hunks@.take(g as int))),
            painted@.len() == g,
            forall|i: int|
                0 <= i < g ==> is_painted_hunk(
                    #[trigger] painted@[i],
                    hunks@[i],
                    h,
                    *set,
                    rows_all,
                    diff::all_rows(hunks@.take(i)).len(),
                ),
        decreases hunks@.len() - g,
    {
        let hunk = &hunks[g];
        let ghost before = diff::all_rows(hunks@.take(g as int));
        let mut rows: Vec<PaintedRow> = Vec::new();
        let mut k: usize = 0;
        assert(before + hunk.rows@.take(0) =~= before);
        while k < hunk.rows.len()
            invariant
                g < hunks@.len(),
                *hunk == hunks@[g as int],
                k <= hunk.rows@.len(),
                rows_all == diff::all_rows(hunks@),
                before == diff::all_rows(hunks@.take(g as int)),
                opt_continues(opt_history(old_hl), *set),
                opt_continues(opt_history(new_hl), *set),
                opt_history(old_hl) == old_after(h, *set, before + hunk.rows@.take(k as int)),
                opt_history(new_hl) == new_after(h, *set, before + hunk.rows@.take(k as int)),
                rows@.len() == k,
                forall|j: int|
                    0 <= j < k ==> is_painted(
                        #[trigger] rows@[j],
                        hunk.rows@[j],
                        colors_at(h, *set, rows_all, before.len() + j),
                    ),
            decreases hunk.rows@.len() - k,
        {
            let row = paint_next(&hunk.rows[k], &mut old_hl, &mut new_hl, set);
            proof {
                let s = before + hunk.rows@.take(k + 1);
                assert(s.drop_last() =~= before + hunk.rows@.take(k as int));
                assert(s.last() == hunk.rows@[k as int]);
                lemma_rows_prefix(hunks@, g as int, k + 1);
                assert(rows_all.take(before.len() + k + 1) == s);
                assert(rows_all[before.len() + k as int] == s.last());
            }
            rows.push(row);
            k += 1;
        }
        proof {
            assert(hunk.rows@.take(k as int) =~= hunk.rows@);
            assert(hunks@.take(g + 1).drop_last() =~= hunks@.take(g as int));
        }
        let p = PaintedHunk { header: hunk.header(), rows };
        assert(is_painted_hunk(p, *hunk, h, *set, rows_all, before.len()));
        painted.push(p);
        g += 1;
    }
    assert(hunks@.take(g as int) =~= hunks@);
    painted
}

/// A character as it is drawn at `column`: a tab reaches the next tab stop.
pub open spec fn glyph(c: char, column: nat) -> Seq<char> {
    if c == '\t' {
        text::copies(' ', (TAB_STOP - column % TAB_STOP as nat) as nat)
    } else {
        seq![c]
    }
}

/// The column after some characters on a line without end.
pub open spec fn column(c: Seq<(char, Option<Color>, bool)>) -> nat
    decreases c.len(),
{
    if c.len() == 0 {
        0
    } else {
        column(c.drop_last()) + columns::cols(glyph(c.last().0, column(c.drop_last())))
    }
}

/// The characters as they are drawn.
pub open spec fn glyphs(c: Seq<(char, Option<Color>, bool)>) -> Seq<
    (Seq<char>, Option<Color>, bool),
>
    decreases c.len(),
{
    if c.len() == 0 {
        Seq::empty()
    } else {
        glyphs(c.drop_last()).push(
            (glyph(c.last().0, column(c.drop_last())), c.last().1, c.last().2),
        )
    }
}

/// The columns of a list of texts.
pub open spec fn used(g: Seq<(Seq<char>, Option<Color>, bool)>) -> nat
    decreases g.len(),
{
    if g.len() == 0 {
        0
    } else {
        used(g.drop_last()) + columns::cols(g.last().0)
    }
}

/// The glyphs in lines of at most `limit` columns, each as long as it can be.
pub open spec fn wrapped(g: Seq<(Seq<char>, Option<Color>, bool)>, limit: nat) -> Seq<
    Seq<(Seq<char>, Option<Color>, bool)>,
>
    decreases g.len(),
{
    if g.len() == 0 {
        seq![Seq::empty()]
    } else {
        let lines = wrapped(g.drop_last(), limit);
        if used(lines.last()) + columns::cols(g.last().0) > limit {
            lines.push(seq![g.last()])
        } else {
            lines.drop_last().push(lines.last().push(g.last()))
        }
    }
}

/// How many glyphs fit into `limit` columns.
pub open spec fn fitting(g: Seq<(Seq<char>, Option<Color>, bool)>, limit: nat) -> nat
    decreases g.len(),
{
    if g.len() == 0 {
        0
    } else if fitting(g.drop_last(), limit) < g.len() - 1 || used(g) > limit {
        fitting(g.drop_last(), limit)
    } else {
        g.len()
    }
}

/// One visual line: its glyphs in runs.
pub open spec fn drawn(g: Seq<(Seq<char>, Option<Color>, bool)>) -> Seq<
    (Seq<char>, Option<Color>, bool),
> {
    runs(cells(g))
}

/// Several visual lines.
pub open spec fn drawn_lines(lines: Seq<Seq<(Seq<char>, Option<Color>, bool)>>) -> Seq<
    Seq<(Seq<char>, Option<Color>, bool)>,
> {
    lines.map_values(|g: Seq<(Seq<char>, Option<Color>, bool)>| drawn(g))
}

/// Whether a row has no room in `col` columns, be it drawn character by
/// character or measured as text: some sequences are wider than their
/// characters together.
pub open spec fn overflows(segs: Seq<(Seq<char>, Option<Color>, bool)>, col: nat) -> bool {
    used(glyphs(cells(segs))) > col || used(segs) > col
}

/// One visual line of at most `col` columns. One that overflows is cut, with
/// `…` in the last column.
pub open spec fn clipped(segs: Seq<(Seq<char>, Option<Color>, bool)>, col: nat) -> Seq<
    (Seq<char>, Option<Color>, bool),
> {
    let g = glyphs(cells(segs));
    if !overflows(segs, col) {
        drawn(g)
    } else {
        let limit = columns::room(col, 1);
        let kept = g.take(fitting(g, limit) as int);
        drawn(kept).push(
            (text::copies(' ', columns::room(limit, used(kept))) + "…"@, Some(GUTTER_FG), false),
        )
    }
}

/// `segs` in visual lines of `col` columns, tabs expanded: as many as needed
/// with `wrap`, else one.
pub open spec fn chunked(
    segs: Seq<(Seq<char>, Option<Color>, bool)>,
    col: nat,
    wrap: bool,
) -> Seq<Seq<(Seq<char>, Option<Color>, bool)>> {
    if wrap {
        drawn_lines(wrapped(glyphs(cells(segs)), col))
    } else {
        seq![clipped(segs, col)]
    }
}

/// `runs` with more characters.
pub open spec fn with_cells(
    r: Seq<(Seq<char>, Option<Color>, bool)>,
    more: Seq<(char, Option<Color>, bool)>,
) -> Seq<(Seq<char>, Option<Color>, bool)>
    decreases more.len(),
{
    if more.len() == 0 {
        r
    } else {
        with_cell(with_cells(r, more.drop_last()), more.last())
    }
}

proof fn lemma_runs_join(
    a: Seq<(char, Option<Color>, bool)>,
    b: Seq<(char, Option<Color>, bool)>,
)
    ensures
        runs(a + b) == with_cells(runs(a), b),
    decreases b.len(),
{
    if b.len() == 0 {
        assert(a + b =~= a);
    } else {
        assert((a + b).drop_last() =~= a + b.drop_last());
        lemma_runs_join(a, b.drop_last());
    }
}

/// Adds a text to a list of runs.
fn push_text(segs: &mut Vec<Seg>, s: &str, fg: Option<Color>, emph: bool)
    ensures
        seg_views(final(segs)@) == with_cells(seg_views(old(segs)@), tinted(s@, fg, emph)),
{
    let v = text::chars_of(s);
    let ghost before = seg_views(segs@);
    let ghost all = tinted(s@, fg, emph);
    let mut i: usize = 0;
    assert(all.take(0) =~= Seq::empty());
    while i < v.len()
        invariant
            i <= v@.len(),
            v@ == s@,
            all == tinted(s@, fg, emph),
            seg_views(segs@) == with_cells(before, all.take(i as int)),
        decreases v@.len() - i,
    {
        assert(all.take(i + 1).drop_last() =~= all.take(i as int));
        push_cell(segs, v[i], fg, emph);
        i += 1;
    }
    assert(all.take(i as int) =~= all);
}

/// The characters of a list of runs.
fn cells_of(segs: &Vec<Seg>) -> (r: Vec<(char, Option<Color>, bool)>)
    ensures
        r@ == cells(seg_views(segs@)),
{
    let ghost all = seg_views(segs@);
    let mut out: Vec<(char, Option<Color>, bool)> = Vec::new();
    let mut i: usize = 0;
    while i < segs.len()
        invariant
            i <= segs@.len(),
            all == seg_views(segs@),
            out@ == cells(all.take(i as int)),
        decreases segs@.len() - i,
    {
        let v = text::chars_of(segs[i].text.as_str());
        let fg = segs[i].fg;
        let emph = segs[i].emph;
        let ghost before = out@;
        let mut k: usize = 0;
        while k < v.len()
            invariant
                k <= v@.len(),
                out@ == before + tinted(v@, fg, emph).take(k as int),
            decreases v@.len() - k,
        {
            out.push((v[k], fg, emph));
            assert(tinted(v@, fg, emph).take(k + 1) =~= tinted(v@, fg, emph).take(k as int).push(
                (v@[k as int], fg, emph),
            ));
            k += 1;
        }
        proof {
            assert(tinted(v@, fg, emph).take(k as int) =~= tinted(v@, fg, emph));
            assert(all.take(i + 1).drop_last() =~= all.take(i as int));
        }
        i += 1;
    }
    assert(all.take(i as int) =~= all);
    out
}

/// A character as it is drawn at a column, given the column's distance from
/// the tab stop before it.
fn glyph_of(c: char, phase: usize) -> (r: String)
    requires
        phase < TAB_STOP,
    ensures
        r@ == glyph(c, phase as nat),
{
    if c == '\t' {
        text::repeated(' ', TAB_STOP - phase)
    } else {
        let mut s = String::new();
        s.push(c);
        assert(s@ =~= seq![c]);
        s
    }
}

proof fn lemma_push_glyph(
    g: Seq<(Seq<char>, Option<Color>, bool)>,
    last: (Seq<char>, Option<Color>, bool),
)
    ensures
        drawn(g.push(last)) == with_cells(drawn(g), tinted(last.0, last.1, last.2)),
        used(g.push(last)) == used(g) + columns::cols(last.0),
{
    assert(g.push(last).drop_last() =~= g);
    lemma_runs_join(cells(g), tinted(last.0, last.1, last.2));
}

/// The views of a list of lists of runs.
pub open spec fn chunk_views(lines: Seq<Vec<Seg>>) -> Seq<Seq<(Seq<char>, Option<Color>, bool)>> {
    lines.map_values(|l: Vec<Seg>| seg_views(l@))
}

proof fn lemma_push_chunk(
    lines: Seq<Vec<Seg>>,
    line: Vec<Seg>,
    w: Seq<Seq<(Seq<char>, Option<Color>, bool)>>,
)
    requires
        w.len() > 0,
        chunk_views(lines) == drawn_lines(w.drop_last()),
        seg_views(line@) == drawn(w.last()),
    ensures
        chunk_views(lines.push(line)) == drawn_lines(w),
{
    assert(chunk_views(lines.push(line)) =~= chunk_views(lines).push(seg_views(line@)));
    assert(drawn_lines(w) =~= drawn_lines(w.drop_last()).push(drawn(w.last())));
}

/// The characters in lines of at most `limit` columns.
fn wrap_lines(all: &Vec<(char, Option<Color>, bool)>, limit: usize) -> (lines: Vec<Vec<Seg>>)
    ensures
        chunk_views(lines@) == drawn_lines(wrapped(glyphs(all@), limit as nat)),
{
    let mut lines: Vec<Vec<Seg>> = Vec::new();
    let mut line: Vec<Seg> = Vec::new();
    let mut taken: usize = 0;
    let mut phase: usize = 0;
    let mut i: usize = 0;
    proof {
        assert(all@.take(0) =~= Seq::empty());
        let w = wrapped(glyphs(all@.take(0)), limit as nat);
        assert(w =~= seq![Seq::empty()]);
        assert(seg_views(line@) =~= drawn(w.last()));
        assert(chunk_views(lines@) =~= drawn_lines(w.drop_last()));
    }
    while i < all.len()
        invariant
            i <= all@.len(),
            phase < TAB_STOP,
            phase == column(all@.take(i as int)) % TAB_STOP as nat,
            wrapped(glyphs(all@.take(i as int)), limit as nat).len() > 0,
            chunk_views(lines@) == drawn_lines(
                wrapped(glyphs(all@.take(i as int)), limit as nat).drop_last(),
            ),
            seg_views(line@) == drawn(
                wrapped(glyphs(all@.take(i as int)), limit as nat).last(),
            ),
            taken == used(wrapped(glyphs(all@.take(i as int)), limit as nat).last()),
        decreases all@.len() - i,
    {
        let (c, fg, emph) = all[i];
        let ghost before = glyphs(all@.take(i as int));
        let ghost w = wrapped(before, limit as nat);
        let ghost after = glyphs(all@.take(i + 1));
        let piece = glyph_of(c, phase);
        let ghost g = (piece@, fg, emph);
        proof {
            assert(all@.take(i + 1).drop_last() =~= all@.take(i as int));
            assert(glyph(c, phase as nat) == glyph(c, column(all@.take(i as int))));
            assert(after == before.push(g));
            assert(after.drop_last() =~= before);
        }
        let n: usize = columns::width(piece.as_str());
        proof {
            lemma_advance(column(all@.take(i as int)), n as nat);
        }
        phase = advance(phase, n);
        if taken > limit || n > limit - taken {
            proof {
                lemma_push_chunk(lines@, line, w);
            }
            lines.push(line);
            line = Vec::new();
            proof {
                assert(wrapped(after, limit as nat) == w.push(seq![g]));
                assert(w.push(seq![g]).drop_last() =~= w);
                let none = Seq::<(Seq<char>, Option<Color>, bool)>::empty();
                assert(seg_views(line@) =~= drawn(none));
                lemma_push_glyph(none, g);
                assert(none.push(g) =~= seq![g]);
            }
            taken = n;
        } else {
            proof {
                assert(wrapped(after, limit as nat) == w.drop_last().push(w.last().push(g)));
                assert(w.drop_last().push(w.last().push(g)).drop_last() =~= w.drop_last());
                lemma_push_glyph(w.last(), g);
            }
            taken = taken + n;
        }
        push_text(&mut line, piece.as_str(), fg, emph);
        i += 1;
    }
    proof {
        assert(all@.take(i as int) =~= all@);
    }
    proof {
        lemma_push_chunk(lines@, line, wrapped(glyphs(all@), limit as nat));
    }
    lines.push(line);
    lines
}

proof fn lemma_fitting(g: Seq<(Seq<char>, Option<Color>, bool)>, n: int, limit: nat)
    requires
        0 <= n <= g.len(),
        used(g.take(n)) <= limit,
        n < g.len() ==> used(g.take(n + 1)) > limit,
    ensures
        fitting(g, limit) == n,
    decreases g.len(),
{
    if n < g.len() {
        let front = g.drop_last();
        assert(front.take(n) =~= g.take(n));
        if n < front.len() {
            assert(front.take(n + 1) =~= g.take(n + 1));
            lemma_fitting(front, n, limit);
        } else {
            assert(g.take(n + 1) =~= g);
            assert(front.take(n) =~= front);
            lemma_fitting(front, n, limit);
        }
    } else if g.len() > 0 {
        assert(g.take(n) =~= g);
        let front = g.drop_last();
        assert(front.take(front.len() as int) =~= front);
        lemma_fitting(front, n - 1, limit);
    }
}

proof fn lemma_used_grows(g: Seq<(Seq<char>, Option<Color>, bool)>, n: int)
    requires
        0 <= n <= g.len(),
    ensures
        used(g.take(n)) <= used(g),
    decreases g.len(),
{
    if n < g.len() {
        lemma_used_grows(g.drop_last(), n);
        assert(g.drop_last().take(n) =~= g.take(n));
    } else {
        assert(g.take(n) =~= g);
    }
}

/// How far into a tab stop the column is, `n` columns on.
fn advance(phase: usize, n: usize) -> (r: usize)
    requires
        phase < TAB_STOP,
    ensures
        r < TAB_STOP,
        r == (phase + n) % TAB_STOP as int,
{
    (phase + n % TAB_STOP) % TAB_STOP
}

proof fn lemma_advance(column: nat, n: nat)
    ensures
        (column % TAB_STOP as nat + n) % TAB_STOP as nat == (column + n) % TAB_STOP as nat,
{
}

/// `(line, taken, n)`: the first `n` characters, as many as fit into `limit`
/// columns, in one line that is `taken` columns wide.
#[verifier::spinoff_prover]
fn fill_line(all: &Vec<(char, Option<Color>, bool)>, limit: usize) -> (r: (Vec<Seg>, usize, usize))
    ensures
        r.2 == fitting(glyphs(all@), limit as nat),
        r.2 <= all@.len(),
        r.2 == all@.len() <==> used(glyphs(all@)) <= limit,
        seg_views(r.0@) == drawn(glyphs(all@).take(r.2 as int)),
        r.1 == used(glyphs(all@).take(r.2 as int)),
        r.1 <= limit,
{
    let ghost g = glyphs(all@);
    let mut line: Vec<Seg> = Vec::new();
    let mut taken: usize = 0;
    let mut phase: usize = 0;
    let mut overflow = false;
    let mut i: usize = 0;
    proof {
        assert(all@.take(0) =~= Seq::empty());
        assert(glyphs(all@.take(0)) =~= Seq::empty());
        assert(seg_views(line@) =~= drawn(glyphs(all@.take(0))));
    }
    while i < all.len() && !overflow
        invariant
            i <= all@.len(),
            g == glyphs(all@),
            phase < TAB_STOP,
            phase == column(all@.take(i as int)) % TAB_STOP as nat,
            seg_views(line@) == drawn(glyphs(all@.take(i as int))),
            taken == used(glyphs(all@.take(i as int))),
            taken <= limit,
            overflow ==> i < all@.len() && used(glyphs(all@.take(i + 1))) > limit,
        decreases
                all@.len() - i,
                if overflow {
                    0int
                } else {
                    1int
                },
    {
        let (c, fg, emph) = all[i];
        let piece = glyph_of(c, phase);
        let n: usize = columns::width(piece.as_str());
        proof {
            let before = glyphs(all@.take(i as int));
            assert(all@.take(i + 1).drop_last() =~= all@.take(i as int));
            assert(glyph(c, phase as nat) == glyph(c, column(all@.take(i as int))));
            assert(glyphs(all@.take(i + 1)) == before.push((piece@, fg, emph)));
            lemma_push_glyph(before, (piece@, fg, emph));
        }
        if n > limit - taken {
            overflow = true;
        } else {
            proof {
                lemma_advance(column(all@.take(i as int)), n as nat);
            }
            phase = advance(phase, n);
            taken += n;
            push_text(&mut line, piece.as_str(), fg, emph);
            i += 1;
        }
    }
    proof {
        lemma_glyphs_prefix(all@, i as int);
        if i < all@.len() {
            lemma_glyphs_prefix(all@, i + 1);
            lemma_used_grows(g, i + 1);
        } else {
            assert(g.take(i as int) =~= g);
        }
        lemma_fitting(g, i as int, limit as nat);
    }
    (line, taken, i)
}

/// Whether the texts of a list of runs take more than `col` columns.
fn exceeds(segs: &Vec<Seg>, col: usize) -> (r: bool)
    ensures
        r == (used(seg_views(segs@)) > col),
{
    let ghost all = seg_views(segs@);
    let mut left: usize = col;
    let mut i: usize = 0;
    while i < segs.len()
        invariant
            i <= segs@.len(),
            left <= col,
            all == seg_views(segs@),
            used(all.take(i as int)) == col - left,
        decreases segs@.len() - i,
    {
        let n: usize = columns::width(segs[i].text.as_str());
        proof {
            assert(all.take(i + 1).drop_last() =~= all.take(i as int));
        }
        if n > left {
            proof {
                lemma_used_grows(all, i + 1);
            }
            return true;
        }
        left -= n;
        i += 1;
    }
    assert(all.take(i as int) =~= all);
    false
}

/// One line of at most `col` columns.
fn clip_line(segs: &Vec<Seg>, col: usize) -> (line: Vec<Seg>)
    ensures
        seg_views(line@) == clipped(seg_views(segs@), col as nat),
{
    let all = cells_of(segs);
    let ghost g = glyphs(all@);
    proof {
        lemma_glyphs_prefix(all@, 0);
        assert(g.take(g.len() as int) =~= g);
    }
    let (whole, _, n) = fill_line(&all, col);
    if n == all.len() && !exceeds(segs, col) {
        return whole;
    }
    let limit: usize = col.saturating_sub(1);
    let (mut line, taken, _) = fill_line(&all, limit);
    let mut mark = text::repeated(' ', limit - taken);
    mark.append("…");
    let seg = Seg { text: mark, fg: Some(GUTTER_FG), emph: false };
    let ghost before = seg_views(line@);
    let ghost v = seg@;
    line.push(seg);
    assert(seg_views(line@) =~= before.push(v));
    line
}

proof fn lemma_glyphs_prefix(c: Seq<(char, Option<Color>, bool)>, n: int)
    requires
        0 <= n <= c.len(),
    ensures
        glyphs(c).len() == c.len(),
        glyphs(c.take(n)) == glyphs(c).take(n),
    decreases c.len(),
{
    if c.len() > 0 {
        let front = c.drop_last();
        if n < c.len() {
            lemma_glyphs_prefix(front, n);
            assert(front.take(n) =~= c.take(n));
            assert(glyphs(c).take(n) =~= glyphs(front).take(n));
        } else {
            lemma_glyphs_prefix(front, n - 1);
            assert(c.take(n) =~= c);
            assert(glyphs(c).take(n) =~= glyphs(c));
        }
    } else {
        assert(c.take(n) =~= c);
        assert(glyphs(c).take(n) =~= glyphs(c));
    }
}

/// `segs` cut into visual lines no wider than `col`, tabs expanded. Without
/// `wrap` there is exactly one line and an overflow ends in `…`.
pub fn chunks(segs: &Vec<Seg>, col: usize, wrap: bool) -> (lines: Vec<Vec<Seg>>)
    ensures
        chunk_views(lines@) == chunked(seg_views(segs@), col as nat, wrap),
{
    if wrap {
        let all = cells_of(segs);
        wrap_lines(&all, col)
    } else {
        let line = clip_line(segs, col);
        let mut lines: Vec<Vec<Seg>> = Vec::new();
        let ghost v = seg_views(line@);
        lines.push(line);
        assert(chunk_views(lines@) =~= seq![v]);
        lines
    }
}

/// The tint and the marker of a row.
#[derive(Debug, Clone, Copy, PartialEq, Eq, Structural)]
pub struct RowStyle {
    pub bg: Option<Color>,
    pub emph_bg: Option<Color>,
    pub marker: char,
}

/// How rows on a side are drawn.
pub open spec fn row_style(kind: RowKind) -> RowStyle {
    match kind {
        RowKind::Equal => RowStyle { bg: None, emph_bg: None, marker: ' ' },
        RowKind::Delete => RowStyle {
            bg: Some(REMOVED_BG),
            emph_bg: Some(REMOVED_EMPH_BG),
            marker: '-',
        },
        RowKind::Insert => RowStyle {
            bg: Some(ADDED_BG),
            emph_bg: Some(ADDED_EMPH_BG),
            marker: '+',
        },
    }
}

/// The style of what is not text in a row.
pub open spec fn base_style(rs: RowStyle) -> Style {
    Style { bg: rs.bg, ..style::plain() }
}

/// The style of a run in a row: a changed word has a stronger tint.
pub open spec fn run_style(rs: RowStyle, seg: (Seq<char>, Option<Color>, bool)) -> Style {
    Style {
        fg: seg.1,
        bg: if seg.2 && rs.emph_bg is Some {
            rs.emph_bg
        } else {
            rs.bg
        },
        ..style::plain()
    }
}

impl RowStyle {
    pub fn for_kind(kind: RowKind) -> (r: RowStyle)
        ensures
            r == row_style(kind),
    {
        match kind {
            RowKind::Equal => RowStyle { bg: None, emph_bg: None, marker: ' ' },
            RowKind::Delete => RowStyle {
                bg: Some(REMOVED_BG),
                emph_bg: Some(REMOVED_EMPH_BG),
                marker: '-',
            },
            RowKind::Insert => RowStyle {
                bg: Some(ADDED_BG),
                emph_bg: Some(ADDED_EMPH_BG),
                marker: '+',
            },
        }
    }

    fn base(&self) -> (r: Style)
        ensures
            r == base_style(*self),
    {
        let s = Style::new();
        match self.bg {
            Some(bg) => s.bg(bg),
            None => s,
        }
    }

    fn seg_style(&self, seg: &Seg) -> (r: Style)
        ensures
            r == run_style(*self, seg@),
    {
        let mut s = self.base();
        if let Some(fg) = seg.fg {
            s = s.fg(fg);
        }
        if seg.emph {
            if let Some(bg) = self.emph_bg {
                s = s.bg(bg);
            }
        }
        s
    }
}

/// The larger of the numbers of a row.
pub open spec fn row_number(row: PaintedRow) -> nat {
    let a = match row.old_no {
        Some(n) => n as nat,
        None => 0,
    };
    let b = match row.new_no {
        Some(n) => n as nat,
        None => 0,
    };
    if a > b {
        a
    } else {
        b
    }
}

/// The largest number of some rows, or `start`.
pub open spec fn largest(rows: Seq<PaintedRow>, start: nat) -> nat
    decreases rows.len(),
{
    if rows.len() == 0 {
        start
    } else {
        let n = largest(rows.drop_last(), start);
        if row_number(rows.last()) > n {
            row_number(rows.last())
        } else {
            n
        }
    }
}

/// The largest number of all rows; zero when there is none.
pub open spec fn largest_number(hunks: Seq<PaintedHunk>) -> nat
    decreases hunks.len(),
{
    if hunks.len() == 0 {
        0
    } else {
        largest(hunks.last().rows@, largest_number(hunks.drop_last()))
    }
}

/// The measures of a layout.
pub struct Frame {
    pub width: nat,
    /// Columns of a line number.
    pub num_w: nat,
    /// Text columns per side (split) or for the line (unified).
    pub col: nat,
}

/// The measures for `hunks` at `opts`: line numbers have three columns or
/// more, text has what is left, at least one column.
pub open spec fn frame(hunks: Seq<PaintedHunk>, opts: LayoutOpts) -> Frame {
    let len = text::digits(largest_number(hunks)).len();
    let num_w = if len < 3 {
        3nat
    } else {
        len
    };
    let width = opts.width as nat;
    let col = match drawn_mode(opts.mode, opts.width) {
        ViewMode::SideBySide => columns::room(width, 2 * num_w + 7) / 2,
        ViewMode::Unified => columns::room(width, 2 * num_w + 3),
    };
    Frame {
        width,
        num_w,
        col: if col == 0 {
            1
        } else {
            col
        },
    }
}

/// Columns of one side in a split layout.
pub open spec fn side_width(f: Frame) -> nat {
    f.num_w + 2 + f.col
}

/// `s` with spaces before it, `w` characters in all.
pub open spec fn right_aligned(s: Seq<char>, w: nat) -> Seq<char> {
    text::copies(' ', columns::room(w, s.len())) + s
}

/// A line number, or blanks in its place.
pub open spec fn gutter_text(no: Option<usize>, num_w: nat) -> Seq<char> {
    match no {
        Some(n) => right_aligned(text::digits(n as nat), num_w) + " "@,
        None => text::copies(' ', num_w + 1),
    }
}

/// The line numbers of a row, blank but on its first visual line.
pub open spec fn gutters_drawn(
    f: Frame,
    gutters: Seq<Option<usize>>,
    first: bool,
    rs: RowStyle,
) -> Seq<(Seq<char>, Style)> {
    gutters.map_values(
        |no: Option<usize>|
            (
                gutter_text(
                    if first {
                        no
                    } else {
                        None
                    },
                    f.num_w,
                ),
                Style { fg: Some(GUTTER_FG), ..base_style(rs) },
            ),
    )
}

/// The runs of one visual line in their styles.
pub open spec fn runs_drawn(line: Seq<(Seq<char>, Option<Color>, bool)>, rs: RowStyle) -> Seq<
    (Seq<char>, Style),
> {
    line.map_values(|seg: (Seq<char>, Option<Color>, bool)| (seg.0, run_style(rs, seg)))
}

/// What fills a side behind its text.
pub open spec fn padding(
    f: Frame,
    line: Seq<(Seq<char>, Option<Color>, bool)>,
    rs: RowStyle,
) -> Seq<(Seq<char>, Style)> {
    let pad = columns::room(f.col, used(line));
    if pad > 0 {
        seq![(text::copies(' ', pad), base_style(rs))]
    } else {
        Seq::empty()
    }
}

/// `gutter marker text`, one visual line of one side without its padding.
pub open spec fn cell_text(
    f: Frame,
    gutters: Seq<Option<usize>>,
    first: bool,
    line: Seq<(Seq<char>, Option<Color>, bool)>,
    rs: RowStyle,
) -> Seq<(Seq<char>, Style)> {
    let marker = if first {
        rs.marker
    } else {
        ' '
    };
    gutters_drawn(f, gutters, first, rs) + seq![(seq![marker], base_style(rs))] + runs_drawn(
        line,
        rs,
    )
}

/// One visual line of a unified layout. A row without a tint has no padding,
/// so that plain output has no trailing spaces.
pub open spec fn unified_line(
    f: Frame,
    row: PaintedRow,
    first: bool,
    line: Seq<(Seq<char>, Option<Color>, bool)>,
) -> Seq<(Seq<char>, Style)> {
    let rs = row_style(row.kind);
    let body = cell_text(f, seq![row.old_no, row.new_no], first, line, rs);
    if rs.bg is Some {
        body + padding(f, line, rs)
    } else {
        body
    }
}

/// A row in a unified layout.
pub open spec fn unified_lines(f: Frame, row: PaintedRow, wrap: bool) -> Seq<
    Seq<(Seq<char>, Style)>,
> {
    let lines = chunked(seg_views(row.segs@), f.col, wrap);
    Seq::new(lines.len(), |i: int| unified_line(f, row, i == 0, lines[i]))
}

/// Column widths for one layout pass.
#[derive(Debug)]
pub struct Geometry {
    pub width: usize,
    pub num_w: usize,
    /// Text columns per side (split) or for the line (unified).
    pub col: usize,
}

impl View for Geometry {
    type V = Frame;

    open spec fn view(&self) -> Frame {
        Frame { width: self.width as nat, num_w: self.num_w as nat, col: self.col as nat }
    }
}

/// The largest number of all rows.
fn max_number(hunks: &Vec<PaintedHunk>) -> (r: usize)
    ensures
        r == largest_number(hunks@),
{
    let mut max: usize = 0;
    let mut g: usize = 0;
    assert(hunks@.take(0) =~= Seq::empty());
    while g < hunks.len()
        invariant
            g <= hunks@.len(),
            max == largest_number(hunks@.take(g as int)),
        decreases hunks@.len() - g,
    {
        let rows = &hunks[g].rows;
        let ghost before = max as nat;
        let mut k: usize = 0;
        assert(rows@.take(0) =~= Seq::empty());
        while k < rows.len()
            invariant
                k <= rows@.len(),
                max == largest(rows@.take(k as int), before),
            decreases rows@.len() - k,
        {
            assert(rows@.take(k + 1).drop_last() =~= rows@.take(k as int));
            if let Some(n) = rows[k].old_no {
                if n > max {
                    max = n;
                }
            }
            if let Some(n) = rows[k].new_no {
                if n > max {
                    max = n;
                }
            }
            k += 1;
        }
        assert(rows@.take(k as int) =~= rows@);
        assert(hunks@.take(g + 1).drop_last() =~= hunks@.take(g as int));
        g += 1;
    }
    assert(hunks@.take(g as int) =~= hunks@);
    max
}

impl Geometry {
    /// The measures for `hunks` at `opts`.
    pub fn new(hunks: &Vec<PaintedHunk>, opts: &LayoutOpts) -> (r: Geometry)
        ensures
            r@ == frame(hunks@, *opts),
            r.num_w <= 20,
            r.col <= opts.width || r.col == 1,
    {
        let max_no: usize = max_number(hunks);
        proof {
            text::lemma_digits_u64(max_no as u64);
        }
        let len: usize = text::char_count(text::decimal(max_no as u64).as_str());
        let num_w: usize = if len < 3 {
            3
        } else {
            len
        };
        let width: usize = opts.width as usize;
        let col: usize = match opts.mode.effective(opts.width) {
            // Each side is `num_w + 1 + 1 + col`; the separator is 3 wide.
            ViewMode::SideBySide => width.saturating_sub(2 * num_w + 7) / 2,
            // `old new marker text`.
            ViewMode::Unified => width.saturating_sub(2 * num_w + 3),
        };
        Geometry {
            width,
            num_w,
            col: if col == 0 {
                1
            } else {
                col
            },
        }
    }
}

/// Whether the measures are ones a layout can have.
pub open spec fn measured(g: Geometry) -> bool {
    g.num_w <= 20 && g.col <= u16::MAX
}

/// The separator between the two sides of a split layout.
pub open spec fn separator_span() -> (Seq<char>, Style) {
    (" │ "@, Style { fg: Some(GUTTER_FG), ..style::plain() })
}

/// The rule above a hunk.
pub open spec fn rule_line(width: nat, header: Seq<char>) -> Seq<(Seq<char>, Style)> {
    let lead = "── "@ + header + " "@;
    let fill = columns::room(width, columns::cols(lead));
    seq![(lead + text::copies('─', fill), Style { fg: Some(GUTTER_FG), ..style::plain() })]
}

/// One side of one visual line in a split layout; blank without a row, and
/// below a row that has fewer visual lines than the one it faces.
pub open spec fn side_spans(
    f: Frame,
    row: Option<PaintedRow>,
    no: Option<usize>,
    i: int,
    wrap: bool,
) -> Seq<(Seq<char>, Style)> {
    match row {
        Some(r) => {
            let rs = row_style(r.kind);
            let lines = chunked(seg_views(r.segs@), f.col, wrap);
            if i < lines.len() {
                cell_text(f, seq![no], i == 0, lines[i], rs) + padding(f, lines[i], rs)
            } else {
                seq![(text::copies(' ', side_width(f)), base_style(rs))]
            }
        },
        None => seq![(text::copies(' ', side_width(f)), style::plain())],
    }
}

/// How many visual lines a row has; one without a row.
pub open spec fn side_count(f: Frame, row: Option<PaintedRow>, wrap: bool) -> nat {
    match row {
        Some(r) => chunked(seg_views(r.segs@), f.col, wrap).len(),
        None => 1,
    }
}

/// The number of a row on the old side.
pub open spec fn left_number(row: Option<PaintedRow>) -> Option<usize> {
    match row {
        Some(r) => r.old_no,
        None => None,
    }
}

/// The number of a row on the new side.
pub open spec fn right_number(row: Option<PaintedRow>) -> Option<usize> {
    match row {
        Some(r) => r.new_no,
        None => None,
    }
}

/// One visual line of a split layout.
pub open spec fn split_line(
    f: Frame,
    left: Option<PaintedRow>,
    right: Option<PaintedRow>,
    i: int,
    wrap: bool,
) -> Seq<(Seq<char>, Style)> {
    side_spans(f, left, left_number(left), i, wrap) + seq![separator_span()] + side_spans(
        f,
        right,
        right_number(right),
        i,
        wrap,
    )
}

/// Two rows facing each other in a split layout.
pub open spec fn split_lines(
    f: Frame,
    left: Option<PaintedRow>,
    right: Option<PaintedRow>,
    wrap: bool,
) -> Seq<Seq<(Seq<char>, Style)>> {
    let a = side_count(f, left, wrap);
    let b = side_count(f, right, wrap);
    Seq::new(
        if a > b {
            a
        } else {
            b
        },
        |i: int| split_line(f, left, right, i, wrap),
    )
}

impl Geometry {
    fn side_w(&self) -> (n: usize)
        requires
            measured(*self),
        ensures
            n == side_width(self@),
    {
        self.num_w + 2 + self.col
    }

    fn separator(&self) -> (r: Span)
        ensures
            r@ == separator_span(),
    {
        Span::styled(" │ ".to_owned(), Style::new().fg(GUTTER_FG))
    }

    fn gutter(&self, no: Option<usize>, base: Style) -> (r: Span)
        requires
            measured(*self),
        ensures
            r@ == (
                gutter_text(no, self.num_w as nat),
                (Style { fg: Some(GUTTER_FG), ..base }),
            ),
    {
        let label = match no {
            Some(n) => {
                let digits = text::decimal(n as u64);
                let len: usize = text::char_count(digits.as_str());
                let mut s = text::repeated(' ', self.num_w.saturating_sub(len));
                s.append(digits.as_str());
                s.append(" ");
                s
            },
            None => text::repeated(' ', self.num_w + 1),
        };
        Span::styled(label, base.fg(GUTTER_FG))
    }

    /// `gutter marker text padding`, one visual line of one side.
    fn cell(
        &self,
        gutters: &Vec<Option<usize>>,
        first: bool,
        line: &Vec<Seg>,
        rs: &RowStyle,
        padded: bool,
    ) -> (spans: Vec<Span>)
        requires
            measured(*self),
        ensures
            style::span_views(spans@) == cell_text(
                self@,
                gutters@,
                first,
                seg_views(line@),
                *rs,
            ) + if padded {
                padding(self@, seg_views(line@), *rs)
            } else {
                Seq::empty()
            },
    {
        let base = rs.base();
        let ghost g = gutters_drawn(self@, gutters@, first, *rs);
        let ghost r = runs_drawn(seg_views(line@), *rs);
        let mut spans: Vec<Span> = Vec::new();
        let mut i: usize = 0;
        while i < gutters.len()
            invariant
                i <= gutters@.len(),
                measured(*self),
                base == base_style(*rs),
                g == gutters_drawn(self@, gutters@, first, *rs),
                style::span_views(spans@) == g.take(i as int),
            decreases gutters@.len() - i,
        {
            let span = self.gutter(
                if first {
                    gutters[i]
                } else {
                    None
                },
                base,
            );
            proof {
                lemma_push_span(spans@, span);
                assert(g.take(i + 1) =~= g.take(i as int).push(span@));
            }
            spans.push(span);
            i += 1;
        }
        assert(g.take(i as int) =~= g);
        let marker = if first {
            rs.marker
        } else {
            ' '
        };
        let span = Span::styled(text::repeated(marker, 1), base);
        proof {
            lemma_push_span(spans@, span);
            assert(text::copies(marker, 1) =~= seq![marker]);
        }
        spans.push(span);
        let ghost lead = style::span_views(spans@);
        let mut k: usize = 0;
        assert(lead + r.take(0) =~= lead);
        while k < line.len()
            invariant
                k <= line@.len(),
                r == runs_drawn(seg_views(line@), *rs),
                style::span_views(spans@) == lead + r.take(k as int),
            decreases line@.len() - k,
        {
            let span = Span::styled(line[k].text.clone(), rs.seg_style(&line[k]));
            proof {
                lemma_push_span(spans@, span);
                assert(r.take(k + 1) =~= r.take(k as int).push(span@));
            }
            spans.push(span);
            k += 1;
        }
        assert(r.take(k as int) =~= r);
        if padded {
            let pad: usize = spare(line, self.col);
            if pad > 0 {
                let span = Span::styled(text::repeated(' ', pad), base);
                proof {
                    lemma_push_span(spans@, span);
                }
                spans.push(span);
            }
        }
        spans
    }

    fn hunk_rule(&self, header: &str) -> (r: Line)
        ensures
            r@ == rule_line(self.width as nat, header@),
    {
        let mut s = "── ".to_owned();
        s.append(header);
        s.append(" ");
        let fill: usize = self.width.saturating_sub(columns::width(s.as_str()));
        s.append(text::repeated('─', fill).as_str());
        Line::of(Span::styled(s, Style::new().fg(GUTTER_FG)))
    }

    fn unified_row(&self, row: &PaintedRow, wrap: bool) -> (lines: Vec<Line>)
        requires
            measured(*self),
        ensures
            style::line_views(lines@) == unified_lines(self@, *row, wrap),
    {
        let rs = RowStyle::for_kind(row.kind);
        let cut = chunks(&row.segs, self.col, wrap);
        let ghost want = unified_lines(self@, *row, wrap);
        let mut gutters: Vec<Option<usize>> = Vec::new();
        gutters.push(row.old_no);
        gutters.push(row.new_no);
        assert(gutters@ =~= seq![row.old_no, row.new_no]);
        let mut lines: Vec<Line> = Vec::new();
        let mut i: usize = 0;
        while i < cut.len()
            invariant
                i <= cut@.len(),
                measured(*self),
                rs == row_style(row.kind),
                gutters@ == seq![row.old_no, row.new_no],
                chunk_views(cut@) == chunked(seg_views(row.segs@), self.col as nat, wrap),
                want == unified_lines(self@, *row, wrap),
                style::line_views(lines@) == want.take(i as int),
            decreases cut@.len() - i,
        {
            let spans = self.cell(&gutters, i == 0, &cut[i], &rs, rs.bg.is_some());
            let line = Line { spans };
            proof {
                assert(chunk_views(cut@)[i as int] == seg_views(cut@[i as int]@));
                assert(line@ =~= want[i as int]);
                lemma_push_line(lines@, line);
                assert(want.take(i + 1) =~= want.take(i as int).push(line@));
            }
            lines.push(line);
            i += 1;
        }
        assert(want.take(i as int) =~= want);
        lines
    }

    fn side(
        &self,
        row: Option<&PaintedRow>,
        no: Option<usize>,
        cut: &Vec<Vec<Seg>>,
        i: usize,
        wrap: bool,
    ) -> (spans: Vec<Span>)
        requires
            measured(*self),
            row matches Some(r) ==> chunk_views(cut@) == chunked(
                seg_views(r.segs@),
                self.col as nat,
                wrap,
            ),
        ensures
            style::span_views(spans@) == side_spans(self@, opt_row(row), no, i as int, wrap),
    {
        match row {
            Some(r) => {
                let rs = RowStyle::for_kind(r.kind);
                if i < cut.len() {
                    let mut gutters: Vec<Option<usize>> = Vec::new();
                    gutters.push(no);
                    assert(gutters@ =~= seq![no]);
                    assert(chunk_views(cut@)[i as int] == seg_views(cut@[i as int]@));
                    self.cell(&gutters, i == 0, &cut[i], &rs, true)
                } else {
                    let span = Span::styled(text::repeated(' ', self.side_w()), rs.base());
                    one_span(span)
                }
            },
            None => one_span(Span::raw(text::repeated(' ', self.side_w()))),
        }
    }

    fn split_row(
        &self,
        left: Option<&PaintedRow>,
        right: Option<&PaintedRow>,
        wrap: bool,
    ) -> (lines: Vec<Line>)
        requires
            measured(*self),
        ensures
            style::line_views(lines@) == split_lines(self@, opt_row(left), opt_row(right), wrap),
    {
        let ghost want = split_lines(self@, opt_row(left), opt_row(right), wrap);
        let left_cut = self.cut(left, wrap);
        let right_cut = self.cut(right, wrap);
        let left_no = match left {
            Some(r) => r.old_no,
            None => None,
        };
        let right_no = match right {
            Some(r) => r.new_no,
            None => None,
        };
        let a: usize = if left.is_some() {
            left_cut.len()
        } else {
            1
        };
        let b: usize = if right.is_some() {
            right_cut.len()
        } else {
            1
        };
        let n: usize = if a > b {
            a
        } else {
            b
        };
        proof {
            assert(chunk_views(left_cut@).len() == left_cut@.len());
            assert(chunk_views(right_cut@).len() == right_cut@.len());
            assert(n == want.len());
        }
        let mut lines: Vec<Line> = Vec::new();
        let mut i: usize = 0;
        while i < n
            invariant
                i <= n,
                n == want.len(),
                measured(*self),
                want == split_lines(self@, opt_row(left), opt_row(right), wrap),
                left_no == left_number(opt_row(left)),
                right_no == right_number(opt_row(right)),
                left matches Some(r) ==> chunk_views(left_cut@) == chunked(
                    seg_views(r.segs@),
                    self.col as nat,
                    wrap,
                ),
                right matches Some(r) ==> chunk_views(right_cut@) == chunked(
                    seg_views(r.segs@),
                    self.col as nat,
                    wrap,
                ),
                style::line_views(lines@) == want.take(i as int),
            decreases n - i,
        {
            let mut spans = self.side(left, left_no, &left_cut, i, wrap);
            let ghost l = style::span_views(spans@);
            let separator = self.separator();
            proof {
                lemma_push_span(spans@, separator);
            }
            spans.push(separator);
            let mut more = self.side(right, right_no, &right_cut, i, wrap);
            let ghost r = style::span_views(more@);
            spans.append(&mut more);
            let line = Line { spans };
            proof {
                assert(line@ =~= l + seq![separator_span()] + r);
                lemma_push_line(lines@, line);
                assert(want.take(i + 1) =~= want.take(i as int).push(line@));
            }
            lines.push(line);
            i += 1;
        }
        assert(want.take(i as int) =~= want);
        lines
    }

    fn cut(&self, row: Option<&PaintedRow>, wrap: bool) -> (r: Vec<Vec<Seg>>)
        ensures
            row matches Some(p) ==> chunk_views(r@) == chunked(
                seg_views(p.segs@),
                self.col as nat,
                wrap,
            ),
    {
        match row {
            Some(p) => chunks(&p.segs, self.col, wrap),
            None => Vec::new(),
        }
    }
}

/// The row a reference that is there points to.
pub open spec fn opt_row(row: Option<&PaintedRow>) -> Option<PaintedRow> {
    match row {
        Some(r) => Some(*r),
        None => None,
    }
}

fn one_span(span: Span) -> (spans: Vec<Span>)
    ensures
        style::span_views(spans@) == seq![span@],
{
    let mut spans: Vec<Span> = Vec::new();
    spans.push(span);
    assert(style::span_views(spans@) =~= seq![span@]);
    spans
}

proof fn lemma_push_span(spans: Seq<Span>, span: Span)
    ensures
        style::span_views(spans.push(span)) == style::span_views(spans).push(span@),
{
    assert(style::span_views(spans.push(span)) =~= style::span_views(spans).push(span@));
}

proof fn lemma_push_line(lines: Seq<Line>, line: Line)
    ensures
        style::line_views(lines.push(line)) == style::line_views(lines).push(line@),
{
    assert(style::line_views(lines.push(line)) =~= style::line_views(lines).push(line@));
}

/// The columns of `col` that a line leaves.
fn spare(line: &Vec<Seg>, col: usize) -> (r: usize)
    ensures
        r == columns::room(col as nat, used(seg_views(line@))),
{
    let ghost all = seg_views(line@);
    let mut left: usize = col;
    let mut i: usize = 0;
    while i < line.len()
        invariant
            i <= line@.len(),
            left <= col,
            all == seg_views(line@),
            left == columns::room(col as nat, used(all.take(i as int))),
        decreases line@.len() - i,
    {
        assert(all.take(i + 1).drop_last() =~= all.take(i as int));
        left = left.saturating_sub(columns::width(line[i].text.as_str()));
        i += 1;
    }
    assert(all.take(i as int) =~= all);
    left
}

/// How many rows of `kind` follow each other from `at` on.
pub open spec fn run_len(rows: Seq<PaintedRow>, kind: RowKind, at: int) -> nat
    decreases rows.len() - at,
{
    if 0 <= at < rows.len() && rows[at].kind == kind {
        1 + run_len(rows, kind, at + 1)
    } else {
        0
    }
}

/// Which rows face each other in a split layout from row `at` on: a row that
/// stays faces itself; a run of deletes followed by a run of inserts is paired
/// line for line, and the longer run faces blanks.
pub open spec fn pairs(rows: Seq<PaintedRow>, at: int) -> Seq<(Option<PaintedRow>, Option<PaintedRow>)>
    decreases rows.len() - at,
{
    if at < 0 || at >= rows.len() {
        Seq::empty()
    } else if rows[at].kind is Equal {
        seq![(Some(rows[at]), Some(rows[at]))] + pairs(rows, at + 1)
    } else {
        let dels = run_len(rows, RowKind::Delete, at) as int;
        let ins = run_len(rows, RowKind::Insert, at + dels) as int;
        proof {
            lemma_run_len(rows, RowKind::Delete, at);
            lemma_run_len(rows, RowKind::Insert, at + dels);
        }
        paired(rows, at, dels, ins) + pairs(rows, at + dels + ins)
    }
}

/// `dels` rows from `at` on beside the `ins` rows that follow them.
pub open spec fn paired(rows: Seq<PaintedRow>, at: int, dels: int, ins: int) -> Seq<
    (Option<PaintedRow>, Option<PaintedRow>),
> {
    Seq::new(
        (if dels > ins {
            dels
        } else {
            ins
        }) as nat,
        |k: int|
            (
                if k < dels {
                    Some(rows[at + k])
                } else {
                    None
                },
                if k < ins {
                    Some(rows[at + dels + k])
                } else {
                    None
                },
            ),
    )
}

/// A run stays within the rows, and no row of its kind follows it.
pub proof fn lemma_run_len(rows: Seq<PaintedRow>, kind: RowKind, at: int)
    requires
        0 <= at <= rows.len(),
    ensures
        at + run_len(rows, kind, at) <= rows.len(),
        forall|k: int|
            at <= k < at + run_len(rows, kind, at) ==> (#[trigger] rows[k]).kind == kind,
        at + run_len(rows, kind, at) < rows.len() ==> rows[at + run_len(rows, kind, at)].kind
            != kind,
    decreases rows.len() - at,
{
    if at < rows.len() && rows[at].kind == kind {
        lemma_run_len(rows, kind, at + 1);
    }
}

fn count_run(rows: &Vec<PaintedRow>, kind: RowKind, at: usize) -> (n: usize)
    requires
        at <= rows@.len(),
    ensures
        n == run_len(rows@, kind, at as int),
        at + n <= rows@.len(),
{
    let mut i: usize = at;
    while i < rows.len() && rows[i].kind == kind
        invariant
            at <= i <= rows@.len(),
            run_len(rows@, kind, at as int) == i - at + run_len(rows@, kind, i as int),
        decreases rows@.len() - i,
    {
        i += 1;
    }
    i - at
}

/// The lines of some pairs of rows.
pub open spec fn pair_lines(
    f: Frame,
    ps: Seq<(Option<PaintedRow>, Option<PaintedRow>)>,
    wrap: bool,
) -> Seq<Seq<(Seq<char>, Style)>>
    decreases ps.len(),
{
    if ps.len() == 0 {
        Seq::empty()
    } else {
        pair_lines(f, ps.drop_last(), wrap) + split_lines(f, ps.last().0, ps.last().1, wrap)
    }
}

proof fn lemma_pair_lines_join(
    f: Frame,
    a: Seq<(Option<PaintedRow>, Option<PaintedRow>)>,
    b: Seq<(Option<PaintedRow>, Option<PaintedRow>)>,
    wrap: bool,
)
    ensures
        pair_lines(f, a + b, wrap) == pair_lines(f, a, wrap) + pair_lines(f, b, wrap),
    decreases b.len(),
{
    if b.len() == 0 {
        assert(a + b =~= a);
        assert(pair_lines(f, a, wrap) + pair_lines(f, b, wrap) =~= pair_lines(f, a, wrap));
    } else {
        assert((a + b).drop_last() =~= a + b.drop_last());
        lemma_pair_lines_join(f, a, b.drop_last(), wrap);
        assert(pair_lines(f, a + b, wrap) =~= pair_lines(f, a, wrap) + pair_lines(f, b, wrap));
    }
}

proof fn lemma_one_pair(
    f: Frame,
    left: Option<PaintedRow>,
    right: Option<PaintedRow>,
    wrap: bool,
)
    ensures
        pair_lines(f, seq![(left, right)], wrap) == split_lines(f, left, right, wrap),
{
    let one = seq![(left, right)];
    assert(one.drop_last() =~= Seq::empty());
    assert(pair_lines(f, one.drop_last(), wrap) =~= Seq::empty());
    assert(pair_lines(f, one, wrap) =~= split_lines(f, left, right, wrap));
}

/// The lines of some rows in a unified layout.
pub open spec fn all_unified(f: Frame, rows: Seq<PaintedRow>, wrap: bool) -> Seq<
    Seq<(Seq<char>, Style)>,
>
    decreases rows.len(),
{
    if rows.len() == 0 {
        Seq::empty()
    } else {
        all_unified(f, rows.drop_last(), wrap) + unified_lines(f, rows.last(), wrap)
    }
}

/// The lines of one hunk below its rule.
pub open spec fn hunk_lines(f: Frame, mode: ViewMode, rows: Seq<PaintedRow>, wrap: bool) -> Seq<
    Seq<(Seq<char>, Style)>,
> {
    match mode {
        ViewMode::Unified => all_unified(f, rows, wrap),
        ViewMode::SideBySide => pair_lines(f, pairs(rows, 0), wrap),
    }
}

/// The lines of some hunks, each with a rule above it.
pub open spec fn laid_out(
    f: Frame,
    mode: ViewMode,
    hunks: Seq<PaintedHunk>,
    wrap: bool,
) -> Seq<Seq<(Seq<char>, Style)>>
    decreases hunks.len(),
{
    if hunks.len() == 0 {
        Seq::empty()
    } else {
        laid_out(f, mode, hunks.drop_last(), wrap).push(rule_line(f.width, hunks.last().header@))
            + hunk_lines(f, mode, hunks.last().rows@, wrap)
    }
}

/// Adds `more` to `lines`.
fn extend(lines: &mut Vec<Line>, more: Vec<Line>)
    ensures
        style::line_views(final(lines)@) == style::line_views(old(lines)@) + style::line_views(
            more@,
        ),
{
    let mut more = more;
    let ghost a = style::line_views(lines@);
    let ghost b = style::line_views(more@);
    lines.append(&mut more);
    assert(style::line_views(lines@) =~= a + b);
}

impl Geometry {
    fn unified_rows(&self, rows: &Vec<PaintedRow>, wrap: bool) -> (lines: Vec<Line>)
        requires
            measured(*self),
        ensures
            style::line_views(lines@) == all_unified(self@, rows@, wrap),
    {
        let mut lines: Vec<Line> = Vec::new();
        let mut i: usize = 0;
        assert(rows@.take(0) =~= Seq::empty());
        assert(style::line_views(lines@) =~= Seq::empty());
        while i < rows.len()
            invariant
                i <= rows@.len(),
                measured(*self),
                style::line_views(lines@) == all_unified(self@, rows@.take(i as int), wrap),
            decreases rows@.len() - i,
        {
            assert(rows@.take(i + 1).drop_last() =~= rows@.take(i as int));
            extend(&mut lines, self.unified_row(&rows[i], wrap));
            i += 1;
        }
        assert(rows@.take(i as int) =~= rows@);
        lines
    }

    fn split_block(&self, rows: &Vec<PaintedRow>, at: usize, dels: usize, ins: usize, wrap: bool)
        -> (lines: Vec<Line>)
        requires
            measured(*self),
            at + dels + ins <= rows@.len(),
        ensures
            style::line_views(lines@) == pair_lines(
                self@,
                paired(rows@, at as int, dels as int, ins as int),
                wrap,
            ),
    {
        let n: usize = if dels > ins {
            dels
        } else {
            ins
        };
        let ghost block = paired(rows@, at as int, dels as int, ins as int);
        let mut lines: Vec<Line> = Vec::new();
        let mut k: usize = 0;
        assert(block.take(0) =~= Seq::empty());
        assert(style::line_views(lines@) =~= Seq::empty());
        while k < n
            invariant
                k <= n,
                measured(*self),
                n == block.len(),
                block == paired(rows@, at as int, dels as int, ins as int),
                at + dels + ins <= rows.len(),
                style::line_views(lines@) == pair_lines(self@, block.take(k as int), wrap),
            decreases n - k,
        {
            let left = if k < dels {
                Some(&rows[at + k])
            } else {
                None
            };
            let right = if k < ins {
                Some(&rows[at + dels + k])
            } else {
                None
            };
            extend(&mut lines, self.split_row(left, right, wrap));
            proof {
                assert(block.take(k + 1).drop_last() =~= block.take(k as int));
                assert(block[k as int] == (opt_row(left), opt_row(right)));
            }
            k += 1;
        }
        assert(block.take(k as int) =~= block);
        lines
    }

    fn split_rows(&self, rows: &Vec<PaintedRow>, wrap: bool) -> (lines: Vec<Line>)
        requires
            measured(*self),
        ensures
            style::line_views(lines@) == pair_lines(self@, pairs(rows@, 0), wrap),
    {
        let ghost all = pair_lines(self@, pairs(rows@, 0), wrap);
        let mut lines: Vec<Line> = Vec::new();
        let mut i: usize = 0;
        assert(style::line_views(lines@) + all =~= all);
        while i < rows.len()
            invariant
                i <= rows@.len(),
                measured(*self),
                all == style::line_views(lines@) + pair_lines(
                    self@,
                    pairs(rows@, i as int),
                    wrap,
                ),
            decreases rows@.len() - i,
        {
            let ghost before = style::line_views(lines@);
            match rows[i].kind {
                RowKind::Equal => {
                    let more = self.split_row(Some(&rows[i]), Some(&rows[i]), wrap);
                    proof {
                        let one = seq![(Some(rows@[i as int]), Some(rows@[i as int]))];
                        let tail = pairs(rows@, i + 1);
                        lemma_pair_lines_join(self@, one, tail, wrap);
                        lemma_one_pair(self@, Some(rows@[i as int]), Some(rows@[i as int]), wrap);
                        assert(before + (style::line_views(more@) + pair_lines(self@, tail, wrap))
                            =~= (before + style::line_views(more@)) + pair_lines(
                            self@,
                            tail,
                            wrap,
                        ));
                    }
                    extend(&mut lines, more);
                    i += 1;
                },
                _ => {
                    let dels: usize = count_run(rows, RowKind::Delete, i);
                    let ins: usize = count_run(rows, RowKind::Insert, i + dels);
                    let more = self.split_block(rows, i, dels, ins, wrap);
                    proof {
                        let block = paired(rows@, i as int, dels as int, ins as int);
                        let tail = pairs(rows@, i + dels + ins);
                        lemma_pair_lines_join(self@, block, tail, wrap);
                        assert(before + (style::line_views(more@) + pair_lines(self@, tail, wrap))
                            =~= (before + style::line_views(more@)) + pair_lines(
                            self@,
                            tail,
                            wrap,
                        ));
                        if rows@[i as int].kind is Insert {
                            assert(run_len(rows@, RowKind::Insert, i as int) > 0);
                        } else {
                            assert(run_len(rows@, RowKind::Delete, i as int) > 0);
                        }
                    }
                    extend(&mut lines, more);
                    i = i + dels + ins;
                },
            }
        }
        assert(style::line_views(lines@) + Seq::empty() =~= style::line_views(lines@));
        lines
    }
}

/// Stage two: painted hunks arranged for `opts`.
pub fn layout(hunks: &Vec<PaintedHunk>, opts: &LayoutOpts) -> (lines: Vec<Line>)
    ensures
        style::line_views(lines@) == laid_out(
            frame(hunks@, *opts),
            drawn_mode(opts.mode, opts.width),
            hunks@,
            opts.wrap,
        ),
{
    let geo = Geometry::new(hunks, opts);
    let mode = opts.mode.effective(opts.width);
    let mut lines: Vec<Line> = Vec::new();
    let mut g: usize = 0;
    assert(hunks@.take(0) =~= Seq::empty());
    assert(style::line_views(lines@) =~= Seq::empty());
    while g < hunks.len()
        invariant
            g <= hunks@.len(),
            measured(geo),
            style::line_views(lines@) == laid_out(
                geo@,
                mode,
                hunks@.take(g as int),
                opts.wrap,
            ),
        decreases hunks@.len() - g,
    {
        assert(hunks@.take(g + 1).drop_last() =~= hunks@.take(g as int));
        let rule = geo.hunk_rule(hunks[g].header.as_str());
        proof {
            lemma_push_line(lines@, rule);
        }
        lines.push(rule);
        let more = match mode {
            ViewMode::Unified => geo.unified_rows(&hunks[g].rows, opts.wrap),
            ViewMode::SideBySide => geo.split_rows(&hunks[g].rows, opts.wrap),
        };
        extend(&mut lines, more);
        g += 1;
    }
    assert(hunks@.take(g as int) =~= hunks@);
    lines
}

/// A line that stands for a diff that cannot be shown.
pub open spec fn notice_line(s: Seq<char>) -> Seq<(Seq<char>, Style)> {
    seq![(s, Style { dim: true, italic: true, ..style::plain() })]
}

fn notice(s: String) -> (r: Line)
    ensures
        r@ == notice_line(s@),
{
    Line::of(Span::styled(s, Style::new().dim().italic()))
}

/// What stands in place of a diff with nothing to show.
pub open spec fn notice_text(d: DiffResult) -> Option<Seq<char>> {
    match d.kind {
        DiffKind::Binary => Some("(binary file)"@),
        DiffKind::Missing => Some("(file missing after edit)"@),
        _ => if d.hunks@.len() > 0 {
            None
        } else {
            match d.kind {
                DiffKind::Error(m) => Some("(no diff: "@ + m@ + ")"@),
                DiffKind::Created => Some("(empty file created)"@),
                DiffKind::Deleted => Some("(empty file deleted)"@),
                _ => Some("(no changes)"@),
            }
        },
    }
}

/// How many rows of a diff are not shown.
pub open spec fn hidden_rows(d: DiffResult) -> nat {
    columns::room(d.total_rows as nat, MAX_LINES as nat)
}

/// The lines of a card below its header.
pub open spec fn card_body(
    d: DiffResult,
    painted: Seq<PaintedHunk>,
    opts: LayoutOpts,
) -> Seq<Seq<(Seq<char>, Style)>> {
    match notice_text(d) {
        Some(s) => seq![notice_line(s)],
        None => {
            let lines = laid_out(
                frame(painted, opts),
                drawn_mode(opts.mode, opts.width),
                painted,
                opts.wrap,
            );
            if d.truncated {
                lines.push(
                    notice_line("... "@ + text::digits(hidden_rows(d)) + " more lines"@),
                )
            } else {
                lines
            }
        },
    }
}

/// What stands in place of a diff with nothing to show.
fn notice_for(d: &DiffResult) -> (r: Option<String>)
    ensures
        text::opt_text(r) == notice_text(*d),
{
    match &d.kind {
        DiffKind::Binary => Some("(binary file)".to_owned()),
        DiffKind::Missing => Some("(file missing after edit)".to_owned()),
        _ if !d.is_empty() => None,
        DiffKind::Error(m) => {
            let mut s = "(no diff: ".to_owned();
            s.append(m.as_str());
            s.append(")");
            Some(s)
        },
        // An empty diff on a created or deleted file means the file itself is
        // empty; "(no changes)" next to a "Created" header reads as a bug.
        DiffKind::Created => Some("(empty file created)".to_owned()),
        DiffKind::Deleted => Some("(empty file deleted)".to_owned()),
        DiffKind::Modified => Some("(no changes)".to_owned()),
    }
}

fn body_lines(d: &DiffResult, painted: &Vec<PaintedHunk>, opts: &LayoutOpts) -> (lines: Vec<Line>)
    ensures
        style::line_views(lines@) == card_body(*d, painted@, *opts),
{
    match notice_for(d) {
        Some(s) => {
            let line = notice(s);
            let mut lines: Vec<Line> = Vec::new();
            lines.push(line);
            assert(style::line_views(lines@) =~= seq![line@]);
            lines
        },
        None => {
            let mut lines = layout(painted, opts);
            if d.truncated {
                let mut s = "... ".to_owned();
                s.append(text::decimal(d.total_rows.saturating_sub(MAX_LINES) as u64).as_str());
                s.append(" more lines");
                let line = notice(s);
                proof {
                    lemma_push_line(lines@, line);
                }
                lines.push(line);
            }
            lines
        },
    }
}

/// A number below a hundred in two digits.
pub open spec fn two_digits(n: int) -> Seq<char> {
    seq![text::digit((n / 10) as nat), text::digit((n % 10) as nat)]
}

/// The time of day `t` seconds after midnight, as `HH:MM:SS`.
pub open spec fn clock_text(t: int) -> Seq<char> {
    two_digits(t / 3600) + seq![':'] + two_digits(t / 60 % 60) + seq![':'] + two_digits(t % 60)
}

/// The second of the day at a timestamp where clocks are `offset` seconds
/// ahead of UTC.
pub open spec fn day_second(ms: int, offset: int) -> int {
    (ms / 1000 + offset) % 86400
}

/// The timestamps that `chrono` has a date for.
pub open spec fn datable(ms: int) -> bool {
    -8334601228800000 <= ms <= 8210266876799999
}

/// `DateTime::from_timestamp_millis`, then the offset it has
/// `with_timezone(&Local)`: how many seconds the machine's clocks are ahead of
/// UTC at a timestamp, less than a day either way. Which offset it is depends
/// on the machine's time zone and is left open.
#[verifier::external_body]
fn local_offset(ms: i64) -> (r: Option<i32>)
    ensures
        r is Some <==> datable(ms as int),
        r matches Some(o) ==> -86400 < o < 86400,
{
    let t = chrono::DateTime::from_timestamp_millis(ms)?;
    Some(t.with_timezone(&chrono::Local).offset().local_minus_utc())
}

fn push_two_digits(s: &mut String, n: u64)
    requires
        n < 100,
    ensures
        final(s)@ == old(s)@ + two_digits(n as int),
{
    s.push(text::digit_char(n / 10));
    s.push(text::digit_char(n % 10));
    assert(s@ =~= old(s)@ + two_digits(n as int));
}

/// The second of the day at a timestamp where clocks are `offset` seconds
/// ahead of UTC.
fn second_at(ms: i64, offset: i32) -> (t: u64)
    ensures
        t == day_second(ms as int, offset as int),
        t < 86400,
{
    let whole: i64 = ms / 1000;
    let seconds: i64 = if ms % 1000 < 0 {
        whole - 1
    } else {
        whole
    };
    let rest: i64 = (seconds + offset as i64) % 86400;
    if rest < 0 {
        (rest + 86400) as u64
    } else {
        rest as u64
    }
}

/// The time of day at a timestamp where clocks are `offset` seconds ahead of
/// UTC, as `HH:MM:SS`.
pub fn clock_at(ms: i64, offset: i32) -> (r: String)
    ensures
        r@ == clock_text(day_second(ms as int, offset as int)),
{
    let t: u64 = second_at(ms, offset);
    let mut s = String::new();
    push_two_digits(&mut s, t / 3600);
    s.push(':');
    push_two_digits(&mut s, t / 60 % 60);
    s.push(':');
    push_two_digits(&mut s, t % 60);
    assert(s@ =~= clock_text(t as int));
    s
}

/// Whether `s` may stand for the time `ts_ms`: the time of day somewhere, or
/// dashes when there is none.
pub open spec fn shows_time(s: Seq<char>, ts_ms: u64) -> bool {
    if ts_ms != 0 && datable(ts_ms as i64 as int) {
        exists|o: int|
            -86400 < o < 86400 && s == clock_text(#[trigger] day_second(ts_ms as i64 as int, o))
    } else {
        s == "--:--:--"@
    }
}

/// The time of day of a timestamp on this machine, `--:--:--` without one.
pub fn format_time(ts_ms: u64) -> (r: String)
    ensures
        shows_time(r@, ts_ms),
{
    if ts_ms == 0 {
        return "--:--:--".to_owned();
    }
    let ms: i64 = ts_ms as i64;
    match local_offset(ms) {
        Some(o) => clock_at(ms, o),
        None => "--:--:--".to_owned(),
    }
}

/// The last six characters of a session id.
pub open spec fn id_suffix(id: Seq<char>) -> Seq<char> {
    if id.len() <= 6 {
        id
    } else {
        id.skip(id.len() - 6)
    }
}

/// The last six characters of a session id.
pub fn session_suffix(id: &str) -> (r: String)
    ensures
        r@ == id_suffix(id@),
{
    let v = text::chars_of(id);
    let n: usize = v.len();
    let s = text::text_between(&v, n.saturating_sub(6), n);
    assert(s@ =~= id_suffix(id@));
    s
}

/// The bytes of an id folded into 32 bits.
pub open spec fn id_hash(bytes: Seq<u8>) -> nat
    decreases bytes.len(),
{
    if bytes.len() == 0 {
        0
    } else {
        (31 * id_hash(bytes.drop_last()) + bytes.last()) as nat % 0x1_0000_0000
    }
}

/// Colors for session tags; a session keeps its color across cards.
pub open spec fn session_colors() -> Seq<Color> {
    seq![
        Color::Cyan,
        Color::Magenta,
        Color::Yellow,
        Color::Green,
        Color::Blue,
        Color::LightRed,
    ]
}

/// The color of a session.
pub open spec fn id_color(id: Seq<char>) -> Color {
    session_colors()[(id_hash(vstd::utf8::encode_utf8(id)) % 6) as int]
}

/// Deterministic color for a session id, folded from its bytes by hand so that
/// it stays the same across releases.
pub fn session_color(id: &str) -> (r: Color)
    ensures
        r == id_color(id@),
{
    let bytes = id.as_bytes();
    let mut h: u64 = 0;
    let mut i: usize = 0;
    while i < bytes.len()
        invariant
            i <= bytes@.len(),
            h < 0x1_0000_0000,
            h == id_hash(bytes@.take(i as int)),
        decreases bytes@.len() - i,
    {
        assert(bytes@.take(i + 1).drop_last() =~= bytes@.take(i as int));
        h = (31 * h + bytes[i] as u64) % 0x1_0000_0000;
        i += 1;
    }
    assert(bytes@.take(i as int) =~= bytes@);
    match h % 6 {
        0 => Color::Cyan,
        1 => Color::Magenta,
        2 => Color::Yellow,
        3 => Color::Green,
        4 => Color::Blue,
        _ => Color::LightRed,
    }
}

/// The color of a kind in a card's header.
pub open spec fn kind_tint(kind: DiffKind) -> Option<Color> {
    match kind {
        DiffKind::Created => Some(Color::Green),
        DiffKind::Deleted => Some(Color::Red),
        DiffKind::Error(_) | DiffKind::Missing => Some(Color::Yellow),
        DiffKind::Modified | DiffKind::Binary => None,
    }
}

fn kind_color(kind: &DiffKind) -> (r: Option<Color>)
    ensures
        r == kind_tint(*kind),
{
    match kind {
        DiffKind::Created => Some(Color::Green),
        DiffKind::Deleted => Some(Color::Red),
        DiffKind::Error(_) | DiffKind::Missing => Some(Color::Yellow),
        DiffKind::Modified | DiffKind::Binary => None,
    }
}

/// `+N -N`, or `None` when nothing was added or removed.
pub open spec fn stats_text(d: DiffResult) -> Option<Seq<char>> {
    if d.added > 0 || d.removed > 0 {
        Some("+"@ + text::digits(d.added as nat) + " -"@ + text::digits(d.removed as nat))
    } else {
        None
    }
}

/// `+N -N`, or `None` when nothing was added or removed.
fn stats(d: &DiffResult) -> (r: Option<String>)
    ensures
        text::opt_text(r) == stats_text(*d),
{
    if d.added > 0 || d.removed > 0 {
        let mut s = "+".to_owned();
        s.append(text::decimal(d.added as u64).as_str());
        s.append(" -");
        s.append(text::decimal(d.removed as u64).as_str());
        Some(s)
    } else {
        None
    }
}

/// The columns of some characters, each by itself.
pub open spec fn char_sum(s: Seq<char>) -> nat
    decreases s.len(),
{
    if s.len() == 0 {
        0
    } else {
        columns::char_cols(s[0]) + char_sum(s.drop_first())
    }
}

/// The longest end of `s` that fits into `keep` columns.
pub open spec fn fitting_tail(s: Seq<char>, keep: nat) -> Seq<char>
    decreases s.len(),
{
    if s.len() == 0 || char_sum(s) <= keep {
        s
    } else {
        fitting_tail(s.drop_first(), keep)
    }
}

/// `s` cut from the left to `max` columns, marked with `…`.
pub open spec fn elided(s: Seq<char>, max: nat) -> Seq<char> {
    if columns::cols(s) <= max {
        s
    } else {
        "…"@ + fitting_tail(s, columns::room(max, 1))
    }
}

proof fn lemma_fitting_tail(s: Seq<char>, i: int, keep: nat)
    requires
        0 <= i <= s.len(),
        char_sum(s.skip(i)) <= keep,
        i > 0 ==> char_sum(s.skip(i - 1)) > keep,
    ensures
        fitting_tail(s, keep) == s.skip(i),
    decreases i,
{
    if i > 0 {
        let rest = s.drop_first();
        assert(rest.skip(i - 1) =~= s.skip(i));
        if i > 1 {
            assert(rest.skip(i - 2) =~= s.skip(i - 1));
        }
        lemma_fitting_tail(rest, i - 1, keep);
        lemma_char_sum_skip(s, i - 1);
    } else {
        assert(s.skip(0) =~= s);
    }
}

proof fn lemma_char_sum_skip(s: Seq<char>, i: int)
    requires
        0 <= i <= s.len(),
    ensures
        char_sum(s.skip(i)) <= char_sum(s),
    decreases i,
{
    if i > 0 {
        lemma_char_sum_skip(s.drop_first(), i - 1);
        assert(s.drop_first().skip(i - 1) =~= s.skip(i));
    } else {
        assert(s.skip(0) =~= s);
    }
}

/// `s` cut from the left to `max` columns, marked with `…`.
pub fn elide_left(s: &str, max: usize) -> (r: String)
    ensures
        r@ == elided(s@, max as nat),
{
    if columns::width(s) <= max {
        return s.to_owned();
    }
    let keep: usize = max.saturating_sub(1);
    let v = text::chars_of(s);
    let n: usize = v.len();
    let mut i: usize = n;
    let mut taken: usize = 0;
    let mut full = false;
    assert(v@.skip(n as int) =~= Seq::empty());
    while i > 0 && !full
        invariant
            i <= n,
            n == v@.len(),
            taken <= keep,
            taken == char_sum(v@.skip(i as int)),
            full ==> i > 0 && char_sum(v@.skip(i - 1)) > keep,
        decreases
                i,
                if full {
                    0int
                } else {
                    1int
                },
    {
        let w: usize = columns::char_columns_or_none(v[i - 1]);
        assert(v@.skip(i - 1).drop_first() =~= v@.skip(i as int));
        if w > keep - taken {
            full = true;
        } else {
            taken += w;
            i -= 1;
        }
    }
    proof {
        lemma_fitting_tail(v@, i as int, keep as nat);
    }
    let tail = text::text_between(&v, i, n);
    assert(tail@ =~= v@.skip(i as int));
    let mut out = "…".to_owned();
    out.append(tail.as_str());
    out
}

/// A card of the feed.
#[derive(Debug, Clone, PartialEq, Eq)]
pub struct EditCard {
    pub input: CardInput,
    pub painted: Vec<PaintedHunk>,
    pub lines: Vec<Line>,
    pub collapsed: bool,
    /// The time of day of the edit.
    pub time: String,
}

/// `<worktree>:<suffix>` or `<suffix>`; `None` without a session id.
pub open spec fn tag_text(input: CardInput) -> Option<Seq<char>> {
    match (input.session_id, input.worktree) {
        (Some(id), Some(wt)) => Some(wt@ + ":"@ + id_suffix(id@)),
        (Some(id), None) => Some(id_suffix(id@)),
        (None, _) => None,
    }
}

/// What follows the kind in a header: the counts, the subagent, and whether
/// the user changed the edit.
pub open spec fn extra_parts(input: CardInput) -> Seq<Seq<char>> {
    let a = match stats_text(input.diff) {
        Some(s) => seq![s],
        None => Seq::empty(),
    };
    let b = match input.agent {
        Some(s) => seq!["["@ + s@ + "]"@],
        None => Seq::empty(),
    };
    let c = if input.user_modified {
        seq!["(user modified)"@]
    } else {
        Seq::empty()
    };
    a + b + c
}

/// Everything after the path: tool, the time when asked for, kind, and more.
pub open spec fn trailing(input: CardInput, time: Option<Seq<char>>) -> Seq<Seq<char>> {
    seq![input.tool@] + match time {
        Some(t) => seq![t],
        None => Seq::empty(),
    } + seq![diff::kind_label(input.diff.kind)] + extra_parts(input)
}

/// All parts of a header as plain text.
pub open spec fn header_parts(input: CardInput, time: Option<Seq<char>>, tags: bool) -> Seq<
    Seq<char>,
> {
    let rest = seq![input.path@] + trailing(input, time);
    match tag_text(input) {
        Some(tag) => if tags {
            seq![tag] + rest
        } else {
            rest
        },
        None => rest,
    }
}

/// The header as plain text.
pub open spec fn header_plain(input: CardInput, time: Option<Seq<char>>, tags: bool) -> Seq<char> {
    text::joined(header_parts(input, time, tags), " · "@)
}

/// What follows the kind in a header bar.
pub open spec fn after_kind(parts: Seq<Seq<char>>) -> Seq<char>
    decreases parts.len(),
{
    if parts.len() == 0 {
        Seq::empty()
    } else {
        after_kind(parts.drop_last()) + " · "@ + parts.last()
    }
}

/// The style of a header bar.
pub open spec fn bar_style() -> Style {
    Style { bold: true, reversed: true, ..style::plain() }
}

/// The right end of a header bar.
pub open spec fn bar_right(time: Seq<char>) -> Seq<char> {
    " "@ + time + " ──"@
}

/// The tool in a header bar.
pub open spec fn bar_tool(input: CardInput) -> Seq<char> {
    " · "@ + input.tool@ + " · "@
}

/// The left end of a header bar: a rule, and the tag when asked for.
pub open spec fn bar_lead(input: CardInput, tags: bool) -> Seq<(Seq<char>, Style)> {
    let rule = seq![("── "@, bar_style())];
    match (tag_text(input), input.session_id) {
        (Some(tag), Some(id)) => if tags {
            rule + seq![
                (tag, Style { fg: Some(id_color(id@)), ..bar_style() }),
                (" · "@, bar_style()),
            ]
        } else {
            rule
        },
        _ => rule,
    }
}

/// The columns of a header bar that are not for the path.
pub open spec fn bar_fixed(input: CardInput, time: Seq<char>, tags: bool) -> nat {
    style::line_cols(bar_lead(input, tags)) + columns::cols(bar_tool(input)) + columns::cols(
        diff::kind_label(input.diff.kind),
    ) + columns::cols(after_kind(extra_parts(input))) + 1 + columns::cols(bar_right(time))
}

/// The path in a header bar: cut from the left to what room there is, but to
/// no less than four columns.
pub open spec fn bar_path(input: CardInput, time: Seq<char>, width: nat, tags: bool) -> Seq<char> {
    let room = columns::room(width, bar_fixed(input, time, tags));
    elided(
        input.path@,
        if room < 4 {
            4
        } else {
            room
        },
    )
}

/// A header bar up to the rule that fills it.
pub open spec fn bar_start(input: CardInput, time: Seq<char>, width: nat, tags: bool) -> Seq<
    (Seq<char>, Style),
> {
    bar_lead(input, tags) + seq![
        (bar_path(input, time, width, tags), bar_style()),
        (bar_tool(input), bar_style()),
        (
            diff::kind_label(input.diff.kind),
            Style { fg: kind_tint(input.diff.kind), ..bar_style() },
        ),
        (after_kind(extra_parts(input)) + " "@, bar_style()),
    ]
}

/// A header bar: `── tag · path · tool · kind · +N -N · [agent] ────── HH:MM:SS
/// ──`, filled to `width`.
pub open spec fn bar(input: CardInput, time: Seq<char>, width: nat, tags: bool) -> Seq<
    (Seq<char>, Style),
> {
    let start = bar_start(input, time, width, tags);
    let right = bar_right(time);
    let fill = columns::room(width, style::line_cols(start) + columns::cols(right));
    start.push((text::copies('─', fill) + right, bar_style()))
}

/// The parts after the kind.
fn extras(input: &CardInput) -> (r: Vec<String>)
    ensures
        text::texts(r@) == extra_parts(*input),
{
    let mut parts: Vec<String> = Vec::new();
    if let Some(s) = stats(&input.diff) {
        parts.push(s);
    }
    if let Some(a) = &input.agent {
        let mut s = "[".to_owned();
        s.append(a.as_str());
        s.append("]");
        parts.push(s);
    }
    if input.user_modified {
        parts.push("(user modified)".to_owned());
    }
    assert(text::texts(parts@) =~= extra_parts(*input));
    parts
}

/// A tag, when there is a session.
fn tag_of(input: &CardInput) -> (r: Option<String>)
    ensures
        text::opt_text(r) == tag_text(*input),
{
    match &input.session_id {
        Some(id) => {
            let suffix = session_suffix(id.as_str());
            match &input.worktree {
                Some(wt) => {
                    let mut s = wt.clone();
                    s.append(":");
                    s.append(suffix.as_str());
                    Some(s)
                },
                None => Some(suffix),
            }
        },
        None => None,
    }
}

/// The sum of the columns of some spans, as far as it can be counted.
fn spans_width(spans: &Vec<Span>) -> (n: usize)
    ensures
        n == diff::capped(style::line_cols(style::span_views(spans@))),
{
    let ghost all = style::span_views(spans@);
    let mut n: usize = 0;
    let mut i: usize = 0;
    while i < spans.len()
        invariant
            i <= spans@.len(),
            all == style::span_views(spans@),
            n == diff::capped(style::line_cols(all.take(i as int))),
        decreases spans@.len() - i,
    {
        assert(all.take(i + 1).drop_last() =~= all.take(i as int));
        n = n.saturating_add(columns::width(spans[i].content.as_str()));
        i += 1;
    }
    assert(all.take(i as int) =~= all);
    n
}

/// The texts of a header bar besides the path and the tag.
struct BarPieces {
    tool: String,
    kind: String,
    after: String,
    right: String,
}

fn bar_pieces(input: &CardInput, time: &str) -> (r: BarPieces)
    ensures
        r.tool@ == bar_tool(*input),
        r.kind@ == diff::kind_label(input.diff.kind),
        r.after@ == after_kind(extra_parts(*input)),
        r.right@ == bar_right(time@),
{
    let parts = extras(input);
    let mut after = String::new();
    let mut i: usize = 0;
    assert(text::texts(parts@).take(0) =~= Seq::empty());
    while i < parts.len()
        invariant
            i <= parts@.len(),
            after@ == after_kind(text::texts(parts@).take(i as int)),
        decreases parts@.len() - i,
    {
        assert(text::texts(parts@).take(i + 1).drop_last() =~= text::texts(parts@).take(i as int));
        after.append(" · ");
        after.append(parts[i].as_str());
        i += 1;
    }
    assert(text::texts(parts@).take(i as int) =~= text::texts(parts@));
    let mut right = " ".to_owned();
    right.append(time);
    right.append(" ──");
    let mut tool = " · ".to_owned();
    tool.append(input.tool.as_str());
    tool.append(" · ");
    BarPieces { tool, kind: input.diff.kind.label(), after, right }
}

fn lead_spans(input: &CardInput, tags: bool) -> (spans: Vec<Span>)
    ensures
        style::span_views(spans@) == bar_lead(*input, tags),
{
    let base = Style::new().bold().reversed();
    let mut spans: Vec<Span> = Vec::new();
    spans.push(Span::styled("── ".to_owned(), base));
    if tags {
        if let Some(id) = &input.session_id {
            if let Some(tag) = tag_of(input) {
                spans.push(Span::styled(tag, base.fg(session_color(id.as_str()))));
                spans.push(Span::styled(" · ".to_owned(), base));
            }
        }
    }
    assert(style::span_views(spans@) =~= bar_lead(*input, tags));
    spans
}

fn fixed_width(lead: &Vec<Span>, pieces: &BarPieces) -> (n: usize)
    ensures
        n == diff::capped(
            style::line_cols(style::span_views(lead@)) + columns::cols(pieces.tool@)
                + columns::cols(pieces.kind@) + columns::cols(pieces.after@) + 1 + columns::cols(
                pieces.right@,
            ),
        ),
{
    let mut n: usize = spans_width(lead);
    n = n.saturating_add(columns::width(pieces.tool.as_str()));
    n = n.saturating_add(columns::width(pieces.kind.as_str()));
    n = n.saturating_add(columns::width(pieces.after.as_str()));
    n = n.saturating_add(1);
    n.saturating_add(columns::width(pieces.right.as_str()))
}

impl EditCard {
    /// A card of an edit, laid out for `opts`.
    pub fn new(input: CardInput, painter: &Painter, opts: &LayoutOpts) -> (r: EditCard)
        ensures
            r.input == input,
            is_painting(
                r.painted@,
                input.diff.hunks@,
                fresh(card_syntax(input, painter.syntaxes), painter.theme),
                painter.syntaxes,
            ),
            style::line_views(r.lines@) == card_body(input.diff, r.painted@, *opts),
            !r.collapsed,
            shows_time(r.time@, input.ts),
    {
        let painted = paint(&input, painter);
        let lines = body_lines(&input.diff, &painted, opts);
        let time = format_time(input.ts);
        EditCard { input, painted, lines, collapsed: false, time }
    }

    /// Lays the card out anew.
    pub fn rerender(&mut self, opts: &LayoutOpts)
        ensures
            style::line_views(final(self).lines@) == card_body(
                old(self).input.diff,
                old(self).painted@,
                *opts,
            ),
            *final(self) == (EditCard { lines: final(self).lines, ..*old(self) }),
    {
        self.lines = body_lines(&self.input.diff, &self.painted, opts);
    }

    /// `<worktree>:<suffix>` or `<suffix>`; `None` without a session id.
    pub fn tag(&self) -> (r: Option<String>)
        ensures
            text::opt_text(r) == tag_text(self.input),
    {
        tag_of(&self.input)
    }

    /// Header without the timestamp; stable across machines.
    pub fn summary(&self, tags: bool) -> (r: String)
        ensures
            r@ == header_plain(self.input, None, tags),
    {
        self.header_string(false, tags)
    }

    pub fn header_text(&self, tags: bool) -> (r: String)
        ensures
            r@ == header_plain(self.input, Some(self.time@), tags),
    {
        self.header_string(true, tags)
    }

    /// Everything after the path: tool, [time], kind, [stats], [agent], [note].
    fn trailing_parts(&self, with_time: bool) -> (r: Vec<String>)
        ensures
            text::texts(r@) == trailing(
                self.input,
                if with_time {
                    Some(self.time@)
                } else {
                    None
                },
            ),
    {
        let mut parts: Vec<String> = Vec::new();
        parts.push(self.input.tool.clone());
        if with_time {
            parts.push(self.time.clone());
        }
        parts.push(self.input.diff.kind.label());
        let mut more = extras(&self.input);
        let ghost a = text::texts(parts@);
        let ghost b = text::texts(more@);
        parts.append(&mut more);
        assert(text::texts(parts@) =~= a + b);
        assert(text::texts(parts@) =~= trailing(
            self.input,
            if with_time {
                Some(self.time@)
            } else {
                None
            },
        ));
        parts
    }

    fn header_string(&self, with_time: bool, tags: bool) -> (r: String)
        ensures
            r@ == header_plain(
                self.input,
                if with_time {
                    Some(self.time@)
                } else {
                    None
                },
                tags,
            ),
    {
        let mut parts: Vec<String> = Vec::new();
        if tags {
            if let Some(tag) = self.tag() {
                parts.push(tag);
            }
        }
        parts.push(self.input.path.clone());
        let mut more = self.trailing_parts(with_time);
        let ghost a = text::texts(parts@);
        let ghost b = text::texts(more@);
        parts.append(&mut more);
        assert(text::texts(parts@) =~= a + b);
        assert(text::texts(parts@) =~= header_parts(
            self.input,
            if with_time {
                Some(self.time@)
            } else {
                None
            },
            tags,
        ));
        text::join(&parts, " · ")
    }

    /// One reversed bar padded to `width`: `── tag · path · tool · kind ·
    /// +N -N · [agent] ────── HH:MM:SS ──`. The tag and the kind are colored
    /// badges; a path that does not fit is cut from the left.
    pub fn header_line(&self, width: u16, tags: bool) -> (r: Line)
        ensures
            r@ == bar(self.input, self.time@, width as nat, tags),
    {
        let base = Style::new().bold().reversed();
        let width: usize = width as usize;
        let kind_style = match kind_color(&self.input.diff.kind) {
            Some(c) => base.fg(c),
            None => base,
        };
        let pieces = bar_pieces(&self.input, self.time.as_str());
        let mut spans = lead_spans(&self.input, tags);
        let fixed: usize = fixed_width(&spans, &pieces);
        let path_max: usize = width.saturating_sub(fixed);
        let path = elide_left(
            self.input.path.as_str(),
            if path_max < 4 {
                4
            } else {
                path_max
            },
        );
        let BarPieces { tool, kind, mut after, right } = pieces;
        after.append(" ");
        let ghost lead = style::span_views(spans@);
        spans.push(Span::styled(path, base));
        spans.push(Span::styled(tool, base));
        spans.push(Span::styled(kind, kind_style));
        spans.push(Span::styled(after, base));
        let ghost start = bar_start(self.input, self.time@, width as nat, tags);
        assert(style::span_views(spans@) =~= start);
        let taken: usize = spans_width(&spans).saturating_add(columns::width(right.as_str()));
        let mut end = text::repeated('─', width.saturating_sub(taken));
        end.append(right.as_str());
        let span = Span::styled(end, base);
        proof {
            lemma_push_span(spans@, span);
        }
        spans.push(span);
        Line { spans }
    }

    /// Body with styling stripped, one string per line.
    pub fn body_plain(&self) -> (r: Vec<String>)
        ensures
            text::texts(r@) == style::line_views(self.lines@).map_values(
                |l: Seq<(Seq<char>, Style)>| style::line_text(l),
            ),
    {
        let ghost want = style::line_views(self.lines@).map_values(
            |l: Seq<(Seq<char>, Style)>| style::line_text(l),
        );
        let mut out: Vec<String> = Vec::new();
        let mut i: usize = 0;
        while i < self.lines.len()
            invariant
                i <= self.lines@.len(),
                want == style::line_views(self.lines@).map_values(
                    |l: Seq<(Seq<char>, Style)>| style::line_text(l),
                ),
                text::texts(out@) == want.take(i as int),
            decreases self.lines@.len() - i,
        {
            let ghost before = text::texts(out@);
            let s = self.lines[i].text();
            let ghost v = s@;
            out.push(s);
            assert(text::texts(out@) =~= before.push(v));
            assert(want.take(i + 1) =~= before.push(v));
            i += 1;
        }
        assert(want.take(i as int) =~= want);
        out
    }
}

/// The characters of several visual lines, one after the other.
pub open spec fn joined_cells(lines: Seq<Seq<(Seq<char>, Option<Color>, bool)>>) -> Seq<
    (char, Option<Color>, bool),
>
    decreases lines.len(),
{
    if lines.len() == 0 {
        Seq::empty()
    } else {
        joined_cells(lines.drop_last()) + cells(lines.last())
    }
}

proof fn lemma_wrapped_cells(g: Seq<(Seq<char>, Option<Color>, bool)>, limit: nat)
    ensures
        wrapped(g, limit).len() > 0,
        joined_cells(wrapped(g, limit)) == cells(g),
    decreases g.len(),
{
    let w = wrapped(g, limit);
    if g.len() == 0 {
        assert(w.drop_last() =~= Seq::empty());
        assert(joined_cells(w.drop_last()) =~= Seq::empty());
        assert(joined_cells(w) =~= cells(g));
    } else {
        let front = g.drop_last();
        let v = wrapped(front, limit);
        lemma_wrapped_cells(front, limit);
        let last = tinted(g.last().0, g.last().1, g.last().2);
        if used(v.last()) + columns::cols(g.last().0) > limit {
            assert(w.drop_last() =~= v);
            let one = seq![g.last()];
            assert(one.drop_last() =~= Seq::empty());
            assert(cells(one.drop_last()) =~= Seq::empty());
            assert(cells(one) =~= last);
        } else {
            assert(w.drop_last() =~= v.drop_last());
            assert(w.last().drop_last() =~= v.last());
            assert(cells(w.last()) =~= cells(v.last()) + last);
            assert(joined_cells(w) =~= joined_cells(v) + last);
        }
    }
}

proof fn lemma_drawn_cells(lines: Seq<Seq<(Seq<char>, Option<Color>, bool)>>)
    ensures
        joined_cells(drawn_lines(lines)) == joined_cells(lines),
    decreases lines.len(),
{
    if lines.len() > 0 {
        lemma_drawn_cells(lines.drop_last());
        assert(drawn_lines(lines).drop_last() =~= drawn_lines(lines.drop_last()));
        law_runs_keep_every_cell(cells(lines.last()));
    }
}

/// Wrapping loses nothing: the visual lines of a row hold its characters in
/// order, tabs expanded, each with its color and mark.
pub proof fn law_wrapping_keeps_every_character(
    segs: Seq<(Seq<char>, Option<Color>, bool)>,
    col: nat,
)
    ensures
        joined_cells(chunked(segs, col, true)) == cells(glyphs(cells(segs))),
{
    let g = glyphs(cells(segs));
    lemma_wrapped_cells(g, col);
    lemma_drawn_cells(wrapped(g, col));
}

/// Text without tabs is drawn as it is.
pub proof fn law_text_without_tabs_is_drawn_as_it_is(c: Seq<(char, Option<Color>, bool)>)
    requires
        forall|i: int| 0 <= i < c.len() ==> (#[trigger] c[i]).0 != '\t',
    ensures
        cells(glyphs(c)) == c,
    decreases c.len(),
{
    if c.len() > 0 {
        let front = c.drop_last();
        assert forall|i: int| 0 <= i < front.len() implies (#[trigger] front[i]).0 != '\t' by {
            assert(front[i] == c[i]);
        }
        law_text_without_tabs_is_drawn_as_it_is(front);
        assert(glyphs(c).drop_last() =~= glyphs(front));
        assert(c.last().0 != '\t');
        assert(tinted(seq![c.last().0], c.last().1, c.last().2) =~= seq![c.last()]);
        assert(cells(glyphs(c)) =~= c);
    } else {
        assert(cells(glyphs(c)) =~= c);
    }
}

/// A wrapped line is no wider than the limit, unless it is one glyph that is
/// wider by itself.
pub proof fn law_wrapped_lines_fit(
    g: Seq<(Seq<char>, Option<Color>, bool)>,
    limit: nat,
    i: int,
)
    requires
        0 <= i < wrapped(g, limit).len(),
    ensures
        used(wrapped(g, limit)[i]) <= limit || (wrapped(g, limit)[i].len() == 1 && columns::cols(
            wrapped(g, limit)[i][0].0,
        ) > limit),
    decreases g.len(),
{
    if g.len() > 0 {
        let front = g.drop_last();
        let v = wrapped(front, limit);
        let w = wrapped(g, limit);
        lemma_wrapped_cells(front, limit);
        if used(v.last()) + columns::cols(g.last().0) > limit {
            if i < v.len() {
                law_wrapped_lines_fit(front, limit, i);
            } else {
                let one = seq![g.last()];
                assert(one.drop_last() =~= Seq::empty());
                assert(used(one.drop_last()) == 0);
                assert(used(one) == columns::cols(g.last().0));
            }
        } else {
            if i < v.len() - 1 {
                law_wrapped_lines_fit(front, limit, i);
            } else {
                assert(w[i].drop_last() =~= v.last());
            }
        }
    } else {
        assert(wrapped(g, limit)[i] =~= Seq::empty());
    }
}

/// Whether `c` is drawn in simple characters: one itself, or a tab.
pub open spec fn easy(c: char) -> bool {
    columns::simple(c) || c == '\t'
}

/// Whether all text of some runs is drawn in simple characters.
pub open spec fn easy_text(segs: Seq<(Seq<char>, Option<Color>, bool)>) -> bool {
    forall|i: int| 0 <= i < cells(segs).len() ==> easy((#[trigger] cells(segs)[i]).0)
}

proof fn lemma_simple_runs(c: Seq<(char, Option<Color>, bool)>)
    requires
        forall|i: int| 0 <= i < c.len() ==> columns::simple((#[trigger] c[i]).0),
    ensures
        used(runs(c)) == c.len(),
        forall|j: int| 0 <= j < runs(c).len() ==> columns::all_simple((#[trigger] runs(c)[j]).0),
    decreases c.len(),
{
    if c.len() > 0 {
        let front = c.drop_last();
        assert forall|i: int| 0 <= i < front.len() implies columns::simple(
            (#[trigger] front[i]).0,
        ) by {
            assert(front[i] == c[i]);
        }
        lemma_simple_runs(front);
        let r = runs(front);
        let s = runs(c);
        let last = c.last();
        assert(columns::simple(c[c.len() - 1].0));
        if r.len() > 0 && r.last().1 == last.1 && r.last().2 == last.2 {
            assert(s.drop_last() =~= r.drop_last());
            assert(columns::all_simple(r[r.len() - 1].0));
            let t = r.last().0;
            assert forall|i: int| 0 <= i < t.push(last.0).len() implies columns::simple(
                #[trigger] t.push(last.0)[i],
            ) by {
                if i < t.len() {
                    assert(t.push(last.0)[i] == t[i]);
                }
            }
        } else {
            assert(s.drop_last() =~= r);
            assert(columns::all_simple(seq![last.0]));
        }
    }
}

proof fn lemma_simple_glyphs(g: Seq<(Seq<char>, Option<Color>, bool)>)
    requires
        forall|i: int| 0 <= i < g.len() ==> columns::all_simple((#[trigger] g[i]).0),
    ensures
        used(g) == cells(g).len(),
        forall|i: int| 0 <= i < cells(g).len() ==> columns::simple((#[trigger] cells(g)[i]).0),
    decreases g.len(),
{
    if g.len() > 0 {
        let front = g.drop_last();
        assert forall|i: int| 0 <= i < front.len() implies columns::all_simple(
            (#[trigger] front[i]).0,
        ) by {
            assert(front[i] == g[i]);
        }
        lemma_simple_glyphs(front);
        let t = g.last().0;
        assert(columns::all_simple(g[g.len() - 1].0));
        assert forall|i: int| 0 <= i < cells(g).len() implies columns::simple(
            (#[trigger] cells(g)[i]).0,
        ) by {
            if i >= cells(front).len() {
                assert(cells(g)[i].0 == t[i - cells(front).len()]);
            }
        }
    }
}

proof fn lemma_easy_glyphs(c: Seq<(char, Option<Color>, bool)>)
    requires
        forall|i: int| 0 <= i < c.len() ==> easy((#[trigger] c[i]).0),
    ensures
        glyphs(c).len() == c.len(),
        forall|i: int|
            0 <= i < c.len() ==> columns::all_simple((#[trigger] glyphs(c)[i]).0) && glyphs(
                c,
            )[i].0.len() <= TAB_STOP,
    decreases c.len(),
{
    if c.len() > 0 {
        let front = c.drop_last();
        assert forall|i: int| 0 <= i < front.len() implies easy((#[trigger] front[i]).0) by {
            assert(front[i] == c[i]);
        }
        lemma_easy_glyphs(front);
        assert(easy(c[c.len() - 1].0));
        let t = glyph(c.last().0, column(front));
        assert(columns::all_simple(t));
    }
}

proof fn lemma_wrapped_parts(g: Seq<(Seq<char>, Option<Color>, bool)>, limit: nat, i: int, k: int)
    requires
        0 <= i < wrapped(g, limit).len(),
        0 <= k < wrapped(g, limit)[i].len(),
    ensures
        g.contains(wrapped(g, limit)[i][k]),
    decreases g.len(),
{
    if g.len() > 0 {
        let front = g.drop_last();
        let v = wrapped(front, limit);
        let w = wrapped(g, limit);
        lemma_wrapped_cells(front, limit);
        let x = w[i][k];
        if used(v.last()) + columns::cols(g.last().0) > limit {
            if i < v.len() {
                lemma_wrapped_parts(front, limit, i, k);
                let j = choose|j: int| 0 <= j < front.len() && front[j] == x;
                assert(g[j] == x);
            } else {
                assert(g[g.len() - 1] == x);
            }
        } else {
            if i < v.len() - 1 || k < v.last().len() {
                assert(x == v[i][k]);
                lemma_wrapped_parts(front, limit, i, k);
                let j = choose|j: int| 0 <= j < front.len() && front[j] == x;
                assert(g[j] == x);
            } else {
                assert(g[g.len() - 1] == x);
            }
        }
    }
}

/// Simple text stays within its column: no visual line of a row is wider than
/// `col`.
pub proof fn law_simple_text_fits(
    segs: Seq<(Seq<char>, Option<Color>, bool)>,
    col: nat,
    wrap: bool,
    i: int,
)
    requires
        easy_text(segs),
        col >= TAB_STOP,
        0 <= i < chunked(segs, col, wrap).len(),
    ensures
        used(chunked(segs, col, wrap)[i]) <= col,
{
    let c = cells(segs);
    let g = glyphs(c);
    lemma_easy_glyphs(c);
    if wrap {
        let line = wrapped(g, col)[i];
        assert forall|k: int| 0 <= k < line.len() implies columns::all_simple(
            (#[trigger] line[k]).0,
        ) && line[k].0.len() <= TAB_STOP by {
            lemma_wrapped_parts(g, col, i, k);
            let j = choose|j: int| 0 <= j < g.len() && g[j] == line[k];
            assert(columns::all_simple(g[j].0));
        }
        law_wrapped_lines_fit(g, col, i);
        lemma_simple_glyphs(line);
        lemma_simple_runs(cells(line));
        if line.len() == 1 {
            assert(columns::all_simple(line[0].0));
        }
    } else if !overflows(segs, col) {
        lemma_simple_glyphs(g);
        lemma_simple_runs(cells(g));
    } else {
        let limit = columns::room(col, 1);
        lemma_fitting_bound(g, limit);
        let n = fitting(g, limit) as int;
        let kept = g.take(n);
        assert forall|k: int| 0 <= k < kept.len() implies columns::all_simple(
            (#[trigger] kept[k]).0,
        ) by {
            assert(columns::all_simple(g[k].0));
        }
        lemma_simple_glyphs(kept);
        lemma_simple_runs(cells(kept));
        let line = drawn(kept);
        let mark = text::copies(' ', columns::room(limit, used(kept))) + "…"@;
        lemma_mark(columns::room(limit, used(kept)));
        assert(line.push((mark, Some(GUTTER_FG), false)).drop_last() =~= line);
    }
}

proof fn lemma_mark(pad: nat)
    ensures
        columns::cols(text::copies(' ', pad) + "…"@) == pad + 1,
{
    reveal_strlit("…");
    let mark = text::copies(' ', pad) + "…"@;
    assert(columns::all_simple(mark)) by {
        assert forall|i: int| 0 <= i < mark.len() implies columns::simple(#[trigger] mark[i]) by {
            if i >= pad {
                assert(mark[i] == "…"@[i - pad]);
            }
        }
    }
}

proof fn lemma_fitting_bound(g: Seq<(Seq<char>, Option<Color>, bool)>, limit: nat)
    ensures
        fitting(g, limit) <= g.len(),
        used(g.take(fitting(g, limit) as int)) <= limit,
    decreases g.len(),
{
    if g.len() > 0 {
        let front = g.drop_last();
        lemma_fitting_bound(front, limit);
        let n = fitting(front, limit) as int;
        assert(front.take(n) =~= g.take(n));
        assert(g.take(g.len() as int) =~= g);
    }
}

/// Without wrapping, a row that does not overflow is drawn whole. One that
/// does ends in `…` in the last column: what is kept of it and the mark take
/// up exactly `col` columns.
pub proof fn law_only_an_overflow_is_cut(
    segs: Seq<(Seq<char>, Option<Color>, bool)>,
    col: nat,
)
    requires
        col > 0,
    ensures
        chunked(segs, col, false).len() == 1,
        !overflows(segs, col) ==> chunked(segs, col, false)[0] == drawn(glyphs(cells(segs))),
        overflows(segs, col) ==> {
            let n = fitting(glyphs(cells(segs)), (col - 1) as nat) as int;
            let line = chunked(segs, col, false)[0];
            &&& 0 <= n <= cells(segs).len()
            &&& used(glyphs(cells(segs))) > col ==> n < cells(segs).len()
            &&& line.drop_last() == drawn(glyphs(cells(segs)).take(n))
            &&& line.last().0.last() == '…'
            &&& used(glyphs(cells(segs)).take(n)) + columns::cols(line.last().0) == col
        },
{
    let g = glyphs(cells(segs));
    lemma_glyphs_prefix(cells(segs), 0);
    if overflows(segs, col) {
        lemma_fitting_bound(g, (col - 1) as nat);
        let n = fitting(g, (col - 1) as nat) as int;
        assert(g.take(g.len() as int) =~= g);
        lemma_mark(columns::room((col - 1) as nat, used(g.take(n))));
        reveal_strlit("…");
        let line = clipped(segs, col);
        assert(line.drop_last() =~= drawn(g.take(n)));
    }
}

/// The rows on the left of some pairs.
pub open spec fn lefts(ps: Seq<(Option<PaintedRow>, Option<PaintedRow>)>) -> Seq<PaintedRow>
    decreases ps.len(),
{
    if ps.len() == 0 {
        Seq::empty()
    } else {
        match ps.last().0 {
            Some(r) => lefts(ps.drop_last()).push(r),
            None => lefts(ps.drop_last()),
        }
    }
}

/// The rows on the right of some pairs.
pub open spec fn rights(ps: Seq<(Option<PaintedRow>, Option<PaintedRow>)>) -> Seq<PaintedRow>
    decreases ps.len(),
{
    if ps.len() == 0 {
        Seq::empty()
    } else {
        match ps.last().1 {
            Some(r) => rights(ps.drop_last()).push(r),
            None => rights(ps.drop_last()),
        }
    }
}

/// The rows that are on the old side.
pub open spec fn old_rows(rows: Seq<PaintedRow>) -> Seq<PaintedRow>
    decreases rows.len(),
{
    if rows.len() == 0 {
        Seq::empty()
    } else if rows.last().kind is Insert {
        old_rows(rows.drop_last())
    } else {
        old_rows(rows.drop_last()).push(rows.last())
    }
}

/// The rows that are on the new side.
pub open spec fn new_rows(rows: Seq<PaintedRow>) -> Seq<PaintedRow>
    decreases rows.len(),
{
    if rows.len() == 0 {
        Seq::empty()
    } else if rows.last().kind is Delete {
        new_rows(rows.drop_last())
    } else {
        new_rows(rows.drop_last()).push(rows.last())
    }
}

proof fn lemma_sides_join(
    a: Seq<(Option<PaintedRow>, Option<PaintedRow>)>,
    b: Seq<(Option<PaintedRow>, Option<PaintedRow>)>,
)
    ensures
        lefts(a + b) == lefts(a) + lefts(b),
        rights(a + b) == rights(a) + rights(b),
    decreases b.len(),
{
    if b.len() == 0 {
        assert(a + b =~= a);
        assert(lefts(a) + lefts(b) =~= lefts(a));
        assert(rights(a) + rights(b) =~= rights(a));
    } else {
        assert((a + b).drop_last() =~= a + b.drop_last());
        lemma_sides_join(a, b.drop_last());
        assert(lefts(a + b) =~= lefts(a) + lefts(b));
        assert(rights(a + b) =~= rights(a) + rights(b));
    }
}

proof fn lemma_side_rows_join(a: Seq<PaintedRow>, b: Seq<PaintedRow>)
    ensures
        old_rows(a + b) == old_rows(a) + old_rows(b),
        new_rows(a + b) == new_rows(a) + new_rows(b),
    decreases b.len(),
{
    if b.len() == 0 {
        assert(a + b =~= a);
        assert(old_rows(a) + old_rows(b) =~= old_rows(a));
        assert(new_rows(a) + new_rows(b) =~= new_rows(a));
    } else {
        assert((a + b).drop_last() =~= a + b.drop_last());
        lemma_side_rows_join(a, b.drop_last());
        assert(old_rows(a + b) =~= old_rows(a) + old_rows(b));
        assert(new_rows(a + b) =~= new_rows(a) + new_rows(b));
    }
}

proof fn lemma_one_side(rows: Seq<PaintedRow>, kind: RowKind)
    requires
        kind !is Equal,
        forall|i: int| 0 <= i < rows.len() ==> (#[trigger] rows[i]).kind == kind,
    ensures
        kind is Delete ==> old_rows(rows) == rows && new_rows(rows).len() == 0,
        kind is Insert ==> new_rows(rows) == rows && old_rows(rows).len() == 0,
    decreases rows.len(),
{
    if rows.len() > 0 {
        let front = rows.drop_last();
        assert forall|i: int| 0 <= i < front.len() implies (#[trigger] front[i]).kind == kind by {
            assert(front[i] == rows[i]);
        }
        lemma_one_side(front, kind);
        assert(rows[rows.len() - 1].kind == kind);
        assert(rows =~= front.push(rows.last()));
    } else {
        assert(old_rows(rows) =~= rows);
        assert(new_rows(rows) =~= rows);
    }
}

proof fn lemma_paired_sides(rows: Seq<PaintedRow>, at: int, dels: int, ins: int, n: int)
    requires
        0 <= at,
        0 <= dels,
        0 <= ins,
        at + dels + ins <= rows.len(),
        0 <= n <= paired(rows, at, dels, ins).len(),
    ensures
        lefts(paired(rows, at, dels, ins).take(n)) == rows.subrange(
            at,
            at + if n < dels {
                n
            } else {
                dels
            },
        ),
        rights(paired(rows, at, dels, ins).take(n)) == rows.subrange(
            at + dels,
            at + dels + if n < ins {
                n
            } else {
                ins
            },
        ),
    decreases n,
{
    let block = paired(rows, at, dels, ins);
    if n > 0 {
        lemma_paired_sides(rows, at, dels, ins, n - 1);
        assert(block.take(n).drop_last() =~= block.take(n - 1));
        assert(block.take(n).last() == block[n - 1]);
        if n - 1 < dels {
            assert(rows.subrange(at, at + n) =~= rows.subrange(at, at + n - 1).push(
                rows[at + n - 1],
            ));
        }
        if n - 1 < ins {
            assert(rows.subrange(at + dels, at + dels + n) =~= rows.subrange(
                at + dels,
                at + dels + n - 1,
            ).push(rows[at + dels + n - 1]));
        }
    } else {
        assert(block.take(0) =~= Seq::empty());
        assert(rows.subrange(at, at) =~= Seq::empty());
        assert(rows.subrange(at + dels, at + dels) =~= Seq::empty());
    }
}

/// Side by side, every row of the old side stands on the left and every row of
/// the new side on the right, once and in order.
pub proof fn law_side_by_side_shows_every_row_once(rows: Seq<PaintedRow>, at: int)
    requires
        0 <= at <= rows.len(),
    ensures
        lefts(pairs(rows, at)) == old_rows(rows.skip(at)),
        rights(pairs(rows, at)) == new_rows(rows.skip(at)),
    decreases rows.len() - at,
{
    if at == rows.len() {
        assert(rows.skip(at) =~= Seq::empty());
    } else if rows[at].kind is Equal {
        law_side_by_side_shows_every_row_once(rows, at + 1);
        let one = seq![(Some(rows[at]), Some(rows[at]))];
        let head = seq![rows[at]];
        lemma_sides_join(one, pairs(rows, at + 1));
        lemma_side_rows_join(head, rows.skip(at + 1));
        assert(head + rows.skip(at + 1) =~= rows.skip(at));
        assert(one.drop_last() =~= Seq::empty());
        assert(head.drop_last() =~= Seq::empty());
        assert(lefts(one.drop_last()) =~= Seq::empty());
        assert(rights(one.drop_last()) =~= Seq::empty());
        assert(old_rows(head.drop_last()) =~= Seq::empty());
        assert(new_rows(head.drop_last()) =~= Seq::empty());
        assert(lefts(one) =~= old_rows(head));
        assert(rights(one) =~= new_rows(head));
    } else {
        let dels = run_len(rows, RowKind::Delete, at) as int;
        let ins = run_len(rows, RowKind::Insert, at + dels) as int;
        lemma_run_len(rows, RowKind::Delete, at);
        lemma_run_len(rows, RowKind::Insert, at + dels);
        let next = at + dels + ins;
        law_side_by_side_shows_every_row_once(rows, next);
        let block = paired(rows, at, dels, ins);
        lemma_sides_join(block, pairs(rows, next));
        lemma_paired_sides(rows, at, dels, ins, block.len() as int);
        assert(block.take(block.len() as int) =~= block);
        let d = rows.subrange(at, at + dels);
        let i = rows.subrange(at + dels, next);
        lemma_one_side(d, RowKind::Delete);
        lemma_one_side(i, RowKind::Insert);
        lemma_side_rows_join(d, i);
        lemma_side_rows_join(d + i, rows.skip(next));
        assert(d + i + rows.skip(next) =~= rows.skip(at));
        assert(old_rows(d + i) =~= d);
        assert(new_rows(d + i) =~= i);
    }
}

/// Whether a number fits into its gutter.
pub open spec fn number_fits(f: Frame, no: Option<usize>) -> bool {
    match no {
        Some(n) => text::digits(n as nat).len() <= f.num_w,
        None => true,
    }
}

/// Whether the text of a row fits into its column.
pub open spec fn text_fits(f: Frame, row: PaintedRow, wrap: bool) -> bool {
    forall|i: int|
        0 <= i < chunked(seg_views(row.segs@), f.col, wrap).len() ==> used(
            #[trigger] chunked(seg_views(row.segs@), f.col, wrap)[i],
        ) <= f.col
}

proof fn lemma_digits_simple(n: nat)
    ensures
        columns::all_simple(text::digits(n)),
        text::digits(n).len() > 0,
    decreases n,
{
    if n >= 10 {
        lemma_digits_simple(n / 10);
        let front = text::digits(n / 10);
        assert forall|i: int| 0 <= i < text::digits(n).len() implies columns::simple(
            #[trigger] text::digits(n)[i],
        ) by {
            if i < front.len() {
                assert(text::digits(n)[i] == front[i]);
            }
        }
    }
}

proof fn lemma_gutter_cols(f: Frame, no: Option<usize>)
    requires
        number_fits(f, no),
    ensures
        columns::cols(gutter_text(no, f.num_w)) == f.num_w + 1,
{
    let t = gutter_text(no, f.num_w);
    if let Some(n) = no {
        let d = text::digits(n as nat);
        lemma_digits_simple(n as nat);
        reveal_strlit(" ");
        let pad = columns::room(f.num_w, d.len()) as int;
        assert forall|i: int| 0 <= i < t.len() implies columns::simple(#[trigger] t[i]) by {
            if pad <= i < pad + d.len() {
                assert(t[i] == d[i - pad]);
            }
        }
    }
    assert(columns::all_simple(t));
}

proof fn lemma_runs_drawn_cols(line: Seq<(Seq<char>, Option<Color>, bool)>, rs: RowStyle)
    ensures
        style::line_cols(runs_drawn(line, rs)) == used(line),
    decreases line.len(),
{
    if line.len() > 0 {
        lemma_runs_drawn_cols(line.drop_last(), rs);
        assert(runs_drawn(line, rs).drop_last() =~= runs_drawn(line.drop_last(), rs));
    }
}

proof fn lemma_gutters_cols(f: Frame, gutters: Seq<Option<usize>>, first: bool, rs: RowStyle)
    requires
        forall|i: int| 0 <= i < gutters.len() ==> number_fits(f, #[trigger] gutters[i]),
    ensures
        style::line_cols(gutters_drawn(f, gutters, first, rs)) == gutters.len() * (f.num_w + 1),
    decreases gutters.len(),
{
    let all = gutters_drawn(f, gutters, first, rs);
    if gutters.len() > 0 {
        let front = gutters.drop_last();
        assert forall|i: int| 0 <= i < front.len() implies number_fits(f, #[trigger] front[i]) by {
            assert(front[i] == gutters[i]);
        }
        lemma_gutters_cols(f, front, first, rs);
        assert(all.drop_last() =~= gutters_drawn(f, front, first, rs));
        assert(number_fits(f, gutters[gutters.len() - 1]));
        lemma_gutter_cols(f, gutters.last());
        lemma_gutter_cols(f, None);
        let n = gutters.len() as int;
        let w = (f.num_w + 1) as int;
        assert(n * w == (n - 1) * w + w) by (nonlinear_arith);
        assert(front.len() * (f.num_w + 1) == (n - 1) * w);
        assert(gutters.len() * (f.num_w + 1) == n * w);
    } else {
        assert(gutters.len() * (f.num_w + 1) == 0) by (nonlinear_arith)
            requires
                gutters.len() == 0,
        ;
    }
}

proof fn lemma_blank_cols(n: nat)
    ensures
        columns::cols(text::copies(' ', n)) == n,
{
    assert(columns::all_simple(text::copies(' ', n)));
}

/// A visual line of one side, padded, is as wide as the side when its text
/// fits.
pub proof fn law_padded_cells_have_one_width(
    f: Frame,
    gutters: Seq<Option<usize>>,
    first: bool,
    line: Seq<(Seq<char>, Option<Color>, bool)>,
    kind: RowKind,
)
    requires
        forall|i: int| 0 <= i < gutters.len() ==> number_fits(f, #[trigger] gutters[i]),
        used(line) <= f.col,
    ensures
        style::line_cols(
            cell_text(f, gutters, first, line, row_style(kind)) + padding(
                f,
                line,
                row_style(kind),
            ),
        ) == gutters.len() * (f.num_w + 1) + 1 + f.col,
{
    let rs = row_style(kind);
    let marker = if first {
        rs.marker
    } else {
        ' '
    };
    let g = gutters_drawn(f, gutters, first, rs);
    let m = seq![(seq![marker], base_style(rs))];
    let r = runs_drawn(line, rs);
    let p = padding(f, line, rs);
    lemma_gutters_cols(f, gutters, first, rs);
    lemma_runs_drawn_cols(line, rs);
    style::lemma_line_cols_join(g, m);
    style::lemma_line_cols_join(g + m, r);
    style::lemma_line_cols_join(g + m + r, p);
    assert(m.drop_last() =~= Seq::empty());
    assert(style::line_cols(m.drop_last()) == 0);
    assert(columns::all_simple(seq![marker]));
    lemma_blank_cols(columns::room(f.col, used(line)));
    if p.len() > 0 {
        assert(p.drop_last() =~= Seq::empty());
        assert(style::line_cols(p.drop_last()) == 0);
    }
}

proof fn lemma_side_cols(f: Frame, row: Option<PaintedRow>, no: Option<usize>, i: int, wrap: bool)
    requires
        0 <= i,
        number_fits(f, no),
        row matches Some(r) ==> text_fits(f, r, wrap),
    ensures
        style::line_cols(side_spans(f, row, no, i, wrap)) == side_width(f),
{
    lemma_blank_cols(side_width(f));
    let spans = side_spans(f, row, no, i, wrap);
    if let Some(r) = row {
        let lines = chunked(seg_views(r.segs@), f.col, wrap);
        if i < lines.len() {
            let gutters = seq![no];
            assert(number_fits(f, gutters[0]));
            assert(used(lines[i]) <= f.col);
            law_padded_cells_have_one_width(f, gutters, i == 0, lines[i], r.kind);
            assert(gutters.len() * (f.num_w + 1) == f.num_w + 1) by (nonlinear_arith)
                requires
                    gutters.len() == 1,
            ;
        } else {
            assert(spans.drop_last() =~= Seq::empty());
            assert(style::line_cols(spans.drop_last()) == 0);
        }
    } else {
        assert(spans.drop_last() =~= Seq::empty());
        assert(style::line_cols(spans.drop_last()) == 0);
    }
}

/// Every line of a split layout is as wide as two sides and the separator,
/// when the text of its rows fits.
pub proof fn law_split_lines_have_one_width(
    f: Frame,
    left: Option<PaintedRow>,
    right: Option<PaintedRow>,
    i: int,
    wrap: bool,
)
    requires
        0 <= i,
        number_fits(f, left_number(left)),
        number_fits(f, right_number(right)),
        left matches Some(r) ==> text_fits(f, r, wrap),
        right matches Some(r) ==> text_fits(f, r, wrap),
    ensures
        style::line_cols(split_line(f, left, right, i, wrap)) == 2 * side_width(f) + 3,
{
    let l = side_spans(f, left, left_number(left), i, wrap);
    let m = seq![separator_span()];
    let r = side_spans(f, right, right_number(right), i, wrap);
    lemma_side_cols(f, left, left_number(left), i, wrap);
    lemma_side_cols(f, right, right_number(right), i, wrap);
    style::lemma_line_cols_join(l, m);
    style::lemma_line_cols_join(l + m, r);
    assert(m.drop_last() =~= Seq::empty());
    assert(style::line_cols(m.drop_last()) == 0);
    reveal_strlit(" │ ");
    assert(columns::all_simple(" │ "@));
}

proof fn lemma_digits_grow(a: nat, b: nat)
    requires
        a <= b,
    ensures
        text::digits(a).len() <= text::digits(b).len(),
    decreases b,
{
    if b >= 10 {
        if a >= 10 {
            lemma_digits_grow(a / 10, b / 10);
        } else {
            lemma_digits_simple(b / 10);
        }
    }
}

proof fn lemma_largest(rows: Seq<PaintedRow>, start: nat)
    ensures
        start <= largest(rows, start),
        forall|k: int|
            0 <= k < rows.len() ==> row_number(#[trigger] rows[k]) <= largest(rows, start),
    decreases rows.len(),
{
    if rows.len() > 0 {
        let front = rows.drop_last();
        lemma_largest(front, start);
        assert forall|k: int| 0 <= k < rows.len() implies row_number(#[trigger] rows[k])
            <= largest(rows, start) by {
            if k < front.len() {
                assert(front[k] == rows[k]);
            }
        }
    }
}

proof fn lemma_largest_number(hunks: Seq<PaintedHunk>, g: int, k: int)
    requires
        0 <= g < hunks.len(),
        0 <= k < hunks[g].rows@.len(),
    ensures
        row_number(hunks[g].rows@[k]) <= largest_number(hunks),
    decreases hunks.len(),
{
    let front = hunks.drop_last();
    lemma_largest(hunks.last().rows@, largest_number(front));
    if g < front.len() {
        lemma_largest_number(front, g, k);
        assert(front[g] == hunks[g]);
    }
}

/// Every line number of a layout fits into its gutter.
pub proof fn law_line_numbers_fit(hunks: Seq<PaintedHunk>, opts: LayoutOpts, g: int, k: int)
    requires
        0 <= g < hunks.len(),
        0 <= k < hunks[g].rows@.len(),
    ensures
        number_fits(frame(hunks, opts), hunks[g].rows@[k].old_no),
        number_fits(frame(hunks, opts), hunks[g].rows@[k].new_no),
{
    lemma_largest_number(hunks, g, k);
    let row = hunks[g].rows@[k];
    if let Some(n) = row.old_no {
        lemma_digits_grow(n as nat, largest_number(hunks));
    }
    if let Some(n) = row.new_no {
        lemma_digits_grow(n as nat, largest_number(hunks));
    }
}

proof fn lemma_pair_rows(rows: Seq<PaintedRow>, at: int, j: int)
    requires
        0 <= at <= rows.len(),
        0 <= j < pairs(rows, at).len(),
    ensures
        pairs(rows, at)[j].0 matches Some(r) ==> rows.contains(r),
        pairs(rows, at)[j].1 matches Some(r) ==> rows.contains(r),
    decreases rows.len() - at,
{
    if at < rows.len() {
        if rows[at].kind is Equal {
            if j > 0 {
                lemma_pair_rows(rows, at + 1, j - 1);
                assert(pairs(rows, at)[j] == pairs(rows, at + 1)[j - 1]);
            } else {
                assert(rows.contains(rows[at]));
            }
        } else {
            let dels = run_len(rows, RowKind::Delete, at) as int;
            let ins = run_len(rows, RowKind::Insert, at + dels) as int;
            lemma_run_len(rows, RowKind::Delete, at);
            lemma_run_len(rows, RowKind::Insert, at + dels);
            let block = paired(rows, at, dels, ins);
            if j < block.len() {
                assert(pairs(rows, at)[j] == block[j]);
                if j < dels {
                    assert(rows.contains(rows[at + j]));
                }
                if j < ins {
                    assert(rows.contains(rows[at + dels + j]));
                }
            } else {
                lemma_pair_rows(rows, at + dels + ins, j - block.len());
                assert(pairs(rows, at)[j] == pairs(rows, at + dels + ins)[j - block.len()]);
            }
        }
    }
}

proof fn lemma_pair_line(
    f: Frame,
    ps: Seq<(Option<PaintedRow>, Option<PaintedRow>)>,
    wrap: bool,
    i: int,
) -> (r: (int, int))
    requires
        0 <= i < pair_lines(f, ps, wrap).len(),
    ensures
        0 <= r.0 < ps.len(),
        0 <= r.1,
        pair_lines(f, ps, wrap)[i] == split_line(f, ps[r.0].0, ps[r.0].1, r.1, wrap),
    decreases ps.len(),
{
    let front = pair_lines(f, ps.drop_last(), wrap);
    if i < front.len() {
        let r = lemma_pair_line(f, ps.drop_last(), wrap, i);
        assert(ps.drop_last()[r.0] == ps[r.0]);
        r
    } else {
        (ps.len() - 1, i - front.len())
    }
}

/// Side by side, every line of a hunk of simple text has the same width, and
/// it is no wider than the terminal.
pub proof fn law_split_layout_is_aligned(
    hunks: Seq<PaintedHunk>,
    opts: LayoutOpts,
    g: int,
    i: int,
)
    requires
        0 <= g < hunks.len(),
        drawn_mode(opts.mode, opts.width) is SideBySide,
        frame(hunks, opts).col >= TAB_STOP,
        forall|k: int|
            0 <= k < hunks[g].rows@.len() ==> easy_text(
                seg_views((#[trigger] hunks[g].rows@[k]).segs@),
            ),
        0 <= i < hunk_lines(
            frame(hunks, opts),
            ViewMode::SideBySide,
            hunks[g].rows@,
            opts.wrap,
        ).len(),
    ensures
        style::line_cols(
            hunk_lines(frame(hunks, opts), ViewMode::SideBySide, hunks[g].rows@, opts.wrap)[i],
        ) == 2 * side_width(frame(hunks, opts)) + 3,
        2 * side_width(frame(hunks, opts)) + 3 <= opts.width,
{
    let f = frame(hunks, opts);
    let rows = hunks[g].rows@;
    let ps = pairs(rows, 0);
    let (j, n) = lemma_pair_line(f, ps, opts.wrap, i);
    lemma_pair_rows(rows, 0, j);
    assert forall|r: PaintedRow| rows.contains(r) implies number_fits(f, r.old_no) && number_fits(
        f,
        r.new_no,
    ) && text_fits(f, r, opts.wrap) by {
        let k = choose|k: int| 0 <= k < rows.len() && rows[k] == r;
        law_line_numbers_fit(hunks, opts, g, k);
        assert(easy_text(seg_views(rows[k].segs@)));
        assert forall|m: int|
            0 <= m < chunked(seg_views(r.segs@), f.col, opts.wrap).len() implies used(
            #[trigger] chunked(seg_views(r.segs@), f.col, opts.wrap)[m],
        ) <= f.col by {
            law_simple_text_fits(seg_views(r.segs@), f.col, opts.wrap, m);
        }
    }
    law_split_lines_have_one_width(f, ps[j].0, ps[j].1, n, opts.wrap);
}

proof fn lemma_clock_simple(t: int)
    requires
        0 <= t < 86400,
    ensures
        columns::all_simple(clock_text(t)),
{
    let s = clock_text(t);
    assert forall|i: int| 0 <= i < s.len() implies columns::simple(#[trigger] s[i]) by {}
}

/// A header bar is as wide as asked for when its parts fit.
pub proof fn law_header_bars_fill_the_width(
    input: CardInput,
    time: Seq<char>,
    width: nat,
    tags: bool,
)
    requires
        shows_time(time, input.ts),
        style::line_cols(bar_start(input, time, width, tags)) + columns::cols(bar_right(time))
            <= width,
    ensures
        style::line_cols(bar(input, time, width, tags)) == width,
{
    let start = bar_start(input, time, width, tags);
    let right = bar_right(time);
    let fill = columns::room(width, style::line_cols(start) + columns::cols(right));
    reveal_strlit("--:--:--");
    reveal_strlit(" ");
    reveal_strlit(" ──");
    assert(columns::all_simple(time)) by {
        if input.ts != 0 && datable(input.ts as i64 as int) {
            let ms = input.ts as i64 as int;
            let o = choose|o: int|
                -86400 < o < 86400 && time == clock_text(#[trigger] day_second(ms, o));
            lemma_clock_simple(day_second(ms, o));
        }
    }
    assert forall|i: int| 0 <= i < right.len() implies columns::simple(#[trigger] right[i]) by {
        if 1 <= i < 1 + time.len() {
            assert(right[i] == time[i - 1]);
        }
    }
    assert(columns::all_simple(right));
    let end = text::copies('─', fill) + right;
    assert forall|i: int| 0 <= i < end.len() implies columns::simple(#[trigger] end[i]) by {
        if i >= fill {
            assert(end[i] == right[i - fill]);
        }
    }
    assert(columns::all_simple(end));
    assert(bar(input, time, width, tags).drop_last() =~= start);
}

proof fn lemma_simple_sum(s: Seq<char>)
    requires
        columns::all_simple(s),
    ensures
        char_sum(s) == s.len(),
    decreases s.len(),
{
    if s.len() > 0 {
        let rest = s.drop_first();
        assert forall|i: int| 0 <= i < rest.len() implies columns::simple(#[trigger] rest[i]) by {
            assert(rest[i] == s[i + 1]);
        }
        assert(columns::simple(s[0]));
        lemma_simple_sum(rest);
    }
}

proof fn lemma_simple_tail(s: Seq<char>, keep: nat)
    requires
        columns::all_simple(s),
    ensures
        columns::all_simple(fitting_tail(s, keep)),
        fitting_tail(s, keep).len() <= keep,
    decreases s.len(),
{
    lemma_simple_sum(s);
    if s.len() > keep {
        let rest = s.drop_first();
        assert forall|i: int| 0 <= i < rest.len() implies columns::simple(#[trigger] rest[i]) by {
            assert(rest[i] == s[i + 1]);
        }
        lemma_simple_tail(rest, keep);
    }
}

/// Simple text cut from the left fits.
proof fn lemma_simple_elided(s: Seq<char>, max: nat)
    requires
        columns::all_simple(s),
        max > 0,
    ensures
        columns::cols(elided(s, max)) <= max,
        columns::cols(s) <= max ==> elided(s, max) == s,
{
    if columns::cols(s) > max {
        let tail = fitting_tail(s, columns::room(max, 1));
        lemma_simple_tail(s, columns::room(max, 1));
        lemma_simple_join("…"@, tail);
        reveal_strlit("…");
    }
}

proof fn lemma_simple_join(a: Seq<char>, b: Seq<char>)
    ensures
        columns::all_simple(a) && columns::all_simple(b) ==> columns::all_simple(a + b),
{
    if columns::all_simple(a) && columns::all_simple(b) {
        assert forall|i: int| 0 <= i < (a + b).len() implies columns::simple(
            #[trigger] (a + b)[i],
        ) by {
            if i < a.len() {
                assert((a + b)[i] == a[i]);
            } else {
                assert((a + b)[i] == b[i - a.len()]);
            }
        }
    }
}

/// What follows the kind is simple text when the agent's label is.
proof fn lemma_extras_simple(input: CardInput)
    requires
        input.agent matches Some(s) ==> columns::all_simple(s@),
    ensures
        forall|i: int|
            0 <= i < extra_parts(input).len() ==> columns::all_simple(
                #[trigger] extra_parts(input)[i],
            ),
{
    reveal_strlit("+");
    reveal_strlit(" -");
    reveal_strlit("[");
    reveal_strlit("]");
    reveal_strlit("(user modified)");
    let d = input.diff;
    let added = text::digits(d.added as nat);
    let removed = text::digits(d.removed as nat);
    lemma_digits_simple(d.added as nat);
    lemma_digits_simple(d.removed as nat);
    lemma_simple_join("+"@, added);
    lemma_simple_join("+"@ + added, " -"@);
    lemma_simple_join("+"@ + added + " -"@, removed);
    if let Some(s) = input.agent {
        lemma_simple_join("["@, s@);
        lemma_simple_join("["@ + s@, "]"@);
    }
    assert(columns::all_simple("(user modified)"@));
}

proof fn lemma_after_kind_simple(parts: Seq<Seq<char>>)
    requires
        forall|i: int| 0 <= i < parts.len() ==> columns::all_simple(#[trigger] parts[i]),
    ensures
        columns::all_simple(after_kind(parts)),
    decreases parts.len(),
{
    if parts.len() > 0 {
        let front = parts.drop_last();
        assert forall|i: int| 0 <= i < front.len() implies columns::all_simple(
            #[trigger] front[i],
        ) by {
            assert(front[i] == parts[i]);
        }
        lemma_after_kind_simple(front);
        reveal_strlit(" · ");
        assert(columns::all_simple(parts[parts.len() - 1]));
        lemma_simple_join(after_kind(front), " · "@);
        lemma_simple_join(after_kind(front) + " · "@, parts.last());
    }
}

/// A header bar is exactly as wide as asked for, whether its path is cut or
/// not, as long as the rest of it leaves four columns for the path, or as many
/// as a shorter one has. The path and the agent's label are simple text.
pub proof fn law_a_cut_path_leaves_the_bar_as_wide(
    input: CardInput,
    time: Seq<char>,
    width: nat,
    tags: bool,
)
    requires
        shows_time(time, input.ts),
        columns::all_simple(input.path@),
        input.agent matches Some(s) ==> columns::all_simple(s@),
        width >= bar_fixed(input, time, tags) + if input.path@.len() < 4 {
            input.path@.len()
        } else {
            4
        },
    ensures
        style::line_cols(bar(input, time, width, tags)) == width,
{
    let lead = bar_lead(input, tags);
    let path = bar_path(input, time, width, tags);
    let after = after_kind(extra_parts(input));
    let room = columns::room(width, bar_fixed(input, time, tags));
    lemma_simple_elided(
        input.path@,
        if room < 4 {
            4
        } else {
            room
        },
    );
    lemma_extras_simple(input);
    lemma_after_kind_simple(extra_parts(input));
    reveal_strlit(" ");
    lemma_simple_join(after, " "@);
    let a = seq![(path, bar_style())];
    let b = a.push((bar_tool(input), bar_style()));
    let c = b.push(
        (
            diff::kind_label(input.diff.kind),
            Style { fg: kind_tint(input.diff.kind), ..bar_style() },
        ),
    );
    let d = c.push((after + " "@, bar_style()));
    assert(d.drop_last() =~= c);
    assert(c.drop_last() =~= b);
    assert(b.drop_last() =~= a);
    assert(a.drop_last() =~= Seq::empty());
    assert(style::line_cols(a.drop_last()) == 0);
    assert(bar_start(input, time, width, tags) =~= lead + d);
    style::lemma_line_cols_join(lead, d);
    assert(columns::cols(path) <= room);
    assert(columns::cols(after + " "@) == columns::cols(after) + 1);
    assert(style::line_cols(a) == columns::cols(path));
    assert(style::line_cols(b) == columns::cols(path) + columns::cols(bar_tool(input)));
    assert(style::line_cols(c) == style::line_cols(b) + columns::cols(
        diff::kind_label(input.diff.kind),
    ));
    law_header_bars_fill_the_width(input, time, width, tags);
}

/// How many lines of a layout stand above hunk `n`: for each hunk before it
/// one rule and the visual lines of its rows.
pub open spec fn lines_above(
    f: Frame,
    mode: ViewMode,
    hunks: Seq<PaintedHunk>,
    wrap: bool,
    n: int,
) -> nat
    decreases n,
{
    if n <= 0 {
        0
    } else {
        lines_above(f, mode, hunks, wrap, n - 1) + 1 + hunk_lines(
            f,
            mode,
            hunks[n - 1].rows@,
            wrap,
        ).len()
    }
}

proof fn lemma_lines_above_front(
    f: Frame,
    mode: ViewMode,
    hunks: Seq<PaintedHunk>,
    wrap: bool,
    n: int,
)
    requires
        hunks.len() > 0,
        n < hunks.len(),
    ensures
        lines_above(f, mode, hunks.drop_last(), wrap, n) == lines_above(f, mode, hunks, wrap, n),
    decreases n,
{
    if n > 0 {
        lemma_lines_above_front(f, mode, hunks, wrap, n - 1);
        assert(hunks.drop_last()[n - 1] == hunks[n - 1]);
    }
}

proof fn lemma_layout_len(f: Frame, mode: ViewMode, hunks: Seq<PaintedHunk>, wrap: bool)
    ensures
        laid_out(f, mode, hunks, wrap).len() == lines_above(
            f,
            mode,
            hunks,
            wrap,
            hunks.len() as int,
        ),
    decreases hunks.len(),
{
    if hunks.len() > 0 {
        lemma_layout_len(f, mode, hunks.drop_last(), wrap);
        lemma_lines_above_front(f, mode, hunks, wrap, hunks.len() - 1);
    }
}

/// Every hunk is laid out, in order: below the lines of the hunks before it
/// stands a rule with its header, and below that the visual lines of its rows.
/// The layout has no other lines.
#[verifier::spinoff_prover]
#[verifier::rlimit(40)]
pub proof fn law_every_hunk_is_laid_out(
    f: Frame,
    mode: ViewMode,
    hunks: Seq<PaintedHunk>,
    wrap: bool,
    g: int,
)
    requires
        0 <= g < hunks.len(),
    ensures
        laid_out(f, mode, hunks, wrap).len() == lines_above(
            f,
            mode,
            hunks,
            wrap,
            hunks.len() as int,
        ),
        ({
            let lines = laid_out(f, mode, hunks, wrap);
            let at = lines_above(f, mode, hunks, wrap, g) as int;
            let rows = hunk_lines(f, mode, hunks[g].rows@, wrap);
            let lead = "── "@ + hunks[g].header@ + " "@;
            &&& at + 1 + rows.len() <= lines.len()
            &&& style::line_text(lines[at]) == lead + text::copies(
                '─',
                if columns::cols(lead) < f.width {
                    (f.width - columns::cols(lead)) as nat
                } else {
                    0
                },
            )
            &&& lines.subrange(at + 1, at + 1 + rows.len() as int) == rows
        }),
    decreases hunks.len(),
{
    let lines = laid_out(f, mode, hunks, wrap);
    let front = hunks.drop_last();
    let n = front.len() as int;
    let above = laid_out(f, mode, front, wrap);
    lemma_layout_len(f, mode, hunks, wrap);
    lemma_layout_len(f, mode, front, wrap);
    lemma_lines_above_front(f, mode, hunks, wrap, n);
    let at = lines_above(f, mode, hunks, wrap, g) as int;
    let rows = hunk_lines(f, mode, hunks[g].rows@, wrap);
    if g < n {
        law_every_hunk_is_laid_out(f, mode, front, wrap, g);
        lemma_lines_above_front(f, mode, hunks, wrap, g);
        assert(front[g] == hunks[g]);
        assert(lines[at] == above[at]);
        assert(lines.subrange(at + 1, at + 1 + rows.len() as int) =~= above.subrange(
            at + 1,
            at + 1 + rows.len() as int,
        ));
    } else {
        let rule = rule_line(f.width, hunks[g].header@);
        assert(lines[at] == rule);
        style::lemma_one_span_text(rule[0].0, rule[0].1);
        assert(rule =~= seq![(rule[0].0, rule[0].1)]);
        assert(lines.subrange(at + 1, at + 1 + rows.len() as int) =~= rows);
    }
}

/// The characters of some cells.
pub open spec fn plain_cells(c: Seq<(char, Option<Color>, bool)>) -> Seq<char> {
    Seq::new(c.len(), |i: int| c[i].0)
}

proof fn lemma_runs_text(line: Seq<(Seq<char>, Option<Color>, bool)>, rs: RowStyle)
    ensures
        style::line_text(runs_drawn(line, rs)) == plain_cells(cells(line)),
    decreases line.len(),
{
    if line.len() == 0 {
        assert(style::line_text(runs_drawn(line, rs)) =~= plain_cells(cells(line)));
    } else {
        lemma_runs_text(line.drop_last(), rs);
        assert(runs_drawn(line, rs).drop_last() =~= runs_drawn(line.drop_last(), rs));
        assert(style::line_text(runs_drawn(line, rs)) =~= plain_cells(cells(line)));
    }
}

/// The line number that is drawn beside a visual line: a row has its number on
/// its first one.
pub open spec fn shown_number(no: Option<usize>, i: int) -> Option<usize> {
    if i == 0 {
        no
    } else {
        None
    }
}

/// The mark of a row: `-` for a line that goes, `+` for one that comes, blank
/// for one that stays and below the first visual line.
pub open spec fn shown_mark(kind: RowKind, i: int) -> char {
    if i != 0 {
        ' '
    } else {
        match kind {
            RowKind::Equal => ' ',
            RowKind::Delete => '-',
            RowKind::Insert => '+',
        }
    }
}

/// What stands behind the text of a line, up to the end of its column.
pub open spec fn shown_fill(f: Frame, line: Seq<(Seq<char>, Option<Color>, bool)>) -> Seq<char> {
    text::copies(
        ' ',
        if used(line) < f.col {
            (f.col - used(line)) as nat
        } else {
            0
        },
    )
}

proof fn lemma_padding_text(
    f: Frame,
    line: Seq<(Seq<char>, Option<Color>, bool)>,
    rs: RowStyle,
)
    ensures
        style::line_text(padding(f, line, rs)) == shown_fill(f, line),
{
    let pad = columns::room(f.col, used(line));
    if pad > 0 {
        style::lemma_one_span_text(text::copies(' ', pad), base_style(rs));
    } else {
        assert(style::line_text(padding(f, line, rs)) =~= shown_fill(f, line));
    }
}

proof fn lemma_one_gutter_text(f: Frame, no: Option<usize>, first: bool, rs: RowStyle)
    ensures
        style::line_text(gutters_drawn(f, seq![no], first, rs)) == gutter_text(
            if first {
                no
            } else {
                None
            },
            f.num_w,
        ),
{
    let look = Style { fg: Some(GUTTER_FG), ..base_style(rs) };
    let s = gutter_text(
        if first {
            no
        } else {
            None
        },
        f.num_w,
    );
    style::lemma_one_span_text(s, look);
    assert(gutters_drawn(f, seq![no], first, rs) =~= seq![(s, look)]);
}

proof fn lemma_two_gutters_text(
    f: Frame,
    a: Option<usize>,
    b: Option<usize>,
    first: bool,
    rs: RowStyle,
)
    ensures
        style::line_text(gutters_drawn(f, seq![a, b], first, rs)) == gutter_text(
            if first {
                a
            } else {
                None
            },
            f.num_w,
        ) + gutter_text(
            if first {
                b
            } else {
                None
            },
            f.num_w,
        ),
{
    lemma_one_gutter_text(f, a, first, rs);
    lemma_one_gutter_text(f, b, first, rs);
    style::lemma_line_text_join(
        gutters_drawn(f, seq![a], first, rs),
        gutters_drawn(f, seq![b], first, rs),
    );
    assert(gutters_drawn(f, seq![a, b], first, rs) =~= gutters_drawn(f, seq![a], first, rs)
        + gutters_drawn(f, seq![b], first, rs));
}

proof fn lemma_cell_text(
    f: Frame,
    gutters: Seq<Option<usize>>,
    first: bool,
    line: Seq<(Seq<char>, Option<Color>, bool)>,
    rs: RowStyle,
)
    ensures
        style::line_text(cell_text(f, gutters, first, line, rs)) == style::line_text(
            gutters_drawn(f, gutters, first, rs),
        ) + seq![
            if first {
                rs.marker
            } else {
                ' '
            },
        ] + plain_cells(cells(line)),
{
    let m = seq![
        if first {
            rs.marker
        } else {
            ' '
        },
    ];
    let numbers = gutters_drawn(f, gutters, first, rs);
    let mark = seq![(m, base_style(rs))];
    style::lemma_one_span_text(m, base_style(rs));
    lemma_runs_text(line, rs);
    style::lemma_line_text_join(numbers, mark);
    style::lemma_line_text_join(numbers + mark, runs_drawn(line, rs));
}

/// How many visual lines of a unified hunk stand above row `k`.
pub open spec fn rows_above(f: Frame, rows: Seq<PaintedRow>, wrap: bool, k: int) -> nat
    decreases k,
{
    if k <= 0 {
        0
    } else {
        rows_above(f, rows, wrap, k - 1) + chunked(
            seg_views(rows[k - 1].segs@),
            f.col,
            wrap,
        ).len()
    }
}

proof fn lemma_rows_above_front(f: Frame, rows: Seq<PaintedRow>, wrap: bool, k: int)
    requires
        rows.len() > 0,
        k < rows.len(),
    ensures
        rows_above(f, rows.drop_last(), wrap, k) == rows_above(f, rows, wrap, k),
    decreases k,
{
    if k > 0 {
        lemma_rows_above_front(f, rows, wrap, k - 1);
        assert(rows.drop_last()[k - 1] == rows[k - 1]);
    }
}

proof fn lemma_unified_at(f: Frame, rows: Seq<PaintedRow>, wrap: bool, k: int, i: int)
    requires
        0 <= k < rows.len(),
        0 <= i < chunked(seg_views(rows[k].segs@), f.col, wrap).len(),
    ensures
        all_unified(f, rows, wrap).len() == rows_above(f, rows, wrap, rows.len() as int),
        rows_above(f, rows, wrap, k) + i < all_unified(f, rows, wrap).len(),
        all_unified(f, rows, wrap)[rows_above(f, rows, wrap, k) + i] == unified_line(
            f,
            rows[k],
            i == 0,
            chunked(seg_views(rows[k].segs@), f.col, wrap)[i],
        ),
    decreases rows.len(),
{
    let front = rows.drop_last();
    let n = front.len() as int;
    lemma_rows_above_front(f, rows, wrap, n);
    lemma_unified_len(f, front, wrap);
    if k < n {
        lemma_rows_above_front(f, rows, wrap, k);
        assert(front[k] == rows[k]);
        lemma_unified_at(f, front, wrap, k, i);
        assert(all_unified(f, rows, wrap)[rows_above(f, rows, wrap, k) + i] == all_unified(
            f,
            front,
            wrap,
        )[rows_above(f, rows, wrap, k) + i]);
    }
}

proof fn lemma_unified_len(f: Frame, rows: Seq<PaintedRow>, wrap: bool)
    ensures
        all_unified(f, rows, wrap).len() == rows_above(f, rows, wrap, rows.len() as int),
    decreases rows.len(),
{
    if rows.len() > 0 {
        lemma_unified_len(f, rows.drop_last(), wrap);
        lemma_rows_above_front(f, rows, wrap, rows.len() - 1);
    }
}

/// In a unified layout every row of a hunk is drawn, in order and once: each
/// of its visual lines has both numbers, the mark of the row and the text, and
/// one that is tinted is filled to the end of the column.
pub proof fn law_unified_draws_every_row(
    f: Frame,
    rows: Seq<PaintedRow>,
    wrap: bool,
    k: int,
    i: int,
)
    requires
        0 <= k < rows.len(),
        0 <= i < chunked(seg_views(rows[k].segs@), f.col, wrap).len(),
    ensures
        hunk_lines(f, ViewMode::Unified, rows, wrap).len() == rows_above(
            f,
            rows,
            wrap,
            rows.len() as int,
        ),
        ({
            let lines = hunk_lines(f, ViewMode::Unified, rows, wrap);
            let at = rows_above(f, rows, wrap, k) + i;
            let line = chunked(seg_views(rows[k].segs@), f.col, wrap)[i];
            &&& at < lines.len()
            &&& style::line_text(lines[at]) == gutter_text(
                shown_number(rows[k].old_no, i),
                f.num_w,
            ) + gutter_text(shown_number(rows[k].new_no, i), f.num_w) + seq![
                shown_mark(rows[k].kind, i),
            ] + plain_cells(cells(line)) + (if rows[k].kind is Equal {
                Seq::empty()
            } else {
                shown_fill(f, line)
            })
        }),
{
    lemma_unified_at(f, rows, wrap, k, i);
    let row = rows[k];
    let rs = row_style(row.kind);
    let line = chunked(seg_views(row.segs@), f.col, wrap)[i];
    let two = seq![row.old_no, row.new_no];
    let body = cell_text(f, two, i == 0, line, rs);
    lemma_two_gutters_text(f, row.old_no, row.new_no, i == 0, rs);
    lemma_cell_text(f, two, i == 0, line, rs);
    lemma_padding_text(f, line, rs);
    style::lemma_line_text_join(body, padding(f, line, rs));
    let t = style::line_text(body);
    assert(t + Seq::empty() =~= t);
}

/// Every row of every hunk is in a unified layout: the visual lines of row `k`
/// of hunk `g` stand below the rule of the hunk and the rows before it.
pub proof fn law_every_row_is_laid_out(
    f: Frame,
    hunks: Seq<PaintedHunk>,
    wrap: bool,
    g: int,
    k: int,
    i: int,
)
    requires
        0 <= g < hunks.len(),
        0 <= k < hunks[g].rows@.len(),
        0 <= i < chunked(seg_views(hunks[g].rows@[k].segs@), f.col, wrap).len(),
    ensures
        ({
            let lines = laid_out(f, ViewMode::Unified, hunks, wrap);
            let rows = hunks[g].rows@;
            let at = lines_above(f, ViewMode::Unified, hunks, wrap, g) + 1 + rows_above(
                f,
                rows,
                wrap,
                k,
            ) + i;
            let line = chunked(seg_views(rows[k].segs@), f.col, wrap)[i];
            &&& at < lines.len()
            &&& style::line_text(lines[at]) == gutter_text(
                shown_number(rows[k].old_no, i),
                f.num_w,
            ) + gutter_text(shown_number(rows[k].new_no, i), f.num_w) + seq![
                shown_mark(rows[k].kind, i),
            ] + plain_cells(cells(line)) + (if rows[k].kind is Equal {
                Seq::empty()
            } else {
                shown_fill(f, line)
            })
        }),
{
    law_every_hunk_is_laid_out(f, ViewMode::Unified, hunks, wrap, g);
    law_unified_draws_every_row(f, hunks[g].rows@, wrap, k, i);
    let lines = laid_out(f, ViewMode::Unified, hunks, wrap);
    let rows = hunk_lines(f, ViewMode::Unified, hunks[g].rows@, wrap);
    let from = lines_above(f, ViewMode::Unified, hunks, wrap, g) as int + 1;
    let n = rows_above(f, hunks[g].rows@, wrap, k) + i;
    assert(lines.subrange(from, from + rows.len() as int)[n] == lines[from + n]);
}

/// How many visual lines of a split hunk stand above pair `k`: each pair has
/// as many as the longer of its two rows.
pub open spec fn pairs_above(
    f: Frame,
    ps: Seq<(Option<PaintedRow>, Option<PaintedRow>)>,
    wrap: bool,
    k: int,
) -> nat
    decreases k,
{
    if k <= 0 {
        0
    } else {
        let a = side_count(f, ps[k - 1].0, wrap);
        let b = side_count(f, ps[k - 1].1, wrap);
        pairs_above(f, ps, wrap, k - 1) + (if a > b {
            a
        } else {
            b
        })
    }
}

proof fn lemma_pairs_above_front(
    f: Frame,
    ps: Seq<(Option<PaintedRow>, Option<PaintedRow>)>,
    wrap: bool,
    k: int,
)
    requires
        ps.len() > 0,
        k < ps.len(),
    ensures
        pairs_above(f, ps.drop_last(), wrap, k) == pairs_above(f, ps, wrap, k),
    decreases k,
{
    if k > 0 {
        lemma_pairs_above_front(f, ps, wrap, k - 1);
        assert(ps.drop_last()[k - 1] == ps[k - 1]);
    }
}

proof fn lemma_pair_lines_len(
    f: Frame,
    ps: Seq<(Option<PaintedRow>, Option<PaintedRow>)>,
    wrap: bool,
)
    ensures
        pair_lines(f, ps, wrap).len() == pairs_above(f, ps, wrap, ps.len() as int),
    decreases ps.len(),
{
    if ps.len() > 0 {
        lemma_pair_lines_len(f, ps.drop_last(), wrap);
        lemma_pairs_above_front(f, ps, wrap, ps.len() - 1);
    }
}

proof fn lemma_pair_at(
    f: Frame,
    ps: Seq<(Option<PaintedRow>, Option<PaintedRow>)>,
    wrap: bool,
    k: int,
    i: int,
)
    requires
        0 <= k < ps.len(),
        0 <= i,
        i < side_count(f, ps[k].0, wrap) || i < side_count(f, ps[k].1, wrap),
    ensures
        pairs_above(f, ps, wrap, k) + i < pair_lines(f, ps, wrap).len(),
        pair_lines(f, ps, wrap)[pairs_above(f, ps, wrap, k) + i] == split_line(
            f,
            ps[k].0,
            ps[k].1,
            i,
            wrap,
        ),
    decreases ps.len(),
{
    let front = ps.drop_last();
    let n = front.len() as int;
    lemma_pairs_above_front(f, ps, wrap, n);
    lemma_pair_lines_len(f, front, wrap);
    lemma_pair_lines_len(f, ps, wrap);
    if k < n {
        lemma_pairs_above_front(f, ps, wrap, k);
        assert(front[k] == ps[k]);
        lemma_pair_at(f, front, wrap, k, i);
        assert(pair_lines(f, ps, wrap)[pairs_above(f, ps, wrap, k) + i] == pair_lines(
            f,
            front,
            wrap,
        )[pairs_above(f, ps, wrap, k) + i]);
    }
}

/// One side of a visual line as it reads: the number of the row, its mark, its
/// text and what fills the column, or blanks where there is nothing to show.
pub open spec fn shown_side(
    f: Frame,
    row: Option<PaintedRow>,
    no: Option<usize>,
    i: int,
    wrap: bool,
) -> Seq<char> {
    match row {
        Some(r) if i < chunked(seg_views(r.segs@), f.col, wrap).len() => {
            let line = chunked(seg_views(r.segs@), f.col, wrap)[i];
            gutter_text(shown_number(no, i), f.num_w) + seq![shown_mark(r.kind, i)] + plain_cells(
                cells(line),
            ) + shown_fill(f, line)
        },
        _ => text::copies(' ', f.num_w + 2 + f.col),
    }
}

proof fn lemma_side_text(
    f: Frame,
    row: Option<PaintedRow>,
    no: Option<usize>,
    i: int,
    wrap: bool,
)
    requires
        0 <= i,
    ensures
        style::line_text(side_spans(f, row, no, i, wrap)) == shown_side(f, row, no, i, wrap),
{
    let blank = text::copies(' ', side_width(f));
    match row {
        Some(r) => {
            let rs = row_style(r.kind);
            let lines = chunked(seg_views(r.segs@), f.col, wrap);
            if i < lines.len() {
                let line = lines[i];
                lemma_one_gutter_text(f, no, i == 0, rs);
                lemma_cell_text(f, seq![no], i == 0, line, rs);
                lemma_padding_text(f, line, rs);
                style::lemma_line_text_join(
                    cell_text(f, seq![no], i == 0, line, rs),
                    padding(f, line, rs),
                );
            } else {
                style::lemma_one_span_text(blank, base_style(rs));
            }
        },
        None => {
            style::lemma_one_span_text(blank, style::plain());
        },
    }
}

/// In a split layout every pair of rows is drawn, in order and once: the old
/// row on the left, the new one on the right, a bar between them.
pub proof fn law_split_draws_every_pair(
    f: Frame,
    rows: Seq<PaintedRow>,
    wrap: bool,
    k: int,
    i: int,
)
    requires
        0 <= k < pairs(rows, 0).len(),
        0 <= i,
        i < side_count(f, pairs(rows, 0)[k].0, wrap) || i < side_count(
            f,
            pairs(rows, 0)[k].1,
            wrap,
        ),
    ensures
        ({
            let ps = pairs(rows, 0);
            let lines = hunk_lines(f, ViewMode::SideBySide, rows, wrap);
            let at = pairs_above(f, ps, wrap, k) + i;
            let left = ps[k].0;
            let right = ps[k].1;
            &&& lines.len() == pairs_above(f, ps, wrap, ps.len() as int)
            &&& at < lines.len()
            &&& style::line_text(lines[at]) == shown_side(
                f,
                left,
                match left {
                    Some(r) => r.old_no,
                    None => None,
                },
                i,
                wrap,
            ) + " │ "@ + shown_side(
                f,
                right,
                match right {
                    Some(r) => r.new_no,
                    None => None,
                },
                i,
                wrap,
            )
        }),
{
    let ps = pairs(rows, 0);
    lemma_pair_at(f, ps, wrap, k, i);
    lemma_pair_lines_len(f, ps, wrap);
    let left = side_spans(f, ps[k].0, left_number(ps[k].0), i, wrap);
    let right = side_spans(f, ps[k].1, right_number(ps[k].1), i, wrap);
    lemma_side_text(f, ps[k].0, left_number(ps[k].0), i, wrap);
    lemma_side_text(f, ps[k].1, right_number(ps[k].1), i, wrap);
    let bar = separator_span();
    style::lemma_one_span_text(bar.0, bar.1);
    assert(seq![bar] =~= seq![(bar.0, bar.1)]);
    style::lemma_line_text_join(left, seq![bar]);
    style::lemma_line_text_join(left + seq![bar], right);
}

/// A line number stands at the end of its column, one space behind it and
/// spaces before it; without a number the column is blank.
pub proof fn law_numbers_are_aligned_to_the_right(n: usize, num_w: nat, i: int)
    requires
        text::digits(n as nat).len() <= num_w,
    ensures
        gutter_text(Some(n), num_w).len() == num_w + 1,
        gutter_text(Some(n), num_w).subrange(
            num_w - text::digits(n as nat).len(),
            num_w as int,
        ) == text::digits(n as nat),
        gutter_text(Some(n), num_w)[num_w as int] == ' ',
        0 <= i < num_w - text::digits(n as nat).len() ==> gutter_text(Some(n), num_w)[i] == ' ',
        gutter_text(None, num_w).len() == num_w + 1,
        0 <= i <= num_w ==> gutter_text(None, num_w)[i] == ' ',
{
    reveal_strlit(" ");
    let d = text::digits(n as nat);
    assert(gutter_text(Some(n), num_w).subrange(num_w - d.len(), num_w as int) =~= d);
}

/// The columns of a layout add up to its width: two numbers and a mark beside
/// the text, or two sides of one width and a bar of three columns, with at
/// most one column left over. Text has at least one column.
pub proof fn law_columns_use_the_width(hunks: Seq<PaintedHunk>, opts: LayoutOpts)
    ensures
        ({
            let f = frame(hunks, opts);
            let w = f.num_w;
            let split = opts.mode is SideBySide && opts.width >= 100;
            &&& f.width == opts.width
            &&& w >= 3
            &&& f.col >= 1
            &&& !split && f.col > 1 ==> 2 * (w + 1) + 1 + f.col == opts.width
            &&& !split && f.col == 1 ==> 2 * (w + 1) + 1 + 1 >= opts.width
            &&& split && f.col > 1 ==> opts.width - 1 <= 2 * (w + 2 + f.col) + 3 <= opts.width
            &&& split && f.col == 1 ==> 2 * (w + 2 + 1) + 3 >= opts.width - 1
        }),
{
}

/// Line numbers have three columns, or as many as the longest one needs.
pub proof fn law_number_columns_are_not_wider_than_needed(
    hunks: Seq<PaintedHunk>,
    opts: LayoutOpts,
)
    ensures
        frame(hunks, opts).num_w == 3 || exists|g: int, k: int|
            0 <= g < hunks.len() && 0 <= k < hunks[g].rows@.len() && text::digits(
                row_number(#[trigger] hunks[g].rows@[k]),
            ).len() == frame(hunks, opts).num_w,
{
    lemma_largest_is_there(hunks);
    if frame(hunks, opts).num_w != 3 {
        let n = largest_number(hunks);
        if n == 0 {
            assert(text::digits(0).len() == 1);
        } else {
            let (g, k) = choose|g: int, k: int|
                0 <= g < hunks.len() && 0 <= k < hunks[g].rows@.len() && row_number(
                    #[trigger] hunks[g].rows@[k],
                ) == n;
            assert(row_number(hunks[g].rows@[k]) == n);
        }
    }
}

proof fn lemma_largest_in(rows: Seq<PaintedRow>, start: nat)
    ensures
        largest(rows, start) == start || exists|k: int|
            0 <= k < rows.len() && row_number(#[trigger] rows[k]) == largest(rows, start),
    decreases rows.len(),
{
    if rows.len() > 0 {
        let front = rows.drop_last();
        lemma_largest_in(front, start);
        if row_number(rows.last()) > largest(front, start) {
            assert(row_number(rows[rows.len() - 1]) == largest(rows, start));
        } else if largest(front, start) != start {
            let k = choose|k: int|
                0 <= k < front.len() && row_number(#[trigger] front[k]) == largest(front, start);
            assert(rows[k] == front[k]);
        }
    }
}

proof fn lemma_largest_is_there(hunks: Seq<PaintedHunk>)
    ensures
        largest_number(hunks) == 0 || exists|g: int, k: int|
            0 <= g < hunks.len() && 0 <= k < hunks[g].rows@.len() && row_number(
                #[trigger] hunks[g].rows@[k],
            ) == largest_number(hunks),
    decreases hunks.len(),
{
    if hunks.len() > 0 {
        let front = hunks.drop_last();
        let n = largest_number(hunks);
        lemma_largest_is_there(front);
        lemma_largest_in(hunks.last().rows@, largest_number(front));
        if n == largest_number(front) {
            if n != 0 {
                let (g, k) = choose|g: int, k: int|
                    0 <= g < front.len() && 0 <= k < front[g].rows@.len() && row_number(
                        #[trigger] front[g].rows@[k],
                    ) == n;
                assert(hunks[g].rows@[k] == front[g].rows@[k]);
            }
        } else {
            let k = choose|k: int|
                0 <= k < hunks.last().rows@.len() && row_number(
                    #[trigger] hunks.last().rows@[k],
                ) == n;
            assert(hunks[hunks.len() - 1].rows@[k] == hunks.last().rows@[k]);
        }
    }
}

/// Two sides are shown on a hundred columns or more, and only when asked for.
pub proof fn law_split_layouts_need_a_hundred_columns(mode: ViewMode, width: u16)
    ensures
        drawn_mode(mode, width) is SideBySide <==> mode is SideBySide && width >= 100,
        other_mode(ViewMode::SideBySide) is Unified,
        other_mode(ViewMode::Unified) is SideBySide,
{
}

/// A tab is drawn as spaces up to the next multiple of four columns, at least
/// one; any other character as itself.
pub proof fn law_tabs_reach_the_next_stop(c: char, at: nat, i: int)
    ensures
        c != '\t' ==> glyph(c, at) == seq![c],
        1 <= glyph('\t', at).len() <= 4,
        (at + glyph('\t', at).len()) % 4 == 0,
        0 <= i < glyph('\t', at).len() ==> glyph('\t', at)[i] == ' ',
{
}

/// What a digit stands for.
pub open spec fn digit_value(c: char) -> int {
    c as int - '0' as int
}

/// A time of day reads as the seconds since midnight: two digits each for the
/// hours, the minutes below sixty and the seconds below sixty.
pub proof fn law_clocks_show_the_second_of_the_day(t: int)
    requires
        0 <= t < 86400,
    ensures
        ({
            let s = clock_text(t);
            let hours = 10 * digit_value(s[0]) + digit_value(s[1]);
            let minutes = 10 * digit_value(s[3]) + digit_value(s[4]);
            let seconds = 10 * digit_value(s[6]) + digit_value(s[7]);
            &&& s.len() == 8
            &&& s[2] == ':' && s[5] == ':'
            &&& 0 <= digit_value(s[1]) < 10 && 0 <= digit_value(s[4]) < 10 && 0 <= digit_value(
                s[7],
            ) < 10
            &&& 0 <= hours < 24 && 0 <= minutes < 60 && 0 <= seconds < 60
            &&& 3600 * hours + 60 * minutes + seconds == t
        }),
{
}

/// The second of the day is what is left of the seconds since the epoch, on
/// clocks that are `offset` ahead, over whole days of 86400 seconds.
pub proof fn law_the_second_of_the_day_leaves_out_whole_days(ms: int, offset: int, days: int)
    ensures
        0 <= day_second(ms, offset) < 86400,
        (ms / 1000 + offset - day_second(ms, offset)) % 86400 == 0,
        day_second(ms + 1000, offset) == day_second(ms, offset + 1),
        day_second(1000 * (86400 * days), 0) == 0,
{
}

/// A time that is known is shown as one, and one that is not as dashes.
pub proof fn law_only_unknown_times_are_dashes(s: Seq<char>, ts: u64)
    requires
        shows_time(s, ts),
    ensures
        ts == 0 ==> s == "--:--:--"@,
        0 < ts <= 8210266876799999 ==> s != "--:--:--"@ && exists|o: int|
            -86400 < o < 86400 && s == clock_text(#[trigger] day_second(ts as int, o)),
{
    if 0 < ts <= 8210266876799999 {
        assert(ts as i64 as int == ts as int);
        let o = choose|o: int|
            -86400 < o < 86400 && s == clock_text(#[trigger] day_second(ts as i64 as int, o));
        law_clocks_show_the_second_of_the_day(day_second(ts as int, o));
        reveal_strlit("--:--:--");
        assert("--:--:--"@[1] == '-');
    }
}

/// The tag of a session ends its id and has six characters, or all where the
/// id has fewer.
pub proof fn law_a_tag_is_the_end_of_the_id(id: Seq<char>)
    ensures
        id.len() > 6 ==> id_suffix(id).len() == 6 && id == id.take(id.len() - 6) + id_suffix(id),
        id.len() <= 6 ==> id_suffix(id) == id,
{
    if id.len() > 6 {
        assert(id =~= id.take(id.len() - 6) + id_suffix(id));
    }
}

/// The color of a session rests on its id alone: each byte is added to 31
/// times what came before, in 32 bits, and the rest over six picks the color.
pub proof fn law_a_session_keeps_its_color(id: Seq<char>, bytes: Seq<u8>, b: u8)
    ensures
        id_hash(Seq::<u8>::empty()) == 0,
        id_hash(bytes.push(b)) < 4294967296,
        (id_hash(bytes.push(b)) - 31 * id_hash(bytes) - b) % 4294967296 == 0,
        ({
            let n = id_hash(vstd::utf8::encode_utf8(id)) % 6;
            &&& n == 0 ==> id_color(id) is Cyan
            &&& n == 1 ==> id_color(id) is Magenta
            &&& n == 2 ==> id_color(id) is Yellow
            &&& n == 3 ==> id_color(id) is Green
            &&& n == 4 ==> id_color(id) is Blue
            &&& n == 5 ==> id_color(id) is LightRed
        }),
{
    assert(bytes.push(b).drop_last() =~= bytes);
}

/// A kind is tinted by what became of the file.
pub proof fn law_kinds_are_tinted(kind: DiffKind)
    ensures
        kind is Created ==> kind_tint(kind) == Some(Color::Green),
        kind is Deleted ==> kind_tint(kind) == Some(Color::Red),
        kind is Error || kind is Missing ==> kind_tint(kind) == Some(Color::Yellow),
        kind is Modified || kind is Binary ==> kind_tint(kind) is None,
{
}

/// Lines that go and lines that come have tints of their own, the words that
/// differ stronger ones, and a line that stays has none.
pub proof fn law_rows_are_tinted_by_kind(
    kind: RowKind,
    word: (Seq<char>, Option<Color>, bool),
)
    ensures
        base_style(row_style(kind)).bg == (match kind {
            RowKind::Equal => None,
            RowKind::Delete => Some(Color::RemovedBg),
            RowKind::Insert => Some(Color::AddedBg),
        }),
        run_style(row_style(kind), word).bg == (match kind {
            RowKind::Equal => None,
            RowKind::Delete => Some(
                if word.2 {
                    Color::RemovedEmphBg
                } else {
                    Color::RemovedBg
                },
            ),
            RowKind::Insert => Some(
                if word.2 {
                    Color::AddedEmphBg
                } else {
                    Color::AddedBg
                },
            ),
        }),
        run_style(row_style(kind), word).fg == word.1,
{
}

/// A part of a header behind another.
pub open spec fn behind(part: Option<Seq<char>>) -> Seq<char> {
    match part {
        Some(s) => " · "@ + s,
        None => Seq::empty(),
    }
}

/// The lines added and removed, where there are any.
pub open spec fn shown_counts(d: DiffResult) -> Option<Seq<char>> {
    if d.added == 0 && d.removed == 0 {
        None
    } else {
        Some("+"@ + text::digits(d.added as nat) + " -"@ + text::digits(d.removed as nat))
    }
}

/// The subagent in brackets.
pub open spec fn shown_agent(input: CardInput) -> Option<Seq<char>> {
    match input.agent {
        Some(s) => Some("["@ + s@ + "]"@),
        None => None,
    }
}

/// Whether the user changed the edit.
pub open spec fn shown_note(input: CardInput) -> Option<Seq<char>> {
    if input.user_modified {
        Some("(user modified)"@)
    } else {
        None
    }
}

/// The session of a card, with its worktree when that is another one.
pub open spec fn shown_session(input: CardInput) -> Option<Seq<char>> {
    match input.session_id {
        Some(id) => Some(
            match input.worktree {
                Some(wt) => wt@ + ":"@ + id_suffix(id@),
                None => id_suffix(id@),
            },
        ),
        None => None,
    }
}

proof fn lemma_joined_more(parts: Seq<Seq<char>>, part: Option<Seq<char>>)
    requires
        parts.len() > 0,
    ensures
        text::joined(
            parts + match part {
                Some(s) => seq![s],
                None => Seq::empty(),
            },
            " · "@,
        ) == text::joined(parts, " · "@) + behind(part),
{
    match part {
        Some(s) => {
            assert(parts + seq![s] =~= parts.push(s));
            text::law_joining(parts, s, " · "@);
            assert(text::joined(parts, " · "@) + " · "@ + s =~= text::joined(parts, " · "@)
                + behind(part));
        },
        None => {
            assert(parts + Seq::empty() =~= parts);
            assert(text::joined(parts, " · "@) + behind(part) =~= text::joined(parts, " · "@));
        },
    }
}

/// A header reads, parted by dots: the session when tags are asked for, the
/// path, the tool, the time when asked for, the kind, the lines added and
/// removed when there are any, the subagent, and whether the user changed the
/// edit.
pub proof fn law_a_header_reads(input: CardInput, time: Option<Seq<char>>, tags: bool)
    ensures
        header_plain(input, time, tags) == (if tags && shown_session(input) is Some {
            shown_session(input).unwrap() + " · "@
        } else {
            Seq::empty()
        }) + input.path@ + behind(Some(input.tool@)) + behind(time) + behind(
            Some(diff::kind_label(input.diff.kind)),
        ) + behind(shown_counts(input.diff)) + behind(shown_agent(input)) + behind(
            shown_note(input),
        ),
{
    let sep = " · "@;
    let none = Seq::<Seq<char>>::empty();
    let lead = if tags && shown_session(input) is Some {
        seq![shown_session(input).unwrap()]
    } else {
        none
    };
    let at = if tags && shown_session(input) is Some {
        shown_session(input).unwrap() + sep
    } else {
        Seq::empty()
    };
    let p0 = lead + seq![input.path@];
    let p1 = p0 + seq![input.tool@];
    let p2 = p1 + match time {
        Some(t) => seq![t],
        None => none,
    };
    let p3 = p2 + seq![diff::kind_label(input.diff.kind)];
    let p4 = p3 + match shown_counts(input.diff) {
        Some(s) => seq![s],
        None => none,
    };
    let p5 = p4 + match shown_agent(input) {
        Some(s) => seq![s],
        None => none,
    };
    let p6 = p5 + match shown_note(input) {
        Some(s) => seq![s],
        None => none,
    };
    assert(header_parts(input, time, tags) =~= p6);
    text::law_joining(lead, input.path@, sep);
    assert(p0 =~= lead.push(input.path@));
    if lead.len() > 0 {
        text::law_joining(none, lead[0], sep);
        assert(lead =~= seq![lead[0]]);
    } else {
        assert(p0 =~= seq![input.path@]);
    }
    assert(text::joined(p0, sep) =~= at + input.path@);
    lemma_joined_more(p0, Some(input.tool@));
    lemma_joined_more(p1, time);
    lemma_joined_more(p2, Some(diff::kind_label(input.diff.kind)));
    lemma_joined_more(p3, shown_counts(input.diff));
    lemma_joined_more(p4, shown_agent(input));
    lemma_joined_more(p5, shown_note(input));
}

proof fn lemma_after_more(parts: Seq<Seq<char>>, part: Option<Seq<char>>)
    ensures
        after_kind(
            parts + match part {
                Some(s) => seq![s],
                None => Seq::empty(),
            },
        ) == after_kind(parts) + behind(part),
{
    match part {
        Some(s) => {
            assert((parts + seq![s]).drop_last() =~= parts);
            assert(after_kind(parts) + " · "@ + s =~= after_kind(parts) + behind(part));
        },
        None => {
            assert(parts + Seq::empty() =~= parts);
            assert(after_kind(parts) + behind(part) =~= after_kind(parts));
        },
    }
}

proof fn lemma_after_kind(input: CardInput)
    ensures
        after_kind(extra_parts(input)) == behind(shown_counts(input.diff)) + behind(
            shown_agent(input),
        ) + behind(shown_note(input)),
{
    let none = Seq::<Seq<char>>::empty();
    let p1 = none + match shown_counts(input.diff) {
        Some(s) => seq![s],
        None => none,
    };
    let p2 = p1 + match shown_agent(input) {
        Some(s) => seq![s],
        None => none,
    };
    let p3 = p2 + match shown_note(input) {
        Some(s) => seq![s],
        None => none,
    };
    assert(extra_parts(input) =~= p3);
    lemma_after_more(none, shown_counts(input.diff));
    lemma_after_more(p1, shown_agent(input));
    lemma_after_more(p2, shown_note(input));
    assert(after_kind(none) + behind(shown_counts(input.diff)) =~= behind(
        shown_counts(input.diff),
    ));
}

/// A header bar reads `── `, the session when tags are asked for, the path,
/// the tool, the kind and what follows it, then a rule that fills the width,
/// and ends in the time and ` ──`. The session has its color and the kind its
/// tint.
pub proof fn law_a_header_bar_reads(input: CardInput, time: Seq<char>, width: nat, tags: bool)
    ensures
        ({
            let b = bar(input, time, width, tags);
            let used = style::line_cols(b.drop_last()) + columns::cols(" "@ + time + " ──"@);
            style::line_text(b) == "── "@ + (if tags && shown_session(input) is Some {
                shown_session(input).unwrap() + " · "@
            } else {
                Seq::empty()
            }) + bar_path(input, time, width, tags) + " · "@ + input.tool@ + " · "@
                + diff::kind_label(input.diff.kind) + behind(shown_counts(input.diff)) + behind(
                shown_agent(input),
            ) + behind(shown_note(input)) + " "@ + text::copies(
                '─',
                if used < width {
                    (width - used) as nat
                } else {
                    0
                },
            ) + " "@ + time + " ──"@
        }),
{
    let b = bar(input, time, width, tags);
    let start = bar_start(input, time, width, tags);
    let at = if tags && shown_session(input) is Some {
        shown_session(input).unwrap() + " · "@
    } else {
        Seq::empty()
    };
    assert(b.drop_last() =~= start);
    lemma_after_kind(input);
    lemma_bar_start_text(input, time, width, tags);
    let used = style::line_cols(b.drop_last()) + columns::cols(" "@ + time + " ──"@);
    let fill = text::copies(
        '─',
        if used < width {
            (width - used) as nat
        } else {
            0
        },
    );
    assert(b.last().0 == fill + (" "@ + time + " ──"@));
    lemma_flat(
        "── "@,
        at,
        bar_path(input, time, width, tags),
        input.tool@,
        diff::kind_label(input.diff.kind),
        behind(shown_counts(input.diff)),
        behind(shown_agent(input)),
        behind(shown_note(input)),
        fill,
        time,
        " ──"@,
    );
}

proof fn lemma_lead_text(input: CardInput, tags: bool)
    ensures
        style::line_text(bar_lead(input, tags)) == "── "@ + (if tags && shown_session(
            input,
        ) is Some {
            shown_session(input).unwrap() + " · "@
        } else {
            Seq::empty()
        }),
{
    let lead = bar_lead(input, tags);
    let look = bar_style();
    let rule = seq![("── "@, look)];
    style::lemma_one_span_text("── "@, look);
    if tags && shown_session(input) is Some {
        let tag = lead[1];
        let two = rule.push(tag);
        assert(two.drop_last() =~= rule);
        assert(lead.drop_last() =~= two);
        assert(style::line_text(two) == "── "@ + tag.0);
        assert(lead.last().0 == " · "@);
        assert(style::line_text(lead) == "── "@ + tag.0 + " · "@);
        assert("── "@ + tag.0 + " · "@ =~= "── "@ + (tag.0 + " · "@));
    } else {
        assert(lead =~= rule);
        assert("── "@ + Seq::<char>::empty() =~= "── "@);
    }
}

proof fn lemma_bar_start_text(input: CardInput, time: Seq<char>, width: nat, tags: bool)
    ensures
        style::line_text(bar_start(input, time, width, tags)) == "── "@ + (if tags
            && shown_session(input) is Some {
            shown_session(input).unwrap() + " · "@
        } else {
            Seq::empty()
        }) + bar_path(input, time, width, tags) + (" · "@ + input.tool@ + " · "@)
            + diff::kind_label(input.diff.kind) + (after_kind(extra_parts(input)) + " "@),
{
    let start = bar_start(input, time, width, tags);
    let lead = bar_lead(input, tags);
    let look = bar_style();
    lemma_lead_text(input, tags);
    let path = (bar_path(input, time, width, tags), look);
    let tool = (bar_tool(input), look);
    let kind = (
        diff::kind_label(input.diff.kind),
        Style { fg: kind_tint(input.diff.kind), ..look },
    );
    let rest = (after_kind(extra_parts(input)) + " "@, look);
    let s1 = lead.push(path);
    let s2 = s1.push(tool);
    let s3 = s2.push(kind);
    assert(start =~= s3.push(rest));
    assert(s1.drop_last() =~= lead);
    assert(s2.drop_last() =~= s1);
    assert(s3.drop_last() =~= s2);
    assert(s3.push(rest).drop_last() =~= s3);
    assert(style::line_text(s1) == style::line_text(lead) + path.0);
    assert(style::line_text(s2) == style::line_text(s1) + tool.0);
    assert(style::line_text(s3) == style::line_text(s2) + kind.0);
    assert(style::line_text(start) == style::line_text(s3) + rest.0);
}

proof fn lemma_flat(
    rule: Seq<char>,
    at: Seq<char>,
    path: Seq<char>,
    tool: Seq<char>,
    kind: Seq<char>,
    a: Seq<char>,
    b: Seq<char>,
    c: Seq<char>,
    fill: Seq<char>,
    time: Seq<char>,
    end: Seq<char>,
)
    ensures
        rule + at + path + (" · "@ + tool + " · "@) + kind + ((a + b + c) + " "@) + (fill + (" "@
            + time + end)) == rule + at + path + " · "@ + tool + " · "@ + kind + a + b + c + " "@
            + fill + " "@ + time + end,
{
    let dot = " · "@;
    let one = " "@;
    let s = rule + at + path;
    assert(s + (dot + tool + dot) =~= s + dot + tool + dot);
    let t = s + dot + tool + dot + kind;
    assert(t + ((a + b + c) + one) =~= t + a + b + c + one);
    let u = t + a + b + c + one;
    assert(u + (fill + (one + time + end)) =~= u + fill + one + time + end);
}

proof fn lemma_tail_kept(s: Seq<char>, keep: nat)
    ensures
        fitting_tail(s, keep).len() <= s.len(),
        fitting_tail(s, keep) == s.skip(s.len() - fitting_tail(s, keep).len()),
        char_sum(fitting_tail(s, keep)) <= keep,
        fitting_tail(s, keep).len() < s.len() ==> char_sum(
            s.skip(s.len() - fitting_tail(s, keep).len() - 1),
        ) > keep,
    decreases s.len(),
{
    if s.len() == 0 || char_sum(s) <= keep {
        assert(s.skip(0) =~= s);
    } else {
        let rest = s.drop_first();
        lemma_tail_kept(rest, keep);
        let t = fitting_tail(rest, keep);
        assert(rest.skip(rest.len() - t.len()) =~= s.skip(s.len() - t.len()));
        if t.len() < rest.len() {
            assert(rest.skip(rest.len() - t.len() - 1) =~= s.skip(s.len() - t.len() - 1));
        } else {
            assert(s.skip(0) =~= s);
        }
    }
}

/// A path that fits is shown whole. One that does not is shown as `…` and its
/// end, in all no wider than there is room, and one character more would be.
pub proof fn law_a_path_is_cut_from_the_left(s: Seq<char>, max: nat)
    requires
        max > 0,
    ensures
        columns::cols(s) <= max ==> elided(s, max) == s,
        columns::cols(s) > max ==> {
            let kept = elided(s, max).skip(1);
            &&& elided(s, max).len() > 0
            &&& elided(s, max)[0] == '…'
            &&& kept.len() <= s.len()
            &&& kept == s.skip(s.len() - kept.len())
            &&& char_sum(kept) + 1 <= max
            &&& kept.len() < s.len() ==> char_sum(s.skip(s.len() - kept.len() - 1)) + 1 > max
        },
{
    if columns::cols(s) > max {
        reveal_strlit("…");
        let t = fitting_tail(s, columns::room(max, 1));
        lemma_tail_kept(s, columns::room(max, 1));
        assert(elided(s, max).skip(1) =~= t);
    }
}

/// A painted diff has the hunks and rows of the diff, in order, with their
/// headers, kinds and numbers. Each row has the characters of its line and the
/// marks of the words that differ.
pub proof fn law_painting_keeps_the_diff(
    painted: Seq<PaintedHunk>,
    hunks: Seq<Hunk>,
    h: Option<History>,
    set: SyntaxSet,
    g: int,
    k: int,
    i: int,
)
    requires
        is_painting(painted, hunks, h, set),
        0 <= g < hunks.len(),
        0 <= k < hunks[g].rows@.len(),
    ensures
        painted.len() == hunks.len(),
        painted[g].header@ == diff::hunk_header(hunks[g]),
        painted[g].rows@.len() == hunks[g].rows@.len(),
        painted[g].rows@[k].kind == hunks[g].rows@[k].kind,
        painted[g].rows@[k].old_no == hunks[g].rows@[k].old_no,
        painted[g].rows@[k].new_no == hunks[g].rows@[k].new_no,
        ({
            let shown = cells(seg_views(painted[g].rows@[k].segs@));
            let line = linediff::marks(hunks[g].rows@[k].segments@);
            &&& shown.len() == line.len()
            &&& 0 <= i < line.len() ==> shown[i].0 == line[i].1 && shown[i].2 == line[i].0
        }),
{
    let rows = diff::all_rows(hunks);
    let from = diff::all_rows(hunks.take(g)).len();
    assert(is_painted_hunk(painted[g], hunks[g], h, set, rows, from));
    assert(is_painted(painted[g].rows@[k], hunks[g].rows@[k], colors_at(h, set, rows, from + k)));
    law_runs_keep_every_cell(
        row_cells(hunks[g].rows@[k].segments@, colors_at(h, set, rows, from + k)),
    );
}

/// A card shows its diff, and below a diff that was cut how many rows beyond
/// the first five hundred are left out.
pub proof fn law_a_card_shows_its_diff(
    d: DiffResult,
    painted: Seq<PaintedHunk>,
    opts: LayoutOpts,
)
    requires
        d.hunks@.len() > 0,
        d.kind !is Binary,
        d.kind !is Missing,
    ensures
        ({
            let all = laid_out(
                frame(painted, opts),
                drawn_mode(opts.mode, opts.width),
                painted,
                opts.wrap,
            );
            let body = card_body(d, painted, opts);
            &&& !d.truncated ==> body == all
            &&& d.truncated ==> body.drop_last() == all && body.len() == all.len() + 1
            &&& d.truncated && d.total_rows > 500 ==> style::line_text(body.last()) == "... "@
                + text::digits((d.total_rows - 500) as nat) + " more lines"@
        }),
{
    let all = laid_out(
        frame(painted, opts),
        drawn_mode(opts.mode, opts.width),
        painted,
        opts.wrap,
    );
    let body = card_body(d, painted, opts);
    if d.truncated {
        assert(body.drop_last() =~= all);
        let s = "... "@ + text::digits(hidden_rows(d)) + " more lines"@;
        style::lemma_one_span_text(s, Style { dim: true, italic: true, ..style::plain() });
    }
}

/// A card with nothing to show says so in one line.
pub proof fn law_a_card_without_a_diff_says_why(
    d: DiffResult,
    painted: Seq<PaintedHunk>,
    opts: LayoutOpts,
)
    requires
        d.hunks@.len() == 0 || d.kind is Binary || d.kind is Missing,
    ensures
        card_body(d, painted, opts).len() == 1,
        style::line_text(card_body(d, painted, opts)[0]) == (match d.kind {
            DiffKind::Binary => "(binary file)"@,
            DiffKind::Missing => "(file missing after edit)"@,
            DiffKind::Created => "(empty file created)"@,
            DiffKind::Deleted => "(empty file deleted)"@,
            DiffKind::Modified => "(no changes)"@,
            DiffKind::Error(why) => "(no diff: "@ + why@ + ")"@,
        }),
{
    let s = notice_text(d).unwrap();
    style::lemma_one_span_text(s, Style { dim: true, italic: true, ..style::plain() });
    assert(card_body(d, painted, opts)[0] == notice_line(s));
}

/// Each character is drawn at the column where those before it end: what
/// counts for a tab is the width of what was drawn.
pub proof fn law_characters_are_drawn_one_after_the_other(
    c: Seq<(char, Option<Color>, bool)>,
    i: int,
)
    requires
        0 <= i < c.len(),
    ensures
        glyphs(c).len() == c.len(),
        glyphs(c)[i] == (glyph(c[i].0, used(glyphs(c).take(i))), c[i].1, c[i].2),
{
    lemma_glyphs_prefix(c, i);
    lemma_glyphs_prefix(c, i + 1);
    lemma_column_is_used(c.take(i));
    let upto = c.take(i + 1);
    assert(upto.drop_last() =~= c.take(i));
    assert(glyphs(c).take(i + 1)[i] == glyphs(c)[i]);
    assert(glyphs(upto).last() == glyphs(c).take(i + 1)[i]);
}

proof fn lemma_column_is_used(c: Seq<(char, Option<Color>, bool)>)
    ensures
        column(c) == used(glyphs(c)),
    decreases c.len(),
{
    if c.len() > 0 {
        lemma_column_is_used(c.drop_last());
        assert(glyphs(c).drop_last() =~= glyphs(c.drop_last()));
    }
}

/// A line that is cut keeps as many characters as fit.
pub proof fn law_a_cut_keeps_what_fits(g: Seq<(Seq<char>, Option<Color>, bool)>, limit: nat)
    ensures
        fitting(g, limit) <= g.len(),
        used(g.take(fitting(g, limit) as int)) <= limit,
        fitting(g, limit) < g.len() ==> used(g.take(fitting(g, limit) as int + 1)) > limit,
    decreases g.len(),
{
    lemma_fitting_bound(g, limit);
    if g.len() > 0 {
        let front = g.drop_last();
        law_a_cut_keeps_what_fits(front, limit);
        let n = fitting(front, limit) as int;
        if n < front.len() {
            assert(front.take(n + 1) =~= g.take(n + 1));
        } else {
            assert(g.take(n + 1) =~= g);
        }
    }
}

/// A line is wrapped only where the next character has no room.
pub proof fn law_wrapped_lines_are_full(
    g: Seq<(Seq<char>, Option<Color>, bool)>,
    limit: nat,
    i: int,
)
    requires
        0 <= i,
        i + 1 < wrapped(g, limit).len(),
    ensures
        wrapped(g, limit)[i + 1].len() > 0,
        used(wrapped(g, limit)[i]) + columns::cols(wrapped(g, limit)[i + 1][0].0) > limit,
    decreases g.len(),
{
    if g.len() > 0 {
        let front = g.drop_last();
        let v = wrapped(front, limit);
        lemma_wrapped_cells(front, limit);
        if i + 1 < v.len() {
            law_wrapped_lines_are_full(front, limit, i);
        }
    }
}

/// Where a piece of a line begins.
pub open spec fn piece_start(inks: Seq<(Rgba, Seq<char>)>, n: int) -> nat
    decreases n,
{
    if n <= 0 {
        0
    } else {
        piece_start(inks, n - 1) + inks[n - 1].1.len()
    }
}

proof fn lemma_piece_start_front(inks: Seq<(Rgba, Seq<char>)>, n: int)
    requires
        inks.len() > 0,
        n < inks.len(),
    ensures
        piece_start(inks.drop_last(), n) == piece_start(inks, n),
    decreases n,
{
    if n > 0 {
        lemma_piece_start_front(inks, n - 1);
        assert(inks.drop_last()[n - 1] == inks[n - 1]);
    }
}

/// Each character has the color of the piece it is in; a piece that is
/// transparent has none.
pub proof fn law_characters_have_the_color_of_their_piece(
    inks: Seq<(Rgba, Seq<char>)>,
    p: int,
    i: int,
)
    requires
        0 <= p < inks.len(),
        0 <= i < inks[p].1.len(),
    ensures
        spread(inks).len() == piece_start(inks, inks.len() as int),
        piece_start(inks, p) + i < spread(inks).len(),
        spread(inks)[piece_start(inks, p) + i] == (if inks[p].0.3 == 0 {
            None
        } else {
            Some(Color::Rgb(inks[p].0.0, inks[p].0.1, inks[p].0.2))
        }),
    decreases inks.len(),
{
    let front = inks.drop_last();
    lemma_spread_len(front);
    lemma_spread_len(inks);
    lemma_piece_start_front(inks, front.len() as int);
    if p < front.len() {
        lemma_piece_start_front(inks, p);
        assert(front[p] == inks[p]);
        law_characters_have_the_color_of_their_piece(front, p, i);
        assert(spread(inks)[piece_start(inks, p) + i] == spread(front)[piece_start(inks, p) + i]);
    }
}

proof fn lemma_spread_len(inks: Seq<(Rgba, Seq<char>)>)
    ensures
        spread(inks).len() == piece_start(inks, inks.len() as int),
    decreases inks.len(),
{
    if inks.len() > 0 {
        lemma_spread_len(inks.drop_last());
        lemma_piece_start_front(inks, inks.len() - 1);
    }
}

/// The lines of one side of some rows: all but those of the other side alone.
pub open spec fn side_lines(set: SyntaxSet, rows: Seq<Row>, other: RowKind) -> Seq<
    (SyntaxSet, Seq<char>),
>
    decreases rows.len(),
{
    if rows.len() == 0 {
        Seq::empty()
    } else if rows.last().kind == other {
        side_lines(set, rows.drop_last(), other)
    } else {
        side_lines(set, rows.drop_last(), other).push(
            (set, linediff::pieces_text(rows.last().segments@) + "\n"@),
        )
    }
}

proof fn lemma_sides(h: History, set: SyntaxSet, rows: Seq<Row>)
    ensures
        old_after(Some(h), set, rows) == Some(
            History { lines: h.lines + side_lines(set, rows, RowKind::Insert), ..h },
        ),
        new_after(Some(h), set, rows) == Some(
            History { lines: h.lines + side_lines(set, rows, RowKind::Delete), ..h },
        ),
    decreases rows.len(),
{
    let a = side_lines(set, rows, RowKind::Insert);
    let b = side_lines(set, rows, RowKind::Delete);
    if rows.len() == 0 {
        assert(h.lines + a =~= h.lines);
        assert(h.lines + b =~= h.lines);
    } else {
        let front = rows.drop_last();
        lemma_sides(h, set, front);
        let line = (set, fed_line(rows.last()));
        let fa = side_lines(set, front, RowKind::Insert);
        let fb = side_lines(set, front, RowKind::Delete);
        assert((h.lines + fa).push(line) =~= h.lines + fa.push(line));
        assert((h.lines + fb).push(line) =~= h.lines + fb.push(line));
    }
}

/// Each side of a diff is colored as it reads: a line that goes by the lines
/// of the old side up to it, any other by those of the new side. Without a
/// syntax no line has a color.
pub proof fn law_each_side_is_colored_as_it_reads(
    h: History,
    set: SyntaxSet,
    rows: Seq<Row>,
    n: int,
)
    requires
        0 <= n < rows.len(),
    ensures
        colors_at(Some(h), set, rows, n) == line_colors(
            syntax::colored(
                History {
                    lines: h.lines + side_lines(
                        set,
                        rows.take(n + 1),
                        if rows[n].kind is Delete {
                            RowKind::Insert
                        } else {
                            RowKind::Delete
                        },
                    ),
                    ..h
                },
            ),
        ),
        colors_at(None, set, rows, n).len() == 0,
{
    lemma_sides(h, set, rows.take(n + 1));
    lemma_no_history(set, rows.take(n + 1));
}

proof fn lemma_no_history(set: SyntaxSet, rows: Seq<Row>)
    ensures
        old_after(None, set, rows) is None,
        new_after(None, set, rows) is None,
    decreases rows.len(),
{
    if rows.len() > 0 {
        lemma_no_history(set, rows.drop_last());
    }
}

/// A painted row has the colors of its line, character by character.
pub proof fn law_painted_rows_have_the_colors_of_their_line(
    painted: Seq<PaintedHunk>,
    hunks: Seq<Hunk>,
    h: Option<History>,
    set: SyntaxSet,
    g: int,
    k: int,
    i: int,
)
    requires
        is_painting(painted, hunks, h, set),
        0 <= g < hunks.len(),
        0 <= k < hunks[g].rows@.len(),
        0 <= i < linediff::marks(hunks[g].rows@[k].segments@).len(),
    ensures
        ({
            let at = diff::all_rows(hunks.take(g)).len() + k;
            let colors = colors_at(h, set, diff::all_rows(hunks), at);
            let shown = cells(seg_views(painted[g].rows@[k].segs@));
            &&& diff::all_rows(hunks)[at] == hunks[g].rows@[k]
            &&& i < colors.len() ==> shown[i].1 == colors[i]
            &&& i >= colors.len() ==> shown[i].1 is None
        }),
{
    let rows = diff::all_rows(hunks);
    let from = diff::all_rows(hunks.take(g)).len();
    assert(is_painted_hunk(painted[g], hunks[g], h, set, rows, from));
    assert(is_painted(painted[g].rows@[k], hunks[g].rows@[k], colors_at(h, set, rows, from + k)));
    law_runs_keep_every_cell(
        row_cells(hunks[g].rows@[k].segments@, colors_at(h, set, rows, from + k)),
    );
    lemma_row_of_hunk(hunks, g, k);
}

proof fn lemma_row_of_hunk(hunks: Seq<Hunk>, g: int, k: int)
    requires
        0 <= g < hunks.len(),
        0 <= k < hunks[g].rows@.len(),
    ensures
        diff::all_rows(hunks.take(g)).len() + k < diff::all_rows(hunks).len(),
        diff::all_rows(hunks)[diff::all_rows(hunks.take(g)).len() + k] == hunks[g].rows@[k],
    decreases hunks.len(),
{
    let front = hunks.drop_last();
    if g < front.len() {
        assert(front.take(g) =~= hunks.take(g));
        assert(front[g] == hunks[g]);
        lemma_row_of_hunk(front, g, k);
    } else {
        assert(hunks.take(g) =~= front);
    }
}

/// The syntax of a card is that of the file that was edited, whatever the card
/// shows of its path.
pub proof fn law_the_syntax_is_that_of_the_file(input: CardInput, set: SyntaxSet, theme: Theme)
    ensures
        card_syntax(input, set) == syntax::syntax_of(
            set,
            paths::suffix_of(input.file@),
            paths::base_name(input.file@),
            input.diff.first_line@,
        ),
        fresh(None, theme) is None,
        card_syntax(input, set) matches Some(s) ==> fresh(Some(s), theme) == Some(
            History { theme, syntax: s, lines: Seq::empty() },
        ),
{
}

/// Without wrapping, simple text of no more characters than the column has is
/// drawn whole; of more, all but the last column of it and `…` are.
pub proof fn law_simple_text_is_cut_at_its_column(
    segs: Seq<(Seq<char>, Option<Color>, bool)>,
    col: nat,
)
    requires
        col > 0,
        forall|i: int| 0 <= i < segs.len() ==> columns::all_simple((#[trigger] segs[i]).0),
    ensures
        chunked(segs, col, false).len() == 1,
        cells(segs).len() <= col ==> cells(chunked(segs, col, false)[0]) == cells(segs),
        cells(segs).len() > col ==> plain_cells(cells(chunked(segs, col, false)[0])) == plain_cells(
            cells(segs),
        ).take(col - 1).push('…'),
{
    let c = cells(segs);
    let g = glyphs(c);
    lemma_simple_glyphs(segs);
    assert forall|i: int| 0 <= i < c.len() implies easy((#[trigger] c[i]).0) && c[i].0 != '\t' by {
        assert(columns::simple(c[i].0));
    }
    lemma_easy_glyphs(c);
    law_text_without_tabs_is_drawn_as_it_is(c);
    lemma_simple_glyphs(g);
    let line = chunked(segs, col, false)[0];
    if c.len() <= col {
        law_runs_keep_every_cell(c);
    } else {
        let limit = (col - 1) as nat;
        let n = fitting(g, limit) as int;
        law_a_cut_keeps_what_fits(g, limit);
        lemma_simple_take(c, n);
        assert(n < g.len()) by {
            assert(g.take(g.len() as int) =~= g);
        }
        lemma_simple_take(c, n + 1);
        assert(n == limit);
        law_runs_keep_every_cell(c.take(n));
        reveal_strlit("…");
        assert(columns::room(limit, used(g.take(n))) == 0);
        let mark = text::copies(' ', 0) + "…"@;
        assert(line == drawn(g.take(n)).push((mark, Some(GUTTER_FG), false)));
        assert(line.drop_last() =~= drawn(g.take(n)));
        assert(mark =~= seq!['…']);
        assert(plain_cells(cells(line)) =~= plain_cells(c).take(col - 1).push('…'));
    }
}

proof fn lemma_simple_take(c: Seq<(char, Option<Color>, bool)>, n: int)
    requires
        0 <= n <= c.len(),
        forall|i: int| 0 <= i < c.len() ==> columns::simple((#[trigger] c[i]).0),
    ensures
        used(glyphs(c).take(n)) == n,
        cells(glyphs(c).take(n)) == c.take(n),
{
    let t = c.take(n);
    lemma_glyphs_prefix(c, n);
    assert forall|i: int| 0 <= i < t.len() implies easy((#[trigger] t[i]).0) && t[i].0 != '\t' by {
        assert(t[i] == c[i]);
        assert(columns::simple(c[i].0));
    }
    lemma_easy_glyphs(t);
    law_text_without_tabs_is_drawn_as_it_is(t);
    lemma_simple_glyphs(glyphs(t));
}

} // verus!
