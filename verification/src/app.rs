//! TUI state: the card feed, scrolling, follow mode, and the key bindings.

use vstd::prelude::*;
use vstd::string::*;

use crate::columns;
use crate::paths;
use crate::render;
use crate::render::{EditCard, LayoutOpts, ViewMode};
use crate::session;
use crate::session::{CardInput, Pipeline};
use crate::spool::SpoolTailer;
use crate::style;
use crate::style::{Line, Span, Style};
use crate::syntax::Painter;
use crate::text;

verus! {

/// Lines one turn of the mouse wheel scrolls.
pub const WHEEL_STEP: usize = 3;

/// Key table shown by `?`.
pub const KEYS: [(&'static str, &'static str); 14] = [
    ("j / k, arrows, wheel", "scroll"),
    ("Ctrl-d / Ctrl-u", "half page"),
    ("PgDn / PgUp", "page"),
    ("g / G", "top / bottom, resume follow"),
    ("p", "toggle follow"),
    ("n / N", "next / previous card"),
    ("Enter", "collapse / expand card"),
    ("z", "collapse / expand all"),
    ("v", "side by side / unified"),
    ("w", "toggle wrap"),
    ("o", "show / hide temp files"),
    ("Tab", "cycle session filter"),
    ("?", "this help"),
    ("q, Esc, Ctrl-c", "quit"),
];

/// A key.
#[derive(Debug, Clone, Copy, PartialEq, Eq, Structural)]
pub enum KeyCode {
    Char(char),
    Enter,
    Esc,
    Tab,
    Up,
    Down,
    PageUp,
    PageDown,
    Other,
}

/// A key that was pressed, and whether Ctrl was held.
#[derive(Debug, Clone, Copy, PartialEq, Eq, Structural)]
pub struct KeyEvent {
    pub code: KeyCode,
    pub ctrl: bool,
}

/// What the mouse did.
#[derive(Debug, Clone, Copy, PartialEq, Eq, Structural)]
pub enum MouseEvent {
    ScrollUp,
    ScrollDown,
    Other,
}

/// Where a visible card starts in the feed.
#[derive(Debug, Clone, Copy, PartialEq, Eq, Structural)]
pub struct CardSpan {
    pub start: usize,
    pub card: usize,
}

/// The state of the monitor's screen.
pub struct App {
    pub cards: Vec<EditCard>,
    pub lines: Vec<Line>,
    /// One entry per visible card, in feed order.
    pub spans: Vec<CardSpan>,
    /// The line at the top of the viewport.
    pub offset: usize,
    pub follow: bool,
    pub quit: bool,
    pub help: bool,
    pub mode: ViewMode,
    pub wrap: bool,
    /// Whether cards of scratch files are shown.
    pub show_temp: bool,
    /// What the agent is called.
    pub agent: String,
    pub cwd: String,
    pub width: u16,
    pub viewport: usize,
    pub pending_width: Option<u16>,
    pub pipeline: Pipeline,
    pub tailer: SpoolTailer,
    pub spool_path: String,
    /// Session ids in order of first card.
    pub sessions: Vec<String>,
    /// Index into `sessions` when the feed is filtered to one session.
    pub selected: Option<usize>,
    pub painter: Painter,
}

/// What a feed is made of.
pub struct Feed {
    pub cards: Seq<EditCard>,
    pub width: u16,
    pub tags: bool,
    pub session: Option<Seq<char>>,
    pub show_temp: bool,
}

/// Whether a card belongs to the selected session; all do when none is.
pub open spec fn of_session(f: Feed, card: EditCard) -> bool {
    match f.session {
        Some(id) => text::opt_text(card.input.session_id) == Some(id),
        None => true,
    }
}

/// Whether a card is shown.
pub open spec fn is_shown(f: Feed, card: EditCard) -> bool {
    of_session(f, card) && (f.show_temp || !card.input.temp)
}

/// The lines of one card: its header, its body unless it is collapsed, and a
/// blank line.
pub open spec fn card_block(f: Feed, card: EditCard) -> Seq<Seq<(Seq<char>, Style)>> {
    let head = seq![render::bar(card.input, card.time@, f.width as nat, f.tags)];
    let blank = seq![Seq::<(Seq<char>, Style)>::empty()];
    if card.collapsed {
        head + blank
    } else {
        head + style::line_views(card.lines@) + blank
    }
}

/// The lines of the first `n` cards, as far as they are shown.
pub open spec fn feed_lines(f: Feed, n: int) -> Seq<Seq<(Seq<char>, Style)>>
    decreases n,
{
    if n <= 0 {
        Seq::empty()
    } else if is_shown(f, f.cards[n - 1]) {
        feed_lines(f, n - 1) + card_block(f, f.cards[n - 1])
    } else {
        feed_lines(f, n - 1)
    }
}

/// Where the first `n` cards start, as far as they are shown: the line and the
/// card.
pub open spec fn feed_spans(f: Feed, n: int) -> Seq<(int, int)>
    decreases n,
{
    if n <= 0 {
        Seq::empty()
    } else if is_shown(f, f.cards[n - 1]) {
        feed_spans(f, n - 1).push((feed_lines(f, n - 1).len() as int, n - 1))
    } else {
        feed_spans(f, n - 1)
    }
}

/// The numbers of a list of spans.
pub open spec fn span_views(spans: Seq<CardSpan>) -> Seq<(int, int)> {
    spans.map_values(|s: CardSpan| (s.start as int, s.card as int))
}

/// The last offset that fills the viewport.
pub open spec fn last_offset(lines: nat, viewport: nat) -> nat {
    columns::room(lines, viewport)
}

/// The offset after the feed changed: the last one when following, else no
/// more than that.
pub open spec fn clamped(lines: nat, viewport: nat, follow: bool, offset: nat) -> nat {
    if follow || offset > last_offset(lines, viewport) {
        last_offset(lines, viewport)
    } else {
        offset
    }
}

/// The last span that starts at `offset` or before it; `-1` when none does.
pub open spec fn owner(spans: Seq<CardSpan>, offset: usize) -> int
    decreases spans.len(),
{
    if spans.len() == 0 {
        -1
    } else if spans.last().start <= offset {
        spans.len() - 1
    } else {
        owner(spans.drop_last(), offset)
    }
}

/// The owner of a line starts at it or before, and no later card does.
pub proof fn lemma_owner(spans: Seq<CardSpan>, offset: usize)
    ensures
        -1 <= owner(spans, offset) < spans.len(),
        owner(spans, offset) >= 0 ==> spans[owner(spans, offset)].start <= offset,
        forall|i: int| owner(spans, offset) < i < spans.len() ==> (#[trigger] spans[i]).start > offset,
    decreases spans.len(),
{
    if spans.len() > 0 && spans.last().start > offset {
        let front = spans.drop_last();
        lemma_owner(front, offset);
        assert forall|i: int| owner(spans, offset) < i < spans.len() implies (
        #[trigger] spans[i]).start > offset by {
            if i < front.len() {
                assert(front[i] == spans[i]);
            }
        }
    }
}

impl App {
    /// The selected session.
    pub open spec fn session(self) -> Option<Seq<char>> {
        match self.selected {
            Some(i) => Some(self.sessions@[i as int]@),
            None => None,
        }
    }

    /// What the feed is made of.
    pub open spec fn feed(self) -> Feed {
        Feed {
            cards: self.cards@,
            width: self.width,
            tags: self.sessions@.len() > 1,
            session: self.session(),
            show_temp: self.show_temp,
        }
    }

    /// Whether the selection and the spans point at what is there, and the
    /// spans are in order.
    pub open spec fn wf(self) -> bool {
        &&& self.selected matches Some(i) ==> i < self.sessions@.len()
        &&& self.viewport >= 1
        &&& forall|i: int|
            0 <= i < self.spans@.len() ==> (#[trigger] self.spans@[i]).start < self.lines@.len()
                && self.spans@[i].card < self.cards@.len()
        &&& forall|i: int, j: int|
            0 <= i < j < self.spans@.len() ==> (#[trigger] self.spans@[i]).start < (
            #[trigger] self.spans@[j]).start
    }

    /// Whether the lines and the spans are those of the cards.
    pub open spec fn current_feed(self) -> bool {
        &&& style::line_views(self.lines@) == feed_lines(self.feed(), self.cards@.len() as int)
        &&& span_views(self.spans@) == feed_spans(self.feed(), self.cards@.len() as int)
    }

    /// Whether the feed is up to date after a change, with an offset that was
    /// `offset` before.
    pub open spec fn settled(self, offset: usize) -> bool {
        &&& self.current_feed()
        &&& self.offset == clamped(
            self.lines@.len(),
            self.viewport as nat,
            self.follow,
            offset as nat,
        )
    }

    /// The last offset that fills the viewport.
    pub open spec fn bottom(self) -> nat {
        last_offset(self.lines@.len(), self.viewport as nat)
    }

    /// How cards are laid out.
    pub open spec fn layout_opts(self) -> LayoutOpts {
        LayoutOpts { mode: self.mode, width: self.width, wrap: self.wrap }
    }

    fn opts(&self) -> (r: LayoutOpts)
        ensures
            r == self.layout_opts(),
    {
        LayoutOpts { mode: self.mode, width: self.width, wrap: self.wrap }
    }

    pub fn selected_session(&self) -> (r: Option<&str>)
        requires
            self.wf(),
        ensures
            r is Some <==> self.session() is Some,
            r matches Some(s) ==> self.session() == Some(s@),
    {
        match self.selected {
            Some(i) => Some(self.sessions[i].as_str()),
            None => None,
        }
    }

    fn of_selected(&self, card: &EditCard) -> (r: bool)
        requires
            self.wf(),
        ensures
            r == of_session(self.feed(), *card),
    {
        match self.selected_session() {
            Some(id) => match &card.input.session_id {
                Some(s) => text::same(s.as_str(), id),
                None => false,
            },
            None => true,
        }
    }

    fn is_visible(&self, card: &EditCard) -> (r: bool)
        requires
            self.wf(),
        ensures
            r == is_shown(self.feed(), *card),
    {
        self.of_selected(card) && (self.show_temp || !card.input.temp)
    }

    fn max_offset(&self) -> (n: usize)
        ensures
            n == self.bottom(),
    {
        self.lines.len().saturating_sub(self.viewport)
    }

    fn clamp(&mut self)
        ensures
            final(self).offset == clamped(
                old(self).lines@.len(),
                old(self).viewport as nat,
                old(self).follow,
                old(self).offset as nat,
            ),
            *final(self) == (App { offset: final(self).offset, ..*old(self) }),
    {
        let max: usize = self.max_offset();
        if self.follow || self.offset > max {
            self.offset = max;
        }
    }

    /// Makes the lines and spans anew from the cards.
    pub fn rebuild_lines(&mut self)
        requires
            old(self).wf(),
        ensures
            final(self).wf(),
            final(self).settled(old(self).offset),
            *final(self) == (App {
                lines: final(self).lines,
                spans: final(self).spans,
                offset: final(self).offset,
                ..*old(self)
            }),
    {
        let ghost f = self.feed();
        let tags = self.sessions.len() > 1;
        let mut lines: Vec<Line> = Vec::new();
        let mut spans: Vec<CardSpan> = Vec::new();
        let mut i: usize = 0;
        assert(style::line_views(lines@) =~= feed_lines(f, 0));
        assert(span_views(spans@) =~= feed_spans(f, 0));
        while i < self.cards.len()
            invariant
                i <= self.cards@.len(),
                self.wf(),
                f == self.feed(),
                tags == f.tags,
                *self == *old(self),
                style::line_views(lines@) == feed_lines(f, i as int),
                span_views(spans@) == feed_spans(f, i as int),
                forall|k: int|
                    0 <= k < spans@.len() ==> (#[trigger] spans@[k]).start < lines@.len()
                        && spans@[k].card < i,
                forall|k: int, j: int|
                    0 <= k < j < spans@.len() ==> (#[trigger] spans@[k]).start < (
                    #[trigger] spans@[j]).start,
            decreases self.cards@.len() - i,
        {
            if self.is_visible(&self.cards[i]) {
                let ghost before = lines@;
                let ghost spans_before = spans@;
                assert(style::line_views(before).len() == before.len());
                spans.push(CardSpan { start: lines.len(), card: i });
                proof {
                    assert(span_views(spans@) =~= span_views(spans_before).push(
                        (before.len() as int, i as int),
                    ));
                }
                self.push_block(&mut lines, i, tags);
                assert(style::line_views(lines@).len() == lines@.len());
            }
            i += 1;
        }
        self.lines = lines;
        self.spans = spans;
        self.clamp();
        assert(self.feed() == f);
    }

    fn push_block(&self, lines: &mut Vec<Line>, i: usize, tags: bool)
        requires
            i < self.cards@.len(),
            tags == self.feed().tags,
        ensures
            style::line_views(final(lines)@) == style::line_views(old(lines)@) + card_block(
                self.feed(),
                self.cards@[i as int],
            ),
            final(lines)@.len() > old(lines)@.len(),
    {
        let card = &self.cards[i];
        let ghost start = style::line_views(lines@);
        let head = card.header_line(self.width, tags);
        let ghost h = head@;
        lines.push(head);
        assert(style::line_views(lines@) =~= start.push(h));
        if !card.collapsed {
            let ghost body = style::line_views(card.lines@);
            let mut k: usize = 0;
            assert(start.push(h) + body.take(0) =~= start.push(h));
            while k < card.lines.len()
                invariant
                    k <= card.lines@.len(),
                    body == style::line_views(card.lines@),
                    style::line_views(lines@) == start.push(h) + body.take(k as int),
                decreases card.lines@.len() - k,
            {
                let line = card.lines[k].copy();
                let ghost v = line@;
                let ghost before = style::line_views(lines@);
                lines.push(line);
                proof {
                    assert(style::line_views(lines@) =~= before.push(v));
                    assert(body.take(k + 1) =~= body.take(k as int).push(v));
                }
                k += 1;
            }
            assert(body.take(k as int) =~= body);
        }
        let ghost before = style::line_views(lines@);
        let blank = Line { spans: Vec::new() };
        assert(blank@ =~= Seq::empty());
        lines.push(blank);
        proof {
            let none = Seq::<(Seq<char>, Style)>::empty();
            assert(style::line_views(lines@) =~= before.push(none));
            assert(style::line_views(lines@) =~= start + card_block(
                self.feed(),
                self.cards@[i as int],
            ));
            assert(style::line_views(lines@).len() == lines@.len());
        }
    }
}

/// Whether `new` are the cards `old_cards` laid out for `opts`.
pub open spec fn rerendered(
    new: Seq<EditCard>,
    old_cards: Seq<EditCard>,
    opts: LayoutOpts,
) -> bool {
    &&& new.len() == old_cards.len()
    &&& forall|i: int|
        0 <= i < new.len() ==> #[trigger] new[i] == (EditCard {
            lines: new[i].lines,
            ..old_cards[i]
        }) && style::line_views(new[i].lines@) == render::card_body(
            old_cards[i].input.diff,
            old_cards[i].painted@,
            opts,
        )
}

/// `new` is `was` with its cards laid out anew for its own options.
pub open spec fn relaid(was: App, new: App) -> bool {
    &&& rerendered(new.cards@, was.cards@, new.layout_opts())
    &&& new.settled(was.offset)
}

/// `v` was pressed: the other view.
pub open spec fn view_toggled(was: App, new: App) -> bool {
    &&& new == (App {
        mode: render::other_mode(was.mode),
        cards: new.cards,
        lines: new.lines,
        spans: new.spans,
        offset: new.offset,
        ..was
    })
    &&& relaid(was, new)
}

/// `w` was pressed: wrapping on or off.
pub open spec fn wrap_toggled(was: App, new: App) -> bool {
    &&& new == (App {
        wrap: !was.wrap,
        cards: new.cards,
        lines: new.lines,
        spans: new.spans,
        offset: new.offset,
        ..was
    })
    &&& relaid(was, new)
}

/// `o` was pressed: cards of scratch files shown or hidden.
pub open spec fn temp_toggled(was: App, new: App) -> bool {
    &&& new == (App {
        show_temp: !was.show_temp,
        lines: new.lines,
        spans: new.spans,
        offset: new.offset,
        ..was
    })
    &&& new.settled(was.offset)
}

/// The next selection: all sessions, then each in the order of its first card,
/// then all again.
pub open spec fn next_selection(selected: Option<usize>, sessions: nat) -> Option<usize> {
    match selected {
        None => if sessions == 0 {
            None
        } else {
            Some(0)
        },
        Some(i) => if i + 1 < sessions {
            Some((i + 1) as usize)
        } else {
            None
        },
    }
}

/// Tab was pressed: the next selection.
pub open spec fn session_cycled(was: App, new: App) -> bool {
    &&& new == (App {
        selected: next_selection(was.selected, was.sessions@.len()),
        lines: new.lines,
        spans: new.spans,
        offset: new.offset,
        ..was
    })
    &&& new.settled(was.offset)
}

/// `new` is `was` scrolled up by `n` lines. That pauses follow.
pub open spec fn scrolled_up(was: App, new: App, n: nat) -> bool {
    &&& new == (App { offset: new.offset, follow: false, ..was })
    &&& new.offset == columns::room(was.offset as nat, n)
}

/// `new` is `was` scrolled down by `n` lines. That resumes follow at the
/// bottom.
pub open spec fn scrolled_down(was: App, new: App, n: nat) -> bool {
    &&& new.offset == (if was.offset + n > was.bottom() {
        was.bottom()
    } else {
        (was.offset + n) as nat
    })
    &&& new == (App {
        offset: new.offset,
        follow: was.follow || new.offset == was.bottom(),
        ..was
    })
}

/// `new` is `was` scrolled by `n` lines; by none counts as down.
pub open spec fn scrolled(was: App, new: App, up: bool, n: nat) -> bool {
    if up && n > 0 {
        scrolled_up(was, new, n)
    } else {
        scrolled_down(was, new, n)
    }
}

/// `new` is `was` with `line` at the top of the viewport, as far as the feed
/// reaches. Follow is on only when that is also the bottom.
pub open spec fn jumped(was: App, new: App, line: nat) -> bool {
    &&& new.offset == (if line > was.bottom() {
        was.bottom()
    } else {
        line
    })
    &&& new == (App { offset: new.offset, follow: new.offset == was.bottom(), ..was })
}

/// `n` was pressed: the next card's header to the top.
pub open spec fn next_shown(was: App, new: App) -> bool {
    let i = owner(was.spans@, was.offset);
    if i >= 0 && i + 1 < was.spans@.len() {
        jumped(was, new, was.spans@[i + 1].start as nat)
    } else {
        new == was
    }
}

/// `N` was pressed: the current card's header to the top, or the previous
/// card's when it is there already.
pub open spec fn prev_shown(was: App, new: App) -> bool {
    let i = owner(was.spans@, was.offset);
    if i < 0 {
        new == was
    } else if was.offset > was.spans@[i].start {
        jumped(was, new, was.spans@[i].start as nat)
    } else if i > 0 {
        jumped(was, new, was.spans@[i - 1].start as nat)
    } else {
        new == was
    }
}

/// The first span of a card; `-1` when it has none.
pub open spec fn span_of(spans: Seq<CardSpan>, card: int) -> int
    decreases spans.len(),
{
    if spans.len() == 0 {
        -1
    } else {
        let i = span_of(spans.drop_last(), card);
        if i >= 0 {
            i
        } else if spans.last().card == card {
            spans.len() - 1
        } else {
            -1
        }
    }
}

/// `new` is `was` with a feed that is up to date, `card` at its top and follow
/// off, unless the top is the bottom.
pub open spec fn kept_at(was: App, new: App, card: int) -> bool {
    let i = span_of(new.spans@, card);
    &&& new == (App {
        lines: new.lines,
        spans: new.spans,
        offset: new.offset,
        follow: new.follow,
        ..was
    })
    &&& new.current_feed()
    &&& if i >= 0 {
        let line = new.spans@[i].start as nat;
        &&& new.offset == (if line > new.bottom() {
            new.bottom()
        } else {
            line
        })
        &&& new.follow == (new.offset == new.bottom())
    } else {
        &&& new.offset == clamped(new.lines@.len(), new.viewport as nat, false, was.offset as nat)
        &&& !new.follow
    }
}

/// Whether `new` are the cards `old_cards` with card `i` collapsed or expanded.
pub open spec fn one_collapsed(new: Seq<EditCard>, old_cards: Seq<EditCard>, i: int) -> bool {
    new == old_cards.update(
        i,
        EditCard { collapsed: !old_cards[i].collapsed, ..old_cards[i] },
    )
}

/// Enter was pressed: the current card collapsed or expanded.
pub open spec fn collapse_toggled(was: App, new: App) -> bool {
    let i = owner(was.spans@, was.offset);
    if i < 0 {
        new == was
    } else {
        let card = was.spans@[i].card as int;
        &&& one_collapsed(new.cards@, was.cards@, card)
        &&& kept_at(App { cards: new.cards, ..was }, new, card)
    }
}

/// Whether a card has a span.
pub open spec fn has_span(spans: Seq<CardSpan>, card: int) -> bool {
    exists|i: int| 0 <= i < spans.len() && (#[trigger] spans[i]).card == card
}

/// Whether a visible card is expanded.
pub open spec fn any_expanded(spans: Seq<CardSpan>, cards: Seq<EditCard>) -> bool {
    exists|i: int| 0 <= i < spans.len() && !cards[(#[trigger] spans[i]).card as int].collapsed
}

/// Whether `new` are the cards `old_cards` with the visible ones collapsed or
/// expanded.
pub open spec fn all_collapsed(
    new: Seq<EditCard>,
    old_cards: Seq<EditCard>,
    spans: Seq<CardSpan>,
    collapsed: bool,
) -> bool {
    &&& new.len() == old_cards.len()
    &&& forall|c: int|
        0 <= c < new.len() ==> #[trigger] new[c] == if has_span(spans, c) {
            EditCard { collapsed, ..old_cards[c] }
        } else {
            old_cards[c]
        }
}

/// `z` was pressed: every visible card collapsed, or all expanded when none
/// was.
pub open spec fn all_toggled(was: App, new: App) -> bool {
    let i = owner(was.spans@, was.offset);
    if i < 0 {
        new == was
    } else {
        &&& all_collapsed(
            new.cards@,
            was.cards@,
            was.spans@,
            any_expanded(was.spans@, was.cards@),
        )
        &&& kept_at(App { cards: new.cards, ..was }, new, was.spans@[i].card as int)
    }
}

impl App {
    fn rerender_all(&mut self)
        requires
            old(self).wf(),
        ensures
            final(self).wf(),
            relaid(*old(self), *final(self)),
            *final(self) == (App {
                cards: final(self).cards,
                lines: final(self).lines,
                spans: final(self).spans,
                offset: final(self).offset,
                ..*old(self)
            }),
    {
        let opts = self.opts();
        let ghost start = *self;
        let mut cards: Vec<EditCard> = Vec::new();
        std::mem::swap(&mut cards, &mut self.cards);
        let mut i: usize = 0;
        while i < cards.len()
            invariant
                i <= cards@.len(),
                cards@.len() == start.cards@.len(),
                forall|k: int|
                    0 <= k < i ==> #[trigger] cards@[k] == (EditCard {
                        lines: cards@[k].lines,
                        ..start.cards@[k]
                    }) && style::line_views(cards@[k].lines@) == render::card_body(
                        start.cards@[k].input.diff,
                        start.cards@[k].painted@,
                        opts,
                    ),
                forall|k: int| i <= k < cards@.len() ==> #[trigger] cards@[k] == start.cards@[k],
            decreases cards@.len() - i,
        {
            cards[i].rerender(&opts);
            i += 1;
        }
        self.cards = cards;
        self.rebuild_lines();
    }
}

/// Whether `c` is a new card of `input`, laid out for `opts`.
pub open spec fn is_new_card(
    c: EditCard,
    input: CardInput,
    painter: Painter,
    opts: LayoutOpts,
) -> bool {
    &&& c.input == input
    &&& render::is_painting(
        c.painted@,
        input.diff.hunks@,
        render::fresh(render::card_syntax(input, painter.syntaxes), painter.theme),
        painter.syntaxes,
    )
    &&& style::line_views(c.lines@) == render::card_body(input.diff, c.painted@, opts)
    &&& !c.collapsed
    &&& render::shows_time(c.time@, input.ts)
}

/// `sessions` with one more, unless it is there.
pub open spec fn with_session(sessions: Seq<Seq<char>>, id: Option<String>) -> Seq<Seq<char>> {
    match id {
        Some(s) => if sessions.contains(s@) {
            sessions
        } else {
            sessions.push(s@)
        },
        None => sessions,
    }
}

/// `sessions` with those of some cards.
pub open spec fn with_sessions(sessions: Seq<Seq<char>>, inputs: Seq<CardInput>) -> Seq<Seq<char>>
    decreases inputs.len(),
{
    if inputs.len() == 0 {
        sessions
    } else {
        with_session(with_sessions(sessions, inputs.drop_last()), inputs.last().session_id)
    }
}

/// `new` is `was` with more cards at its end; the feed is as it was.
pub open spec fn cards_pushed(was: App, new: App, inputs: Seq<CardInput>) -> bool {
    &&& new == (App { cards: new.cards, sessions: new.sessions, ..was })
    &&& text::texts(new.sessions@) == with_sessions(text::texts(was.sessions@), inputs)
    &&& new.cards@.len() == was.cards@.len() + inputs.len()
    &&& new.cards@.take(was.cards@.len() as int) == was.cards@
    &&& forall|i: int|
        0 <= i < inputs.len() ==> is_new_card(
            #[trigger] new.cards@[was.cards@.len() + i],
            inputs[i],
            was.painter,
            was.layout_opts(),
        )
}

/// How many cards of the selected session are hidden because they are of
/// scratch files.
pub open spec fn hidden_temp(f: Feed, n: int) -> nat
    decreases n,
{
    if n <= 0 {
        0
    } else {
        hidden_temp(f, n - 1) + if of_session(f, f.cards[n - 1]) && !is_shown(f, f.cards[n - 1]) {
            1nat
        } else {
            0nat
        }
    }
}

/// The first card of a session; `-1` when it has none.
pub open spec fn first_of(cards: Seq<EditCard>, id: Seq<char>) -> int
    decreases cards.len(),
{
    if cards.len() == 0 {
        -1
    } else {
        let i = first_of(cards.drop_last(), id);
        if i >= 0 {
            i
        } else if text::opt_text(cards.last().input.session_id) == Some(id) {
            cards.len() - 1
        } else {
            -1
        }
    }
}

/// What the status bar calls the selection: `all`, or the tag of the selected
/// session's first card.
pub open spec fn label_of(cards: Seq<EditCard>, session: Option<Seq<char>>) -> Seq<char> {
    match session {
        None => "all"@,
        Some(id) => {
            let i = first_of(cards, id);
            if i >= 0 {
                match render::tag_text(cards[i].input) {
                    Some(tag) => tag,
                    None => id,
                }
            } else {
                id
            }
        },
    }
}

/// `on` or `off`.
pub open spec fn on_off(b: bool) -> Seq<char> {
    if b {
        "on"@
    } else {
        "off"@
    }
}

/// The part of the status bar that tells of hidden cards; nothing when there
/// are none.
pub open spec fn hidden_text(n: nat) -> Seq<char> {
    if n > 0 {
        "  temp: "@ + text::digits(n) + " hidden"@
    } else {
        Seq::empty()
    }
}

/// The state fields of the status bar.
pub open spec fn status_fields(a: App) -> Seq<char> {
    "session: "@ + label_of(a.cards@, a.session()) + "  card: "@ + text::digits(
        (owner(a.spans@, a.offset) + 1) as nat,
    ) + "/"@ + text::digits(a.spans@.len()) + hidden_text(
        hidden_temp(a.feed(), a.cards@.len() as int),
    ) + "  follow: "@ + on_off(a.follow) + "  view: "@ + render::mode_label(a.mode) + "  wrap: "@
        + on_off(a.wrap) + "  ? help"@
}

/// A path with the home directory written as `~`.
pub open spec fn tilde_text(path: Seq<char>, home: Option<Seq<char>>) -> Seq<char> {
    match home {
        Some(h) => match paths::below(path, h) {
            Some(rest) => "~/"@ + rest,
            None => path,
        },
        None => path,
    }
}

/// The directory in the status bar: the root of the repository that is
/// followed, else the monitor's own.
pub open spec fn status_dir(a: App) -> Seq<char> {
    match a.pipeline.matcher.repo {
        Some(repo) => repo.toplevel@,
        None => a.cwd@,
    }
}

/// `s` cut from the left to `avail` characters, marked with `…`.
pub open spec fn shortened(s: Seq<char>, avail: nat) -> Seq<char> {
    if s.len() > avail {
        "…"@ + s.skip(s.len() - columns::room(avail, 1))
    } else {
        s
    }
}

/// The status bar: the directory, cut so that the state fields stay visible,
/// and the state fields.
pub open spec fn status_text(a: App, width: u16, home: Option<Seq<char>>) -> Seq<char> {
    let right = status_fields(a);
    let avail = columns::room(width as nat, right.len() + 3);
    " "@ + shortened(tilde_text(status_dir(a), home), avail) + "  "@ + right
}

/// `path` with the home directory written as `~`.
pub fn tilde(path: &str, home: &Option<String>) -> (r: String)
    ensures
        r@ == tilde_text(path@, text::opt_text(*home)),
{
    if let Some(h) = home {
        if let Some(rest) = paths::strip_prefix(path, h.as_str()) {
            let mut s = "~/".to_owned();
            s.append(rest.as_str());
            return s;
        }
    }
    path.to_owned()
}

fn push_on_off(s: &mut String, b: bool)
    ensures
        final(s)@ == old(s)@ + on_off(b),
{
    if b {
        s.append("on");
    } else {
        s.append("off");
    }
}

/// What a key press does. While the help is open it only closes it, or quits
/// with Ctrl-c.
pub open spec fn pressed(was: App, new: App, key: KeyEvent) -> bool {
    if was.help {
        new == (App {
            help: !(key.code == KeyCode::Char('?') || key.code is Esc || key.code == KeyCode::Char(
                'q',
            )),
            quit: was.quit || (key.code == KeyCode::Char('c') && key.ctrl),
            ..was
        })
    } else {
        match key.code {
            KeyCode::Esc => new == (App { quit: true, ..was }),
            KeyCode::Down => scrolled(was, new, false, 1),
            KeyCode::Up => scrolled(was, new, true, 1),
            KeyCode::PageDown => scrolled(was, new, false, was.viewport as nat),
            KeyCode::PageUp => scrolled(was, new, true, was.viewport as nat),
            KeyCode::Enter => collapse_toggled(was, new),
            KeyCode::Tab => session_cycled(was, new),
            KeyCode::Other => new == was,
            KeyCode::Char(c) => typed(was, new, c, key.ctrl),
        }
    }
}

/// What a character key does.
pub open spec fn typed(was: App, new: App, c: char, ctrl: bool) -> bool {
    if c == 'q' || (c == 'c' && ctrl) {
        new == (App { quit: true, ..was })
    } else if c == 'j' {
        scrolled(was, new, false, 1)
    } else if c == 'k' {
        scrolled(was, new, true, 1)
    } else if c == 'd' && ctrl {
        scrolled(was, new, false, was.viewport as nat / 2)
    } else if c == 'u' && ctrl {
        scrolled(was, new, true, was.viewport as nat / 2)
    } else if c == 'g' {
        new == (App { follow: false, offset: 0, ..was })
    } else if c == 'G' {
        new == (App { follow: true, offset: was.bottom() as usize, ..was })
    } else if c == 'p' {
        &&& new == (App { follow: !was.follow, offset: new.offset, ..was })
        &&& new.offset == clamped(
            was.lines@.len(),
            was.viewport as nat,
            !was.follow,
            was.offset as nat,
        )
    } else if c == 'n' {
        next_shown(was, new)
    } else if c == 'N' {
        prev_shown(was, new)
    } else if c == 'z' {
        all_toggled(was, new)
    } else if c == 'v' {
        view_toggled(was, new)
    } else if c == 'w' {
        wrap_toggled(was, new)
    } else if c == 'o' {
        temp_toggled(was, new)
    } else if c == '?' {
        new == (App { help: true, ..was })
    } else {
        new == was
    }
}

impl App {
    /// An empty feed that is ready to tail.
    pub fn new(
        agent: String,
        cwd: String,
        spool_path: String,
        pipeline: Pipeline,
        tailer: SpoolTailer,
        painter: Painter,
        mode: ViewMode,
        width: u16,
    ) -> (r: App)
        ensures
            r.wf(),
            r.current_feed(),
            r.cards@.len() == 0,
            r.sessions@.len() == 0,
            r.selected is None,
            r.offset == 0,
            r.follow,
            !r.quit,
            !r.help,
            r.mode == mode,
            r.wrap,
            !r.show_temp,
            r.agent == agent,
            r.cwd == cwd,
            r.width == width,
            r.viewport == 1,
            r.pending_width is None,
            r.pipeline == pipeline,
            r.tailer == tailer,
            r.spool_path == spool_path,
            r.painter == painter,
    {
        let app = App {
            cards: Vec::new(),
            lines: Vec::new(),
            spans: Vec::new(),
            offset: 0,
            follow: true,
            quit: false,
            help: false,
            mode,
            wrap: true,
            show_temp: false,
            agent,
            cwd,
            width,
            viewport: 1,
            pending_width: None,
            pipeline,
            tailer,
            spool_path,
            sessions: Vec::new(),
            selected: None,
            painter,
        };
        assert(style::line_views(app.lines@) =~= Seq::empty());
        assert(span_views(app.spans@) =~= Seq::empty());
        app
    }

    /// Render a card and record its session. Does not rebuild the feed.
    pub fn push_card(&mut self, input: CardInput)
        requires
            old(self).wf(),
        ensures
            final(self).wf(),
            cards_pushed(*old(self), *final(self), seq![input]),
    {
        let ghost was = *self;
        session::note_session(&mut self.sessions, &input.session_id);
        let opts = self.opts();
        let card = EditCard::new(input, &self.painter, &opts);
        self.cards.push(card);
        proof {
            let one = seq![input];
            assert(one.drop_last() =~= Seq::empty());
            assert(with_sessions(text::texts(was.sessions@), one.drop_last()) =~= text::texts(
                was.sessions@,
            ));
            assert(self.cards@.take(was.cards@.len() as int) =~= was.cards@);
            assert(text::texts(was.sessions@).len() == was.sessions@.len());
            assert(text::texts(self.sessions@).len() == self.sessions@.len());
        }
    }

    /// Add cards to the feed.
    pub fn add_cards(&mut self, inputs: Vec<CardInput>)
        requires
            old(self).wf(),
        ensures
            final(self).wf(),
            inputs@.len() == 0 ==> *final(self) == *old(self),
            inputs@.len() > 0 ==> final(self).settled(old(self).offset),
            cards_pushed(
                *old(self),
                App {
                    lines: old(self).lines,
                    spans: old(self).spans,
                    offset: old(self).offset,
                    ..*final(self)
                },
                inputs@,
            ),
    {
        let ghost was = *self;
        let ghost all = inputs@;
        let n: usize = inputs.len();
        proof {
            assert(all.take(0) =~= Seq::empty());
            assert(self.cards@.take(was.cards@.len() as int) =~= was.cards@);
        }
        if n == 0 {
            assert(all =~= Seq::empty());
            return;
        }
        for input in it: inputs
            invariant
                it.seq() == all,
                self.wf(),
                cards_pushed(was, *self, all.take(it.index() as int)),
        {
            let ghost i = it.index() as int;
            let ghost mid = *self;
            assert(input == all[i]);
            self.push_card(input);
            proof {
                let done = all.take(i);
                let more = all.take(i + 1);
                assert(more.drop_last() =~= done);
                let one = seq![all[i]];
                assert(one.drop_last() =~= Seq::empty());
                assert(with_sessions(text::texts(mid.sessions@), one.drop_last())
                    =~= text::texts(mid.sessions@));
                assert(self.cards@.take(was.cards@.len() as int) =~= was.cards@) by {
                    assert(self.cards@.take(mid.cards@.len() as int) == mid.cards@);
                    assert(mid.cards@.take(was.cards@.len() as int) =~= self.cards@.take(
                        was.cards@.len() as int,
                    ));
                }
                assert forall|k: int| 0 <= k < more.len() implies is_new_card(
                    #[trigger] self.cards@[was.cards@.len() + k],
                    more[k],
                    was.painter,
                    was.layout_opts(),
                ) by {
                    if k < i {
                        assert(self.cards@.take(mid.cards@.len() as int)[was.cards@.len() + k]
                            == mid.cards@[was.cards@.len() + k]);
                        assert(done[k] == more[k]);
                    } else {
                        assert(self.cards@[mid.cards@.len() as int + 0] == self.cards@[was.cards@.len()
                            + k]);
                        assert(one[0] == more[k]);
                    }
                }
            }
        }
        assert(all.take(all.len() as int) =~= all);
        self.rebuild_lines();
    }

    pub fn visible_cards(&self) -> (n: usize)
        ensures
            n == self.spans@.len(),
    {
        self.spans.len()
    }

    pub fn has_visible_cards(&self) -> (r: bool)
        ensures
            r == (self.spans@.len() > 0),
    {
        self.spans.len() > 0
    }

    /// Tab: all -> each session in first-seen order -> all. Follow is left
    /// alone, so the rebuild lands at the bottom when it is on.
    pub fn cycle_session(&mut self)
        requires
            old(self).wf(),
        ensures
            final(self).wf(),
            session_cycled(*old(self), *final(self)),
    {
        let n: usize = self.sessions.len();
        self.selected = match self.selected {
            None => if n == 0 {
                None
            } else {
                Some(0)
            },
            Some(i) => if i + 1 < n {
                Some(i + 1)
            } else {
                None
            },
        };
        self.rebuild_lines();
    }

    /// `all`, or the tag of the selected session's first card.
    pub fn session_label(&self) -> (r: String)
        requires
            self.wf(),
        ensures
            r@ == label_of(self.cards@, self.session()),
    {
        let id = match self.selected_session() {
            Some(id) => id,
            None => return "all".to_owned(),
        };
        let mut i: usize = 0;
        assert(self.cards@.take(0) =~= Seq::empty());
        while i < self.cards.len()
            invariant
                i <= self.cards@.len(),
                self.session() == Some(id@),
                first_of(self.cards@.take(i as int), id@) == -1,
            decreases self.cards@.len() - i,
        {
            let ghost more = self.cards@.take(i + 1);
            assert(more.drop_last() =~= self.cards@.take(i as int));
            let hit = match &self.cards[i].input.session_id {
                Some(s) => text::same(s.as_str(), id),
                None => false,
            };
            if hit {
                proof {
                    lemma_first_of(self.cards@, id@, i + 1);
                }
                return match self.cards[i].tag() {
                    Some(tag) => tag,
                    None => id.to_owned(),
                };
            }
            i += 1;
        }
        assert(self.cards@.take(i as int) =~= self.cards@);
        id.to_owned()
    }

    pub fn cwd(&self) -> (r: &str)
        ensures
            r@ == self.cwd@,
    {
        self.cwd.as_str()
    }

    pub fn spool_path(&self) -> (r: &str)
        ensures
            r@ == self.spool_path@,
    {
        self.spool_path.as_str()
    }

    pub fn view_mode(&self) -> (r: ViewMode)
        ensures
            r == self.mode,
    {
        self.mode
    }

    pub fn wrap(&self) -> (r: bool)
        ensures
            r == self.wrap,
    {
        self.wrap
    }

    /// `v`: side by side <-> unified. Follow is left alone like
    /// `cycle_session`.
    pub fn toggle_view(&mut self)
        requires
            old(self).wf(),
        ensures
            final(self).wf(),
            view_toggled(*old(self), *final(self)),
    {
        self.mode = self.mode.toggle();
        self.rerender_all();
    }

    /// `w`: wrap <-> clip long lines.
    pub fn toggle_wrap(&mut self)
        requires
            old(self).wf(),
        ensures
            final(self).wf(),
            wrap_toggled(*old(self), *final(self)),
    {
        self.wrap = !self.wrap;
        self.rerender_all();
    }

    /// `o`: show <-> hide cards of scratch files.
    pub fn toggle_temp(&mut self)
        requires
            old(self).wf(),
        ensures
            final(self).wf(),
            temp_toggled(*old(self), *final(self)),
    {
        self.show_temp = !self.show_temp;
        self.rebuild_lines();
    }

    /// Take over a width that a resize asked for.
    pub fn apply_resize(&mut self)
        requires
            old(self).wf(),
        ensures
            final(self).wf(),
            ({
                let was = App { pending_width: None, ..*old(self) };
                match old(self).pending_width {
                    Some(w) => if w != old(self).width {
                        &&& *final(self) == (App {
                            width: w,
                            cards: final(self).cards,
                            lines: final(self).lines,
                            spans: final(self).spans,
                            offset: final(self).offset,
                            ..was
                        })
                        &&& relaid(*old(self), *final(self))
                    } else {
                        *final(self) == was
                    },
                    None => *final(self) == was,
                }
            }),
    {
        let pending = self.pending_width;
        self.pending_width = None;
        if let Some(w) = pending {
            if w != self.width {
                self.width = w;
                self.rerender_all();
            }
        }
    }

    pub fn total_lines(&self) -> (n: usize)
        ensures
            n == self.lines@.len(),
    {
        self.lines.len()
    }

    pub fn set_viewport(&mut self, height: u16)
        requires
            old(self).wf(),
        ensures
            final(self).wf(),
            final(self).viewport == (if height == 0 {
                1
            } else {
                height as int
            }),
            final(self).offset == clamped(
                old(self).lines@.len(),
                final(self).viewport as nat,
                old(self).follow,
                old(self).offset as nat,
            ),
            *final(self) == (App {
                viewport: final(self).viewport,
                offset: final(self).offset,
                ..*old(self)
            }),
    {
        self.viewport = if height == 0 {
            1
        } else {
            height as usize
        };
        self.clamp();
    }

    pub fn all_lines(&self) -> (r: &Vec<Line>)
        ensures
            *r == self.lines,
    {
        &self.lines
    }

    /// Index into `spans` of the card owning the line at `offset`.
    fn current(&self) -> (r: Option<usize>)
        ensures
            r is None <==> owner(self.spans@, self.offset) < 0,
            r matches Some(i) ==> i == owner(self.spans@, self.offset) && i < self.spans@.len(),
    {
        let mut i: usize = self.spans.len();
        assert(self.spans@.take(i as int) =~= self.spans@);
        while i > 0
            invariant
                i <= self.spans@.len(),
                owner(self.spans@.take(i as int), self.offset) == owner(self.spans@, self.offset),
            decreases i,
        {
            assert(self.spans@.take(i as int).drop_last() =~= self.spans@.take(i - 1));
            i -= 1;
            if self.spans[i].start <= self.offset {
                return Some(i);
            }
        }
        None
    }

    /// Index into `cards` of the current card.
    pub fn current_card(&self) -> (r: Option<usize>)
        ensures
            r is None <==> owner(self.spans@, self.offset) < 0,
            r matches Some(c) ==> c == self.spans@[owner(self.spans@, self.offset)].card,
    {
        match self.current() {
            Some(i) => Some(self.spans[i].card),
            None => None,
        }
    }

    /// True when the line at `offset` is the current card's own header.
    pub fn at_card_start(&self) -> (r: bool)
        ensures
            r == starts_at(self.spans@, self.offset),
    {
        match self.current() {
            Some(i) => self.spans[i].start == self.offset,
            None => false,
        }
    }

    /// The current card's header, for pinning above the body.
    pub fn sticky_header(&self) -> (r: Option<Line>)
        requires
            self.wf(),
        ensures
            r is None <==> owner(self.spans@, self.offset) < 0,
            r matches Some(l) ==> l@ == self.lines@[self.spans@[owner(
                self.spans@,
                self.offset,
            )].start as int]@,
    {
        match self.current() {
            Some(i) => Some(self.lines[self.spans[i].start].copy()),
            None => None,
        }
    }

    /// Put `line` at the top of the viewport. Follow resumes only when that
    /// is also the bottom of the feed.
    fn jump_to(&mut self, line: usize)
        ensures
            jumped(*old(self), *final(self), line as nat),
    {
        let max: usize = self.max_offset();
        self.offset = if line > max {
            max
        } else {
            line
        };
        self.follow = self.offset == max;
    }

    /// `n`: the next card's header to the top.
    pub fn next_card(&mut self)
        requires
            old(self).wf(),
        ensures
            final(self).wf(),
            next_shown(*old(self), *final(self)),
    {
        let n: usize = self.spans.len();
        if let Some(i) = self.current() {
            if i + 1 < n {
                self.jump_to(self.spans[i + 1].start);
            }
        }
    }

    /// `N`: the current card's header to the top, or the previous card's
    /// when the header is already there.
    pub fn prev_card(&mut self)
        requires
            old(self).wf(),
        ensures
            final(self).wf(),
            prev_shown(*old(self), *final(self)),
    {
        if let Some(i) = self.current() {
            let start = self.spans[i].start;
            if self.offset > start {
                self.jump_to(start);
            } else if i > 0 {
                self.jump_to(self.spans[i - 1].start);
            }
        }
    }

    fn find_span(&self, card: usize) -> (r: Option<usize>)
        ensures
            r is None <==> span_of(self.spans@, card as int) < 0,
            r matches Some(i) ==> i == span_of(self.spans@, card as int) && i < self.spans@.len(),
    {
        let mut i: usize = 0;
        assert(self.spans@.take(0) =~= Seq::empty());
        while i < self.spans.len()
            invariant
                i <= self.spans@.len(),
                span_of(self.spans@.take(i as int), card as int) == -1,
            decreases self.spans@.len() - i,
        {
            assert(self.spans@.take(i + 1).drop_last() =~= self.spans@.take(i as int));
            if self.spans[i].card == card {
                proof {
                    lemma_span_of(self.spans@, card as int, i + 1);
                }
                return Some(i);
            }
            i += 1;
        }
        assert(self.spans@.take(i as int) =~= self.spans@);
        None
    }

    /// Rebuild after a collapse change and keep `card` at the top.
    fn rebuild_keeping(&mut self, card: usize)
        requires
            old(self).wf(),
        ensures
            final(self).wf(),
            kept_at(*old(self), *final(self), card as int),
    {
        self.follow = false;
        self.rebuild_lines();
        if let Some(i) = self.find_span(card) {
            self.jump_to(self.spans[i].start);
        }
    }

    /// Enter: collapse or expand the current card.
    pub fn toggle_collapse(&mut self)
        requires
            old(self).wf(),
        ensures
            final(self).wf(),
            collapse_toggled(*old(self), *final(self)),
    {
        let ghost was = *self;
        if let Some(i) = self.current_card() {
            proof {
                lemma_owner(self.spans@, self.offset);
            }
            let flag = !self.cards[i].collapsed;
            set_collapsed(&mut self.cards, i, flag);
            self.rebuild_keeping(i);
        }
    }

    /// z: collapse every visible card, or expand all when none is expanded.
    pub fn toggle_collapse_all(&mut self)
        requires
            old(self).wf(),
        ensures
            final(self).wf(),
            all_toggled(*old(self), *final(self)),
    {
        let ghost was = *self;
        if let Some(cur) = self.current_card() {
            proof {
                lemma_owner(self.spans@, self.offset);
            }
            let expanded = self.any_expanded();
            let mut i: usize = 0;
            while i < self.spans.len()
                invariant
                    i <= self.spans@.len(),
                    was.wf(),
                    *self == (App { cards: self.cards, ..was }),
                    self.cards@.len() == was.cards@.len(),
                    all_collapsed(self.cards@, was.cards@, was.spans@.take(i as int), expanded),
                decreases self.spans@.len() - i,
            {
                let card: usize = self.spans[i].card;
                let ghost before = self.cards@;
                set_collapsed(&mut self.cards, card, expanded);
                proof {
                    let more = was.spans@.take(i + 1);
                    let done = was.spans@.take(i as int);
                    assert forall|c: int| 0 <= c < self.cards@.len() implies #[trigger] self.cards@[c]
                        == if has_span(more, c) {
                        EditCard { collapsed: expanded, ..was.cards@[c] }
                    } else {
                        was.cards@[c]
                    } by {
                        assert(before[c] == if has_span(done, c) {
                            EditCard { collapsed: expanded, ..was.cards@[c] }
                        } else {
                            was.cards@[c]
                        });
                        if has_span(done, c) {
                            let k = choose|k: int|
                                0 <= k < done.len() && (#[trigger] done[k]).card == c;
                            assert(more[k].card == c);
                        }
                        if has_span(more, c) && !has_span(done, c) {
                            let k = choose|k: int|
                                0 <= k < more.len() && (#[trigger] more[k]).card == c;
                            if k < i {
                                assert(done[k].card == c);
                            }
                            assert(c == card);
                        }
                        if c == card {
                            assert(more[i as int].card == c);
                        }
                    }
                }
                i += 1;
            }
            assert(was.spans@.take(i as int) =~= was.spans@);
            self.rebuild_keeping(cur);
        }
    }

    fn any_expanded(&self) -> (r: bool)
        requires
            self.wf(),
        ensures
            r == any_expanded(self.spans@, self.cards@),
    {
        let mut i: usize = 0;
        while i < self.spans.len()
            invariant
                i <= self.spans@.len(),
                self.wf(),
                forall|k: int|
                    0 <= k < i ==> self.cards@[(#[trigger] self.spans@[k]).card as int].collapsed,
            decreases self.spans@.len() - i,
        {
            if !self.cards[self.spans[i].card].collapsed {
                assert(!self.cards@[self.spans@[i as int].card as int].collapsed);
                return true;
            }
            i += 1;
        }
        false
    }

    fn scroll_by(&mut self, up: bool, n: usize)
        ensures
            scrolled(*old(self), *final(self), up, n as nat),
    {
        if up && n > 0 {
            self.follow = false;
            self.offset = self.offset.saturating_sub(n);
        } else {
            let max: usize = self.max_offset();
            let to: usize = self.offset.saturating_add(n);
            self.offset = if to > max {
                max
            } else {
                to
            };
            if self.offset == max {
                self.follow = true;
            }
        }
    }

    pub fn on_key(&mut self, key: KeyEvent)
        requires
            old(self).wf(),
        ensures
            final(self).wf(),
            pressed(*old(self), *final(self), key),
    {
        if self.help {
            match key.code {
                KeyCode::Char(c) => {
                    if c == '?' || c == 'q' {
                        self.help = false;
                    }
                    if c == 'c' && key.ctrl {
                        self.quit = true;
                    }
                },
                KeyCode::Esc => {
                    self.help = false;
                },
                _ => {},
            }
            return;
        }
        match key.code {
            KeyCode::Esc => {
                self.quit = true;
            },
            KeyCode::Down => self.scroll_by(false, 1),
            KeyCode::Up => self.scroll_by(true, 1),
            KeyCode::PageDown => {
                let n: usize = self.viewport;
                self.scroll_by(false, n);
            },
            KeyCode::PageUp => {
                let n: usize = self.viewport;
                self.scroll_by(true, n);
            },
            KeyCode::Enter => self.toggle_collapse(),
            KeyCode::Tab => self.cycle_session(),
            KeyCode::Char(c) => self.on_char(c, key.ctrl),
            KeyCode::Other => {},
        }
    }

    fn on_char(&mut self, c: char, ctrl: bool)
        requires
            old(self).wf(),
        ensures
            final(self).wf(),
            typed(*old(self), *final(self), c, ctrl),
    {
        if c == 'q' || (c == 'c' && ctrl) {
            self.quit = true;
        } else if c == 'j' {
            self.scroll_by(false, 1);
        } else if c == 'k' {
            self.scroll_by(true, 1);
        } else if c == 'd' && ctrl {
            let n: usize = self.viewport / 2;
            self.scroll_by(false, n);
        } else if c == 'u' && ctrl {
            let n: usize = self.viewport / 2;
            self.scroll_by(true, n);
        } else if c == 'g' {
            self.follow = false;
            self.offset = 0;
        } else if c == 'G' {
            self.follow = true;
            self.clamp();
        } else if c == 'p' {
            self.follow = !self.follow;
            self.clamp();
        } else if c == 'n' {
            self.next_card();
        } else if c == 'N' {
            self.prev_card();
        } else if c == 'z' {
            self.toggle_collapse_all();
        } else if c == 'v' {
            self.toggle_view();
        } else if c == 'w' {
            self.toggle_wrap();
        } else if c == 'o' {
            self.toggle_temp();
        } else if c == '?' {
            self.help = true;
        }
    }

    pub fn on_mouse(&mut self, ev: MouseEvent)
        ensures
            match ev {
                MouseEvent::ScrollUp => scrolled(
                    *old(self),
                    *final(self),
                    true,
                    WHEEL_STEP as nat,
                ),
                MouseEvent::ScrollDown => scrolled(
                    *old(self),
                    *final(self),
                    false,
                    WHEEL_STEP as nat,
                ),
                MouseEvent::Other => *final(self) == *old(self),
            },
    {
        match ev {
            MouseEvent::ScrollUp => self.scroll_by(true, WHEEL_STEP),
            MouseEvent::ScrollDown => self.scroll_by(false, WHEEL_STEP),
            MouseEvent::Other => {},
        }
    }

    pub fn on_resize(&mut self, width: u16, _height: u16)
        ensures
            *final(self) == (App { pending_width: Some(width), ..*old(self) }),
    {
        self.pending_width = Some(width);
    }

    fn count_hidden(&self) -> (n: usize)
        requires
            self.wf(),
        ensures
            n == hidden_temp(self.feed(), self.cards@.len() as int),
    {
        let mut n: usize = 0;
        let mut i: usize = 0;
        while i < self.cards.len()
            invariant
                i <= self.cards@.len(),
                self.wf(),
                n <= i,
                n == hidden_temp(self.feed(), i as int),
            decreases self.cards@.len() - i,
        {
            if self.of_selected(&self.cards[i]) && !self.is_visible(&self.cards[i]) {
                n += 1;
            }
            i += 1;
        }
        n
    }

    fn status_right(&self) -> (s: String)
        requires
            self.wf(),
        ensures
            s@ == status_fields(*self),
    {
        proof {
            lemma_owner(self.spans@, self.offset);
        }
        let n: usize = self.spans.len();
        let card: usize = match self.current() {
            Some(i) => i + 1,
            None => 0,
        };
        let hidden: usize = self.count_hidden();
        let mut s = "session: ".to_owned();
        s.append(self.session_label().as_str());
        s.append("  card: ");
        s.append(text::decimal(card as u64).as_str());
        s.append("/");
        s.append(text::decimal(n as u64).as_str());
        let ghost so_far = s@;
        if hidden > 0 {
            s.append("  temp: ");
            s.append(text::decimal(hidden as u64).as_str());
            s.append(" hidden");
        }
        assert(s@ =~= so_far + hidden_text(hidden as nat));
        s.append("  follow: ");
        push_on_off(&mut s, self.follow);
        s.append("  view: ");
        s.append(self.mode.label());
        s.append("  wrap: ");
        push_on_off(&mut s, self.wrap);
        s.append("  ? help");
        s
    }

    /// Status bar text fitted to `width`: the directory is elided from the
    /// left so the state fields stay visible. `home` is the home directory.
    pub fn status(&self, width: u16, home: &Option<String>) -> (r: String)
        requires
            self.wf(),
        ensures
            r@ == status_text(*self, width, text::opt_text(*home)),
    {
        let right = self.status_right();
        let dir = match self.pipeline.toplevel() {
            Some(t) => tilde(t, home),
            None => tilde(self.cwd.as_str(), home),
        };
        let taken: usize = text::char_count(right.as_str()).saturating_add(3);
        let avail: usize = (width as usize).saturating_sub(taken);
        let shown = shorten(dir, avail);
        let mut s = " ".to_owned();
        s.append(shown.as_str());
        s.append("  ");
        s.append(right.as_str());
        s
    }
}

/// Whether a card starts at `offset`.
pub open spec fn starts_at(spans: Seq<CardSpan>, offset: usize) -> bool {
    let i = owner(spans, offset);
    i >= 0 && spans[i].start == offset
}

fn set_collapsed(cards: &mut Vec<EditCard>, i: usize, flag: bool)
    requires
        i < old(cards)@.len(),
    ensures
        final(cards)@ == old(cards)@.update(
            i as int,
            EditCard { collapsed: flag, ..old(cards)@[i as int] },
        ),
{
    cards[i].collapsed = flag;
}

fn shorten(s: String, avail: usize) -> (r: String)
    ensures
        r@ == shortened(s@, avail as nat),
{
    let v = text::chars_of(s.as_str());
    let n: usize = v.len();
    if n <= avail {
        return s;
    }
    let keep: usize = avail.saturating_sub(1);
    let tail = text::text_between(&v, n - keep, n);
    assert(tail@ =~= s@.skip(n - keep));
    let mut r = "…".to_owned();
    r.append(tail.as_str());
    r
}

proof fn lemma_first_of(cards: Seq<EditCard>, id: Seq<char>, n: int)
    requires
        0 < n <= cards.len(),
        first_of(cards.take(n), id) == n - 1,
    ensures
        first_of(cards, id) == n - 1,
    decreases cards.len(),
{
    if n < cards.len() {
        assert(cards.drop_last().take(n) =~= cards.take(n));
        lemma_first_of(cards.drop_last(), id, n);
    } else {
        assert(cards.take(n) =~= cards);
    }
}

proof fn lemma_span_of(spans: Seq<CardSpan>, card: int, n: int)
    requires
        0 < n <= spans.len(),
        span_of(spans.take(n), card) == n - 1,
    ensures
        span_of(spans, card) == n - 1,
    decreases spans.len(),
{
    if n < spans.len() {
        assert(spans.drop_last().take(n) =~= spans.take(n));
        lemma_span_of(spans.drop_last(), card, n);
    } else {
        assert(spans.take(n) =~= spans);
    }
}

/// `height` lines of a feed from `from` on, as far as there are any.
pub open spec fn window(
    lines: Seq<Seq<(Seq<char>, Style)>>,
    from: nat,
    height: nat,
) -> Seq<Seq<(Seq<char>, Style)>> {
    let end = if from + height < lines.len() {
        from + height
    } else {
        lines.len()
    };
    if from < end {
        lines.subrange(from as int, end as int)
    } else {
        Seq::empty()
    }
}

impl App {
    /// `height` lines of the feed from `from` on.
    pub fn lines_from(&self, from: usize, height: usize) -> (r: Vec<Line>)
        ensures
            style::line_views(r@) == window(
                style::line_views(self.lines@),
                from as nat,
                height as nat,
            ),
    {
        let ghost all = style::line_views(self.lines@);
        let n: usize = self.lines.len();
        let to: usize = from.saturating_add(height);
        let end: usize = if to < n {
            to
        } else {
            n
        };
        let mut out: Vec<Line> = Vec::new();
        if from >= end {
            assert(style::line_views(out@) =~= Seq::empty());
            return out;
        }
        let mut i: usize = from;
        assert(style::line_views(out@) =~= all.subrange(from as int, i as int));
        while i < end
            invariant
                from <= i <= end <= self.lines@.len(),
                all == style::line_views(self.lines@),
                style::line_views(out@) == all.subrange(from as int, i as int),
            decreases end - i,
        {
            let line = self.lines[i].copy();
            let ghost v = line@;
            let ghost before = style::line_views(out@);
            out.push(line);
            proof {
                assert(style::line_views(out@) =~= before.push(v));
                assert(all.subrange(from as int, i + 1) =~= before.push(v));
            }
            i += 1;
        }
        out
    }

    /// The lines in the viewport.
    pub fn visible_lines(&self) -> (r: Vec<Line>)
        ensures
            style::line_views(r@) == window(
                style::line_views(self.lines@),
                self.offset as nat,
                self.viewport as nat,
            ),
    {
        self.lines_from(self.offset, self.viewport)
    }
}

/// The columns the widest key of a table needs.
pub open spec fn widest_key(keys: Seq<(&'static str, &'static str)>) -> nat
    decreases keys.len(),
{
    if keys.len() == 0 {
        0
    } else {
        let n = widest_key(keys.drop_last());
        if keys.last().0@.len() > n {
            keys.last().0@.len()
        } else {
            n
        }
    }
}

/// One line of the help: a key, padded to `width`, and what it does.
pub open spec fn help_line(entry: (&'static str, &'static str), width: nat) -> Seq<
    (Seq<char>, Style),
> {
    seq![
        (
            " "@ + entry.0@ + text::copies(' ', columns::room(width, entry.0@.len())) + "  "@,
            Style { bold: true, ..style::plain() },
        ),
        (entry.1@ + " "@, Style { dim: true, ..style::plain() }),
    ]
}

/// The key table as lines for the help overlay.
pub fn help_lines() -> (r: Vec<Line>)
    ensures
        style::line_views(r@) == KEYS@.map_values(
            |e: (&'static str, &'static str)| help_line(e, widest_key(KEYS@)),
        ),
{
    let keys = KEYS;
    let n: usize = 14;
    let mut key_w: usize = 0;
    let mut i: usize = 0;
    assert(keys@.take(0) =~= Seq::empty());
    while i < n
        invariant
            i <= n,
            n == 14,
            keys@.len() == 14,
            key_w == widest_key(keys@.take(i as int)),
        decreases n - i,
    {
        assert(keys@.take(i + 1).drop_last() =~= keys@.take(i as int));
        let len: usize = text::char_count(keys[i].0);
        if len > key_w {
            key_w = len;
        }
        i += 1;
    }
    assert(keys@.take(i as int) =~= keys@);
    let ghost want = keys@.map_values(
        |e: (&'static str, &'static str)| help_line(e, widest_key(keys@)),
    );
    let mut out: Vec<Line> = Vec::new();
    let mut k: usize = 0;
    assert(style::line_views(out@) =~= want.take(0));
    while k < n
        invariant
            k <= n,
            n == 14,
            keys@.len() == 14,
            key_w == widest_key(keys@),
            want == keys@.map_values(
                |e: (&'static str, &'static str)| help_line(e, widest_key(keys@)),
            ),
            style::line_views(out@) == want.take(k as int),
        decreases n - k,
    {
        let len: usize = text::char_count(keys[k].0);
        let mut label = " ".to_owned();
        label.append(keys[k].0);
        label.append(text::repeated(' ', key_w.saturating_sub(len)).as_str());
        label.append("  ");
        let mut what = keys[k].1.to_owned();
        what.append(" ");
        let mut spans: Vec<Span> = Vec::new();
        spans.push(Span::styled(label, Style::new().bold()));
        spans.push(Span::styled(what, Style::new().dim()));
        let line = Line { spans };
        let ghost before = style::line_views(out@);
        let ghost v = line@;
        out.push(line);
        proof {
            assert(v =~= help_line(keys@[k as int], key_w as nat));
            assert(style::line_views(out@) =~= before.push(v));
            assert(want.take(k + 1) =~= before.push(v));
        }
        k += 1;
    }
    assert(want.take(k as int) =~= want);
    out
}

proof fn lemma_feed(f: Feed, n: int)
    requires
        0 <= n <= f.cards.len(),
    ensures
        forall|k: int|
            0 <= k < feed_spans(f, n).len() ==> spans_card(
                f,
                #[trigger] feed_spans(f, n)[k],
                n,
                feed_lines(f, n),
            ),
        forall|c: int|
            0 <= c < n && #[trigger] is_shown(f, f.cards[c]) ==> exists|k: int|
                0 <= k < feed_spans(f, n).len() && (#[trigger] feed_spans(f, n)[k]).1 == c,
        forall|i: int, j: int|
            0 <= i < j < feed_spans(f, n).len() ==> (#[trigger] feed_spans(f, n)[i]).1 < (
            #[trigger] feed_spans(f, n)[j]).1,
    decreases n,
{
    if n > 0 {
        lemma_feed(f, n - 1);
        let card = f.cards[n - 1];
        let before = feed_spans(f, n - 1);
        let spans = feed_spans(f, n);
        let lines = feed_lines(f, n);
        assert forall|k: int| 0 <= k < spans.len() implies spans_card(
            f,
            #[trigger] spans[k],
            n,
            lines,
        ) by {
            let block = card_block(f, f.cards[spans[k].1]);
            if k < before.len() {
                assert(spans_card(f, before[k], n - 1, feed_lines(f, n - 1)));
                assert(spans[k] == before[k]);
                assert(lines.subrange(spans[k].0, spans[k].0 + block.len()) =~= feed_lines(
                    f,
                    n - 1,
                ).subrange(spans[k].0, spans[k].0 + block.len()));
            } else {
                assert(lines.subrange(spans[k].0, spans[k].0 + block.len()) =~= block);
            }
        }
        assert forall|c: int| 0 <= c < n && #[trigger] is_shown(f, f.cards[c]) implies exists|
            k: int,
        |
            0 <= k < spans.len() && (#[trigger] spans[k]).1 == c by {
            if c < n - 1 {
                let k = choose|k: int| 0 <= k < before.len() && (#[trigger] before[k]).1 == c;
                assert(spans[k] == before[k]);
            } else {
                assert(spans[before.len() as int].1 == c);
            }
        }
        assert forall|i: int, j: int| 0 <= i < j < spans.len() implies (#[trigger] spans[i]).1 < (
        #[trigger] spans[j]).1 by {
            assert(spans[i] == before[i]);
            assert(spans_card(f, before[i], n - 1, feed_lines(f, n - 1)));
            if j < before.len() {
                assert(spans[j] == before[j]);
            }
        }
    }
}

/// Whether a span is of a shown card and its lines are that card's.
pub open spec fn spans_card(
    f: Feed,
    span: (int, int),
    n: int,
    lines: Seq<Seq<(Seq<char>, Style)>>,
) -> bool {
    let block = card_block(f, f.cards[span.1]);
    &&& 0 <= span.1 < n
    &&& is_shown(f, f.cards[span.1])
    &&& 0 <= span.0 <= span.0 + block.len() <= lines.len()
    &&& lines.subrange(span.0, span.0 + block.len()) == block
}

/// A feed shows exactly the cards of the selected session that are not hidden,
/// in the order in which they came, and each under its own header.
pub proof fn law_a_feed_shows_each_visible_card(a: App)
    requires
        a.current_feed(),
    ensures
        forall|k: int|
            0 <= k < a.spans@.len() ==> spans_card(
                a.feed(),
                ((#[trigger] a.spans@[k]).start as int, a.spans@[k].card as int),
                a.cards@.len() as int,
                style::line_views(a.lines@),
            ),
        forall|c: int|
            0 <= c < a.cards@.len() ==> (#[trigger] has_span(a.spans@, c) <==> is_shown(
                a.feed(),
                a.cards@[c],
            )),
        forall|i: int, j: int|
            0 <= i < j < a.spans@.len() ==> (#[trigger] a.spans@[i]).card < (
            #[trigger] a.spans@[j]).card,
        forall|k: int|
            0 <= k < a.spans@.len() ==> a.lines@[(#[trigger] a.spans@[k]).start as int]@
                == render::bar(
                a.cards@[a.spans@[k].card as int].input,
                a.cards@[a.spans@[k].card as int].time@,
                a.width as nat,
                a.sessions@.len() > 1,
            ),
{
    let f = a.feed();
    let n = a.cards@.len() as int;
    let views = span_views(a.spans@);
    lemma_feed(f, n);
    assert forall|k: int| 0 <= k < a.spans@.len() implies spans_card(
        f,
        ((#[trigger] a.spans@[k]).start as int, a.spans@[k].card as int),
        n,
        style::line_views(a.lines@),
    ) by {
        assert(views[k] == feed_spans(f, n)[k]);
    }
    assert forall|c: int| 0 <= c < a.cards@.len() implies (#[trigger] has_span(a.spans@, c)
        <==> is_shown(f, a.cards@[c])) by {
        if is_shown(f, f.cards[c]) {
            let k = choose|k: int|
                0 <= k < feed_spans(f, n).len() && (#[trigger] feed_spans(f, n)[k]).1 == c;
            assert(views[k].1 == c);
            assert(a.spans@[k].card == c);
        }
        if has_span(a.spans@, c) {
            let k = choose|i: int| 0 <= i < a.spans@.len() && (#[trigger] a.spans@[i]).card == c;
            assert(a.spans@[k].card == c);
        }
    }
    assert forall|i: int, j: int| 0 <= i < j < a.spans@.len() implies (
    #[trigger] a.spans@[i]).card < (#[trigger] a.spans@[j]).card by {
        assert(views[i] == feed_spans(f, n)[i]);
        assert(views[j] == feed_spans(f, n)[j]);
    }
    assert forall|k: int| 0 <= k < a.spans@.len() implies a.lines@[(
    #[trigger] a.spans@[k]).start as int]@ == render::bar(
        a.cards@[a.spans@[k].card as int].input,
        a.cards@[a.spans@[k].card as int].time@,
        a.width as nat,
        a.sessions@.len() > 1,
    ) by {
        let start = a.spans@[k].start as int;
        let block = card_block(f, a.cards@[a.spans@[k].card as int]);
        let lines = style::line_views(a.lines@);
        assert(lines.subrange(start, start + block.len())[0] == block[0]);
        assert(lines[start] == a.lines@[start]@);
    }
}

/// The selection after Tab was pressed some times, starting with all sessions.
pub open spec fn selection_after(sessions: nat, times: nat) -> Option<usize>
    decreases times,
{
    if times == 0 {
        None
    } else {
        next_selection(selection_after(sessions, (times - 1) as nat), sessions)
    }
}

proof fn lemma_selection_after(sessions: nat, times: nat)
    requires
        sessions <= usize::MAX,
        times <= sessions,
    ensures
        selection_after(sessions, times) == (if times == 0 {
            None
        } else {
            Some((times - 1) as usize)
        }),
    decreases times,
{
    if times > 0 {
        lemma_selection_after(sessions, (times - 1) as nat);
    }
}

/// Tab goes from all sessions through each in the order of its first card, and
/// back to all.
pub proof fn law_tab_visits_every_session(sessions: nat)
    requires
        sessions <= usize::MAX,
    ensures
        forall|i: int|
            0 <= i < sessions ==> #[trigger] selection_after(sessions, (i + 1) as nat) == Some(
                i as usize,
            ),
        selection_after(sessions, sessions + 1) is None,
{
    assert forall|i: int| 0 <= i < sessions implies #[trigger] selection_after(
        sessions,
        (i + 1) as nat,
    ) == Some(i as usize) by {
        lemma_selection_after(sessions, (i + 1) as nat);
    }
    lemma_selection_after(sessions, sessions);
}

/// Whether the cards are laid out for the current options.
pub open spec fn is_laid_out(a: App) -> bool {
    forall|i: int|
        0 <= i < a.cards@.len() ==> style::line_views((#[trigger] a.cards@[i]).lines@)
            == render::card_body(a.cards@[i].input.diff, a.cards@[i].painted@, a.layout_opts())
}

/// Whether two cards differ at most in how their lines are kept.
pub open spec fn same_card(c: EditCard, d: EditCard) -> bool {
    &&& d == (EditCard { lines: d.lines, ..c })
    &&& style::line_views(c.lines@) == style::line_views(d.lines@)
}

proof fn lemma_same_feed(f: Feed, g: Feed, n: int)
    requires
        g == (Feed { cards: g.cards, ..f }),
        0 <= n <= f.cards.len(),
        f.cards.len() == g.cards.len(),
        forall|i: int| 0 <= i < n ==> same_card(#[trigger] f.cards[i], g.cards[i]),
    ensures
        feed_lines(f, n) == feed_lines(g, n),
        feed_spans(f, n) == feed_spans(g, n),
    decreases n,
{
    if n > 0 {
        lemma_same_feed(f, g, n - 1);
        assert(same_card(f.cards[n - 1], g.cards[n - 1]));
    }
}

/// Pressing `v` twice shows the feed as it was.
pub proof fn law_toggling_the_view_twice(a: App, b: App, c: App)
    requires
        a.current_feed(),
        is_laid_out(a),
        view_toggled(a, b),
        view_toggled(b, c),
    ensures
        c.mode == a.mode,
        style::line_views(c.lines@) == style::line_views(a.lines@),
        span_views(c.spans@) == span_views(a.spans@),
{
    lemma_relaid_twice(a, b, c);
}

/// Pressing `w` twice shows the feed as it was.
pub proof fn law_toggling_wrap_twice(a: App, b: App, c: App)
    requires
        a.current_feed(),
        is_laid_out(a),
        wrap_toggled(a, b),
        wrap_toggled(b, c),
    ensures
        c.wrap == a.wrap,
        style::line_views(c.lines@) == style::line_views(a.lines@),
        span_views(c.spans@) == span_views(a.spans@),
{
    lemma_relaid_twice(a, b, c);
}

proof fn lemma_relaid_twice(a: App, b: App, c: App)
    requires
        a.current_feed(),
        is_laid_out(a),
        relaid(a, b),
        relaid(b, c),
        c.layout_opts() == a.layout_opts(),
        c.feed() == (Feed { cards: c.cards@, ..a.feed() }),
    ensures
        style::line_views(c.lines@) == style::line_views(a.lines@),
        span_views(c.spans@) == span_views(a.spans@),
{
    assert forall|i: int| 0 <= i < a.cards@.len() implies same_card(
        #[trigger] a.cards@[i],
        c.cards@[i],
    ) by {
        assert(b.cards@[i] == (EditCard { lines: b.cards@[i].lines, ..a.cards@[i] }));
        assert(c.cards@[i] == (EditCard { lines: c.cards@[i].lines, ..b.cards@[i] }));
    }
    lemma_same_feed(a.feed(), c.feed(), a.cards@.len() as int);
}

/// Pressing `o` twice shows the feed as it was: a card that is hidden is kept.
pub proof fn law_toggling_scratch_files_twice(a: App, b: App, c: App)
    requires
        a.current_feed(),
        temp_toggled(a, b),
        temp_toggled(b, c),
    ensures
        c.cards@ == a.cards@,
        style::line_views(c.lines@) == style::line_views(a.lines@),
        span_views(c.spans@) == span_views(a.spans@),
{
    assert(c.feed() == a.feed());
}

/// No key scrolls past the end of the feed.
pub proof fn law_keys_stay_within_the_feed(was: App, new: App, key: KeyEvent)
    requires
        was.offset <= was.bottom(),
        pressed(was, new, key),
    ensures
        new.offset <= new.bottom(),
{
}

/// While follow is on, a feed that grows is shown to its end, and while it is
/// off, the offset moves only when the feed has become too short for it.
pub proof fn law_following_shows_the_end(a: App, offset: usize)
    requires
        a.settled(offset),
    ensures
        a.follow ==> a.offset == a.bottom(),
        !a.follow && offset <= a.bottom() ==> a.offset == offset,
        a.offset <= a.bottom(),
{
}

/// A card is shown when it is of the session that is picked, or none is, and
/// when it is not of a scratch file, or those are shown.
pub proof fn law_cards_are_shown_by_session_and_place(f: Feed, card: EditCard)
    ensures
        f.session is None && f.show_temp ==> is_shown(f, card),
        f.session is None && !f.show_temp ==> (is_shown(f, card) <==> !card.input.temp),
        f.session matches Some(id) ==> (is_shown(f, card) <==> (card.input.session_id matches Some(
            s,
        ) && s@ == id) && (f.show_temp || !card.input.temp)),
{
}

/// A card stands in the feed as its header, its lines unless it is collapsed,
/// and a blank line.
pub proof fn law_a_collapsed_card_is_its_header(f: Feed, card: EditCard, i: int)
    ensures
        card_block(f, card)[0] == render::bar(card.input, card.time@, f.width as nat, f.tags),
        card_block(f, card).last().len() == 0,
        card.collapsed ==> card_block(f, card).len() == 2,
        !card.collapsed ==> card_block(f, card).len() == card.lines@.len() + 2,
        !card.collapsed && 0 <= i < card.lines@.len() ==> card_block(f, card)[1 + i]
            == card.lines@[i]@,
{
}

/// The last line a feed can begin at, so that its end is on the screen.
pub open spec fn end_of(a: App) -> int {
    if a.lines@.len() > a.viewport {
        a.lines@.len() - a.viewport
    } else {
        0
    }
}

/// Whether the feed moved `n` lines up, to its start at most, and follows no
/// more.
pub open spec fn moved_up(was: App, new: App, n: int) -> bool {
    &&& new.offset == (if was.offset > n {
        was.offset - n
    } else {
        0
    })
    &&& !new.follow
    &&& new == (App { offset: new.offset, follow: new.follow, ..was })
}

/// Whether the feed moved `n` lines down, to its end at most, and follows once
/// it is there.
pub open spec fn moved_down(was: App, new: App, n: int) -> bool {
    &&& new.offset == (if was.offset + n < end_of(was) {
        was.offset + n
    } else {
        end_of(was)
    })
    &&& new.follow == (was.follow || new.offset == end_of(was))
    &&& new == (App { offset: new.offset, follow: new.follow, ..was })
}

/// Keys scroll by a line, half a screen or a screen, to the start or to the
/// end, and change nothing else.
pub proof fn law_keys_scroll(was: App, new: App, key: KeyEvent)
    requires
        !was.help,
        pressed(was, new, key),
        was.viewport >= 1,
        end_of(was) <= usize::MAX,
    ensures
        key.code is Down || key.code == KeyCode::Char('j') ==> moved_down(was, new, 1),
        key.code is Up || key.code == KeyCode::Char('k') ==> moved_up(was, new, 1),
        key.code is PageDown ==> moved_down(was, new, was.viewport as int),
        key.code is PageUp ==> moved_up(was, new, was.viewport as int),
        key.code == KeyCode::Char('d') && key.ctrl ==> moved_down(
            was,
            new,
            was.viewport as int / 2,
        ),
        key.code == KeyCode::Char('u') && key.ctrl && was.viewport >= 2 ==> moved_up(
            was,
            new,
            was.viewport as int / 2,
        ),
        key.code == KeyCode::Char('g') ==> new == (App { offset: 0, follow: false, ..was }),
        key.code == KeyCode::Char('G') ==> new.offset == end_of(was) && new == (App {
            offset: new.offset,
            follow: true,
            ..was
        }),
        key.code == KeyCode::Char('p') ==> new.follow == !was.follow && (new.follow ==> new.offset
            == end_of(was)) && (!new.follow && was.offset <= end_of(was) ==> new.offset
            == was.offset) && new == (App { offset: new.offset, follow: new.follow, ..was }),
{
    assert(was.bottom() == end_of(was));
}

/// The wheel moves the feed by three lines.
pub proof fn law_the_wheel_moves_three_lines(was: App, new: App)
    ensures
        scrolled(was, new, true, WHEEL_STEP as nat) ==> moved_up(was, new, 3),
        scrolled(was, new, false, WHEEL_STEP as nat) ==> moved_down(was, new, 3),
{
    assert(was.bottom() == end_of(was));
}

/// `q`, Esc and Ctrl-c quit, and no other key does.
pub proof fn law_three_keys_quit(was: App, new: App, key: KeyEvent)
    requires
        !was.help,
        pressed(was, new, key),
    ensures
        key.code is Esc || key.code == KeyCode::Char('q') || (key.code == KeyCode::Char('c')
            && key.ctrl) ==> new == (App { quit: true, ..was }),
        !(key.code is Esc || key.code == KeyCode::Char('q') || (key.code == KeyCode::Char('c')
            && key.ctrl)) ==> new.quit == was.quit,
{
}

/// `?` opens the key table. While it is open, `?`, Esc and `q` close it,
/// Ctrl-c quits, and no key does anything else.
pub proof fn law_the_key_table_takes_the_keys(was: App, new: App, key: KeyEvent)
    requires
        pressed(was, new, key),
    ensures
        !was.help && key.code == KeyCode::Char('?') ==> new == (App { help: true, ..was }),
        !was.help && key.code != KeyCode::Char('?') ==> !new.help,
        was.help && (key.code == KeyCode::Char('?') || key.code is Esc || key.code
            == KeyCode::Char('q')) ==> new == (App { help: false, ..was }),
        was.help && key.code == KeyCode::Char('c') && key.ctrl ==> new == (App {
            quit: true,
            ..was
        }),
        was.help && key.code != KeyCode::Char('?') && key.code !is Esc && key.code
            != KeyCode::Char('q') && !(key.code == KeyCode::Char('c') && key.ctrl) ==> new == was,
{
}

/// The card on top is the last one that begins at or above the offset.
pub proof fn lemma_owner_is(a: App, i: int)
    requires
        a.wf(),
        0 <= i < a.spans@.len(),
        a.spans@[i].start <= a.offset,
        i + 1 < a.spans@.len() ==> a.spans@[i + 1].start > a.offset,
    ensures
        owner(a.spans@, a.offset) == i,
{
    lemma_owner(a.spans@, a.offset);
    let o = owner(a.spans@, a.offset);
    if o < i {
        assert(a.spans@[i].start > a.offset);
    } else if o > i + 1 {
        assert(a.spans@[i + 1].start < a.spans@[o].start);
    }
}

/// `n` goes to the next card. `N` goes to the start of the card, and from
/// there to the one before. Neither goes past the last line of the feed, and
/// at the last and the first card they do nothing.
pub proof fn law_keys_go_from_card_to_card(was: App, new: App, key: KeyEvent, i: int)
    requires
        was.wf(),
        !was.help,
        pressed(was, new, key),
        0 <= i < was.spans@.len(),
        was.spans@[i].start <= was.offset,
        i + 1 < was.spans@.len() ==> was.spans@[i + 1].start > was.offset,
    ensures
        ({
            let to = if key.code == KeyCode::Char('n') {
                if i + 1 < was.spans@.len() {
                    was.spans@[i + 1].start as int
                } else {
                    -1
                }
            } else if was.offset > was.spans@[i].start {
                was.spans@[i].start as int
            } else if i > 0 {
                was.spans@[i - 1].start as int
            } else {
                -1
            };
            key.code == KeyCode::Char('n') || key.code == KeyCode::Char('N') ==> {
                &&& to < 0 ==> new == was
                &&& to >= 0 ==> new.offset == (if to < end_of(was) {
                    to
                } else {
                    end_of(was)
                })
                &&& to >= 0 ==> new.follow == (new.offset == end_of(was))
                &&& new == (App { offset: new.offset, follow: new.follow, ..was })
            }
        }),
{
    lemma_owner_is(was, i);
    assert(was.bottom() == end_of(was));
}

/// Enter collapses the card on top, or expands it, and keeps it on top as far
/// as the feed reaches. Other cards stay as they are.
pub proof fn law_enter_collapses_the_card_on_top(
    was: App,
    new: App,
    key: KeyEvent,
    i: int,
    c: int,
)
    requires
        was.wf(),
        !was.help,
        pressed(was, new, key),
        key.code is Enter,
        0 <= i < was.spans@.len(),
        was.spans@[i].start <= was.offset,
        i + 1 < was.spans@.len() ==> was.spans@[i + 1].start > was.offset,
        0 <= c < was.cards@.len(),
    ensures
        new.cards@.len() == was.cards@.len(),
        c == was.spans@[i].card ==> new.cards@[c] == (EditCard {
            collapsed: !was.cards@[c].collapsed,
            ..was.cards@[c]
        }),
        c != was.spans@[i].card ==> new.cards@[c] == was.cards@[c],
        new.current_feed(),
{
    lemma_owner_is(was, i);
}

/// `z` collapses all cards that are shown when one of them is expanded, and
/// expands them all when none is. Cards that are not shown stay as they are.
pub proof fn law_all_cards_are_collapsed_together(
    was: App,
    new: App,
    key: KeyEvent,
    i: int,
    k: int,
    c: int,
)
    requires
        was.wf(),
        !was.help,
        pressed(was, new, key),
        key.code == KeyCode::Char('z'),
        0 <= i < was.spans@.len(),
        was.spans@[i].start <= was.offset,
        i + 1 < was.spans@.len() ==> was.spans@[i + 1].start > was.offset,
        0 <= k < was.spans@.len(),
        0 <= c < was.cards@.len(),
    ensures
        new.cards@.len() == was.cards@.len(),
        new.cards@[was.spans@[k].card as int].collapsed == exists|j: int|
            0 <= j < was.spans@.len() && !was.cards@[(#[trigger] was.spans@[j]).card as int].collapsed,
        new.cards@[c] == (EditCard { collapsed: new.cards@[c].collapsed, ..was.cards@[c] }),
        (forall|j: int| 0 <= j < was.spans@.len() ==> (#[trigger] was.spans@[j]).card != c)
            ==> new.cards@[c] == was.cards@[c],
        new.current_feed(),
{
    lemma_owner_is(was, i);
    assert(was.spans@[k].card < was.cards@.len());
    assert(has_span(was.spans@, was.spans@[k].card as int));
    assert(new.cards@[was.spans@[k].card as int].collapsed == any_expanded(
        was.spans@,
        was.cards@,
    ));
    assert(new.cards@[c] == new.cards@[c]);
}

/// `v`, `w`, `o` and Tab each change one setting, and the feed is that of the
/// new settings.
pub proof fn law_keys_change_one_setting(was: App, new: App, key: KeyEvent)
    requires
        !was.help,
        pressed(was, new, key),
    ensures
        ({
            let rest = App {
                mode: was.mode,
                wrap: was.wrap,
                show_temp: was.show_temp,
                selected: was.selected,
                cards: was.cards,
                lines: was.lines,
                spans: was.spans,
                offset: was.offset,
                ..new
            };
            &&& key.code == KeyCode::Char('v') ==> new.mode != was.mode && new.wrap == was.wrap
                && new.show_temp == was.show_temp && new.selected == was.selected && rest == was
            &&& key.code == KeyCode::Char('w') ==> new.wrap == !was.wrap && new.mode == was.mode
                && new.show_temp == was.show_temp && new.selected == was.selected && rest == was
            &&& key.code == KeyCode::Char('o') ==> new.show_temp == !was.show_temp && new.mode
                == was.mode && new.wrap == was.wrap && new.selected == was.selected && rest
                == was && new.cards == was.cards
            &&& key.code is Tab ==> new.mode == was.mode && new.wrap == was.wrap
                && new.show_temp == was.show_temp && rest == was && new.cards == was.cards
            &&& key.code == KeyCode::Char('v') || key.code == KeyCode::Char('w') || key.code
                == KeyCode::Char('o') || key.code is Tab ==> new.current_feed()
            &&& key.code == KeyCode::Char('v') || key.code == KeyCode::Char('w')
                ==> new.cards@.len() == was.cards@.len() && is_laid_out(new)
        }),
{
    if key.code == KeyCode::Char('v') || key.code == KeyCode::Char('w') {
        assert forall|i: int| 0 <= i < new.cards@.len() implies style::line_views(
            (#[trigger] new.cards@[i]).lines@,
        ) == render::card_body(new.cards@[i].input.diff, new.cards@[i].painted@, new.layout_opts())
        by {
            assert(new.cards@[i] == (EditCard { lines: new.cards@[i].lines, ..was.cards@[i] }));
        }
    }
}

/// Any other key does nothing.
pub proof fn law_other_keys_do_nothing(was: App, new: App, c: char, ctrl: bool)
    requires
        !was.help,
        pressed(was, new, KeyEvent { code: KeyCode::Char(c), ctrl }) || pressed(
            was,
            new,
            KeyEvent { code: KeyCode::Other, ctrl },
        ),
        c != 'q' && c != 'j' && c != 'k' && c != 'g' && c != 'G' && c != 'p' && c != 'n' && c
            != 'N' && c != 'z' && c != 'v' && c != 'w' && c != 'o' && c != '?',
        (c == 'c' || c == 'd' || c == 'u') ==> !ctrl,
    ensures
        new == was,
{
}

/// The screen shows the lines of the feed from its offset on, as many as there
/// are and fit.
pub proof fn law_the_screen_shows_lines_in_order(
    lines: Seq<Seq<(Seq<char>, Style)>>,
    from: nat,
    height: nat,
    k: int,
)
    ensures
        from + height <= lines.len() ==> window(lines, from, height).len() == height,
        from <= lines.len() < from + height ==> window(lines, from, height).len() == lines.len()
            - from,
        from > lines.len() ==> window(lines, from, height).len() == 0,
        0 <= k < window(lines, from, height).len() ==> window(lines, from, height)[k]
            == lines[from + k],
{
}

/// A path below the home directory is shown from `~/` on.
pub proof fn law_home_is_a_tilde(path: Seq<char>, home: Seq<char>)
    ensures
        tilde_text(path, None) == path,
        paths::below(path, home) matches Some(rest) ==> tilde_text(path, Some(home)) == "~/"@
            + rest,
        paths::below(path, home) is None ==> tilde_text(path, Some(home)) == path,
{
}

/// A directory that has no room is cut from the left and marked.
pub proof fn law_a_long_directory_keeps_its_end(s: Seq<char>, avail: nat)
    ensures
        s.len() <= avail ==> shortened(s, avail) == s,
        s.len() > avail ==> shortened(s, avail)[0] == '…',
        s.len() > avail && avail > 0 ==> shortened(s, avail).len() == avail && shortened(
            s,
            avail,
        ).skip(1) == s.skip(s.len() - (avail - 1)),
        s.len() > avail && avail == 0 ==> shortened(s, avail).len() == 1,
{
    reveal_strlit("…");
    if s.len() > avail && avail > 0 {
        assert(shortened(s, avail).skip(1) =~= s.skip(s.len() - (avail - 1)));
    }
}

/// Cards of scratch files are counted as hidden when they are of the session
/// that is picked and scratch files are not shown.
pub proof fn law_hidden_cards_are_counted(f: Feed, n: int)
    requires
        0 <= n < f.cards.len(),
    ensures
        hidden_temp(f, 0) == 0,
        hidden_temp(f, n + 1) == hidden_temp(f, n) + (if f.cards[n].input.temp && !f.show_temp && (
        f.session matches Some(id) ==> (f.cards[n].input.session_id matches Some(s) && s@ == id)) {
            1nat
        } else {
            0nat
        }),
{
}

proof fn lemma_first_card_of(cards: Seq<EditCard>, id: Seq<char>, i: int)
    requires
        0 <= i < cards.len(),
        text::opt_text(cards[i].input.session_id) == Some(id),
        forall|j: int|
            0 <= j < i ==> text::opt_text((#[trigger] cards[j]).input.session_id) != Some(id),
    ensures
        first_of(cards, id) == i,
    decreases cards.len(),
{
    let front = cards.drop_last();
    if i < front.len() {
        assert(front[i] == cards[i]);
        assert forall|j: int| 0 <= j < i implies text::opt_text(
            (#[trigger] front[j]).input.session_id,
        ) != Some(id) by {
            assert(front[j] == cards[j]);
        }
        lemma_first_card_of(front, id, i);
    } else {
        assert forall|j: int| 0 <= j < front.len() implies text::opt_text(
            (#[trigger] front[j]).input.session_id,
        ) != Some(id) by {
            assert(front[j] == cards[j]);
        }
        lemma_no_card_of(front, id);
    }
}

proof fn lemma_no_card_of(cards: Seq<EditCard>, id: Seq<char>)
    requires
        forall|j: int|
            0 <= j < cards.len() ==> text::opt_text((#[trigger] cards[j]).input.session_id)
                != Some(id),
    ensures
        first_of(cards, id) == -1,
    decreases cards.len(),
{
    if cards.len() > 0 {
        let front = cards.drop_last();
        assert(text::opt_text(cards[cards.len() - 1].input.session_id) != Some(id));
        assert forall|j: int| 0 <= j < front.len() implies text::opt_text(
            (#[trigger] front[j]).input.session_id,
        ) != Some(id) by {
            assert(front[j] == cards[j]);
        }
        lemma_no_card_of(front, id);
    }
}

/// The session in the status is called by the tag of its first card, by its id
/// without a card, and `all` when none is picked.
pub proof fn law_sessions_are_called_by_their_tag(cards: Seq<EditCard>, id: Seq<char>, i: int)
    ensures
        label_of(cards, None) == "all"@,
        (forall|j: int|
            0 <= j < cards.len() ==> text::opt_text((#[trigger] cards[j]).input.session_id)
                != Some(id)) ==> label_of(cards, Some(id)) == id,
        0 <= i < cards.len() && text::opt_text(cards[i].input.session_id) == Some(id) && (forall|
            j: int,
        |
            0 <= j < i ==> text::opt_text((#[trigger] cards[j]).input.session_id) != Some(id))
            ==> label_of(cards, Some(id)) == (match cards[i].input.worktree {
            Some(wt) => wt@ + ":"@ + render::id_suffix(id),
            None => render::id_suffix(id),
        }),
{
    if forall|j: int|
        0 <= j < cards.len() ==> text::opt_text((#[trigger] cards[j]).input.session_id) != Some(
            id,
        ) {
        lemma_no_card_of(cards, id);
    }
    if 0 <= i < cards.len() && text::opt_text(cards[i].input.session_id) == Some(id) && (forall|
        j: int,
    |
        0 <= j < i ==> text::opt_text((#[trigger] cards[j]).input.session_id) != Some(id)) {
        lemma_first_card_of(cards, id, i);
    }
}

/// The status reads: the directory, the session, which card is on top of how
/// many, how many are hidden if any, whether the feed follows, the view,
/// whether lines wrap, and the key for help.
pub proof fn law_the_status_reads(a: App, width: u16, home: Option<Seq<char>>, i: int)
    requires
        a.wf(),
        0 <= i < a.spans@.len(),
        a.spans@[i].start <= a.offset,
        i + 1 < a.spans@.len() ==> a.spans@[i + 1].start > a.offset,
    ensures
        ({
            let hidden = hidden_temp(a.feed(), a.cards@.len() as int);
            let dir = match a.pipeline.matcher.repo {
                Some(repo) => repo.toplevel@,
                None => a.cwd@,
            };
            let fields = "session: "@ + label_of(a.cards@, a.session()) + "  card: "@
                + text::digits((i + 1) as nat) + "/"@ + text::digits(a.spans@.len()) + (if hidden
                == 0 {
                Seq::empty()
            } else {
                "  temp: "@ + text::digits(hidden) + " hidden"@
            }) + "  follow: "@ + (if a.follow {
                "on"@
            } else {
                "off"@
            }) + "  view: "@ + render::mode_label(a.mode) + "  wrap: "@ + (if a.wrap {
                "on"@
            } else {
                "off"@
            }) + "  ? help"@;
            let room = if fields.len() + 3 < width {
                (width - fields.len() - 3) as nat
            } else {
                0
            };
            status_text(a, width, home) == " "@ + shortened(tilde_text(dir, home), room) + "  "@
                + fields
        }),
{
    lemma_owner_is(a, i);
}

/// A line of the key table has the key, in a column as wide as the widest, and
/// what it does.
pub proof fn law_keys_are_listed(k: int)
    requires
        0 <= k < KEYS@.len(),
    ensures
        KEYS@[k].0@.len() <= widest_key(KEYS@),
        style::line_text(help_line(KEYS@[k], widest_key(KEYS@))) == " "@ + KEYS@[k].0@
            + text::copies(' ', (widest_key(KEYS@) - KEYS@[k].0@.len()) as nat) + "  "@
            + KEYS@[k].1@ + " "@,
{
    lemma_widest(KEYS@, k);
    let line = help_line(KEYS@[k], widest_key(KEYS@));
    let front = line.drop_last();
    style::lemma_one_span_text(line[0].0, line[0].1);
    assert(front =~= seq![(line[0].0, line[0].1)]);
    assert(style::line_text(line) =~= line[0].0 + line[1].0);
    assert(line[0].0 + line[1].0 =~= line[0].0 + KEYS@[k].1@ + " "@);
}

proof fn lemma_widest(keys: Seq<(&'static str, &'static str)>, k: int)
    requires
        0 <= k < keys.len(),
    ensures
        keys[k].0@.len() <= widest_key(keys),
    decreases keys.len(),
{
    if k < keys.len() - 1 {
        lemma_widest(keys.drop_last(), k);
    }
}

/// Cards are laid out for the view, the width and the wrapping of the feed.
pub proof fn law_cards_are_laid_out_for_the_feed(a: App)
    ensures
        a.layout_opts().mode == a.mode,
        a.layout_opts().width == a.width,
        a.layout_opts().wrap == a.wrap,
        a.feed().cards == a.cards@,
        a.feed().width == a.width,
        a.feed().show_temp == a.show_temp,
        a.feed().tags <==> a.sessions@.len() >= 2,
        a.selected is None ==> a.feed().session is None,
        a.selected matches Some(i) ==> a.feed().session == Some(a.sessions@[i as int]@),
{
}

proof fn lemma_first_span(spans: Seq<CardSpan>, k: int)
    requires
        0 <= k < spans.len(),
        forall|j: int| 0 <= j < k ==> (#[trigger] spans[j]).card != spans[k].card,
    ensures
        span_of(spans, spans[k].card as int) == k,
    decreases spans.len(),
{
    let front = spans.drop_last();
    if k < front.len() {
        assert(front[k] == spans[k]);
        assert forall|j: int| 0 <= j < k implies (#[trigger] front[j]).card != front[k].card by {
            assert(front[j] == spans[j]);
        }
        lemma_first_span(front, k);
    } else {
        assert forall|j: int| 0 <= j < front.len() implies (#[trigger] front[j]).card
            != spans[k].card by {
            assert(front[j] == spans[j]);
        }
        lemma_no_span(front, spans[k].card as int);
    }
}

proof fn lemma_no_span(spans: Seq<CardSpan>, card: int)
    requires
        forall|j: int| 0 <= j < spans.len() ==> (#[trigger] spans[j]).card != card,
    ensures
        span_of(spans, card) == -1,
    decreases spans.len(),
{
    if spans.len() > 0 {
        let front = spans.drop_last();
        assert(spans[spans.len() - 1].card != card);
        assert forall|j: int| 0 <= j < front.len() implies (#[trigger] front[j]).card != card by {
            assert(front[j] == spans[j]);
        }
        lemma_no_span(front, card);
    }
}

/// The card that was on top when cards were collapsed or expanded is on top
/// afterwards, or as far up as the end of the feed lets it be.
pub proof fn law_the_card_on_top_stays_on_top(was: App, new: App, key: KeyEvent, i: int, k: int)
    requires
        was.wf(),
        !was.help,
        pressed(was, new, key),
        key.code is Enter || key.code == KeyCode::Char('z'),
        0 <= i < was.spans@.len(),
        was.spans@[i].start <= was.offset,
        i + 1 < was.spans@.len() ==> was.spans@[i + 1].start > was.offset,
        0 <= k < new.spans@.len(),
        new.spans@[k].card == was.spans@[i].card,
        forall|j: int| 0 <= j < k ==> (#[trigger] new.spans@[j]).card != new.spans@[k].card,
    ensures
        new.offset == (if new.spans@[k].start < end_of(new) {
            new.spans@[k].start as int
        } else {
            end_of(new)
        }),
        new.follow == (new.offset == end_of(new)),
{
    lemma_owner_is(was, i);
    lemma_first_span(new.spans@, k);
    assert(new.bottom() == end_of(new));
}

/// Tab picks the first session, then the next, and none after the last.
pub proof fn law_tab_picks_the_next_session(was: App, new: App, ctrl: bool)
    requires
        was.wf(),
        !was.help,
        pressed(was, new, KeyEvent { code: KeyCode::Tab, ctrl }),
    ensures
        was.selected is None && was.sessions@.len() == 0 ==> new.selected is None,
        was.selected is None && was.sessions@.len() > 0 ==> new.selected == Some(0usize),
        was.selected matches Some(i) ==> (if i == was.sessions@.len() - 1 {
            new.selected is None
        } else {
            new.selected matches Some(j) && j == i + 1
        }),
{
    assert(was.sessions.len() == was.sessions@.len());
}

/// New cards stand behind those that are there, one for each edit and
/// expanded.
pub proof fn law_new_cards_come_last(was: App, new: App, inputs: Seq<CardInput>, i: int)
    requires
        cards_pushed(was, new, inputs),
    ensures
        new.cards@.len() == was.cards@.len() + inputs.len(),
        0 <= i < was.cards@.len() ==> new.cards@[i] == was.cards@[i],
        0 <= i < inputs.len() ==> new.cards@[was.cards@.len() + i].input == inputs[i]
            && !new.cards@[was.cards@.len() + i].collapsed,
        new.selected == was.selected,
        new.offset == was.offset,
        new.follow == was.follow,
{
    if 0 <= i < was.cards@.len() {
        assert(new.cards@.take(was.cards@.len() as int)[i] == new.cards@[i]);
    }
}

} // verus!
