//! What is on the screen: a pinned card header, the visible feed lines, a
//! one-line status bar, and the help overlay.

use vstd::prelude::*;
use vstd::string::*;

use crate::app;
use crate::app::App;
use crate::style;
use crate::style::{Line, Span, Style};
use crate::text;

verus! {

/// The parts of one screen, from top to bottom.
#[derive(Debug, PartialEq, Eq)]
pub struct Screen {
    /// The current card's header, so a long diff never loses its file name.
    pub pin: Option<Line>,
    /// The feed below it, or what stands in place of an empty feed.
    pub feed: Vec<Line>,
    pub status: String,
    /// The key table, when it is open.
    pub help: Option<Vec<Line>>,
}

/// A dim line.
pub open spec fn dim_line(s: Seq<char>) -> Seq<(Seq<char>, Style)> {
    seq![(s, Style { dim: true, ..style::plain() })]
}

/// A blank line.
pub open spec fn blank_line() -> Seq<(Seq<char>, Style)> {
    Seq::empty()
}

/// What stands in place of an empty feed: where edits are expected, or that
/// the selected session has none that are shown.
pub open spec fn waiting(a: App, spool_exists: bool) -> Seq<Seq<(Seq<char>, Style)>> {
    let why = if a.cards@.len() == 0 {
        seq![
            dim_line("  Waiting for "@ + a.agent@ + " edits in "@ + a.cwd@),
            dim_line("  Spool: "@ + a.spool_path@),
        ] + if spool_exists {
            Seq::empty()
        } else {
            seq![
                dim_line(
                    "  No spool file yet. Run `diffier install` and restart "@ + a.agent@ + "."@,
                ),
            ]
        }
    } else {
        seq![dim_line("  No cards for session "@ + app::label_of(a.cards@, a.session()))]
    };
    seq![blank_line()] + why + seq![blank_line(), dim_line("  Press ? for keys"@)]
}

/// The feed below a pinned header. When the header itself is the top line it
/// is already pinned, so the feed starts one line lower rather than showing it
/// twice.
pub open spec fn feed_below(a: App, height: u16) -> Seq<Seq<(Seq<char>, Style)>> {
    let lines = style::line_views(a.lines@);
    if app::starts_at(a.spans@, a.offset) {
        app::window(lines, (a.offset + 1) as nat, height as nat)
    } else {
        app::window(lines, a.offset as nat, a.viewport as nat)
    }
}

fn push_dim(lines: &mut Vec<Line>, s: String)
    ensures
        style::line_views(final(lines)@) == style::line_views(old(lines)@).push(dim_line(s@)),
{
    let ghost before = style::line_views(lines@);
    let line = Line::of(Span::styled(s, Style::new().dim()));
    let ghost v = line@;
    lines.push(line);
    assert(style::line_views(lines@) =~= before.push(v));
}

fn push_blank(lines: &mut Vec<Line>)
    ensures
        style::line_views(final(lines)@) == style::line_views(old(lines)@).push(blank_line()),
{
    let ghost before = style::line_views(lines@);
    let line = Line { spans: Vec::new() };
    assert(line@ =~= blank_line());
    lines.push(line);
    assert(style::line_views(lines@) =~= before.push(blank_line()));
}

/// What stands in place of an empty feed.
pub fn waiting_lines(a: &App, spool_exists: bool) -> (lines: Vec<Line>)
    requires
        a.wf(),
    ensures
        style::line_views(lines@) == waiting(*a, spool_exists),
{
    let mut lines: Vec<Line> = Vec::new();
    push_blank(&mut lines);
    if a.cards.len() == 0 {
        let mut s = "  Waiting for ".to_owned();
        s.append(a.agent.as_str());
        s.append(" edits in ");
        s.append(a.cwd());
        push_dim(&mut lines, s);
        let mut s = "  Spool: ".to_owned();
        s.append(a.spool_path());
        push_dim(&mut lines, s);
        if !spool_exists {
            let mut s = "  No spool file yet. Run `diffier install` and restart ".to_owned();
            s.append(a.agent.as_str());
            s.append(".");
            push_dim(&mut lines, s);
        }
    } else {
        let mut s = "  No cards for session ".to_owned();
        s.append(a.session_label().as_str());
        push_dim(&mut lines, s);
    }
    push_blank(&mut lines);
    push_dim(&mut lines, "  Press ? for keys".to_owned());
    assert(style::line_views(lines@) =~= waiting(*a, spool_exists));
    lines
}

/// Whether `s` shows `a`, whose viewport has been set.
pub open spec fn is_screen(
    s: Screen,
    a: App,
    feed_height: u16,
    width: u16,
    spool_exists: bool,
    home: Option<Seq<char>>,
) -> bool {
    &&& if a.spans@.len() > 0 {
        &&& (s.pin is Some <==> app::owner(a.spans@, a.offset) >= 0)
        &&& (s.pin matches Some(l) ==> l@ == a.lines@[a.spans@[app::owner(
            a.spans@,
            a.offset,
        )].start as int]@)
        &&& style::line_views(s.feed@) == feed_below(a, feed_height)
    } else {
        s.pin is None && style::line_views(s.feed@) == waiting(a, spool_exists)
    }
    &&& s.status@ == app::status_text(a, width, home)
    &&& s.help is Some <==> a.help
    &&& s.help matches Some(h) ==> style::line_views(h@) == app::KEYS@.map_values(
        |e: (&'static str, &'static str)| app::help_line(e, app::widest_key(app::KEYS@)),
    )
}

/// Compose the screen. With cards on it, one row is for the pinned header and
/// `feed_height` for the feed; without, `body_height` is for the text in its
/// place.
pub fn draw(
    a: &mut App,
    feed_height: u16,
    body_height: u16,
    width: u16,
    spool_exists: bool,
    home: &Option<String>,
) -> (s: Screen)
    requires
        old(a).wf(),
    ensures
        final(a).wf(),
        final(a).viewport == (if old(a).spans@.len() > 0 {
            if feed_height == 0 {
                1
            } else {
                feed_height as int
            }
        } else if body_height == 0 {
            1
        } else {
            body_height as int
        }),
        final(a).offset == app::clamped(
            old(a).lines@.len(),
            final(a).viewport as nat,
            old(a).follow,
            old(a).offset as nat,
        ),
        *final(a) == (App { viewport: final(a).viewport, offset: final(a).offset, ..*old(a) }),
        is_screen(s, *final(a), feed_height, width, spool_exists, text::opt_text(*home)),
{
    let (pin, feed) = if a.has_visible_cards() {
        a.set_viewport(feed_height);
        let pin = a.sticky_header();
        let feed = if a.at_card_start() {
            proof {
                app::lemma_owner(a.spans@, a.offset);
            }
            let total: usize = a.total_lines();
            assert(a.offset < total);
            a.lines_from(a.offset + 1, feed_height as usize)
        } else {
            a.visible_lines()
        };
        (pin, feed)
    } else {
        a.set_viewport(body_height);
        (None, waiting_lines(a, spool_exists))
    };
    let status = a.status(width, home);
    let help = if a.help {
        Some(app::help_lines())
    } else {
        None
    };
    Screen { pin, feed, status, help }
}

/// The size of a box around lines, with a border: columns, then rows.
pub open spec fn box_size(lines: Seq<Seq<(Seq<char>, Style)>>) -> (nat, nat) {
    (widest(lines) + 2, lines.len() + 2)
}

/// The columns of the widest line.
pub open spec fn widest(lines: Seq<Seq<(Seq<char>, Style)>>) -> nat
    decreases lines.len(),
{
    if lines.len() == 0 {
        0
    } else {
        let n = widest(lines.drop_last());
        if style::line_cols(lines.last()) > n {
            style::line_cols(lines.last())
        } else {
            n
        }
    }
}

/// `n`, or the largest number of columns there is.
pub open spec fn capped_u16(n: nat) -> nat {
    if n <= u16::MAX {
        n
    } else {
        u16::MAX as nat
    }
}

/// The size of a box around lines, with a border, as far as a screen goes:
/// columns, then rows.
pub fn framed_size(lines: &Vec<Line>) -> (r: (u16, u16))
    ensures
        r.0 == capped_u16(box_size(style::line_views(lines@)).0),
        r.1 == capped_u16(box_size(style::line_views(lines@)).1),
{
    let ghost all = style::line_views(lines@);
    let mut max: u16 = 0;
    let mut i: usize = 0;
    assert(all.take(0) =~= Seq::empty());
    while i < lines.len()
        invariant
            i <= lines@.len(),
            all == style::line_views(lines@),
            max == capped_u16(widest(all.take(i as int))),
        decreases lines@.len() - i,
    {
        assert(all.take(i + 1).drop_last() =~= all.take(i as int));
        let w: usize = lines[i].width();
        let w: u16 = if w > 65535 {
            65535
        } else {
            w as u16
        };
        if w > max {
            max = w;
        }
        i += 1;
    }
    assert(all.take(i as int) =~= all);
    let n: usize = lines.len();
    let rows: u16 = if n > 65535 {
        65535
    } else {
        n as u16
    };
    (max.saturating_add(2), rows.saturating_add(2))
}

/// An empty feed says what it waits for, and what to do where nothing was
/// spooled yet.
pub proof fn law_an_empty_feed_says_what_it_waits_for(a: App, spool_exists: bool)
    requires
        a.cards@.len() == 0,
    ensures
        ({
            let lines = waiting(a, spool_exists);
            let n = lines.len() as int;
            &&& n == if spool_exists {
                5int
            } else {
                6
            }
            &&& lines[0].len() == 0
            &&& style::line_text(lines[1]) == "  Waiting for "@ + a.agent@ + " edits in "@ + a.cwd@
            &&& style::line_text(lines[2]) == "  Spool: "@ + a.spool_path@
            &&& !spool_exists ==> style::line_text(lines[3])
                == "  No spool file yet. Run `diffier install` and restart "@ + a.agent@ + "."@
            &&& lines[n - 2].len() == 0
            &&& style::line_text(lines[n - 1]) == "  Press ? for keys"@
        }),
{
    let look = Style { dim: true, ..style::plain() };
    style::lemma_one_span_text("  Waiting for "@ + a.agent@ + " edits in "@ + a.cwd@, look);
    style::lemma_one_span_text("  Spool: "@ + a.spool_path@, look);
    style::lemma_one_span_text(
        "  No spool file yet. Run `diffier install` and restart "@ + a.agent@ + "."@,
        look,
    );
    style::lemma_one_span_text("  Press ? for keys"@, look);
}

/// A feed whose session has no cards says so.
pub proof fn law_a_session_without_cards_says_so(a: App, spool_exists: bool)
    requires
        a.cards@.len() > 0,
    ensures
        waiting(a, spool_exists).len() == 4,
        waiting(a, spool_exists)[0].len() == 0,
        style::line_text(waiting(a, spool_exists)[1]) == "  No cards for session "@
            + app::label_of(a.cards@, a.session()),
        waiting(a, spool_exists)[2].len() == 0,
        style::line_text(waiting(a, spool_exists)[3]) == "  Press ? for keys"@,
{
    let look = Style { dim: true, ..style::plain() };
    style::lemma_one_span_text(
        "  No cards for session "@ + app::label_of(a.cards@, a.session()),
        look,
    );
    style::lemma_one_span_text("  Press ? for keys"@, look);
}

/// The header of the card on top is pinned, and the feed goes on below it:
/// behind the header where that is on top itself, so that it is not there
/// twice.
pub proof fn law_a_pinned_header_is_not_shown_twice(
    s: Screen,
    a: App,
    height: u16,
    width: u16,
    spool_exists: bool,
    home: Option<Seq<char>>,
    i: int,
    k: int,
)
    requires
        a.wf(),
        is_screen(s, a, height, width, spool_exists, home),
        0 <= i < a.spans@.len(),
        a.spans@[i].start <= a.offset,
        i + 1 < a.spans@.len() ==> a.spans@[i + 1].start > a.offset,
        0 <= k < s.feed@.len(),
    ensures
        s.pin matches Some(l) && l@ == a.lines@[a.spans@[i].start as int]@,
        a.offset == a.spans@[i].start ==> s.feed@[k]@ == a.lines@[a.offset + 1 + k]@,
        a.offset > a.spans@[i].start ==> s.feed@[k]@ == a.lines@[a.offset + k]@,
{
    app::lemma_owner_is(a, i);
    let from = if a.offset == a.spans@[i].start {
        a.offset + 1
    } else {
        a.offset as int
    };
    let tall = if a.offset == a.spans@[i].start {
        height as nat
    } else {
        a.viewport as nat
    };
    app::law_the_screen_shows_lines_in_order(
        style::line_views(a.lines@),
        from as nat,
        tall,
        k,
    );
    assert(style::line_views(s.feed@)[k] == s.feed@[k]@);
    assert(style::line_views(s.feed@).len() == s.feed@.len());
}

/// A box is as wide as its widest line and as tall as it has lines, with a
/// border around.
pub proof fn law_a_box_fits_its_lines(lines: Seq<Seq<(Seq<char>, Style)>>, k: int)
    requires
        0 <= k < lines.len(),
    ensures
        style::line_cols(lines[k]) + 2 <= box_size(lines).0,
        exists|j: int|
            0 <= j < lines.len() && style::line_cols(#[trigger] lines[j]) + 2 == box_size(lines).0,
        box_size(lines).1 == lines.len() + 2,
    decreases lines.len(),
{
    lemma_widest_is_there(lines);
    if k < lines.len() - 1 {
        law_a_box_fits_its_lines(lines.drop_last(), k);
    }
}

proof fn lemma_widest_is_there(lines: Seq<Seq<(Seq<char>, Style)>>)
    requires
        lines.len() > 0,
    ensures
        exists|j: int|
            0 <= j < lines.len() && style::line_cols(#[trigger] lines[j]) == widest(lines),
    decreases lines.len(),
{
    let front = lines.drop_last();
    if front.len() == 0 {
        assert(style::line_cols(lines[0]) == widest(lines));
    } else {
        lemma_widest_is_there(front);
        if style::line_cols(lines.last()) > widest(front) {
            assert(style::line_cols(lines[lines.len() - 1]) == widest(lines));
        } else {
            let j = choose|j: int|
                0 <= j < front.len() && style::line_cols(#[trigger] front[j]) == widest(front);
            assert(lines[j] == front[j]);
        }
    }
}

} // verus!
