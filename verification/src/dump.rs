//! Printing cards: the sessions' cards as plain text, one after the other.

use vstd::prelude::*;
use vstd::string::*;

use crate::app;
use crate::render;
use crate::render::{EditCard, LayoutOpts};
use crate::session;
use crate::session::CardInput;
use crate::style;
use crate::style::Style;
use crate::syntax::Painter;
use crate::text;

verus! {

/// Which cards are printed.
#[derive(Debug, PartialEq, Eq)]
pub struct Filter {
    /// Only cards of the sessions that this picks.
    pub session: Option<String>,
    /// Cards of scratch files too.
    pub all_files: bool,
}

/// Whether a card is printed.
pub open spec fn is_printed(input: CardInput, filter: Filter) -> bool {
    &&& filter.all_files || !input.temp
    &&& match filter.session {
        Some(needle) => match input.session_id {
            Some(id) => session::picks(id@, needle@),
            None => false,
        },
        None => true,
    }
}

/// The cards of `inputs` that are printed, in their order.
pub open spec fn printed(inputs: Seq<CardInput>, filter: Filter) -> Seq<CardInput>
    decreases inputs.len(),
{
    if inputs.len() == 0 {
        Seq::empty()
    } else {
        let rest = printed(inputs.drop_last(), filter);
        if is_printed(inputs.last(), filter) {
            rest.push(inputs.last())
        } else {
            rest
        }
    }
}

impl Filter {
    /// Whether a card is printed.
    pub fn accepts(&self, input: &CardInput) -> (r: bool)
        ensures
            r == is_printed(*input, *self),
    {
        if input.temp && !self.all_files {
            return false;
        }
        match &self.session {
            Some(needle) => match &input.session_id {
                Some(id) => session::session_matches(id.as_str(), needle.as_str()),
                None => false,
            },
            None => true,
        }
    }
}

/// A card as plain text: its header, its body and a blank line.
pub open spec fn card_text(card: EditCard, tags: bool) -> Seq<Seq<char>> {
    seq!["== "@ + render::header_plain(card.input, Some(card.time@), tags)]
        + style::line_views(card.lines@).map_values(
        |l: Seq<(Seq<char>, Style)>| style::line_text(l),
    ) + seq![Seq::<char>::empty()]
}

/// Some cards as plain text.
pub open spec fn cards_text(cards: Seq<EditCard>, tags: bool) -> Seq<Seq<char>>
    decreases cards.len(),
{
    if cards.len() == 0 {
        Seq::empty()
    } else {
        cards_text(cards.drop_last(), tags) + card_text(cards.last(), tags)
    }
}

/// Whether `cards` are new cards of `inputs`, laid out for `opts`.
pub open spec fn are_new_cards(
    cards: Seq<EditCard>,
    inputs: Seq<CardInput>,
    painter: Painter,
    opts: LayoutOpts,
) -> bool {
    &&& cards.len() == inputs.len()
    &&& forall|i: int|
        0 <= i < cards.len() ==> app::is_new_card(#[trigger] cards[i], inputs[i], painter, opts)
}

/// Adds a card as plain text to `out`.
pub fn push_card(out: &mut Vec<String>, card: &EditCard, tags: bool)
    ensures
        text::texts(final(out)@) == text::texts(old(out)@) + card_text(*card, tags),
{
    let ghost before = text::texts(out@);
    let mut head = "== ".to_owned();
    head.append(card.header_text(tags).as_str());
    let ghost h = head@;
    out.push(head);
    let mut body = card.body_plain();
    let ghost b = text::texts(body@);
    assert(text::texts(out@) =~= before.push(h));
    out.append(&mut body);
    assert(text::texts(out@) =~= before.push(h) + b);
    out.push(String::new());
    assert(text::texts(out@) =~= before + card_text(*card, tags));
}

/// Whether the cards of some inputs carry a session tag: they do once there is
/// more than one session, before any filter narrows them.
pub open spec fn has_tags(inputs: Seq<CardInput>) -> bool {
    session::sessions_of(session::card_sessions(inputs)).len() > 1
}

/// The cards of `inputs` that `filter` accepts, as plain text.
pub fn dump(
    inputs: Vec<CardInput>,
    filter: &Filter,
    painter: &Painter,
    opts: &LayoutOpts,
) -> (r: Vec<String>)
    ensures
        exists|cards: Seq<EditCard>| #[trigger]
            are_new_cards(cards, printed(inputs@, *filter), *painter, *opts) && text::texts(r@)
                == cards_text(cards, has_tags(inputs@)),
{
    let ghost all = inputs@;
    let order = session::session_order(&inputs);
    let tags = order.len() > 1;
    assert(text::texts(order@).len() == order@.len());
    let ghost mut cards: Seq<EditCard> = Seq::empty();
    let mut out: Vec<String> = Vec::new();
    proof {
        assert(all.take(0) =~= Seq::empty());
        assert(text::texts(out@) =~= Seq::empty());
    }
    for input in it: inputs
        invariant
            it.seq() == all,
            tags == has_tags(all),
            are_new_cards(cards, printed(all.take(it.index() as int), *filter), *painter, *opts),
            text::texts(out@) == cards_text(cards, tags),
    {
        let ghost i = it.index() as int;
        assert(input == all[i]);
        assert(all.take(i + 1).drop_last() =~= all.take(i));
        if filter.accepts(&input) {
            let card = EditCard::new(input, painter, opts);
            push_card(&mut out, &card, tags);
            proof {
                let more = cards.push(card);
                assert(more.drop_last() =~= cards);
                cards = more;
            }
        }
    }
    proof {
        assert(all.take(all.len() as int) =~= all);
        assert(are_new_cards(cards, printed(all, *filter), *painter, *opts));
    }
    out
}

/// Without a filter every card is printed.
pub proof fn law_nothing_is_lost_without_a_filter(inputs: Seq<CardInput>, filter: Filter)
    requires
        filter.session is None,
        filter.all_files,
    ensures
        printed(inputs, filter) == inputs,
    decreases inputs.len(),
{
    if inputs.len() > 0 {
        law_nothing_is_lost_without_a_filter(inputs.drop_last(), filter);
        assert(inputs.drop_last().push(inputs.last()) =~= inputs);
    } else {
        assert(printed(inputs, filter) =~= inputs);
    }
}

/// Printed cards carry a tag exactly when the feed's would.
pub proof fn law_tags_are_those_of_the_feed(inputs: Seq<CardInput>)
    ensures
        app::with_sessions(Seq::empty(), inputs) == session::sessions_of(
            session::card_sessions(inputs),
        ),
    decreases inputs.len(),
{
    if inputs.len() > 0 {
        law_tags_are_those_of_the_feed(inputs.drop_last());
        assert(session::card_sessions(inputs).drop_last() =~= session::card_sessions(
            inputs.drop_last(),
        ));
    }
}

/// A card is printed when its session is picked, or none is, and when it is
/// not of a scratch file, or all files are asked for.
pub proof fn law_cards_are_printed_by_session_and_place(input: CardInput, filter: Filter)
    ensures
        input.temp && !filter.all_files ==> !is_printed(input, filter),
        filter.session is Some && input.session_id is None ==> !is_printed(input, filter),
        (!input.temp || filter.all_files) && filter.session is None ==> is_printed(input, filter),
        filter.session matches Some(s) ==> (input.session_id matches Some(id) ==> (is_printed(
            input,
            filter,
        ) <==> session::picks(id@, s@) && (!input.temp || filter.all_files))),
{
}

/// The cards that pass the filter are printed, all of them and in order.
pub proof fn law_cards_are_printed_in_order(inputs: Seq<CardInput>, filter: Filter, i: int)
    requires
        0 <= i < inputs.len(),
    ensures
        ({
            let at = printed(inputs.take(i), filter).len() as int;
            let next = printed(inputs.take(i + 1), filter).len() as int;
            &&& next <= printed(inputs, filter).len()
            &&& is_printed(inputs[i], filter) ==> next == at + 1 && printed(inputs, filter)[at]
                == inputs[i]
            &&& !is_printed(inputs[i], filter) ==> next == at
        }),
    decreases inputs.len(),
{
    let front = inputs.drop_last();
    assert(inputs.take(i + 1).drop_last() =~= inputs.take(i));
    if i < front.len() {
        law_cards_are_printed_in_order(front, filter, i);
        assert(front.take(i) =~= inputs.take(i));
        assert(front.take(i + 1) =~= inputs.take(i + 1));
        assert(front[i] == inputs[i]);
    } else {
        assert(inputs.take(i) =~= front);
        assert(inputs.take(i + 1) =~= inputs);
    }
}

/// How many lines are printed before card `n`: for each card before it a
/// header, its lines and a blank line.
pub open spec fn printed_above(cards: Seq<EditCard>, n: int) -> nat
    decreases n,
{
    if n <= 0 {
        0
    } else {
        printed_above(cards, n - 1) + 1 + cards[n - 1].lines@.len() + 1
    }
}

proof fn lemma_printed_above_front(cards: Seq<EditCard>, n: int)
    requires
        cards.len() > 0,
        n < cards.len(),
    ensures
        printed_above(cards.drop_last(), n) == printed_above(cards, n),
    decreases n,
{
    if n > 0 {
        lemma_printed_above_front(cards, n - 1);
        assert(cards.drop_last()[n - 1] == cards[n - 1]);
    }
}

/// Every card is printed: its header behind `== `, the text of each of its
/// lines, and a blank line.
pub proof fn law_every_card_is_printed(cards: Seq<EditCard>, tags: bool, c: int, i: int)
    requires
        0 <= c < cards.len(),
    ensures
        cards_text(cards, tags).len() == printed_above(cards, cards.len() as int),
        ({
            let lines = cards_text(cards, tags);
            let at = printed_above(cards, c) as int;
            let n = cards[c].lines@.len() as int;
            &&& at + n + 1 < lines.len()
            &&& lines[at] == "== "@ + render::header_plain(
                cards[c].input,
                Some(cards[c].time@),
                tags,
            )
            &&& 0 <= i < n ==> lines[at + 1 + i] == style::line_text(cards[c].lines@[i]@)
            &&& lines[at + 1 + n].len() == 0
        }),
    decreases cards.len(),
{
    let front = cards.drop_last();
    let n = front.len() as int;
    lemma_printed_above_front(cards, n);
    let above = cards_text(front, tags);
    if n == 0 {
        assert(above.len() == 0);
    } else {
        law_every_card_is_printed(front, tags, if c < n {
            c
        } else {
            0
        }, i);
    }
    if c < n {
        lemma_printed_above_front(cards, c);
        assert(front[c] == cards[c]);
        let at = printed_above(cards, c) as int;
        let m = cards[c].lines@.len() as int;
        let lines = cards_text(cards, tags);
        assert(lines[at] == above[at]);
        if 0 <= i < m {
            assert(lines[at + 1 + i] == above[at + 1 + i]);
        }
        assert(lines[at + 1 + m] == above[at + 1 + m]);
    }
}

/// Headers have tags when the cards are of two sessions or more.
pub proof fn law_tags_tell_sessions_apart(inputs: Seq<CardInput>)
    ensures
        has_tags(inputs) <==> exists|i: int, j: int|
            0 <= i < inputs.len() && 0 <= j < inputs.len() && (#[trigger] inputs[i]).session_id is Some
                && (#[trigger] inputs[j]).session_id is Some && inputs[i].session_id->0@
                != inputs[j].session_id->0@,
{
    let ids = session::card_sessions(inputs);
    let all = session::sessions_of(ids);
    session::law_sessions_are_listed_once_in_order(ids);
    assert forall|i: int| 0 <= i < inputs.len() implies ids[i] == text::opt_text(
        (#[trigger] inputs[i]).session_id,
    ) by {}
    if all.len() > 1 {
        let a = all[0];
        let b = all[1];
        assert(a != b);
        assert(ids.contains(Some(a)) && ids.contains(Some(b)));
        let i = choose|i: int| 0 <= i < ids.len() && ids[i] == Some(a);
        let j = choose|j: int| 0 <= j < ids.len() && ids[j] == Some(b);
        assert(ids[i] == text::opt_text(inputs[i].session_id));
        assert(ids[j] == text::opt_text(inputs[j].session_id));
        assert(inputs[i].session_id is Some && inputs[j].session_id is Some);
    }
    assert forall|i: int, j: int|
        0 <= i < inputs.len() && 0 <= j < inputs.len() && (#[trigger] inputs[i]).session_id is Some
            && (#[trigger] inputs[j]).session_id is Some && inputs[i].session_id->0@
            != inputs[j].session_id->0@ implies all.len() > 1 by {
        assert(ids[i] is Some && ids[j] is Some);
        assert(all.contains(ids[i]->0) && all.contains(ids[j]->0));
        let k = choose|k: int| 0 <= k < all.len() && all[k] == ids[i]->0;
        let l = choose|l: int| 0 <= l < all.len() && all[l] == ids[j]->0;
        assert(k != l);
    }
}

} // verus!
