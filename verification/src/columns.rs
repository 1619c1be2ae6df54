//! How many terminal columns text takes up.

use unicode_width::{UnicodeWidthChar, UnicodeWidthStr};
use vstd::prelude::*;

verus! {

/// Whether `c` takes one column wherever it stands: printable ASCII and the
/// marks the cards are drawn with.
pub open spec fn simple(c: char) -> bool {
    0x20 <= c as u32 <= 0x7e || c == '·' || c == '─' || c == '│' || c == '…'
}

/// Whether all of `s` is [`simple`].
pub open spec fn all_simple(s: Seq<char>) -> bool {
    forall|i: int| 0 <= i < s.len() ==> simple(#[trigger] s[i])
}

/// What `UnicodeWidthStr::width` returns.
pub uninterp spec fn str_width(s: Seq<char>) -> nat;

/// What `UnicodeWidthChar::width` returns.
pub uninterp spec fn char_width(c: char) -> Option<nat>;

/// The columns `s` takes up.
pub open spec fn cols(s: Seq<char>) -> nat {
    if all_simple(s) {
        s.len()
    } else {
        str_width(s)
    }
}

/// The columns `c` takes up by itself; none for a control character.
pub open spec fn char_cols(c: char) -> nat {
    if simple(c) {
        1
    } else {
        match char_width(c) {
            Some(n) => n,
            None => 0,
        }
    }
}

/// `UnicodeWidthStr::width`: the columns of a string. A string of simple
/// characters has as many columns as characters.
#[verifier::external_body]
pub(crate) fn width(s: &str) -> (n: usize)
    ensures
        n == if all_simple(s@) {
            s@.len()
        } else {
            str_width(s@)
        },
{
    s.width()
}

/// `UnicodeWidthChar::width`: the columns of a character, `None` for a control
/// character. A simple character has one.
#[verifier::external_body]
fn char_columns(c: char) -> (r: Option<usize>)
    ensures
        r is Some <==> char_width(c) is Some,
        r matches Some(n) ==> n == char_width(c)->0,
        simple(c) ==> r == Some(1usize),
{
    c.width()
}

/// The columns `c` takes up by itself; none for a control character.
pub fn char_columns_or_none(c: char) -> (n: usize)
    ensures
        n == char_cols(c),
{
    match char_columns(c) {
        Some(n) => n,
        None => 0,
    }
}

/// `limit` less `n`, or zero.
pub open spec fn room(limit: nat, n: nat) -> nat {
    if n < limit {
        (limit - n) as nat
    } else {
        0
    }
}

/// Printable ASCII text takes up a column for each character.
pub proof fn law_plain_text_has_a_column_for_each_character(s: Seq<char>)
    requires
        forall|i: int| 0 <= i < s.len() ==> 32 <= (#[trigger] s[i]) as u32 <= 126,
    ensures
        cols(s) == s.len(),
        forall|i: int| 0 <= i < s.len() ==> char_cols(#[trigger] s[i]) == 1,
{
    assert forall|i: int| 0 <= i < s.len() implies simple(#[trigger] s[i]) by {}
}

/// What is left of a limit is the rest of it, and nothing once it is reached.
pub proof fn law_room_is_what_is_left(limit: nat, n: nat)
    ensures
        n <= limit ==> n + room(limit, n) == limit,
        n >= limit ==> room(limit, n) == 0,
{
}

} // verus!
