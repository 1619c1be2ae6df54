//! Line diffs, as the `similar` crate computes them.

use similar::{ChangeTag, DiffOp, DiffTag, TextDiff};
use vstd::prelude::*;

use crate::text;

verus! {

/// What happens to a run of lines.
#[derive(Debug, Clone, Copy, PartialEq, Eq, Structural)]
pub enum OpTag {
    Equal,
    Delete,
    Insert,
    Replace,
}

/// One step of an edit script: the old lines `old_start..old_start + old_len`
/// become the new lines `new_start..new_start + new_len`.
#[derive(Debug, Clone, Copy, PartialEq, Eq, Structural)]
pub struct Op {
    pub tag: OpTag,
    pub old_start: usize,
    pub old_len: usize,
    pub new_start: usize,
    pub new_len: usize,
}

/// Which side of a diff a line is on.
#[derive(Debug, Clone, Copy, PartialEq, Eq, Structural)]
pub enum RowKind {
    Equal,
    Delete,
    Insert,
}

/// One line of a diff in pieces, the changed words marked.
#[derive(Debug, PartialEq, Eq)]
pub struct InlineChange {
    pub kind: RowKind,
    pub old_index: Option<usize>,
    pub new_index: Option<usize>,
    /// `(emphasized, text)`.
    pub pieces: Vec<(bool, String)>,
}

/// A `similar::DiffOp`, seen only through [`step`].
#[verifier::external_type_specification]
#[verifier::external_body]
pub struct ExDiffOp(similar::DiffOp);

/// A `similar::TextDiff` of the lines of two texts.
#[verifier::external_body]
pub struct LineDiff<'a> {
    diff: TextDiff<'a, 'a, 'a, str>,
}

/// The old text a diff was made of.
pub uninterp spec fn diff_old(d: LineDiff<'_>) -> Seq<char>;

/// The new text a diff was made of.
pub uninterp spec fn diff_new(d: LineDiff<'_>) -> Seq<char>;

/// The edit script `similar` finds between the lines of two texts.
pub uninterp spec fn line_ops(old_text: Seq<char>, new_text: Seq<char>) -> Seq<Op>;

/// A step of a `similar` edit script as plain values.
pub uninterp spec fn step(op: DiffOp) -> Op;

/// The steps of a list.
pub open spec fn steps(ops: Seq<DiffOp>) -> Seq<Op> {
    ops.map_values(|op: DiffOp| step(op))
}

/// The steps of a list of lists.
pub open spec fn grouped_steps(groups: Seq<Vec<DiffOp>>) -> Seq<Seq<Op>> {
    groups.map_values(|g: Vec<DiffOp>| steps(g@))
}

/// The clusters `similar` makes of an edit script with `context` lines around
/// each change.
pub uninterp spec fn clusters(ops: Seq<Op>, context: nat) -> Seq<Seq<Op>>;

/// Whether `c` ends a line.
pub open spec fn newline(c: char) -> bool {
    c == '\n' || c == '\r'
}

/// The length of the first line of `s` with its terminator: a line feed, a
/// carriage return, or a carriage return and a line feed.
pub open spec fn line_len(s: Seq<char>) -> nat
    decreases s.len(),
{
    if s.len() == 0 {
        0
    } else if s[0] == '\n' {
        1
    } else if s[0] == '\r' {
        if s.len() > 1 && s[1] == '\n' {
            2
        } else {
            1
        }
    } else {
        1 + line_len(s.drop_first())
    }
}

pub proof fn lemma_line_len(s: Seq<char>)
    ensures
        line_len(s) <= s.len(),
        s.len() > 0 ==> line_len(s) > 0,
    decreases s.len(),
{
    if s.len() > 0 && !newline(s[0]) {
        lemma_line_len(s.drop_first());
    }
}

/// The lines of `s`, each with its terminator.
pub open spec fn lines(s: Seq<char>) -> Seq<Seq<char>>
    decreases s.len(),
{
    if s.len() == 0 {
        Seq::empty()
    } else {
        proof {
            lemma_line_len(s);
        }
        seq![s.take(line_len(s) as int)] + lines(s.skip(line_len(s) as int))
    }
}

/// How much of `line` stands before its terminator.
pub open spec fn core_len(line: Seq<char>) -> nat
    decreases line.len(),
{
    if line.len() == 0 || newline(line[0]) {
        0
    } else {
        1 + core_len(line.drop_first())
    }
}

/// Whether `line` is one line: its terminator, if any, at its end and nowhere
/// else.
pub open spec fn is_line(line: Seq<char>) -> bool {
    let c = core_len(line) as int;
    ||| c == line.len()
    ||| c + 1 == line.len()
    ||| c + 2 == line.len() && line[c] == '\r' && line[c + 1] == '\n'
}

pub proof fn lemma_core(line: Seq<char>)
    ensures
        core_len(line) <= line.len(),
        forall|i: int| 0 <= i < core_len(line) ==> !newline(#[trigger] line[i]),
        core_len(line) < line.len() ==> newline(line[core_len(line) as int]),
    decreases line.len(),
{
    if line.len() > 0 && !newline(line[0]) {
        let rest = line.drop_first();
        lemma_core(rest);
        assert forall|i: int| 0 <= i < core_len(line) implies !newline(#[trigger] line[i]) by {
            if i > 0 {
                assert(line[i] == rest[i - 1]);
            }
        }
        if core_len(line) < line.len() {
            assert(line[core_len(line) as int] == rest[core_len(rest) as int]);
        }
    }
}

proof fn lemma_first_line(s: Seq<char>)
    ensures
        is_line(s.take(line_len(s) as int)),
    decreases s.len(),
{
    lemma_line_len(s);
    let line = s.take(line_len(s) as int);
    if s.len() == 0 {
    } else if newline(s[0]) {
        assert(core_len(line) == 0);
    } else {
        let rest = s.drop_first();
        lemma_first_line(rest);
        lemma_line_len(rest);
        assert(line.drop_first() =~= rest.take(line_len(rest) as int));
        let inner = line.drop_first();
        let c = core_len(inner) as int;
        if c + 2 == inner.len() {
            assert(line[c + 1] == inner[c]);
            assert(line[c + 2] == inner[c + 1]);
        }
    }
}

/// Every line of a text is one line, and a text has no more lines than
/// characters.
pub proof fn lemma_lines(s: Seq<char>)
    ensures
        forall|i: int| 0 <= i < lines(s).len() ==> is_line(#[trigger] lines(s)[i]),
        lines(s).len() <= s.len(),
    decreases s.len(),
{
    if s.len() > 0 {
        lemma_line_len(s);
        lemma_first_line(s);
        let rest = s.skip(line_len(s) as int);
        lemma_lines(rest);
        assert forall|i: int| 0 <= i < lines(s).len() implies is_line(#[trigger] lines(s)[i]) by {
            if i > 0 {
                assert(lines(s)[i] == lines(rest)[i - 1]);
            }
        }
    }
}

/// Whether `ops` leads from `a` to `b`: the steps take up the lines of either
/// side in order, all of them, and lines that stay are alike.
pub open spec fn script(ops: Seq<Op>, a: Seq<Seq<char>>, b: Seq<Seq<char>>) -> bool
    decreases ops.len(),
{
    if ops.len() == 0 {
        a.len() == 0 && b.len() == 0
    } else {
        let op = ops.last();
        &&& op.old_len <= a.len()
        &&& op.new_len <= b.len()
        &&& op.old_len > 0 ==> op.old_start == a.len() - op.old_len
        &&& op.new_len > 0 ==> op.new_start == b.len() - op.new_len
        &&& op.tag is Equal ==> a.skip(a.len() - op.old_len) == b.skip(b.len() - op.new_len)
        &&& op.tag is Delete ==> op.new_len == 0
        &&& op.tag is Insert ==> op.old_len == 0
        &&& script(ops.drop_last(), a.take(a.len() - op.old_len), b.take(b.len() - op.new_len))
    }
}

/// Whether `op` speaks of lines that are there.
pub open spec fn fits(op: Op, old_count: nat, new_count: nat) -> bool {
    &&& op.old_len > 0 ==> op.old_start + op.old_len <= old_count
    &&& op.new_len > 0 ==> op.new_start + op.new_len <= new_count
    &&& op.tag is Equal ==> op.old_len == op.new_len
    &&& op.tag is Delete ==> op.new_len == 0
    &&& op.tag is Insert ==> op.old_len == 0
    &&& op.tag is Replace ==> op.old_len > 0 && op.new_len > 0
}

/// The steps that change something.
pub open spec fn changing(ops: Seq<Op>) -> Seq<Op> {
    ops.filter(|op: Op| op.tag !is Equal)
}

/// The steps of all clusters, in order.
pub open spec fn all_steps(groups: Seq<Seq<Op>>) -> Seq<Op>
    decreases groups.len(),
{
    if groups.len() == 0 {
        Seq::empty()
    } else {
        all_steps(groups.drop_last()) + groups.last()
    }
}

/// Whether `s` is a step of a script, or some of the lines that a step leaves
/// alone.
pub open spec fn part_of(s: Op, op: Op) -> bool {
    if op.tag is Equal {
        &&& s.tag is Equal
        &&& s.old_len == s.new_len
        &&& op.old_start <= s.old_start
        &&& s.old_start + s.old_len <= op.old_start + op.old_len
        &&& s.new_start - op.new_start == s.old_start - op.old_start
    } else {
        s == op
    }
}

/// Whether a cluster is the steps of `ops` from `i` on, with lines left out at
/// most at its two ends.
pub open spec fn slice_at(group: Seq<Op>, ops: Seq<Op>, i: int) -> bool {
    &&& 0 <= i <= i + group.len() <= ops.len()
    &&& forall|k: int| 0 <= k < group.len() ==> part_of(#[trigger] group[k], ops[i + k])
    &&& forall|k: int|
        0 < k < group.len() ==> (#[trigger] group[k]).old_start == ops[i + k].old_start
    &&& forall|k: int|
        0 <= k < group.len() - 1 ==> (#[trigger] group[k]).old_start + group[k].old_len == ops[i
            + k].old_start + ops[i + k].old_len
}

/// Whether of the steps of `ops` from `i` on, a cluster keeps unchanged lines
/// as `context` asks: at either end that many of those there are, and between
/// two changes all of them, which are at most twice as many.
pub open spec fn keeps_context(group: Seq<Op>, ops: Seq<Op>, i: int, context: nat) -> bool {
    forall|k: int|
        0 <= k < group.len() && (#[trigger] group[k]).tag is Equal ==> group[k].old_len <= 2
            * context && (k == 0 || k == group.len() - 1 ==> group[k].old_len == (if ops[i
            + k].old_len <= context {
            ops[i + k].old_len as nat
        } else {
            context
        }))
}

/// Whether a cluster changes something.
pub open spec fn has_change(group: Seq<Op>) -> bool {
    exists|k: int| 0 <= k < group.len() && (#[trigger] group[k]).tag !is Equal
}

/// Whether step `k` and the one before it both leave their lines alone.
pub open spec fn both_stay(group: Seq<Op>, k: int) -> bool {
    group[k - 1].tag is Equal && group[k].tag is Equal
}

/// Whether no two neighbours in a cluster both leave their lines alone.
pub open spec fn alternates(group: Seq<Op>) -> bool {
    forall|k: int| 0 < k < group.len() ==> !#[trigger] both_stay(group, k)
}

/// Whether the cluster at `g` begins within the step that the one before it
/// ends in, further on.
pub open spec fn follows(groups: Seq<Seq<Op>>, at: Seq<int>, g: int) -> bool {
    let before = groups[g - 1].last();
    &&& at[g] == at[g - 1] + groups[g - 1].len() - 1
    &&& before.old_start + before.old_len < groups[g][0].old_start
}

/// Whether `groups` are clusters of `ops`, each the steps from its `at` on:
/// they take up all of `ops`, in order and without overlap.
pub open spec fn clustered_at(
    groups: Seq<Seq<Op>>,
    ops: Seq<Op>,
    at: Seq<int>,
    context: nat,
) -> bool {
    &&& at.len() == groups.len()
    &&& forall|g: int| 0 <= g < groups.len() ==> slice_at(#[trigger] groups[g], ops, at[g])
    &&& forall|g: int|
        0 <= g < groups.len() ==> keeps_context(#[trigger] groups[g], ops, at[g], context)
    &&& forall|g: int| 0 < g < groups.len() ==> #[trigger] follows(groups, at, g)
    &&& groups.len() > 0 ==> at[0] == 0 && at.last() + groups.last().len() == ops.len()
}

/// Whether `groups` are clusters of `ops`: every change is in one, in order;
/// of the lines that stay, only those near a change are.
pub open spec fn clustered(
    groups: Seq<Seq<Op>>,
    ops: Seq<Op>,
    context: nat,
    old_count: nat,
    new_count: nat,
) -> bool {
    &&& changing(all_steps(groups)) == changing(ops)
    &&& exists|at: Seq<int>| #[trigger] clustered_at(groups, ops, at, context)
    &&& forall|g: int|
        0 <= g < groups.len() ==> has_change(#[trigger] groups[g]) && alternates(groups[g])
    &&& forall|g: int, k: int|
        0 <= g < groups.len() && 0 <= k < groups[g].len() ==> fits(
            #[trigger] groups[g][k],
            old_count,
            new_count,
        )
}

/// How many rows `op` shows.
pub open spec fn row_count(op: Op) -> nat {
    if op.tag is Equal {
        op.old_len as nat
    } else {
        (op.old_len + op.new_len) as nat
    }
}

/// On which side row `k` of `op` is.
pub open spec fn row_kind(op: Op, k: int) -> RowKind {
    if op.tag is Equal {
        RowKind::Equal
    } else if k < op.old_len {
        RowKind::Delete
    } else {
        RowKind::Insert
    }
}

/// The old line that row `k` of `op` shows.
pub open spec fn row_old(op: Op, k: int) -> Option<int> {
    if op.tag is Equal || k < op.old_len {
        Some(op.old_start + k)
    } else {
        None
    }
}

/// The new line that row `k` of `op` shows.
pub open spec fn row_new(op: Op, k: int) -> Option<int> {
    if op.tag is Equal {
        Some(op.new_start + k)
    } else if k < op.old_len {
        None
    } else {
        Some(op.new_start + k - op.old_len)
    }
}

/// The line that row `k` of `op` shows.
pub open spec fn row_line(op: Op, k: int, a: Seq<Seq<char>>, b: Seq<Seq<char>>) -> Seq<char> {
    match row_old(op, k) {
        Some(i) => a[i],
        None => b[op.new_start + k - op.old_len],
    }
}

/// The text of a list of marked pieces.
pub open spec fn pieces_text(p: Seq<(bool, String)>) -> Seq<char>
    decreases p.len(),
{
    if p.len() == 0 {
        Seq::empty()
    } else {
        pieces_text(p.drop_last()) + p.last().1@
    }
}

/// The marked characters of a list of pieces.
pub open spec fn marks(p: Seq<(bool, String)>) -> Seq<(bool, char)>
    decreases p.len(),
{
    if p.len() == 0 {
        Seq::empty()
    } else {
        marks(p.drop_last()) + marked(p.last().0, p.last().1@)
    }
}

/// The characters of `s`, each with the mark `emph`.
pub open spec fn marked(emph: bool, s: Seq<char>) -> Seq<(bool, char)> {
    Seq::new(s.len(), |i: int| (emph, s[i]))
}

/// Whether a word begins at character `i`: white space and what stands
/// between are words by turns.
pub open spec fn begins_word(m: Seq<(bool, char)>, i: int) -> bool {
    i == 0 || text::blank(m[i].1) != text::blank(m[i - 1].1)
}

/// How many words a line has.
pub open spec fn word_count(m: Seq<(bool, char)>) -> nat
    decreases m.len(),
{
    if m.len() == 0 {
        0
    } else if begins_word(m, m.len() - 1) {
        word_count(m.drop_last()) + 1
    } else {
        word_count(m.drop_last())
    }
}

/// How many words of a line begin without a mark.
pub open spec fn plain_count(m: Seq<(bool, char)>) -> nat
    decreases m.len(),
{
    if m.len() == 0 {
        0
    } else if begins_word(m, m.len() - 1) && !m.last().0 {
        plain_count(m.drop_last()) + 1
    } else {
        plain_count(m.drop_last())
    }
}

/// The characters of a line that carry no mark, without its terminator.
pub open spec fn plain_text(m: Seq<(bool, char)>) -> Seq<char>
    decreases m.len(),
{
    if m.len() == 0 {
        Seq::empty()
    } else if m.last().0 || newline(m.last().1) {
        plain_text(m.drop_last())
    } else {
        plain_text(m.drop_last()).push(m.last().1)
    }
}

/// How many words some lines have.
pub open spec fn words_of(lines: Seq<Seq<(bool, char)>>) -> nat
    decreases lines.len(),
{
    if lines.len() == 0 {
        0
    } else {
        words_of(lines.drop_last()) + word_count(lines.last())
    }
}

/// How many words of some lines begin without a mark.
pub open spec fn plain_words_of(lines: Seq<Seq<(bool, char)>>) -> nat
    decreases lines.len(),
{
    if lines.len() == 0 {
        0
    } else {
        plain_words_of(lines.drop_last()) + plain_count(lines.last())
    }
}

/// The characters of some lines that carry no mark, without terminators.
pub open spec fn plain_text_of(lines: Seq<Seq<(bool, char)>>) -> Seq<char>
    decreases lines.len(),
{
    if lines.len() == 0 {
        Seq::empty()
    } else {
        plain_text_of(lines.drop_last()) + plain_text(lines.last())
    }
}

/// Whether nothing in some lines is marked.
pub open spec fn unmarked_lines(lines: Seq<Seq<(bool, char)>>) -> bool {
    forall|k: int, i: int|
        0 <= k < lines.len() && 0 <= i < lines[k].len() ==> !(#[trigger] lines[k][i]).0
}

/// Up to this many words their share is found without rounding.
pub const COUNTED_WORDS: u32 = 0x100_0000;

/// Whether the marks in the lines of a step tell changed words from the
/// others, the first `old_len` lines being those of the old text: there are no
/// marks at all, or what is not marked is the same text on both sides and has
/// at least half of the words. `hidden` is how many words may have been taken
/// off the lines.
pub open spec fn tells_words(lines: Seq<Seq<(bool, char)>>, old_len: int, hidden: nat) -> bool {
    ||| unmarked_lines(lines)
    ||| {
        &&& plain_text_of(lines.take(old_len)) == plain_text_of(lines.skip(old_len))
        &&& words_of(lines) + hidden <= COUNTED_WORDS ==> words_of(lines) <= 2 * (plain_words_of(
            lines,
        ) + hidden)
    }
}

/// The marked characters of a list of changes.
pub open spec fn change_marks(changes: Seq<InlineChange>) -> Seq<Seq<(bool, char)>> {
    changes.map_values(|c: InlineChange| marks(c.pieces@))
}

/// An index that is there, as an integer.
pub open spec fn index_of(i: Option<usize>) -> Option<int> {
    match i {
        Some(x) => Some(x as int),
        None => None,
    }
}

/// Whether `c` is row `k` of `op`. Outside a replacement nothing is marked.
pub open spec fn shows(
    c: InlineChange,
    op: Op,
    k: int,
    a: Seq<Seq<char>>,
    b: Seq<Seq<char>>,
) -> bool {
    &&& c.kind == row_kind(op, k)
    &&& index_of(c.old_index) == row_old(op, k)
    &&& index_of(c.new_index) == row_new(op, k)
    &&& pieces_text(c.pieces@) == row_line(op, k, a, b)
    &&& op.tag !is Replace ==> c.pieces@.len() == 1 && !c.pieces@[0].0
}

/// `TextDiff::from_lines`: a diff of the lines of `old_text` and `new_text`.
#[verifier::external_body]
pub(crate) fn line_diff<'a>(old_text: &'a str, new_text: &'a str) -> (d: LineDiff<'a>)
    ensures
        diff_old(d) == old_text@,
        diff_new(d) == new_text@,
{
    LineDiff { diff: TextDiff::from_lines(old_text, new_text) }
}

/// Whether every step of a script has lines, on each side that it has.
pub open spec fn solid(ops: Seq<Op>) -> bool {
    forall|k: int|
        0 <= k < ops.len() ==> ((#[trigger] ops[k]).tag is Insert || ops[k].old_len > 0) && (
        ops[k].tag is Delete || ops[k].new_len > 0)
}

/// `TextDiff::ops`: the edit script, which leads from the old lines to the
/// new ones, no step without lines. It has no deadline, so it depends on the
/// two texts alone.
#[verifier::external_body]
pub(crate) fn diff_ops(d: &LineDiff<'_>) -> (r: Vec<DiffOp>)
    ensures
        steps(r@) == line_ops(diff_old(*d), diff_new(*d)),
        script(steps(r@), lines(diff_old(*d)), lines(diff_new(*d))),
        solid(steps(r@)),
{
    d.diff.ops().to_vec()
}

/// `TextDiff::grouped_ops`: the steps in clusters of changes that stand close
/// together, one after the other. Each is a run of the edit script with a
/// change in it and up to `context` unchanged lines at its ends; more than
/// twice as many end one cluster and begin the next.
#[verifier::external_body]
pub(crate) fn grouped_ops(d: &LineDiff<'_>, context: usize) -> (r: Vec<Vec<DiffOp>>)
    requires
        2 * context <= usize::MAX,
    ensures
        grouped_steps(r@) == clusters(line_ops(diff_old(*d), diff_new(*d)), context as nat),
        clustered(
            grouped_steps(r@),
            line_ops(diff_old(*d), diff_new(*d)),
            context as nat,
            lines(diff_old(*d)).len(),
            lines(diff_new(*d)).len(),
        ),
{
    d.diff.grouped_ops(context)
}

/// `DiffOp::as_tag_tuple`: the step as plain values.
#[verifier::external_body]
pub(crate) fn plain_op(op: &DiffOp) -> (r: Op)
    ensures
        r == step(*op),
{
    let (tag, old, new) = op.as_tag_tuple();
    let tag = match tag {
        DiffTag::Equal => OpTag::Equal,
        DiffTag::Delete => OpTag::Delete,
        DiffTag::Insert => OpTag::Insert,
        DiffTag::Replace => OpTag::Replace,
    };
    Op { tag, old_start: old.start, old_len: old.len(), new_start: new.start, new_len: new.len() }
}

/// `TextDiff::iter_inline_changes`: one change for each row of the step, the
/// old lines before the new ones, and the pieces of each make up its line. In
/// a replacement the marks tell changed words from the others, and no
/// terminator is marked. Which words are found to be the same is left open:
/// the search for them stops after half a second.
#[verifier::external_body]
pub(crate) fn inline_changes<'a>(d: &'a LineDiff<'a>, op: &DiffOp) -> (r: Vec<InlineChange>)
    requires
        fits(step(*op), lines(diff_old(*d)).len(), lines(diff_new(*d)).len()),
    ensures
        r@.len() == row_count(step(*op)),
        forall|k: int|
            0 <= k < r@.len() ==> shows(
                #[trigger] r@[k],
                step(*op),
                k,
                lines(diff_old(*d)),
                lines(diff_new(*d)),
            ),
        tells_words(change_marks(r@), step(*op).old_len as int, 0),
        forall|k: int, i: int|
            0 <= k < r@.len() && 0 <= i < marks(r@[k].pieces@).len() && (#[trigger] marks(
                r@[k].pieces@,
            )[i]).0 ==> !newline(marks(r@[k].pieces@)[i].1),
{
    let change = |c: similar::InlineChange<'_, str>| InlineChange {
        kind: match c.tag() {
            ChangeTag::Equal => RowKind::Equal,
            ChangeTag::Delete => RowKind::Delete,
            ChangeTag::Insert => RowKind::Insert,
        },
        old_index: c.old_index(),
        new_index: c.new_index(),
        pieces: c.iter_strings_lossy().map(|(e, s)| (e, s.into_owned())).collect(),
    };
    d.diff.iter_inline_changes(op).map(change).collect()
}

} // verus!
