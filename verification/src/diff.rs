//! Diff computation and classification: hunks of rows with word-level marks.

use vstd::prelude::*;
use vstd::string::*;

use crate::linediff;
use crate::linediff::{InlineChange, LineDiff, Op, OpTag};
use crate::paths;
use crate::snapshot::Before;
use crate::text;

pub use crate::linediff::RowKind;

verus! {

/// Diff rows kept per card; the rest is summarized.
pub const MAX_LINES: usize = 500;

/// Unchanged lines kept around a change.
pub const CONTEXT: usize = 3;

/// How far into a file a zero byte is looked for.
pub const BINARY_PROBE: usize = 8192;

/// What an edit did to a file.
#[derive(Debug, Clone, PartialEq, Eq)]
pub enum DiffKind {
    Modified,
    Created,
    Deleted,
    Binary,
    /// File absent after the edit and no snapshot existed.
    Missing,
    /// Diff shown (possibly synthetic) with a caveat, or nothing to show.
    Error(String),
}

/// The name of a kind.
pub open spec fn kind_label(kind: DiffKind) -> Seq<char> {
    match kind {
        DiffKind::Modified => "Modified"@,
        DiffKind::Created => "Created"@,
        DiffKind::Deleted => "Deleted"@,
        DiffKind::Binary => "Binary"@,
        DiffKind::Missing => "Missing"@,
        DiffKind::Error(m) => "Error: "@ + m@,
    }
}

impl DiffKind {
    pub fn label(&self) -> (r: String)
        ensures
            r@ == kind_label(*self),
    {
        match self {
            DiffKind::Modified => "Modified".to_owned(),
            DiffKind::Created => "Created".to_owned(),
            DiffKind::Deleted => "Deleted".to_owned(),
            DiffKind::Binary => "Binary".to_owned(),
            DiffKind::Missing => "Missing".to_owned(),
            DiffKind::Error(m) => {
                let mut s = "Error: ".to_owned();
                s.append(m.as_str());
                s
            },
        }
    }
}

/// One line of one side of the diff, or a context line on both.
#[derive(Debug, Clone, PartialEq, Eq)]
pub struct Row {
    pub kind: RowKind,
    /// 1-based line numbers; `None` on the side the row does not exist on.
    pub old_no: Option<usize>,
    pub new_no: Option<usize>,
    /// `(emphasized, text)` pieces; emphasized pieces are the words that
    /// changed within a replaced block. No trailing newline.
    pub segments: Vec<(bool, String)>,
}

impl Row {
    /// The row's text without its marks.
    pub fn text(&self) -> (r: String)
        ensures
            r@ == linediff::pieces_text(self.segments@),
    {
        let mut s = String::new();
        let mut i: usize = 0;
        let segments = &self.segments;
        assert(segments@.take(0) =~= Seq::empty());
        while i < segments.len()
            invariant
                i <= segments@.len(),
                s@ == linediff::pieces_text(segments@.take(i as int)),
            decreases segments@.len() - i,
        {
            assert(segments@.take(i + 1).drop_last() =~= segments@.take(i as int));
            s.append(segments[i].1.as_str());
            i += 1;
        }
        assert(segments@.take(i as int) =~= segments@);
        s
    }
}

/// A cluster of changes with the lines around them.
#[derive(Debug, Clone, PartialEq, Eq)]
pub struct Hunk {
    pub old_start: usize,
    pub old_len: usize,
    pub new_start: usize,
    pub new_len: usize,
    pub rows: Vec<Row>,
}

/// `@@ -a,b +c,d @@`.
pub open spec fn hunk_header(h: Hunk) -> Seq<char> {
    "@@ -"@ + text::digits(h.old_start as nat) + ","@ + text::digits(h.old_len as nat) + " +"@
        + text::digits(h.new_start as nat) + ","@ + text::digits(h.new_len as nat) + " @@"@
}

impl Hunk {
    /// `@@ -a,b +c,d @@`
    pub fn header(&self) -> (r: String)
        ensures
            r@ == hunk_header(*self),
    {
        let mut s = "@@ -".to_owned();
        s.append(text::decimal(self.old_start as u64).as_str());
        s.append(",");
        s.append(text::decimal(self.old_len as u64).as_str());
        s.append(" +");
        s.append(text::decimal(self.new_start as u64).as_str());
        s.append(",");
        s.append(text::decimal(self.new_len as u64).as_str());
        s.append(" @@");
        s
    }
}

/// What a card shows of an edit.
#[derive(Debug, Clone, PartialEq, Eq)]
pub struct DiffResult {
    pub kind: DiffKind,
    /// Hunks with three lines of context, cut at `MAX_LINES` rows. Empty when
    /// nothing to show.
    pub hunks: Vec<Hunk>,
    /// Inserted and deleted line counts over the whole diff.
    pub added: usize,
    pub removed: usize,
    /// Row count of the full diff before truncation.
    pub total_rows: usize,
    pub truncated: bool,
    /// First line of the new text (old text for a deletion), for syntax
    /// detection by shebang or mode line.
    pub first_line: String,
}

/// A diff with nothing to show.
pub open spec fn is_bare(d: DiffResult) -> bool {
    &&& d.hunks@.len() == 0
    &&& d.added == 0
    &&& d.removed == 0
    &&& d.total_rows == 0
    &&& !d.truncated
    &&& d.first_line@.len() == 0
}

/// All rows of a list of hunks.
pub open spec fn all_rows(hunks: Seq<Hunk>) -> Seq<Row>
    decreases hunks.len(),
{
    if hunks.len() == 0 {
        Seq::empty()
    } else {
        all_rows(hunks.drop_last()) + hunks.last().rows@
    }
}

impl DiffResult {
    /// A diff of `kind` with nothing to show.
    pub fn bare(kind: DiffKind) -> (r: DiffResult)
        ensures
            r.kind == kind,
            is_bare(r),
    {
        DiffResult {
            kind,
            hunks: Vec::new(),
            added: 0,
            removed: 0,
            total_rows: 0,
            truncated: false,
            first_line: String::new(),
        }
    }

    /// Whether there is no hunk.
    pub fn is_empty(&self) -> (r: bool)
        ensures
            r == (self.hunks@.len() == 0),
    {
        self.hunks.len() == 0
    }

    /// The rows of all hunks in order.
    pub fn rows(&self) -> (r: Vec<&Row>)
        ensures
            r@.len() == all_rows(self.hunks@).len(),
            forall|i: int| 0 <= i < r@.len() ==> *#[trigger] r@[i] == all_rows(self.hunks@)[i],
    {
        let hunks = &self.hunks;
        let mut out: Vec<&Row> = Vec::new();
        let mut g: usize = 0;
        assert(hunks@.take(0) =~= Seq::empty());
        while g < hunks.len()
            invariant
                g <= hunks@.len(),
                out@.len() == all_rows(hunks@.take(g as int)).len(),
                forall|i: int|
                    0 <= i < out@.len() ==> *#[trigger] out@[i] == all_rows(
                        hunks@.take(g as int),
                    )[i],
            decreases hunks@.len() - g,
        {
            let rows = &hunks[g].rows;
            let ghost before = all_rows(hunks@.take(g as int));
            let mut k: usize = 0;
            while k < rows.len()
                invariant
                    k <= rows@.len(),
                    out@.len() == before.len() + k,
                    forall|i: int|
                        0 <= i < out@.len() ==> *#[trigger] out@[i] == (before + rows@)[i],
                decreases rows@.len() - k,
            {
                out.push(&rows[k]);
                k += 1;
            }
            assert(hunks@.take(g + 1).drop_last() =~= hunks@.take(g as int));
            g += 1;
        }
        assert(hunks@.take(g as int) =~= hunks@);
        out
    }
}

/// `s` without one terminator at its end.
pub open spec fn body(s: Seq<char>) -> Seq<char> {
    let n = s.len() as int;
    if n >= 2 && s[n - 2] == '\r' && s[n - 1] == '\n' {
        s.take(n - 2)
    } else if n >= 1 && linediff::newline(s[n - 1]) {
        s.take(n - 1)
    } else {
        s
    }
}

/// How much of `v` is left without one terminator at its end.
fn body_len(v: &Vec<char>) -> (n: usize)
    ensures
        n <= v@.len(),
        v@.take(n as int) == body(v@),
{
    let n = v.len();
    assert(v@.take(n as int) =~= v@);
    if n >= 2 && v[n - 2] == '\r' && v[n - 1] == '\n' {
        n - 2
    } else if n >= 1 && (v[n - 1] == '\n' || v[n - 1] == '\r') {
        n - 1
    } else {
        n
    }
}

/// `s` without one line terminator at its end.
pub fn strip_newline(s: &str) -> (r: String)
    ensures
        r@ == body(s@),
{
    let v = text::chars_of(s);
    let n = body_len(&v);
    assert(v@.subrange(0, n as int) =~= v@.take(n as int));
    text::text_between(&v, 0, n)
}

/// The marked characters of a list of pieces, each without its terminator.
pub open spec fn body_marks(p: Seq<(bool, String)>) -> Seq<(bool, char)>
    decreases p.len(),
{
    if p.len() == 0 {
        Seq::empty()
    } else {
        body_marks(p.drop_last()) + linediff::marked(p.last().0, body(p.last().1@))
    }
}

/// Whether no piece is empty and no two neighbors carry the same mark.
pub open spec fn merged(p: Seq<(bool, String)>) -> bool {
    &&& forall|i: int| 0 <= i < p.len() ==> (#[trigger] p[i]).1@.len() > 0
    &&& forall|i: int| 0 < i < p.len() ==> (#[trigger] p[i]).0 != p[i - 1].0
}

/// Whether `p` is how a row holds its text: merged pieces, or one empty piece
/// when there is no text.
pub open spec fn tidy(p: Seq<(bool, String)>) -> bool {
    ||| p.len() > 0 && merged(p)
    ||| p.len() == 1 && !p[0].0 && p[0].1@.len() == 0
}

/// A line number that is there, counted from one.
pub open spec fn numbered(i: Option<usize>) -> Option<usize> {
    match i {
        Some(x) => Some((x + 1) as usize),
        None => None,
    }
}

fn number_from(i: Option<usize>) -> (r: Option<usize>)
    requires
        i matches Some(x) ==> x < usize::MAX,
    ensures
        r == numbered(i),
{
    match i {
        Some(x) => Some(x + 1),
        None => None,
    }
}

/// Adds `s` with the mark `emph` to a row's pieces.
fn push_piece(segments: &mut Vec<(bool, String)>, emph: bool, s: String)
    requires
        s@.len() > 0,
        merged(old(segments)@),
    ensures
        merged(final(segments)@),
        final(segments)@.len() > 0,
        linediff::marks(final(segments)@) == linediff::marks(old(segments)@) + linediff::marked(emph, s@),
{
    let n = segments.len();
    let ghost before = segments@;
    if n > 0 && segments[n - 1].0 == emph {
        let (e, mut last) = segments.pop().unwrap();
        let ghost rest = segments@;
        let ghost tail = last@;
        last.append(s.as_str());
        segments.push((e, last));
        proof {
            assert(rest =~= before.drop_last());
            assert(segments@.drop_last() =~= rest);
            assert(linediff::marked(e, tail) + linediff::marked(emph, s@) =~= linediff::marked(e, tail + s@));
            assert(linediff::marks(segments@) =~= linediff::marks(before) + linediff::marked(emph, s@));
            assert forall|i: int| 0 < i < segments@.len() implies (#[trigger] segments@[i]).0
                != segments@[i - 1].0 by {
                assert(before[i].0 != before[i - 1].0);
            }
            assert forall|i: int| 0 <= i < segments@.len() implies (
            #[trigger] segments@[i]).1@.len() > 0 by {
                assert(before[i].1@.len() > 0);
            }
        }
    } else {
        segments.push((emph, s));
        assert(segments@.drop_last() =~= before);
    }
}

/// A row as one inline change gives it: terminators taken off every piece,
/// empty pieces left out, neighbors of one mark joined.
pub fn row_from_change(change: InlineChange) -> (row: Row)
    requires
        change.old_index matches Some(x) ==> x < usize::MAX,
        change.new_index matches Some(x) ==> x < usize::MAX,
    ensures
        row.kind == change.kind,
        row.old_no == numbered(change.old_index),
        row.new_no == numbered(change.new_index),
        linediff::marks(row.segments@) == body_marks(change.pieces@),
        tidy(row.segments@),
{
    let pieces = &change.pieces;
    let mut segments: Vec<(bool, String)> = Vec::new();
    let mut i: usize = 0;
    assert(pieces@.take(0) =~= Seq::empty());
    while i < pieces.len()
        invariant
            i <= pieces@.len(),
            merged(segments@),
            linediff::marks(segments@) == body_marks(pieces@.take(i as int)),
        decreases pieces@.len() - i,
    {
        assert(pieces@.take(i + 1).drop_last() =~= pieces@.take(i as int));
        let s = strip_newline(pieces[i].1.as_str());
        if s.as_str().is_empty() {
            assert(linediff::marked(pieces@[i as int].0, s@) =~= Seq::empty());
            assert(linediff::marks(segments@) + Seq::<(bool, char)>::empty() =~= linediff::marks(segments@));
        } else {
            push_piece(&mut segments, pieces[i].0, s);
        }
        i += 1;
    }
    assert(pieces@.take(i as int) =~= pieces@);
    if segments.len() == 0 {
        segments.push((false, String::new()));
        proof {
            assert(segments@.drop_last() =~= Seq::empty());
            assert(linediff::marked(false, segments@.last().1@) =~= Seq::empty());
            assert(linediff::marks(segments@.drop_last()) =~= Seq::empty());
        }
    }
    Row {
        kind: change.kind,
        old_no: number_from(change.old_index),
        new_no: number_from(change.new_index),
        segments,
    }
}

/// The first line of `s` without a terminator at its end.
pub open spec fn first_line(s: Seq<char>) -> Seq<char> {
    body(text::first_line(s))
}

/// How many rows a list of steps shows.
pub open spec fn rows_in(ops: Seq<Op>) -> nat
    decreases ops.len(),
{
    if ops.len() == 0 {
        0
    } else {
        rows_in(ops.drop_last()) + linediff::row_count(ops.last())
    }
}

/// Which step row `i` of a list of steps belongs to, and which of its rows it
/// is.
pub open spec fn slot(ops: Seq<Op>, i: int) -> (Op, int)
    decreases ops.len(),
{
    if ops.len() == 0 || i >= rows_in(ops.drop_last()) {
        (ops.last(), i - rows_in(ops.drop_last()))
    } else {
        slot(ops.drop_last(), i)
    }
}

/// How many rows a list of clusters shows.
pub open spec fn rows_total(groups: Seq<Seq<Op>>) -> nat
    decreases groups.len(),
{
    if groups.len() == 0 {
        0
    } else {
        rows_total(groups.drop_last()) + rows_in(groups.last())
    }
}

/// How many lines an edit script inserts.
pub open spec fn lines_added(ops: Seq<Op>) -> nat
    decreases ops.len(),
{
    if ops.len() == 0 {
        0
    } else if ops.last().tag is Equal {
        lines_added(ops.drop_last())
    } else {
        lines_added(ops.drop_last()) + ops.last().new_len as nat
    }
}

/// How many lines an edit script deletes.
pub open spec fn lines_removed(ops: Seq<Op>) -> nat
    decreases ops.len(),
{
    if ops.len() == 0 {
        0
    } else if ops.last().tag is Equal {
        lines_removed(ops.drop_last())
    } else {
        lines_removed(ops.drop_last()) + ops.last().old_len as nat
    }
}

proof fn lemma_script_counts(ops: Seq<Op>, a: Seq<Seq<char>>, b: Seq<Seq<char>>)
    requires
        linediff::script(ops, a, b),
    ensures
        lines_added(ops) <= b.len(),
        lines_removed(ops) <= a.len(),
        forall|i: int| 0 <= i < ops.len() && (#[trigger] ops[i]).tag is Delete ==> ops[i].new_len == 0,
        forall|i: int| 0 <= i < ops.len() && (#[trigger] ops[i]).tag is Insert ==> ops[i].old_len == 0,
    decreases ops.len(),
{
    if ops.len() > 0 {
        let op = ops.last();
        let rest = ops.drop_last();
        lemma_script_counts(
            rest,
            a.take(a.len() - op.old_len),
            b.take(b.len() - op.new_len),
        );
        assert forall|i: int|
            0 <= i < ops.len() && (#[trigger] ops[i]).tag is Delete implies ops[i].new_len == 0 by {
            if i < ops.len() - 1 {
                assert(rest[i] == ops[i]);
            }
        }
        assert forall|i: int|
            0 <= i < ops.len() && (#[trigger] ops[i]).tag is Insert implies ops[i].old_len == 0 by {
            if i < ops.len() - 1 {
                assert(rest[i] == ops[i]);
            }
        }
    }
}

proof fn lemma_counts_grow(ops: Seq<Op>, i: int)
    requires
        0 <= i <= ops.len(),
    ensures
        lines_added(ops.take(i)) <= lines_added(ops),
        lines_removed(ops.take(i)) <= lines_removed(ops),
    decreases ops.len(),
{
    if i < ops.len() {
        lemma_counts_grow(ops.drop_last(), i);
        assert(ops.drop_last().take(i) =~= ops.take(i));
    } else {
        assert(ops.take(i) =~= ops);
    }
}

/// `(added, removed)`: the line counts of a whole diff.
fn count_changes(d: &LineDiff<'_>) -> (r: (usize, usize))
    requires
        linediff::diff_old(*d).len() <= usize::MAX,
        linediff::diff_new(*d).len() <= usize::MAX,
    ensures
        r.0 == lines_added(linediff::line_ops(linediff::diff_old(*d), linediff::diff_new(*d))),
        r.1 == lines_removed(linediff::line_ops(linediff::diff_old(*d), linediff::diff_new(*d))),
        linediff::script(
            linediff::line_ops(linediff::diff_old(*d), linediff::diff_new(*d)),
            linediff::lines(linediff::diff_old(*d)),
            linediff::lines(linediff::diff_new(*d)),
        ),
        linediff::solid(linediff::line_ops(linediff::diff_old(*d), linediff::diff_new(*d))),
{
    let ops = linediff::diff_ops(d);
    let ghost all = linediff::steps(ops@);
    let ghost a = linediff::lines(linediff::diff_old(*d));
    let ghost b = linediff::lines(linediff::diff_new(*d));
    proof {
        lemma_script_counts(all, a, b);
        linediff::lemma_lines(linediff::diff_old(*d));
        linediff::lemma_lines(linediff::diff_new(*d));
    }
    let mut added: usize = 0;
    let mut removed: usize = 0;
    let mut i: usize = 0;
    while i < ops.len()
        invariant
            i <= ops@.len(),
            all == linediff::steps(ops@),
            lines_added(all) <= usize::MAX,
            lines_removed(all) <= usize::MAX,
            forall|k: int|
                0 <= k < all.len() && (#[trigger] all[k]).tag is Delete ==> all[k].new_len == 0,
            forall|k: int|
                0 <= k < all.len() && (#[trigger] all[k]).tag is Insert ==> all[k].old_len == 0,
            added == lines_added(all.take(i as int)),
            removed == lines_removed(all.take(i as int)),
        decreases ops@.len() - i,
    {
        let op = linediff::plain_op(&ops[i]);
        proof {
            assert(all[i as int] == op);
            assert(all.take(i + 1).drop_last() =~= all.take(i as int));
            lemma_counts_grow(all, i + 1);
        }
        match op.tag {
            OpTag::Delete => {
                removed += op.old_len;
            },
            OpTag::Insert => {
                added += op.new_len;
            },
            OpTag::Replace => {
                removed += op.old_len;
                added += op.new_len;
            },
            OpTag::Equal => {},
        }
        i += 1;
    }
    assert(all.take(i as int) =~= all);
    (added, removed)
}

/// Whether `row` is row `k` of `op`: its line without the terminator. Outside
/// a replacement nothing is marked.
pub open spec fn is_row(
    row: Row,
    op: Op,
    k: int,
    a: Seq<Seq<char>>,
    b: Seq<Seq<char>>,
) -> bool {
    let line = linediff::row_line(op, k, a, b);
    &&& row.kind == linediff::row_kind(op, k)
    &&& linediff::index_of(row.old_no) == next(linediff::row_old(op, k))
    &&& linediff::index_of(row.new_no) == next(linediff::row_new(op, k))
    &&& linediff::pieces_text(row.segments@) == line.take(linediff::core_len(line) as int)
    &&& tidy(row.segments@)
    &&& op.tag !is Replace ==> row.segments@.len() == 1 && !row.segments@[0].0
}

/// The number after one that is there.
pub open spec fn next(i: Option<int>) -> Option<int> {
    match i {
        Some(x) => Some(x + 1),
        None => None,
    }
}

/// The characters of a list of marked characters.
pub open spec fn unmarked(m: Seq<(bool, char)>) -> Seq<char> {
    m.map_values(|p: (bool, char)| p.1)
}

proof fn lemma_marks_text(p: Seq<(bool, String)>)
    ensures
        unmarked(linediff::marks(p)) == linediff::pieces_text(p),
    decreases p.len(),
{
    if p.len() > 0 {
        lemma_marks_text(p.drop_last());
        assert(unmarked(linediff::marks(p)) =~= unmarked(linediff::marks(p.drop_last())) + p.last().1@);
    } else {
        assert(unmarked(linediff::marks(p)) =~= Seq::empty());
    }
}

/// What is left of the pieces of a line once each has lost its terminator is
/// the line without its own.
#[verifier::spinoff_prover]
#[verifier::rlimit(40)]
proof fn lemma_body_marks(p: Seq<(bool, String)>, line: Seq<char>, c: int)
    requires
        0 <= c <= line.len(),
        forall|i: int| 0 <= i < c ==> !linediff::newline(#[trigger] line[i]),
        c < line.len() ==> linediff::newline(line[c]),
        c + 1 < line.len() ==> c + 2 == line.len() && line[c] == '\r' && line[c + 1] == '\n',
        linediff::pieces_text(p) == line,
    ensures
        linediff::marks(p).len() == line.len(),
        body_marks(p) == linediff::marks(p).take(c),
    decreases p.len(),
{
    lemma_marks_text(p);
    if p.len() == 0 {
        assert(body_marks(p) =~= linediff::marks(p).take(c));
    } else {
        let rest = p.drop_last();
        let emph = p.last().0;
        let s = p.last().1@;
        let n = linediff::pieces_text(rest).len() as int;
        assert(line == linediff::pieces_text(rest) + s);
        let front = line.take(n);
        assert(front =~= linediff::pieces_text(rest));
        let fc = if c < n {
            c
        } else {
            n
        };
        assert forall|i: int| 0 <= i < fc implies !linediff::newline(#[trigger] front[i]) by {
            assert(front[i] == line[i]);
        }
        if fc < front.len() {
            assert(front[fc] == line[c]);
        }
        if fc + 1 < front.len() {
            assert(front[fc + 1] == line[c + 1]);
        }
        lemma_body_marks(rest, front, fc);
        assert forall|i: int| 0 <= i < s.len() implies s[i] == line[n + i] by {}
        assert(body(s) =~= line.subrange(fc, c));
        let m = linediff::marks(rest);
        assert(linediff::marks(p) == m + linediff::marked(emph, s));
        assert(body_marks(p) == m.take(fc) + linediff::marked(emph, body(s)));
        assert(body_marks(p) =~= linediff::marks(p).take(c)) by {
            assert forall|i: int| 0 <= i < c implies body_marks(p)[i] == linediff::marks(p)[i] by {
                if i >= fc {
                    assert(body(s)[i - fc] == line[i]);
                }
            }
        }
    }
}

proof fn lemma_one_mark(p: Seq<(bool, String)>)
    requires
        tidy(p),
        forall|i: int| 0 <= i < linediff::marks(p).len() ==> !(#[trigger] linediff::marks(p)[i]).0,
    ensures
        p.len() == 1,
        !p[0].0,
{
    if merged(p) {
        let m = linediff::marks(p);
        let rest = p.drop_last();
        assert(p.last().1@.len() > 0);
        assert(m == linediff::marks(rest) + linediff::marked(p.last().0, p.last().1@));
        assert(m[m.len() - 1].0 == p.last().0);
        if p.len() > 1 {
            let n = linediff::marks(rest).len() as int;
            assert(rest.last() == p[p.len() - 2]);
            assert(p[p.len() - 2].1@.len() > 0);
            assert(linediff::marks(rest) == linediff::marks(rest.drop_last()) + linediff::marked(
                rest.last().0,
                rest.last().1@,
            ));
            assert(m[n - 1].0 == rest.last().0);
            assert(p[p.len() - 1].0 != p[p.len() - 2].0);
        }
    }
}

/// Whether `m` is `whole` without a terminator at its end.
spec fn strips(m: Seq<(bool, char)>, whole: Seq<(bool, char)>) -> bool {
    &&& m.len() <= whole.len() <= m.len() + 2
    &&& m == whole.take(m.len() as int)
    &&& forall|i: int| m.len() <= i < whole.len() ==> linediff::newline((#[trigger] whole[i]).1)
}

/// A terminator is one word at most, and no text.
proof fn lemma_stripped(m: Seq<(bool, char)>, whole: Seq<(bool, char)>)
    requires
        strips(m, whole),
    ensures
        linediff::plain_text(m) == linediff::plain_text(whole),
        linediff::word_count(m) <= linediff::word_count(whole) <= linediff::word_count(m) + 1,
        linediff::plain_count(whole) <= linediff::plain_count(m) + 1,
{
    let n = whole.len() as int;
    if m.len() == n {
        assert(m =~= whole);
    } else if m.len() == n - 1 {
        assert(whole.drop_last() =~= m);
        assert(linediff::newline(whole[n - 1].1));
    } else {
        let front = whole.drop_last();
        assert(front.drop_last() =~= m);
        assert(linediff::newline(whole[n - 2].1));
        assert(linediff::newline(whole[n - 1].1));
        assert(!linediff::begins_word(whole, n - 1));
        assert(front.last() == whole[n - 2]);
        assert(linediff::plain_text(front) == linediff::plain_text(m));
        assert(linediff::word_count(whole) == linediff::word_count(front));
        assert(linediff::plain_count(whole) == linediff::plain_count(front));
    }
}

/// The marked characters of some rows.
pub open spec fn row_marks(rows: Seq<Row>) -> Seq<Seq<(bool, char)>> {
    rows.map_values(|r: Row| linediff::marks(r.segments@))
}

proof fn lemma_stripped_lines(
    lines: Seq<Seq<(bool, char)>>,
    wholes: Seq<Seq<(bool, char)>>,
)
    requires
        lines.len() == wholes.len(),
        forall|k: int| 0 <= k < lines.len() ==> strips(#[trigger] lines[k], wholes[k]),
    ensures
        linediff::plain_text_of(lines) == linediff::plain_text_of(wholes),
        linediff::words_of(lines) <= linediff::words_of(wholes) <= linediff::words_of(lines)
            + lines.len(),
        linediff::plain_words_of(wholes) <= linediff::plain_words_of(lines) + lines.len(),
    decreases lines.len(),
{
    if lines.len() > 0 {
        let n = lines.len() - 1;
        let a = lines.drop_last();
        let b = wholes.drop_last();
        assert forall|k: int| 0 <= k < a.len() implies strips(#[trigger] a[k], b[k]) by {
            assert(strips(lines[k], wholes[k]));
        }
        lemma_stripped_lines(a, b);
        assert(strips(lines[n], wholes[n]));
        lemma_stripped(lines[n], wholes[n]);
    }
}

/// Rows tell words as the lines do that they are made of.
proof fn lemma_rows_tell_words(
    lines: Seq<Seq<(bool, char)>>,
    wholes: Seq<Seq<(bool, char)>>,
    old_len: int,
)
    requires
        0 <= old_len <= lines.len() == wholes.len(),
        forall|k: int| 0 <= k < lines.len() ==> strips(#[trigger] lines[k], wholes[k]),
        linediff::tells_words(wholes, old_len, 0),
    ensures
        linediff::tells_words(lines, old_len, lines.len()),
{
    if linediff::unmarked_lines(wholes) {
        assert forall|k: int, i: int| 0 <= k < lines.len() && 0 <= i < lines[k].len() implies !(
        #[trigger] lines[k][i]).0 by {
            assert(strips(lines[k], wholes[k]));
            assert(!wholes[k][i].0);
        }
    } else {
        assert forall|k: int| 0 <= k < old_len implies strips(
            #[trigger] lines.take(old_len)[k],
            wholes.take(old_len)[k],
        ) by {
            assert(strips(lines[k], wholes[k]));
        }
        assert forall|k: int| 0 <= k < lines.len() - old_len implies strips(
            #[trigger] lines.skip(old_len)[k],
            wholes.skip(old_len)[k],
        ) by {
            assert(strips(lines[old_len + k], wholes[old_len + k]));
        }
        lemma_stripped_lines(lines, wholes);
        lemma_stripped_lines(lines.take(old_len), wholes.take(old_len));
        lemma_stripped_lines(lines.skip(old_len), wholes.skip(old_len));
    }
}

proof fn lemma_row(
    row: Row,
    change: InlineChange,
    op: Op,
    k: int,
    a: Seq<Seq<char>>,
    b: Seq<Seq<char>>,
)
    requires
        linediff::shows(change, op, k, a, b),
        linediff::is_line(linediff::row_line(op, k, a, b)),
        change.old_index matches Some(x) ==> x < usize::MAX,
        change.new_index matches Some(x) ==> x < usize::MAX,
        row.kind == change.kind,
        row.old_no == numbered(change.old_index),
        row.new_no == numbered(change.new_index),
        linediff::marks(row.segments@) == body_marks(change.pieces@),
        tidy(row.segments@),
    ensures
        is_row(row, op, k, a, b),
        strips(linediff::marks(row.segments@), linediff::marks(change.pieces@)),
{
    let line = linediff::row_line(op, k, a, b);
    let c = linediff::core_len(line) as int;
    linediff::lemma_core(line);
    lemma_marks_text(row.segments@);
    lemma_marks_text(change.pieces@);
    lemma_body_marks(change.pieces@, line, c);
    let m = linediff::marks(change.pieces@);
    assert(unmarked(m.take(c)) =~= line.take(c));
    assert forall|i: int| c <= i < m.len() implies linediff::newline(#[trigger] m[i].1) by {
        assert(unmarked(m)[i] == line[i]);
    }
    if op.tag !is Replace {
        let p = change.pieces@;
        assert(p.drop_last() =~= Seq::empty());
        assert(body_marks(p.drop_last()) =~= Seq::empty());
        assert(body_marks(p) =~= linediff::marked(false, body(p[0].1@)));
        lemma_one_mark(row.segments@);
    }
}

/// The rows of one step.
fn step_rows<'a>(d: &'a LineDiff<'a>, op: &similar::DiffOp) -> (rows: Vec<Row>)
    requires
        linediff::fits(
            linediff::step(*op),
            linediff::lines(linediff::diff_old(*d)).len(),
            linediff::lines(linediff::diff_new(*d)).len(),
        ),
        linediff::diff_old(*d).len() <= usize::MAX,
        linediff::diff_new(*d).len() <= usize::MAX,
    ensures
        rows@.len() == linediff::row_count(linediff::step(*op)),
        forall|k: int|
            0 <= k < rows@.len() ==> is_row(
                #[trigger] rows@[k],
                linediff::step(*op),
                k,
                linediff::lines(linediff::diff_old(*d)),
                linediff::lines(linediff::diff_new(*d)),
            ),
        linediff::tells_words(
            row_marks(rows@),
            linediff::step(*op).old_len as int,
            rows@.len(),
        ),
{
    let ghost a = linediff::lines(linediff::diff_old(*d));
    let ghost b = linediff::lines(linediff::diff_new(*d));
    let ghost plain = linediff::step(*op);
    proof {
        linediff::lemma_lines(linediff::diff_old(*d));
        linediff::lemma_lines(linediff::diff_new(*d));
    }
    let changes = linediff::inline_changes(d, op);
    let ghost all = changes@;
    let mut rows: Vec<Row> = Vec::new();
    for change in it: changes
        invariant
            it.seq() == all,
            all.len() == linediff::row_count(plain),
            rows@.len() == it.index(),
            linediff::fits(plain, a.len(), b.len()),
            a.len() <= usize::MAX,
            b.len() <= usize::MAX,
            forall|i: int| 0 <= i < a.len() ==> linediff::is_line(#[trigger] a[i]),
            forall|i: int| 0 <= i < b.len() ==> linediff::is_line(#[trigger] b[i]),
            forall|k: int| 0 <= k < all.len() ==> linediff::shows(#[trigger] all[k], plain, k, a, b),
            forall|k: int| 0 <= k < rows@.len() ==> is_row(#[trigger] rows@[k], plain, k, a, b),
            forall|k: int|
                0 <= k < rows@.len() ==> strips(
                    #[trigger] row_marks(rows@)[k],
                    linediff::change_marks(all)[k],
                ),
    {
        let ghost k = rows@.len() as int;
        assert(linediff::shows(all[k], plain, k, a, b));
        let row = row_from_change(change);
        proof {
            lemma_row(row, all[k], plain, k, a, b);
        }
        let ghost before = rows@;
        rows.push(row);
        proof {
            assert(row_marks(rows@) =~= row_marks(before).push(linediff::marks(row.segments@)));
        }
    }
    proof {
        lemma_rows_tell_words(
            row_marks(rows@),
            linediff::change_marks(all),
            plain.old_len as int,
        );
    }
    rows
}

/// Whether `rows` are the first rows of a cluster.
pub open spec fn are_rows(
    rows: Seq<Row>,
    ops: Seq<Op>,
    a: Seq<Seq<char>>,
    b: Seq<Seq<char>>,
) -> bool {
    forall|i: int|
        0 <= i < rows.len() ==> is_row(
            #[trigger] rows[i],
            slot(ops, i).0,
            slot(ops, i).1,
            a,
            b,
        )
}

/// The rows that step `t` of a cluster has among those of the cluster.
pub open spec fn block(rows: Seq<Row>, ops: Seq<Op>, t: int) -> Seq<Row> {
    rows.subrange(rows_in(ops.take(t)) as int, rows_in(ops.take(t + 1)) as int)
}

/// Whether the rows of step `t` tell changed words from the others, when all
/// of them are there.
pub open spec fn block_tells_words(rows: Seq<Row>, ops: Seq<Op>, t: int) -> bool {
    rows_in(ops.take(t + 1)) <= rows.len() ==> linediff::tells_words(
        row_marks(block(rows, ops, t)),
        ops[t].old_len as int,
        linediff::row_count(ops[t]),
    )
}

/// Whether the rows of every step that has all of its rows tell changed words
/// from the others.
pub open spec fn tell_words(rows: Seq<Row>, ops: Seq<Op>) -> bool {
    forall|t: int| 0 <= t < ops.len() ==> #[trigger] block_tells_words(rows, ops, t)
}

proof fn lemma_rows_in_grows(ops: Seq<Op>, i: int, j: int)
    requires
        0 <= i <= j <= ops.len(),
    ensures
        rows_in(ops.take(i)) <= rows_in(ops.take(j)),
    decreases j - i,
{
    if i < j {
        lemma_rows_in_grows(ops, i, j - 1);
        assert(ops.take(j).drop_last() =~= ops.take(j - 1));
    }
}

/// A block is the same among fewer or more rows.
proof fn lemma_block(rows: Seq<Row>, longer: Seq<Row>, ops: Seq<Op>, t: int)
    requires
        rows.len() <= longer.len(),
        rows == longer.take(rows.len() as int),
        0 <= t < ops.len(),
        rows_in(ops.take(t + 1)) <= rows.len(),
    ensures
        block(rows, ops, t) == block(longer, ops, t),
{
    lemma_rows_in_grows(ops, t, t + 1);
    assert(block(rows, ops, t) =~= block(longer, ops, t));
}

proof fn lemma_cut_rows_tell_words(rows: Seq<Row>, longer: Seq<Row>, ops: Seq<Op>)
    requires
        rows.len() <= longer.len(),
        rows == longer.take(rows.len() as int),
        tell_words(longer, ops),
    ensures
        tell_words(rows, ops),
{
    assert forall|t: int| 0 <= t < ops.len() implies #[trigger] block_tells_words(rows, ops, t) by {
        assert(block_tells_words(longer, ops, t));
        if rows_in(ops.take(t + 1)) <= rows.len() {
            lemma_block(rows, longer, ops, t);
        }
    }
}

/// The rows of one cluster.
fn group_rows<'a>(d: &'a LineDiff<'a>, group: &Vec<similar::DiffOp>) -> (rows: Vec<Row>)
    requires
        forall|k: int|
            0 <= k < group@.len() ==> linediff::fits(
                linediff::step(#[trigger] group@[k]),
                linediff::lines(linediff::diff_old(*d)).len(),
                linediff::lines(linediff::diff_new(*d)).len(),
            ),
        linediff::diff_old(*d).len() <= usize::MAX,
        linediff::diff_new(*d).len() <= usize::MAX,
    ensures
        rows@.len() == rows_in(linediff::steps(group@)),
        are_rows(
            rows@,
            linediff::steps(group@),
            linediff::lines(linediff::diff_old(*d)),
            linediff::lines(linediff::diff_new(*d)),
        ),
        tell_words(rows@, linediff::steps(group@)),
{
    let ghost a = linediff::lines(linediff::diff_old(*d));
    let ghost b = linediff::lines(linediff::diff_new(*d));
    let ghost ops = linediff::steps(group@);
    let mut rows: Vec<Row> = Vec::new();
    let mut i: usize = 0;
    while i < group.len()
        invariant
            i <= group@.len(),
            ops == linediff::steps(group@),
            a == linediff::lines(linediff::diff_old(*d)),
            b == linediff::lines(linediff::diff_new(*d)),
            linediff::diff_old(*d).len() <= usize::MAX,
            linediff::diff_new(*d).len() <= usize::MAX,
            forall|k: int|
                0 <= k < group@.len() ==> linediff::fits(
                    linediff::step(#[trigger] group@[k]),
                    a.len(),
                    b.len(),
                ),
            rows@.len() == rows_in(ops.take(i as int)),
            are_rows(rows@, ops.take(i as int), a, b),
            forall|t: int| 0 <= t < i ==> #[trigger] block_tells_words(rows@, ops, t),
        decreases group@.len() - i,
    {
        let ghost before = rows@;
        let ghost done = ops.take(i as int);
        let ghost next_done = ops.take(i + 1);
        let mut more = step_rows(d, &group[i]);
        let ghost new_rows = more@;
        rows.append(&mut more);
        proof {
            assert(next_done.drop_last() =~= done);
            assert(next_done.last() == linediff::step(group@[i as int]));
            assert(rows@ == before + new_rows);
            assert forall|j: int| 0 <= j < rows@.len() implies is_row(
                #[trigger] rows@[j],
                slot(next_done, j).0,
                slot(next_done, j).1,
                a,
                b,
            ) by {
                if j < before.len() {
                    assert(rows@[j] == before[j]);
                } else {
                    assert(rows@[j] == new_rows[j - before.len()]);
                }
            }
            assert forall|t: int| 0 <= t <= i implies #[trigger] block_tells_words(
                rows@,
                ops,
                t,
            ) by {
                if t < i {
                    assert(block_tells_words(before, ops, t));
                    lemma_rows_in_grows(ops, t + 1, i as int);
                    assert(before =~= rows@.take(before.len() as int));
                    lemma_block(before, rows@, ops, t);
                } else {
                    assert(block(rows@, ops, t) =~= new_rows);
                }
            }
        }
        i += 1;
    }
    assert(ops.take(i as int) =~= ops);
    rows
}

/// The numbers that are there.
pub open spec fn present(nos: Seq<Option<usize>>) -> Seq<usize>
    decreases nos.len(),
{
    if nos.len() == 0 {
        Seq::empty()
    } else {
        match nos.last() {
            Some(n) => present(nos.drop_last()).push(n),
            None => present(nos.drop_last()),
        }
    }
}

/// `(start, len)` of a run of line numbers; `(0, 0)` when empty, as in a
/// unified diff header for a side with no lines.
pub fn range(nos: &Vec<Option<usize>>) -> (r: (usize, usize))
    ensures
        r.0 == (if present(nos@).len() == 0 {
            0
        } else {
            present(nos@)[0]
        }),
        r.1 == present(nos@).len(),
{
    let mut first: Option<usize> = None;
    let mut count: usize = 0;
    let mut i: usize = 0;
    while i < nos.len()
        invariant
            i <= nos@.len(),
            count <= i,
            count == present(nos@.take(i as int)).len(),
            first is Some <==> count > 0,
            first matches Some(f) ==> f == present(nos@.take(i as int))[0],
        decreases nos@.len() - i,
    {
        assert(nos@.take(i + 1).drop_last() =~= nos@.take(i as int));
        if let Some(n) = nos[i] {
            if first.is_none() {
                first = Some(n);
            }
            count += 1;
        }
        i += 1;
    }
    assert(nos@.take(i as int) =~= nos@);
    match first {
        Some(f) => (f, count),
        None => (0, count),
    }
}

/// The old line numbers of `rows`.
pub open spec fn old_numbers(rows: Seq<Row>) -> Seq<usize> {
    present(rows.map_values(|r: Row| r.old_no))
}

/// The new line numbers of `rows`.
pub open spec fn new_numbers(rows: Seq<Row>) -> Seq<usize> {
    present(rows.map_values(|r: Row| r.new_no))
}

/// The first of a list of numbers, zero when there is none.
pub open spec fn start_of(nos: Seq<usize>) -> int {
    if nos.len() == 0 {
        0
    } else {
        nos[0] as int
    }
}

/// Whether the header of `h` gives the line numbers of its rows.
pub open spec fn spans_rows(h: Hunk) -> bool {
    &&& h.old_start == start_of(old_numbers(h.rows@))
    &&& h.old_len == old_numbers(h.rows@).len()
    &&& h.new_start == start_of(new_numbers(h.rows@))
    &&& h.new_len == new_numbers(h.rows@).len()
}

/// A hunk of the given rows.
fn hunk_of(rows: Vec<Row>) -> (h: Hunk)
    ensures
        h.rows == rows,
        spans_rows(h),
{
    let mut old_nos: Vec<Option<usize>> = Vec::new();
    let mut new_nos: Vec<Option<usize>> = Vec::new();
    let mut i: usize = 0;
    while i < rows.len()
        invariant
            i <= rows@.len(),
            old_nos@ == rows@.take(i as int).map_values(|r: Row| r.old_no),
            new_nos@ == rows@.take(i as int).map_values(|r: Row| r.new_no),
        decreases rows@.len() - i,
    {
        old_nos.push(rows[i].old_no);
        new_nos.push(rows[i].new_no);
        i += 1;
    }
    assert(rows@.take(i as int) =~= rows@);
    let (old_start, old_len) = range(&old_nos);
    let (new_start, new_len) = range(&new_nos);
    Hunk { old_start, old_len, new_start, new_len, rows }
}

/// Whether `h` shows as many rows of a cluster as there is room for.
pub open spec fn is_hunk(
    h: Hunk,
    ops: Seq<Op>,
    room: int,
    a: Seq<Seq<char>>,
    b: Seq<Seq<char>>,
) -> bool {
    &&& h.rows@.len() == if rows_in(ops) <= room {
        rows_in(ops) as int
    } else {
        room
    }
    &&& are_rows(h.rows@, ops, a, b)
    &&& tell_words(h.rows@, ops)
    &&& spans_rows(h)
}

/// Whether some rows of cluster `g` have no room.
pub open spec fn cut_at(groups: Seq<Seq<Op>>, g: int) -> bool {
    rows_total(groups.take(g)) >= MAX_LINES || rows_total(groups.take(g)) + rows_in(groups[g])
        > MAX_LINES
}

/// Whether `hunks` are the clusters as far as there is room for their rows.
pub open spec fn are_hunks(
    hunks: Seq<Hunk>,
    groups: Seq<Seq<Op>>,
    a: Seq<Seq<char>>,
    b: Seq<Seq<char>>,
) -> bool {
    &&& hunks.len() <= groups.len()
    &&& forall|g: int|
        0 <= g < groups.len() ==> (g < hunks.len() <==> rows_total(#[trigger] groups.take(g))
            < MAX_LINES)
    &&& forall|g: int|
        0 <= g < hunks.len() ==> is_hunk(
            #[trigger] hunks[g],
            groups[g],
            MAX_LINES - rows_total(groups.take(g)),
            a,
            b,
        )
}

/// `n`, or the largest number there is.
pub open spec fn capped(n: nat) -> nat {
    if n <= usize::MAX {
        n
    } else {
        usize::MAX as nat
    }
}

/// Whether `r` shows the difference between two texts: the clusters of the
/// edit script between their lines, cut at `MAX_LINES` rows.
pub open spec fn compares(r: DiffResult, old_text: Seq<char>, new_text: Seq<char>) -> bool {
    if old_text == new_text {
        is_bare(r)
    } else {
        let ops = linediff::line_ops(old_text, new_text);
        let groups = linediff::clusters(ops, CONTEXT as nat);
        let a = linediff::lines(old_text);
        let b = linediff::lines(new_text);
        &&& linediff::script(ops, a, b)
        &&& linediff::solid(ops)
        &&& linediff::clustered(groups, ops, CONTEXT as nat, a.len(), b.len())
        &&& are_hunks(r.hunks@, groups, a, b)
        &&& r.added == lines_added(ops)
        &&& r.removed == lines_removed(ops)
        &&& r.total_rows == capped(rows_total(groups))
        &&& r.truncated <==> exists|g: int| 0 <= g < groups.len() && #[trigger] cut_at(groups, g)
        &&& r.first_line@ == first_line(
            if new_text.len() == 0 {
                old_text
            } else {
                new_text
            },
        )
    }
}

proof fn lemma_total_grows(groups: Seq<Seq<Op>>, i: int, j: int)
    requires
        0 <= i <= j <= groups.len(),
    ensures
        rows_total(groups.take(i)) <= rows_total(groups.take(j)),
    decreases j - i,
{
    if i < j {
        lemma_total_grows(groups, i, j - 1);
        assert(groups.take(j).drop_last() =~= groups.take(j - 1));
    }
}

/// The difference between two texts.
#[verifier::loop_isolation(false)]
#[verifier::spinoff_prover]
#[verifier::rlimit(40)]
fn structured(old_text: &str, new_text: &str) -> (r: DiffResult)
    ensures
        r.kind is Modified,
        compares(r, old_text@, new_text@),
{
    if text::same(old_text, new_text) {
        return DiffResult::bare(DiffKind::Modified);
    }
    let old_count: usize = text::char_count(old_text);
    let new_count: usize = text::char_count(new_text);
    let head = text::first_line_of(
        if new_count == 0 {
            old_text
        } else {
            new_text
        },
    );
    let first_line = strip_newline(head.as_str());
    let diff = linediff::line_diff(old_text, new_text);
    let (added, removed) = count_changes(&diff);
    let clusters = linediff::grouped_ops(&diff, CONTEXT);
    let ghost groups = linediff::grouped_steps(clusters@);
    let ghost a = linediff::lines(old_text@);
    let ghost b = linediff::lines(new_text@);
    let mut hunks: Vec<Hunk> = Vec::new();
    let mut total_rows: usize = 0;
    let mut kept: usize = 0;
    let mut truncated = false;
    let mut g: usize = 0;
    while g < clusters.len()
        invariant
            g <= clusters@.len(),
            hunks@.len() <= g,
            total_rows == capped(rows_total(groups.take(g as int))),
            kept == if rows_total(groups.take(g as int)) <= MAX_LINES {
                rows_total(groups.take(g as int)) as int
            } else {
                MAX_LINES as int
            },
            truncated <==> exists|k: int| 0 <= k < g && #[trigger] cut_at(groups, k),
            forall|k: int|
                0 <= k < g ==> (k < hunks@.len() <==> rows_total(#[trigger] groups.take(k))
                    < MAX_LINES),
            forall|k: int|
                0 <= k < hunks@.len() ==> is_hunk(
                    #[trigger] hunks@[k],
                    groups[k],
                    MAX_LINES - rows_total(groups.take(k)),
                    a,
                    b,
                ),
        decreases clusters@.len() - g,
    {
        proof {
            assert(groups[g as int] == linediff::steps(clusters@[g as int]@));
            assert forall|k: int| 0 <= k < clusters@[g as int]@.len() implies linediff::fits(
                linediff::step(#[trigger] clusters@[g as int]@[k]),
                a.len(),
                b.len(),
            ) by {
                assert(groups[g as int][k] == linediff::step(clusters@[g as int]@[k]));
            }
        }
        assert(groups.take(g + 1).drop_last() =~= groups.take(g as int));
        let mut rows = group_rows(&diff, &clusters[g]);
        let ghost all_of_it = rows@;
        total_rows = total_rows.saturating_add(rows.len());
        if kept >= MAX_LINES {
            assert(cut_at(groups, g as int));
            truncated = true;
        } else {
            if rows.len() > MAX_LINES - kept {
                assert(cut_at(groups, g as int));
                rows.truncate(MAX_LINES - kept);
                truncated = true;
            }
            kept += rows.len();
            proof {
                assert forall|i: int| 0 <= i < rows@.len() implies rows@[i] == all_of_it[i] by {}
                assert(rows@ =~= all_of_it.take(rows@.len() as int));
                lemma_cut_rows_tell_words(rows@, all_of_it, groups[g as int]);
                assert forall|k: int| 0 <= k <= g implies rows_total(#[trigger] groups.take(k))
                    < MAX_LINES by {
                    lemma_total_grows(groups, k, g as int);
                }
                if g > 0 {
                    assert(rows_total(groups.take(g - 1)) < MAX_LINES);
                }
                assert(hunks@.len() == g);
            }
            hunks.push(hunk_of(rows));
        }
        g += 1;
    }
    assert(groups.take(g as int) =~= groups);
    DiffResult { kind: DiffKind::Modified, hunks, added, removed, total_rows, truncated, first_line }
}

/// The path shown on a card: relative when inside `cwd`, absolute otherwise.
pub open spec fn shown_path(
    file: Seq<char>,
    cwd: Seq<char>,
    canonical: Option<Seq<char>>,
) -> Seq<char> {
    match (paths::below(file, cwd), canonical) {
        (Some(r), _) => r,
        (None, Some(c)) => match paths::below(file, c) {
            Some(r) => r,
            None => file,
        },
        (None, None) => file,
    }
}

/// Path shown on the card: relative when inside `cwd`, absolute otherwise.
/// `canonical` is `cwd` with its links resolved, when that could be done.
pub fn display_path(file: &str, cwd: &str, canonical: &Option<String>) -> (r: String)
    ensures
        r@ == shown_path(file@, cwd@, text::opt_text(*canonical)),
{
    if let Some(r) = paths::strip_prefix(file, cwd) {
        return r;
    }
    if let Some(c) = canonical {
        if let Some(r) = paths::strip_prefix(file, c.as_str()) {
            return r;
        }
    }
    file.to_owned()
}

/// Whether a file is shown as binary: a zero byte near its start, or no valid
/// UTF-8.
pub open spec fn binary(bytes: Seq<u8>) -> bool {
    ||| exists|i: int| 0 <= i < bytes.len() && i < BINARY_PROBE && #[trigger] bytes[i] == 0
    ||| !vstd::utf8::valid_utf8(bytes)
}

/// The text of a file, when it is one.
fn text_of(bytes: &[u8]) -> (r: Option<&str>)
    ensures
        r is None <==> binary(bytes@),
        r matches Some(s) ==> s@ == vstd::utf8::decode_utf8(bytes@),
{
    let mut i: usize = 0;
    while i < bytes.len() && i < BINARY_PROBE
        invariant
            i <= bytes@.len(),
            forall|k: int| 0 <= k < i ==> bytes@[k] != 0,
        decreases bytes@.len() - i,
    {
        if bytes[i] == 0 {
            return None;
        }
        i += 1;
    }
    let r = text::utf8_text(bytes);
    proof {
        if let Some(s) = r {
            vstd::utf8::encode_utf8_decode_utf8(s@);
        }
    }
    r
}

/// Whether `r` is what a card shows of a file that was `before` and is
/// `after`.
pub open spec fn shows_edit(r: DiffResult, before: Before, after: Option<Seq<u8>>) -> bool {
    match (before, after) {
        (Before::Unavailable(msg), Some(_)) => r.kind == DiffKind::Error(msg) && is_bare(r),
        (Before::Unavailable(_), None) => r.kind is Missing && is_bare(r),
        (Before::Absent, None) => r.kind is Missing && is_bare(r),
        (Before::Synthetic { old, new, note }, _) => r.kind == DiffKind::Error(note) && compares(
            r,
            old@,
            new@,
        ),
        (Before::Absent, Some(new)) => if binary(new) {
            r.kind is Binary && is_bare(r)
        } else {
            r.kind is Created && compares(r, Seq::empty(), vstd::utf8::decode_utf8(new))
        },
        (Before::Content(old), None) => if binary(old@) {
            r.kind is Binary && is_bare(r)
        } else {
            r.kind is Deleted && compares(r, vstd::utf8::decode_utf8(old@), Seq::empty())
        },
        (Before::Content(old), Some(new)) => if binary(old@) || binary(new) {
            r.kind is Binary && is_bare(r)
        } else {
            r.kind is Modified && compares(
                r,
                vstd::utf8::decode_utf8(old@),
                vstd::utf8::decode_utf8(new),
            )
        },
    }
}

/// The bytes of a slice that is there.
pub open spec fn opt_bytes(a: Option<&[u8]>) -> Option<Seq<u8>> {
    match a {
        Some(b) => Some(b@),
        None => None,
    }
}

/// What a card shows of a file that was `before` and is `after`.
pub fn compute(before: &Before, after: Option<&[u8]>) -> (r: DiffResult)
    ensures
        shows_edit(r, *before, opt_bytes(after)),
{
    proof {
        reveal_strlit("");
        assert(""@ =~= Seq::empty());
    }
    match (before, after) {
        (Before::Unavailable(msg), Some(_)) => DiffResult::bare(DiffKind::Error(msg.clone())),
        (Before::Unavailable(_), None) => DiffResult::bare(DiffKind::Missing),
        (Before::Absent, None) => DiffResult::bare(DiffKind::Missing),
        (Before::Synthetic { old, new, note }, _) => {
            let mut r = structured(old.as_str(), new.as_str());
            r.kind = DiffKind::Error(note.clone());
            r
        },
        (Before::Absent, Some(new)) => match text_of(new) {
            None => DiffResult::bare(DiffKind::Binary),
            Some(new) => {
                let mut r = structured("", new);
                r.kind = DiffKind::Created;
                r
            },
        },
        (Before::Content(old), None) => match text_of(old.as_slice()) {
            None => DiffResult::bare(DiffKind::Binary),
            Some(old) => {
                let mut r = structured(old, "");
                r.kind = DiffKind::Deleted;
                r
            },
        },
        (Before::Content(old), Some(new)) => match (text_of(old.as_slice()), text_of(new)) {
            (Some(old), Some(new)) => structured(old, new),
            _ => DiffResult::bare(DiffKind::Binary),
        },
    }
}

/// How many of `rows` are on the side `kind`.
pub open spec fn count(rows: Seq<Row>, kind: RowKind) -> nat
    decreases rows.len(),
{
    if rows.len() == 0 {
        0
    } else {
        count(rows.drop_last(), kind) + if rows.last().kind == kind {
            1nat
        } else {
            0nat
        }
    }
}

proof fn lemma_count_sum(s: Seq<Row>, t: Seq<Row>, kind: RowKind)
    ensures
        count(s + t, kind) == count(s, kind) + count(t, kind),
    decreases t.len(),
{
    if t.len() == 0 {
        assert(s + t =~= s);
    } else {
        assert((s + t).drop_last() =~= s + t.drop_last());
        lemma_count_sum(s, t.drop_last(), kind);
    }
}

proof fn lemma_step_counts(rows: Seq<Row>, op: Op)
    requires
        rows.len() <= linediff::row_count(op),
        forall|k: int|
            0 <= k < rows.len() ==> (#[trigger] rows[k]).kind == linediff::row_kind(op, k),
    ensures
        op.tag is Equal ==> count(rows, RowKind::Insert) == 0 && count(rows, RowKind::Delete) == 0,
        op.tag !is Equal && rows.len() <= op.old_len ==> count(rows, RowKind::Insert) == 0 && count(
            rows,
            RowKind::Delete,
        ) == rows.len(),
        op.tag !is Equal && rows.len() > op.old_len ==> count(rows, RowKind::Insert) == rows.len()
            - op.old_len && count(rows, RowKind::Delete) == op.old_len,
    decreases rows.len(),
{
    if rows.len() > 0 {
        assert forall|k: int| 0 <= k < rows.drop_last().len() implies (
        #[trigger] rows.drop_last()[k]).kind == linediff::row_kind(op, k) by {
            assert(rows.drop_last()[k] == rows[k]);
        }
        assert(rows.last().kind == linediff::row_kind(op, rows.len() - 1));
        lemma_step_counts(rows.drop_last(), op);
    }
}

proof fn lemma_group_counts(rows: Seq<Row>, ops: Seq<Op>, a: Seq<Seq<char>>, b: Seq<Seq<char>>)
    requires
        rows.len() == rows_in(ops),
        are_rows(rows, ops, a, b),
    ensures
        count(rows, RowKind::Insert) == lines_added(ops),
        count(rows, RowKind::Delete) == lines_removed(ops),
    decreases ops.len(),
{
    if ops.len() > 0 {
        let rest = ops.drop_last();
        let n = rows_in(rest) as int;
        let front = rows.take(n);
        let tail = rows.skip(n);
        assert(front + tail =~= rows);
        assert forall|i: int| 0 <= i < front.len() implies is_row(
            #[trigger] front[i],
            slot(rest, i).0,
            slot(rest, i).1,
            a,
            b,
        ) by {
            assert(front[i] == rows[i]);
        }
        lemma_group_counts(front, rest, a, b);
        assert forall|k: int| 0 <= k < tail.len() implies (#[trigger] tail[k]).kind
            == linediff::row_kind(ops.last(), k) by {
            assert(tail[k] == rows[n + k]);
            assert(slot(ops, n + k) == (ops.last(), k));
        }
        lemma_step_counts(tail, ops.last());
        lemma_count_sum(front, tail, RowKind::Insert);
        lemma_count_sum(front, tail, RowKind::Delete);
    }
}

proof fn lemma_sums_join(s: Seq<Op>, t: Seq<Op>)
    ensures
        lines_added(s + t) == lines_added(s) + lines_added(t),
        lines_removed(s + t) == lines_removed(s) + lines_removed(t),
    decreases t.len(),
{
    if t.len() == 0 {
        assert(s + t =~= s);
    } else {
        assert((s + t).drop_last() =~= s + t.drop_last());
        lemma_sums_join(s, t.drop_last());
    }
}

proof fn lemma_changing_sums(ops: Seq<Op>)
    ensures
        lines_added(linediff::changing(ops)) == lines_added(ops),
        lines_removed(linediff::changing(ops)) == lines_removed(ops),
    decreases ops.len(),
{
    reveal(Seq::filter);
    if ops.len() > 0 {
        lemma_changing_sums(ops.drop_last());
        let rest = linediff::changing(ops.drop_last());
        if ops.last().tag !is Equal {
            assert(linediff::changing(ops).drop_last() =~= rest);
        }
    }
}

/// The hunks `0..n` hold all rows of their clusters when nothing is cut.
proof fn lemma_uncut(
    hunks: Seq<Hunk>,
    groups: Seq<Seq<Op>>,
    a: Seq<Seq<char>>,
    b: Seq<Seq<char>>,
    n: int,
)
    requires
        0 <= n <= groups.len(),
        are_hunks(hunks, groups, a, b),
        forall|g: int| 0 <= g < groups.len() ==> !#[trigger] cut_at(groups, g),
    ensures
        n <= hunks.len(),
        all_rows(hunks.take(n)).len() == rows_total(groups.take(n)),
        rows_total(groups.take(n)) <= MAX_LINES,
        count(all_rows(hunks.take(n)), RowKind::Insert) == lines_added(
            linediff::all_steps(groups.take(n)),
        ),
        count(all_rows(hunks.take(n)), RowKind::Delete) == lines_removed(
            linediff::all_steps(groups.take(n)),
        ),
    decreases n,
{
    if n > 0 {
        lemma_uncut(hunks, groups, a, b, n - 1);
        assert(!cut_at(groups, n - 1));
        assert(rows_total(groups.take(n - 1)) < MAX_LINES);
        assert(hunks.take(n).drop_last() =~= hunks.take(n - 1));
        assert(groups.take(n).drop_last() =~= groups.take(n - 1));
        let h = hunks[n - 1];
        assert(is_hunk(h, groups[n - 1], MAX_LINES - rows_total(groups.take(n - 1)), a, b));
        lemma_group_counts(h.rows@, groups[n - 1], a, b);
        lemma_count_sum(all_rows(hunks.take(n - 1)), h.rows@, RowKind::Insert);
        lemma_count_sum(all_rows(hunks.take(n - 1)), h.rows@, RowKind::Delete);
        lemma_sums_join(linediff::all_steps(groups.take(n - 1)), groups[n - 1]);
    }
}

/// A diff that is not cut shows every inserted and every deleted line: its
/// rows are as many as the totals say.
pub proof fn law_uncut_diff_shows_every_change(
    r: DiffResult,
    old_text: Seq<char>,
    new_text: Seq<char>,
)
    requires
        compares(r, old_text, new_text),
        !r.truncated,
    ensures
        count(all_rows(r.hunks@), RowKind::Insert) == r.added,
        count(all_rows(r.hunks@), RowKind::Delete) == r.removed,
        all_rows(r.hunks@).len() == r.total_rows,
{
    if old_text != new_text {
        let ops = linediff::line_ops(old_text, new_text);
        let groups = linediff::clusters(ops, CONTEXT as nat);
        let n = groups.len() as int;
        lemma_uncut(
            r.hunks@,
            groups,
            linediff::lines(old_text),
            linediff::lines(new_text),
            n,
        );
        assert(r.hunks@.take(n) =~= r.hunks@);
        assert(groups.take(n) =~= groups);
        lemma_changing_sums(linediff::all_steps(groups));
        lemma_changing_sums(ops);
    }
}

proof fn lemma_kept(
    hunks: Seq<Hunk>,
    groups: Seq<Seq<Op>>,
    a: Seq<Seq<char>>,
    b: Seq<Seq<char>>,
    n: int,
)
    requires
        0 <= n <= hunks.len(),
        are_hunks(hunks, groups, a, b),
    ensures
        all_rows(hunks.take(n)).len() == if rows_total(groups.take(n)) <= MAX_LINES {
            rows_total(groups.take(n)) as int
        } else {
            MAX_LINES as int
        },
    decreases n,
{
    if n > 0 {
        lemma_kept(hunks, groups, a, b, n - 1);
        assert(rows_total(groups.take(n - 1)) < MAX_LINES);
        assert(hunks.take(n).drop_last() =~= hunks.take(n - 1));
        assert(groups.take(n).drop_last() =~= groups.take(n - 1));
        assert(is_hunk(
            hunks[n - 1],
            groups[n - 1],
            MAX_LINES - rows_total(groups.take(n - 1)),
            a,
            b,
        ));
    }
}

proof fn lemma_rows_of_step(ops: Seq<Op>, k: int)
    requires
        0 <= k < ops.len(),
    ensures
        linediff::row_count(ops[k]) <= rows_in(ops),
    decreases ops.len(),
{
    if k < ops.len() - 1 {
        lemma_rows_of_step(ops.drop_last(), k);
        assert(ops.drop_last()[k] == ops[k]);
    }
}

/// Every cluster has rows.
proof fn lemma_cluster_rows(group: Seq<Op>, ops: Seq<Op>, m: int)
    requires
        linediff::slice_at(group, ops, m),
        linediff::solid(ops),
        linediff::has_change(group),
    ensures
        group.len() > 0,
        rows_in(group) > 0,
{
    let k = choose|k: int| 0 <= k < group.len() && (#[trigger] group[k]).tag !is Equal;
    assert(linediff::part_of(group[k], ops[m + k]));
    lemma_rows_of_step(group, k);
}

/// Where some rows have no room, there are more than `MAX_LINES`.
proof fn lemma_cut_total(groups: Seq<Seq<Op>>, ops: Seq<Op>, at: Seq<int>, g: int)
    requires
        linediff::clustered_at(groups, ops, at, CONTEXT as nat),
        linediff::solid(ops),
        0 <= g < groups.len(),
        linediff::has_change(groups[g]),
        cut_at(groups, g),
    ensures
        rows_total(groups) > MAX_LINES,
{
    assert(linediff::slice_at(groups[g], ops, at[g]));
    lemma_cluster_rows(groups[g], ops, at[g]);
    assert(groups.take(g + 1).drop_last() =~= groups.take(g));
    lemma_total_grows(groups, g + 1, groups.len() as int);
    assert(groups.take(groups.len() as int) =~= groups);
}

/// As many rows are kept as fit into `MAX_LINES`.
proof fn lemma_kept_all(
    hunks: Seq<Hunk>,
    groups: Seq<Seq<Op>>,
    a: Seq<Seq<char>>,
    b: Seq<Seq<char>>,
)
    requires
        are_hunks(hunks, groups, a, b),
    ensures
        all_rows(hunks).len() == if rows_total(groups) <= MAX_LINES {
            rows_total(groups) as int
        } else {
            MAX_LINES as int
        },
{
    let n = hunks.len() as int;
    lemma_kept(hunks, groups, a, b, n);
    assert(hunks.take(n) =~= hunks);
    assert(groups.take(groups.len() as int) =~= groups);
    lemma_total_grows(groups, n, groups.len() as int);
    if n < groups.len() {
        assert(rows_total(groups.take(n)) >= MAX_LINES);
    }
}

/// A diff shows as many of its rows as fit into `MAX_LINES`, and it is marked
/// as cut exactly when some do not.
pub proof fn law_rows_are_kept_up_to_the_limit(
    r: DiffResult,
    old_text: Seq<char>,
    new_text: Seq<char>,
)
    requires
        compares(r, old_text, new_text),
    ensures
        all_rows(r.hunks@).len() == if r.total_rows <= MAX_LINES {
            r.total_rows as int
        } else {
            MAX_LINES as int
        },
        r.truncated <==> r.total_rows > MAX_LINES,
{
    if old_text != new_text {
        let ops = linediff::line_ops(old_text, new_text);
        let groups = linediff::clusters(ops, CONTEXT as nat);
        let a = linediff::lines(old_text);
        let b = linediff::lines(new_text);
        lemma_kept_all(r.hunks@, groups, a, b);
        if exists|g: int| 0 <= g < groups.len() && #[trigger] cut_at(groups, g) {
            let g = choose|g: int| 0 <= g < groups.len() && #[trigger] cut_at(groups, g);
            let at = choose|at: Seq<int>| #[trigger]
                linediff::clustered_at(groups, ops, at, CONTEXT as nat);
            assert(linediff::has_change(groups[g]));
            lemma_cut_total(groups, ops, at, g);
        } else {
            lemma_uncut(r.hunks@, groups, a, b, groups.len() as int);
            assert(groups.take(groups.len() as int) =~= groups);
        }
    }
}

/// A line without its terminator.
pub open spec fn line_body(line: Seq<char>) -> Seq<char> {
    line.take(linediff::core_len(line) as int)
}

/// Whether a row shows the lines of either text that its numbers name.
pub open spec fn shows_its_lines(row: Row, a: Seq<Seq<char>>, b: Seq<Seq<char>>) -> bool {
    &&& row.old_no matches Some(n) ==> 1 <= n <= a.len() && linediff::pieces_text(row.segments@)
        == line_body(a[n - 1])
    &&& row.new_no matches Some(n) ==> 1 <= n <= b.len() && linediff::pieces_text(row.segments@)
        == line_body(b[n - 1])
}

/// Line `t` of a step that leaves its lines alone is in both texts.
proof fn lemma_equal_line(ops: Seq<Op>, a: Seq<Seq<char>>, b: Seq<Seq<char>>, m: int, t: int)
    requires
        linediff::script(ops, a, b),
        0 <= m < ops.len(),
        ops[m].tag is Equal,
        0 <= t < ops[m].old_len,
    ensures
        ops[m].old_start + t < a.len(),
        ops[m].new_start + t < b.len(),
        a[ops[m].old_start + t] == b[ops[m].new_start + t],
    decreases ops.len(),
{
    let op = ops.last();
    let rest = ops.drop_last();
    let fa = a.take(a.len() - op.old_len);
    let fb = b.take(b.len() - op.new_len);
    if m < ops.len() - 1 {
        assert(rest[m] == ops[m]);
        lemma_equal_line(rest, fa, fb, m, t);
        assert(fa[ops[m].old_start + t] == a[ops[m].old_start + t]);
        assert(fb[ops[m].new_start + t] == b[ops[m].new_start + t]);
    } else {
        let ta = a.skip(a.len() - op.old_len);
        let tb = b.skip(b.len() - op.new_len);
        assert(ta.len() == op.old_len && tb.len() == op.new_len);
        assert(ta[t] == a[op.old_start + t]);
        assert(tb[t] == b[op.new_start + t]);
    }
}

proof fn lemma_slot(ops: Seq<Op>, i: int)
    requires
        0 <= i < rows_in(ops),
    ensures
        exists|k: int|
            0 <= k < ops.len() && #[trigger] ops[k] == slot(ops, i).0 && 0 <= slot(ops, i).1
                < linediff::row_count(ops[k]),
    decreases ops.len(),
{
    let rest = ops.drop_last();
    if ops.len() > 0 && i < rows_in(rest) {
        lemma_slot(rest, i);
        let k = choose|k: int|
            0 <= k < rest.len() && #[trigger] rest[k] == slot(rest, i).0 && 0 <= slot(rest, i).1
                < linediff::row_count(rest[k]);
        assert(ops[k] == rest[k]);
    } else {
        assert(ops[ops.len() - 1] == slot(ops, i).0);
    }
}

proof fn lemma_row_lines(
    row: Row,
    s: Op,
    j: int,
    ops: Seq<Op>,
    m: int,
    a: Seq<Seq<char>>,
    b: Seq<Seq<char>>,
)
    requires
        is_row(row, s, j, a, b),
        0 <= j < linediff::row_count(s),
        linediff::fits(s, a.len(), b.len()),
        linediff::script(ops, a, b),
        0 <= m < ops.len(),
        linediff::part_of(s, ops[m]),
    ensures
        shows_its_lines(row, a, b),
{
    if s.tag is Equal {
        let op = ops[m];
        lemma_equal_line(ops, a, b, m, s.old_start - op.old_start + j);
    }
}

proof fn lemma_hunk_lines(
    h: Hunk,
    group: Seq<Op>,
    room: int,
    ops: Seq<Op>,
    m: int,
    a: Seq<Seq<char>>,
    b: Seq<Seq<char>>,
)
    requires
        is_hunk(h, group, room, a, b),
        linediff::slice_at(group, ops, m),
        linediff::script(ops, a, b),
        forall|k: int|
            0 <= k < group.len() ==> linediff::fits(#[trigger] group[k], a.len(), b.len()),
    ensures
        forall|i: int| 0 <= i < h.rows@.len() ==> shows_its_lines(#[trigger] h.rows@[i], a, b),
{
    assert forall|i: int| 0 <= i < h.rows@.len() implies shows_its_lines(
        #[trigger] h.rows@[i],
        a,
        b,
    ) by {
        lemma_slot(group, i);
        let k = choose|k: int|
            0 <= k < group.len() && #[trigger] group[k] == slot(group, i).0 && 0 <= slot(group, i).1
                < linediff::row_count(group[k]);
        assert(linediff::part_of(group[k], ops[m + k]));
        lemma_row_lines(h.rows@[i], group[k], slot(group, i).1, ops, m + k, a, b);
    }
}

/// Every row shows the line of either text that its number on that side names,
/// without its terminator: a context row is a line that both texts have.
pub proof fn law_rows_show_the_lines_they_number(
    r: DiffResult,
    old_text: Seq<char>,
    new_text: Seq<char>,
)
    requires
        compares(r, old_text, new_text),
    ensures
        forall|g: int, i: int|
            0 <= g < r.hunks@.len() && 0 <= i < r.hunks@[g].rows@.len() ==> shows_its_lines(
                #[trigger] r.hunks@[g].rows@[i],
                linediff::lines(old_text),
                linediff::lines(new_text),
            ),
{
    if old_text != new_text {
        let ops = linediff::line_ops(old_text, new_text);
        let groups = linediff::clusters(ops, CONTEXT as nat);
        let a = linediff::lines(old_text);
        let b = linediff::lines(new_text);
        let at = choose|at: Seq<int>| #[trigger]
            linediff::clustered_at(groups, ops, at, CONTEXT as nat);
        assert forall|g: int, i: int|
            0 <= g < r.hunks@.len() && 0 <= i < r.hunks@[g].rows@.len() implies shows_its_lines(
            #[trigger] r.hunks@[g].rows@[i],
            a,
            b,
        ) by {
            let h = r.hunks@[g];
            let group = groups[g];
            assert forall|k: int| 0 <= k < group.len() implies linediff::fits(
                #[trigger] group[k],
                a.len(),
                b.len(),
            ) by {
                assert(linediff::fits(groups[g][k], a.len(), b.len()));
            }
            assert(linediff::slice_at(groups[g], ops, at[g]));
            lemma_hunk_lines(h, group, MAX_LINES - rows_total(groups.take(g)), ops, at[g], a, b);
        }
    }
}

/// The number of a row on one side.
pub open spec fn number_on(row: Row, old_side: bool) -> Option<usize> {
    if old_side {
        row.old_no
    } else {
        row.new_no
    }
}

/// The line numbers of `rows` on one side.
pub open spec fn numbers_on(rows: Seq<Row>, old_side: bool) -> Seq<usize> {
    present(rows.map_values(|r: Row| number_on(r, old_side)))
}

/// Whether a list of numbers counts up by one.
pub open spec fn consecutive(nos: Seq<usize>) -> bool {
    forall|i: int| 0 <= i < nos.len() ==> #[trigger] nos[i] == nos[0] + i
}

spec fn len_on(op: Op, old_side: bool) -> nat {
    if old_side {
        op.old_len as nat
    } else {
        op.new_len as nat
    }
}

spec fn start_on(op: Op, old_side: bool) -> nat {
    if old_side {
        op.old_start as nat
    } else {
        op.new_start as nat
    }
}

/// How many lines the steps take up on one side.
spec fn reach(ops: Seq<Op>, old_side: bool) -> nat
    decreases ops.len(),
{
    if ops.len() == 0 {
        0
    } else {
        reach(ops.drop_last(), old_side) + len_on(ops.last(), old_side)
    }
}

proof fn lemma_reach(ops: Seq<Op>, a: Seq<Seq<char>>, b: Seq<Seq<char>>, old_side: bool)
    requires
        linediff::script(ops, a, b),
    ensures
        reach(ops, old_side) == if old_side {
            a.len()
        } else {
            b.len()
        },
    decreases ops.len(),
{
    if ops.len() > 0 {
        let op = ops.last();
        lemma_reach(
            ops.drop_last(),
            a.take(a.len() - op.old_len),
            b.take(b.len() - op.new_len),
            old_side,
        );
    }
}

/// A step begins where those before it end.
proof fn lemma_start(
    ops: Seq<Op>,
    a: Seq<Seq<char>>,
    b: Seq<Seq<char>>,
    m: int,
    old_side: bool,
)
    requires
        linediff::script(ops, a, b),
        0 <= m < ops.len(),
        len_on(ops[m], old_side) > 0,
    ensures
        start_on(ops[m], old_side) == reach(ops.take(m), old_side),
    decreases ops.len(),
{
    let op = ops.last();
    let rest = ops.drop_last();
    let fa = a.take(a.len() - op.old_len);
    let fb = b.take(b.len() - op.new_len);
    if m < ops.len() - 1 {
        assert(rest[m] == ops[m]);
        lemma_start(rest, fa, fb, m, old_side);
        assert(rest.take(m) =~= ops.take(m));
    } else {
        lemma_reach(rest, fa, fb, old_side);
        assert(ops.take(m) =~= rest);
    }
}

/// The two sides of a step that leaves its lines alone are as long.
proof fn lemma_equal_len(ops: Seq<Op>, a: Seq<Seq<char>>, b: Seq<Seq<char>>, m: int)
    requires
        linediff::script(ops, a, b),
        0 <= m < ops.len(),
        ops[m].tag is Equal,
    ensures
        ops[m].old_len == ops[m].new_len,
    decreases ops.len(),
{
    let op = ops.last();
    if m < ops.len() - 1 {
        assert(ops.drop_last()[m] == ops[m]);
        lemma_equal_len(
            ops.drop_last(),
            a.take(a.len() - op.old_len),
            b.take(b.len() - op.new_len),
            m,
        );
    } else {
        assert(a.skip(a.len() - op.old_len).len() == b.skip(b.len() - op.new_len).len());
    }
}

/// Where a run of steps begins on one side.
spec fn origin(group: Seq<Op>, ops: Seq<Op>, m: int, old_side: bool) -> int {
    if group.len() > 1 || group[0].tag !is Equal {
        reach(ops.take(m + 1), old_side) - len_on(group[0], old_side)
    } else {
        start_on(group[0], old_side) as int
    }
}

proof fn lemma_group_reach(
    group: Seq<Op>,
    ops: Seq<Op>,
    m: int,
    a: Seq<Seq<char>>,
    b: Seq<Seq<char>>,
    k: int,
    old_side: bool,
)
    requires
        linediff::slice_at(group, ops, m),
        linediff::script(ops, a, b),
        1 <= k < group.len(),
    ensures
        reach(ops.take(m + k), old_side) == origin(group, ops, m, old_side) + reach(
            group.take(k),
            old_side,
        ),
    decreases k,
{
    if k == 1 {
        assert(group.take(1).drop_last() =~= Seq::empty());
        assert(reach(group.take(1).drop_last(), old_side) == 0);
        assert(group.take(1).last() == group[0]);
    } else {
        lemma_group_reach(group, ops, m, a, b, k - 1, old_side);
        assert(group.take(k).drop_last() =~= group.take(k - 1));
        assert(ops.take(m + k).drop_last() =~= ops.take(m + k - 1));
        let s = group[k - 1];
        let op = ops[m + k - 1];
        assert(linediff::part_of(s, ops[m + (k - 1)]));
        if op.tag is Equal {
            lemma_equal_len(ops, a, b, m + k - 1);
        }
        assert(len_on(s, old_side) == len_on(op, old_side));
    }
}

proof fn lemma_group_start(
    group: Seq<Op>,
    ops: Seq<Op>,
    m: int,
    a: Seq<Seq<char>>,
    b: Seq<Seq<char>>,
    k: int,
    old_side: bool,
)
    requires
        linediff::slice_at(group, ops, m),
        linediff::script(ops, a, b),
        0 <= k < group.len(),
        len_on(group[k], old_side) > 0,
    ensures
        start_on(group[k], old_side) == origin(group, ops, m, old_side) + reach(
            group.take(k),
            old_side,
        ),
{
    let s = group[k];
    let op = ops[m + k];
    assert(linediff::part_of(s, ops[m + k]));
    if op.tag is Equal {
        lemma_equal_len(ops, a, b, m + k);
    }
    lemma_start(ops, a, b, m + k, old_side);
    if k == 0 {
        assert(group.take(0) =~= Seq::empty());
        assert(ops.take(m + 1).drop_last() =~= ops.take(m));
        if group.len() > 1 {
            assert(group[0].old_start + group[0].old_len == ops[m + 0].old_start + ops[m
                + 0].old_len);
        }
    } else {
        lemma_group_reach(group, ops, m, a, b, k, old_side);
    }
}

/// How many of the first `j` rows of a step have a number on one side.
spec fn seen_in(op: Op, j: int, old_side: bool) -> int {
    if op.tag is Equal {
        j
    } else if old_side {
        if j <= op.old_len {
            j
        } else {
            op.old_len as int
        }
    } else if j <= op.old_len {
        0
    } else {
        j - op.old_len
    }
}

/// How many of the first `i` rows of some steps have a number on one side.
spec fn seen(ops: Seq<Op>, i: int, old_side: bool) -> int
    decreases ops.len(),
{
    if ops.len() == 0 {
        0
    } else if i >= rows_in(ops.drop_last()) {
        reach(ops.drop_last(), old_side) + seen_in(
            ops.last(),
            i - rows_in(ops.drop_last()),
            old_side,
        )
    } else {
        seen(ops.drop_last(), i, old_side)
    }
}

proof fn lemma_seen_all(ops: Seq<Op>, old_side: bool)
    requires
        forall|k: int|
            0 <= k < ops.len() && (#[trigger] ops[k]).tag is Equal ==> ops[k].old_len
                == ops[k].new_len,
    ensures
        seen(ops, rows_in(ops) as int, old_side) == reach(ops, old_side),
{
    if ops.len() > 0 {
        assert(ops.last() == ops[ops.len() - 1]);
    }
}

proof fn lemma_seen(ops: Seq<Op>, i: int, old_side: bool) -> (k: int)
    requires
        0 <= i < rows_in(ops),
        forall|k: int|
            0 <= k < ops.len() && (#[trigger] ops[k]).tag is Equal ==> ops[k].old_len
                == ops[k].new_len,
    ensures
        0 <= k < ops.len(),
        slot(ops, i).0 == ops[k],
        0 <= slot(ops, i).1 < linediff::row_count(ops[k]),
        seen(ops, i, old_side) == reach(ops.take(k), old_side) + seen_in(
            ops[k],
            slot(ops, i).1,
            old_side,
        ),
        seen(ops, i + 1, old_side) == reach(ops.take(k), old_side) + seen_in(
            ops[k],
            slot(ops, i).1 + 1,
            old_side,
        ),
    decreases ops.len(),
{
    let rest = ops.drop_last();
    let n = ops.len() - 1;
    if i >= rows_in(rest) {
        assert(ops.take(n) =~= rest);
        n
    } else {
        assert forall|k: int| 0 <= k < rest.len() && (#[trigger] rest[k]).tag is Equal implies rest[
            k
        ].old_len == rest[k].new_len by {
            assert(rest[k] == ops[k]);
        }
        let k = lemma_seen(rest, i, old_side);
        assert(rest.take(k) =~= ops.take(k));
        assert(rest[k] == ops[k]);
        if i + 1 == rows_in(rest) {
            lemma_seen_all(rest, old_side);
        }
        k
    }
}

proof fn lemma_numbers(
    rows: Seq<Row>,
    group: Seq<Op>,
    ops: Seq<Op>,
    m: int,
    a: Seq<Seq<char>>,
    b: Seq<Seq<char>>,
    n: int,
    old_side: bool,
)
    requires
        0 <= n <= rows.len() <= rows_in(group),
        are_rows(rows, group, a, b),
        linediff::slice_at(group, ops, m),
        linediff::script(ops, a, b),
    ensures
        numbers_on(rows.take(n), old_side).len() == seen(group, n, old_side),
        forall|i: int|
            0 <= i < numbers_on(rows.take(n), old_side).len() ==> #[trigger] numbers_on(
                rows.take(n),
                old_side,
            )[i] == origin(group, ops, m, old_side) + 1 + i,
    decreases n,
{
    assert forall|k: int| 0 <= k < group.len() && (#[trigger] group[k]).tag is Equal implies group[
        k
    ].old_len == group[k].new_len by {
        assert(linediff::part_of(group[k], ops[m + k]));
    }
    let nos = rows.take(n).map_values(|r: Row| number_on(r, old_side));
    if n == 0 {
        assert(nos =~= Seq::empty());
        lemma_seen_none(group, old_side);
    } else {
        lemma_numbers(rows, group, ops, m, a, b, n - 1, old_side);
        let before = rows.take(n - 1).map_values(|r: Row| number_on(r, old_side));
        assert(nos.drop_last() =~= before);
        let row = rows[n - 1];
        assert(nos.last() == number_on(row, old_side));
        let k = lemma_seen(group, n - 1, old_side);
        let j = slot(group, n - 1).1;
        assert(is_row(row, group[k], j, a, b));
        if number_on(row, old_side) is Some {
            lemma_group_start(group, ops, m, a, b, k, old_side);
        }
    }
}

proof fn lemma_seen_none(ops: Seq<Op>, old_side: bool)
    requires
        forall|k: int|
            0 <= k < ops.len() && (#[trigger] ops[k]).tag is Equal ==> ops[k].old_len
                == ops[k].new_len,
    ensures
        seen(ops, 0, old_side) == 0,
    decreases ops.len(),
{
    if ops.len() > 0 {
        let rest = ops.drop_last();
        assert forall|k: int| 0 <= k < rest.len() && (#[trigger] rest[k]).tag is Equal implies rest[
            k
        ].old_len == rest[k].new_len by {
            assert(rest[k] == ops[k]);
        }
        lemma_seen_none(rest, old_side);
        if rows_in(rest) == 0 {
            lemma_no_rows(rest, old_side);
        }
    }
}

proof fn lemma_no_rows(ops: Seq<Op>, old_side: bool)
    requires
        rows_in(ops) == 0,
        forall|k: int|
            0 <= k < ops.len() && (#[trigger] ops[k]).tag is Equal ==> ops[k].old_len
                == ops[k].new_len,
    ensures
        reach(ops, old_side) == 0,
    decreases ops.len(),
{
    if ops.len() > 0 {
        let rest = ops.drop_last();
        assert forall|k: int| 0 <= k < rest.len() && (#[trigger] rest[k]).tag is Equal implies rest[
            k
        ].old_len == rest[k].new_len by {
            assert(rest[k] == ops[k]);
        }
        lemma_no_rows(rest, old_side);
        assert(ops.last() == ops[ops.len() - 1]);
    }
}

/// Within a hunk the lines of either text come one after the other, from the
/// start that its header gives and as many as it gives.
pub proof fn law_a_hunk_is_a_range_of_lines(
    r: DiffResult,
    old_text: Seq<char>,
    new_text: Seq<char>,
    g: int,
    old_side: bool,
)
    requires
        compares(r, old_text, new_text),
        0 <= g < r.hunks@.len(),
    ensures
        ({
            let h = r.hunks@[g];
            let nos = numbers_on(h.rows@, old_side);
            &&& consecutive(nos)
            &&& nos.len() == if old_side {
                h.old_len
            } else {
                h.new_len
            }
            &&& nos.len() > 0 ==> nos[0] == if old_side {
                h.old_start
            } else {
                h.new_start
            }
        }),
{
    let ops = linediff::line_ops(old_text, new_text);
    let groups = linediff::clusters(ops, CONTEXT as nat);
    let a = linediff::lines(old_text);
    let b = linediff::lines(new_text);
    let h = r.hunks@[g];
    let group = groups[g];
    assert(is_hunk(h, group, MAX_LINES - rows_total(groups.take(g)), a, b));
    let at = choose|at: Seq<int>| #[trigger]
        linediff::clustered_at(groups, ops, at, CONTEXT as nat);
    assert(linediff::slice_at(groups[g], ops, at[g]));
    let m = at[g];
    lemma_numbers(h.rows@, group, ops, m, a, b, h.rows@.len() as int, old_side);
    assert(h.rows@.take(h.rows@.len() as int) =~= h.rows@);
    lemma_header(h);
}

/// Where a cluster begins that begins with lines that stay.
proof fn lemma_head_stays(
    group: Seq<Op>,
    ops: Seq<Op>,
    m: int,
    a: Seq<Seq<char>>,
    b: Seq<Seq<char>>,
    context: nat,
    old_side: bool,
)
    requires
        linediff::slice_at(group, ops, m),
        linediff::keeps_context(group, ops, m, context),
        linediff::script(ops, a, b),
        linediff::solid(ops),
        context > 0,
        group.len() > 0,
        group[0].tag is Equal,
    ensures
        group[0].old_len > 0,
        linediff::part_of(group[0], ops[m]),
        ops[m].tag is Equal,
        origin(group, ops, m, old_side) == start_on(group[0], old_side),
{
    assert(linediff::part_of(group[0], ops[m + 0]));
    lemma_equal_len(ops, a, b, m);
    lemma_group_start(group, ops, m, a, b, 0, old_side);
    assert(group.take(0) =~= Seq::empty());
}

/// Where a cluster ends that ends with lines that stay.
proof fn lemma_tail_stays(
    group: Seq<Op>,
    ops: Seq<Op>,
    m: int,
    a: Seq<Seq<char>>,
    b: Seq<Seq<char>>,
    context: nat,
    old_side: bool,
)
    requires
        linediff::slice_at(group, ops, m),
        linediff::keeps_context(group, ops, m, context),
        linediff::script(ops, a, b),
        linediff::solid(ops),
        context > 0,
        group.len() > 0,
        group.last().tag is Equal,
    ensures
        group.last().old_len > 0,
        linediff::part_of(group.last(), ops[m + group.len() - 1]),
        ops[m + group.len() - 1].tag is Equal,
        origin(group, ops, m, old_side) + reach(group, old_side) == start_on(group.last(), old_side)
            + len_on(group.last(), old_side),
{
    let k = group.len() - 1;
    assert(linediff::part_of(group[k], ops[m + k]));
    lemma_equal_len(ops, a, b, m + k);
    assert(group[k].old_len > 0);
    lemma_group_start(group, ops, m, a, b, k, old_side);
    assert(group.take(k) =~= group.drop_last());
}

/// A cluster that begins with a change begins where the texts do.
proof fn lemma_head_changes(group: Seq<Op>, ops: Seq<Op>, old_side: bool)
    requires
        linediff::slice_at(group, ops, 0),
        group.len() > 0,
        group[0].tag !is Equal,
    ensures
        origin(group, ops, 0, old_side) == 0,
{
    assert(linediff::part_of(group[0], ops[0int + 0]));
    assert(ops.take(1).drop_last() =~= Seq::empty());
    assert(reach(ops.take(1).drop_last(), old_side) == 0);
    assert(ops.take(1).last() == ops[0]);
}

/// A cluster that ends with a change ends where the texts do.
proof fn lemma_tail_changes(
    group: Seq<Op>,
    ops: Seq<Op>,
    m: int,
    a: Seq<Seq<char>>,
    b: Seq<Seq<char>>,
    old_side: bool,
)
    requires
        linediff::slice_at(group, ops, m),
        linediff::script(ops, a, b),
        m + group.len() == ops.len(),
        group.len() > 0,
        group.last().tag !is Equal,
    ensures
        origin(group, ops, m, old_side) + reach(group, old_side) == reach(ops, old_side),
{
    let k = group.len() - 1;
    assert(linediff::part_of(group[k], ops[m + k]));
    if k == 0 {
        assert(ops.take(m + 1) =~= ops);
        assert(group.drop_last() =~= Seq::empty());
        assert(reach(group.drop_last(), old_side) == 0);
    } else {
        lemma_group_reach(group, ops, m, a, b, k, old_side);
        assert(ops.take(m + k) =~= ops.drop_last());
        assert(group.take(k) =~= group.drop_last());
    }
}

/// Where cluster `g` begins on one side.
spec fn begin_of(groups: Seq<Seq<Op>>, ops: Seq<Op>, at: Seq<int>, g: int, old_side: bool) -> int {
    origin(groups[g], ops, at[g], old_side)
}

/// Where cluster `g` ends on one side.
spec fn end_of(groups: Seq<Seq<Op>>, ops: Seq<Op>, at: Seq<int>, g: int, old_side: bool) -> int {
    begin_of(groups, ops, at, g, old_side) + reach(groups[g], old_side)
}

/// All that the laws on hunks rest on.
spec fn in_clusters(
    groups: Seq<Seq<Op>>,
    ops: Seq<Op>,
    at: Seq<int>,
    a: Seq<Seq<char>>,
    b: Seq<Seq<char>>,
) -> bool {
    &&& linediff::script(ops, a, b)
    &&& linediff::solid(ops)
    &&& linediff::clustered_at(groups, ops, at, CONTEXT as nat)
    &&& forall|g: int| 0 <= g < groups.len() ==> linediff::has_change(#[trigger] groups[g])
}

/// Whether the lines `p..q` of the old text are those of the new one from
/// `p + shift` on, being within one step that leaves its lines alone.
spec fn stays(ops: Seq<Op>, m: int, p: int, q: int, shift: int) -> bool {
    &&& 0 <= m < ops.len()
    &&& ops[m].tag is Equal
    &&& ops[m].old_start <= p <= q <= ops[m].old_start + ops[m].old_len
    &&& ops[m].new_start == ops[m].old_start + shift
}

/// Between two clusters there is a gap of lines that stay.
proof fn lemma_gap(
    groups: Seq<Seq<Op>>,
    ops: Seq<Op>,
    at: Seq<int>,
    a: Seq<Seq<char>>,
    b: Seq<Seq<char>>,
    g: int,
)
    requires
        in_clusters(groups, ops, at, a, b),
        0 < g < groups.len(),
    ensures
        ({
            let p = end_of(groups, ops, at, g - 1, true);
            let q = begin_of(groups, ops, at, g, true);
            let shift = begin_of(groups, ops, at, g, false) - q;
            &&& p < q
            &&& end_of(groups, ops, at, g - 1, false) == p + shift
            &&& stays(ops, at[g], p, q, shift)
        }),
        groups[g].len() > 0,
        groups[g][0].tag is Equal,
        groups[g][0].old_len > 0,
{
    let before = groups[g - 1];
    let group = groups[g];
    let m = at[g];
    assert(linediff::follows(groups, at, g));
    assert(linediff::slice_at(groups[g - 1], ops, at[g - 1]));
    assert(linediff::slice_at(groups[g], ops, at[g]));
    assert(linediff::has_change(groups[g - 1]));
    assert(linediff::has_change(groups[g]));
    assert(linediff::keeps_context(groups[g - 1], ops, at[g - 1], CONTEXT as nat));
    assert(linediff::keeps_context(groups[g], ops, at[g], CONTEXT as nat));
    lemma_cluster_rows(before, ops, at[g - 1]);
    lemma_cluster_rows(group, ops, m);
    let k = before.len() - 1;
    assert(linediff::part_of(before[k], ops[at[g - 1] + k]));
    assert(linediff::part_of(group[0], ops[m + 0]));
    lemma_tail_stays(before, ops, at[g - 1], a, b, CONTEXT as nat, true);
    lemma_tail_stays(before, ops, at[g - 1], a, b, CONTEXT as nat, false);
    lemma_head_stays(group, ops, m, a, b, CONTEXT as nat, true);
    lemma_head_stays(group, ops, m, a, b, CONTEXT as nat, false);
}

/// Before the first cluster there are only lines that stay.
proof fn lemma_first_gap(
    groups: Seq<Seq<Op>>,
    ops: Seq<Op>,
    at: Seq<int>,
    a: Seq<Seq<char>>,
    b: Seq<Seq<char>>,
)
    requires
        in_clusters(groups, ops, at, a, b),
        groups.len() > 0,
    ensures
        ({
            let q = begin_of(groups, ops, at, 0, true);
            &&& begin_of(groups, ops, at, 0, false) == q
            &&& q == 0 || stays(ops, 0, 0, q, 0)
        }),
{
    let group = groups[0];
    assert(linediff::slice_at(groups[0], ops, at[0]));
    assert(linediff::has_change(groups[0]));
    assert(linediff::keeps_context(groups[0], ops, at[0], CONTEXT as nat));
    lemma_cluster_rows(group, ops, 0);
    if group[0].tag is Equal {
        lemma_head_stays(group, ops, 0, a, b, CONTEXT as nat, true);
        lemma_head_stays(group, ops, 0, a, b, CONTEXT as nat, false);
        lemma_start(ops, a, b, 0, true);
        lemma_start(ops, a, b, 0, false);
        assert(ops.take(0) =~= Seq::empty());
    } else {
        lemma_head_changes(group, ops, true);
        lemma_head_changes(group, ops, false);
    }
}

/// After the last cluster there are only lines that stay.
proof fn lemma_last_gap(
    groups: Seq<Seq<Op>>,
    ops: Seq<Op>,
    at: Seq<int>,
    a: Seq<Seq<char>>,
    b: Seq<Seq<char>>,
)
    requires
        in_clusters(groups, ops, at, a, b),
        groups.len() > 0,
    ensures
        ({
            let p = end_of(groups, ops, at, groups.len() - 1, true);
            let shift = b.len() - a.len();
            &&& end_of(groups, ops, at, groups.len() - 1, false) == p + shift
            &&& p == a.len() || stays(ops, ops.len() - 1, p, a.len() as int, shift)
        }),
{
    let g = groups.len() - 1;
    let group = groups[g];
    let m = at[g];
    assert(linediff::slice_at(groups[g], ops, at[g]));
    assert(linediff::has_change(groups[g]));
    assert(linediff::keeps_context(groups[g], ops, at[g], CONTEXT as nat));
    lemma_cluster_rows(group, ops, m);
    lemma_reach(ops, a, b, true);
    lemma_reach(ops, a, b, false);
    if group.last().tag is Equal {
        lemma_tail_stays(group, ops, m, a, b, CONTEXT as nat, true);
        lemma_tail_stays(group, ops, m, a, b, CONTEXT as nat, false);
        let k = ops.len() - 1;
        lemma_equal_len(ops, a, b, k);
        lemma_start(ops, a, b, k, true);
        lemma_start(ops, a, b, k, false);
        assert(ops.take(k) =~= ops.drop_last());
    } else {
        lemma_tail_changes(group, ops, m, a, b, true);
        lemma_tail_changes(group, ops, m, a, b, false);
    }
}

/// Some lines without their terminators.
pub open spec fn bodies(lines: Seq<Seq<char>>) -> Seq<Seq<char>> {
    lines.map_values(|line: Seq<char>| line_body(line))
}

/// The lines that `rows` have on the new side.
pub open spec fn after_side(rows: Seq<Row>) -> Seq<Seq<char>>
    decreases rows.len(),
{
    if rows.len() == 0 {
        Seq::empty()
    } else if rows.last().kind is Delete {
        after_side(rows.drop_last())
    } else {
        after_side(rows.drop_last()).push(linediff::pieces_text(rows.last().segments@))
    }
}

/// How many old lines stand before a hunk, as its header gives it. That of a
/// hunk without old lines names the line before it.
pub open spec fn lines_before(h: Hunk) -> int {
    if h.old_len == 0 {
        h.old_start as int
    } else {
        h.old_start - 1
    }
}

/// What a patch makes of some lines: each hunk puts its lines in the place of
/// those its header names.
pub open spec fn patched(lines: Seq<Seq<char>>, hunks: Seq<Hunk>) -> Seq<Seq<char>>
    decreases hunks.len(),
{
    if hunks.len() == 0 {
        lines
    } else {
        let h = hunks.last();
        let n = lines_before(h);
        patched(lines.take(n), hunks.drop_last()) + after_side(h.rows@) + lines.skip(n + h.old_len)
    }
}

proof fn lemma_after_side(
    rows: Seq<Row>,
    group: Seq<Op>,
    ops: Seq<Op>,
    m: int,
    a: Seq<Seq<char>>,
    b: Seq<Seq<char>>,
    n: int,
)
    requires
        0 <= n <= rows.len() <= rows_in(group),
        are_rows(rows, group, a, b),
        forall|i: int| 0 <= i < rows.len() ==> shows_its_lines(#[trigger] rows[i], a, b),
        linediff::slice_at(group, ops, m),
        linediff::script(ops, a, b),
    ensures
        after_side(rows.take(n)).len() == numbers_on(rows.take(n), false).len(),
        after_side(rows.take(n)).len() > 0 ==> 0 <= origin(group, ops, m, false) <= b.len()
            - after_side(rows.take(n)).len(),
        forall|i: int|
            0 <= i < after_side(rows.take(n)).len() ==> #[trigger] after_side(rows.take(n))[i]
                == line_body(b[origin(group, ops, m, false) + i]),
    decreases n,
{
    let nos = rows.take(n).map_values(|r: Row| number_on(r, false));
    if n == 0 {
        assert(nos =~= Seq::empty());
        assert(after_side(rows.take(n)) =~= Seq::empty());
    } else {
        lemma_after_side(rows, group, ops, m, a, b, n - 1);
        lemma_numbers(rows, group, ops, m, a, b, n, false);
        let before = rows.take(n - 1).map_values(|r: Row| number_on(r, false));
        assert(nos.drop_last() =~= before);
        assert(rows.take(n).drop_last() =~= rows.take(n - 1));
        let row = rows[n - 1];
        assert(rows.take(n).last() == row);
        assert(nos.last() == number_on(row, false));
        assert(shows_its_lines(row, a, b));
        let s = slot(group, n - 1);
        assert(is_row(rows[n - 1], s.0, s.1, a, b));
        if row.new_no is Some {
            let k = numbers_on(rows.take(n), false).len() - 1;
            assert(numbers_on(rows.take(n), false)[k] == row.new_no->0);
        }
        let all = after_side(rows.take(n));
        let from = origin(group, ops, m, false);
        assert forall|i: int| 0 <= i < all.len() implies #[trigger] all[i] == line_body(
            b[from + i],
        ) by {
            if i < after_side(rows.take(n - 1)).len() {
                assert(all[i] == after_side(rows.take(n - 1))[i]);
            }
        }
    }
}

/// A whole hunk holds the lines of the new text from where its cluster begins
/// to where it ends, and its header names those of the old one.
proof fn lemma_whole_hunk(
    h: Hunk,
    group: Seq<Op>,
    room: int,
    ops: Seq<Op>,
    m: int,
    a: Seq<Seq<char>>,
    b: Seq<Seq<char>>,
)
    requires
        is_hunk(h, group, room, a, b),
        rows_in(group) <= room,
        linediff::slice_at(group, ops, m),
        linediff::script(ops, a, b),
        forall|k: int|
            0 <= k < group.len() ==> linediff::fits(#[trigger] group[k], a.len(), b.len()),
    ensures
        h.old_len == reach(group, true),
        h.new_len == reach(group, false),
        h.old_len > 0 ==> h.old_start == origin(group, ops, m, true) + 1,
        h.new_len > 0 ==> h.new_start == origin(group, ops, m, false) + 1,
        h.old_len == 0 ==> h.old_start == 0,
        after_side(h.rows@).len() == reach(group, false),
        after_side(h.rows@).len() > 0 ==> 0 <= origin(group, ops, m, false) <= b.len()
            - after_side(h.rows@).len(),
        forall|i: int|
            0 <= i < after_side(h.rows@).len() ==> #[trigger] after_side(h.rows@)[i] == line_body(
                b[origin(group, ops, m, false) + i],
            ),
{
    let n = h.rows@.len() as int;
    lemma_hunk_lines(h, group, room, ops, m, a, b);
    lemma_numbers(h.rows@, group, ops, m, a, b, n, true);
    lemma_numbers(h.rows@, group, ops, m, a, b, n, false);
    lemma_after_side(h.rows@, group, ops, m, a, b, n);
    assert(h.rows@.take(n) =~= h.rows@);
    lemma_header(h);
    assert forall|k: int| 0 <= k < group.len() && (#[trigger] group[k]).tag is Equal implies group[
        k
    ].old_len == group[k].new_len by {}
    lemma_seen_all(group, true);
    lemma_seen_all(group, false);
    if h.old_len > 0 {
        assert(numbers_on(h.rows@.take(n), true)[0] == origin(group, ops, m, true) + 1);
    }
    if h.new_len > 0 {
        assert(numbers_on(h.rows@.take(n), false)[0] == origin(group, ops, m, false) + 1);
    }
}

proof fn lemma_header(h: Hunk)
    ensures
        old_numbers(h.rows@) == numbers_on(h.rows@, true),
        new_numbers(h.rows@) == numbers_on(h.rows@, false),
{
    assert(h.rows@.map_values(|r: Row| r.old_no) =~= h.rows@.map_values(
        |r: Row| number_on(r, true),
    ));
    assert(h.rows@.map_values(|r: Row| r.new_no) =~= h.rows@.map_values(
        |r: Row| number_on(r, false),
    ));
}

/// Lines of a step that leaves them alone are the same in both texts.
proof fn lemma_stays(
    ops: Seq<Op>,
    a: Seq<Seq<char>>,
    b: Seq<Seq<char>>,
    m: int,
    p: int,
    q: int,
    shift: int,
)
    requires
        linediff::script(ops, a, b),
        stays(ops, m, p, q, shift),
    ensures
        p < q ==> q <= a.len() && 0 <= p + shift && q + shift <= b.len(),
        forall|i: int| p <= i < q ==> #[trigger] bodies(a)[i] == bodies(b)[i + shift],
{
    if p < q {
        lemma_equal_line(ops, a, b, m, q - 1 - ops[m].old_start);
    }
    assert forall|i: int| p <= i < q implies #[trigger] bodies(a)[i] == bodies(b)[i + shift] by {
        lemma_equal_line(ops, a, b, m, i - ops[m].old_start);
    }
}

proof fn lemma_reach_of_step(ops: Seq<Op>, k: int, old_side: bool)
    requires
        0 <= k < ops.len(),
    ensures
        len_on(ops[k], old_side) <= reach(ops, old_side),
    decreases ops.len(),
{
    if k < ops.len() - 1 {
        lemma_reach_of_step(ops.drop_last(), k, old_side);
        assert(ops.drop_last()[k] == ops[k]);
    }
}

/// A cluster without old lines begins where the texts do.
proof fn lemma_place(
    groups: Seq<Seq<Op>>,
    ops: Seq<Op>,
    at: Seq<int>,
    a: Seq<Seq<char>>,
    b: Seq<Seq<char>>,
    g: int,
)
    requires
        in_clusters(groups, ops, at, a, b),
        0 <= g < groups.len(),
    ensures
        reach(groups[g], true) == 0 ==> begin_of(groups, ops, at, g, true) == 0,
{
    let group = groups[g];
    assert(linediff::slice_at(groups[g], ops, at[g]));
    assert(linediff::has_change(groups[g]));
    assert(linediff::keeps_context(groups[g], ops, at[g], CONTEXT as nat));
    lemma_cluster_rows(group, ops, at[g]);
    lemma_reach_of_step(group, 0, true);
    if g > 0 {
        lemma_gap(groups, ops, at, a, b, g);
    } else if group[0].tag is Equal {
        lemma_head_stays(group, ops, 0, a, b, CONTEXT as nat, true);
    } else {
        lemma_head_changes(group, ops, true);
    }
}

proof fn lemma_all_stay(ops: Seq<Op>, a: Seq<Seq<char>>, b: Seq<Seq<char>>)
    requires
        linediff::script(ops, a, b),
        linediff::changing(ops).len() == 0,
    ensures
        a == b,
    decreases ops.len(),
{
    reveal(Seq::filter);
    if ops.len() > 0 {
        let op = ops.last();
        let p = a.len() - op.old_len;
        let q = b.len() - op.new_len;
        lemma_all_stay(ops.drop_last(), a.take(p), b.take(q));
        assert(a =~= a.take(p) + a.skip(p));
        assert(b =~= b.take(q) + b.skip(q));
    } else {
        assert(a =~= b);
    }
}

/// The first `n` hunks make the new text of the old one up to `y`, which is
/// not past the lines that stay after them.
#[verifier::spinoff_prover]
#[verifier::rlimit(40)]
proof fn lemma_patched(
    hunks: Seq<Hunk>,
    groups: Seq<Seq<Op>>,
    ops: Seq<Op>,
    at: Seq<int>,
    a: Seq<Seq<char>>,
    b: Seq<Seq<char>>,
    n: int,
    y: int,
)
    requires
        in_clusters(groups, ops, at, a, b),
        are_hunks(hunks, groups, a, b),
        forall|g: int| 0 <= g < groups.len() ==> !#[trigger] cut_at(groups, g),
        forall|g: int, k: int|
            0 <= g < groups.len() && 0 <= k < groups[g].len() ==> linediff::fits(
                #[trigger] groups[g][k],
                a.len(),
                b.len(),
            ),
        0 <= n <= hunks.len() == groups.len(),
        groups.len() > 0,
        y == if n < groups.len() {
            begin_of(groups, ops, at, n, true)
        } else {
            a.len() as int
        },
    ensures
        0 <= y <= a.len(),
        ({
            let z = if n < groups.len() {
                begin_of(groups, ops, at, n, false)
            } else {
                b.len() as int
            };
            0 <= z <= b.len() && patched(bodies(a).take(y), hunks.take(n)) == bodies(b).take(z)
        }),
    decreases n,
{
    let z = if n < groups.len() {
        begin_of(groups, ops, at, n, false)
    } else {
        b.len() as int
    };
    let old_part = bodies(a).take(y);
    if n == 0 {
        lemma_first_gap(groups, ops, at, a, b);
        if y > 0 {
            lemma_stays(ops, a, b, 0, 0, y, 0);
        }
        assert(old_part =~= bodies(b).take(z));
    } else {
        let g = n - 1;
        let h = hunks[g];
        let group = groups[g];
        let m = at[g];
        let from = begin_of(groups, ops, at, g, true);
        let from_new = begin_of(groups, ops, at, g, false);
        let to = end_of(groups, ops, at, g, true);
        let to_new = end_of(groups, ops, at, g, false);
        lemma_patched(hunks, groups, ops, at, a, b, g, from);
        assert(!cut_at(groups, g));
        assert(is_hunk(h, group, MAX_LINES - rows_total(groups.take(g)), a, b));
        assert(linediff::slice_at(groups[g], ops, at[g]));
        assert(linediff::has_change(groups[g]));
        lemma_cluster_rows(group, ops, m);
        assert forall|k: int| 0 <= k < group.len() implies linediff::fits(
            #[trigger] group[k],
            a.len(),
            b.len(),
        ) by {
            assert(linediff::fits(groups[g][k], a.len(), b.len()));
        }
        lemma_whole_hunk(h, group, MAX_LINES - rows_total(groups.take(g)), ops, m, a, b);
        lemma_place(groups, ops, at, a, b, g);
        assert(lines_before(h) == from);
        let shift = z - y;
        if n < groups.len() {
            lemma_gap(groups, ops, at, a, b, n);
            lemma_stays(ops, a, b, at[n], to, y, shift);
        } else {
            lemma_last_gap(groups, ops, at, a, b);
            if to < a.len() {
                lemma_stays(ops, a, b, ops.len() - 1, to, y, shift);
            }
        }
        assert(to_new == to + shift);
        assert(hunks.take(n).drop_last() =~= hunks.take(g));
        assert(old_part.take(from) =~= bodies(a).take(from));
        let done = patched(bodies(a).take(from), hunks.take(g)) + after_side(h.rows@)
            + old_part.skip(to);
        assert(patched(old_part, hunks.take(n)) == done);
        assert(done.len() == z);
        assert forall|i: int| 0 <= i < z implies #[trigger] done[i] == bodies(b)[i] by {
            if i < from_new {
            } else if i < to_new {
                assert(done[i] == after_side(h.rows@)[i - from_new]);
            } else {
                assert(done[i] == bodies(a)[i - shift]);
            }
        }
        assert(done =~= bodies(b).take(z));
    }
}

/// A diff that is not cut is a patch: its hunks, put in the place of the lines
/// that their headers name, make the new text of the old one, line by line.
pub proof fn law_an_uncut_diff_is_a_patch(
    r: DiffResult,
    old_text: Seq<char>,
    new_text: Seq<char>,
)
    requires
        compares(r, old_text, new_text),
        !r.truncated,
    ensures
        patched(bodies(linediff::lines(old_text)), r.hunks@) == bodies(linediff::lines(new_text)),
{
    if old_text != new_text {
        let ops = linediff::line_ops(old_text, new_text);
        let groups = linediff::clusters(ops, CONTEXT as nat);
        let a = linediff::lines(old_text);
        let b = linediff::lines(new_text);
        let n = groups.len() as int;
        let at = choose|at: Seq<int>| #[trigger]
            linediff::clustered_at(groups, ops, at, CONTEXT as nat);
        lemma_uncut(r.hunks@, groups, a, b, n);
        if n == 0 {
            reveal(Seq::filter);
            assert(linediff::all_steps(groups) =~= Seq::empty());
            lemma_all_stay(ops, a, b);
        } else {
            lemma_patched(r.hunks@, groups, ops, at, a, b, n, a.len() as int);
            assert(r.hunks@.take(n) =~= r.hunks@);
            assert(bodies(a).take(a.len() as int) =~= bodies(a));
            assert(bodies(b).take(b.len() as int) =~= bodies(b));
        }
    }
}

/// A cluster ends before any later one begins.
proof fn lemma_ordered(
    groups: Seq<Seq<Op>>,
    ops: Seq<Op>,
    at: Seq<int>,
    a: Seq<Seq<char>>,
    b: Seq<Seq<char>>,
    g: int,
    k: int,
    old_side: bool,
)
    requires
        in_clusters(groups, ops, at, a, b),
        0 <= g < k < groups.len(),
    ensures
        end_of(groups, ops, at, g, old_side) < begin_of(groups, ops, at, k, old_side),
    decreases k - g,
{
    lemma_gap(groups, ops, at, a, b, k);
    if g < k - 1 {
        lemma_ordered(groups, ops, at, a, b, g, k - 1, old_side);
    }
}

proof fn lemma_seen_bound(ops: Seq<Op>, i: int, old_side: bool)
    requires
        0 <= i <= rows_in(ops),
        forall|k: int|
            0 <= k < ops.len() && (#[trigger] ops[k]).tag is Equal ==> ops[k].old_len
                == ops[k].new_len,
    ensures
        seen(ops, i, old_side) <= reach(ops, old_side),
    decreases ops.len(),
{
    if ops.len() > 0 {
        let rest = ops.drop_last();
        assert(ops.last() == ops[ops.len() - 1]);
        if i < rows_in(rest) {
            assert forall|k: int| 0 <= k < rest.len() && (
            #[trigger] rest[k]).tag is Equal implies rest[k].old_len == rest[k].new_len by {
                assert(rest[k] == ops[k]);
            }
            lemma_seen_bound(rest, i, old_side);
        }
    }
}

/// The header of a hunk begins where its cluster does, and goes no further.
proof fn lemma_hunk_begin(
    h: Hunk,
    group: Seq<Op>,
    room: int,
    ops: Seq<Op>,
    m: int,
    a: Seq<Seq<char>>,
    b: Seq<Seq<char>>,
)
    requires
        is_hunk(h, group, room, a, b),
        linediff::slice_at(group, ops, m),
        linediff::script(ops, a, b),
    ensures
        h.old_len <= reach(group, true),
        h.new_len <= reach(group, false),
        h.old_len > 0 ==> h.old_start == origin(group, ops, m, true) + 1,
        h.new_len > 0 ==> h.new_start == origin(group, ops, m, false) + 1,
{
    let n = h.rows@.len() as int;
    assert forall|k: int| 0 <= k < group.len() && (#[trigger] group[k]).tag is Equal implies group[
        k
    ].old_len == group[k].new_len by {
        assert(linediff::part_of(group[k], ops[m + k]));
    }
    lemma_numbers(h.rows@, group, ops, m, a, b, n, true);
    lemma_numbers(h.rows@, group, ops, m, a, b, n, false);
    lemma_seen_bound(group, n, true);
    lemma_seen_bound(group, n, false);
    assert(h.rows@.take(n) =~= h.rows@);
    lemma_header(h);
    if h.old_len > 0 {
        assert(numbers_on(h.rows@.take(n), true)[0] == origin(group, ops, m, true) + 1);
    }
    if h.new_len > 0 {
        assert(numbers_on(h.rows@.take(n), false)[0] == origin(group, ops, m, false) + 1);
    }
}

/// No hunk is empty.
pub proof fn law_no_hunk_is_empty(
    r: DiffResult,
    old_text: Seq<char>,
    new_text: Seq<char>,
    g: int,
)
    requires
        compares(r, old_text, new_text),
        0 <= g < r.hunks@.len(),
    ensures
        r.hunks@[g].rows@.len() > 0,
{
    let ops = linediff::line_ops(old_text, new_text);
    let groups = linediff::clusters(ops, CONTEXT as nat);
    let at = choose|at: Seq<int>| #[trigger]
        linediff::clustered_at(groups, ops, at, CONTEXT as nat);
    assert(linediff::slice_at(groups[g], ops, at[g]));
    assert(linediff::has_change(groups[g]));
    lemma_cluster_rows(groups[g], ops, at[g]);
    assert(is_hunk(
        r.hunks@[g],
        groups[g],
        MAX_LINES - rows_total(groups.take(g)),
        linediff::lines(old_text),
        linediff::lines(new_text),
    ));
    assert(rows_total(groups.take(g)) < MAX_LINES);
}

/// The hunks come in order: on either side the lines of one end before those
/// of a later one begin.
pub proof fn law_hunks_come_in_order(
    r: DiffResult,
    old_text: Seq<char>,
    new_text: Seq<char>,
    g: int,
    k: int,
)
    requires
        compares(r, old_text, new_text),
        0 <= g < k < r.hunks@.len(),
    ensures
        r.hunks@[g].old_len > 0 && r.hunks@[k].old_len > 0 ==> r.hunks@[g].old_start
            + r.hunks@[g].old_len < r.hunks@[k].old_start,
        r.hunks@[g].new_len > 0 && r.hunks@[k].new_len > 0 ==> r.hunks@[g].new_start
            + r.hunks@[g].new_len < r.hunks@[k].new_start,
{
    let ops = linediff::line_ops(old_text, new_text);
    let groups = linediff::clusters(ops, CONTEXT as nat);
    let a = linediff::lines(old_text);
    let b = linediff::lines(new_text);
    let at = choose|at: Seq<int>| #[trigger]
        linediff::clustered_at(groups, ops, at, CONTEXT as nat);
    assert(linediff::slice_at(groups[g], ops, at[g]));
    assert(linediff::slice_at(groups[k], ops, at[k]));
    let room_g = MAX_LINES - rows_total(groups.take(g));
    let room_k = MAX_LINES - rows_total(groups.take(k));
    assert(is_hunk(r.hunks@[g], groups[g], room_g, a, b));
    assert(is_hunk(r.hunks@[k], groups[k], room_k, a, b));
    lemma_hunk_begin(r.hunks@[g], groups[g], room_g, ops, at[g], a, b);
    lemma_hunk_begin(r.hunks@[k], groups[k], room_k, ops, at[k], a, b);
    lemma_ordered(groups, ops, at, a, b, g, k, true);
    lemma_ordered(groups, ops, at, a, b, g, k, false);
}

/// Where lines are replaced and all of them are shown, no word is marked, or
/// the marks tell the changed words: without them the old and the new lines
/// have the same text.
pub proof fn law_unmarked_words_are_in_both_texts(
    r: DiffResult,
    old_text: Seq<char>,
    new_text: Seq<char>,
    g: int,
    t: int,
)
    requires
        compares(r, old_text, new_text),
        0 <= g < r.hunks@.len(),
        ({
            let groups = linediff::clusters(
                linediff::line_ops(old_text, new_text),
                CONTEXT as nat,
            );
            &&& 0 <= t < groups[g].len()
            &&& rows_in(groups[g].take(t + 1)) <= r.hunks@[g].rows@.len()
        }),
    ensures
        ({
            let group = linediff::clusters(
                linediff::line_ops(old_text, new_text),
                CONTEXT as nat,
            )[g];
            let lines = row_marks(block(r.hunks@[g].rows@, group, t));
            let n = group[t].old_len as int;
            linediff::unmarked_lines(lines) || linediff::plain_text_of(lines.take(n))
                == linediff::plain_text_of(lines.skip(n))
        }),
{
    let groups = linediff::clusters(linediff::line_ops(old_text, new_text), CONTEXT as nat);
    assert(is_hunk(
        r.hunks@[g],
        groups[g],
        MAX_LINES - rows_total(groups.take(g)),
        linediff::lines(old_text),
        linediff::lines(new_text),
    ));
    assert(block_tells_words(r.hunks@[g].rows@, groups[g], t));
}

/// Whether a file is plain text: valid UTF-8 without a zero byte among its
/// first 8192.
pub open spec fn plain_text(bytes: Seq<u8>) -> bool {
    &&& vstd::utf8::valid_utf8(bytes)
    &&& forall|i: int| 0 <= i < bytes.len() && i < 8192 ==> (#[trigger] bytes[i]) != 0
}

/// An edit of plain text is compared line by line, whatever bytes but zero it
/// has: it is a change, a new file or a deleted one, and never binary.
pub proof fn law_plain_text_is_never_binary(
    r: DiffResult,
    old_file: Option<Vec<u8>>,
    new_file: Option<Seq<u8>>,
)
    requires
        old_file is Some || new_file is Some,
        old_file matches Some(o) ==> plain_text(o@),
        new_file matches Some(n) ==> plain_text(n),
        shows_edit(
            r,
            match old_file {
                Some(o) => Before::Content(o),
                None => Before::Absent,
            },
            new_file,
        ),
    ensures
        compares(
            r,
            match old_file {
                Some(o) => vstd::utf8::decode_utf8(o@),
                None => Seq::empty(),
            },
            match new_file {
                Some(n) => vstd::utf8::decode_utf8(n),
                None => Seq::empty(),
            },
        ),
        old_file is Some && new_file is Some ==> r.kind is Modified,
        old_file is None ==> r.kind is Created,
        new_file is None ==> r.kind is Deleted,
{
    if let Some(o) = old_file {
        lemma_plain_text(o@);
    }
    if let Some(n) = new_file {
        lemma_plain_text(n);
    }
}

proof fn lemma_plain_text(bytes: Seq<u8>)
    ensures
        plain_text(bytes) <==> !binary(bytes),
{
    if binary(bytes) && vstd::utf8::valid_utf8(bytes) {
        let i = choose|i: int|
            0 <= i < bytes.len() && i < BINARY_PROBE && #[trigger] bytes[i] == 0;
        assert(bytes[i] == 0);
    }
    if !plain_text(bytes) && vstd::utf8::valid_utf8(bytes) {
        let i = choose|i: int| 0 <= i < bytes.len() && i < 8192 && (#[trigger] bytes[i]) == 0;
        assert(bytes[i] == 0 && i < BINARY_PROBE);
    }
}

/// A file that is not plain text on either side is shown as binary, with no
/// rows.
pub proof fn law_what_is_not_text_is_binary(
    r: DiffResult,
    old_file: Option<Vec<u8>>,
    new_file: Option<Seq<u8>>,
)
    requires
        (old_file matches Some(o) && !plain_text(o@)) || (new_file matches Some(n) && !plain_text(
            n,
        )),
        shows_edit(
            r,
            match old_file {
                Some(o) => Before::Content(o),
                None => Before::Absent,
            },
            new_file,
        ),
    ensures
        r.kind is Binary,
        r.hunks@.len() == 0,
        r.added == 0,
        r.removed == 0,
        !r.truncated,
{
    if let Some(o) = old_file {
        lemma_plain_text(o@);
    }
    if let Some(n) = new_file {
        lemma_plain_text(n);
    }
}

/// Without a snapshot the strings of an edit are compared, under the reason
/// why; without those only the reason is shown. A file that is on neither side
/// is missing.
pub proof fn law_edits_without_a_snapshot(
    r: DiffResult,
    old_text: String,
    new_text: String,
    note: String,
    after: Option<Seq<u8>>,
)
    ensures
        shows_edit(r, Before::Synthetic { old: old_text, new: new_text, note }, after) ==> r.kind
            == DiffKind::Error(note) && compares(r, old_text@, new_text@),
        shows_edit(r, Before::Unavailable(note), after) ==> r.hunks@.len() == 0 && (if after is Some {
            r.kind == DiffKind::Error(note)
        } else {
            r.kind is Missing
        }),
        shows_edit(r, Before::Absent, None) ==> r.kind is Missing && r.hunks@.len() == 0,
{
}

/// One terminator at the end of a text is taken off, be it a line feed, a
/// carriage return or both, and nothing else.
pub proof fn law_one_terminator_is_taken_off(s: Seq<char>)
    requires
        s.len() > 0 ==> !linediff::newline(s.last()),
    ensures
        body(s) == s,
        body(s.push('\n')) == s,
        body(s.push('\r')) == s,
        body(s.push('\r').push('\n')) == s,
        body(s.push('\n').push('\n')) == s.push('\n'),
{
    assert(s.push('\n').take(s.len() as int) =~= s);
    assert(s.push('\r').take(s.len() as int) =~= s);
    assert(s.push('\r').push('\n').take(s.len() as int) =~= s);
    assert(s.push('\n').push('\n').take(s.len() as int + 1) =~= s.push('\n'));
}

/// A diff has at most 500 rows, and is cut exactly when there would be more;
/// the rest is counted.
pub proof fn law_a_diff_has_at_most_500_rows(
    r: DiffResult,
    old_text: Seq<char>,
    new_text: Seq<char>,
)
    requires
        compares(r, old_text, new_text),
    ensures
        all_rows(r.hunks@).len() <= 500,
        r.truncated <==> r.total_rows > 500,
        r.truncated ==> all_rows(r.hunks@).len() == 500,
        !r.truncated ==> all_rows(r.hunks@).len() == r.total_rows,
{
    law_rows_are_kept_up_to_the_limit(r, old_text, new_text);
}

/// Equal texts have no hunks, and different ones at least one.
pub proof fn law_only_different_texts_have_hunks(
    r: DiffResult,
    old_text: Seq<char>,
    new_text: Seq<char>,
)
    requires
        compares(r, old_text, new_text),
    ensures
        old_text == new_text ==> r.hunks@.len() == 0 && r.added == 0 && r.removed == 0,
        r.added > 0 || r.removed > 0 ==> r.hunks@.len() > 0,
{
    if old_text != new_text && r.hunks@.len() == 0 {
        let ops = linediff::line_ops(old_text, new_text);
        let groups = linediff::clusters(ops, CONTEXT as nat);
        if groups.len() > 0 {
            assert(groups.take(0) =~= Seq::empty());
            assert(rows_total(groups.take(0)) < MAX_LINES);
        }
        assert(linediff::all_steps(groups) =~= Seq::empty());
        lemma_changing_sums(linediff::all_steps(groups));
        lemma_changing_sums(ops);
    }
}

/// How many rows at the start of a hunk are context.
pub open spec fn leading(rows: Seq<Row>) -> nat
    decreases rows.len(),
{
    if rows.len() == 0 || rows[0].kind !is Equal {
        0
    } else {
        1 + leading(rows.skip(1))
    }
}

proof fn lemma_leading(rows: Seq<Row>, n: int)
    requires
        0 <= n <= rows.len(),
        forall|i: int| 0 <= i < n ==> (#[trigger] rows[i]).kind is Equal,
        n < rows.len() ==> rows[n].kind !is Equal,
    ensures
        leading(rows) == n,
    decreases n,
{
    if n > 0 {
        let rest = rows.skip(1);
        assert(rows[0].kind is Equal);
        assert forall|i: int| 0 <= i < n - 1 implies (#[trigger] rest[i]).kind is Equal by {
            assert(rest[i] == rows[i + 1]);
        }
        if n < rows.len() {
            assert(rest[n - 1] == rows[n]);
        }
        lemma_leading(rest, n - 1);
    }
}

proof fn lemma_first_slots(ops: Seq<Op>, i: int)
    requires
        ops.len() > 0,
        0 <= i < rows_in(ops),
    ensures
        i < linediff::row_count(ops[0]) ==> slot(ops, i) == (ops[0], i),
        ops.len() > 1 && linediff::row_count(ops[0]) <= i < linediff::row_count(ops[0])
            + linediff::row_count(ops[1]) ==> slot(ops, i) == (
            ops[1],
            i - linediff::row_count(ops[0]),
        ),
    decreases ops.len(),
{
    let rest = ops.drop_last();
    if ops.len() == 1 {
        assert(rows_in(rest) == 0);
    } else {
        assert(rest[0] == ops[0]);
        lemma_rows_of_step(rest, 0);
        if ops.len() == 2 {
            assert(rest.drop_last() =~= Seq::empty());
            assert(rows_in(rest.drop_last()) == 0);
            assert(rows_in(rest) == linediff::row_count(ops[0]));
            if i < rows_in(rest) {
                lemma_first_slots(rest, i);
            }
        } else {
            assert(rest[1] == ops[1]);
            lemma_two_steps(rest);
            if i < rows_in(rest) {
                lemma_first_slots(rest, i);
            }
        }
    }
}

proof fn lemma_two_steps(ops: Seq<Op>)
    requires
        ops.len() >= 2,
    ensures
        rows_in(ops) >= linediff::row_count(ops[0]) + linediff::row_count(ops[1]),
    decreases ops.len(),
{
    let rest = ops.drop_last();
    if ops.len() == 2 {
        assert(rest.drop_last() =~= Seq::empty());
        assert(rows_in(rest.drop_last()) == 0);
        assert(rest.last() == ops[0]);
    } else {
        assert(rest[0] == ops[0] && rest[1] == ops[1]);
        lemma_two_steps(rest);
    }
}

/// A hunk begins with three lines of context, or with as many as there are
/// before the change: with fewer it begins where the texts do.
pub proof fn law_a_hunk_begins_with_three_lines_of_context(
    r: DiffResult,
    old_text: Seq<char>,
    new_text: Seq<char>,
    g: int,
)
    requires
        compares(r, old_text, new_text),
        0 <= g < r.hunks@.len(),
    ensures
        leading(r.hunks@[g].rows@) <= 3,
        leading(r.hunks@[g].rows@) < 3 && leading(r.hunks@[g].rows@) < r.hunks@[g].rows@.len()
            ==> r.hunks@[g].old_start <= 1 && r.hunks@[g].new_start <= 1,
{
    let ops = linediff::line_ops(old_text, new_text);
    let groups = linediff::clusters(ops, CONTEXT as nat);
    let a = linediff::lines(old_text);
    let b = linediff::lines(new_text);
    let at = choose|at: Seq<int>| #[trigger]
        linediff::clustered_at(groups, ops, at, CONTEXT as nat);
    let h = r.hunks@[g];
    let rows = h.rows@;
    let group = groups[g];
    let m = at[g];
    let room = MAX_LINES - rows_total(groups.take(g));
    assert(is_hunk(h, group, room, a, b));
    assert(linediff::slice_at(groups[g], ops, at[g]));
    assert(linediff::has_change(groups[g]));
    assert(linediff::alternates(groups[g]));
    assert(linediff::keeps_context(groups[g], ops, at[g], CONTEXT as nat));
    lemma_cluster_rows(group, ops, m);
    lemma_hunk_begin(h, group, room, ops, m, a, b);
    lemma_header_starts(h);
    assert(linediff::part_of(group[0], ops[m + 0]));
    if group[0].tag is Equal {
        let n = group[0].old_len as int;
        assert(group.len() > 1) by {
            if group.len() == 1 {
                let k = choose|k: int| 0 <= k < group.len() && (#[trigger] group[k]).tag !is Equal;
                assert(k == 0);
            }
        }
        assert(!linediff::both_stay(group, 1));
        assert(linediff::part_of(group[1], ops[m + 1]));
        lemma_two_steps(group);
        let shown = if rows.len() < n {
            rows.len() as int
        } else {
            n
        };
        assert forall|i: int| 0 <= i < shown implies (#[trigger] rows[i]).kind is Equal by {
            lemma_first_slots(group, i);
            assert(is_row(rows[i], slot(group, i).0, slot(group, i).1, a, b));
        }
        if shown < rows.len() {
            lemma_first_slots(group, shown);
            assert(is_row(rows[shown], slot(group, shown).0, slot(group, shown).1, a, b));
        }
        lemma_leading(rows, shown);
        if n < 3 {
            if g > 0 {
                lemma_gap(groups, ops, at, a, b, g);
                assert(linediff::follows(groups, at, g));
                let before = groups[g - 1];
                let k = before.len() - 1;
                assert(linediff::slice_at(groups[g - 1], ops, at[g - 1]));
                assert(linediff::has_change(groups[g - 1]));
                lemma_cluster_rows(before, ops, at[g - 1]);
                assert(linediff::part_of(before[k], ops[at[g - 1] + k]));
                assert(linediff::keeps_context(groups[g - 1], ops, at[g - 1], CONTEXT as nat));
                assert(before[k].tag is Equal);
                assert(before[k].old_len == n);
                assert(false);
            }
            lemma_head_stays(group, ops, m, a, b, CONTEXT as nat, true);
            lemma_head_stays(group, ops, m, a, b, CONTEXT as nat, false);
            lemma_start(ops, a, b, 0, true);
            lemma_start(ops, a, b, 0, false);
            assert(ops.take(0) =~= Seq::empty());
            lemma_equal_len(ops, a, b, 0);
        }
    } else {
        lemma_first_slots(group, 0);
        assert(is_row(rows[0], slot(group, 0).0, slot(group, 0).1, a, b));
        lemma_leading(rows, 0);
        if g > 0 {
            lemma_gap(groups, ops, at, a, b, g);
        }
        lemma_head_changes(group, ops, true);
        lemma_head_changes(group, ops, false);
    }
}

proof fn lemma_header_starts(h: Hunk)
    requires
        spans_rows(h),
    ensures
        h.old_len == 0 ==> h.old_start == 0,
        h.new_len == 0 ==> h.new_start == 0,
{
}

/// The header of a hunk reads `@@ -start,len +start,len @@`.
pub proof fn law_a_header_gives_both_ranges(h: Hunk)
    ensures
        hunk_header(h) == "@@ -"@ + text::digits(h.old_start as nat) + ","@ + text::digits(
            h.old_len as nat,
        ) + " +"@ + text::digits(h.new_start as nat) + ","@ + text::digits(h.new_len as nat)
            + " @@"@,
{
}

/// A path below the root of its worktree is shown relative to that, be it the
/// root as it is called or as its links resolve; any other is shown whole.
pub proof fn law_paths_are_shown_relative_to_their_root(
    file: Seq<char>,
    root: Seq<char>,
    canonical: Option<Seq<char>>,
)
    ensures
        paths::below(file, root) matches Some(p) ==> shown_path(file, root, canonical) == p,
        paths::below(file, root) is None && canonical is None ==> shown_path(file, root, canonical)
            == file,
        paths::below(file, root) is None ==> (canonical matches Some(c) ==> (match paths::below(
            file,
            c,
        ) {
            Some(p) => shown_path(file, root, canonical) == p,
            None => shown_path(file, root, canonical) == file,
        })),
{
}

/// The lines added and removed account for the lengths of both texts: what the
/// old one has, less what goes, with what comes, is what the new one has.
pub proof fn law_added_and_removed_lines_balance(
    r: DiffResult,
    old_text: Seq<char>,
    new_text: Seq<char>,
)
    requires
        compares(r, old_text, new_text),
    ensures
        r.removed <= linediff::lines(old_text).len(),
        r.added <= linediff::lines(new_text).len(),
        linediff::lines(old_text).len() - r.removed + r.added == linediff::lines(new_text).len(),
{
    if old_text != new_text {
        let ops = linediff::line_ops(old_text, new_text);
        lemma_script_counts(ops, linediff::lines(old_text), linediff::lines(new_text));
        lemma_script_balance(ops, linediff::lines(old_text), linediff::lines(new_text));
    }
}

proof fn lemma_script_balance(ops: Seq<Op>, a: Seq<Seq<char>>, b: Seq<Seq<char>>)
    requires
        linediff::script(ops, a, b),
    ensures
        a.len() - lines_removed(ops) + lines_added(ops) == b.len(),
    decreases ops.len(),
{
    if ops.len() > 0 {
        let op = ops.last();
        if op.tag is Equal {
            assert(a.skip(a.len() - op.old_len).len() == op.old_len);
            assert(b.skip(b.len() - op.new_len).len() == op.new_len);
        }
        lemma_script_balance(
            ops.drop_last(),
            a.take(a.len() - op.old_len),
            b.take(b.len() - op.new_len),
        );
    }
}

/// The first line of a diff is that of the new text without its terminator,
/// and that of the old one where the new text is empty.
pub proof fn law_a_diff_knows_the_first_line(
    r: DiffResult,
    old_text: Seq<char>,
    line: Seq<char>,
    rest: Seq<char>,
)
    requires
        forall|i: int| 0 <= i < line.len() ==> !linediff::newline(#[trigger] line[i]),
    ensures
        old_text != line.push('\n') + rest && compares(r, old_text, line.push('\n') + rest)
            ==> r.first_line@ == line,
        compares(r, line.push('\n') + rest, Seq::empty()) ==> r.first_line@ == line,
{
    let t = line.push('\n') + rest;
    assert(t[line.len() as int] == '\n');
    assert forall|i: int| 0 <= i < line.len() implies (#[trigger] line[i]) != '\n' by {
        assert(!linediff::newline(line[i]));
    }
    if line.len() > 0 {
        assert(!linediff::newline(line[line.len() - 1]));
    }
    text::law_the_first_line_ends_at_a_line_feed(line, rest);
}

/// The pieces of a row are as few as can be: one where its line has a single
/// mark, and neighbors that differ in their mark otherwise. None is empty but
/// that of an empty line.
pub proof fn law_rows_hold_as_few_pieces_as_can_be(
    r: DiffResult,
    old_text: Seq<char>,
    new_text: Seq<char>,
    g: int,
    k: int,
    i: int,
)
    requires
        compares(r, old_text, new_text),
        0 <= g < r.hunks@.len(),
        0 <= k < r.hunks@[g].rows@.len(),
        0 <= i < r.hunks@[g].rows@[k].segments@.len(),
    ensures
        ({
            let pieces = r.hunks@[g].rows@[k].segments@;
            &&& r.hunks@[g].rows@[k].kind is Equal ==> pieces.len() == 1 && !pieces[0].0
            &&& i > 0 ==> pieces[i].0 == !pieces[i - 1].0
            &&& pieces[i].1@.len() == 0 ==> pieces.len() == 1 && !pieces[0].0
        }),
{
    let ops = linediff::line_ops(old_text, new_text);
    let groups = linediff::clusters(ops, CONTEXT as nat);
    let a = linediff::lines(old_text);
    let b = linediff::lines(new_text);
    let rows = r.hunks@[g].rows@;
    assert(is_hunk(r.hunks@[g], groups[g], MAX_LINES - rows_total(groups.take(g)), a, b));
    assert(is_row(rows[k], slot(groups[g], k).0, slot(groups[g], k).1, a, b));
    assert(tidy(rows[k].segments@));
}

} // verus!
