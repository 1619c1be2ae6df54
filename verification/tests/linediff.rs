use diffier::diff::{compute, RowKind};
use diffier::snapshot::Before;
use similar::{DiffOp, DiffTag, TextDiff};

/// Pseudo-random texts made of a few kinds of lines.
struct Texts(u64);

impl Texts {
    fn number(&mut self, below: u64) -> u64 {
        self.0 = self.0.wrapping_mul(6364136223846793005).wrapping_add(1442695040888963407);
        (self.0 >> 33) % below
    }

    fn text(&mut self, max: u64, kinds: u64) -> String {
        let n = self.number(max + 1);
        let mut s = String::new();
        for _ in 0..n {
            s.push_str(&format!("w{} x\n", self.number(kinds)));
        }
        if self.number(4) == 0 {
            s.pop();
        }
        s
    }

    fn edited(&mut self, text: &str) -> String {
        let mut s = String::new();
        for line in text.split_inclusive('\n') {
            match self.number(12) {
                0 => {}
                1 => s.push_str("new\n"),
                2 => {
                    s.push_str(line);
                    s.push_str("more\n");
                }
                _ => s.push_str(line),
            }
        }
        s
    }

    fn pair(&mut self) -> (String, String) {
        let kinds = self.number(40) + 2;
        let max = [4, 12, 40, 150][self.number(4) as usize];
        let old = self.text(max, kinds);
        let new = if self.number(2) == 0 { self.text(max, kinds) } else { self.edited(&old) };
        (old, new)
    }
}

fn stays(op: &DiffOp) -> bool {
    op.tag() == DiffTag::Equal
}

#[test]
fn edit_scripts_are_made_of_steps_with_lines() {
    let mut texts = Texts(7);
    for _ in 0..3000 {
        let (old, new) = texts.pair();
        let diff = TextDiff::from_lines(&old, &new);
        let ops = diff.ops();
        let (mut i, mut j) = (0, 0);
        for op in ops {
            let (tag, a, b) = op.as_tag_tuple();
            assert_eq!(a.is_empty(), tag == DiffTag::Insert);
            assert_eq!(b.is_empty(), tag == DiffTag::Delete);
            assert!(a.is_empty() || a.start == i);
            assert!(b.is_empty() || b.start == j);
            if tag == DiffTag::Equal {
                assert_eq!(diff.old_slices()[a.clone()], diff.new_slices()[b.clone()]);
            }
            i += a.len();
            j += b.len();
        }
        assert_eq!((i, j), (diff.old_slices().len(), diff.new_slices().len()));
    }
}

#[test]
fn clusters_follow_one_another() {
    let mut texts = Texts(11);
    for round in 0..3000 {
        let (old, new) = texts.pair();
        let diff = TextDiff::from_lines(&old, &new);
        let ops = diff.ops();
        let context = round % 5;
        let groups = diff.grouped_ops(context);
        let mut at = 0;
        for (g, group) in groups.iter().enumerate() {
            assert!(group.iter().any(|op| !stays(op)));
            assert!(group.windows(2).all(|w| !(stays(&w[0]) && stays(&w[1]))));
            if g > 0 {
                let before = groups[g - 1].last().unwrap();
                at += groups[g - 1].len() - 1;
                assert!(before.old_range().end < group[0].old_range().start);
            }
            for (k, op) in group.iter().enumerate() {
                let whole = &ops[at + k];
                if !stays(op) {
                    assert_eq!(op, whole);
                    continue;
                }
                let first = k == 0;
                let last = k == group.len() - 1;
                let len = op.old_range().len();
                assert!(stays(whole) && len <= 2 * context);
                assert!(first || op.old_range().start == whole.old_range().start);
                assert!(last || op.old_range().end == whole.old_range().end);
                if first || last {
                    assert_eq!(len, context.min(whole.old_range().len()));
                }
                let (old_skip, new_skip) = (
                    op.old_range().start - whole.old_range().start,
                    op.new_range().start - whole.new_range().start,
                );
                assert_eq!(old_skip, new_skip);
            }
        }
        match groups.last() {
            Some(last) => assert_eq!(at + last.len(), ops.len()),
            None => assert!(ops.iter().all(stays)),
        }
    }
}

/// Where words begin in a line: white space and what stands between are words
/// by turns.
fn words(line: &[(bool, char)]) -> Vec<(bool, char)> {
    (0..line.len())
        .filter(|&i| i == 0 || line[i].1.is_whitespace() != line[i - 1].1.is_whitespace())
        .map(|i| line[i])
        .collect()
}

fn plain_text(lines: &[Vec<(bool, char)>]) -> String {
    lines.iter().flatten().filter(|(m, c)| !m && !['\r', '\n'].contains(c)).map(|x| x.1).collect()
}

/// Lines of several words, with one terminator or another.
fn prose(texts: &mut Texts) -> String {
    let mut s = String::new();
    for _ in 0..texts.number(5) {
        for _ in 0..texts.number(9) {
            s.push_str(["a", "bb", "c_1", "the", "é"][texts.number(5) as usize]);
            s.push_str([" ", "  ", "\t", ", "][texts.number(4) as usize]);
        }
        s.push_str(["\n", "\n", "\r\n", "\r"][texts.number(4) as usize]);
    }
    s
}

#[test]
fn marks_tell_changed_words_from_the_others() {
    let mut texts = Texts(17);
    let mut seen = 0;
    for _ in 0..4000 {
        let old = prose(&mut texts);
        let mut new = String::new();
        for word in old.split_inclusive(' ') {
            match texts.number(6) {
                0 => new.push_str("other "),
                1 => {}
                _ => new.push_str(word),
            }
        }
        let diff = TextDiff::from_lines(&old, &new);
        for op in diff.ops() {
            let lines: Vec<Vec<(bool, char)>> = diff
                .iter_inline_changes(op)
                .map(|c| {
                    c.values().iter().flat_map(|(m, s)| s.chars().map(|c| (*m, c))).collect()
                })
                .collect();
            let any = lines.iter().flatten().any(|x| x.0);
            assert!(!any || op.tag() == DiffTag::Replace);
            assert!(lines.iter().flatten().all(|(m, c)| !m || !['\r', '\n'].contains(c)));
            if any {
                seen += 1;
                let (before, after) = lines.split_at(op.old_range().len());
                assert_eq!(plain_text(before), plain_text(after));
                let all: Vec<(bool, char)> = lines.iter().flat_map(|l| words(l)).collect();
                assert!(all.len() <= 2 * all.iter().filter(|w| !w.0).count());
            }
        }
    }
    assert!(seen > 100);
}

#[test]
fn marked_rows_keep_what_is_common() {
    let r = compute(
        &Before::Content(b"keep one two\nlast line here\n".to_vec()),
        Some(b"keep 1 two\nlast lines here\n"),
    );
    let plain = |kind: RowKind| -> String {
        r.rows()
            .iter()
            .filter(|row| row.kind == kind)
            .flat_map(|row| row.segments.iter().filter(|s| !s.0).map(|s| s.1.clone()))
            .collect()
    };
    assert_eq!(plain(RowKind::Delete), "keep  twolast  here");
    assert_eq!(plain(RowKind::Insert), "keep  twolast  here");
}

#[test]
fn rows_make_up_both_texts_where_they_differ() {
    let mut texts = Texts(13);
    for _ in 0..500 {
        let (old, new) = texts.pair();
        let r = compute(&Before::Content(old.clone().into_bytes()), Some(new.as_bytes()));
        let mut lines: Vec<String> = old.lines().map(str::to_string).collect();
        for h in r.hunks.iter().rev() {
            let at = if h.old_len == 0 { h.old_start } else { h.old_start - 1 };
            let side: Vec<String> =
                h.rows.iter().filter(|r| r.kind != RowKind::Delete).map(|r| r.text()).collect();
            lines.splice(at..at + h.old_len, side);
        }
        assert!(!r.truncated);
        assert_eq!(lines, new.lines().collect::<Vec<_>>());
    }
}
