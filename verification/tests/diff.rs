use diffier::diff::{compute, display_path, range, strip_newline, DiffKind, DiffResult, RowKind, MAX_LINES};
use diffier::snapshot::Before;

fn texts(r: &DiffResult) -> Vec<(RowKind, String)> {
    r.rows().iter().map(|row| (row.kind, row.text())).collect()
}

#[test]
fn modified_has_one_hunk_with_context() {
    let r = compute(&Before::Content(b"a\nb\nc\n".to_vec()), Some(b"a\nB\nc\n"));
    assert_eq!(r.kind, DiffKind::Modified);
    assert_eq!(r.hunks.len(), 1);
    assert_eq!(r.hunks[0].header(), "@@ -1,3 +1,3 @@");
    assert_eq!(
        texts(&r),
        vec![
            (RowKind::Equal, "a".into()),
            (RowKind::Delete, "b".into()),
            (RowKind::Insert, "B".into()),
            (RowKind::Equal, "c".into()),
        ]
    );
    let del = &r.hunks[0].rows[1];
    assert_eq!((del.old_no, del.new_no), (Some(2), None));
    let ins = &r.hunks[0].rows[2];
    assert_eq!((ins.old_no, ins.new_no), (None, Some(2)));
    assert_eq!((r.added, r.removed), (1, 1));
    assert!(!r.truncated);
    assert_eq!(r.first_line, "a");
}

#[test]
fn inline_segments_mark_changed_words() {
    let r = compute(
        &Before::Content(b"hello world\n".to_vec()),
        Some(b"hello there\n"),
    );
    let rows = &r.hunks[0].rows;
    assert_eq!(
        rows[0].segments,
        vec![(false, "hello ".to_string()), (true, "world".to_string())]
    );
    assert_eq!(
        rows[1].segments,
        vec![(false, "hello ".to_string()), (true, "there".to_string())]
    );
}

#[test]
fn created_deleted_missing() {
    let c = compute(&Before::Absent, Some(b"new\n"));
    assert_eq!(c.kind, DiffKind::Created);
    assert_eq!(c.hunks[0].header(), "@@ -0,0 +1,1 @@");
    assert_eq!(texts(&c), vec![(RowKind::Insert, "new".into())]);
    let d = compute(&Before::Content(b"gone\n".to_vec()), None);
    assert_eq!(d.kind, DiffKind::Deleted);
    assert_eq!(texts(&d), vec![(RowKind::Delete, "gone".into())]);
    assert_eq!(d.first_line, "gone");
    assert_eq!(compute(&Before::Absent, None).kind, DiffKind::Missing);
    assert_eq!(
        compute(&Before::Unavailable("x".into()), None).kind,
        DiffKind::Missing
    );
}

#[test]
fn binary_detected_on_either_side() {
    let bin = vec![0u8, 1, 2];
    assert_eq!(
        compute(&Before::Content(bin.clone()), Some(b"txt")).kind,
        DiffKind::Binary
    );
    assert_eq!(
        compute(&Before::Content(b"txt".to_vec()), Some(&bin)).kind,
        DiffKind::Binary
    );
    assert_eq!(compute(&Before::Absent, Some(&bin)).kind, DiffKind::Binary);
}

#[test]
fn truncates_at_max_lines_and_counts_the_full_diff() {
    let new: String = (0..1000).map(|i| format!("line {i}\n")).collect();
    let r = compute(&Before::Content(Vec::new()), Some(new.as_bytes()));
    assert!(r.truncated);
    assert_eq!(r.rows().len(), MAX_LINES);
    assert_eq!(r.total_rows, 1000);
    assert_eq!((r.added, r.removed), (1000, 0));
}

#[test]
fn far_apart_changes_make_separate_hunks() {
    let old: String = (0..40).map(|i| format!("l{i}\n")).collect();
    let new = old.replace("l3\n", "three\n").replace("l30\n", "thirty\n");
    let r = compute(&Before::Content(old.into_bytes()), Some(new.as_bytes()));
    assert_eq!(r.hunks.len(), 2);
    assert_eq!(r.hunks[0].header(), "@@ -1,7 +1,7 @@");
    assert_eq!(r.hunks[1].header(), "@@ -28,7 +28,7 @@");
}

#[test]
fn identical_content_is_empty_modified() {
    let r = compute(&Before::Content(b"same\n".to_vec()), Some(b"same\n"));
    assert_eq!(r.kind, DiffKind::Modified);
    assert!(r.is_empty());
}

#[test]
fn synthetic_and_unavailable() {
    let s = Before::Synthetic {
        old: "a\n".into(),
        new: "b\n".into(),
        note: "why".into(),
    };
    let r = compute(&s, Some(b"whatever"));
    assert_eq!(r.kind, DiffKind::Error("why".into()));
    assert_eq!(
        texts(&r),
        vec![(RowKind::Delete, "a".into()), (RowKind::Insert, "b".into())]
    );
    let u = compute(&Before::Unavailable("nope".into()), Some(b"x"));
    assert_eq!(u.kind, DiffKind::Error("nope".into()));
    assert!(u.is_empty());
}

#[test]
fn crlf_and_missing_trailing_newline_are_stripped() {
    let r = compute(&Before::Content(b"a\r\nb".to_vec()), Some(b"a\r\nc"));
    assert_eq!(
        texts(&r),
        vec![
            (RowKind::Equal, "a".into()),
            (RowKind::Delete, "b".into()),
            (RowKind::Insert, "c".into()),
        ]
    );
}

#[test]
fn display_path_relative_inside_cwd_else_absolute() {
    assert_eq!(display_path("/p/proj/src/a.rs", "/p/proj", &None), "src/a.rs");
    assert_eq!(display_path("/tmp/other.rs", "/p/proj", &None), "/tmp/other.rs");
}

#[test]
fn display_path_below_the_canonical_root() {
    let canonical = Some("/private/p".to_string());
    assert_eq!(display_path("/private/p/a.rs", "/p", &canonical), "a.rs");
    assert_eq!(display_path("/private/pq/a.rs", "/p", &canonical), "/private/pq/a.rs");
}

#[test]
fn kinds_have_labels() {
    assert_eq!(DiffKind::Modified.label(), "Modified");
    assert_eq!(DiffKind::Created.label(), "Created");
    assert_eq!(DiffKind::Deleted.label(), "Deleted");
    assert_eq!(DiffKind::Binary.label(), "Binary");
    assert_eq!(DiffKind::Missing.label(), "Missing");
    assert_eq!(DiffKind::Error("no snapshot".into()).label(), "Error: no snapshot");
}

#[test]
fn invalid_utf8_is_binary_and_a_late_nul_is_not() {
    assert_eq!(
        compute(&Before::Absent, Some(&[b'a', 0xff])).kind,
        DiffKind::Binary
    );
    let mut late = vec![b'a'; 8192];
    late.push(0);
    assert_eq!(compute(&Before::Absent, Some(&late)).kind, DiffKind::Created);
    late[8191] = 0;
    assert_eq!(compute(&Before::Absent, Some(&late)).kind, DiffKind::Binary);
}

#[test]
fn one_line_end_is_stripped() {
    assert_eq!(strip_newline("a\r\n"), "a");
    assert_eq!(strip_newline("a\n\n"), "a\n");
    assert_eq!(strip_newline("a\r"), "a");
    assert_eq!(strip_newline("a"), "a");
    assert_eq!(strip_newline(""), "");
}

#[test]
fn ranges_start_at_the_first_number() {
    assert_eq!(range(&vec![None, Some(4), None, Some(5)]), (4, 2));
    assert_eq!(range(&vec![None, None]), (0, 0));
}

/// Old side from the rows of an uncut diff, and new side, when the context
/// covers the whole file.
fn sides(r: &DiffResult) -> (String, String) {
    let (mut old, mut new) = (String::new(), String::new());
    for row in r.rows() {
        let line = format!("{}\n", row.text());
        match row.kind {
            RowKind::Equal => {
                old.push_str(&line);
                new.push_str(&line);
            }
            RowKind::Delete => old.push_str(&line),
            RowKind::Insert => new.push_str(&line),
        }
    }
    (old, new)
}

#[test]
fn an_uncut_diff_shows_both_sides() {
    let old = "one\ntwo words\nthree\n";
    let new = "zero\none\ntwo other words\n";
    let r = compute(&Before::Content(old.as_bytes().to_vec()), Some(new.as_bytes()));
    assert_eq!(sides(&r), (old.to_string(), new.to_string()));
    assert_eq!((r.added, r.removed), (2, 2));
    assert_eq!(r.total_rows, r.rows().len());
}

#[test]
fn rows_of_several_hunks_are_cut_together() {
    // 100 changed lines, 20 lines apart: 100 hunks of 8 rows.
    let old: String = (0..2000).map(|i| format!("l{i}\n")).collect();
    let new: String = (0..2000)
        .map(|i| if i % 20 == 10 { format!("x{i}\n") } else { format!("l{i}\n") })
        .collect();
    let r = compute(&Before::Content(old.into_bytes()), Some(new.as_bytes()));
    assert!(r.truncated);
    assert_eq!(r.total_rows, 800);
    assert_eq!(r.rows().len(), 500);
    assert_eq!(r.hunks.len(), 63);
    assert_eq!(r.hunks[62].rows.len(), 4);
    assert_eq!(r.hunks[62].header(), "@@ -1248,4 +1248,3 @@");
    assert_eq!((r.added, r.removed), (100, 100));
}

#[test]
fn rows_show_the_lines_they_number() {
    let old: Vec<String> = (1..=60).map(|i| format!("line {i}")).collect();
    let mut new = old.clone();
    new[4] = "changed".to_string();
    new.insert(30, "more".to_string());
    new.remove(50);
    let text = |v: &[String]| v.iter().map(|l| format!("{l}\n")).collect::<String>();
    let r = compute(&Before::Content(text(&old).into_bytes()), Some(text(&new).as_bytes()));
    assert_eq!(r.hunks.len(), 3);
    for h in &r.hunks {
        let (mut next_old, mut next_new) = (h.old_start, h.new_start);
        for row in &h.rows {
            if let Some(n) = row.old_no {
                assert_eq!(n, next_old);
                assert_eq!(row.text(), old[n - 1]);
                next_old += 1;
            }
            if let Some(n) = row.new_no {
                assert_eq!(n, next_new);
                assert_eq!(row.text(), new[n - 1]);
                next_new += 1;
            }
        }
        assert_eq!((next_old, next_new), (h.old_start + h.old_len, h.new_start + h.new_len));
    }
}

/// What the hunks of `r` make of the lines of `old`.
fn patched(old: &str, r: &DiffResult) -> Vec<String> {
    let mut lines: Vec<String> = old.lines().map(str::to_string).collect();
    for h in r.hunks.iter().rev() {
        let at = if h.old_len == 0 { h.old_start } else { h.old_start - 1 };
        let new: Vec<String> =
            h.rows.iter().filter(|r| r.kind != RowKind::Delete).map(|r| r.text()).collect();
        lines.splice(at..at + h.old_len, new);
    }
    lines
}

#[test]
fn an_uncut_diff_is_a_patch() {
    let base: String = (0..60).map(|i| format!("l{i}\n")).collect();
    let changed = base
        .replace("l0\n", "")
        .replace("l7\n", "l7\nseven\n")
        .replace("l30\n", "x\ny\n")
        .replace("l59\n", "end\n");
    let texts = ["", "one\n", "one\ntwo", "two\none\n", base.as_str(), changed.as_str()];
    for old in texts {
        for new in texts {
            let r = compute(&Before::Content(old.into()), Some(new.as_bytes()));
            assert!(!r.truncated);
            assert_eq!(patched(old, &r), new.lines().collect::<Vec<_>>(), "{old:?} {new:?}");
            for w in r.hunks.windows(2) {
                assert!(w[0].old_start + w[0].old_len < w[1].old_start);
                assert!(w[0].new_start + w[0].new_len < w[1].new_start);
            }
            assert!(r.hunks.iter().all(|h| !h.rows.is_empty()));
        }
    }
}

#[test]
fn a_diff_is_cut_when_it_has_more_rows_than_the_limit() {
    for (n, cut) in [(MAX_LINES - 1, false), (MAX_LINES, false), (MAX_LINES + 1, true)] {
        let new: String = (0..n).map(|i| format!("line {i}\n")).collect();
        let r = compute(&Before::Absent, Some(new.as_bytes()));
        assert_eq!((r.total_rows, r.truncated), (n, cut));
    }
    // A first hunk that takes all the room leaves none for the second.
    let kept: String = (0..20).map(|i| format!("k{i}\n")).collect();
    let added: String = (0..MAX_LINES - 3).map(|i| format!("a{i}\n")).collect();
    let r = compute(
        &Before::Content(kept.clone().into_bytes()),
        Some(format!("{added}{kept}z\n").as_bytes()),
    );
    assert_eq!((r.hunks.len(), r.total_rows, r.truncated), (1, MAX_LINES + 4, true));
}
