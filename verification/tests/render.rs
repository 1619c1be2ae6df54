use diffier::diff::{self, DiffKind};
use diffier::render::{
    chunks, clock_at, elide_left, format_time, layout, paint, session_color, session_suffix, EditCard,
    LayoutOpts, Seg, ViewMode, ADDED_BG, ADDED_EMPH_BG, GUTTER_FG, REMOVED_BG, REMOVED_EMPH_BG,
};
use diffier::session::CardInput;
use diffier::snapshot::Before;
use diffier::style::{Color, Line};
use diffier::syntax::Painter;

fn opts(mode: ViewMode, width: u16) -> LayoutOpts {
    LayoutOpts {
        mode,
        width,
        wrap: false,
    }
}

const UNIFIED_80: LayoutOpts = LayoutOpts {
    mode: ViewMode::Unified,
    width: 80,
    wrap: false,
};
const SPLIT_120: LayoutOpts = LayoutOpts {
    mode: ViewMode::SideBySide,
    width: 120,
    wrap: false,
};

const PALETTE: [Color; 6] = [
    Color::Cyan,
    Color::Magenta,
    Color::Yellow,
    Color::Green,
    Color::Blue,
    Color::LightRed,
];

fn input_named(name: &str, kind_before: &Before, after: Option<&[u8]>) -> CardInput {
    CardInput {
        path: name.into(),
        file: format!("/p/{name}"),
        tool: "Edit".into(),
        ts: 0,
        agent: Some("Explore".into()),
        diff: diff::compute(kind_before, after),
        user_modified: true,
        session_id: Some("sess-ab12cd".into()),
        worktree: None,
        root: "/p".into(),
        temp: false,
    }
}

fn input(kind_before: &Before, after: Option<&[u8]>) -> CardInput {
    input_named("f.txt", kind_before, after)
}

fn new_card(input: CardInput, opts: &LayoutOpts) -> EditCard {
    EditCard::new(input, &Painter::new(), opts)
}

fn card(before: &[u8], after: &[u8], opts: LayoutOpts) -> EditCard {
    new_card(input(&Before::Content(before.to_vec()), Some(after)), &opts)
}

fn spans_with_bg(line: &Line, bg: Color) -> Vec<String> {
    line.spans
        .iter()
        .filter(|s| s.style.bg == Some(bg))
        .map(|s| s.content.to_string())
        .collect()
}

#[test]
fn plain_render_and_summary() {
    let card = card(b"a\n", b"b\n", UNIFIED_80);
    assert_eq!(
        card.summary(false),
        "f.txt · Edit · Modified · +1 -1 · [Explore] · (user modified)"
    );
    let body = card.body_plain();
    assert!(body[0].starts_with("── @@ -1,1 +1,1 @@ ─"), "{}", body[0]);
    assert!(body[1].starts_with("  1     -a"), "{}", body[1]);
    assert!(body[2].starts_with("      1 +b"), "{}", body[2]);
    assert!(card.header_text(false).contains("--:--:--"));
}

#[test]
fn view_mode_effective_threshold() {
    assert_eq!(ViewMode::SideBySide.effective(99), ViewMode::Unified);
    assert_eq!(ViewMode::SideBySide.effective(100), ViewMode::SideBySide);
    assert_eq!(ViewMode::Unified.effective(500), ViewMode::Unified);
    assert_eq!(ViewMode::SideBySide.toggle().toggle(), ViewMode::SideBySide);
    assert_eq!(ViewMode::default(), ViewMode::SideBySide);
}

#[test]
fn notices_are_mode_independent() {
    let big: String = (0..800).map(|i| format!("{i}\n")).collect();
    for o in [UNIFIED_80, SPLIT_120] {
        let bin = new_card(input(&Before::Content(vec![0, 1]), Some(b"x")), &o);
        assert_eq!(bin.body_plain(), ["(binary file)"]);
        let missing = new_card(input(&Before::Absent, None), &o);
        assert_eq!(missing.body_plain(), ["(file missing after edit)"]);
        let created = new_card(input(&Before::Absent, Some(b"")), &o);
        assert_eq!(created.input.diff.kind, DiffKind::Created);
        assert_eq!(created.body_plain(), ["(empty file created)"]);
        let deleted = new_card(input(&Before::Content(Vec::new()), None), &o);
        assert_eq!(deleted.input.diff.kind, DiffKind::Deleted);
        assert_eq!(deleted.body_plain(), ["(empty file deleted)"]);
        let same = new_card(input(&Before::Content(b"x\n".to_vec()), Some(b"x\n")), &o);
        assert_eq!(same.body_plain(), ["(no changes)"]);
        let t = new_card(input(&Before::Absent, Some(big.as_bytes())), &o);
        assert_eq!(t.input.diff.kind, DiffKind::Created);
        let body = t.body_plain();
        // hunk rule + 500 rows + notice
        assert_eq!(body.len(), 502);
        assert_eq!(body.last().unwrap(), "... 300 more lines");
    }
}

#[test]
fn summary_is_header_without_the_time() {
    let card = card(b"a\n", b"b\n", UNIFIED_80);
    assert_eq!(
        card.header_text(false),
        "f.txt · Edit · --:--:-- · Modified · +1 -1 · [Explore] · (user modified)"
    );
    let same = new_card(
        input(&Before::Content(b"x\n".to_vec()), Some(b"x\n")),
        &UNIFIED_80,
    );
    assert_eq!(
        same.summary(false),
        "f.txt · Edit · Modified · [Explore] · (user modified)"
    );
}

#[test]
fn header_has_stats_and_right_aligned_time() {
    let card = card(b"a\n", b"b\n", UNIFIED_80);
    let l = card.header_line(100, false);
    assert_eq!(l.width(), 100);
    let text = l.text();
    assert!(
        text.starts_with("── f.txt · Edit · Modified · +1 -1 · [Explore] · (user modified) ─"),
        "{text}"
    );
    assert!(text.ends_with("─ --:--:-- ──"), "{text}");
    let tagged = card.header_line(100, true);
    assert_eq!(tagged.width(), 100);
    assert!(tagged.spans.iter().any(|s| s.content == "ab12cd"));
}

#[test]
fn header_colors_kind_as_badge() {
    let created = new_card(input(&Before::Absent, Some(b"x\n")), &UNIFIED_80);
    let l = created.header_line(80, false);
    let kind = l.spans.iter().find(|s| s.content == "Created").unwrap();
    assert_eq!(kind.style.fg, Some(Color::Green));
    let modified = card(b"a\n", b"b\n", UNIFIED_80).header_line(80, false);
    let kind = modified
        .spans
        .iter()
        .find(|s| s.content == "Modified")
        .unwrap();
    assert_eq!(kind.style.fg, None);
}

#[test]
fn header_elides_long_path() {
    let long = format!("{}/deep/file.rs", "dir/".repeat(30));
    let card = new_card(
        input_named(&long, &Before::Content(b"a\n".to_vec()), Some(b"b\n")),
        &UNIFIED_80,
    );
    let l = card.header_line(100, false);
    assert_eq!(l.width(), 100);
    let text = l.text();
    assert!(text.contains("…"), "{text}");
    assert!(text.contains("deep/file.rs · Edit"), "{text}");
    // Even a very narrow bar keeps the tail of the path.
    let narrow = card.header_line(60, false).text();
    assert!(narrow.contains("…"), "{narrow}");
    assert!(narrow.contains("rs · Edit"), "{narrow}");
    assert!(text.ends_with(" --:--:-- ──"), "{text}");
    assert_eq!(elide_left("abcdef", 4), "…def");
    assert_eq!(elide_left("abc", 4), "abc");
}

#[test]
fn tag_prepended_when_requested() {
    let mut card = card(b"a\n", b"b\n", UNIFIED_80);
    assert_eq!(
        card.summary(true),
        "ab12cd · f.txt · Edit · Modified · +1 -1 · [Explore] · (user modified)"
    );
    card.input.worktree = Some("feat-x".into());
    assert_eq!(card.tag().as_deref(), Some("feat-x:ab12cd"));
    assert!(card.summary(true).starts_with("feat-x:ab12cd · f.txt"));
    card.input.session_id = None;
    assert_eq!(card.tag(), None);
    assert_eq!(card.summary(true), card.summary(false));
}

#[test]
fn session_color_is_deterministic_and_in_palette() {
    let c = session_color("sess-ab12cd");
    assert_eq!(c, session_color("sess-ab12cd"));
    assert!(PALETTE.contains(&c));
    assert_eq!(session_suffix("ab"), "ab");
    assert_eq!(session_suffix("sess-ab12cd"), "ab12cd");
}

#[test]
fn split_pairs_deletes_with_inserts() {
    let card = card(b"a\nb\nc\n", b"a\nB\nc\n", SPLIT_120);
    let body = card.body_plain();
    assert!(body[0].starts_with("── @@ -1,3 +1,3 @@ ─"), "{}", body[0]);
    assert!(
        body[1].contains("  1  a") && body[1].contains("│   1  a"),
        "{}",
        body[1]
    );
    assert!(
        body[2].contains("  2 -b") && body[2].contains("│   2 +B"),
        "{}",
        body[2]
    );
    let data_w = card.lines[1].width();
    for l in &card.lines[1..] {
        assert!(l.width() <= 120);
        assert_eq!(l.width(), data_w, "{}", l.text());
    }
    assert_eq!(card.lines[0].width(), 120);
}

#[test]
fn split_unbalanced_run_leaves_blank_side() {
    let card = card(b"a\nb\nc\n", b"x\n", SPLIT_120);
    let body = card.body_plain();
    let rows: Vec<Vec<&str>> = body[1..].iter().map(|l| l.split('│').collect()).collect();
    assert_eq!(rows.len(), 3);
    assert!(rows[0][0].contains("-a") && rows[0][1].contains("+x"));
    assert!(rows[1][0].contains("-b") && rows[1][1].trim().is_empty());
    assert!(rows[2][0].contains("-c") && rows[2][1].trim().is_empty());
    // The blank side carries no tint.
    assert!(card.lines[2].spans.last().unwrap().style.bg.is_none());
}

#[test]
fn split_falls_back_below_threshold() {
    let narrow = card(b"a\n", b"b\n", opts(ViewMode::SideBySide, 80));
    let unified = card(b"a\n", b"b\n", UNIFIED_80);
    assert_eq!(narrow.body_plain(), unified.body_plain());
    assert!(!narrow.body_plain().iter().any(|l| l.contains('│')));
    let wide = card(b"a\n", b"b\n", opts(ViewMode::SideBySide, 100));
    assert!(wide.body_plain().iter().any(|l| l.contains('│')));
}

#[test]
fn row_backgrounds_and_emphasis() {
    let words = card(b"hello world\n", b"hello there\n", UNIFIED_80);
    let del = &words.lines[1];
    let ins = &words.lines[2];
    assert!(spans_with_bg(del, REMOVED_BG)
        .iter()
        .any(|s| s.contains("hello ")));
    assert_eq!(spans_with_bg(del, REMOVED_EMPH_BG), ["world"]);
    assert_eq!(spans_with_bg(ins, ADDED_EMPH_BG), ["there"]);
    // The gutter and the padding carry the row tint too.
    assert_eq!(del.spans[0].style.bg, Some(REMOVED_BG));
    assert_eq!(del.spans.last().unwrap().style.bg, Some(REMOVED_BG));
    assert_eq!(del.width(), 80);
    // Context rows have no tint and no padding.
    let ctx = card(b"a\nb\n", b"a\nc\n", UNIFIED_80);
    let equal = &ctx.lines[1];
    assert!(equal.spans.iter().all(|s| s.style.bg.is_none()));
    assert_eq!(equal.text(), "  1   1  a");
}

#[test]
fn syntax_colors_rust_keyword() {
    let rs = new_card(
        input_named("m.rs", &Before::Absent, Some(b"fn main() {}\n")),
        &UNIFIED_80,
    );
    let fg_of = |card: &EditCard, text: &str| {
        card.lines[1]
            .spans
            .iter()
            .find(|s| s.content.trim() == text)
            .map(|s| s.style.fg)
    };
    let keyword = fg_of(&rs, "fn").expect("fn is its own span");
    assert!(matches!(keyword, Some(Color::Rgb(..))), "{keyword:?}");
    let ident = fg_of(&rs, "main").expect("main is its own span");
    assert_ne!(keyword, ident);
    assert!(rs.body_plain()[1].contains("+fn main() {}"));

    let unknown = new_card(
        input_named("m.unknownext", &Before::Absent, Some(b"fn main() {}\n")),
        &UNIFIED_80,
    );
    assert!(unknown.lines[1]
        .spans
        .iter()
        .all(|s| s.style.fg.is_none() || s.style.fg == Some(GUTTER_FG)));
    let txt = new_card(input(&Before::Absent, Some(b"fn main() {}\n")), &UNIFIED_80);
    assert!(txt.lines[1]
        .spans
        .iter()
        .all(|s| s.style.fg.is_none() || s.style.fg == Some(GUTTER_FG)));
}

#[test]
fn first_line_detection_for_shebang() {
    let sh = new_card(
        input_named("run", &Before::Absent, Some(b"#!/bin/sh\necho hi\n")),
        &UNIFIED_80,
    );
    assert!(sh.lines[2]
        .spans
        .iter()
        .any(|s| matches!(s.style.fg, Some(Color::Rgb(..)))));
    assert_eq!(sh.input.diff.first_line, "#!/bin/sh");
}

#[test]
fn wrap_emits_continuation_rows() {
    let long = format!("{}\n", "x".repeat(200));
    let o = LayoutOpts {
        mode: ViewMode::SideBySide,
        width: 100,
        wrap: true,
    };
    let card = card(b"short\n", long.as_bytes(), o);
    let body = card.body_plain();
    assert!(body.len() > 3, "{body:?}");
    assert!(body.iter().all(|l| !l.contains('…')));
    let w = card.lines[1].width();
    for l in &card.lines[1..] {
        assert!(l.width() <= 100);
        assert_eq!(l.width(), w, "{}", l.text());
    }
    // Continuations: blank left side, blank right gutter, tinted text.
    let cont = &card.lines[2];
    let text = cont.text();
    let (left, right) = text.split_once('│').unwrap();
    assert!(left.trim().is_empty(), "{text}");
    assert!(right.starts_with("      x"), "{text}");
    let bg = cont.spans.last().unwrap().style.bg;
    assert!(bg == Some(ADDED_BG) || bg == Some(ADDED_EMPH_BG), "{bg:?}");
    let joined: String = body[1..]
        .iter()
        .map(|l| {
            l.split('│')
                .nth(1)
                .unwrap()
                .trim()
                .trim_start_matches(|c: char| c != 'x')
        })
        .collect();
    assert_eq!(joined, "x".repeat(200));

    let uni = card_with(b"short\n", long.as_bytes(), ViewMode::Unified, 80, true);
    let body = uni.body_plain();
    assert!(body.len() > 3);
    assert!(body[3].starts_with("         x"), "{}", body[3]);
}

fn card_with(before: &[u8], after: &[u8], mode: ViewMode, width: u16, wrap: bool) -> EditCard {
    card(before, after, LayoutOpts { mode, width, wrap })
}

fn seg(s: &str) -> Vec<Seg> {
    vec![Seg {
        text: s.into(),
        fg: None,
        emph: false,
    }]
}

fn text_of(lines: Vec<Vec<Seg>>) -> Vec<String> {
    lines
        .iter()
        .map(|l| l.iter().map(|s| s.text.as_str()).collect())
        .collect()
}

#[test]
fn no_wrap_uses_ellipsis() {
    let long = format!("{}日本語\n", "x".repeat(200));
    let card = card(b"short\n", long.as_bytes(), opts(ViewMode::SideBySide, 100));
    let w = card.lines[1].width();
    for l in &card.lines[1..] {
        assert!(l.width() <= 100);
        assert_eq!(l.width(), w, "{}", l.text());
    }
    assert!(
        card.body_plain()[1].contains('…'),
        "{:?}",
        card.body_plain()
    );
    assert_eq!(text_of(chunks(&seg("日本語"), 4, false)), ["日 …"]);
    assert_eq!(text_of(chunks(&seg("日本語"), 5, false)), ["日本…"]);
    assert_eq!(text_of(chunks(&seg("ab"), 4, false)), ["ab"]);
    assert_eq!(text_of(chunks(&seg("abcd"), 4, false)), ["abcd"]);
    assert_eq!(text_of(chunks(&seg("日本"), 4, false)), ["日本"]);
    assert_eq!(text_of(chunks(&seg("abcde"), 4, false)), ["abc…"]);
    // Wider as text than its characters together.
    let clouds = "\u{2601}\u{fe0f}\u{2601}\u{fe0f}";
    assert_eq!(text_of(chunks(&seg(clouds), 4, false)), [clouds]);
    assert_eq!(text_of(chunks(&seg(clouds), 3, false)), [format!("{clouds}…")]);
    assert_eq!(text_of(chunks(&seg(clouds), 2, false)), ["\u{2601}\u{fe0f}…"]);
    assert_eq!(text_of(chunks(&seg("abcdef"), 4, true)), ["abcd", "ef"]);
    assert_eq!(text_of(chunks(&seg("a\tb"), 8, false)), ["a   b"]);
    assert_eq!(text_of(chunks(&seg("abcd\tb"), 12, false)), ["abcd    b"]);
    assert_eq!(text_of(chunks(&seg(""), 4, true)), [""]);
}

#[test]
fn unified_layout_has_two_gutters() {
    let card = card(b"a\nb\nc\n", b"a\nB\nc\n", UNIFIED_80);
    let body = card.body_plain();
    assert_eq!(body[1], "  1   1  a");
    assert!(body[2].starts_with("  2     -b"), "{}", body[2]);
    assert!(body[3].starts_with("      2 +B"), "{}", body[3]);
    assert_eq!(body[4], "  3   3  c");
}

#[test]
fn hunk_rule_carries_range() {
    let card = card(b"a\nb\nc\n", b"a\nB\nc\n", UNIFIED_80);
    let rule = &card.lines[0];
    assert_eq!(rule.width(), 80);
    assert!(rule.text().starts_with("── @@ -1,3 +1,3 @@ ───"));
    assert_eq!(rule.spans[0].style.fg, Some(GUTTER_FG));
}

#[test]
fn a_context_row_that_fills_its_column_is_whole() {
    // 80 columns leave 71 for the text.
    let context = |len: usize, wrap: bool| {
        let row = "y".repeat(len);
        let before = format!("{row}\na\n");
        let after = format!("{row}\nb\n");
        card_with(before.as_bytes(), after.as_bytes(), ViewMode::Unified, 80, wrap).body_plain()
    };
    assert_eq!(context(71, true)[1], format!("  1   1  {}", "y".repeat(71)));
    let long = context(72, true);
    assert_eq!(long[1], format!("  1   1  {}", "y".repeat(71)));
    assert_eq!(long[2], "         y");
    assert_eq!(context(71, false)[1], format!("  1   1  {}", "y".repeat(71)));
    // The last column is for the mark once something is left out.
    assert_eq!(context(72, false)[1], format!("  1   1  {}…", "y".repeat(70)));
}

#[test]
fn wrapping_keeps_every_character() {
    let text = "one two\tthree 日本語 four";
    for col in 4..40 {
        let joined: String = text_of(chunks(&seg(text), col, true)).concat();
        assert_eq!(joined.replace(' ', ""), text.replace([' ', '\t'], ""));
        for line in chunks(&seg(text), col, true) {
            let width: usize = line
                .iter()
                .map(|s| s.text.chars().map(|c| if c > '\u{ff}' { 2 } else { 1 }).sum::<usize>())
                .sum();
            assert!(width <= col);
        }
    }
}

#[test]
fn runs_are_not_mixed_by_wrapping() {
    let segs = vec![
        Seg { text: "ab".into(), fg: None, emph: false },
        Seg { text: "cdef".into(), fg: Some(Color::Red), emph: true },
    ];
    assert_eq!(
        chunks(&segs, 4, true),
        vec![
            vec![
                Seg { text: "ab".into(), fg: None, emph: false },
                Seg { text: "cd".into(), fg: Some(Color::Red), emph: true },
            ],
            vec![Seg { text: "ef".into(), fg: Some(Color::Red), emph: true }],
        ]
    );
}

#[test]
fn layout_shows_each_row_on_its_side() {
    let o = LayoutOpts { mode: ViewMode::SideBySide, width: 100, wrap: true };
    let i = input(&Before::Content(b"a\nb\nc\nd\n".to_vec()), Some(b"a\nx\nd\ne\n"));
    let lines = layout(&paint(&i, &Painter::new()), &o);
    let sides: Vec<(String, String)> = lines[1..]
        .iter()
        .map(|l| {
            let t = l.text();
            let (left, right) = t.split_once('│').unwrap();
            (left.trim_end().to_string(), right.trim_end().to_string())
        })
        .collect();
    let want = [
        ("  1  a", "   1  a"),
        ("  2 -b", "   2 +x"),
        ("  3 -c", ""),
        ("  4  d", "   3  d"),
        ("", "   4 +e"),
    ];
    assert_eq!(sides.len(), want.len());
    for (got, want) in sides.iter().zip(want) {
        assert_eq!((got.0.as_str(), got.1.as_str()), want);
    }
}

#[test]
fn rerendering_is_like_rendering() {
    let mut c = card(b"a\n", b"b\n", UNIFIED_80);
    let split = card(b"a\n", b"b\n", SPLIT_120);
    c.rerender(&SPLIT_120);
    assert_eq!(c.lines, split.lines);
    c.rerender(&UNIFIED_80);
    assert_eq!(c.lines, card(b"a\n", b"b\n", UNIFIED_80).lines);
}

#[test]
fn times_have_eight_characters() {
    assert_eq!(format_time(0), "--:--:--");
    assert_eq!(format_time(8_210_266_876_800_000), "--:--:--");
    assert_ne!(format_time(8_210_266_876_799_999), "--:--:--");
    let t = format_time(1_700_000_000_000);
    assert_eq!(t.len(), 8);
    // Every zone is off by whole quarters of an hour: 22:13:20 UTC.
    assert!(t.ends_with(":20"), "{t}");
    let minute: u32 = t[3..5].parse().unwrap();
    assert_eq!(minute % 15, 13, "{t}");
}

#[test]
fn times_are_those_of_the_machine() {
    for ms in [1, 999, 1_000, 86_399_999, 951_782_400_000, 1_700_000_000_123, 4_102_444_800_000] {
        let t = chrono::DateTime::from_timestamp_millis(ms).unwrap();
        let local = t.with_timezone(&chrono::Local).format("%H:%M:%S").to_string();
        assert_eq!(format_time(ms as u64), local);
    }
}

#[test]
fn clocks_are_ahead_or_behind() {
    assert_eq!(clock_at(0, 0), "00:00:00");
    assert_eq!(clock_at(1_700_000_000_000, 0), "22:13:20");
    assert_eq!(clock_at(1_700_000_000_999, 5 * 3600 + 1800), "03:43:20");
    assert_eq!(clock_at(1_700_000_000_000, -3600), "21:13:20");
    assert_eq!(clock_at(0, -1), "23:59:59");
    assert_eq!(clock_at(-1, 0), "23:59:59");
    assert_eq!(clock_at(-1_000, 0), "23:59:59");
    assert_eq!(clock_at(-1_001, 0), "23:59:58");
    for (ms, offset) in [(-8_334_601_228_800_000, -86_399), (8_210_266_876_799_999, 86_399)] {
        let zone = chrono::FixedOffset::east_opt(offset).unwrap();
        let t = chrono::DateTime::from_timestamp_millis(ms).unwrap().with_timezone(&zone);
        assert_eq!(clock_at(ms, offset), t.format("%H:%M:%S").to_string());
    }
}

#[test]
fn an_error_is_shown_with_its_reason() {
    let u = new_card(input(&Before::Unavailable("no snapshot".into()), Some(b"x")), &UNIFIED_80);
    assert_eq!(
        u.summary(false),
        "f.txt · Edit · Error: no snapshot · [Explore] · (user modified)"
    );
}

#[test]
fn a_cut_path_leaves_the_bar_as_wide() {
    let mut i = input(&Before::Content(b"a\n".to_vec()), Some(b"b\n"));
    i.path = "some/quite/long/path/to/a/file.txt".to_string();
    let whole = i.path.clone();
    let c = new_card(i, &UNIFIED_80);
    let fits: Vec<u16> =
        (0..200).filter(|w| c.header_line(*w, true).width() == *w as usize).collect();
    // All widths from some narrow one on, where four columns of the path are left.
    assert_eq!(fits, (fits[0]..200).collect::<Vec<_>>());
    assert!(c.header_line(fits[0], true).text().contains("…txt"));
    assert!(!c.header_line(fits[0] + 29, true).text().contains(&whole));
    assert!(c.header_line(fits[0] + 30, true).text().contains(&whole));
}

#[test]
fn narrow_bars_stay_within_reason() {
    let c = card(b"a\n", b"b\n", UNIFIED_80);
    for width in [0, 1, 10, 40, 79, 85, 100, 200] {
        let l = c.header_line(width, true);
        if width >= 85 {
            assert_eq!(l.width(), width as usize);
        }
        assert!(l.text().contains("Edit"));
    }
}
