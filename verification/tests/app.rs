use diffier::app::{help_lines, tilde, App, KeyCode, KeyEvent, MouseEvent, KEYS, WHEEL_STEP};
use diffier::diff;
use diffier::render::ViewMode;
use diffier::session::{CardInput, Pipeline};
use diffier::snapshot::Before;
use diffier::spool::{CwdInfo, CwdMatcher, MatchMode, SpoolTailer};
use diffier::style::Line;
use diffier::syntax::Painter;
use diffier::ui;

fn app_in(cwd: &str, git: Option<CwdInfo>, width: u16) -> App {
    let matcher = CwdMatcher::new(cwd.to_string(), None, git, MatchMode::Repo);
    App::new(
        "Helper".to_string(),
        cwd.to_string(),
        format!("{cwd}/events.jsonl"),
        Pipeline::new(matcher, format!("{cwd}/snaps"), Vec::new()),
        SpoolTailer::new(0, 0),
        Painter::new(),
        ViewMode::SideBySide,
        width,
    )
}

fn app_at(width: u16) -> App {
    app_in("/p", None, width)
}

fn app() -> App {
    app_at(80)
}

fn input(session: &str) -> CardInput {
    input_named(session, "f.txt")
}

fn input_named(session: &str, path: &str) -> CardInput {
    CardInput {
        path: path.into(),
        file: format!("/p/{path}"),
        tool: "Edit".into(),
        ts: 0,
        agent: None,
        diff: diff::compute(&Before::Content(b"a\n".to_vec()), Some(b"b\n")),
        user_modified: false,
        session_id: Some(session.to_string()),
        worktree: None,
        root: "/p".into(),
        temp: false,
    }
}

fn headers(app: &App) -> Vec<String> {
    app.lines
        .iter()
        .map(|l| l.text())
        .filter(|l| l.starts_with("── ") && !l.starts_with("── @@"))
        .collect()
}

fn has_split_rows(app: &App) -> bool {
    app.lines.iter().any(|l| l.text().contains('│'))
}

fn press(code: KeyCode) -> KeyEvent {
    KeyEvent { code, ctrl: false }
}

fn key(c: char) -> KeyEvent {
    press(KeyCode::Char(c))
}

fn ctrl(c: char) -> KeyEvent {
    KeyEvent { code: KeyCode::Char(c), ctrl: true }
}

fn status(app: &App) -> String {
    app.status(200, &None)
}

fn bottom(app: &App) -> usize {
    app.total_lines().saturating_sub(app.viewport)
}

/// Three one-line cards: header + hunk rule + 2 rows + blank = 5 lines each.
fn three_cards() -> App {
    let mut app = app();
    for p in ["a.txt", "b.txt", "c.txt"] {
        app.push_card(input_named("s1", p));
    }
    app.rebuild_lines();
    app.set_viewport(4);
    app
}

#[test]
fn tags_hidden_until_a_second_session_has_a_card() {
    let mut app = app();
    app.push_card(input("sess-aaaaaa"));
    app.rebuild_lines();
    assert!(!headers(&app)[0].contains("aaaaaa"));
    app.push_card(input("sess-bbbbbb"));
    app.rebuild_lines();
    let h = headers(&app);
    assert!(h[0].contains("aaaaaa"), "{}", h[0]);
    assert!(h[1].contains("bbbbbb"), "{}", h[1]);
}

#[test]
fn tab_cycles_in_first_seen_order_and_wraps() {
    let mut app = app();
    for s in ["s1", "s2", "s1", "s3"] {
        app.push_card(input(s));
    }
    app.rebuild_lines();
    app.set_viewport(3);
    assert!(status(&app).contains("session: all  card: 4/4"));

    let expect = [(Some("s1"), 2), (Some("s2"), 1), (Some("s3"), 1), (None, 4)];
    for (id, visible) in expect {
        app.on_key(press(KeyCode::Tab));
        assert_eq!(app.selected_session(), id);
        assert_eq!(app.visible_cards(), visible);
        assert_eq!(headers(&app).len(), visible);
        assert!(app.follow);
        assert_eq!(app.offset, bottom(&app));
    }
    app.on_key(press(KeyCode::Tab));
    assert!(status(&app).contains("session: s1  card: 2/2"));
}

#[test]
fn tab_with_no_cards_stays_on_all() {
    let mut app = app();
    app.cycle_session();
    assert_eq!(app.selected_session(), None);
    assert!(!app.has_visible_cards());
    assert_eq!(app.sticky_header(), None);
    assert!(status(&app).contains("card: 0/0"));
}

#[test]
fn v_toggles_view_and_rerenders_cards() {
    let mut app = app_at(120);
    app.push_card(input("s1"));
    app.rebuild_lines();
    assert!(status(&app).contains("view: split"));
    assert!(has_split_rows(&app));
    app.on_key(key('v'));
    assert_eq!(app.view_mode(), ViewMode::Unified);
    assert!(status(&app).contains("view: unified"));
    assert!(!has_split_rows(&app));
    app.on_key(key('v'));
    assert_eq!(app.view_mode(), ViewMode::SideBySide);
    assert!(has_split_rows(&app));
}

#[test]
fn resize_rerenders_split_layout() {
    let mut app = app_at(120);
    app.push_card(input("s1"));
    app.rebuild_lines();
    assert!(has_split_rows(&app));
    app.on_resize(80, 24);
    app.apply_resize();
    assert!(!has_split_rows(&app));
    assert!(status(&app).contains("view: split"));
    app.on_resize(120, 24);
    app.apply_resize();
    assert!(has_split_rows(&app));
}

#[test]
fn w_toggles_wrap_and_rerenders() {
    let mut app = app();
    let mut long = input("s1");
    long.diff = diff::compute(
        &Before::Content(b"a\n".to_vec()),
        Some(format!("{}\n", "x".repeat(200)).as_bytes()),
    );
    app.push_card(long);
    app.rebuild_lines();
    assert!(app.wrap());
    let wrapped = app.total_lines();
    assert!(!app.lines.iter().any(|l| l.text().contains('…')));
    app.on_key(key('w'));
    assert!(!app.wrap());
    assert!(status(&app).contains("wrap: off"));
    assert!(app.total_lines() < wrapped);
    assert!(app.lines.iter().any(|l| l.text().contains('…')));
}

#[test]
fn current_card_follows_offset() {
    let mut app = three_cards();
    assert_eq!(app.total_lines(), 15);
    app.on_key(key('g'));
    assert_eq!(app.current_card(), Some(0));
    assert!(app.at_card_start());
    app.offset = 4; // the blank after card 0
    assert_eq!(app.current_card(), Some(0));
    assert!(!app.at_card_start());
    app.offset = 5;
    assert_eq!(app.current_card(), Some(1));
    assert!(app.at_card_start());
    assert!(app.sticky_header().unwrap().text().contains("b.txt"));
    assert!(status(&app).contains("card: 2/3"));
}

#[test]
fn n_and_prev_move_between_card_headers() {
    let mut app = three_cards();
    app.on_key(key('g'));
    app.on_key(key('n'));
    assert_eq!((app.offset, app.follow), (5, false));
    app.on_key(key('n'));
    // Card 2 starts at 10, but the last offset is 11 with a 4-line viewport.
    assert_eq!(app.offset, 10);
    app.on_key(key('n'));
    assert_eq!(app.offset, 10);
    app.on_key(key('j'));
    assert_eq!(app.offset, 11);
    assert!(app.follow);
    app.on_key(key('N'));
    assert_eq!((app.offset, app.follow), (10, false));
    app.on_key(key('N'));
    assert_eq!(app.offset, 5);
    app.on_key(key('N'));
    assert_eq!(app.offset, 0);
    app.on_key(key('N'));
    assert_eq!(app.offset, 0);
}

#[test]
fn enter_collapses_current_card_only() {
    let mut app = three_cards();
    app.on_key(key('g'));
    app.on_key(key('n'));
    app.on_key(press(KeyCode::Enter));
    assert!(app.cards[1].collapsed);
    assert!(!app.cards[0].collapsed && !app.cards[2].collapsed);
    // header + blank for card 1
    assert_eq!(app.total_lines(), 12);
    assert_eq!(app.offset, 5);
    assert_eq!(app.current_card(), Some(1));
    assert_eq!(headers(&app).len(), 3);
    app.on_key(press(KeyCode::Enter));
    assert!(!app.cards[1].collapsed);
    assert_eq!(app.total_lines(), 15);
}

#[test]
fn z_toggles_all() {
    let mut app = three_cards();
    app.on_key(key('z'));
    assert!(app.cards.iter().all(|c| c.collapsed));
    assert_eq!(app.total_lines(), 6);
    app.cards[0].collapsed = false;
    app.rebuild_lines();
    // One expanded card means z collapses again.
    app.on_key(key('z'));
    assert!(app.cards.iter().all(|c| c.collapsed));
    app.on_key(key('z'));
    assert!(app.cards.iter().all(|c| !c.collapsed));
    assert_eq!(app.total_lines(), 15);
}

#[test]
fn help_swallows_keys_until_closed() {
    let mut app = three_cards();
    app.on_key(key('?'));
    assert!(app.help);
    app.on_key(key('q'));
    assert!(!app.help && !app.quit);
    app.on_key(key('?'));
    app.on_key(key('v'));
    assert_eq!(app.view_mode(), ViewMode::SideBySide);
    app.on_key(press(KeyCode::Esc));
    assert!(!app.help);
    app.on_key(key('q'));
    assert!(app.quit);
    assert!(help_lines().len() == KEYS.len());
}

#[test]
fn ctrl_c_quits_even_from_the_help() {
    let mut app = three_cards();
    app.on_key(key('?'));
    app.on_key(key('c'));
    assert!(!app.quit);
    app.on_key(ctrl('c'));
    assert!(app.quit);
}

#[test]
fn scrolling_up_pauses_follow_and_down_resumes_it() {
    let mut app = three_cards();
    assert_eq!((app.offset, app.follow), (11, true));
    app.on_key(key('k'));
    assert_eq!((app.offset, app.follow), (10, false));
    app.on_key(ctrl('u'));
    assert_eq!(app.offset, 8);
    app.on_key(press(KeyCode::PageUp));
    assert_eq!(app.offset, 4);
    app.on_mouse(MouseEvent::ScrollUp);
    assert_eq!(app.offset, 4 - WHEEL_STEP);
    app.on_key(press(KeyCode::Up));
    app.on_key(press(KeyCode::Up));
    assert_eq!(app.offset, 0);
    app.on_key(ctrl('d'));
    assert_eq!(app.offset, 2);
    app.on_mouse(MouseEvent::ScrollDown);
    assert_eq!((app.offset, app.follow), (5, false));
    app.on_key(press(KeyCode::PageDown));
    app.on_key(press(KeyCode::PageDown));
    assert_eq!((app.offset, app.follow), (11, true));
    app.on_key(key('g'));
    assert_eq!((app.offset, app.follow), (0, false));
    app.on_key(key('G'));
    assert_eq!((app.offset, app.follow), (11, true));
    app.on_key(key('p'));
    assert_eq!((app.offset, app.follow), (11, false));
    app.on_key(key('x'));
    app.on_key(press(KeyCode::Other));
    app.on_mouse(MouseEvent::Other);
    assert_eq!((app.offset, app.follow), (11, false));
}

#[test]
fn new_cards_move_the_view_only_while_following() {
    let mut app = three_cards();
    app.add_cards(vec![input("s1")]);
    assert_eq!(app.offset, 16);
    app.on_key(key('g'));
    app.add_cards(vec![input("s1"), input("s2")]);
    assert_eq!(app.offset, 0);
    assert_eq!(app.cards.len(), 6);
    assert_eq!(app.total_lines(), 30);
    assert_eq!(app.sessions, ["s1", "s2"]);
    let before: Vec<Line> = app.lines.clone();
    app.add_cards(Vec::new());
    assert_eq!(app.lines, before);
}

#[test]
fn scratch_files_are_hidden_until_asked_for() {
    let mut app = app();
    let mut scratch = input_named("s1", "/tmp/helper-1/n.txt");
    scratch.temp = true;
    app.add_cards(vec![input("s1"), scratch]);
    assert_eq!(app.visible_cards(), 1);
    assert!(status(&app).contains("card: 1/1  temp: 1 hidden  follow: on"));
    let before: Vec<Line> = app.lines.clone();
    app.on_key(key('o'));
    assert_eq!(app.visible_cards(), 2);
    assert!(!status(&app).contains("temp:"));
    app.on_key(key('o'));
    assert_eq!(app.lines, before);
}

#[test]
fn toggling_twice_shows_the_same_feed() {
    let mut app = three_cards();
    let before: Vec<Line> = app.lines.clone();
    for c in ['v', 'w', 'o'] {
        app.on_key(key(c));
        app.on_key(key(c));
        assert_eq!(app.lines, before, "{c}");
    }
}

#[test]
fn the_status_bar_names_the_directory() {
    let plain = app();
    assert_eq!(
        plain.status(200, &None),
        " /p  session: all  card: 0/0  follow: on  view: split  wrap: on  ? help"
    );
    let repo = CwdInfo { common_dir: "/h/r/.git".into(), toplevel: "/h/r".into() };
    let app = app_in("/h/r/src", Some(repo), 80);
    let home = Some("/h".to_string());
    assert!(app.status(200, &home).starts_with(" ~/r  session: all"));
    // Cut from the left so that the state fields stay visible.
    let narrow = app.status(70, &None);
    assert!(narrow.starts_with(" …"), "{narrow}");
    assert!(narrow.ends_with("? help"), "{narrow}");
    assert_eq!(tilde("/h/x/y", &home), "~/x/y");
    assert_eq!(tilde("/hx", &home), "/hx");
}

#[test]
fn the_viewport_has_at_least_one_line() {
    let mut app = three_cards();
    app.set_viewport(0);
    assert_eq!(app.visible_lines().len(), 1);
    app.on_key(key('g'));
    app.set_viewport(4);
    assert_eq!(app.visible_lines(), app.lines[..4].to_vec());
    app.set_viewport(100);
    assert_eq!(app.visible_lines().len(), 15);
    assert_eq!(app.all_lines().len(), 15);
}

/// The rows of a screen of that size, as `ui::draw` composes them.
fn rows(app: &mut App, height: u16, spool_exists: bool) -> Vec<String> {
    let body = height - 1;
    let s = ui::draw(app, body - 1, body, 80, spool_exists, &None);
    let mut rows: Vec<String> = Vec::new();
    if let Some(pin) = &s.pin {
        rows.push(pin.text());
    }
    rows.extend(s.feed.iter().map(Line::text));
    rows.truncate(body as usize);
    while rows.len() < body as usize {
        rows.push(String::new());
    }
    rows.push(s.status);
    rows
}

fn feed() -> App {
    let mut app = app();
    for p in ["a.txt", "b.txt", "c.txt"] {
        app.push_card(input_named("s1", p));
    }
    app.rebuild_lines();
    app.on_key(key('g'));
    app
}

#[test]
fn header_not_duplicated_at_card_start() {
    let mut app = feed();
    let rows = rows(&mut app, 6, true);
    assert!(rows[0].starts_with("── a.txt"), "{}", rows[0]);
    assert!(rows[1].starts_with("── @@"), "{}", rows[1]);
    assert!(rows[5].contains("card: 1/3"), "{}", rows[5]);
}

#[test]
fn sticky_header_pinned_when_scrolled_into_card() {
    let mut app = feed();
    rows(&mut app, 6, true);
    // Two lines into card b: its header is off screen but pinned.
    app.offset = 7;
    let rows = rows(&mut app, 6, true);
    assert!(rows[0].starts_with("── b.txt"), "{}", rows[0]);
    assert!(!rows[1].starts_with("── b.txt"), "{}", rows[1]);
    assert!(rows[5].contains("card: 2/3"), "{}", rows[5]);
}

#[test]
fn help_overlay_draws_key_table() {
    let mut app = feed();
    app.on_key(key('?'));
    let s = ui::draw(&mut app, 22, 23, 80, true, &None);
    let help = s.help.unwrap();
    assert!(help.iter().any(|l| l.text().contains("collapse / expand card")));
    let (width, height) = ui::framed_size(&help);
    assert_eq!(height as usize, KEYS.len() + 2);
    // The longest key has 20 columns, the longest action 27.
    assert_eq!(width, 1 + 20 + 2 + 27 + 1 + 2);
    assert_eq!(help[4].text(), " p                     toggle follow ");
    assert!(help[4].spans[0].style.bold && help[4].spans[1].style.dim);
}

#[test]
fn empty_state_mentions_spool_and_help() {
    let mut app = app();
    let rows = rows(&mut app, 8, true);
    assert!(rows.iter().any(|l| l.contains("Spool: ")), "{rows:#?}");
    assert!(
        rows.iter().any(|l| l.contains("Press ? for keys")),
        "{rows:#?}"
    );
    assert!(rows[7].contains("card: 0/0"), "{}", rows[7]);
}

#[test]
fn a_missing_spool_is_explained() {
    let mut app = app();
    let texts: Vec<String> = rows(&mut app, 8, false);
    assert_eq!(
        &texts[..6],
        [
            "",
            "  Waiting for Helper edits in /p",
            "  Spool: /p/events.jsonl",
            "  No spool file yet. Run `diffier install` and restart Helper.",
            "",
            "  Press ? for keys",
        ]
    );
}

#[test]
fn a_session_without_visible_cards_says_so() {
    let mut app = app();
    let mut scratch = input("sess-aaaaaa");
    scratch.temp = true;
    app.add_cards(vec![scratch, input("sess-bbbbbb")]);
    app.on_key(press(KeyCode::Tab));
    let texts = rows(&mut app, 8, true);
    assert_eq!(texts[1], "  No cards for session aaaaaa");
}
