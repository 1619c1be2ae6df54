use diffier::event::HookEvent;
use diffier::json::Json;
use diffier::spool::{
    git_paths, parse_complete_lines, read_spools, same_cwd, scan_replay, select_session, CwdInfo,
    CwdMatch, CwdMatcher, MatchMode, SpoolTailer, NO_BOUNDARY_TAIL,
};

/// The event that one spool line holds, if it holds one.
fn try_event(line: &str) -> Option<HookEvent> {
    let v = Json::parse_text(line)?;
    let s = |k: &str| v.str_at(k).map(str::to_string);
    Some(HookEvent {
        hook_event_name: s("hook_event_name")?,
        session_id: s("session_id"),
        cwd: s("cwd"),
        tool_name: s("tool_name"),
        tool_use_id: s("tool_use_id"),
        tool_input: v.get("tool_input").map(Json::copy),
        tool_response: v.get("tool_response").map(Json::copy),
        agent_id: s("agent_id"),
        agent_type: s("agent_type"),
        source: s("source"),
        ts: v.get("ts").and_then(|t| t.to_value().as_u64()),
    })
}

fn event(line: &str) -> HookEvent {
    try_event(line).unwrap()
}

const CWD: &str = "/p/proj";

fn line(event: &str, cwd: &str, extra: &str) -> String {
    format!(r#"{{"hook_event_name":"{event}","cwd":"{cwd}"{extra}}}"#)
}

fn parse(lines: &[String]) -> Vec<HookEvent> {
    lines.iter().map(|l| event(l)).collect()
}

/// A matcher for the directory alone that knows the directories of `events`.
fn matcher(events: &[HookEvent]) -> CwdMatcher {
    let mut m = CwdMatcher::new(CWD.to_string(), None, None, MatchMode::CwdOnly);
    for ev in events {
        if let Some(c) = m.unknown_cwd(ev) {
            m.resolve(c, &None, None);
        }
    }
    m
}

fn select(all: Vec<HookEvent>) -> Vec<HookEvent> {
    let m = matcher(&all);
    select_session(all, &m)
}

fn ids(events: &[HookEvent]) -> Vec<String> {
    events
        .iter()
        .filter_map(|e| e.tool_use_id.clone())
        .collect()
}

/// A spool that grows, and its inode.
fn poll(t: &mut SpoolTailer, ino: u64, content: &str) -> Vec<HookEvent> {
    match t.poll(ino, content.len() as u64) {
        Some(at) => t
            .absorb(&content.as_bytes()[at as usize..].to_vec())
            .iter()
            .filter_map(|l| try_event(l))
            .collect(),
        None => Vec::new(),
    }
}

#[test]
fn partial_line_is_buffered_until_complete() {
    let mut t = SpoolTailer::new(0, 7);
    let mut f = r#"{"hook_event_name":"Pre"#.to_string();
    assert!(poll(&mut t, 7, &f).is_empty());
    f.push_str("ToolUse\",\"cwd\":\"/x\"}\n");
    let got = poll(&mut t, 7, &f);
    assert_eq!(got.len(), 1);
    assert_eq!(got[0].hook_event_name, "PreToolUse");
    assert!(poll(&mut t, 7, &f).is_empty());
    assert_eq!(t.offset(), f.len() as u64);
}

#[test]
fn malformed_lines_are_skipped() {
    let buf = format!(
        "{}\nnot json\n{}\n",
        line("A", "/x", ""),
        line("B", "/x", "")
    );
    let (lines, consumed) = parse_complete_lines(&buf.as_bytes().to_vec());
    let events: Vec<HookEvent> = lines.iter().filter_map(|l| try_event(l)).collect();
    assert_eq!(
        events
            .iter()
            .map(|e| e.hook_event_name.as_str())
            .collect::<Vec<_>>(),
        ["A", "B"]
    );
    assert_eq!(consumed, buf.len());
}

#[test]
fn shrink_resets_offset() {
    let mut t = SpoolTailer::new(0, 7);
    let first = format!("{}\n{}\n", line("A", "/x", ""), line("B", "/x", ""));
    assert_eq!(poll(&mut t, 7, &first).len(), 2);
    // Rotate: replaced by a shorter file, with a new inode too.
    let got = poll(&mut t, 8, &format!("{}\n", line("C", "/x", "")));
    assert_eq!(got.len(), 1);
    assert_eq!(got[0].hook_event_name, "C");
}

#[test]
fn a_cut_file_is_read_from_its_start() {
    let mut t = SpoolTailer::new(0, 7);
    assert_eq!(poll(&mut t, 7, &format!("{}\n{{\"half", line("A", "/x", ""))).len(), 1);
    let got = poll(&mut t, 7, &format!("{}\n", line("B", "/x", "")));
    assert_eq!(got.len(), 1);
    assert_eq!(got[0].hook_event_name, "B");
}

#[test]
fn blank_and_invalid_lines_say_nothing() {
    let mut buf = b"  a \n\n \t\n".to_vec();
    buf.extend([0xff, b'\n', b'b', b'\r', b'\n', b'c']);
    let (lines, consumed) = parse_complete_lines(&buf);
    assert_eq!(lines, ["a", "b"]);
    assert_eq!(consumed, buf.len() - 1);
}

#[test]
fn pieces_read_like_the_whole() {
    let whole = "one\n\u{e9}t\u{e9}\n three\nfour";
    let (lines, _) = parse_complete_lines(&whole.as_bytes().to_vec());
    for cut in 0..whole.len() {
        let mut t = SpoolTailer::new(0, 1);
        let mut got = t.absorb(&whole.as_bytes()[..cut].to_vec());
        got.extend(t.absorb(&whole.as_bytes()[cut..].to_vec()));
        assert_eq!(got, lines);
        assert_eq!(t.buf, b"four");
    }
}

#[test]
fn boundary_is_last_non_compact_session_start_for_cwd() {
    let all = parse(&[
        line(
            "SessionStart",
            CWD,
            r#","session_id":"s1","source":"startup""#,
        ),
        line(
            "PostToolUse",
            CWD,
            r#","session_id":"s1","tool_use_id":"old""#,
        ),
        line(
            "SessionStart",
            "/elsewhere",
            r#","session_id":"s2","source":"startup""#,
        ),
        line(
            "SessionStart",
            CWD,
            r#","session_id":"s1","source":"startup""#,
        ),
        line("PostToolUse", CWD, r#","session_id":"s1","tool_use_id":"a""#),
        line(
            "SessionStart",
            CWD,
            r#","session_id":"s1","source":"compact""#,
        ),
        line(
            "PostToolUse",
            "/elsewhere",
            r#","session_id":"s2","tool_use_id":"z""#,
        ),
        line("PostToolUse", CWD, r#","session_id":"s1","tool_use_id":"b""#),
    ]);
    let sel = select(all);
    assert_eq!(ids(&sel), ["a", "b"]);
    assert!(sel[0].is_session_start());
    assert_eq!(sel.len(), 4);
}

#[test]
fn concurrent_session_in_same_cwd_keeps_its_history() {
    // Session a starts and edits, then session b starts in the same dir.
    // a keeps working, so its earlier cards must survive the replay.
    let all = parse(&[
        line("SessionStart", CWD, r#","session_id":"a","source":"startup""#),
        line("PostToolUse", CWD, r#","session_id":"a","tool_use_id":"a1""#),
        line("SessionStart", CWD, r#","session_id":"b","source":"startup""#),
        line("PostToolUse", CWD, r#","session_id":"b","tool_use_id":"b1""#),
        line("PostToolUse", CWD, r#","session_id":"a","tool_use_id":"a2""#),
    ]);
    assert_eq!(ids(&select(all)), ["a1", "b1", "a2"]);

    // Session a is idle after b starts: it is finished, so it drops out.
    let quiet = parse(&[
        line("SessionStart", CWD, r#","session_id":"a","source":"startup""#),
        line("PostToolUse", CWD, r#","session_id":"a","tool_use_id":"a1""#),
        line("SessionStart", CWD, r#","session_id":"b","source":"startup""#),
        line("PostToolUse", CWD, r#","session_id":"b","tool_use_id":"b1""#),
    ]);
    assert_eq!(ids(&select(quiet)), ["b1"]);
}

#[test]
fn restarted_session_drops_its_own_earlier_segment() {
    let all = parse(&[
        line("SessionStart", CWD, r#","session_id":"a","source":"startup""#),
        line("PostToolUse", CWD, r#","session_id":"a","tool_use_id":"old""#),
        line("SessionStart", CWD, r#","session_id":"a","source":"startup""#),
        line("PostToolUse", CWD, r#","session_id":"a","tool_use_id":"new""#),
    ]);
    assert_eq!(ids(&select(all)), ["new"]);
}

#[test]
fn no_boundary_falls_back_to_tail() {
    let all: Vec<HookEvent> = (0..NO_BOUNDARY_TAIL + 5)
        .map(|i| {
            event(&line(
                "PostToolUse",
                CWD,
                &format!(r#","tool_use_id":"{i}""#),
            ))
        })
        .collect();
    let sel = select(all);
    assert_eq!(sel.len(), NO_BOUNDARY_TAIL);
    assert_eq!(sel[0].tool_use_id.as_deref(), Some("5"));
}

#[test]
fn scan_replay_reports_offset_of_last_complete_line() {
    let full = format!("{}\n", line("SessionStart", CWD, r#","source":"startup""#));
    let spool = format!("{full}{{\"partial");
    let (lines, offset) = read_spools(&Vec::new(), &spool.into_bytes());
    let all = parse(&lines);
    let m = matcher(&all);
    let r = scan_replay(all, offset, &m);
    assert_eq!(r.events.len(), 1);
    assert_eq!(r.offset, full.len() as u64);
}

#[test]
fn scan_replay_includes_the_rotated_file() {
    // The session started before the spool rotated.
    let old = format!(
        "{}\n{}\n",
        line("SessionStart", CWD, r#","session_id":"s","source":"startup""#),
        line("PostToolUse", CWD, r#","session_id":"s","tool_use_id":"before""#)
    );
    let new = format!(
        "{}\n{}\n",
        line("SessionStart", CWD, r#","session_id":"s","source":"compact""#),
        line("PostToolUse", CWD, r#","session_id":"s","tool_use_id":"after""#)
    );
    let len = new.len() as u64;
    let (lines, offset) = read_spools(&old.into_bytes(), &new.into_bytes());
    let all = parse(&lines);
    let m = matcher(&all);
    let r = scan_replay(all, offset, &m);
    assert_eq!(ids(&r.events), ["before", "after"]);
    // The tail offset refers to the live spool only.
    assert_eq!(r.offset, len);
}

#[test]
fn cwd_matcher_caches_and_agrees_with_same_cwd() {
    let mut m = matcher(&[]);
    assert!(m.matches(CWD, &None, None));
    assert!(m.matches(&format!("{CWD}/"), &None, None));
    assert!(!m.matches("/somewhere/else", &None, None));
    assert_eq!(m.matches(CWD, &None, None), same_cwd(CWD, &None, CWD, &None));
    assert_eq!(
        m.matches("/somewhere/else", &None, None),
        same_cwd("/somewhere/else", &None, CWD, &None)
    );
}

#[test]
fn links_are_seen_through() {
    let real = Some("/private/p/proj".to_string());
    assert!(same_cwd("/private/p/proj", &real, CWD, &real));
    assert!(!same_cwd(CWD, &Some("/a".to_string()), CWD, &Some("/b".to_string())));
    assert!(same_cwd("/p/proj//", &None, CWD, &real));
}

#[test]
fn the_first_answer_is_kept() {
    let mut m = matcher(&[]);
    assert!(!m.matches("/x", &None, None));
    // The cache answers, whatever is found now.
    assert!(!m.matches("/x", &Some(CWD.to_string()), None));
    let ev = event(&line("A", "/x", ""));
    assert_eq!(m.unknown_cwd(&ev), None);
    assert!(!m.accepts(&ev));
    assert_eq!(m.resolve_event(&ev), None);
    assert_eq!(m.unknown_cwd(&event(&line("A", "/y", ""))), Some("/y"));
}

#[test]
fn answers_stay_whatever_else_is_asked() {
    let mut m = matcher(&[]);
    assert!(m.matches(CWD, &None, None));
    assert!(!m.matches("/x", &None, None));
    assert!(m.matches("/y", &None, None) == m.resolve("/y", &None, None).is_some());
    assert!(m.matches("/link", &Some("/real".to_string()), None) == false);
    for _ in 0..2 {
        assert!(m.matches(CWD, &Some("/moved".to_string()), None));
        assert_eq!(m.resolve("/x", &Some(CWD.to_string()), None), None);
        assert!(!m.matches("/link", &Some(CWD.to_string()), None));
    }
}

#[test]
fn repo_mode_falls_back_outside_a_repo() {
    let mut m = CwdMatcher::new(CWD.to_string(), None, None, MatchMode::Repo);
    assert!(!m.repo_mode());
    assert!(m.toplevel().is_none());
    assert_eq!(m.resolve(CWD, &None, None), Some(CwdMatch::Exact));
    assert_eq!(m.resolve("/somewhere/else", &None, None), None);
}

fn git(common: &str, top: &str) -> Option<CwdInfo> {
    Some(CwdInfo { common_dir: common.to_string(), toplevel: top.to_string() })
}

#[test]
fn cwd_only_never_consults_git() {
    let m = CwdMatcher::new(
        CWD.to_string(),
        Some(CWD.to_string()),
        git("/p/proj/.git", CWD),
        MatchMode::CwdOnly,
    );
    assert!(!m.repo_mode());
    assert!(!m.needs_git("/somewhere/else", &None));
}

#[test]
fn repo_mode_matches_every_worktree() {
    let main = "/r/main".to_string();
    let mut m = CwdMatcher::new(
        main.clone(),
        Some(main.clone()),
        git("/r/main/.git", "/r/main"),
        MatchMode::Repo,
    );
    assert!(m.repo_mode());
    assert_eq!(m.toplevel(), Some("/r/main"));
    let wt = Some("/r/wt".to_string());
    assert!(m.needs_git("/r/wt", &wt));
    assert!(!m.needs_git("/r/main", &Some(main.clone())));
    assert_eq!(
        m.resolve("/r/wt", &wt, git("/r/main/.git", "/r/wt")),
        Some(CwdMatch::Repo { toplevel: "/r/wt".to_string() })
    );
    assert_eq!(
        m.resolve("/r/main/src", &Some("/r/main/src".to_string()), git("/r/main/.git", "/r/main")),
        Some(CwdMatch::Repo { toplevel: main.clone() })
    );
    assert_eq!(m.resolve("/r", &Some("/r".to_string()), None), None);
    assert_eq!(m.resolve("/q", &None, git("/q/.git", "/q")), None);

    let mut exact = CwdMatcher::new(main.clone(), Some(main.clone()), None, MatchMode::CwdOnly);
    assert!(!exact.matches("/r/wt", &wt, None));
    assert!(exact.matches("/r/main", &Some(main), None));
}

#[test]
fn git_answers_two_paths() {
    assert_eq!(
        git_paths("/r/main/src", "../.git\n/r/main\n"),
        Some(("/r/main/src/../.git".to_string(), "/r/main".to_string()))
    );
    assert_eq!(
        git_paths("/r/wt", "/r/main/.git\n/r/wt"),
        Some(("/r/main/.git".to_string(), "/r/wt".to_string()))
    );
    assert_eq!(git_paths("/r", ".git\n"), None);
    assert_eq!(git_paths("/r", ""), None);
}
