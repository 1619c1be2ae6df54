use diffier::diff::{DiffKind, DiffResult, RowKind};
use diffier::event::HookEvent;
use diffier::json::Json;
use diffier::paths::{scratch_prefixes, Agent};
use diffier::session::{
    build_card, session_matches, session_order, CardInput, Pipeline, PENDING_TTL_MS,
};
use diffier::snapshot::Probe;
use diffier::spool::{CwdInfo, CwdMatcher, MatchMode};

/// The event that one spool line holds.
fn event(line: &str) -> HookEvent {
    let v = Json::parse_text(line).unwrap();
    let s = |k: &str| v.str_at(k).map(str::to_string);
    HookEvent {
        hook_event_name: s("hook_event_name").unwrap(),
        session_id: s("session_id"),
        cwd: s("cwd"),
        tool_name: s("tool_name"),
        tool_use_id: s("tool_use_id"),
        tool_input: v.get("tool_input").map(Json::copy),
        tool_response: v.get("tool_response").map(Json::copy),
        agent_id: s("agent_id"),
        agent_type: s("agent_type"),
        source: s("source"),
        ts: v.get("ts").and_then(|t| t.to_value().as_u64()),
    }
}

fn nothing() -> Probe {
    Probe {
        before: None,
        absent: false,
        toolarge: false,
        error: false,
        after: None,
        after_absent: false,
        on_disk: None,
    }
}

fn scratch_dirs() -> Vec<String> {
    let agent = Agent { name: "helper".to_string(), title: "Helper".to_string() };
    scratch_prefixes("/var/t", &agent)
}

/// A pipeline that follows `/p/proj` alone.
fn pipeline() -> Pipeline {
    let matcher = CwdMatcher::new("/p/proj".to_string(), None, None, MatchMode::CwdOnly);
    Pipeline::new(matcher, "/snaps".to_string(), scratch_dirs())
}

/// Looks the event's directory up, handles it, and builds the card it asks
/// for.
fn handle(p: &mut Pipeline, ev: &HookEvent, probe: &Probe) -> Option<CardInput> {
    if let Some(c) = p.matcher.unknown_cwd(ev) {
        p.matcher.resolve(c, &None, None);
    }
    p.handle(ev).map(|req| build_card(req, ev, probe, &None))
}

fn unified(d: &DiffResult) -> String {
    d.rows()
        .iter()
        .map(|r| {
            let m = match r.kind {
                RowKind::Equal => ' ',
                RowKind::Delete => '-',
                RowKind::Insert => '+',
            };
            format!("{m}{}\n", r.text())
        })
        .collect()
}

#[test]
fn pre_then_post_builds_card_from_snapshot() {
    let mut p = pipeline();
    let pre = event(
        r#"{"hook_event_name":"PreToolUse","session_id":"s1","cwd":"/p/proj","tool_name":"Edit","tool_use_id":"t1","tool_input":{"file_path":"/p/proj/src/a.rs"},"ts":1000}"#,
    );
    assert!(handle(&mut p, &pre, &nothing()).is_none());
    assert_eq!(p.pending_len(), 1);
    let post = event(
        r#"{"hook_event_name":"PostToolUse","session_id":"s1","cwd":"/p/proj","tool_name":"Edit","tool_use_id":"t1","tool_input":{"file_path":"/p/proj/src/a.rs"},"tool_response":{"userModified":true},"agent_type":"Explore","ts":2000}"#,
    );
    let probe = Probe {
        before: Some(b"old\n".to_vec()),
        on_disk: Some(b"new\n".to_vec()),
        ..nothing()
    };
    let card = handle(&mut p, &post, &probe).expect("card");
    assert_eq!(p.pending_len(), 0);
    assert_eq!(card.path, "src/a.rs");
    assert_eq!(card.tool, "Edit");
    assert_eq!(card.ts, 2000);
    assert_eq!(card.agent.as_deref(), Some("Explore"));
    assert!(card.user_modified);
    assert_eq!(card.diff.kind, DiffKind::Modified);
    assert!(unified(&card.diff).contains("-old\n+new\n"));
}

const POST_A: &str = r#"{"hook_event_name":"PostToolUse","session_id":"s1","cwd":"/p/proj","tool_name":"Edit","tool_use_id":"t1","tool_input":{"file_path":"/p/proj/a.rs"}}"#;

#[test]
fn after_snapshot_wins_over_the_file_on_disk() {
    let mut p = pipeline();
    let probe = Probe {
        before: Some(b"one\n".to_vec()),
        // What the file looked like right after this edit...
        after: Some(b"two\n".to_vec()),
        // ...and what a later edit has since made of it.
        on_disk: Some(b"three\n".to_vec()),
        ..nothing()
    };
    let card = handle(&mut p, &event(POST_A), &probe).unwrap();
    let text = unified(&card.diff);
    assert!(text.contains("-one\n+two\n"), "{text}");
    assert!(!text.contains("three"));
}

#[test]
fn after_absent_marker_reports_deletion_despite_a_file_on_disk() {
    let mut p = pipeline();
    let probe = Probe {
        before: Some(b"gone\n".to_vec()),
        after_absent: true,
        on_disk: Some(b"recreated\n".to_vec()),
        ..nothing()
    };
    let card = handle(&mut p, &event(POST_A), &probe).unwrap();
    assert_eq!(card.diff.kind, DiffKind::Deleted);
}

#[test]
fn other_cwd_and_non_file_tools_ignored() {
    let mut p = pipeline();
    let other = event(
        r#"{"hook_event_name":"PostToolUse","cwd":"/elsewhere","tool_name":"Edit","tool_use_id":"x","tool_input":{"file_path":"/elsewhere/f"}}"#,
    );
    assert!(handle(&mut p, &other, &nothing()).is_none());
    let bash = event(
        r#"{"hook_event_name":"PostToolUse","cwd":"/p/proj","tool_name":"Bash","tool_use_id":"b","tool_input":{"command":"ls"}}"#,
    );
    assert!(handle(&mut p, &bash, &nothing()).is_none());
}

#[test]
fn session_start_clears_pending_except_compact() {
    let mut p = pipeline();
    let pre = event(
        r#"{"hook_event_name":"PreToolUse","cwd":"/p/proj","tool_name":"Edit","tool_use_id":"t","tool_input":{"file_path":"/x"}}"#,
    );
    handle(&mut p, &pre, &nothing());
    handle(
        &mut p,
        &event(
            r#"{"hook_event_name":"SessionStart","cwd":"/p/proj","source":"compact","session_id":"s9"}"#,
        ),
        &nothing(),
    );
    assert_eq!(p.pending_len(), 1);
    assert_eq!(p.session_id.as_deref(), Some("s9"));
    handle(
        &mut p,
        &event(r#"{"hook_event_name":"SessionStart","cwd":"/p/proj","source":"startup"}"#),
        &nothing(),
    );
    assert_eq!(p.pending_len(), 0);
}

#[test]
fn prune_drops_old_pending() {
    let mut p = pipeline();
    handle(
        &mut p,
        &event(
            r#"{"hook_event_name":"PreToolUse","cwd":"/p/proj","tool_name":"Edit","tool_use_id":"t","tool_input":{"file_path":"/x"},"ts":1000}"#,
        ),
        &nothing(),
    );
    p.prune_pending(1000 + PENDING_TTL_MS - 1);
    assert_eq!(p.pending_len(), 1);
    p.prune_pending(1000 + PENDING_TTL_MS);
    assert_eq!(p.pending_len(), 0);
}

#[test]
fn post_without_pre_still_renders() {
    let mut p = pipeline();
    let post = event(
        r#"{"hook_event_name":"PostToolUse","session_id":"s","cwd":"/p/proj","tool_name":"Write","tool_use_id":"w","tool_input":{"file_path":"/p/proj/n.txt","content":"hello\n"},"tool_response":{"type":"create","originalFile":""}}"#,
    );
    let probe = Probe { on_disk: Some(b"hello\n".to_vec()), ..nothing() };
    let card = handle(&mut p, &post, &probe).unwrap();
    assert_eq!(card.path, "n.txt");
    assert_eq!(card.diff.kind, DiffKind::Modified);
    assert!(unified(&card.diff).contains("+hello\n"));
}

#[test]
fn a_session_start_spares_other_sessions() {
    let mut p = pipeline();
    for (s, t) in [("a", "t1"), ("b", "t2")] {
        let pre = event(&format!(
            r#"{{"hook_event_name":"PreToolUse","session_id":"{s}","cwd":"/p/proj","tool_name":"Edit","tool_use_id":"{t}","tool_input":{{"file_path":"/x"}}}}"#
        ));
        handle(&mut p, &pre, &nothing());
    }
    assert_eq!(p.pending_len(), 2);
    let start = event(
        r#"{"hook_event_name":"SessionStart","session_id":"a","cwd":"/p/proj","source":"startup"}"#,
    );
    handle(&mut p, &start, &nothing());
    assert_eq!(p.pending_len(), 1);
    assert_eq!(p.pending[0].1.session_id.as_deref(), Some("b"));
}

#[test]
fn what_the_post_event_lacks_comes_from_the_pre_event() {
    let mut p = pipeline();
    let pre = event(
        r#"{"hook_event_name":"PreToolUse","session_id":"s","cwd":"/p/proj","tool_name":"Edit","tool_use_id":"t","tool_input":{"file_path":"/p/proj/a"},"agent_type":"Plan","ts":7}"#,
    );
    handle(&mut p, &pre, &nothing());
    let post = event(
        r#"{"hook_event_name":"PostToolUse","session_id":"s","cwd":"/p/proj","tool_name":"Edit","tool_use_id":"t"}"#,
    );
    let card = handle(&mut p, &post, &nothing()).unwrap();
    assert_eq!(card.path, "a");
    assert_eq!(card.agent.as_deref(), Some("Plan"));
}

#[test]
fn batches_replay_like_the_whole() {
    let lines = [
        r#"{"hook_event_name":"SessionStart","session_id":"s","cwd":"/p/proj","source":"startup"}"#,
        r#"{"hook_event_name":"PreToolUse","session_id":"s","cwd":"/p/proj","tool_name":"Edit","tool_use_id":"t1","tool_input":{"file_path":"/p/proj/a"}}"#,
        r#"{"hook_event_name":"PostToolUse","session_id":"s","cwd":"/p/proj","tool_name":"Edit","tool_use_id":"t1","tool_input":{"file_path":"/p/proj/a"}}"#,
        r#"{"hook_event_name":"PostToolUse","session_id":"s","cwd":"/p/proj","tool_name":"Write","tool_use_id":"t2","tool_input":{"file_path":"/p/proj/b"}}"#,
    ];
    let events = |from: usize, to: usize| -> Vec<HookEvent> {
        lines[from..to].iter().map(|l| event(l)).collect()
    };
    let mut whole = pipeline();
    whole.matcher.resolve("/p/proj", &None, None);
    let all = whole.replay(&events(0, 4));
    assert_eq!(all.iter().map(|(i, _)| *i).collect::<Vec<_>>(), [2, 3]);

    let mut parts = pipeline();
    parts.matcher.resolve("/p/proj", &None, None);
    let mut pieces: Vec<String> = Vec::new();
    for (from, to) in [(0, 2), (2, 4)] {
        for (_, req) in parts.replay(&events(from, to)) {
            pieces.push(req.file);
        }
    }
    let files: Vec<String> = all.into_iter().map(|(_, req)| req.file).collect();
    assert_eq!(pieces, files);
    assert_eq!(parts.session_id, whole.session_id);
    assert_eq!(parts.pending_len(), whole.pending_len());
}

fn git(common: &str, top: &str) -> Option<CwdInfo> {
    Some(CwdInfo { common_dir: common.to_string(), toplevel: top.to_string() })
}

fn write(cwd: &str, file: &str) -> HookEvent {
    event(&format!(
        r#"{{"hook_event_name":"PostToolUse","session_id":"s","cwd":"{cwd}","tool_name":"Write","tool_use_id":"{file}","tool_input":{{"file_path":"{file}"}},"tool_response":{{"originalFile":""}}}}"#
    ))
}

#[test]
fn worktree_cards_carry_the_basename_and_relative_path() {
    let matcher = CwdMatcher::new(
        "/r/main".to_string(),
        Some("/r/main".to_string()),
        git("/r/main/.git", "/r/main"),
        MatchMode::Repo,
    );
    let mut p = Pipeline::new(matcher, "/r/snaps".to_string(), scratch_dirs());
    let probe = Probe { on_disk: Some(b"x\n".to_vec()), ..nothing() };

    p.matcher.resolve("/r/wt", &Some("/r/wt".to_string()), git("/r/main/.git", "/r/wt"));
    let ev = write("/r/wt", "/r/wt/a.rs");
    let req = p.handle(&ev).expect("worktree card");
    let card = build_card(req, &ev, &probe, &None);
    assert_eq!(card.worktree.as_deref(), Some("wt"));
    assert_eq!(card.path, "a.rs");
    assert_eq!(card.root, "/r/wt");

    p.matcher.resolve("/r/main/src", &Some("/r/main/src".to_string()), git("/r/main/.git", "/r/main"));
    let ev = write("/r/main/src", "/r/main/src/a.rs");
    let req = p.handle(&ev).expect("subdir card");
    let card = build_card(req, &ev, &probe, &None);
    assert_eq!(card.worktree, None);
    assert_eq!(card.path, "src/a.rs");
    assert_eq!(card.root, "/r/main");
}

#[test]
fn cards_of_scratch_files_are_marked() {
    let mut p = pipeline();
    let ev = write("/p/proj", "/tmp/helper-1/note.txt");
    assert!(handle(&mut p, &ev, &nothing()).unwrap().temp);
    let ev = write("/p/proj", "/tmp/note.txt");
    let card = handle(&mut p, &ev, &nothing()).unwrap();
    assert!(!card.temp);
    assert_eq!(card.path, "/tmp/note.txt");
}

#[test]
fn sessions_come_in_the_order_of_their_first_card() {
    let mut p = pipeline();
    let mut inputs: Vec<CardInput> = Vec::new();
    for s in ["b", "a", "b", "c"] {
        let mut card = handle(&mut p, &write("/p/proj", "/p/proj/f"), &nothing()).unwrap();
        card.session_id = Some(s.to_string());
        inputs.push(card);
    }
    let mut none = inputs[0].clone();
    none.session_id = None;
    inputs.push(none);
    assert_eq!(session_order(&inputs), ["b", "a", "c"]);
}

#[test]
fn a_session_is_picked_by_either_end_or_its_tag() {
    let id = "sess-ab12cd";
    for needle in ["sess", "ab12cd", "sess-ab12cd", "feat-x:ab12cd", ""] {
        assert!(session_matches(id, needle), "{needle}");
    }
    for needle in ["b12c", "zz", "feat-x:", "ab12cd:zz"] {
        assert!(!session_matches(id, needle), "{needle}");
    }
}
