use diffier::diff;
use diffier::dump::{dump, Filter};
use diffier::event::HookEvent;
use diffier::json::Json;
use diffier::paths::{scratch_prefixes, Agent};
use diffier::render::{LayoutOpts, ViewMode};
use diffier::session::{build_card, session_order, CardInput, Pipeline};
use diffier::snapshot::{Before, Probe};
use diffier::spool::{read_spools, scan_replay, CwdMatcher, MatchMode};
use diffier::syntax::Painter;

fn card(session: &str, path: &str, tool: &str, before: &str, after: &str) -> CardInput {
    CardInput {
        path: path.to_string(),
        file: format!("/p/{path}"),
        tool: tool.to_string(),
        ts: 0,
        agent: None,
        diff: diff::compute(&Before::Content(before.as_bytes().to_vec()), Some(after.as_bytes())),
        user_modified: false,
        session_id: Some(session.to_string()),
        worktree: None,
        root: "/p".to_string(),
        temp: false,
    }
}

/// The event that one spool line holds.
fn event(line: &str) -> HookEvent {
    let v = Json::parse_text(line).unwrap();
    let s = |k: &str| v.str_at(k).map(str::to_string);
    HookEvent {
        hook_event_name: s("hook_event_name").unwrap(),
        session_id: s("session_id"),
        cwd: s("cwd"),
        tool_name: s("tool_name"),
        tool_use_id: s("tool_use_id"),
        tool_input: v.get("tool_input").map(Json::copy),
        tool_response: v.get("tool_response").map(Json::copy),
        agent_id: s("agent_id"),
        agent_type: s("agent_type"),
        source: s("source"),
        ts: v.get("ts").and_then(|t| t.to_value().as_u64()),
    }
}

/// A stale session, then one with an edit, a write by a subagent, a long
/// line, an edit elsewhere, a command, and an edit that never ended.
const SPOOL: &str = r#"{"hook_event_name":"SessionStart","session_id":"s0","cwd":"/p","source":"startup","ts":1}
{"hook_event_name":"PostToolUse","session_id":"s0","cwd":"/p","tool_name":"Edit","tool_use_id":"t0","tool_input":{"file_path":"/p/stale.txt"},"ts":2}
{"hook_event_name":"SessionStart","session_id":"s1","cwd":"/p","source":"startup","ts":3}
{"hook_event_name":"PreToolUse","session_id":"s1","cwd":"/p","tool_name":"Edit","tool_use_id":"t1","tool_input":{"file_path":"/p/src/main.rs"},"ts":4}
{"hook_event_name":"PostToolUse","session_id":"s1","cwd":"/p","tool_name":"Edit","tool_use_id":"t1","tool_input":{"file_path":"/p/src/main.rs"},"ts":5}
{"hook_event_name":"PostToolUse","session_id":"s1","cwd":"/p","tool_name":"Write","tool_use_id":"t2","agent_id":"a1","agent_type":"Explore","tool_input":{"file_path":"/p/notes.txt"},"ts":6}
{"hook_event_name":"PostToolUse","session_id":"s1","cwd":"/p","tool_name":"NotebookEdit","tool_use_id":"t3","tool_input":{"notebook_path":"/p/n.ipynb"},"ts":7}
{"hook_event_name":"PostToolUse","session_id":"s2","cwd":"/somewhere/else","tool_name":"Edit","tool_use_id":"t4","tool_input":{"file_path":"/somewhere/else/a.rs"},"ts":8}
{"hook_event_name":"PostToolUse","session_id":"s1","cwd":"/p","tool_name":"Bash","tool_use_id":"t5","tool_input":{"command":"ls"},"ts":9}
{"hook_event_name":"PreToolUse","session_id":"s1","cwd":"/p","tool_name":"Edit","tool_use_id":"t6","tool_input":{"file_path":"/p/orphan.txt"},"ts":10}
"#;

/// What the hook and the disk have of an edit.
fn probe(tool_use_id: &str) -> Probe {
    let content = |s: &str| Some(s.as_bytes().to_vec());
    let (before, after) = match tool_use_id {
        "t1" => (
            content("fn main() {\n    println!(\"hi\");\n}\n"),
            content("fn main() {\n    println!(\"hello\");\n}\n"),
        ),
        "t2" => (content(""), content("note\n")),
        "t3" => (content("x\n"), content(&format!("{}\n", "cell ".repeat(20)))),
        _ => (None, None),
    };
    Probe {
        before,
        absent: false,
        toolarge: false,
        error: false,
        after,
        after_absent: false,
        on_disk: None,
    }
}

/// The pipeline after a replay of `spool`, where it ends, and its cards.
fn replay(spool: &str) -> (Pipeline, u64, Vec<CardInput>) {
    let (lines, offset) = read_spools(&Vec::new(), &spool.as_bytes().to_vec());
    let events: Vec<HookEvent> = lines.iter().map(|l| event(l)).collect();
    let mut matcher = CwdMatcher::new("/p".to_string(), None, None, MatchMode::CwdOnly);
    for ev in &events {
        if let Some(c) = matcher.unknown_cwd(ev) {
            matcher.resolve(c, &None, None);
        }
    }
    let replay = scan_replay(events, offset, &matcher);
    let agent = Agent { name: "helper".to_string(), title: "Helper".to_string() };
    let mut pipeline =
        Pipeline::new(matcher, "/snaps".to_string(), scratch_prefixes("/var/t", &agent));
    let cards = pipeline
        .replay(&replay.events)
        .into_iter()
        .map(|(i, req)| {
            let ev = &replay.events[i];
            build_card(req, ev, &probe(ev.tool_use_id.as_deref().unwrap_or("")), &None)
        })
        .collect();
    (pipeline, replay.offset, cards)
}

fn inputs() -> Vec<CardInput> {
    replay(SPOOL).2
}

fn all() -> Filter {
    Filter { session: None, all_files: false }
}

fn run(inputs: Vec<CardInput>, filter: &Filter, mode: ViewMode, width: u16, wrap: bool) -> String {
    let opts = LayoutOpts { mode, width, wrap };
    dump(inputs, filter, &Painter::new(), &opts).join("\n")
}

#[test]
fn dump_subcommand_prints_cards() {
    let stdout = run(inputs(), &all(), ViewMode::Unified, 100, true);
    assert!(stdout.contains("== src/main.rs · Edit · "), "{stdout}");
    assert!(stdout.contains("-    println!(\"hi\");"), "{stdout}");
    assert!(stdout.contains("== notes.txt · Write · "), "{stdout}");
    assert!(stdout.contains("[Explore]"), "{stdout}");
    assert!(!stdout.contains("orphan"), "{stdout}");
    assert!(!stdout.contains("somewhere/else"), "{stdout}");
}

#[test]
fn a_replay_leaves_out_what_is_not_in_play() {
    let (pipeline, offset, cards) = replay(SPOOL);
    // One session is left, so headers carry no tag.
    assert_eq!(session_order(&cards).len(), 1);
    // The edit that never ended stays pending.
    assert_eq!(pipeline.pending_len(), 1);
    assert_eq!(pipeline.session_id.as_deref(), Some("s1"));
    assert_eq!(offset, SPOOL.len() as u64);
    let paths: Vec<&str> = cards.iter().map(|c| c.path.as_str()).collect();
    assert_eq!(paths, ["src/main.rs", "notes.txt", "n.ipynb"]);
}

#[test]
fn dump_side_by_side_flag_splits() {
    let stdout = run(inputs(), &all(), ViewMode::SideBySide, 120, true);
    let row = stdout
        .lines()
        .find(|l| l.contains("-    println!(\"hi\");"))
        .unwrap_or_else(|| panic!("{stdout}"));
    assert!(
        row.contains("│") && row.contains("+    println!(\"hello\");"),
        "{row}"
    );
    // Below the threshold the same flag prints unified.
    let narrow = run(inputs(), &all(), ViewMode::SideBySide, 80, true);
    assert!(!narrow.contains('│'), "{narrow}");
    assert!(narrow.contains("── @@ -1,3 +1,3 @@ ─"), "{narrow}");
}

#[test]
fn dump_no_wrap_flag_cuts_long_lines() {
    // The notebook line is longer than a 40-column unified layout allows.
    let wrapped = run(inputs(), &all(), ViewMode::Unified, 40, true);
    assert!(!wrapped.contains('…'), "{wrapped}");
    let cut = run(inputs(), &all(), ViewMode::Unified, 40, false);
    assert!(cut.contains('…'), "{cut}");
    assert!(cut.lines().count() < wrapped.lines().count());
}

#[test]
fn dump_session_filter_matches_prefix_or_suffix() {
    for needle in ["s1", "1"] {
        let filter = Filter { session: Some(needle.to_string()), all_files: false };
        let stdout = run(inputs(), &filter, ViewMode::Unified, 100, true);
        assert!(stdout.contains("== src/main.rs"), "{needle}: {stdout}");
    }
    for needle in ["s0", "zz"] {
        let filter = Filter { session: Some(needle.to_string()), all_files: false };
        let stdout = run(inputs(), &filter, ViewMode::Unified, 100, true);
        assert!(stdout.trim().is_empty(), "{needle}: {stdout}");
    }
}

#[test]
fn dump_hides_temp_dir_edits_without_all_files() {
    let spool = format!(
        "{SPOOL}{{\"session_id\":\"s1\",\"cwd\":\"/p\",\"hook_event_name\":\"PostToolUse\",\"tool_name\":\"Write\",\"tool_use_id\":\"sp1\",\"tool_input\":{{\"file_path\":\"/tmp/helper-1/proj/s1/scratchpad/note.txt\"}},\"ts\":9001}}\n"
    );
    let stdout = run(replay(&spool).2, &all(), ViewMode::Unified, 100, true);
    assert!(!stdout.contains("scratchpad"), "{stdout}");
    assert!(stdout.contains("== notes.txt"), "{stdout}");
    let filter = Filter { session: None, all_files: true };
    let stdout = run(replay(&spool).2, &filter, ViewMode::Unified, 100, true);
    assert!(
        stdout.contains("== /tmp/helper-1/proj/s1/scratchpad/note.txt · Write · "),
        "{stdout}"
    );
}

#[test]
fn tags_appear_with_a_second_session_even_when_it_is_filtered_out() {
    let two = || vec![card("sess-aaaaaa", "a", "Edit", "x", "y"), card("sess-bbbbbb", "b", "Edit", "x", "y")];
    let filter = Filter { session: Some("aaaaaa".to_string()), all_files: false };
    let stdout = run(two(), &filter, ViewMode::Unified, 100, true);
    assert!(stdout.starts_with("== aaaaaa · a · Edit"), "{stdout}");
    assert!(!stdout.contains("bbbbbb"), "{stdout}");
    let one = vec![card("sess-aaaaaa", "a", "Edit", "x", "y")];
    assert!(run(one, &filter, ViewMode::Unified, 100, true).starts_with("== a · Edit"));
}

#[test]
fn a_card_is_a_header_a_body_and_a_blank_line() {
    let opts = LayoutOpts { mode: ViewMode::Unified, width: 40, wrap: true };
    let lines = dump(vec![card("s", "f", "Edit", "a\n", "b\n")], &all(), &Painter::new(), &opts);
    assert_eq!(lines.len(), 5);
    assert_eq!(lines[0], "== f · Edit · --:--:-- · Modified · +1 -1");
    assert!(lines[1].starts_with("── @@ -1,1 +1,1 @@ ─"));
    assert_eq!(lines[2].trim_end(), "  1     -a");
    assert_eq!(lines[3].trim_end(), "      1 +b");
    assert_eq!(lines[4], "");
}
