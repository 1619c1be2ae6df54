use diffier::event::{is_file_tool_name, HookEvent};
use diffier::json::Json;

/// The event that one spool line holds.
fn event(line: &str) -> HookEvent {
    let v = Json::parse_text(line).unwrap();
    let s = |k: &str| v.str_at(k).map(str::to_string);
    HookEvent {
        hook_event_name: s("hook_event_name").unwrap(),
        session_id: s("session_id"),
        cwd: s("cwd"),
        tool_name: s("tool_name"),
        tool_use_id: s("tool_use_id"),
        tool_input: v.get("tool_input").map(Json::copy),
        tool_response: v.get("tool_response").map(Json::copy),
        agent_id: s("agent_id"),
        agent_type: s("agent_type"),
        source: s("source"),
        ts: v.get("ts").and_then(|t| t.to_value().as_f64()).map(|t| t as u64),
    }
}

#[test]
fn parses_edit_pre() {
    let ev = event(
        r#"{"session_id":"s1","cwd":"/p","hook_event_name":"PreToolUse","tool_name":"Edit","tool_use_id":"t1","tool_input":{"file_path":"/p/a.rs","old_string":"x","new_string":"y","replace_all":false},"ts":1700000000000}"#,
    );
    assert!(ev.is_pre());
    assert!(ev.is_file_tool());
    assert_eq!(ev.file_path().unwrap(), "/p/a.rs");
    assert_eq!(ev.ts_ms(), 1_700_000_000_000);
    assert_eq!(ev.input_str("old_string"), Some("x"));
}

#[test]
fn parses_write_post_with_response() {
    let ev = event(
        r#"{"hook_event_name":"PostToolUse","tool_name":"Write","tool_use_id":"t2","tool_input":{"file_path":"/p/b.txt","content":"hi"},"tool_response":{"type":"create","filePath":"/p/b.txt","originalFile":"","userModified":false}}"#,
    );
    assert!(ev.is_post());
    assert_eq!(ev.response_str("originalFile"), Some(""));
    assert_eq!(ev.response_bool("userModified"), Some(false));
    assert_eq!(ev.ts_ms(), 0);
}

#[test]
fn parses_multiedit_and_notebook() {
    let m = event(
        r#"{"hook_event_name":"PreToolUse","tool_name":"MultiEdit","tool_input":{"file_path":"/p/c.rs","edits":[{"old_string":"a","new_string":"b"}]}}"#,
    );
    assert!(m.is_file_tool());
    let n = event(
        r#"{"hook_event_name":"PreToolUse","tool_name":"NotebookEdit","tool_input":{"notebook_path":"/p/n.ipynb","cell_id":"1","new_source":"x"}}"#,
    );
    assert_eq!(n.file_path().unwrap(), "/p/n.ipynb");
}

#[test]
fn subagent_fields_and_float_ts() {
    let ev = event(
        r#"{"hook_event_name":"PostToolUse","tool_name":"Edit","agent_id":"a1","agent_type":"Explore","ts":1.7e12}"#,
    );
    assert_eq!(ev.agent_label().as_deref(), Some("Explore"));
    assert_eq!(ev.ts_ms(), 1_700_000_000_000);
    let only_id = event(r#"{"hook_event_name":"PostToolUse","agent_id":"a1"}"#);
    assert_eq!(only_id.agent_label().as_deref(), Some("subagent"));
}

#[test]
fn names_decide_what_an_event_is() {
    let start = event(r#"{"hook_event_name":"SessionStart","source":"startup"}"#);
    assert!(start.is_session_start() && start.is_boundary());
    assert!(!start.is_pre() && !start.is_post() && !start.is_file_tool());
    let compact = event(r#"{"hook_event_name":"SessionStart","source":"compact"}"#);
    assert!(compact.is_session_start() && !compact.is_boundary());
    let bash = event(r#"{"hook_event_name":"PostToolUse","tool_name":"Bash"}"#);
    assert!(!bash.is_file_tool());
    assert_eq!(bash.agent_label(), None);
    assert_eq!(bash.file_path(), None);
}

#[test]
fn only_the_four_tools_edit_files() {
    for name in ["Edit", "Write", "MultiEdit", "NotebookEdit"] {
        assert!(is_file_tool_name(name));
    }
    assert!(!is_file_tool_name("mcp__x__EditThing"));
    assert!(!is_file_tool_name("edit"));
}

#[test]
fn a_number_is_no_path() {
    let ev = event(r#"{"hook_event_name":"PreToolUse","tool_input":{"file_path":7,"content":"x"}}"#);
    assert_eq!(ev.file_path(), None);
    assert_eq!(ev.input_str("file_path"), None);
    assert_eq!(ev.response_bool("x"), None);
}
