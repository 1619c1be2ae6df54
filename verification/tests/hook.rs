use diffier::hook::{
    after_try, build_line, extract_fields, is_stale, must_rotate, plan, raw_line, snapshot_post,
    snapshot_pre, spool_line, Action, Capture, Fields, LockStep, OnDisk, Try, LOCK_TRIES,
    MAX_SNAPSHOT_BYTES, MAX_SPOOL_BYTES, PRUNE_AFTER,
};
use diffier::json::Json;
use serde_json::Value;

fn json(text: &str) -> Json {
    Json::parse_text(text).unwrap()
}

fn value(text: &str) -> Value {
    serde_json::from_str(text).unwrap()
}

#[test]
fn non_string_fields_are_absent() {
    let f = extract_fields(&json(
        r#"{
            "hook_event_name": "PreToolUse",
            "tool_name": ["Edit", "touch", "x"],
            "tool_use_id": 7,
            "session_id": "s",
            "tool_input": {"file_path": ["a", "b"]}
        }"#,
    ));
    assert_eq!(f.event, "PreToolUse");
    assert_eq!(f.tool_name, "");
    assert_eq!(f.tool_use_id, "");
    assert_eq!(f.file_path, "");
    assert!(!f.snapshots_file());
}

#[test]
fn notebook_path_is_the_fallback() {
    let f = extract_fields(&json(r#"{"tool_input": {"notebook_path": "/n.ipynb"}}"#));
    assert_eq!(f.file_path, "/n.ipynb");
    let f = extract_fields(&json(r#"{"tool_input": "not an object"}"#));
    assert_eq!(f.file_path, "");
}

#[test]
fn build_line_drops_bulk_and_stamps_ts() {
    let text = r#"{
        "tool_input": {"file_path": "/a", "content": "big"},
        "tool_response": {"content": "big", "structuredPatch": [], "originalFile": "old"}
    }"#;
    let Json::Object(obj) = json(text) else {
        unreachable!()
    };
    let line = build_line(obj, false, 1234);
    let v: Value = serde_json::from_slice(&line).unwrap();
    assert_eq!(v["tool_input"], value(r#"{"file_path": "/a"}"#));
    assert_eq!(v["tool_response"], value("{}"));
    assert_eq!(v["ts"], 1234);
    assert_eq!(line.last(), Some(&b'\n'));

    let Json::Object(obj) = json(text) else {
        unreachable!()
    };
    let v: Value = serde_json::from_slice(&build_line(obj, true, 1)).unwrap();
    assert_eq!(v["tool_response"], value(r#"{"originalFile": "old"}"#));
}

#[test]
fn raw_line_strips_newlines() {
    assert_eq!(raw_line(&b"{not json\nat all".to_vec()), b"{not jsonat all\n");
}

#[test]
fn prune_removes_only_stale_directories() {
    let old = (PRUNE_AFTER as u128 + 60) * 1_000_000_000;
    assert!(is_stale(true, Some(old)));
    assert!(!is_stale(true, Some(0)));
    assert!(!is_stale(false, Some(old)));
    assert!(!is_stale(true, None));
    assert!(!is_stale(true, Some(PRUNE_AFTER as u128 * 1_000_000_000)));
}

#[test]
fn empty_payload_writes_nothing() {
    assert!(plan("/cache", &Vec::new()).is_none());
}

#[test]
fn array_valued_file_path_is_not_a_path() {
    let payload = br#"{"hook_event_name":"PreToolUse","session_id":"s","tool_use_id":"t","tool_name":"Edit","cwd":"/p","tool_input":{"file_path":["x","touch","/tmp/pwned"]}}"#.to_vec();
    let p = plan("/cache", &payload).unwrap();
    assert_eq!(p.action, Action::Nothing);
    // The event is still spooled, and exactly once.
    let line = spool_line(p, &payload, false, 1);
    assert_eq!(line.iter().filter(|b| **b == b'\n').count(), 1);
    assert_eq!(line.last(), Some(&b'\n'));
}

#[test]
fn array_valued_tool_name_is_not_a_file_tool() {
    let payload = br#"{"hook_event_name":"PreToolUse","session_id":"s","tool_use_id":"t","tool_name":["Edit"],"cwd":"/p","tool_input":{"file_path":"/d/c.txt"}}"#.to_vec();
    assert_eq!(plan("/cache", &payload).unwrap().action, Action::Nothing);
}

#[test]
fn pre_and_post_snapshot_the_file_on_both_sides() {
    let pre = br#"{"hook_event_name":"PreToolUse","session_id":"s","tool_use_id":"t","tool_name":"Edit","cwd":"/p","tool_input":{"file_path":"/d/a.txt"}}"#.to_vec();
    let p = plan("/cache", &pre).unwrap();
    assert_eq!(p.action, Action::SnapshotPre);
    assert_eq!(p.base, "/cache/s/t");
    assert_eq!(p.fields.file_path, "/d/a.txt");
    assert_eq!(
        snapshot_pre(&p.base, OnDisk::File(7)),
        Capture::Copy {
            to: "/cache/s/t".to_string(),
            on_error: Some("/cache/s/t.error".to_string()),
        }
    );

    let post = br#"{"hook_event_name":"PostToolUse","session_id":"s","tool_use_id":"t","tool_name":"Edit","cwd":"/p","tool_input":{"file_path":"/d/a.txt","content":"after\n"},"tool_response":{"originalFile":"before\n","content":"junk"}}"#.to_vec();
    let p = plan("/cache", &post).unwrap();
    assert_eq!(p.action, Action::SnapshotPost);
    assert_eq!(
        snapshot_post(&p.base, OnDisk::File(6)),
        Capture::Copy { to: "/cache/s/t.after".to_string(), on_error: None }
    );

    // The large fields are dropped, and originalFile too since a snapshot exists.
    let post: Value = serde_json::from_slice(&spool_line(p, &post, true, 99)).unwrap();
    assert!(post["tool_response"].get("content").is_none());
    assert!(post["tool_response"].get("originalFile").is_none());
    assert!(post["tool_input"].get("content").is_none());
    assert_eq!(post["tool_input"]["file_path"].as_str().unwrap(), "/d/a.txt");
    assert_eq!(post["ts"].as_u64().unwrap(), 99);
    assert_eq!(post["session_id"], "s");
}

#[test]
fn original_file_is_kept_when_no_snapshot_exists() {
    // PostToolUse with no preceding PreToolUse: originalFile is the only
    // pre-edit content the monitor can fall back to.
    let payload = br#"{"hook_event_name":"PostToolUse","session_id":"s","tool_use_id":"t","tool_name":"Write","cwd":"/p","tool_input":{"file_path":"/tmp/gone"},"tool_response":{"originalFile":"kept"}}"#.to_vec();
    let p = plan("/cache", &payload).unwrap();
    let post: Value = serde_json::from_slice(&spool_line(p, &payload, false, 1)).unwrap();
    assert_eq!(post["tool_response"]["originalFile"], "kept");
}

#[test]
fn post_for_a_removed_file_writes_an_absent_marker() {
    let payload = br#"{"hook_event_name":"PostToolUse","session_id":"s","tool_use_id":"t","tool_name":"Edit","cwd":"/p","tool_input":{"file_path":"/nonexistent/gone.txt"}}"#.to_vec();
    let p = plan("/cache", &payload).unwrap();
    assert_eq!(p.action, Action::SnapshotPost);
    assert_eq!(
        snapshot_post(&p.base, OnDisk::Other),
        Capture::Mark("/cache/s/t.after.absent".to_string())
    );
}

#[test]
fn non_file_tools_are_spooled_but_not_snapshotted() {
    // An MCP tool whose name merely contains "Edit" must not drive snapshots.
    let payload = br#"{"hook_event_name":"PreToolUse","session_id":"s","tool_use_id":"t","tool_name":"mcp__x__EditThing","cwd":"/p","tool_input":{"file_path":"/d/b.txt"}}"#.to_vec();
    let p = plan("/cache", &payload).unwrap();
    assert_eq!(p.action, Action::Nothing);
    let v: Value = serde_json::from_slice(&spool_line(p, &payload, false, 1)).unwrap();
    assert_eq!(v["tool_name"], "mcp__x__EditThing");
}

#[test]
fn malformed_payload_still_produces_one_line() {
    // Not JSON, so the raw payload is spooled with its newlines stripped.
    let payload = b"{not json\nat all".to_vec();
    let p = plan("/cache", &payload).unwrap();
    assert_eq!(p.fields, Fields::none());
    assert_eq!(p.action, Action::Nothing);
    assert_eq!(spool_line(p, &payload, false, 1), b"{not jsonat all\n");
    // JSON that is no object is spooled raw as well.
    let payload = b"[1,\n2]".to_vec();
    let p = plan("/cache", &payload).unwrap();
    assert_eq!(spool_line(p, &payload, false, 1), b"[1,2]\n");
}

#[test]
fn spool_rotates_on_any_event_not_just_session_start() {
    assert!(must_rotate(52 * 1024 * 1024));
    assert!(!must_rotate(MAX_SPOOL_BYTES));
    assert!(must_rotate(MAX_SPOOL_BYTES + 1));
}

#[test]
fn a_session_start_prunes() {
    let payload = br#"{"hook_event_name":"SessionStart","session_id":"s","cwd":"/p"}"#.to_vec();
    assert_eq!(plan("/cache", &payload).unwrap().action, Action::Prune);
}

#[test]
fn large_and_missing_files_leave_markers() {
    assert_eq!(
        snapshot_pre("/c/s/t", OnDisk::File(MAX_SNAPSHOT_BYTES + 1)),
        Capture::Mark("/c/s/t.toolarge".to_string())
    );
    assert_eq!(
        snapshot_pre("/c/s/t", OnDisk::Other),
        Capture::Mark("/c/s/t.absent".to_string())
    );
    assert_eq!(
        snapshot_post("/c/s/t", OnDisk::File(MAX_SNAPSHOT_BYTES + 1)),
        Capture::Skip
    );
    assert!(matches!(
        snapshot_pre("/c/s/t", OnDisk::File(MAX_SNAPSHOT_BYTES)),
        Capture::Copy { .. }
    ));
}

#[test]
fn the_lock_is_given_up_in_the_end() {
    assert_eq!(after_try(1, Try::Locked), LockStep::Hold);
    assert_eq!(after_try(1, Try::Failed), LockStep::GiveUp);
    assert_eq!(after_try(LOCK_TRIES - 1, Try::Busy), LockStep::Again);
    assert_eq!(after_try(LOCK_TRIES, Try::Busy), LockStep::LastNap);
    assert_eq!(after_try(LOCK_TRIES, Try::Locked), LockStep::Hold);
}

#[test]
fn a_spool_line_is_read_back_whole() {
    let payload = br#"{"hook_event_name":"Stop","note":"two\nlines","n":1.5}"#.to_vec();
    let p = plan("/cache", &payload).unwrap();
    let line = spool_line(p, &payload, false, 7);
    let (lines, used) = diffier::spool::parse_complete_lines(&line);
    assert_eq!(lines.len(), 1);
    assert_eq!(used, line.len());
    assert_eq!(
        value(&lines[0]),
        value(r#"{"hook_event_name":"Stop","note":"two\nlines","n":1.5,"ts":7}"#)
    );
}
