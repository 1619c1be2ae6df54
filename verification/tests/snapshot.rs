use diffier::event::HookEvent;
use diffier::hook::{snapshot_post, snapshot_pre, Capture, OnDisk};
use diffier::json::Json;
use diffier::snapshot::{
    fallback, marker_path, resolve, resolve_after, snapshot_base, snapshot_path, spots, Before,
    Probe,
};

/// The event that one spool line holds.
fn event(line: &str) -> HookEvent {
    let v = Json::parse_text(line).unwrap();
    let s = |k: &str| v.str_at(k).map(str::to_string);
    HookEvent {
        hook_event_name: s("hook_event_name").unwrap(),
        session_id: s("session_id"),
        cwd: s("cwd"),
        tool_name: s("tool_name"),
        tool_use_id: s("tool_use_id"),
        tool_input: v.get("tool_input").map(Json::copy),
        tool_response: v.get("tool_response").map(Json::copy),
        agent_id: s("agent_id"),
        agent_type: s("agent_type"),
        source: s("source"),
        ts: v.get("ts").and_then(|t| t.to_value().as_u64()),
    }
}

fn post(tool: &str, input: &str, response: &str) -> HookEvent {
    event(&format!(
        r#"{{"hook_event_name":"PostToolUse","session_id":"s","tool_use_id":"t","tool_name":"{tool}","tool_input":{input},"tool_response":{response}}}"#
    ))
}

/// Nothing on disk.
fn nothing() -> Probe {
    Probe {
        before: None,
        absent: false,
        toolarge: false,
        error: false,
        after: None,
        after_absent: false,
        on_disk: None,
    }
}

#[test]
fn snapshot_file_wins() {
    let ev = post(
        "Write",
        r#"{"file_path":"/x"}"#,
        r#"{"originalFile":"ignored"}"#,
    );
    let probe = Probe { before: Some(b"old".to_vec()), ..nothing() };
    assert_eq!(resolve(&ev, &probe), Before::Content(b"old".to_vec()));
}

#[test]
fn absent_marker() {
    let ev = post("Write", r#"{"file_path":"/x"}"#, r#"{}"#);
    let probe = Probe { absent: true, ..nothing() };
    assert_eq!(resolve(&ev, &probe), Before::Absent);
}

#[test]
fn original_file_fallback_then_synthetic_then_unavailable() {
    let w = post("Write", r#"{"file_path":"/x"}"#, r#"{"originalFile":"o"}"#);
    assert_eq!(resolve(&w, &nothing()), Before::Content(b"o".to_vec()));
    let e = post(
        "Edit",
        r#"{"file_path":"/x","old_string":"a","new_string":"b"}"#,
        r#"{}"#,
    );
    match resolve(&e, &nothing()) {
        Before::Synthetic { old, new, note } => {
            assert_eq!((old.as_str(), new.as_str()), ("a", "b"));
            assert!(note.starts_with("no snapshot"));
        }
        other => panic!("unexpected {other:?}"),
    }
    let n = post("NotebookEdit", r#"{"notebook_path":"/n"}"#, r#"{}"#);
    assert_eq!(
        resolve(&n, &nothing()),
        Before::Unavailable("no snapshot".into())
    );
}

#[test]
fn after_snapshot_and_absent_marker() {
    let ev = post("Write", r#"{"file_path":"/x"}"#, r#"{}"#);
    assert_eq!(resolve_after(&ev, &nothing()), None);
    let probe = Probe { after: Some(b"new".to_vec()), ..nothing() };
    assert_eq!(resolve_after(&ev, &probe), Some(Some(b"new".as_slice())));
    let probe = Probe { after_absent: true, ..nothing() };
    assert_eq!(resolve_after(&ev, &probe), Some(None));
}

#[test]
fn markers_are_appended_not_substituted_for_dotted_ids() {
    // Replacing the extension would look for `toolu_01.absent`.
    let ev = event(
        r#"{"hook_event_name":"PostToolUse","session_id":"s","tool_use_id":"toolu_01.x","tool_name":"Write","tool_input":{"file_path":"/x"}}"#,
    );
    let base = snapshot_base("/snaps", &ev).unwrap();
    assert_eq!(base, "/snaps/s/toolu_01.x");
    assert_eq!(marker_path(&base, "absent"), "/snaps/s/toolu_01.x.absent");
    let probe = Probe { absent: true, ..nothing() };
    assert_eq!(resolve(&ev, &probe), Before::Absent);
}

#[test]
fn toolarge_marker_reason() {
    let n = post("NotebookEdit", r#"{"notebook_path":"/n"}"#, r#"{}"#);
    let probe = Probe { toolarge: true, ..nothing() };
    assert_eq!(
        resolve(&n, &probe),
        Before::Unavailable("file over snapshot size limit".into())
    );
}

#[test]
fn a_failed_copy_is_the_reason() {
    let n = post("NotebookEdit", r#"{"notebook_path":"/n"}"#, r#"{}"#);
    let probe = Probe { error: true, ..nothing() };
    assert_eq!(
        resolve(&n, &probe),
        Before::Unavailable("snapshot copy failed".into())
    );
}

#[test]
fn several_edits_are_shown_with_dots_between() {
    let m = post(
        "MultiEdit",
        r#"{"file_path":"/x","edits":[{"old_string":"a","new_string":"b"},{"old_string":"c"},{"new_string":"d"}]}"#,
        r#"{}"#,
    );
    assert_eq!(
        fallback(&m, "why"),
        Before::Synthetic {
            old: "a\n...\nc\n...\n".into(),
            new: "b\n...\n\n...\nd".into(),
            note: "why; showing edit strings".into(),
        }
    );
    let none = post("MultiEdit", r#"{"file_path":"/x"}"#, r#"{}"#);
    assert_eq!(
        fallback(&none, "why"),
        Before::Synthetic {
            old: "".into(),
            new: "".into(),
            note: "why; showing edit strings".into(),
        }
    );
}

#[test]
fn without_an_id_there_is_no_snapshot() {
    let ev = event(r#"{"hook_event_name":"PostToolUse","session_id":"s","tool_name":"Write"}"#);
    assert_eq!(snapshot_base("/snaps", &ev), None);
    let probe = Probe {
        before: Some(b"x".to_vec()),
        after: Some(b"y".to_vec()),
        toolarge: true,
        ..nothing()
    };
    assert_eq!(resolve(&ev, &probe), Before::Unavailable("no snapshot".into()));
    assert_eq!(resolve_after(&ev, &probe), None);
}

#[test]
fn snapshots_lie_below_their_session() {
    assert_eq!(snapshot_path("/c/diffier", "s1", "t1"), "/c/diffier/s1/t1");
}

#[test]
fn what_is_on_disk_later_does_not_leak() {
    let ev = post("Write", r#"{"file_path":"/x"}"#, r#"{}"#);
    let now = Probe { after: Some(b"new".to_vec()), on_disk: Some(b"new".to_vec()), ..nothing() };
    let later = Probe { after: Some(b"new".to_vec()), on_disk: Some(b"newer".to_vec()), ..nothing() };
    assert_eq!(resolve_after(&ev, &now), resolve_after(&ev, &later));
    assert_eq!(resolve(&ev, &now), resolve(&ev, &later));
}

#[test]
fn the_monitor_looks_where_the_hook_writes() {
    let ev = post("Write", r#"{"file_path":"/x"}"#, r#"{}"#);
    let at = spots("/c", &ev).unwrap();
    let base = "/c/s/t";
    assert_eq!(
        snapshot_pre(base, OnDisk::File(1)),
        Capture::Copy { to: at.before, on_error: Some(at.error) }
    );
    assert_eq!(snapshot_pre(base, OnDisk::Other), Capture::Mark(at.absent));
    assert_eq!(snapshot_pre(base, OnDisk::File(u64::MAX)), Capture::Mark(at.toolarge));
    assert_eq!(
        snapshot_post(base, OnDisk::File(1)),
        Capture::Copy { to: at.after, on_error: None }
    );
    assert_eq!(snapshot_post(base, OnDisk::Other), Capture::Mark(at.after_absent));
    let nowhere = event(r#"{"hook_event_name":"PostToolUse","tool_use_id":"t"}"#);
    assert_eq!(spots("/c", &nowhere), None);
}
