use diffier::install::{
    command_is_ours, group_is_ours, hook_command, install, load_settings, merge_hooks,
    remove_hooks, shell_quote, uninstall, SettingsError, TOOL_MATCHER,
};
use diffier::json::Json;
use serde_json::Value;

const EXE: &str = "/home/u/.cargo/bin/diffier";

fn json(text: &str) -> Json {
    Json::parse_text(text).unwrap()
}

fn value(text: &str) -> Value {
    serde_json::from_str(text).unwrap()
}

#[test]
fn merge_into_empty() {
    let mut s = json("{}");
    merge_hooks(&mut s, EXE);
    let s = s.to_value();
    let pre = &s["hooks"]["PreToolUse"];
    assert_eq!(pre.as_array().unwrap().len(), 1);
    assert_eq!(pre[0]["matcher"], TOOL_MATCHER);
    assert_eq!(
        pre[0]["hooks"][0]["command"],
        "'/home/u/.cargo/bin/diffier' hook"
    );
    assert_eq!(pre[0]["hooks"][0]["timeout"], 5);
    assert!(s["hooks"]["SessionStart"][0].get("matcher").is_none());
}

#[test]
fn legacy_script_entries_are_replaced() {
    let mut s = json(
        r#"{"hooks": {"PreToolUse": [
            {"matcher": "^(Edit|Write|MultiEdit|NotebookEdit)$", "hooks": [{"type": "command", "command": "'/home/u/.helper/hooks/diffier.sh'", "timeout": 5}]}
        ]}}"#,
    );
    merge_hooks(&mut s, EXE);
    let s = s.to_value();
    let pre = s["hooks"]["PreToolUse"].as_array().unwrap();
    assert_eq!(pre.len(), 1);
    assert_eq!(pre[0]["hooks"][0]["command"], hook_command(EXE));
}

#[test]
fn unrelated_hook_commands_are_not_ours() {
    assert!(!command_is_ours("'/usr/bin/other' hook"));
    assert!(!command_is_ours("diffier dump"));
    assert!(command_is_ours("'/opt/homebrew/bin/diffier' hook"));
    assert!(command_is_ours("'/x/diffier' hook\n"));
}

#[test]
fn merge_preserves_unrelated_and_is_idempotent() {
    let original = r#"{
        "model": "x",
        "statusLine": {"type": "command", "command": "foo"},
        "hooks": {
            "PreToolUse": [{"matcher": "Bash", "hooks": [{"type": "command", "command": "other.sh"}]}],
            "Stop": [{"hooks": [{"type": "command", "command": "bye.sh"}]}]
        }
    }"#;
    let mut s = json(original);
    merge_hooks(&mut s, EXE);
    let v = s.to_value();
    assert_eq!(v["model"], "x");
    assert_eq!(v["statusLine"]["command"], "foo");
    assert_eq!(v["hooks"]["PreToolUse"].as_array().unwrap().len(), 2);
    assert_eq!(v["hooks"]["PreToolUse"][0]["matcher"], "Bash");
    assert_eq!(v["hooks"]["Stop"].as_array().unwrap().len(), 1);
    let once = s.to_pretty();
    merge_hooks(&mut s, EXE);
    assert_eq!(s.to_pretty(), once);
    // Upgrading the binary path replaces rather than appends.
    merge_hooks(&mut s, "/new/diffier");
    let v = s.to_value();
    assert_eq!(v["hooks"]["PreToolUse"].as_array().unwrap().len(), 2);
    assert_eq!(
        v["hooks"]["PreToolUse"][1]["hooks"][0]["command"],
        "'/new/diffier' hook"
    );
    // Uninstall restores the original.
    remove_hooks(&mut s);
    assert_eq!(s.to_value(), value(original));
}

#[test]
fn command_is_shell_quoted_and_still_recognized() {
    let awkward = "/Users/John Smith/o'brien/.cargo/bin/diffier";
    assert_eq!(
        hook_command(awkward),
        "'/Users/John Smith/o'\\''brien/.cargo/bin/diffier' hook"
    );
    let mut s = json("{}");
    merge_hooks(&mut s, awkward);
    let group = &s.get("hooks").unwrap().get("PreToolUse").unwrap().as_array().unwrap()[0];
    assert!(group_is_ours(group));
    // Idempotent: the quoted command is still matched and replaced, not appended.
    merge_hooks(&mut s, awkward);
    assert_eq!(s.to_value()["hooks"]["PreToolUse"].as_array().unwrap().len(), 1);
    remove_hooks(&mut s);
    assert_eq!(s.to_value(), value("{}"));
}

#[test]
fn remove_drops_empty_containers() {
    let mut s = json(r#"{"a": 1}"#);
    merge_hooks(&mut s, EXE);
    remove_hooks(&mut s);
    assert_eq!(s.to_value(), value(r#"{"a": 1}"#));
    remove_hooks(&mut s);
    assert_eq!(s.to_value(), value(r#"{"a": 1}"#));
}

#[test]
fn install_and_uninstall_roundtrip_on_disk() {
    let before = Some("{\n  \"theme\": \"dark\"\n}\n".to_string());
    let after_first = install(&before, EXE).unwrap();
    let v = value(after_first.as_deref().unwrap());
    assert_eq!(v["theme"], "dark");
    assert_eq!(
        v["hooks"]["PostToolUse"][0]["hooks"][0]["command"],
        hook_command(EXE)
    );
    assert!(after_first.as_deref().unwrap().ends_with("}\n"));
    // Nothing is left to write the second time.
    assert_eq!(install(&after_first, EXE), Ok(None));
    let removed = uninstall(&after_first).unwrap().unwrap();
    assert_eq!(value(&removed), value(r#"{"theme": "dark"}"#));
    assert_eq!(uninstall(&Some(removed)), Ok(None));
}

#[test]
fn invalid_settings_abort() {
    let file = Some("{ nope".to_string());
    assert_eq!(load_settings(&file), Err(SettingsError::NotJson));
    assert_eq!(install(&file, EXE), Err(SettingsError::NotJson));
    assert_eq!(uninstall(&file), Err(SettingsError::NotJson));
}

#[test]
fn missing_and_blank_settings_hold_nothing() {
    assert_eq!(load_settings(&None).unwrap().to_value(), value("{}"));
    assert_eq!(load_settings(&Some(" \n".to_string())).unwrap().to_value(), value("{}"));
    assert!(install(&None, EXE).unwrap().is_some());
    assert_eq!(uninstall(&None), Ok(None));
}

#[test]
fn every_event_gets_its_hook() {
    let text = install(&None, EXE).unwrap().unwrap();
    let hooks = &value(&text)["hooks"];
    assert_eq!(hooks.as_object().unwrap().len(), 3);
    for event in ["PreToolUse", "PostToolUse", "SessionStart"] {
        assert_eq!(hooks[event].as_array().unwrap().len(), 1);
    }
}

#[test]
fn quotes_are_closed_and_opened_again() {
    assert_eq!(shell_quote("a b"), "'a b'");
    assert_eq!(shell_quote("it's"), "'it'\\''s'");
    assert_eq!(shell_quote(""), "''");
}
