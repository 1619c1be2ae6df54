use diffier::hook::paths_from_env;
use diffier::paths::{is_scratch, join, non_empty, rotated, scratch_prefixes, Agent, Paths};

fn agent() -> Agent {
    Agent { name: "helper".to_string(), title: "Helper".to_string() }
}

#[test]
fn empty_xdg_values_fall_back_to_home() {
    let p = Paths::from_parts("/h", Some("".to_string()), Some("".to_string()), &agent());
    assert_eq!(p.spool, "/h/.local/state/diffier/events.jsonl");
    assert_eq!(p.snapshot_root, "/h/.cache/diffier");

    let unset = Paths::from_parts("/h", None, None, &agent());
    assert_eq!(unset.spool, p.spool);
    assert_eq!(unset.snapshot_root, p.snapshot_root);
}

#[test]
fn set_xdg_values_are_honored() {
    let p = Paths::from_parts("/h", Some("/s".to_string()), Some("/c".to_string()), &agent());
    assert_eq!(p.spool, "/s/diffier/events.jsonl");
    assert_eq!(p.snapshot_root, "/c/diffier");
    assert_eq!(p.settings, "/h/.helper/settings.json");
    assert_eq!(p.hook_script, "/h/.helper/hooks/diffier.sh");
}

#[test]
fn rotated_appends_suffix() {
    let p = Paths::from_parts("/h", None, None, &agent());
    assert_eq!(p.rotated_spool(), "/h/.local/state/diffier/events.jsonl.1");
    assert_eq!(rotated("/x/e"), "/x/e.1");
}

#[test]
fn parts_are_joined_like_paths() {
    assert_eq!(join("/a", "b/c"), "/a/b/c");
    assert_eq!(join("/a/", "b"), "/a/b");
    assert_eq!(join("/a", "/b"), "/b");
    assert_eq!(join("", "b"), "b");
    assert_eq!(join("/a", ""), "/a/");
}

#[test]
fn an_empty_variable_is_unset() {
    assert_eq!(non_empty(Some("".to_string())), None);
    assert_eq!(non_empty(Some("x".to_string())).as_deref(), Some("x"));
    assert_eq!(non_empty(None), None);
}

#[test]
fn scratch_files_lie_in_an_agents_directory_of_a_temp_dir() {
    let dirs = scratch_prefixes("/var/t/", &agent());
    assert!(is_scratch("/tmp/helper-1/proj/s1/scratchpad/note.txt", &dirs));
    assert!(is_scratch("/private/tmp/helper-x/a", &dirs));
    assert!(is_scratch("/var/t/helper-1/a", &dirs));
    assert!(!is_scratch("/tmp/other/helper-1/a", &dirs));
    assert!(!is_scratch("/tmp/helper-1", &dirs));
    assert!(!is_scratch("/tmp/a.txt", &dirs));
    assert!(!is_scratch("/p/helper-1/a", &dirs));
}

#[test]
fn the_hook_needs_a_place_to_write() {
    assert!(paths_from_env(None, None, None, &agent()).is_none());
    assert!(paths_from_env(Some("".into()), Some("".into()), Some("".into()), &agent()).is_none());
    let home = paths_from_env(Some("/h".into()), None, None, &agent()).unwrap();
    assert_eq!(home.spool, "/h/.local/state/diffier/events.jsonl");
    assert_eq!(home.snapshot_root, "/h/.cache/diffier");
    let xdg = paths_from_env(None, Some("/s".into()), Some("/c".into()), &agent()).unwrap();
    assert_eq!(xdg.spool, "/s/diffier/events.jsonl");
    assert_eq!(xdg.snapshot_root, "/c/diffier");
}
