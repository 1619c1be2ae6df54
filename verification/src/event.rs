//! A hook payload of the agent as written to the spool.

use vstd::prelude::*;

use crate::json;
use crate::json::{Json, Tree};
use crate::text;

verus! {

/// The tools that edit files.
pub open spec fn file_tools() -> Seq<Seq<char>> {
    FILE_TOOLS@.map_values(|name: &'static str| name@)
}

/// The names of the tools that edit files.
pub const FILE_TOOLS: [&'static str; 4] = ["Edit", "Write", "MultiEdit", "NotebookEdit"];

/// One hook event. What a payload does not have is `None`.
#[derive(Debug, PartialEq)]
pub struct HookEvent {
    pub hook_event_name: String,
    pub session_id: Option<String>,
    pub cwd: Option<String>,
    pub tool_name: Option<String>,
    pub tool_use_id: Option<String>,
    pub tool_input: Option<Json>,
    pub tool_response: Option<Json>,
    pub agent_id: Option<String>,
    pub agent_type: Option<String>,
    /// SessionStart only: startup | resume | clear | compact | fork.
    pub source: Option<String>,
    /// Milliseconds since the epoch, added by the hook.
    pub ts: Option<u64>,
}

/// What a document that is there means.
pub open spec fn opt_tree(j: Option<Json>) -> Option<Tree> {
    match j {
        Some(x) => Some(x@),
        None => None,
    }
}

/// The string under `key` of a document that may be there.
pub open spec fn string_in(t: Option<Tree>, key: Seq<char>) -> Option<Seq<char>> {
    match t {
        Some(x) => json::text_at(x, key),
        None => None,
    }
}

/// The boolean under `key` of a document that may be there.
pub open spec fn bool_in(t: Option<Tree>, key: Seq<char>) -> Option<bool> {
    match t {
        Some(x) => match json::child(x, key) {
            Some(c) => json::bool_of(c),
            None => None,
        },
        None => None,
    }
}

/// The file a tool is to edit: the string under `file_path`, or under
/// `notebook_path` when there is no `file_path` at all.
pub open spec fn target_in(t: Option<Tree>) -> Option<Seq<char>> {
    match t {
        Some(x) => match json::child(x, "file_path"@) {
            Some(c) => json::text_of(c),
            None => json::text_at(x, "notebook_path"@),
        },
        None => None,
    }
}

/// The label of a subagent: its type, or `subagent` when only its id is known.
pub open spec fn agent_text(agent_type: Option<String>, agent_id: Option<String>) -> Option<
    Seq<char>,
> {
    match (agent_type, agent_id) {
        (Some(t), _) => Some(t@),
        (None, Some(_)) => Some("subagent"@),
        (None, None) => None,
    }
}

/// The time of an event; zero when unknown.
pub open spec fn event_ts(ev: HookEvent) -> u64 {
    match ev.ts {
        Some(t) => t,
        None => 0,
    }
}

/// Whether an event begins a session.
pub open spec fn starts_session(ev: HookEvent) -> bool {
    ev.hook_event_name@ == "SessionStart"@
}

/// Whether an event begins a session anew: a compaction goes on with the one
/// there is.
pub open spec fn starts_anew(ev: HookEvent) -> bool {
    starts_session(ev) && text::opt_text(ev.source) != Some("compact"@)
}

/// Whether the tool of an event edits files.
pub open spec fn edits_files(ev: HookEvent) -> bool {
    match ev.tool_name {
        Some(t) => file_tools().contains(t@),
        None => false,
    }
}

impl HookEvent {
    pub fn is_pre(&self) -> (r: bool)
        ensures
            r == (self.hook_event_name@ == "PreToolUse"@),
    {
        text::same(self.hook_event_name.as_str(), "PreToolUse")
    }

    pub fn is_post(&self) -> (r: bool)
        ensures
            r == (self.hook_event_name@ == "PostToolUse"@),
    {
        text::same(self.hook_event_name.as_str(), "PostToolUse")
    }

    pub fn is_session_start(&self) -> (r: bool)
        ensures
            r == starts_session(*self),
    {
        text::same(self.hook_event_name.as_str(), "SessionStart")
    }

    /// Whether the event begins a session anew; a compaction does not.
    pub fn is_boundary(&self) -> (r: bool)
        ensures
            r == starts_anew(*self),
    {
        if !self.is_session_start() {
            return false;
        }
        match &self.source {
            Some(s) => !text::same(s.as_str(), "compact"),
            None => true,
        }
    }

    pub fn is_file_tool(&self) -> (r: bool)
        ensures
            r == edits_files(*self),
    {
        match &self.tool_name {
            Some(t) => is_file_tool_name(t.as_str()),
            None => false,
        }
    }

    pub fn ts_ms(&self) -> (r: u64)
        ensures
            r == event_ts(*self),
    {
        match self.ts {
            Some(t) => t,
            None => 0,
        }
    }

    /// Target file: `tool_input.file_path`, or `notebook_path` for NotebookEdit.
    pub fn file_path(&self) -> (r: Option<String>)
        ensures
            text::opt_text(r) == target_in(opt_tree(self.tool_input)),
    {
        match &self.tool_input {
            Some(input) => match input.get("file_path") {
                Some(f) => text::owned(f.as_str()),
                None => text::owned(input.str_at("notebook_path")),
            },
            None => None,
        }
    }

    /// Subagent label when the tool ran inside an Agent call.
    pub fn agent_label(&self) -> (r: Option<String>)
        ensures
            text::opt_text(r) == agent_text(self.agent_type, self.agent_id),
    {
        match (&self.agent_type, &self.agent_id) {
            (Some(t), _) => Some(t.clone()),
            (None, Some(_)) => Some("subagent".to_owned()),
            (None, None) => None,
        }
    }

    pub fn input_str(&self, key: &str) -> (r: Option<&str>)
        ensures
            r is Some <==> string_in(opt_tree(self.tool_input), key@) is Some,
            r matches Some(s) ==> string_in(opt_tree(self.tool_input), key@) == Some(s@),
    {
        match &self.tool_input {
            Some(input) => input.str_at(key),
            None => None,
        }
    }

    pub fn response_str(&self, key: &str) -> (r: Option<&str>)
        ensures
            r is Some <==> string_in(opt_tree(self.tool_response), key@) is Some,
            r matches Some(s) ==> string_in(opt_tree(self.tool_response), key@) == Some(s@),
    {
        match &self.tool_response {
            Some(response) => response.str_at(key),
            None => None,
        }
    }

    pub fn response_bool(&self, key: &str) -> (r: Option<bool>)
        ensures
            r == bool_in(opt_tree(self.tool_response), key@),
    {
        match &self.tool_response {
            Some(response) => match response.get(key) {
                Some(j) => j.as_bool(),
                None => None,
            },
            None => None,
        }
    }
}

/// Whether a tool of that name edits files.
pub fn is_file_tool_name(name: &str) -> (r: bool)
    ensures
        r == file_tools().contains(name@),
{
    let tools = FILE_TOOLS;
    let mut i: usize = 0;
    while i < 4
        invariant
            i <= 4,
            tools@.len() == 4,
            file_tools() == tools@.map_values(|name: &'static str| name@),
            forall|k: int| 0 <= k < i ==> #[trigger] file_tools()[k] != name@,
        decreases 4 - i,
    {
        if text::same(name, tools[i]) {
            assert(file_tools()[i as int] == name@);
            return true;
        }
        i += 1;
    }
    false
}

/// The tools that edit files are these four.
pub proof fn lemma_file_tools(name: Seq<char>)
    ensures
        file_tools().contains(name) <==> name == "Edit"@ || name == "Write"@ || name
            == "MultiEdit"@ || name == "NotebookEdit"@,
{
    let t = file_tools();
    assert(FILE_TOOLS@.len() == 4);
    assert(t.len() == 4);
    assert(t[0] == "Edit"@ && t[1] == "Write"@ && t[2] == "MultiEdit"@ && t[3] == "NotebookEdit"@);
    if name == "Edit"@ {
        assert(t.contains(t[0]));
    } else if name == "Write"@ {
        assert(t.contains(t[1]));
    } else if name == "MultiEdit"@ {
        assert(t.contains(t[2]));
    } else if name == "NotebookEdit"@ {
        assert(t.contains(t[3]));
    }
}

/// A session starts anew at a start that does not merely compact it.
pub proof fn law_compacting_starts_nothing_anew(ev: HookEvent)
    ensures
        ev.hook_event_name@ != "SessionStart"@ ==> !starts_session(ev) && !starts_anew(ev),
        ev.hook_event_name@ == "SessionStart"@ ==> starts_session(ev),
        ev.hook_event_name@ == "SessionStart"@ && (ev.source matches Some(s) && s@ == "compact"@)
            ==> !starts_anew(ev),
        ev.hook_event_name@ == "SessionStart"@ && ev.source is None ==> starts_anew(ev),
        ev.hook_event_name@ == "SessionStart"@ ==> (ev.source matches Some(s) ==> s@ == "compact"@
            || starts_anew(ev)),
{
}

/// Four tools edit files.
pub proof fn law_four_tools_edit_files(ev: HookEvent)
    ensures
        edits_files(ev) <==> (ev.tool_name matches Some(t) && (t@ == "Edit"@ || t@ == "Write"@
            || t@ == "MultiEdit"@ || t@ == "NotebookEdit"@)),
{
    if let Some(t) = ev.tool_name {
        lemma_file_tools(t@);
    }
}

/// The file of an edit is its `file_path`; of one that has none, its
/// `notebook_path`.
pub proof fn law_an_edit_names_its_file(input: Tree)
    ensures
        json::child(input, "file_path"@) matches Some(c) ==> target_in(Some(input))
            == json::text_of(c),
        json::child(input, "file_path"@) is None ==> target_in(Some(input)) == (match json::child(
            input,
            "notebook_path"@,
        ) {
            Some(c) => json::text_of(c),
            None => None,
        }),
        target_in(None) is None,
{
}

/// A subagent is called by its kind, or `subagent` where only its id is known.
/// An event of no subagent names none.
pub proof fn law_subagents_are_named(kind: Option<String>, id: Option<String>)
    ensures
        kind matches Some(k) ==> agent_text(kind, id) == Some(k@),
        kind is None && id is Some ==> agent_text(kind, id) == Some("subagent"@),
        kind is None && id is None ==> agent_text(kind, id) is None,
{
}

/// An event without a time has the time zero.
pub proof fn law_unknown_times_are_zero(ev: HookEvent)
    ensures
        ev.ts matches Some(t) ==> event_ts(ev) == t,
        ev.ts is None ==> event_ts(ev) == 0,
{
}

} // verus!
