//! The `diffier hook` subcommand: consume one hook payload of the agent.
//!
//! The agent runs this once per registered event with the payload on stdin.
//! It snapshots the target file around an edit and appends the payload to the
//! spool. Here is what it decides; no decision can fail, because a non-zero
//! exit from a `PreToolUse` hook would block the agent's tool call.

use vstd::prelude::*;
use vstd::string::*;

use crate::event;
use crate::event::HookEvent;
use crate::json;
use crate::json::{Json, Tree};
use crate::paths;
use crate::paths::{Agent, Paths};
use crate::snapshot;
use crate::snapshot::Spots;
use crate::spool;
use crate::text;

verus! {

/// Files larger than this get a `.toolarge` marker instead of a copy.
pub const MAX_SNAPSHOT_BYTES: u64 = 5 * 1024 * 1024;

/// The spool rotates to `<spool>.1` once it is strictly larger than this.
pub const MAX_SPOOL_BYTES: u64 = 50 * 1024 * 1024;

/// Snapshot directories idle for more seconds than this are pruned at
/// `SessionStart`.
pub const PRUNE_AFTER: u64 = 2 * 24 * 60 * 60;

/// How often the spool lock is tried.
pub const LOCK_TRIES: u32 = 20;

/// Milliseconds between two tries.
pub const LOCK_NAP_MS: u64 = 50;

/// Locate the spool and snapshot root from the environment the hook runs in:
/// the values of `HOME`, `XDG_STATE_HOME` and `XDG_CACHE_HOME`.
///
/// With `HOME` unset or empty and either XDG variable missing there is nowhere
/// sensible to write, so there are no paths.
pub fn paths_from_env(
    home: Option<String>,
    state: Option<String>,
    cache: Option<String>,
    agent: &Agent,
) -> (r: Option<Paths>)
    ensures
        r is None <==> paths::set_value(home) is None && (paths::set_value(state) is None
            || paths::set_value(cache) is None),
        r matches Some(p) ==> ({
            let h = snapshot::or_empty(paths::set_value(home));
            &&& p.spool@ == paths::under(
                paths::under(paths::state_dir(h, state), "diffier"@),
                "events.jsonl"@,
            )
            &&& p.snapshot_root@ == paths::under(paths::cache_dir(h, cache), "diffier"@)
            &&& p.hook_script@ == paths::under(
                paths::under(paths::agent_dir(h, agent.name@), "hooks"@),
                "diffier.sh"@,
            )
            &&& p.settings@ == paths::under(
                paths::agent_dir(h, agent.name@),
                "settings.json"@,
            )
        }),
{
    let home = paths::non_empty(home);
    let state = paths::non_empty(state);
    let cache = paths::non_empty(cache);
    if home.is_none() && (state.is_none() || cache.is_none()) {
        return None;
    }
    let home = match home {
        Some(h) => h,
        None => {
            let h = String::new();
            assert(h@ =~= Seq::empty());
            h
        },
    };
    Some(Paths::from_parts(home.as_str(), state, cache, agent))
}

/// The string-valued fields the hook acts on. A non-string value counts as
/// absent, so an array-valued `file_path` can never name a path.
#[derive(Debug, PartialEq, Eq)]
pub struct Fields {
    pub event: String,
    pub tool_use_id: String,
    pub session_id: String,
    pub tool_name: String,
    pub file_path: String,
}

/// Whether `f` are the fields of a payload; all are empty without one.
pub open spec fn are_fields(f: Fields, payload: Option<Tree>) -> bool {
    &&& f.event@ == snapshot::or_empty(event::string_in(payload, "hook_event_name"@))
    &&& f.tool_use_id@ == snapshot::or_empty(event::string_in(payload, "tool_use_id"@))
    &&& f.session_id@ == snapshot::or_empty(event::string_in(payload, "session_id"@))
    &&& f.tool_name@ == snapshot::or_empty(event::string_in(payload, "tool_name"@))
    &&& f.file_path@ == snapshot::or_empty(event::target_in(input_of(payload)))
}

/// What stands under `tool_input`.
pub open spec fn input_of(payload: Option<Tree>) -> Option<Tree> {
    match payload {
        Some(t) => json::child(t, "tool_input"@),
        None => None,
    }
}

/// Whether an event with these fields is about one file that is snapshotted.
pub open spec fn concerns_file(f: Fields) -> bool {
    &&& event::file_tools().contains(f.tool_name@)
    &&& f.tool_use_id@.len() > 0
    &&& f.session_id@.len() > 0
    &&& f.file_path@.len() > 0
}

fn string_or_blank(s: Option<&str>) -> (r: String)
    ensures
        s matches Some(x) ==> r@ == x@,
        s is None ==> r@ == Seq::<char>::empty(),
{
    match s {
        Some(x) => x.to_owned(),
        None => {
            let r = String::new();
            assert(r@ =~= Seq::empty());
            r
        },
    }
}

/// The fields of a payload.
pub fn extract_fields(payload: &Json) -> (r: Fields)
    ensures
        are_fields(r, Some(payload@)),
{
    let file_path = match payload.get("tool_input") {
        Some(input) => match input.get("file_path") {
            Some(f) => string_or_blank(f.as_str()),
            None => string_or_blank(input.str_at("notebook_path")),
        },
        None => string_or_blank(None),
    };
    Fields {
        event: string_or_blank(payload.str_at("hook_event_name")),
        tool_use_id: string_or_blank(payload.str_at("tool_use_id")),
        session_id: string_or_blank(payload.str_at("session_id")),
        tool_name: string_or_blank(payload.str_at("tool_name")),
        file_path,
    }
}

impl Fields {
    /// The fields of no payload.
    pub fn none() -> (r: Fields)
        ensures
            are_fields(r, None),
    {
        Fields {
            event: string_or_blank(None),
            tool_use_id: string_or_blank(None),
            session_id: string_or_blank(None),
            tool_name: string_or_blank(None),
            file_path: string_or_blank(None),
        }
    }

    /// Whether the event is about one file that is snapshotted.
    pub fn snapshots_file(&self) -> (r: bool)
        ensures
            r == concerns_file(*self),
    {
        event::is_file_tool_name(self.tool_name.as_str()) && !self.tool_use_id.as_str().is_empty()
            && !self.session_id.as_str().is_empty() && !self.file_path.as_str().is_empty()
    }
}

/// What a payload makes the hook do besides the append.
#[derive(Debug, Clone, Copy, PartialEq, Eq, Structural)]
pub enum Action {
    SnapshotPre,
    SnapshotPost,
    Prune,
    Nothing,
}

/// What an event with these fields makes the hook do.
pub open spec fn action_of(f: Fields) -> Action {
    if f.event@ == "PreToolUse"@ && concerns_file(f) {
        Action::SnapshotPre
    } else if f.event@ == "PostToolUse"@ && concerns_file(f) {
        Action::SnapshotPost
    } else if f.event@ == "SessionStart"@ {
        Action::Prune
    } else {
        Action::Nothing
    }
}

/// What one payload asks for.
#[derive(Debug, PartialEq)]
pub struct HookPlan {
    pub parsed: Option<Json>,
    pub fields: Fields,
    pub action: Action,
    /// Where the snapshot of the edit is.
    pub base: String,
}

/// What a payload asks for; `None` for an empty one, which writes nothing.
pub fn plan(snapshot_root: &str, payload: &Vec<u8>) -> (r: Option<HookPlan>)
    ensures
        r is None <==> payload@.len() == 0,
        r matches Some(p) ==> {
            &&& event::opt_tree(p.parsed) == json::parsed_bytes(payload@)
            &&& are_fields(p.fields, json::parsed_bytes(payload@))
            &&& p.action == action_of(p.fields)
            &&& p.base@ == paths::under(
                paths::under(snapshot_root@, p.fields.session_id@),
                p.fields.tool_use_id@,
            )
        },
{
    if payload.len() == 0 {
        return None;
    }
    let parsed = Json::parse(payload.as_slice());
    let fields = match &parsed {
        Some(p) => extract_fields(p),
        None => Fields::none(),
    };
    let base = snapshot::snapshot_path(
        snapshot_root,
        fields.session_id.as_str(),
        fields.tool_use_id.as_str(),
    );
    let name = fields.event.as_str();
    let action = if text::same(name, "PreToolUse") && fields.snapshots_file() {
        Action::SnapshotPre
    } else if text::same(name, "PostToolUse") && fields.snapshots_file() {
        Action::SnapshotPost
    } else if text::same(name, "SessionStart") {
        Action::Prune
    } else {
        Action::Nothing
    };
    Some(HookPlan { parsed, fields, action, base })
}

/// What is to be done with a file around an edit.
#[derive(Debug, PartialEq, Eq)]
pub enum Capture {
    /// Copy the file to `to`. When that fails remove the copy and leave a
    /// marker, if there is one for it.
    Copy { to: String, on_error: Option<String> },
    /// Leave an empty marker file.
    Mark(String),
    Skip,
}

/// What is known of a path on disk.
#[derive(Debug, Clone, Copy, PartialEq, Eq, Structural)]
pub enum OnDisk {
    /// A regular file of that many bytes.
    File(u64),
    /// Something else, or nothing.
    Other,
}

/// Whether `r` is what to do with a file before an edit.
pub open spec fn keeps_before(r: Capture, base: Seq<char>, file: OnDisk) -> bool {
    match file {
        OnDisk::File(len) => if len <= MAX_SNAPSHOT_BYTES {
            r matches Capture::Copy { to, on_error: Some(m) } && to@ == base && m@ == base + "."@
                + "error"@
        } else {
            r matches Capture::Mark(m) && m@ == base + "."@ + "toolarge"@
        },
        OnDisk::Other => r matches Capture::Mark(m) && m@ == base + "."@ + "absent"@,
    }
}

/// What to do with a file before an edit: copy it, or mark why not.
pub fn snapshot_pre(base: &str, file: OnDisk) -> (r: Capture)
    ensures
        keeps_before(r, base@, file),
{
    match file {
        OnDisk::File(len) => if len <= MAX_SNAPSHOT_BYTES {
            Capture::Copy {
                to: base.to_owned(),
                on_error: Some(snapshot::marker_path(base, "error")),
            }
        } else {
            Capture::Mark(snapshot::marker_path(base, "toolarge"))
        },
        OnDisk::Other => Capture::Mark(snapshot::marker_path(base, "absent")),
    }
}

/// Whether `r` is what to do with a file after an edit.
pub open spec fn keeps_after(r: Capture, base: Seq<char>, file: OnDisk) -> bool {
    match file {
        OnDisk::File(len) => if len <= MAX_SNAPSHOT_BYTES {
            r matches Capture::Copy { to, on_error: None } && to@ == base + "."@ + "after"@
        } else {
            r is Skip
        },
        OnDisk::Other => r matches Capture::Mark(m) && m@ == base + "."@ + "after"@ + "."@
            + "absent"@,
    }
}

/// What to do with a file after an edit. Its content is kept too, so that a
/// later edit to the same file that lands before the monitor reaches this
/// event does not leak into its card.
pub fn snapshot_post(base: &str, file: OnDisk) -> (r: Capture)
    ensures
        keeps_after(r, base@, file),
{
    let after = snapshot::marker_path(base, "after");
    match file {
        OnDisk::File(len) => if len <= MAX_SNAPSHOT_BYTES {
            Capture::Copy { to: after, on_error: None }
        } else {
            Capture::Skip
        },
        OnDisk::Other => Capture::Mark(snapshot::marker_path(after.as_str(), "absent")),
    }
}

/// Whether a directory of snapshots is so old, in nanoseconds, that it is to be
/// removed.
pub open spec fn stale(is_dir: bool, age_nanos: Option<u128>) -> bool {
    is_dir && (age_nanos matches Some(a) && a > PRUNE_AFTER * 1_000_000_000)
}

/// Whether a snapshot directory is to be removed, given its age in nanoseconds
/// when that is known.
pub fn is_stale(is_dir: bool, age_nanos: Option<u128>) -> (r: bool)
    ensures
        r == stale(is_dir, age_nanos),
{
    is_dir && match age_nanos {
        Some(a) => a > PRUNE_AFTER as u128 * 1_000_000_000,
        None => false,
    }
}

/// Whether a spool of `len` bytes is to be rotated.
pub open spec fn rotates(len: u64) -> bool {
    len > MAX_SPOOL_BYTES
}

/// Whether the spool is to be rotated before an append.
pub fn must_rotate(len: u64) -> (r: bool)
    ensures
        r == rotates(len),
{
    len > MAX_SPOOL_BYTES
}

/// How a try for the spool lock went.
#[derive(Debug, Clone, Copy, PartialEq, Eq, Structural)]
pub enum Try {
    Locked,
    Busy,
    Failed,
}

/// What to do after a try for the spool lock.
#[derive(Debug, Clone, Copy, PartialEq, Eq, Structural)]
pub enum LockStep {
    /// Append under the lock.
    Hold,
    /// Sleep and try again.
    Again,
    /// Sleep a last time, then append without it.
    LastNap,
    /// Append without it; a torn line beats a lost one.
    GiveUp,
}

/// What to do after the `tries`-th try for the spool lock.
pub open spec fn lock_step(tries: nat, outcome: Try) -> LockStep {
    match outcome {
        Try::Locked => LockStep::Hold,
        Try::Failed => LockStep::GiveUp,
        Try::Busy => if tries < LOCK_TRIES {
            LockStep::Again
        } else {
            LockStep::LastNap
        },
    }
}

/// What to do after the `tries`-th try for the spool lock.
pub fn after_try(tries: u32, outcome: Try) -> (r: LockStep)
    ensures
        r == lock_step(tries as nat, outcome),
{
    match outcome {
        Try::Locked => LockStep::Hold,
        Try::Failed => LockStep::GiveUp,
        Try::Busy => if tries < LOCK_TRIES {
            LockStep::Again
        } else {
            LockStep::LastNap
        },
    }
}

/// `t` without what stands under `key`, if it is an object.
pub open spec fn without(t: Tree, key: Seq<char>) -> Tree {
    match t {
        Tree::Object(m) => Tree::Object(m.remove(key)),
        _ => t,
    }
}

/// A tool's response without the fields the monitor never reads.
pub open spec fn slim_response(t: Tree, keep_original: bool) -> Tree {
    let slim = without(without(t, "content"@), "structuredPatch"@);
    if keep_original {
        slim
    } else {
        without(slim, "originalFile"@)
    }
}

/// A payload as it is spooled: without the bulky fields, and with its time.
pub open spec fn spooled(m: Map<Seq<char>, Tree>, keep_original: bool, ts: u64) -> Map<
    Seq<char>,
    Tree,
> {
    let a = if m.contains_key("tool_response"@) {
        m.insert("tool_response"@, slim_response(m["tool_response"@], keep_original))
    } else {
        m
    };
    let b = if a.contains_key("tool_input"@) {
        a.insert("tool_input"@, without(a["tool_input"@], "content"@))
    } else {
        a
    };
    b.insert("ts"@, Tree::Number(json::number(ts)))
}

/// Takes `key` out of `j` if it is an object.
fn drop_key(j: Json, key: &str) -> (r: Json)
    ensures
        r@ == without(j@, key@),
{
    match j {
        Json::Object(es) => {
            let mut es = es;
            json::unset(&mut es, key);
            Json::Object(es)
        },
        other => other,
    }
}

/// Drop the bulky fields the monitor never reads and stamp the event: one line
/// of the spool.
pub fn build_line(obj: Vec<(String, Json)>, keep_original_file: bool, ts: u64) -> (line: Vec<u8>)
    ensures
        ({
            let t = Tree::Object(spooled(json::entries(obj@), keep_original_file, ts));
            &&& line@ == json::compact_bytes(t).push(10u8)
            &&& json::whole(t) && json::nests_within(t, 127) ==> json::parsed_bytes(
                line@.drop_last(),
            ) == Some(t)
        }),
        is_one_line(line@),
{
    let mut es = obj;
    let ghost m = json::entries(es@);
    if let Some(resp) = json::take(&mut es, "tool_response") {
        let mut slim = drop_key(drop_key(resp, "content"), "structuredPatch");
        if !keep_original_file {
            slim = drop_key(slim, "originalFile");
        }
        json::set(&mut es, "tool_response", slim);
        proof {
            assert(m.remove("tool_response"@).insert("tool_response"@, slim@) =~= m.insert(
                "tool_response"@,
                slim@,
            ));
        }
    } else {
        assert(m.remove("tool_response"@) =~= m);
    }
    let ghost a = json::entries(es@);
    if let Some(input) = json::take(&mut es, "tool_input") {
        let slim = drop_key(input, "content");
        json::set(&mut es, "tool_input", slim);
        proof {
            assert(a.remove("tool_input"@).insert("tool_input"@, slim@) =~= a.insert(
                "tool_input"@,
                slim@,
            ));
        }
    } else {
        assert(a.remove("tool_input"@) =~= a);
    }
    json::set(&mut es, "ts", Json::Number(json::number_of(ts)));
    let doc = Json::Object(es);
    let mut line = doc.to_bytes();
    let ghost bytes = line@;
    line.push(10);
    proof {
        assert(line@.drop_last() =~= bytes);
        assert forall|i: int| 0 <= i < line@.len() - 1 implies line@[i] != 10 by {
            assert(bytes[i] == line@[i]);
            assert(bytes.contains(bytes[i]));
        }
    }
    line
}

/// Whether `line` is one line: a line feed at its end and nowhere else.
pub open spec fn is_one_line(line: Seq<u8>) -> bool {
    &&& line.len() > 0
    &&& line.last() == 10
    &&& forall|i: int| 0 <= i < line.len() - 1 ==> line[i] != 10
}

/// The bytes that are no line feed.
pub open spec fn without_newlines(bytes: Seq<u8>) -> Seq<u8>
    decreases bytes.len(),
{
    if bytes.len() == 0 {
        Seq::empty()
    } else if bytes.last() == 10 {
        without_newlines(bytes.drop_last())
    } else {
        without_newlines(bytes.drop_last()).push(bytes.last())
    }
}

/// An unparsable payload still produces one line, so a broken event is
/// visible in the spool rather than silently gone. The reader skips it.
pub fn raw_line(payload: &Vec<u8>) -> (line: Vec<u8>)
    ensures
        line@ == without_newlines(payload@).push(10u8),
        is_one_line(line@),
{
    let mut line: Vec<u8> = Vec::new();
    let mut i: usize = 0;
    assert(payload@.take(0) =~= Seq::empty());
    while i < payload.len()
        invariant
            i <= payload@.len(),
            line@ == without_newlines(payload@.take(i as int)),
            forall|k: int| 0 <= k < line@.len() ==> line@[k] != 10,
        decreases payload@.len() - i,
    {
        assert(payload@.take(i + 1).drop_last() =~= payload@.take(i as int));
        if payload[i] != 10 {
            line.push(payload[i]);
        }
        i += 1;
    }
    assert(payload@.take(i as int) =~= payload@);
    line.push(10);
    line
}

/// The line that one payload adds to the spool.
pub open spec fn is_spool_line(
    line: Seq<u8>,
    payload: Seq<u8>,
    parsed: Option<Tree>,
    keep_original: bool,
    ts: u64,
) -> bool {
    match parsed {
        Some(Tree::Object(m)) => line == json::compact_bytes(
            Tree::Object(spooled(m, keep_original, ts)),
        ).push(10u8),
        _ => line == without_newlines(payload).push(10u8),
    }
}

/// Whether the original file in a response is worth spooling: there is no
/// snapshot that holds it too.
pub open spec fn keeps_original(f: Fields, base_is_file: bool) -> bool {
    !(concerns_file(f) && base_is_file)
}

/// The line that one payload adds to the spool. A pre-edit snapshot makes
/// `originalFile` redundant; markers do not. `base_is_file` says whether there
/// is one.
pub fn spool_line(p: HookPlan, payload: &Vec<u8>, base_is_file: bool, ts: u64) -> (line: Vec<u8>)
    ensures
        is_spool_line(
            line@,
            payload@,
            event::opt_tree(p.parsed),
            keeps_original(p.fields, base_is_file),
            ts,
        ),
        is_one_line(line@),
{
    let keep_original = !(p.fields.snapshots_file() && base_is_file);
    match p.parsed {
        Some(Json::Object(obj)) => build_line(obj, keep_original, ts),
        _ => raw_line(payload),
    }
}

/// What the hook appends is read as one complete line, whole.
pub proof fn law_a_spool_line_is_read_as_one_line(line: Seq<u8>)
    requires
        is_one_line(line),
    ensures
        spool::complete_len(line) == line.len(),
        spool::complete_lines(line) == match spool::line_text(line.drop_last()) {
            Some(s) => seq![s],
            None => Seq::empty(),
        },
{
    let n = line.len() - 1;
    spool::lemma_line_end(line, n);
    assert(line.take(n) =~= line.drop_last());
    let rest = line.skip(n + 1);
    assert(rest =~= Seq::empty());
    spool::lemma_line_end(rest, 0);
    assert(spool::complete_len(rest) == 0);
    assert(spool::complete_lines(rest) =~= Seq::empty());
    assert(spool::complete_lines(line) =~= match spool::line_text(line.drop_last()) {
        Some(s) => seq![s],
        None => Seq::empty(),
    });
}

/// Spooling drops the bulky fields and touches nothing else but the time.
pub proof fn law_spooling_keeps_the_rest(
    m: Map<Seq<char>, Tree>,
    keep_original: bool,
    ts: u64,
    key: Seq<char>,
)
    requires
        m.contains_key(key),
        key != "tool_response"@,
        key != "tool_input"@,
        key != "ts"@,
    ensures
        spooled(m, keep_original, ts).contains_key(key),
        spooled(m, keep_original, ts)[key] == m[key],
{
}

/// A spooled response has no content and no patch, and the original file only
/// where it is not redundant.
pub proof fn law_spooled_responses_are_slim(
    m: Map<Seq<char>, Tree>,
    keep_original: bool,
    ts: u64,
)
    requires
        m.contains_key("tool_response"@),
    ensures
        ({
            let t = spooled(m, keep_original, ts)["tool_response"@];
            &&& json::child(t, "content"@) is None
            &&& json::child(t, "structuredPatch"@) is None
            &&& !keep_original ==> json::child(t, "originalFile"@) is None
            &&& keep_original ==> json::child(t, "originalFile"@) == json::child(
                m["tool_response"@],
                "originalFile"@,
            )
        }),
{
    reveal_strlit("tool_response");
    reveal_strlit("tool_input");
    reveal_strlit("ts");
    reveal_strlit("content");
    reveal_strlit("structuredPatch");
    reveal_strlit("originalFile");
    assert("tool_response"@.len() == 13);
    assert("tool_input"@.len() == 10);
    assert("ts"@.len() == 2);
    assert("content"@.len() == 7);
    assert("structuredPatch"@.len() == 15);
    assert("originalFile"@.len() == 12);
}

/// How long the lock is waited for, in milliseconds, when the tries after the
/// first `tries` go as `outcomes` says.
pub open spec fn waited_ms(tries: nat, outcomes: Seq<Try>) -> nat
    decreases outcomes.len() - tries,
{
    if tries >= outcomes.len() {
        0
    } else {
        match lock_step(tries + 1, outcomes[tries as int]) {
            LockStep::Again => LOCK_NAP_MS as nat + waited_ms(tries + 1, outcomes),
            LockStep::LastNap => LOCK_NAP_MS as nat,
            LockStep::Hold => 0,
            LockStep::GiveUp => 0,
        }
    }
}

proof fn lemma_waited(tries: nat, outcomes: Seq<Try>)
    requires
        tries < LOCK_TRIES <= outcomes.len(),
    ensures
        waited_ms(tries, outcomes) <= (LOCK_TRIES - tries) * LOCK_NAP_MS,
        (forall|n: int| 0 <= n < outcomes.len() ==> (#[trigger] outcomes[n]) is Busy) ==> waited_ms(
            tries,
            outcomes,
        ) == (LOCK_TRIES - tries) * LOCK_NAP_MS,
    decreases LOCK_TRIES - tries,
{
    if tries + 1 < LOCK_TRIES {
        lemma_waited(tries + 1, outcomes);
    }
}

/// The lock is waited for a second at most, and a second when it is never
/// free; then the append happens anyway.
pub proof fn law_an_append_is_not_held_up(outcomes: Seq<Try>)
    requires
        outcomes.len() >= LOCK_TRIES,
    ensures
        waited_ms(0, outcomes) <= 1000,
        (forall|n: int| 0 <= n < outcomes.len() ==> (#[trigger] outcomes[n]) is Busy) ==> waited_ms(
            0,
            outcomes,
        ) == 1000,
        forall|n: nat, t: Try| n >= LOCK_TRIES ==> !(#[trigger] lock_step(n, t) is Again),
{
    lemma_waited(0, outcomes);
}

/// What the hook leaves around an edit is where the monitor looks for it: the
/// copies, and a marker for each reason that there is none.
pub proof fn law_the_monitor_looks_where_the_hook_writes(
    root: Seq<char>,
    ev: HookEvent,
    f: Fields,
    spots: Spots,
    pre: Capture,
    post: Capture,
    file_before: OnDisk,
    file_after: OnDisk,
)
    requires
        text::opt_text(ev.session_id) == Some(f.session_id@),
        text::opt_text(ev.tool_use_id) == Some(f.tool_use_id@),
        snapshot::are_spots(spots, snapshot::snapshot_at(root, ev)->0),
        keeps_before(
            pre,
            paths::under(paths::under(root, f.session_id@), f.tool_use_id@),
            file_before,
        ),
        keeps_after(
            post,
            paths::under(paths::under(root, f.session_id@), f.tool_use_id@),
            file_after,
        ),
    ensures
        snapshot::locatable(ev),
        match pre {
            Capture::Copy { to, on_error } => to@ == spots.before@ && text::opt_text(on_error)
                == Some(spots.error@),
            Capture::Mark(m) => m@ == if file_before is Other {
                spots.absent@
            } else {
                spots.toolarge@
            },
            Capture::Skip => false,
        },
        match post {
            Capture::Copy { to, on_error } => to@ == spots.after@ && on_error is None,
            Capture::Mark(m) => file_after is Other && m@ == spots.after_absent@,
            Capture::Skip => file_after !is Other,
        },
{
}

/// Around an edit a regular file of up to 5 MiB is copied: before it beside
/// nothing, after it with `.after` behind. A larger one is marked before the
/// edit and left alone after it, and what is no file is marked on both sides.
pub proof fn law_only_a_file_over_the_limit_is_not_copied(
    pre: Capture,
    post: Capture,
    base: Seq<char>,
    len_before: u64,
    len_after: u64,
)
    requires
        keeps_before(pre, base, OnDisk::File(len_before)),
        keeps_after(post, base, OnDisk::File(len_after)),
    ensures
        pre is Copy <==> len_before <= 5242880,
        post is Copy <==> len_after <= 5242880,
        pre matches Capture::Copy { to, .. } ==> to@ == base,
        post matches Capture::Copy { to, .. } ==> to@ == base + ".after"@,
        len_before > 5242880 ==> (pre matches Capture::Mark(m) && m@ == base + ".toolarge"@),
        len_after > 5242880 ==> post is Skip,
{
    reveal_strlit(".");
    reveal_strlit("after");
    reveal_strlit(".after");
    reveal_strlit("toolarge");
    reveal_strlit(".toolarge");
    assert("."@ + "after"@ =~= ".after"@);
    assert("."@ + "toolarge"@ =~= ".toolarge"@);
    assert(base + "."@ + "after"@ =~= base + ".after"@);
    assert(base + "."@ + "toolarge"@ =~= base + ".toolarge"@);
}

/// A file that grows or shrinks within the limit is copied on both sides, to
/// different places.
pub proof fn law_both_sides_of_an_edit_are_kept_apart(
    pre: Capture,
    post: Capture,
    base: Seq<char>,
    len_before: u64,
    len_after: u64,
)
    requires
        keeps_before(pre, base, OnDisk::File(len_before)),
        keeps_after(post, base, OnDisk::File(len_after)),
        len_before <= 5242880,
        len_after <= 5242880,
    ensures
        pre matches Capture::Copy { to: a, .. } && (post matches Capture::Copy { to: b, .. } && a@
            != b@ && text::begins(b@, a@)),
{
    reveal_strlit(".");
    reveal_strlit("after");
    let b = base + "."@ + "after"@;
    assert(b.subrange(0, base.len() as int) =~= base);
    assert(b.len() > base.len());
}

/// A file that is missing on one side of an edit is marked there, so that a
/// file that an edit creates is told from one without a snapshot.
pub proof fn law_a_missing_file_is_marked(pre: Capture, post: Capture, base: Seq<char>)
    requires
        keeps_before(pre, base, OnDisk::Other),
        keeps_after(post, base, OnDisk::Other),
    ensures
        pre matches Capture::Mark(m) && m@ == base + ".absent"@,
        post matches Capture::Mark(m) && m@ == base + ".after.absent"@,
{
    reveal_strlit(".");
    reveal_strlit("after");
    reveal_strlit("absent");
    reveal_strlit(".absent");
    reveal_strlit(".after.absent");
    assert(base + "."@ + "absent"@ =~= base + ".absent"@);
    assert(base + "."@ + "after"@ + "."@ + "absent"@ =~= base + ".after.absent"@);
}

/// Which events make the hook take a snapshot: those before and after a use
/// of one of the four tools that edit files, when they say which file, which
/// use and which session.
pub proof fn law_edits_are_snapshotted(f: Fields)
    ensures
        action_of(f) is SnapshotPre || action_of(f) is SnapshotPost <==> (f.event@ == "PreToolUse"@
            || f.event@ == "PostToolUse"@) && (f.tool_name@ == "Edit"@ || f.tool_name@ == "Write"@
            || f.tool_name@ == "MultiEdit"@ || f.tool_name@ == "NotebookEdit"@)
            && f.tool_use_id@.len() > 0 && f.session_id@.len() > 0 && f.file_path@.len() > 0,
        action_of(f) is SnapshotPre ==> f.event@ == "PreToolUse"@,
        action_of(f) is SnapshotPost ==> f.event@ == "PostToolUse"@,
        action_of(f) is Prune <==> f.event@ == "SessionStart"@,
{
    event::lemma_file_tools(f.tool_name@);
    reveal_strlit("PreToolUse");
    reveal_strlit("PostToolUse");
    reveal_strlit("SessionStart");
    assert("PreToolUse"@.len() == 10 && "PostToolUse"@.len() == 11 && "SessionStart"@.len() == 12);
}

/// The fields the hook acts on are the payload's own strings; what is not a
/// string counts as empty. The file is `file_path` of the input, and without
/// that `notebook_path`.
pub proof fn law_fields_are_those_of_the_payload(
    f: Fields,
    m: Map<Seq<char>, Tree>,
    input: Map<Seq<char>, Tree>,
)
    requires
        are_fields(f, Some(Tree::Object(m))),
        m.contains_key("tool_input"@),
        m["tool_input"@] == Tree::Object(input),
    ensures
        m.contains_key("hook_event_name"@) ==> (m["hook_event_name"@] matches Tree::Text(s) ==> f.event@ == s),
        !m.contains_key("hook_event_name"@) ==> f.event@.len() == 0,
        m.contains_key("session_id"@) ==> (m["session_id"@] matches Tree::Text(s) ==> f.session_id@ == s),
        !m.contains_key("session_id"@) ==> f.session_id@.len() == 0,
        m.contains_key("tool_use_id"@) ==> (m["tool_use_id"@] matches Tree::Text(s) ==> f.tool_use_id@ == s),
        !m.contains_key("tool_use_id"@) ==> f.tool_use_id@.len() == 0,
        m.contains_key("tool_name"@) ==> (m["tool_name"@] matches Tree::Text(s) ==> f.tool_name@ == s),
        !m.contains_key("tool_name"@) ==> f.tool_name@.len() == 0,
        input.contains_key("file_path"@) ==> (input["file_path"@] matches Tree::Text(s)
            ==> f.file_path@ == s),
        !input.contains_key("file_path"@) && input.contains_key("notebook_path"@) ==> (
        input["notebook_path"@] matches Tree::Text(s) ==> f.file_path@ == s),
        !input.contains_key("file_path"@) && !input.contains_key("notebook_path"@)
            ==> f.file_path@.len() == 0,
        input.contains_key("file_path"@) && !(input["file_path"@] is Text) ==> f.file_path@.len()
            == 0,
{
}

/// What is spooled of an input or a response is what was there, but for the
/// fields that hold whole files.
pub proof fn law_spooling_drops_only_bulk(
    m: Map<Seq<char>, Tree>,
    keep_original: bool,
    ts: u64,
    input: Map<Seq<char>, Tree>,
    response: Map<Seq<char>, Tree>,
    key: Seq<char>,
)
    requires
        m.contains_key("tool_input"@),
        m["tool_input"@] == Tree::Object(input),
        m.contains_key("tool_response"@),
        m["tool_response"@] == Tree::Object(response),
    ensures
        ({
            let line = spooled(m, keep_original, ts);
            let i = json::child(line["tool_input"@], key);
            let r = json::child(line["tool_response"@], key);
            &&& key != "content"@ ==> i == json::child(Tree::Object(input), key)
            &&& key == "content"@ ==> i is None && r is None
            &&& key == "structuredPatch"@ ==> r is None
            &&& key == "originalFile"@ && !keep_original ==> r is None
            &&& key != "content"@ && key != "structuredPatch"@ && (key != "originalFile"@
                || keep_original) ==> r == json::child(Tree::Object(response), key)
            &&& line.contains_key("ts"@) && line["ts"@] == Tree::Number(json::number(ts))
        }),
{
    reveal_strlit("tool_input");
    reveal_strlit("tool_response");
    reveal_strlit("content");
    reveal_strlit("structuredPatch");
    reveal_strlit("originalFile");
    reveal_strlit("ts");
    assert("tool_input"@.len() == 10 && "tool_response"@.len() == 13 && "ts"@.len() == 2);
    assert("content"@.len() == 7 && "structuredPatch"@.len() == 15 && "originalFile"@.len() == 12);
}

proof fn lemma_raw(bytes: Seq<u8>, b: u8)
    ensures
        b != 10 ==> without_newlines(bytes.push(b)) == without_newlines(bytes).push(b),
        b == 10 ==> without_newlines(bytes.push(b)) == without_newlines(bytes),
{
    assert(bytes.push(b).drop_last() =~= bytes);
}

/// A payload that is no JSON object is spooled byte for byte, except for its
/// line feeds.
pub proof fn law_a_raw_payload_loses_only_line_feeds(bytes: Seq<u8>)
    ensures
        (forall|i: int| 0 <= i < bytes.len() ==> bytes[i] != 10) ==> without_newlines(bytes)
            == bytes,
        forall|b: u8| #![trigger bytes.push(b)]
            without_newlines(bytes.push(b)) == if b == 10 {
                without_newlines(bytes)
            } else {
                without_newlines(bytes).push(b)
            },
        without_newlines(bytes).to_multiset() == bytes.to_multiset().filter(|b: u8| b != 10),
    decreases bytes.len(),
{
    broadcast use vstd::seq_lib::group_to_multiset_ensures;

    assert forall|b: u8| #![trigger bytes.push(b)]
        without_newlines(bytes.push(b)) == if b == 10 {
            without_newlines(bytes)
        } else {
            without_newlines(bytes).push(b)
        } by {
        lemma_raw(bytes, b);
    }
    let keep = |b: u8| b != 10;
    if bytes.len() > 0 {
        let front = bytes.drop_last();
        law_a_raw_payload_loses_only_line_feeds(front);
        assert(front.push(bytes.last()) =~= bytes);
        assert(bytes.to_multiset() =~= front.to_multiset().insert(bytes.last()));
        if bytes.last() == 10 {
            assert(bytes.to_multiset().filter(keep) =~= front.to_multiset().filter(keep));
        } else {
            assert(without_newlines(bytes).to_multiset() =~= without_newlines(
                front,
            ).to_multiset().insert(bytes.last()));
            assert(bytes.to_multiset().filter(keep) =~= front.to_multiset().filter(keep).insert(
                bytes.last(),
            ));
        }
        if forall|i: int| 0 <= i < bytes.len() ==> bytes[i] != 10 {
            assert(forall|i: int| 0 <= i < front.len() ==> front[i] == bytes[i]);
        }
    } else {
        assert(without_newlines(bytes).to_multiset() =~= bytes.to_multiset().filter(keep));
    }
}

/// What was before an edit is spooled unless a snapshot holds it: without a
/// snapshot file the response keeps its original file.
pub proof fn law_the_original_is_never_lost(
    f: Fields,
    base_is_file: bool,
    m: Map<Seq<char>, Tree>,
    ts: u64,
    original: Tree,
)
    requires
        m.contains_key("tool_response"@),
        json::child(m["tool_response"@], "originalFile"@) == Some(original),
    ensures
        base_is_file || json::child(
            spooled(m, keeps_original(f, base_is_file), ts)["tool_response"@],
            "originalFile"@,
        ) == Some(original),
{
    law_spooled_responses_are_slim(m, keeps_original(f, base_is_file), ts);
}

/// Snapshots are kept for two days and then removed, and files among them stay.
pub proof fn law_snapshots_are_kept_for_two_days(seconds: u64)
    ensures
        stale(true, Some((seconds * 1_000_000_000) as u128)) <==> seconds > 172800,
        stale(true, Some((seconds * 1_000_000_000 + 1) as u128)) <==> seconds >= 172800,
        !stale(false, Some((seconds * 1_000_000_000) as u128)),
        !stale(true, None),
{
}

/// A spool is rotated once it is over 50 MiB.
pub proof fn law_a_spool_is_rotated_over_its_limit(len: u64)
    ensures
        rotates(len) <==> len > 52428800,
{
}

/// A busy lock is tried twenty times, a free one is held at once.
pub proof fn law_the_lock_is_tried_twenty_times(tries: nat)
    ensures
        lock_step(tries, Try::Locked) is Hold,
        lock_step(tries, Try::Failed) is GiveUp,
        tries < 20 ==> lock_step(tries, Try::Busy) is Again,
        tries >= 20 ==> lock_step(tries, Try::Busy) is LastNap,
{
}

/// Without a payload that could be read, or without an input in it, the hook
/// acts on no file.
pub proof fn law_without_an_input_there_is_no_file(f: Fields, payload: Option<Tree>)
    requires
        are_fields(f, payload),
    ensures
        payload is None ==> f.event@.len() == 0 && f.tool_use_id@.len() == 0
            && f.session_id@.len() == 0 && f.tool_name@.len() == 0 && f.file_path@.len() == 0,
        payload matches Some(t) ==> (json::child(t, "tool_input"@) is None ==> f.file_path@.len()
            == 0),
{
}

/// A line of the spool has no fields that the payload lacks, but for the time,
/// and an input or a response that is no object is left as it is.
pub proof fn law_spooling_adds_only_the_time(
    m: Map<Seq<char>, Tree>,
    keep_original: bool,
    ts: u64,
    key: Seq<char>,
)
    ensures
        key != "ts"@ ==> (spooled(m, keep_original, ts).contains_key(key) <==> m.contains_key(key)),
        spooled(m, keep_original, ts).contains_key("ts"@),
        (key == "tool_input"@ || key == "tool_response"@) && m.contains_key(key)
            && m[key] !is Object ==> spooled(m, keep_original, ts)[key] == m[key],
{
    reveal_strlit("tool_response");
    reveal_strlit("tool_input");
    reveal_strlit("ts");
    assert("tool_input"@.len() == 10 && "tool_response"@.len() == 13 && "ts"@.len() == 2);
}

/// A payload that is an object is spooled as one with its time; any other is
/// spooled as it came. Either ends in a line feed.
pub proof fn law_objects_are_spooled_as_objects(
    line: Seq<u8>,
    payload: Seq<u8>,
    parsed: Option<Tree>,
    keep_original: bool,
    ts: u64,
)
    requires
        is_spool_line(line, payload, parsed, keep_original, ts),
    ensures
        line.len() > 0,
        line.last() == 10,
        parsed matches Some(Tree::Object(m)) ==> line.drop_last() == json::compact_bytes(
            Tree::Object(spooled(m, keep_original, ts)),
        ),
        !(parsed matches Some(Tree::Object(_))) ==> line.drop_last() == without_newlines(payload),
{
    match parsed {
        Some(Tree::Object(m)) => {
            let b = json::compact_bytes(Tree::Object(spooled(m, keep_original, ts)));
            assert(b.push(10u8).drop_last() =~= b);
        },
        _ => {
            let b = without_newlines(payload);
            assert(b.push(10u8).drop_last() =~= b);
        },
    }
}

/// The original file is left out of a line only where the snapshot of an edit
/// holds it, and then always.
pub proof fn law_an_original_is_spooled_once(f: Fields, base_is_file: bool)
    ensures
        !base_is_file ==> keeps_original(f, base_is_file),
        base_is_file && (f.tool_name@ == "Edit"@ || f.tool_name@ == "Write"@ || f.tool_name@
            == "MultiEdit"@ || f.tool_name@ == "NotebookEdit"@) && f.tool_use_id@.len() > 0
            && f.session_id@.len() > 0 && f.file_path@.len() > 0 ==> !keeps_original(
            f,
            base_is_file,
        ),
        f.tool_use_id@.len() == 0 || f.session_id@.len() == 0 || f.file_path@.len() == 0
            ==> keeps_original(f, base_is_file),
{
    event::lemma_file_tools(f.tool_name@);
}

/// A directory of snapshots is removed when it is older than two days, to the
/// nanosecond.
pub proof fn law_only_old_directories_are_removed(is_dir: bool, age_nanos: u128)
    ensures
        stale(is_dir, Some(age_nanos)) <==> is_dir && age_nanos > 172800000000000,
{
}

} // verus!
