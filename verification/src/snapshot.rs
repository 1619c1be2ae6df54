//! Resolve the content a file had around an edit.
//!
//! Lookup order for `<root>/<session_id>/<tool_use_id>`:
//! 1. snapshot file            -> `Content`
//! 2. `<id>.absent` marker     -> `Absent` (file did not exist before the edit)
//! 3. anything else            -> `tool_response.originalFile` if present,
//!    else the edit strings for Edit/MultiEdit, else `Unavailable`.
//!
//! The hook also writes `<id>.after` (and `<id>.after.absent`) at PostToolUse;
//! see `resolve_after`. What is on disk is looked up by the caller and handed
//! in as a [`Probe`].

use vstd::prelude::*;
use vstd::string::*;

use crate::event;
use crate::event::HookEvent;
use crate::json;
use crate::json::{Json, Tree};
use crate::paths;
use crate::text;

verus! {

/// What is known of a file before an edit.
#[derive(Debug, Clone, PartialEq, Eq)]
pub enum Before {
    Content(Vec<u8>),
    Absent,
    /// No file snapshot; diff `old` against `new` and label it with `note`.
    Synthetic { old: String, new: String, note: String },
    Unavailable(String),
}

/// What was found on disk for one edit.
#[derive(Debug, PartialEq, Eq)]
pub struct Probe {
    /// The snapshot file, when it could be read.
    pub before: Option<Vec<u8>>,
    /// Whether each marker beside it exists.
    pub absent: bool,
    pub toolarge: bool,
    pub error: bool,
    /// The after-snapshot, when it could be read.
    pub after: Option<Vec<u8>>,
    pub after_absent: bool,
    /// The file itself, when it could be read.
    pub on_disk: Option<Vec<u8>>,
}

/// Where the snapshot of an edit is.
pub fn snapshot_path(root: &str, session_id: &str, tool_use_id: &str) -> (r: String)
    ensures
        r@ == paths::under(paths::under(root@, session_id@), tool_use_id@),
{
    paths::join(paths::join(root, session_id).as_str(), tool_use_id)
}

/// `<base>.<suffix>`. Appends rather than replacing an extension: a tool_use_id
/// like `toolu_01.x` would otherwise have its own suffix overwritten.
pub fn marker_path(base: &str, suffix: &str) -> (r: String)
    ensures
        r@ == base@ + "."@ + suffix@,
{
    let mut s = base.to_owned();
    s.append(".");
    s.append(suffix);
    s
}

/// Whether an event says where its snapshot is.
pub open spec fn locatable(ev: HookEvent) -> bool {
    ev.session_id is Some && ev.tool_use_id is Some
}

/// Where the snapshot of an event's edit is, when the event says so.
pub open spec fn snapshot_at(root: Seq<char>, ev: HookEvent) -> Option<Seq<char>> {
    match (ev.session_id, ev.tool_use_id) {
        (Some(sid), Some(id)) => Some(paths::under(paths::under(root, sid@), id@)),
        _ => None,
    }
}

/// Where the snapshot of an event's edit is, when the event says so.
pub fn snapshot_base(root: &str, ev: &HookEvent) -> (r: Option<String>)
    ensures
        text::opt_text(r) == snapshot_at(root@, *ev),
{
    match (&ev.session_id, &ev.tool_use_id) {
        (Some(sid), Some(id)) => Some(snapshot_path(root, sid.as_str(), id.as_str())),
        _ => None,
    }
}

/// Where what is known of an edit is kept.
#[derive(Debug, PartialEq, Eq)]
pub struct Spots {
    /// The snapshot file.
    pub before: String,
    /// The markers beside it.
    pub absent: String,
    pub toolarge: String,
    pub error: String,
    /// The after-snapshot, and the marker in its place.
    pub after: String,
    pub after_absent: String,
}

/// Whether `s` are the places around the snapshot file `base`.
pub open spec fn are_spots(s: Spots, base: Seq<char>) -> bool {
    &&& s.before@ == base
    &&& s.absent@ == base + "."@ + "absent"@
    &&& s.toolarge@ == base + "."@ + "toolarge"@
    &&& s.error@ == base + "."@ + "error"@
    &&& s.after@ == base + "."@ + "after"@
    &&& s.after_absent@ == base + "."@ + "after"@ + "."@ + "absent"@
}

/// Where what is known of an event's edit is kept, when the event says so.
pub fn spots(root: &str, ev: &HookEvent) -> (r: Option<Spots>)
    ensures
        r is Some <==> snapshot_at(root@, *ev) is Some,
        r matches Some(s) ==> are_spots(s, snapshot_at(root@, *ev)->0),
{
    match snapshot_base(root, ev) {
        Some(base) => {
            let after = marker_path(base.as_str(), "after");
            let after_absent = marker_path(after.as_str(), "absent");
            Some(
                Spots {
                    absent: marker_path(base.as_str(), "absent"),
                    toolarge: marker_path(base.as_str(), "toolarge"),
                    error: marker_path(base.as_str(), "error"),
                    before: base,
                    after,
                    after_absent,
                },
            )
        },
        None => None,
    }
}

/// Why there is no snapshot.
pub open spec fn missing_reason(ev: HookEvent, probe: Probe) -> Seq<char> {
    if locatable(ev) && probe.toolarge {
        "file over snapshot size limit"@
    } else if locatable(ev) && probe.error {
        "snapshot copy failed"@
    } else {
        "no snapshot"@
    }
}

/// A string that may be missing.
pub open spec fn or_empty(s: Option<Seq<char>>) -> Seq<char> {
    match s {
        Some(x) => x,
        None => Seq::empty(),
    }
}

/// The edits of a MultiEdit; none when they are not a list.
pub open spec fn edits_in(t: Option<Tree>) -> Seq<Tree> {
    match t {
        Some(x) => match json::child(x, "edits"@) {
            Some(c) => match json::items_of(c) {
                Some(s) => s,
                None => Seq::empty(),
            },
            None => Seq::empty(),
        },
        None => Seq::empty(),
    }
}

/// The strings under `key` of a list of edits.
pub open spec fn edit_strings(edits: Seq<Tree>, key: Seq<char>) -> Seq<Seq<char>> {
    edits.map_values(|e: Tree| or_empty(json::text_at(e, key)))
}

/// Whether `b` is what an event itself tells of the file before its edit.
pub open spec fn is_fallback(b: Before, ev: HookEvent, reason: Seq<char>) -> bool {
    let input = event::opt_tree(ev.tool_input);
    let note = reason + "; showing edit strings"@;
    match event::string_in(event::opt_tree(ev.tool_response), "originalFile"@) {
        Some(orig) => b matches Before::Content(v) && v@ == vstd::utf8::encode_utf8(orig),
        None => if text::opt_text(ev.tool_name) == Some("Edit"@) {
            b matches Before::Synthetic { old, new, note: n } && old@ == or_empty(
                event::string_in(input, "old_string"@),
            ) && new@ == or_empty(event::string_in(input, "new_string"@)) && n@ == note
        } else if text::opt_text(ev.tool_name) == Some("MultiEdit"@) {
            b matches Before::Synthetic { old, new, note: n } && old@ == text::joined(
                edit_strings(edits_in(input), "old_string"@),
                "\n...\n"@,
            ) && new@ == text::joined(
                edit_strings(edits_in(input), "new_string"@),
                "\n...\n"@,
            ) && n@ == note
        } else {
            b matches Before::Unavailable(m) && m@ == reason
        },
    }
}

/// Whether `b` is what is known of a file before an event's edit.
pub open spec fn is_before(b: Before, ev: HookEvent, probe: Probe) -> bool {
    if locatable(ev) && probe.before is Some {
        b matches Before::Content(v) && v@ == probe.before->0@
    } else if locatable(ev) && probe.absent {
        b is Absent
    } else {
        is_fallback(b, ev, missing_reason(ev, probe))
    }
}

/// What is known of a file before an event's edit.
pub fn resolve(ev: &HookEvent, probe: &Probe) -> (r: Before)
    ensures
        is_before(r, *ev, *probe),
{
    if ev.session_id.is_some() && ev.tool_use_id.is_some() {
        if let Some(bytes) = &probe.before {
            return Before::Content(copy_bytes(bytes));
        }
        if probe.absent {
            return Before::Absent;
        }
        let reason = if probe.toolarge {
            "file over snapshot size limit"
        } else if probe.error {
            "snapshot copy failed"
        } else {
            "no snapshot"
        };
        return fallback(ev, reason);
    }
    fallback(ev, "no snapshot")
}

/// The content of a file after an event's edit: that of the after-snapshot,
/// nothing when its marker says the file was gone, else what is on disk.
pub open spec fn after_edit(ev: HookEvent, probe: Probe) -> Option<Seq<u8>> {
    if locatable(ev) && probe.after is Some {
        Some(probe.after->0@)
    } else if locatable(ev) && probe.after_absent {
        None
    } else {
        match probe.on_disk {
            Some(b) => Some(b@),
            None => None,
        }
    }
}

/// Post-edit content as captured by the hook at PostToolUse.
///
/// `Some(Some(bytes))` when the file was snapshotted, `Some(None)` when it was
/// gone, and `None` when no after-snapshot exists and the file on disk counts.
/// That is only right when nothing has touched the file since: during replay,
/// and whenever several edits to one file are processed in the same tick, the
/// file already holds later edits.
pub fn resolve_after<'a>(ev: &HookEvent, probe: &'a Probe) -> (r: Option<Option<&'a [u8]>>)
    ensures
        r is Some <==> locatable(*ev) && (probe.after is Some || probe.after_absent),
        r matches Some(x) ==> (x is Some <==> probe.after is Some),
        r matches Some(Some(b)) ==> b@ == probe.after->0@,
{
    if ev.session_id.is_none() || ev.tool_use_id.is_none() {
        return None;
    }
    if let Some(bytes) = &probe.after {
        return Some(Some(bytes.as_slice()));
    }
    if probe.after_absent {
        return Some(None);
    }
    None
}

/// A copy of some bytes.
fn copy_bytes(bytes: &Vec<u8>) -> (r: Vec<u8>)
    ensures
        r@ == bytes@,
{
    let mut out: Vec<u8> = Vec::new();
    let mut i: usize = 0;
    while i < bytes.len()
        invariant
            i <= bytes@.len(),
            out@ == bytes@.take(i as int),
        decreases bytes@.len() - i,
    {
        out.push(bytes[i]);
        i += 1;
    }
    out
}

/// The bytes of a string.
fn bytes_of(s: &str) -> (r: Vec<u8>)
    ensures
        r@ == vstd::utf8::encode_utf8(s@),
{
    let bytes = s.as_bytes();
    let mut out: Vec<u8> = Vec::new();
    let mut i: usize = 0;
    while i < bytes.len()
        invariant
            i <= bytes@.len(),
            out@ == bytes@.take(i as int),
        decreases bytes@.len() - i,
    {
        out.push(bytes[i]);
        i += 1;
    }
    assert(bytes@.take(i as int) =~= bytes@);
    out
}

fn or_blank(s: Option<&str>) -> (r: String)
    ensures
        s matches Some(x) ==> r@ == x@,
        s is None ==> r@.len() == 0,
{
    match s {
        Some(x) => x.to_owned(),
        None => String::new(),
    }
}

/// The strings under `key` of a list of edits, with dots between them.
fn join_edits(edits: &Vec<Json>, key: &str) -> (r: String)
    ensures
        r@ == text::joined(edit_strings(json::trees(edits@), key@), "\n...\n"@),
{
    let ghost want = edit_strings(json::trees(edits@), key@);
    proof {
        json::lemma_trees(edits@);
    }
    let mut parts: Vec<String> = Vec::new();
    let mut i: usize = 0;
    while i < edits.len()
        invariant
            i <= edits@.len(),
            want == edit_strings(json::trees(edits@), key@),
            json::trees(edits@).len() == edits@.len(),
            forall|k: int| 0 <= k < edits@.len() ==> #[trigger] json::trees(edits@)[k] == edits@[k]@,
            text::texts(parts@) == want.take(i as int),
        decreases edits@.len() - i,
    {
        let part = or_blank(edits[i].str_at(key));
        proof {
            assert(json::trees(edits@)[i as int] == edits@[i as int]@);
            assert(part@ =~= want[i as int]);
        }
        let ghost before = text::texts(parts@);
        let ghost v = part@;
        parts.push(part);
        assert(text::texts(parts@) =~= before.push(v));
        assert(want.take(i + 1) =~= before.push(v));
        i += 1;
    }
    assert(want.take(i as int) =~= want);
    text::join(&parts, "\n...\n")
}

/// What an event itself tells of the file before its edit.
pub fn fallback(ev: &HookEvent, reason: &str) -> (r: Before)
    ensures
        is_fallback(r, *ev, reason@),
{
    if let Some(orig) = ev.response_str("originalFile") {
        return Before::Content(bytes_of(orig));
    }
    let tool = match &ev.tool_name {
        Some(t) => t.as_str(),
        None => return Before::Unavailable(reason.to_owned()),
    };
    let is_edit = text::same(tool, "Edit");
    if !is_edit && !text::same(tool, "MultiEdit") {
        return Before::Unavailable(reason.to_owned());
    }
    let mut note = reason.to_owned();
    note.append("; showing edit strings");
    if is_edit {
        let old = or_blank(ev.input_str("old_string"));
        let new = or_blank(ev.input_str("new_string"));
        proof {
            let input = event::opt_tree(ev.tool_input);
            assert(old@ =~= or_empty(event::string_in(input, "old_string"@)));
            assert(new@ =~= or_empty(event::string_in(input, "new_string"@)));
        }
        return Before::Synthetic { old, new, note };
    }
    let none: Vec<Json> = Vec::new();
    let edits = match &ev.tool_input {
        Some(input) => match input.get("edits") {
            Some(e) => match e.as_array() {
                Some(v) => v,
                None => &none,
            },
            None => &none,
        },
        None => &none,
    };
    proof {
        reveal_strlit("Edit");
        reveal_strlit("MultiEdit");
        assert(json::trees(edits@) =~= edits_in(event::opt_tree(ev.tool_input)));
    }
    let old = join_edits(edits, "old_string");
    let new = join_edits(edits, "new_string");
    Before::Synthetic { old, new, note }
}

/// Once an edit has its after-snapshot, what happens to the file later does
/// not leak into it.
pub proof fn law_later_edits_do_not_leak(ev: HookEvent, probe: Probe, later: Option<Vec<u8>>)
    requires
        locatable(ev),
        probe.after is Some || probe.after_absent,
    ensures
        after_edit(ev, Probe { on_disk: later, ..probe }) == after_edit(ev, probe),
        forall|b: Before| #[trigger]
            is_before(b, ev, Probe { on_disk: later, ..probe }) <==> is_before(b, ev, probe),
{
}

/// What stood before an edit is its snapshot when there is one, and nothing
/// when the file was not there.
pub proof fn law_the_snapshot_is_what_stood_before(b: Before, ev: HookEvent, probe: Probe)
    requires
        ev.session_id is Some,
        ev.tool_use_id is Some,
        is_before(b, ev, probe),
    ensures
        probe.before matches Some(v) ==> (b matches Before::Content(w) && w@ == v@),
        probe.before is None && probe.absent ==> b is Absent,
{
}

/// Without a snapshot the answer of the tool says what stood before. Where it
/// does not, the strings of an edit are shown with the reason, and of other
/// tools the reason alone.
pub proof fn law_without_a_snapshot_the_payload_tells(b: Before, ev: HookEvent, probe: Probe)
    requires
        ev.session_id is None || ev.tool_use_id is None || (probe.before is None
            && !probe.absent),
        is_before(b, ev, probe),
    ensures
        ({
            let known = ev.session_id is Some && ev.tool_use_id is Some;
            let why = if known && probe.toolarge {
                "file over snapshot size limit"@
            } else if known && probe.error {
                "snapshot copy failed"@
            } else {
                "no snapshot"@
            };
            let original = event::string_in(
                event::opt_tree(ev.tool_response),
                "originalFile"@,
            );
            let input = event::opt_tree(ev.tool_input);
            let is_edit = ev.tool_name matches Some(t) && t@ == "Edit"@;
            let is_multi = ev.tool_name matches Some(t) && t@ == "MultiEdit"@;
            &&& original matches Some(s) ==> (b matches Before::Content(v) && v@
                == vstd::utf8::encode_utf8(s))
            &&& original is None && is_edit ==> (b matches Before::Synthetic {
                old: a,
                new: c,
                note,
            } && a@ == (match event::string_in(input, "old_string"@) {
                Some(s) => s,
                None => Seq::empty(),
            }) && c@ == (match event::string_in(input, "new_string"@) {
                Some(s) => s,
                None => Seq::empty(),
            }) && note@ == why + "; showing edit strings"@)
            &&& original is None && is_multi ==> (b matches Before::Synthetic {
                old: a,
                new: c,
                note,
            } && a@ == text::joined(edit_strings(edits_in(input), "old_string"@), "\n...\n"@)
                && c@ == text::joined(
                edit_strings(edits_in(input), "new_string"@),
                "\n...\n"@,
            ) && note@ == why + "; showing edit strings"@)
            &&& original is None && !is_edit && !is_multi ==> (b matches Before::Unavailable(m)
                && m@ == why)
        }),
{
    reveal_strlit("Edit");
    reveal_strlit("MultiEdit");
    assert("Edit"@.len() != "MultiEdit"@.len());
}

/// The strings of an edit of many stand one for one for its parts, blank where
/// a part has none.
pub proof fn law_every_part_of_an_edit_is_shown(edits: Seq<Tree>, key: Seq<char>, i: int)
    requires
        0 <= i < edits.len(),
    ensures
        edit_strings(edits, key).len() == edits.len(),
        json::text_at(edits[i], key) matches Some(s) ==> edit_strings(edits, key)[i] == s,
        json::text_at(edits[i], key) is None ==> edit_strings(edits, key)[i].len() == 0,
{
}

/// What an edit left is its after-snapshot when there is one, nothing when the
/// file was gone then, and the file as it is now only where neither was kept.
pub proof fn law_the_after_snapshot_is_what_an_edit_left(ev: HookEvent, probe: Probe)
    ensures
        ({
            let known = ev.session_id is Some && ev.tool_use_id is Some;
            let left = after_edit(ev, probe);
            &&& known && probe.after is Some ==> left == Some(probe.after->0@)
            &&& known && probe.after is None && probe.after_absent ==> left is None
            &&& !known || (probe.after is None && !probe.after_absent) ==> (
            left is Some <==> probe.on_disk is Some) && (probe.on_disk matches Some(d) ==> left
                == Some(d@))
        }),
{
}

/// The snapshots of an edit lie in the directory of its session, under the id
/// of the tool use.
pub proof fn law_snapshots_lie_in_their_session(root: Seq<char>, ev: HookEvent)
    requires
        root.len() > 0,
        root.last() != '/',
        ev.session_id matches Some(s) ==> s@.len() > 0 && s@[0] != '/' && s@.last() != '/',
        ev.tool_use_id matches Some(s) ==> s@.len() > 0 && s@[0] != '/',
    ensures
        ev.session_id matches Some(s) ==> (ev.tool_use_id matches Some(t) ==> snapshot_at(root, ev)
            == Some(root + "/"@ + s@ + "/"@ + t@)),
        ev.session_id is None || ev.tool_use_id is None ==> snapshot_at(root, ev) is None,
{
    reveal_strlit("/");
    if let Some(s) = ev.session_id {
        assert(root.push('/') =~= root + "/"@);
        let dir = root + "/"@ + s@;
        assert(dir.last() == s@.last());
        assert(dir.push('/') =~= dir + "/"@);
    }
}

/// The marks of an edit stand beside its snapshot, each under a name of its
/// own.
pub proof fn law_marks_stand_beside_the_snapshot(s: Spots, base: Seq<char>)
    requires
        are_spots(s, base),
    ensures
        s.before@ == base,
        s.absent@ == base + ".absent"@,
        s.toolarge@ == base + ".toolarge"@,
        s.error@ == base + ".error"@,
        s.after@ == base + ".after"@,
        s.after_absent@ == base + ".after.absent"@,
{
    reveal_strlit(".");
    reveal_strlit("absent");
    reveal_strlit("toolarge");
    reveal_strlit("error");
    reveal_strlit("after");
    reveal_strlit(".absent");
    reveal_strlit(".toolarge");
    reveal_strlit(".error");
    reveal_strlit(".after");
    reveal_strlit(".after.absent");
    assert(s.absent@ =~= base + ".absent"@);
    assert(s.toolarge@ =~= base + ".toolarge"@);
    assert(s.error@ =~= base + ".error"@);
    assert(s.after@ =~= base + ".after"@);
    assert(s.after_absent@ =~= base + ".after.absent"@);
}

} // verus!
