//! Turn a stream of hook events for one directory or repository into edit
//! cards.

use vstd::prelude::*;
use vstd::string::*;

use crate::diff;
use crate::diff::DiffResult;
use crate::event;
use crate::event::HookEvent;
use crate::paths;
use crate::snapshot;
use crate::snapshot::{Before, Probe};
use crate::spool;
use crate::spool::{Accepted, CwdMatch, CwdMatcher};
use crate::text;

verus! {

/// Pending PreToolUse entries older than this are dropped.
pub const PENDING_TTL_MS: u64 = 600_000;

/// A PreToolUse that waits for its PostToolUse.
#[derive(Debug, Clone, PartialEq, Eq)]
pub struct PendingPre {
    pub ts: u64,
    pub tool: String,
    pub file: Option<String>,
    pub agent: Option<String>,
    pub session_id: Option<String>,
}

/// What a pending entry holds.
pub struct Held {
    pub ts: u64,
    pub tool: Seq<char>,
    pub file: Option<Seq<char>>,
    pub agent: Option<Seq<char>>,
    pub session_id: Option<Seq<char>>,
}

impl View for PendingPre {
    type V = Held;

    open spec fn view(&self) -> Held {
        Held {
            ts: self.ts,
            tool: self.tool@,
            file: text::opt_text(self.file),
            agent: text::opt_text(self.agent),
            session_id: text::opt_text(self.session_id),
        }
    }
}

/// Everything needed to render a card; rendering is a separate step.
#[derive(Debug, Clone, PartialEq, Eq)]
pub struct CardInput {
    /// The path as shown.
    pub path: String,
    /// The file the edit was made to.
    pub file: String,
    pub tool: String,
    /// Milliseconds since the epoch; zero when unknown.
    pub ts: u64,
    /// The subagent that made the edit.
    pub agent: Option<String>,
    pub diff: DiffResult,
    pub user_modified: bool,
    pub session_id: Option<String>,
    /// The name of the worktree when it is not the monitor's own.
    pub worktree: Option<String>,
    /// The root of the worktree the edit belongs to.
    pub root: String,
    /// Whether the file is in a scratch directory.
    pub temp: bool,
}

/// A card that lacks its diff.
#[derive(Debug, PartialEq, Eq)]
pub struct CardRequest {
    pub file: String,
    pub tool: String,
    pub ts: u64,
    pub agent: Option<String>,
    pub user_modified: bool,
    pub session_id: Option<String>,
    pub worktree: Option<String>,
    pub root: String,
    pub temp: bool,
}

/// What a request holds.
pub struct Request {
    pub file: Seq<char>,
    pub tool: Seq<char>,
    pub ts: u64,
    pub agent: Option<Seq<char>>,
    pub user_modified: bool,
    pub session_id: Option<Seq<char>>,
    pub worktree: Option<Seq<char>>,
    pub root: Seq<char>,
    pub temp: bool,
}

impl View for CardRequest {
    type V = Request;

    open spec fn view(&self) -> Request {
        Request {
            file: self.file@,
            tool: self.tool@,
            ts: self.ts,
            agent: text::opt_text(self.agent),
            user_modified: self.user_modified,
            session_id: text::opt_text(self.session_id),
            worktree: text::opt_text(self.worktree),
            root: self.root@,
            temp: self.temp,
        }
    }
}

/// What a request that is there holds.
pub open spec fn opt_request(r: Option<CardRequest>) -> Option<Request> {
    match r {
        Some(x) => Some(x@),
        None => None,
    }
}

/// The entries by their id; the last one of an id counts.
pub open spec fn by_id(pending: Seq<(String, PendingPre)>) -> Map<Seq<char>, Held>
    decreases pending.len(),
{
    if pending.len() == 0 {
        Map::empty()
    } else {
        by_id(pending.drop_last()).insert(pending.last().0@, pending.last().1@)
    }
}

/// Whether no id stands twice.
pub open spec fn distinct_ids(pending: Seq<(String, PendingPre)>) -> bool {
    forall|i: int, j: int|
        0 <= i < j < pending.len() ==> (#[trigger] pending[i]).0@ != (#[trigger] pending[j]).0@
}

/// What a pipeline remembers between events.
pub struct Memory {
    pub pending: Map<Seq<char>, Held>,
    pub session_id: Option<Seq<char>>,
}

/// The state of a monitor.
#[derive(Debug)]
pub struct Pipeline {
    pub matcher: CwdMatcher,
    pub snapshot_root: String,
    /// How the paths of scratch directories begin.
    pub scratch_dirs: Vec<String>,
    pub pending: Vec<(String, PendingPre)>,
    pub session_id: Option<String>,
}

/// The session of an entry; entries without one share a bucket.
pub open spec fn bucket(session_id: Option<Seq<char>>) -> Seq<char> {
    match session_id {
        Some(s) => s,
        None => Seq::empty(),
    }
}

/// The entries that do not belong to a session.
pub open spec fn without_session(pending: Map<Seq<char>, Held>, session: Seq<char>) -> Map<
    Seq<char>,
    Held,
> {
    pending.restrict(Set::new(|id: Seq<char>| pending.contains_key(id) && bucket(pending[id].session_id) != session))
}

/// The first of two that is there.
pub open spec fn or(a: Option<Seq<char>>, b: Option<Seq<char>>) -> Option<Seq<char>> {
    match a {
        Some(x) => Some(x),
        None => b,
    }
}

/// The entry that waits for an event.
pub open spec fn waiting(m: Memory, ev: HookEvent) -> Option<Held> {
    match ev.tool_use_id {
        Some(id) => if m.pending.contains_key(id@) {
            Some(m.pending[id@])
        } else {
            None
        },
        None => None,
    }
}

/// The memory once an event was matched with the entry that waited for it.
pub open spec fn answered(m: Memory, ev: HookEvent) -> Memory {
    match ev.tool_use_id {
        Some(id) => Memory { pending: m.pending.remove(id@), ..m },
        None => m,
    }
}

/// The file an event edited: as the event says, else as the entry that waited
/// for it says, else as the tool's response says.
pub open spec fn edited_file(ev: HookEvent, pre: Option<Held>) -> Option<Seq<char>> {
    or(
        event::target_in(event::opt_tree(ev.tool_input)),
        or(
            match pre {
                Some(p) => p.file,
                None => None,
            },
            event::string_in(event::opt_tree(ev.tool_response), "filePath"@),
        ),
    )
}

/// The root of the worktree an event belongs to.
pub open spec fn event_root(p: Pipeline, found: Accepted) -> Seq<char> {
    match found {
        Accepted::Exact => p.matcher.cwd@,
        Accepted::Repo(toplevel) => toplevel,
    }
}

/// The name of the worktree an event belongs to when it is not the monitor's.
pub open spec fn event_worktree(p: Pipeline, found: Accepted) -> Option<Seq<char>> {
    match found {
        Accepted::Exact => None,
        Accepted::Repo(toplevel) => match p.matcher.repo {
            Some(repo) => if repo.toplevel@ == toplevel {
                None
            } else {
                paths::base_name(toplevel)
            },
            None => paths::base_name(toplevel),
        },
    }
}

/// What is asked for an edit of `file`.
pub open spec fn asked(
    p: Pipeline,
    ev: HookEvent,
    found: Accepted,
    pre: Option<Held>,
    file: Seq<char>,
) -> Request {
    Request {
        file,
        tool: match (ev.tool_name, pre) {
            (Some(t), _) => t@,
            (None, Some(p)) => p.tool,
            (None, None) => Seq::empty(),
        },
        ts: event::event_ts(ev),
        agent: or(
            event::agent_text(ev.agent_type, ev.agent_id),
            match pre {
                Some(p) => p.agent,
                None => None,
            },
        ),
        user_modified: event::bool_in(event::opt_tree(ev.tool_response), "userModified"@) == Some(
            true,
        ),
        session_id: text::opt_text(ev.session_id),
        worktree: event_worktree(p, found),
        root: event_root(p, found),
        temp: paths::scratch(file, text::texts(p.scratch_dirs@)),
    }
}

/// The entry a PreToolUse leaves.
pub open spec fn noted(ev: HookEvent) -> Held {
    Held {
        ts: event::event_ts(ev),
        tool: match ev.tool_name {
            Some(t) => t@,
            None => Seq::empty(),
        },
        file: event::target_in(event::opt_tree(ev.tool_input)),
        agent: event::agent_text(ev.agent_type, ev.agent_id),
        session_id: text::opt_text(ev.session_id),
    }
}

/// What an event does: what is remembered after it, and the card it asks for.
/// Only a PostToolUse of a file tool in a directory that is followed asks for
/// one. A session that begins anew clears its own pending entries.
pub open spec fn step(p: Pipeline, m: Memory, ev: HookEvent) -> (Memory, Option<Request>) {
    match spool::known(p.matcher, ev) {
        None => (m, None),
        Some(found) => if event::starts_session(ev) {
            (
                Memory {
                    pending: if event::starts_anew(ev) {
                        without_session(m.pending, spool::session_key(ev))
                    } else {
                        m.pending
                    },
                    session_id: text::opt_text(ev.session_id),
                },
                None,
            )
        } else if !event::edits_files(ev) {
            (m, None)
        } else if ev.hook_event_name@ == "PreToolUse"@ {
            match ev.tool_use_id {
                Some(id) => (Memory { pending: m.pending.insert(id@, noted(ev)), ..m }, None),
                None => (m, None),
            }
        } else if ev.hook_event_name@ == "PostToolUse"@ {
            let pre = waiting(m, ev);
            (
                answered(m, ev),
                match edited_file(ev, pre) {
                    Some(file) => Some(asked(p, ev, found, pre, file)),
                    None => None,
                },
            )
        } else {
            (m, None)
        },
    }
}

proof fn lemma_by_id(pending: Seq<(String, PendingPre)>)
    requires
        distinct_ids(pending),
    ensures
        forall|i: int|
            0 <= i < pending.len() ==> by_id(pending).contains_key((#[trigger] pending[i]).0@)
                && by_id(pending)[pending[i].0@] == pending[i].1@,
        forall|id: Seq<char>| #[trigger]
            by_id(pending).contains_key(id) ==> exists|i: int|
                0 <= i < pending.len() && (#[trigger] pending[i]).0@ == id,
    decreases pending.len(),
{
    if pending.len() > 0 {
        let front = pending.drop_last();
        assert(distinct_ids(front)) by {
            assert forall|i: int, j: int| 0 <= i < j < front.len() implies (#[trigger] front[i]).0@
                != (#[trigger] front[j]).0@ by {
                assert(front[i] == pending[i]);
                assert(front[j] == pending[j]);
            }
        }
        lemma_by_id(front);
        assert forall|i: int| 0 <= i < pending.len() implies by_id(pending).contains_key(
            (#[trigger] pending[i]).0@,
        ) && by_id(pending)[pending[i].0@] == pending[i].1@ by {
            if i < front.len() {
                assert(front[i] == pending[i]);
                assert(pending[i].0@ != pending[pending.len() - 1].0@);
            }
        }
        assert forall|id: Seq<char>| #[trigger] by_id(pending).contains_key(id) implies exists|
            i: int,
        |
            0 <= i < pending.len() && (#[trigger] pending[i]).0@ == id by {
            if id == pending.last().0@ {
                assert(pending[pending.len() - 1].0@ == id);
            } else {
                assert(by_id(front).contains_key(id));
                let i = choose|i: int| 0 <= i < front.len() && (#[trigger] front[i]).0@ == id;
                assert(pending[i].0@ == id);
            }
        }
    }
}

proof fn lemma_remove_id(pending: Seq<(String, PendingPre)>, i: int)
    requires
        distinct_ids(pending),
        0 <= i < pending.len(),
    ensures
        distinct_ids(pending.remove(i)),
        by_id(pending.remove(i)) == by_id(pending).remove(pending[i].0@),
{
    let rest = pending.remove(i);
    assert forall|a: int, b: int| 0 <= a < b < rest.len() implies (#[trigger] rest[a]).0@ != (
    #[trigger] rest[b]).0@ by {
        let x = if a < i {
            a
        } else {
            a + 1
        };
        let y = if b < i {
            b
        } else {
            b + 1
        };
        assert(rest[a] == pending[x]);
        assert(rest[b] == pending[y]);
    }
    lemma_by_id(pending);
    lemma_by_id(rest);
    let key = pending[i].0@;
    assert forall|id: Seq<char>| by_id(rest).contains_key(id) <==> #[trigger] by_id(pending).remove(
        key,
    ).contains_key(id) by {
        if by_id(rest).contains_key(id) {
            let a = choose|a: int| 0 <= a < rest.len() && (#[trigger] rest[a]).0@ == id;
            let x = if a < i {
                a
            } else {
                a + 1
            };
            assert(rest[a] == pending[x]);
            assert(pending[x].0@ != pending[i].0@) by {
                if x < i {
                    assert(pending[x].0@ != pending[i].0@);
                } else {
                    assert(pending[i].0@ != pending[x].0@);
                }
            }
        }
        if by_id(pending).remove(key).contains_key(id) {
            let x = choose|x: int| 0 <= x < pending.len() && (#[trigger] pending[x]).0@ == id;
            let a = if x < i {
                x
            } else {
                x - 1
            };
            assert(rest[a] == pending[x]);
        }
    }
    assert forall|id: Seq<char>| by_id(rest).contains_key(id) implies by_id(rest)[id]
        == #[trigger] by_id(pending)[id] by {
        let a = choose|a: int| 0 <= a < rest.len() && (#[trigger] rest[a]).0@ == id;
        let x = if a < i {
            a
        } else {
            a + 1
        };
        assert(rest[a] == pending[x]);
    }
    assert(by_id(rest) =~= by_id(pending).remove(key));
}

/// Takes the entry of `id` out.
fn take_pending(pending: &mut Vec<(String, PendingPre)>, id: &str) -> (r: Option<PendingPre>)
    requires
        distinct_ids(old(pending)@),
    ensures
        distinct_ids(final(pending)@),
        by_id(final(pending)@) == by_id(old(pending)@).remove(id@),
        r is Some <==> by_id(old(pending)@).contains_key(id@),
        r matches Some(p) ==> p@ == by_id(old(pending)@)[id@],
{
    let ghost before = pending@;
    proof {
        lemma_by_id(before);
    }
    let mut i: usize = 0;
    while i < pending.len()
        invariant
            i <= pending@.len(),
            pending@ == before,
            before == old(pending)@,
            distinct_ids(before),
            forall|k: int| 0 <= k < i ==> (#[trigger] before[k]).0@ != id@,
        decreases pending@.len() - i,
    {
        if text::same(pending[i].0.as_str(), id) {
            proof {
                lemma_by_id(before);
                lemma_remove_id(before, i as int);
            }
            let (_, p) = pending.remove(i);
            return Some(p);
        }
        i += 1;
    }
    proof {
        if by_id(before).contains_key(id@) {
            let k = choose|k: int| 0 <= k < before.len() && (#[trigger] before[k]).0@ == id@;
            assert(before[k].0@ != id@);
        }
        assert(by_id(before).remove(id@) =~= by_id(before));
    }
    None
}

/// Puts an entry under `id`.
fn put_pending(pending: &mut Vec<(String, PendingPre)>, id: &str, p: PendingPre)
    requires
        distinct_ids(old(pending)@),
    ensures
        distinct_ids(final(pending)@),
        by_id(final(pending)@) == by_id(old(pending)@).insert(id@, p@),
{
    let _ = take_pending(pending, id);
    let ghost rest = pending@;
    proof {
        lemma_by_id(rest);
    }
    pending.push((id.to_owned(), p));
    proof {
        assert(pending@.drop_last() =~= rest);
        assert forall|i: int, j: int| 0 <= i < j < pending@.len() implies (
        #[trigger] pending@[i]).0@ != (#[trigger] pending@[j]).0@ by {
            assert(pending@[i] == rest[i]);
            if j < rest.len() {
                assert(pending@[j] == rest[j]);
            } else {
                assert(by_id(rest).contains_key(rest[i].0@));
            }
        }
        assert(by_id(pending@) =~= by_id(old(pending)@).insert(id@, p@));
    }
}

/// Whether an entry is dropped once the time is `now`. An entry of unknown
/// time is kept.
pub open spec fn stale(p: Held, now: u64) -> bool {
    p.ts != 0 && now >= p.ts && now - p.ts >= PENDING_TTL_MS
}

/// The entries that are not stale.
pub open spec fn fresh_entries(pending: Map<Seq<char>, Held>, now: u64) -> Map<Seq<char>, Held> {
    pending.restrict(Set::new(|id: Seq<char>| pending.contains_key(id) && !stale(pending[id], now)))
}

fn same_bucket(a: &Option<String>, b: &Option<String>) -> (r: bool)
    ensures
        r == (bucket(text::opt_text(*a)) == bucket(text::opt_text(*b))),
{
    match (a, b) {
        (Some(x), Some(y)) => text::same(x.as_str(), y.as_str()),
        (Some(x), None) | (None, Some(x)) => {
            let r = x.as_str().is_empty();
            assert(r ==> x@ =~= Seq::empty());
            r
        },
        (None, None) => true,
    }
}

/// Takes out the entries of a session.
fn clear_session(pending: &mut Vec<(String, PendingPre)>, session_id: &Option<String>)
    requires
        distinct_ids(old(pending)@),
    ensures
        distinct_ids(final(pending)@),
        by_id(final(pending)@) == without_session(
            by_id(old(pending)@),
            bucket(text::opt_text(*session_id)),
        ),
{
    let ghost all = by_id(pending@);
    let ghost session = bucket(text::opt_text(*session_id));
    let mut i: usize = 0;
    while i < pending.len()
        invariant
            i <= pending@.len(),
            distinct_ids(pending@),
            session == bucket(text::opt_text(*session_id)),
            without_session(by_id(pending@), session) == without_session(all, session),
            forall|k: int|
                0 <= k < i ==> bucket((#[trigger] pending@[k]).1@.session_id) != session,
        decreases pending@.len() - i,
    {
        if same_bucket(&pending[i].1.session_id, session_id) {
            let ghost before = pending@;
            proof {
                lemma_by_id(before);
                lemma_remove_id(before, i as int);
                assert(without_session(by_id(before).remove(before[i as int].0@), session)
                    =~= without_session(by_id(before), session));
            }
            let _ = pending.remove(i);
            assert(forall|k: int| 0 <= k < i ==> pending@[k] == before[k]);
        } else {
            i += 1;
        }
    }
    proof {
        lemma_by_id(pending@);
        let m = by_id(pending@);
        assert forall|id: Seq<char>| m.contains_key(id) implies bucket(
            (#[trigger] m[id]).session_id,
        ) != session by {
            let k = choose|k: int| 0 <= k < pending@.len() && (#[trigger] pending@[k]).0@ == id;
            assert(m[pending@[k].0@] == pending@[k].1@);
        }
        assert(without_session(m, session) =~= m);
    }
}

impl Pipeline {
    /// What is remembered between events.
    pub open spec fn memory(self) -> Memory {
        Memory { pending: by_id(self.pending@), session_id: text::opt_text(self.session_id) }
    }

    /// Whether no pending id stands twice.
    pub open spec fn wf(self) -> bool {
        distinct_ids(self.pending@)
    }

    /// Whether `other` differs from this one in what it remembers alone.
    pub open spec fn same_setup(self, other: Pipeline) -> bool {
        &&& self.matcher == other.matcher
        &&& self.snapshot_root == other.snapshot_root
        &&& self.scratch_dirs == other.scratch_dirs
    }

    pub fn new(matcher: CwdMatcher, snapshot_root: String, scratch_dirs: Vec<String>) -> (r: Pipeline)
        ensures
            r.wf(),
            r.matcher == matcher,
            r.snapshot_root == snapshot_root,
            r.scratch_dirs == scratch_dirs,
            r.memory() == (Memory { pending: Map::empty(), session_id: None }),
    {
        Pipeline { matcher, snapshot_root, scratch_dirs, pending: Vec::new(), session_id: None }
    }

    pub fn cwd(&self) -> (r: &str)
        ensures
            r@ == self.matcher.cwd@,
    {
        self.matcher.cwd()
    }

    /// The monitor's worktree root when it follows a repository.
    pub fn toplevel(&self) -> (r: Option<&str>)
        ensures
            r is Some <==> self.matcher.repo is Some,
            r matches Some(s) ==> s@ == self.matcher.repo->0.toplevel@,
    {
        self.matcher.toplevel()
    }

    /// How many edits have begun and not ended.
    pub fn pending_len(&self) -> (n: usize)
        requires
            self.wf(),
        ensures
            n == self.memory().pending.len(),
    {
        proof {
            lemma_id_count(self.pending@);
        }
        self.pending.len()
    }

    /// Whether the event belongs to this monitor's directory or repository.
    pub fn accepts(&self, ev: &HookEvent) -> (r: bool)
        ensures
            r == (spool::known(self.matcher, *ev) is Some),
    {
        self.matcher.accepts(ev)
    }

    /// Feed one event. Asks for a card only for a PostToolUse of a file tool.
    pub fn handle(&mut self, ev: &HookEvent) -> (r: Option<CardRequest>)
        requires
            old(self).wf(),
        ensures
            final(self).wf(),
            final(self).same_setup(*old(self)),
            (final(self).memory(), opt_request(r)) == step(*old(self), old(self).memory(), *ev),
    {
        let found = match self.matcher.resolve_event(ev) {
            Some(m) => m,
            None => return None,
        };
        if ev.is_session_start() {
            if ev.is_boundary() {
                clear_session(&mut self.pending, &ev.session_id);
            }
            self.session_id = text::copied(&ev.session_id);
            return None;
        }
        if !ev.is_file_tool() {
            return None;
        }
        if ev.is_pre() {
            if let Some(id) = &ev.tool_use_id {
                let p = PendingPre {
                    ts: ev.ts_ms(),
                    tool: name_or_blank(&ev.tool_name),
                    file: ev.file_path(),
                    agent: ev.agent_label(),
                    session_id: text::copied(&ev.session_id),
                };
                put_pending(&mut self.pending, id.as_str(), p);
            }
            return None;
        }
        if !ev.is_post() {
            return None;
        }
        let pre = match &ev.tool_use_id {
            Some(id) => take_pending(&mut self.pending, id.as_str()),
            None => None,
        };
        self.request(ev, found, pre)
    }

    /// The card an event asks for.
    fn request(&self, ev: &HookEvent, found: CwdMatch, pre: Option<PendingPre>) -> (r: Option<
        CardRequest,
    >)
        ensures
            opt_request(r) == match edited_file(*ev, opt_held(pre)) {
                Some(file) => Some(asked(*self, *ev, found@, opt_held(pre), file)),
                None => None,
            },
    {
        let (pre_file, pre_tool, pre_agent) = match pre {
            Some(p) => (p.file, Some(p.tool), p.agent),
            None => (None, None, None),
        };
        let file = match ev.file_path() {
            Some(f) => f,
            None => match pre_file {
                Some(f) => f,
                None => match ev.response_str("filePath") {
                    Some(f) => f.to_owned(),
                    None => return None,
                },
            },
        };
        let tool = match &ev.tool_name {
            Some(t) => t.clone(),
            None => match pre_tool {
                Some(t) => t,
                None => String::new(),
            },
        };
        let agent = match ev.agent_label() {
            Some(a) => Some(a),
            None => pre_agent,
        };
        let user_modified = match ev.response_bool("userModified") {
            Some(b) => b,
            None => false,
        };
        let worktree = self.worktree_of(&found);
        let root = self.root_of(found);
        let temp = paths::is_scratch(file.as_str(), &self.scratch_dirs);
        let req = CardRequest {
            file,
            tool,
            ts: ev.ts_ms(),
            agent,
            user_modified,
            session_id: text::copied(&ev.session_id),
            worktree,
            root,
            temp,
        };
        proof {
            let want = asked(*self, *ev, found@, opt_held(pre), req.file@);
            assert(req@.tool =~= want.tool);
            assert(req@ == want);
        }
        Some(req)
    }

    fn worktree_of(&self, found: &CwdMatch) -> (r: Option<String>)
        ensures
            text::opt_text(r) == event_worktree(*self, found@),
    {
        match found {
            CwdMatch::Exact => None,
            CwdMatch::Repo { toplevel } => match &self.matcher.repo {
                Some(repo) => if text::same(repo.toplevel.as_str(), toplevel.as_str()) {
                    None
                } else {
                    paths::file_name(toplevel.as_str())
                },
                None => paths::file_name(toplevel.as_str()),
            },
        }
    }

    fn root_of(&self, found: CwdMatch) -> (r: String)
        ensures
            r@ == event_root(*self, found@),
    {
        match found {
            CwdMatch::Exact => self.matcher.cwd.clone(),
            CwdMatch::Repo { toplevel } => toplevel,
        }
    }

    /// Drop stale PreToolUse entries (tool denied or failed, so no Post).
    pub fn prune_pending(&mut self, now_ms: u64)
        requires
            old(self).wf(),
        ensures
            final(self).wf(),
            final(self).same_setup(*old(self)),
            final(self).session_id == old(self).session_id,
            by_id(final(self).pending@) == fresh_entries(by_id(old(self).pending@), now_ms),
    {
        let ghost all = by_id(self.pending@);
        let mut i: usize = 0;
        while i < self.pending.len()
            invariant
                i <= self.pending@.len(),
                distinct_ids(self.pending@),
                self.same_setup(*old(self)),
                self.session_id == old(self).session_id,
                fresh_entries(by_id(self.pending@), now_ms) == fresh_entries(all, now_ms),
                forall|k: int| 0 <= k < i ==> !stale((#[trigger] self.pending@[k]).1@, now_ms),
            decreases self.pending@.len() - i,
        {
            let ts = self.pending[i].1.ts;
            if ts == 0 || now_ms.saturating_sub(ts) < PENDING_TTL_MS {
                i += 1;
            } else {
                let ghost before = self.pending@;
                proof {
                    lemma_by_id(before);
                    lemma_remove_id(before, i as int);
                    assert(fresh_entries(by_id(before).remove(before[i as int].0@), now_ms)
                        =~= fresh_entries(by_id(before), now_ms));
                }
                let _ = self.pending.remove(i);
                assert(forall|k: int| 0 <= k < i ==> self.pending@[k] == before[k]);
            }
        }
        proof {
            lemma_by_id(self.pending@);
            let m = by_id(self.pending@);
            assert forall|id: Seq<char>| m.contains_key(id) implies !stale(
                #[trigger] m[id],
                now_ms,
            ) by {
                let k = choose|k: int|
                    0 <= k < self.pending@.len() && (#[trigger] self.pending@[k]).0@ == id;
                assert(m[self.pending@[k].0@] == self.pending@[k].1@);
            }
            assert(fresh_entries(m, now_ms) =~= m);
        }
    }

    /// Run a batch of events (e.g. from a replay scan) and collect the cards
    /// they ask for, each with the index of its event.
    pub fn replay(&mut self, events: &Vec<HookEvent>) -> (r: Vec<(usize, CardRequest)>)
        requires
            old(self).wf(),
        ensures
            final(self).wf(),
            final(self).same_setup(*old(self)),
            final(self).memory() == remembered(*old(self), old(self).memory(), events@),
            requests(r@) == asked_for(*old(self), old(self).memory(), events@),
    {
        let ghost start = *self;
        let mut out: Vec<(usize, CardRequest)> = Vec::new();
        let mut i: usize = 0;
        assert(events@.take(0) =~= Seq::empty());
        assert(requests(out@) =~= Seq::empty());
        while i < events.len()
            invariant
                i <= events@.len(),
                self.wf(),
                self.same_setup(start),
                self.memory() == remembered(start, start.memory(), events@.take(i as int)),
                requests(out@) == asked_for(start, start.memory(), events@.take(i as int)),
            decreases events@.len() - i,
        {
            let ghost before = requests(out@);
            proof {
                assert(events@.take(i + 1).drop_last() =~= events@.take(i as int));
                lemma_same_step(*self, start, self.memory(), events@[i as int]);
            }
            if let Some(req) = self.handle(&events[i]) {
                let ghost v = req@;
                out.push((i, req));
                assert(requests(out@) =~= before.push((i as int, v)));
            }
            i += 1;
        }
        assert(events@.take(i as int) =~= events@);
        out
    }
}

proof fn lemma_same_step(p: Pipeline, q: Pipeline, m: Memory, ev: HookEvent)
    requires
        p.same_setup(q),
    ensures
        step(p, m, ev) == step(q, m, ev),
{
}

/// What is remembered after some events.
pub open spec fn remembered(p: Pipeline, m: Memory, events: Seq<HookEvent>) -> Memory
    decreases events.len(),
{
    if events.len() == 0 {
        m
    } else {
        step(p, remembered(p, m, events.drop_last()), events.last()).0
    }
}

/// The cards some events ask for, each with the index of its event.
pub open spec fn asked_for(p: Pipeline, m: Memory, events: Seq<HookEvent>) -> Seq<(int, Request)>
    decreases events.len(),
{
    if events.len() == 0 {
        Seq::empty()
    } else {
        let rest = asked_for(p, m, events.drop_last());
        match step(p, remembered(p, m, events.drop_last()), events.last()).1 {
            Some(r) => rest.push((events.len() - 1, r)),
            None => rest,
        }
    }
}

/// What a list of indexed requests holds.
pub open spec fn requests(v: Seq<(usize, CardRequest)>) -> Seq<(int, Request)> {
    v.map_values(|e: (usize, CardRequest)| (e.0 as int, e.1@))
}

/// What an entry that is there holds.
pub open spec fn opt_held(p: Option<PendingPre>) -> Option<Held> {
    match p {
        Some(x) => Some(x@),
        None => None,
    }
}

fn name_or_blank(name: &Option<String>) -> (r: String)
    ensures
        r@ == (match *name {
            Some(t) => t@,
            None => Seq::<char>::empty(),
        }),
{
    match name {
        Some(t) => t.clone(),
        None => String::new(),
    }
}

proof fn lemma_id_count(pending: Seq<(String, PendingPre)>)
    requires
        distinct_ids(pending),
    ensures
        by_id(pending).dom().finite(),
        by_id(pending).len() == pending.len(),
    decreases pending.len(),
{
    if pending.len() > 0 {
        let front = pending.drop_last();
        assert(distinct_ids(front)) by {
            assert forall|i: int, j: int| 0 <= i < j < front.len() implies (#[trigger] front[i]).0@
                != (#[trigger] front[j]).0@ by {
                assert(front[i] == pending[i]);
                assert(front[j] == pending[j]);
            }
        }
        lemma_id_count(front);
        lemma_by_id(front);
        let key = pending.last().0@;
        if by_id(front).contains_key(key) {
            let i = choose|i: int| 0 <= i < front.len() && (#[trigger] front[i]).0@ == key;
            assert(pending[i].0@ != pending[pending.len() - 1].0@);
        }
        assert(by_id(pending).dom() =~= by_id(front).dom().insert(key));
    }
}

/// Whether `c` is the card that was asked for: its path is relative to the
/// root of its worktree, and its diff compares the file before the edit with
/// the file after it.
pub open spec fn is_card(
    c: CardInput,
    req: Request,
    ev: HookEvent,
    probe: Probe,
    canonical: Option<Seq<char>>,
) -> bool {
    &&& c.path@ == diff::shown_path(req.file, req.root, canonical)
    &&& c.file@ == req.file
    &&& c.tool@ == req.tool
    &&& c.ts == req.ts
    &&& text::opt_text(c.agent) == req.agent
    &&& c.user_modified == req.user_modified
    &&& text::opt_text(c.session_id) == req.session_id
    &&& text::opt_text(c.worktree) == req.worktree
    &&& c.root@ == req.root
    &&& c.temp == req.temp
    &&& exists|b: Before|
        snapshot::is_before(b, ev, probe) && #[trigger] diff::shows_edit(
            c.diff,
            b,
            snapshot::after_edit(ev, probe),
        )
}

/// The card that was asked for, given what was found on disk. `canonical` is
/// the root of the worktree with its links resolved.
pub fn build_card(
    req: CardRequest,
    ev: &HookEvent,
    probe: &Probe,
    canonical: &Option<String>,
) -> (c: CardInput)
    ensures
        is_card(c, req@, *ev, *probe, text::opt_text(*canonical)),
{
    let path = diff::display_path(req.file.as_str(), req.root.as_str(), canonical);
    let before = snapshot::resolve(ev, probe);
    // Prefer the hook's post-edit snapshot: the file on disk has any edit that
    // landed between the tool finishing and this event being processed, which
    // is every event during a replay.
    let after = match snapshot::resolve_after(ev, probe) {
        Some(captured) => captured,
        None => match &probe.on_disk {
            Some(b) => Some(b.as_slice()),
            None => None,
        },
    };
    let diff = diff::compute(&before, after);
    proof {
        assert(diff::opt_bytes(after) == snapshot::after_edit(*ev, *probe));
        assert(diff::shows_edit(diff, before, snapshot::after_edit(*ev, *probe)));
    }
    CardInput {
        path,
        file: req.file,
        tool: req.tool,
        ts: req.ts,
        agent: req.agent,
        diff,
        user_modified: req.user_modified,
        session_id: req.session_id,
        worktree: req.worktree,
        root: req.root,
        temp: req.temp,
    }
}

/// The distinct sessions of some cards, in the order of their first card.
pub open spec fn sessions_of(ids: Seq<Option<Seq<char>>>) -> Seq<Seq<char>>
    decreases ids.len(),
{
    if ids.len() == 0 {
        Seq::empty()
    } else {
        let rest = sessions_of(ids.drop_last());
        match ids.last() {
            Some(id) => if rest.contains(id) {
                rest
            } else {
                rest.push(id)
            },
            None => rest,
        }
    }
}

/// The session ids of some cards.
pub open spec fn card_sessions(inputs: Seq<CardInput>) -> Seq<Option<Seq<char>>> {
    inputs.map_values(|c: CardInput| text::opt_text(c.session_id))
}

/// Whether `v` holds `s`.
pub fn holds(v: &Vec<String>, s: &str) -> (r: bool)
    ensures
        r == text::texts(v@).contains(s@),
{
    let mut i: usize = 0;
    while i < v.len()
        invariant
            i <= v@.len(),
            forall|k: int| 0 <= k < i ==> text::texts(v@)[k] != s@,
        decreases v@.len() - i,
    {
        if text::same(v[i].as_str(), s) {
            assert(text::texts(v@)[i as int] == s@);
            return true;
        }
        i += 1;
    }
    false
}

/// Adds a session to a list unless it is there.
pub fn note_session(order: &mut Vec<String>, id: &Option<String>)
    ensures
        text::texts(final(order)@) == match *id {
            Some(s) => if text::texts(old(order)@).contains(s@) {
                text::texts(old(order)@)
            } else {
                text::texts(old(order)@).push(s@)
            },
            None => text::texts(old(order)@),
        },
{
    if let Some(s) = id {
        if !holds(order, s.as_str()) {
            let ghost before = text::texts(order@);
            order.push(s.clone());
            assert(text::texts(order@) =~= before.push(s@));
        }
    }
}

/// The distinct sessions of some cards, in the order of their first card.
pub fn session_order(inputs: &Vec<CardInput>) -> (r: Vec<String>)
    ensures
        text::texts(r@) == sessions_of(card_sessions(inputs@)),
{
    let ghost ids = card_sessions(inputs@);
    let mut order: Vec<String> = Vec::new();
    let mut i: usize = 0;
    assert(ids.take(0) =~= Seq::empty());
    assert(text::texts(order@) =~= Seq::empty());
    while i < inputs.len()
        invariant
            i <= inputs@.len(),
            ids == card_sessions(inputs@),
            text::texts(order@) == sessions_of(ids.take(i as int)),
        decreases inputs@.len() - i,
    {
        assert(ids.take(i + 1).drop_last() =~= ids.take(i as int));
        note_session(&mut order, &inputs[i].session_id);
        i += 1;
    }
    assert(ids.take(i as int) =~= ids);
    order
}

/// Whether `needle` picks the session `id`: it begins or ends the id, or it is
/// a tag whose part behind the worktree ends it.
pub open spec fn picks(id: Seq<char>, needle: Seq<char>) -> bool {
    ||| text::begins(id, needle)
    ||| text::ends(id, needle)
    ||| exists|i: int|
        0 <= i < needle.len() - 1 && #[trigger] needle[i] == ':' && !needle.skip(i + 1).contains(
            ':',
        ) && text::ends(id, needle.skip(i + 1))
}

/// Whether `needle`, a session id or a part of it at either end, or a card's
/// session tag, picks the session `id`.
pub fn session_matches(id: &str, needle: &str) -> (r: bool)
    ensures
        r == picks(id@, needle@),
{
    if text::starts_with(id, needle) || text::ends_with(id, needle) {
        return true;
    }
    let v = text::chars_of(needle);
    let n: usize = v.len();
    let mut i: usize = n;
    while i > 0 && v[i - 1] != ':'
        invariant
            i <= n,
            n == v@.len(),
            forall|k: int| i <= k < n ==> v@[k] != ':',
        decreases i,
    {
        i -= 1;
    }
    proof {
        assert forall|k: int|
            0 <= k < n - 1 && #[trigger] needle@[k] == ':' && !needle@.skip(k + 1).contains(
                ':',
            ) implies k == i - 1 by {
            if k < i - 1 {
                assert(needle@.skip(k + 1)[i - 1 - (k + 1)] == ':');
            }
        }
    }
    if i == 0 || i == n {
        return false;
    }
    let part = text::text_between(&v, i, n);
    proof {
        assert(part@ =~= needle@.skip(i as int));
        assert(needle@[i - 1] == ':');
        assert(!needle@.skip(i as int).contains(':')) by {
            assert forall|k: int| 0 <= k < needle@.skip(i as int).len() implies needle@.skip(
                i as int,
            )[k] != ':' by {
                assert(needle@.skip(i as int)[k] == v@[i + k]);
            }
        }
    }
    text::ends_with(id, part.as_str())
}

/// A session that begins leaves the pending edits of other sessions alone.
pub proof fn law_a_session_start_spares_other_sessions(
    p: Pipeline,
    m: Memory,
    ev: HookEvent,
    id: Seq<char>,
)
    requires
        event::starts_session(ev),
        m.pending.contains_key(id),
        bucket(m.pending[id].session_id) != spool::session_key(ev),
    ensures
        step(p, m, ev).0.pending.contains_key(id),
        step(p, m, ev).0.pending[id] == m.pending[id],
{
}

/// A compaction leaves every pending edit alone.
pub proof fn law_a_compaction_clears_nothing(p: Pipeline, m: Memory, ev: HookEvent)
    requires
        event::starts_session(ev),
        text::opt_text(ev.source) == Some("compact"@),
    ensures
        step(p, m, ev).0.pending == m.pending,
        step(p, m, ev).1 is None,
{
}

/// A card is asked for only by a PostToolUse of a file tool in a directory
/// that is followed.
pub proof fn law_only_followed_edits_ask_for_cards(p: Pipeline, m: Memory, ev: HookEvent)
    requires
        step(p, m, ev).1 is Some,
    ensures
        spool::known(p.matcher, ev) is Some,
        event::edits_files(ev),
        ev.hook_event_name@ == "PostToolUse"@,
{
    reveal_strlit("SessionStart");
    reveal_strlit("PostToolUse");
}

/// An edit is pending from its PreToolUse to its PostToolUse, which finds the
/// file again that only the first one names.
pub proof fn law_an_edit_is_pending_until_it_ends(
    p: Pipeline,
    m: Memory,
    pre: HookEvent,
    post: HookEvent,
    id: Seq<char>,
    file: Seq<char>,
)
    requires
        spool::known(p.matcher, pre) is Some,
        spool::known(p.matcher, post) is Some,
        event::edits_files(pre),
        event::edits_files(post),
        pre.hook_event_name@ == "PreToolUse"@,
        post.hook_event_name@ == "PostToolUse"@,
        text::opt_text(pre.tool_use_id) == Some(id),
        text::opt_text(post.tool_use_id) == Some(id),
        event::target_in(event::opt_tree(pre.tool_input)) == Some(file),
        event::target_in(event::opt_tree(post.tool_input)) is None,
    ensures
        step(p, m, pre).0.pending.contains_key(id),
        step(p, step(p, m, pre).0, post).0.pending == m.pending.remove(id),
        step(p, step(p, m, pre).0, post).1 matches Some(r) && r.file == file,
{
    reveal_strlit("SessionStart");
    reveal_strlit("PreToolUse");
    reveal_strlit("PostToolUse");
    assert("PreToolUse"@.len() == 10);
    assert("PostToolUse"@.len() == 11);
    assert("SessionStart"@.len() == 12);
    let mid = step(p, m, pre).0;
    assert(mid.pending == m.pending.insert(id, noted(pre)));
    assert(m.pending.insert(id, noted(pre)).remove(id) =~= m.pending.remove(id));
}

/// It makes no difference whether events come in one batch or in two.
pub proof fn law_batches_replay_like_the_whole(
    p: Pipeline,
    m: Memory,
    a: Seq<HookEvent>,
    b: Seq<HookEvent>,
)
    ensures
        remembered(p, m, a + b) == remembered(p, remembered(p, m, a), b),
    decreases b.len(),
{
    if b.len() == 0 {
        assert(a + b =~= a);
    } else {
        assert((a + b).drop_last() =~= a + b.drop_last());
        law_batches_replay_like_the_whole(p, m, a, b.drop_last());
    }
}

/// A card that is asked for carries the session of the event that asks for it,
/// whatever was remembered before, and so do its time and its tool.
pub proof fn law_a_card_carries_its_events_session(p: Pipeline, m: Memory, ev: HookEvent)
    ensures
        step(p, m, ev).1 matches Some(r) ==> {
            &&& r.session_id == text::opt_text(ev.session_id)
            &&& ev.ts matches Some(t) ==> r.ts == t
            &&& ev.ts is None ==> r.ts == 0
            &&& text::opt_text(ev.tool_name) == Some(r.tool)
        },
{
}

/// Two monitors that remember different things ask for cards of the same
/// session, time, tool and place for an event, if both ask for one.
pub proof fn law_what_is_remembered_does_not_move_a_card(
    p: Pipeline,
    m: Memory,
    other: Memory,
    ev: HookEvent,
)
    ensures
        step(p, m, ev).1 matches Some(a) ==> (step(p, other, ev).1 matches Some(b) ==> {
            &&& a.session_id == b.session_id
            &&& a.ts == b.ts
            &&& a.tool == b.tool
            &&& a.root == b.root
            &&& a.worktree == b.worktree
            &&& a.user_modified == b.user_modified
            &&& event::target_in(event::opt_tree(ev.tool_input)) is Some ==> a.file == b.file
                && a.temp == b.temp
            &&& ev.agent_type is Some || ev.agent_id is Some ==> a.agent == b.agent
        }),
{
}

/// Every finished edit in a directory that is followed asks for a card of the
/// file that it names, and nothing else does: no other tool, no other event,
/// no other directory.
pub proof fn law_finished_edits_and_nothing_else_ask_for_cards(
    p: Pipeline,
    m: Memory,
    ev: HookEvent,
    tool: Seq<char>,
)
    requires
        text::opt_text(ev.tool_name) == Some(tool),
    ensures
        spool::known(p.matcher, ev) is Some && ev.hook_event_name@ == "PostToolUse"@ && (tool
            == "Edit"@ || tool == "Write"@ || tool == "MultiEdit"@ || tool == "NotebookEdit"@) ==> (
        event::target_in(event::opt_tree(ev.tool_input)) matches Some(file) ==> (step(
            p,
            m,
            ev,
        ).1 matches Some(r) && r.file == file)),
        step(p, m, ev).1 is Some ==> ev.hook_event_name@ == "PostToolUse"@ && spool::known(
            p.matcher,
            ev,
        ) is Some && (tool == "Edit"@ || tool == "Write"@ || tool == "MultiEdit"@ || tool
            == "NotebookEdit"@),
{
    event::lemma_file_tools(tool);
    reveal_strlit("PreToolUse");
    reveal_strlit("PostToolUse");
    reveal_strlit("SessionStart");
    assert("PreToolUse"@.len() == 10 && "PostToolUse"@.len() == 11 && "SessionStart"@.len() == 12);
}

/// The agent on a card is the event's own when it names one, and a nameless
/// subagent is called just that. An edit that the user changed says so.
pub proof fn law_a_card_names_who_made_the_edit(p: Pipeline, m: Memory, ev: HookEvent)
    ensures
        step(p, m, ev).1 matches Some(r) ==> {
            &&& ev.agent_type matches Some(t) ==> r.agent == Some(t@)
            &&& ev.agent_type is None && ev.agent_id is Some ==> r.agent == Some("subagent"@)
            &&& ev.agent_type is None && ev.agent_id is None && ev.tool_use_id is None
                ==> r.agent is None
            &&& r.user_modified <==> (event::opt_tree(
                ev.tool_response,
            ) matches Some(crate::json::Tree::Object(o)) && o.contains_key("userModified"@)
                && o["userModified"@] == crate::json::Tree::Bool(true))
        },
{
}

/// An edit belongs to the worktree it was made in: in the monitor's own
/// directory to that, in another worktree of its repository to that one, which
/// is then named.
pub proof fn law_a_card_belongs_to_its_worktree(p: Pipeline, m: Memory, ev: HookEvent)
    ensures
        step(p, m, ev).1 matches Some(r) ==> (match spool::known(p.matcher, ev) {
            Some(Accepted::Exact) => r.root == p.matcher.cwd@ && r.worktree is None,
            Some(Accepted::Repo(top)) => {
                &&& r.root == top
                &&& p.matcher.repo matches Some(own) ==> (if own.toplevel@ == top {
                    r.worktree is None
                } else {
                    r.worktree == paths::base_name(top)
                })
            },
            None => false,
        }),
{
}

/// An edit is hidden as scratch when its file is in a directory that begins
/// like a scratch directory, and never otherwise.
pub proof fn law_scratch_files_are_told_by_their_directory(p: Pipeline, m: Memory, ev: HookEvent)
    ensures
        step(p, m, ev).1 matches Some(r) ==> (r.temp <==> exists|k: int, i: int|
            0 <= k < p.scratch_dirs@.len() && (#[trigger] p.scratch_dirs@[k])@.len() <= i
                < r.file.len() - 1 && (#[trigger] r.file[i]) == '/' && text::begins(
                r.file,
                p.scratch_dirs@[k]@,
            )),
{
    if let Some(r) = step(p, m, ev).1 {
        let prefixes = text::texts(p.scratch_dirs@);
        if r.temp {
            let k = choose|k: int|
                0 <= k < prefixes.len() && paths::scratch_in(r.file, #[trigger] prefixes[k]);
            let i = choose|i: int|
                prefixes[k].len() <= i < r.file.len() - 1 && #[trigger] r.file[i] == '/';
            assert(p.scratch_dirs@[k]@ == prefixes[k]);
            assert(r.file[i] == '/');
        }
        if exists|k: int, i: int|
            0 <= k < p.scratch_dirs@.len() && (#[trigger] p.scratch_dirs@[k])@.len() <= i
                < r.file.len() - 1 && (#[trigger] r.file[i]) == '/' && text::begins(
                r.file,
                p.scratch_dirs@[k]@,
            ) {
            let (k, i) = choose|k: int, i: int|
                0 <= k < p.scratch_dirs@.len() && (#[trigger] p.scratch_dirs@[k])@.len() <= i
                    < r.file.len() - 1 && (#[trigger] r.file[i]) == '/' && text::begins(
                    r.file,
                    p.scratch_dirs@[k]@,
                );
            assert(prefixes[k] == p.scratch_dirs@[k]@);
            assert(paths::scratch_in(r.file, prefixes[k]));
        }
    }
}

/// A session that begins anew forgets its own unfinished edits, and from then
/// on is the current one. A resumed compaction forgets none.
pub proof fn law_a_session_start_clears_its_own_edits(
    p: Pipeline,
    m: Memory,
    ev: HookEvent,
    id: Seq<char>,
)
    requires
        spool::known(p.matcher, ev) is Some,
        ev.hook_event_name@ == "SessionStart"@,
        m.pending.contains_key(id),
    ensures
        step(p, m, ev).0.session_id == text::opt_text(ev.session_id),
        step(p, m, ev).1 is None,
        ev.session_id is Some && m.pending[id].session_id == text::opt_text(ev.session_id)
            && text::opt_text(ev.source) != Some("compact"@) ==> !step(
            p,
            m,
            ev,
        ).0.pending.contains_key(id),
        ev.session_id is Some && ev.session_id->0@.len() > 0 && m.pending[id].session_id
            != text::opt_text(ev.session_id) ==> step(p, m, ev).0.pending.contains_key(id),
{
}

/// An event in a directory that is not followed, or one that is neither a
/// session start nor about a file tool, changes nothing.
pub proof fn law_other_events_change_nothing(p: Pipeline, m: Memory, ev: HookEvent)
    ensures
        spool::known(p.matcher, ev) is None ==> step(p, m, ev) == (m, None::<Request>),
        ev.hook_event_name@ != "SessionStart"@ && text::opt_text(ev.tool_name) != Some("Edit"@)
            && text::opt_text(ev.tool_name) != Some("Write"@) && text::opt_text(ev.tool_name)
            != Some("MultiEdit"@) && text::opt_text(ev.tool_name) != Some("NotebookEdit"@) ==> step(
            p,
            m,
            ev,
        ) == (m, None::<Request>),
{
    if let Some(t) = ev.tool_name {
        event::lemma_file_tools(t@);
    }
}

/// An unfinished edit is dropped once it is ten minutes old, and not before.
/// One of unknown time is kept.
pub proof fn law_unfinished_edits_expire_after_ten_minutes(
    pending: Map<Seq<char>, Held>,
    id: Seq<char>,
    now_ms: u64,
)
    requires
        pending.contains_key(id),
    ensures
        pending[id].ts == 0 || now_ms < pending[id].ts + 600000 ==> fresh_entries(
            pending,
            now_ms,
        ).contains_key(id) && fresh_entries(pending, now_ms)[id] == pending[id],
        pending[id].ts != 0 && now_ms >= pending[id].ts + 600000 ==> !fresh_entries(
            pending,
            now_ms,
        ).contains_key(id),
{
}

proof fn lemma_asked_for(p: Pipeline, m: Memory, events: Seq<HookEvent>, k: int)
    requires
        0 <= k < asked_for(p, m, events).len(),
    ensures
        0 <= asked_for(p, m, events)[k].0 < events.len(),
        k > 0 ==> asked_for(p, m, events)[k - 1].0 < asked_for(p, m, events)[k].0,
        step(
            p,
            remembered(p, m, events.take(asked_for(p, m, events)[k].0)),
            events[asked_for(p, m, events)[k].0],
        ).1 == Some(asked_for(p, m, events)[k].1),
    decreases events.len(),
{
    let front = events.drop_last();
    let rest = asked_for(p, m, front);
    let i = asked_for(p, m, events)[k].0;
    if k < rest.len() {
        lemma_asked_for(p, m, front, k);
        assert(front.take(i) =~= events.take(i));
        assert(front[i] == events[i]);
    } else {
        assert(events.take(i) =~= front);
        if k > 0 {
            lemma_asked_for(p, m, front, k - 1);
        }
    }
}

/// A replay asks for the cards that its events ask for one by one, each with
/// the event it comes from and in the order of the events.
pub proof fn law_a_replay_asks_for_the_cards_of_its_events(
    p: Pipeline,
    m: Memory,
    events: Seq<HookEvent>,
)
    ensures
        forall|k: int|
            0 <= k < asked_for(p, m, events).len() ==> {
                let (i, r) = #[trigger] asked_for(p, m, events)[k];
                &&& 0 <= i < events.len()
                &&& step(p, remembered(p, m, events.take(i)), events[i]).1 == Some(r)
            },
        forall|k: int|
            0 < k < asked_for(p, m, events).len() ==> asked_for(p, m, events)[k - 1].0 < (
            #[trigger] asked_for(p, m, events)[k]).0,
{
    assert forall|k: int| 0 <= k < asked_for(p, m, events).len() implies {
        let (i, r) = #[trigger] asked_for(p, m, events)[k];
        &&& 0 <= i < events.len()
        &&& step(p, remembered(p, m, events.take(i)), events[i]).1 == Some(r)
    } by {
        lemma_asked_for(p, m, events, k);
    }
    assert forall|k: int| 0 < k < asked_for(p, m, events).len() implies asked_for(
        p,
        m,
        events,
    )[k - 1].0 < (#[trigger] asked_for(p, m, events)[k]).0 by {
        lemma_asked_for(p, m, events, k);
    }
}

/// No card that an event asks for is left out of a replay.
pub proof fn law_a_replay_leaves_no_card_out(
    p: Pipeline,
    m: Memory,
    events: Seq<HookEvent>,
    i: int,
)
    requires
        0 <= i < events.len(),
        step(p, remembered(p, m, events.take(i)), events[i]).1 is Some,
    ensures
        asked_for(p, m, events).contains(
            (i, step(p, remembered(p, m, events.take(i)), events[i]).1->0),
        ),
    decreases events.len(),
{
    let front = events.drop_last();
    let want = (i, step(p, remembered(p, m, events.take(i)), events[i]).1->0);
    let all = asked_for(p, m, events);
    if i < events.len() - 1 {
        assert(front.take(i) =~= events.take(i));
        assert(front[i] == events[i]);
        law_a_replay_leaves_no_card_out(p, m, front, i);
        let k = choose|k: int|
            0 <= k < asked_for(p, m, front).len() && asked_for(p, m, front)[k] == want;
        assert(all[k] == want);
    } else {
        assert(events.take(i) =~= front);
        assert(all.last() == want);
        assert(all[all.len() - 1] == want);
    }
}

/// Every session of a feed is listed, once, in the order of its first card.
pub proof fn law_sessions_are_listed_once_in_order(ids: Seq<Option<Seq<char>>>)
    ensures
        forall|i: int|
            0 <= i < ids.len() && (#[trigger] ids[i]) is Some ==> sessions_of(ids).contains(
                ids[i]->0,
            ),
        forall|k: int|
            0 <= k < sessions_of(ids).len() ==> ids.contains(Some(#[trigger] sessions_of(ids)[k])),
        sessions_of(ids).no_duplicates(),
        forall|n: int|
            0 <= n <= ids.len() ==> sessions_of(#[trigger] ids.take(n)).len() <= sessions_of(
                ids,
            ).len() && sessions_of(ids).take(sessions_of(ids.take(n)).len() as int) == sessions_of(
                ids.take(n),
            ),
    decreases ids.len(),
{
    assert(ids.take(ids.len() as int) =~= ids);
    if ids.len() > 0 {
        let front = ids.drop_last();
        let rest = sessions_of(front);
        let all = sessions_of(ids);
        law_sessions_are_listed_once_in_order(front);
        assert forall|i: int| 0 <= i < ids.len() && (#[trigger] ids[i]) is Some implies all.contains(
            ids[i]->0,
        ) by {
            if i < front.len() {
                assert(front[i] == ids[i]);
                let k = choose|k: int| 0 <= k < rest.len() && rest[k] == ids[i]->0;
                assert(all[k] == ids[i]->0);
            } else if !rest.contains(ids[i]->0) {
                assert(all[all.len() - 1] == ids[i]->0);
            }
        }
        assert forall|k: int| 0 <= k < all.len() implies ids.contains(Some(#[trigger] all[k])) by {
            if k < rest.len() {
                assert(all[k] == rest[k]);
                let i = choose|i: int| 0 <= i < front.len() && front[i] == Some(rest[k]);
                assert(ids[i] == Some(all[k]));
            } else {
                assert(ids[ids.len() - 1] == Some(all[k]));
            }
        }
        assert forall|n: int| 0 <= n <= ids.len() implies sessions_of(
            #[trigger] ids.take(n),
        ).len() <= all.len() && all.take(sessions_of(ids.take(n)).len() as int) == sessions_of(
            ids.take(n),
        ) by {
            if n < ids.len() {
                assert(front.take(n) =~= ids.take(n));
                assert(all.take(sessions_of(ids.take(n)).len() as int) =~= rest.take(
                    sessions_of(ids.take(n)).len() as int,
                ));
            } else {
                assert(all.take(all.len() as int) =~= all);
            }
        }
    } else {
        assert(sessions_of(ids).take(0) =~= sessions_of(ids));
    }
}

/// A session is picked by its id, by how the id begins, by how it ends, and by
/// a worktree's name, a colon and how it ends. A needle without a colon picks
/// no session in whose id it does not stand.
pub proof fn law_a_session_is_picked_by_either_end(
    id: Seq<char>,
    a: Seq<char>,
    b: Seq<char>,
    worktree: Seq<char>,
    needle: Seq<char>,
)
    requires
        id == a + b,
    ensures
        picks(id, id),
        picks(id, a),
        picks(id, b),
        b.len() > 0 && !b.contains(':') ==> picks(id, worktree + ":"@ + b),
        picks(id, needle) && !needle.contains(':') ==> text::begins(id, needle) || text::ends(
            id,
            needle,
        ),
{
    assert(id.subrange(0, id.len() as int) =~= id);
    assert(id.subrange(0, a.len() as int) =~= a);
    assert(id.subrange(id.len() - b.len(), id.len() as int) =~= b);
    if b.len() > 0 && !b.contains(':') {
        reveal_strlit(":");
        let tag = worktree + ":"@ + b;
        let i = worktree.len() as int;
        assert(tag[i] == ':');
        assert(tag.skip(i + 1) =~= b);
    }
}

/// What a card shows is the difference between the file as the hook kept it
/// before the edit and as it kept it after.
pub proof fn law_a_card_shows_what_the_hook_kept(
    c: CardInput,
    req: Request,
    ev: HookEvent,
    probe: Probe,
    canonical: Option<Seq<char>>,
)
    requires
        is_card(c, req, ev, probe, canonical),
        ev.session_id is Some,
        ev.tool_use_id is Some,
        probe.before is Some,
        probe.after is Some,
        vstd::utf8::valid_utf8(probe.before->0@),
        vstd::utf8::valid_utf8(probe.after->0@),
        forall|i: int| 0 <= i < probe.before->0@.len() ==> #[trigger] probe.before->0@[i] != 0,
        forall|i: int| 0 <= i < probe.after->0@.len() ==> #[trigger] probe.after->0@[i] != 0,
    ensures
        c.diff.kind is Modified,
        diff::compares(
            c.diff,
            vstd::utf8::decode_utf8(probe.before->0@),
            vstd::utf8::decode_utf8(probe.after->0@),
        ),
        c.file@ == req.file,
        c.tool@ == req.tool,
        c.ts == req.ts,
        text::opt_text(c.session_id) == req.session_id,
        text::opt_text(c.agent) == req.agent,
        c.temp == req.temp,
        c.user_modified == req.user_modified,
{
    let b = choose|b: Before|
        snapshot::is_before(b, ev, probe) && #[trigger] diff::shows_edit(
            c.diff,
            b,
            snapshot::after_edit(ev, probe),
        );
    assert(b matches Before::Content(v) && v@ == probe.before->0@);
}

/// The file of a finished edit is what the event names. One that names none is
/// known from when the edit began, else from what the tool answered.
pub proof fn law_the_file_of_an_edit_is_found(
    p: Pipeline,
    m: Memory,
    ev: HookEvent,
    file: Seq<char>,
)
    requires
        spool::known(p.matcher, ev) is Some,
        event::edits_files(ev),
        ev.hook_event_name@ == "PostToolUse"@,
    ensures
        ({
            let named = event::target_in(event::opt_tree(ev.tool_input));
            let begun = ev.tool_use_id matches Some(id) && m.pending.contains_key(id@)
                && m.pending[id@].file == Some(file);
            let unknown = ev.tool_use_id is None || !m.pending.contains_key(ev.tool_use_id->0@)
                || m.pending[ev.tool_use_id->0@].file is None;
            let answered = event::string_in(event::opt_tree(ev.tool_response), "filePath"@);
            let r = step(p, m, ev).1;
            &&& named == Some(file) ==> r is Some && r->0.file == file
            &&& named is None && begun ==> r is Some && r->0.file == file
            &&& named is None && unknown && answered == Some(file) ==> r is Some && r->0.file
                == file
            &&& named is None && unknown && answered is None ==> r is None
        }),
{
    reveal_strlit("PreToolUse");
    reveal_strlit("PostToolUse");
    reveal_strlit("SessionStart");
    assert("PreToolUse"@.len() == 10 && "PostToolUse"@.len() == 11 && "SessionStart"@.len() == 12);
}

/// What is pending of an edit is what its event says, and an edit that is not
/// known by an id is not remembered. An event that names no agent leaves it to
/// the one that began the edit.
pub proof fn law_an_edit_is_remembered_as_it_began(
    p: Pipeline,
    m: Memory,
    pre: HookEvent,
    post: HookEvent,
    id: Seq<char>,
)
    requires
        spool::known(p.matcher, pre) is Some,
        event::edits_files(pre),
        pre.hook_event_name@ == "PreToolUse"@,
    ensures
        step(p, m, pre).1 is None,
        pre.tool_use_id is None ==> step(p, m, pre).0 == m,
        step(p, m, pre).0.session_id == m.session_id,
        text::opt_text(pre.tool_use_id) == Some(id) ==> {
            let held = step(p, m, pre).0.pending[id];
            &&& step(p, m, pre).0.pending.contains_key(id)
            &&& text::opt_text(pre.tool_name) == Some(held.tool)
            &&& pre.ts matches Some(t) ==> held.ts == t
            &&& pre.ts is None ==> held.ts == 0
            &&& held.file == event::target_in(event::opt_tree(pre.tool_input))
            &&& held.session_id == text::opt_text(pre.session_id)
            &&& pre.agent_type matches Some(a) ==> held.agent == Some(a@)
        },
        text::opt_text(post.tool_use_id) == Some(id) && m.pending.contains_key(id)
            && post.agent_type is None && post.agent_id is None ==> (step(
            p,
            m,
            post,
        ).1 matches Some(r) ==> r.agent == m.pending[id].agent),
{
    reveal_strlit("PreToolUse");
    reveal_strlit("SessionStart");
    assert("PreToolUse"@.len() == 10 && "SessionStart"@.len() == 12);
}

/// Only the start of a session changes which session is current.
pub proof fn law_only_a_start_changes_the_session(p: Pipeline, m: Memory, ev: HookEvent)
    ensures
        ev.hook_event_name@ != "SessionStart"@ ==> step(p, m, ev).0.session_id == m.session_id,
        spool::known(p.matcher, ev) is Some && ev.hook_event_name@ == "SessionStart"@ ==> step(
            p,
            m,
            ev,
        ).0.session_id == text::opt_text(ev.session_id),
{
}

/// A card has what was asked for, with the path as it is shown from the root
/// of its worktree.
pub proof fn law_a_card_is_what_was_asked_for(
    c: CardInput,
    req: Request,
    ev: HookEvent,
    probe: Probe,
    canonical: Option<Seq<char>>,
)
    requires
        is_card(c, req, ev, probe, canonical),
    ensures
        c.file@ == req.file,
        c.tool@ == req.tool,
        c.ts == req.ts,
        text::opt_text(c.agent) == req.agent,
        c.user_modified == req.user_modified,
        text::opt_text(c.session_id) == req.session_id,
        text::opt_text(c.worktree) == req.worktree,
        c.root@ == req.root,
        c.temp == req.temp,
        paths::below(req.file, req.root) matches Some(rest) ==> c.path@ == rest,
        paths::below(req.file, req.root) is None && canonical is None ==> c.path@ == req.file,
{
}

/// A needle with a colon picks no session but those that it begins or ends,
/// or that end in what follows its last colon.
pub proof fn law_a_tag_picks_by_what_follows_its_colon(
    id: Seq<char>,
    worktree: Seq<char>,
    part: Seq<char>,
)
    requires
        !part.contains(':'),
        picks(id, worktree + ":"@ + part),
    ensures
        text::begins(id, worktree + ":"@ + part) || text::ends(id, part),
{
    reveal_strlit(":");
    let tag = worktree + ":"@ + part;
    let n = worktree.len() as int;
    assert(tag[n] == ':');
    if text::ends(id, tag) {
        assert(id.subrange(id.len() - part.len(), id.len() as int) =~= part) by {
            assert(id.subrange(id.len() - tag.len(), id.len() as int) == tag);
            assert forall|k: int| 0 <= k < part.len() implies id[id.len() - part.len() + k]
                == part[k] by {
                assert(id.subrange(id.len() - tag.len(), id.len() as int)[n + 1 + k] == tag[n + 1
                    + k]);
            }
        }
    } else if !text::begins(id, tag) {
        let i = choose|i: int|
            0 <= i < tag.len() - 1 && #[trigger] tag[i] == ':' && !tag.skip(i + 1).contains(':')
                && text::ends(id, tag.skip(i + 1));
        if i < n {
            assert(tag.skip(i + 1)[n - i - 1] == ':');
        } else if i > n {
            assert(part[i - n - 1] == ':');
        }
        assert(tag.skip(n + 1) =~= part);
    }
}

} // verus!
