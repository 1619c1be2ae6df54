//! Reading the JSONL spool: full replay scans and incremental tailing.

use vstd::prelude::*;
use vstd::string::*;

use crate::event;
use crate::event::HookEvent;
use crate::paths;
use crate::text;

verus! {

/// Events shown when no SessionStart boundary exists for the cwd.
pub const NO_BOUNDARY_TAIL: usize = 200;

/// Whether two directories are the same: by their canonical paths when both
/// have one, else by their text without the slashes at the end.
pub open spec fn same_dir(
    a: Seq<char>,
    a_canonical: Option<Seq<char>>,
    b: Seq<char>,
    b_canonical: Option<Seq<char>>,
) -> bool {
    match (a_canonical, b_canonical) {
        (Some(x), Some(y)) => x == y,
        _ => text::without_slashes(a) == text::without_slashes(b),
    }
}

/// Compare an event's `cwd` against the monitor's directory, tolerating
/// symlinks and trailing slashes. Falls back to string comparison when a
/// path has no canonical form.
pub fn same_cwd(
    event_cwd: &str,
    event_canonical: &Option<String>,
    cwd: &str,
    canonical: &Option<String>,
) -> (r: bool)
    ensures
        r == same_dir(
            event_cwd@,
            text::opt_text(*event_canonical),
            cwd@,
            text::opt_text(*canonical),
        ),
{
    match (event_canonical, canonical) {
        (Some(a), Some(b)) => text::same(a.as_str(), b.as_str()),
        _ => {
            let a = text::trim_slashes(event_cwd);
            let b = text::trim_slashes(cwd);
            text::same(a.as_str(), b.as_str())
        },
    }
}

/// Which event directories a monitor follows.
#[derive(Debug, Clone, Copy, PartialEq, Eq, Structural)]
pub enum MatchMode {
    /// Any worktree or subdirectory of the monitor's git repository.
    Repo,
    /// The monitor's exact directory only.
    CwdOnly,
}

impl Default for MatchMode {
    fn default() -> (r: MatchMode)
        ensures
            r is Repo,
    {
        MatchMode::Repo
    }
}

/// What git reports for a directory, both canonicalized.
#[derive(Debug, Clone, PartialEq, Eq)]
pub struct CwdInfo {
    pub common_dir: String,
    pub toplevel: String,
}

/// Why an event `cwd` was accepted.
#[derive(Debug, Clone, PartialEq, Eq)]
pub enum CwdMatch {
    /// The monitor's own directory (exact mode, or repo mode without git).
    Exact,
    /// Same repository via git; `toplevel` is the event's worktree root.
    Repo { toplevel: String },
}

/// What a match says: the root of the event's worktree, if it is known.
pub enum Accepted {
    Exact,
    Repo(Seq<char>),
}

impl View for CwdMatch {
    type V = Accepted;

    open spec fn view(&self) -> Accepted {
        match self {
            CwdMatch::Exact => Accepted::Exact,
            CwdMatch::Repo { toplevel } => Accepted::Repo(toplevel@),
        }
    }
}

impl CwdMatch {
    /// A copy of the match.
    pub fn copy(&self) -> (r: CwdMatch)
        ensures
            r@ == self@,
    {
        match self {
            CwdMatch::Exact => CwdMatch::Exact,
            CwdMatch::Repo { toplevel } => CwdMatch::Repo { toplevel: toplevel.clone() },
        }
    }
}

/// What a match that is there says.
pub open spec fn opt_match(m: Option<CwdMatch>) -> Option<Accepted> {
    match m {
        Some(x) => Some(x@),
        None => None,
    }
}

/// A copy of a match that may be there.
pub fn copy_match(m: &Option<CwdMatch>) -> (r: Option<CwdMatch>)
    ensures
        opt_match(r) == opt_match(*m),
{
    match m {
        Some(x) => Some(x.copy()),
        None => None,
    }
}

/// The two paths in the output of `git rev-parse --git-common-dir
/// --show-toplevel`: the first is relative to `dir` (`.git`, `../.git`, ...).
pub fn git_paths(dir: &str, output: &str) -> (r: Option<(String, String)>)
    ensures
        r is Some <==> output@.len() > 0 && text::after_first_line(output@).len() > 0,
        r matches Some((common_dir, toplevel)) ==> common_dir@ == paths::under(
            dir@,
            text::first_line(output@),
        ) && toplevel@ == text::first_line(text::after_first_line(output@)),
{
    match text::two_lines(output) {
        Some((a, b)) => Some((paths::join(dir, a.as_str()), b)),
        None => None,
    }
}

/// `same_cwd` with each distinct event `cwd` answered from a cache: a replay
/// scan sees the same handful of strings tens of thousands of times. In repo
/// mode a cwd that is not the monitor's is asked of git once and accepted when
/// it shares the repository.
#[derive(Debug)]
pub struct CwdMatcher {
    pub cwd: String,
    pub canonical: Option<String>,
    /// The monitor's repository; `Some` only when repo mode is active via git.
    pub repo: Option<CwdInfo>,
    pub cache: Vec<(String, Option<CwdMatch>)>,
}

/// What a cache holds for a directory; the last entry counts.
pub open spec fn cached_in(cache: Seq<(String, Option<CwdMatch>)>, cwd: Seq<char>) -> Option<
    Option<Accepted>,
>
    decreases cache.len(),
{
    if cache.len() == 0 {
        None
    } else if cache.last().0@ == cwd {
        Some(opt_match(cache.last().1))
    } else {
        cached_in(cache.drop_last(), cwd)
    }
}

/// Whether a directory is the monitor's own.
pub open spec fn own_dir(m: CwdMatcher, cwd: Seq<char>, canonical: Option<Seq<char>>) -> bool {
    same_dir(cwd, canonical, m.cwd@, text::opt_text(m.canonical))
}

/// Whether a monitor follows a directory, given its canonical path and what
/// git reports for it.
pub open spec fn classified(
    m: CwdMatcher,
    cwd: Seq<char>,
    canonical: Option<Seq<char>>,
    git: Option<CwdInfo>,
) -> Option<Accepted> {
    match m.repo {
        None => if own_dir(m, cwd, canonical) {
            Some(Accepted::Exact)
        } else {
            None
        },
        Some(repo) => if own_dir(m, cwd, canonical) {
            Some(Accepted::Repo(repo.toplevel@))
        } else {
            match git {
                Some(info) => if info.common_dir@ == repo.common_dir@ {
                    Some(Accepted::Repo(info.toplevel@))
                } else {
                    None
                },
                None => None,
            }
        },
    }
}

/// What a monitor says of a directory: the answer it gave before, or one by
/// its canonical path and what git reports for it.
pub open spec fn answer(
    m: CwdMatcher,
    cwd: Seq<char>,
    canonical: Option<Seq<char>>,
    git: Option<CwdInfo>,
) -> Option<Accepted> {
    match cached_in(m.cache@, cwd) {
        Some(hit) => hit,
        None => classified(m, cwd, canonical, git),
    }
}

/// Whether `after` is `before` with the answer to one directory kept and all
/// others as they were.
pub open spec fn remembers(
    after: CwdMatcher,
    before: CwdMatcher,
    cwd: Seq<char>,
    answer: Option<Accepted>,
) -> bool {
    &&& after.cwd == before.cwd
    &&& after.canonical == before.canonical
    &&& after.repo == before.repo
    &&& cached_in(after.cache@, cwd) == Some(answer)
    &&& forall|c: Seq<char>|
        c != cwd ==> #[trigger] cached_in(after.cache@, c) == cached_in(before.cache@, c)
}

/// What is known of the directory of an event.
pub open spec fn known(m: CwdMatcher, ev: HookEvent) -> Option<Accepted> {
    match ev.cwd {
        Some(c) => match cached_in(m.cache@, c@) {
            Some(hit) => hit,
            None => None,
        },
        None => None,
    }
}

impl CwdMatcher {
    /// A matcher for `cwd`, whose canonical path is `canonical` and for which
    /// git reports `git`. Outside repo mode git does not count.
    pub fn new(cwd: String, canonical: Option<String>, git: Option<CwdInfo>, mode: MatchMode) -> (r:
        CwdMatcher)
        ensures
            r.cwd == cwd,
            r.canonical == canonical,
            r.repo == (if mode is Repo {
                git
            } else {
                None
            }),
            r.cache@.len() == 0,
    {
        let repo = match mode {
            MatchMode::Repo => git,
            MatchMode::CwdOnly => None,
        };
        CwdMatcher { cwd, canonical, repo, cache: Vec::new() }
    }

    pub fn cwd(&self) -> (r: &str)
        ensures
            r@ == self.cwd@,
    {
        self.cwd.as_str()
    }

    /// The monitor's worktree root when repo mode is active via git.
    pub fn toplevel(&self) -> (r: Option<&str>)
        ensures
            r is Some <==> self.repo is Some,
            r matches Some(s) ==> s@ == self.repo->0.toplevel@,
    {
        match &self.repo {
            Some(r) => Some(r.toplevel.as_str()),
            None => None,
        }
    }

    pub fn repo_mode(&self) -> (r: bool)
        ensures
            r == (self.repo is Some),
    {
        self.repo.is_some()
    }

    /// What the cache holds for `event_cwd`.
    pub fn cached(&self, event_cwd: &str) -> (r: Option<&Option<CwdMatch>>)
        ensures
            r is Some <==> cached_in(self.cache@, event_cwd@) is Some,
            r matches Some(m) ==> cached_in(self.cache@, event_cwd@) == Some(opt_match(*m)),
    {
        let mut i: usize = self.cache.len();
        assert(self.cache@.take(i as int) =~= self.cache@);
        while i > 0
            invariant
                i <= self.cache@.len(),
                cached_in(self.cache@.take(i as int), event_cwd@) == cached_in(
                    self.cache@,
                    event_cwd@,
                ),
            decreases i,
        {
            assert(self.cache@.take(i as int).drop_last() =~= self.cache@.take(i - 1));
            i -= 1;
            if text::same(self.cache[i].0.as_str(), event_cwd) {
                return Some(&self.cache[i].1);
            }
        }
        None
    }

    /// Whether git has to be asked about `event_cwd`: the monitor's own
    /// directory needs no git call.
    pub fn needs_git(&self, event_cwd: &str, canonical: &Option<String>) -> (r: bool)
        ensures
            r == (self.repo is Some && !own_dir(*self, event_cwd@, text::opt_text(*canonical))),
    {
        self.repo.is_some() && !same_cwd(event_cwd, canonical, self.cwd.as_str(), &self.canonical)
    }

    /// Classification of one event `cwd` by its canonical path and what git
    /// reports for it.
    fn classify(&self, event_cwd: &str, canonical: &Option<String>, git: Option<CwdInfo>) -> (r:
        Option<CwdMatch>)
        ensures
            opt_match(r) == classified(*self, event_cwd@, text::opt_text(*canonical), git),
    {
        let same = same_cwd(event_cwd, canonical, self.cwd.as_str(), &self.canonical);
        match &self.repo {
            None => if same {
                Some(CwdMatch::Exact)
            } else {
                None
            },
            Some(repo) => if same {
                Some(CwdMatch::Repo { toplevel: repo.toplevel.clone() })
            } else {
                match git {
                    Some(info) => if text::same(
                        info.common_dir.as_str(),
                        repo.common_dir.as_str(),
                    ) {
                        Some(CwdMatch::Repo { toplevel: info.toplevel })
                    } else {
                        None
                    },
                    None => None,
                }
            },
        }
    }

    /// Cached classification of one event `cwd`. `canonical` and `git` count
    /// only the first time it is seen.
    pub fn resolve(&mut self, event_cwd: &str, canonical: &Option<String>, git: Option<CwdInfo>) -> (r:
        Option<CwdMatch>)
        ensures
            opt_match(r) == answer(*old(self), event_cwd@, text::opt_text(*canonical), git),
            remembers(*final(self), *old(self), event_cwd@, opt_match(r)),
    {
        if let Some(hit) = self.cached(event_cwd) {
            return copy_match(hit);
        }
        let hit = self.classify(event_cwd, canonical, git);
        let copy = copy_match(&hit);
        let ghost before = self.cache@;
        self.cache.push((event_cwd.to_owned(), copy));
        proof {
            assert(self.cache@.drop_last() =~= before);
        }
        hit
    }

    /// Whether [`resolve`](CwdMatcher::resolve) accepts `event_cwd`.
    pub fn matches(&mut self, event_cwd: &str, canonical: &Option<String>, git: Option<CwdInfo>) -> (r:
        bool)
        ensures
            r == (answer(*old(self), event_cwd@, text::opt_text(*canonical), git) is Some),
            remembers(
                *final(self),
                *old(self),
                event_cwd@,
                answer(*old(self), event_cwd@, text::opt_text(*canonical), git),
            ),
    {
        self.resolve(event_cwd, canonical, git).is_some()
    }

    /// What is known of the directory of an event.
    pub fn resolve_event(&self, ev: &HookEvent) -> (r: Option<CwdMatch>)
        ensures
            opt_match(r) == known(*self, *ev),
    {
        match &ev.cwd {
            Some(c) => match self.cached(c.as_str()) {
                Some(hit) => copy_match(hit),
                None => None,
            },
            None => None,
        }
    }

    /// Whether the monitor follows the directory of an event, as far as it is
    /// known.
    pub fn accepts(&self, ev: &HookEvent) -> (r: bool)
        ensures
            r == (known(*self, *ev) is Some),
    {
        self.resolve_event(ev).is_some()
    }

    /// The directory of an event when the cache does not have it yet.
    pub fn unknown_cwd<'a>(&self, ev: &'a HookEvent) -> (r: Option<&'a str>)
        ensures
            r is Some <==> ev.cwd is Some && cached_in(self.cache@, ev.cwd->0@) is None,
            r matches Some(c) ==> c@ == ev.cwd->0@,
    {
        match &ev.cwd {
            Some(c) => if self.cached(c.as_str()).is_some() {
                None
            } else {
                Some(c.as_str())
            },
            None => None,
        }
    }
}

/// How many bytes stand before the first line feed.
pub open spec fn line_end(buf: Seq<u8>) -> nat
    decreases buf.len(),
{
    if buf.len() == 0 || buf[0] == 10 {
        0
    } else {
        1 + line_end(buf.drop_first())
    }
}

/// Whether `buf` holds a complete line.
pub open spec fn has_line(buf: Seq<u8>) -> bool {
    line_end(buf) < buf.len()
}

/// The first line feed is where it stands.
pub proof fn lemma_line_end(buf: Seq<u8>, n: int)
    requires
        0 <= n <= buf.len(),
        forall|i: int| 0 <= i < n ==> buf[i] != 10,
        n < buf.len() ==> buf[n] == 10,
    ensures
        line_end(buf) == n,
    decreases buf.len(),
{
    if n > 0 {
        let rest = buf.drop_first();
        assert forall|i: int| 0 <= i < n - 1 implies rest[i] != 10 by {
            assert(rest[i] == buf[i + 1]);
        }
        lemma_line_end(rest, n - 1);
    }
}

proof fn lemma_line_end_bound(buf: Seq<u8>)
    ensures
        line_end(buf) <= buf.len(),
        has_line(buf) ==> buf[line_end(buf) as int] == 10,
        forall|i: int| 0 <= i < line_end(buf) ==> buf[i] != 10,
    decreases buf.len(),
{
    if buf.len() > 0 && buf[0] != 10 {
        let rest = buf.drop_first();
        lemma_line_end_bound(rest);
        assert forall|i: int| 0 <= i < line_end(buf) implies buf[i] != 10 by {
            if i > 0 {
                assert(buf[i] == rest[i - 1]);
            }
        }
        if has_line(buf) {
            assert(buf[line_end(buf) as int] == rest[line_end(rest) as int]);
        }
    }
}

/// The text of a line, without the white space around it; `None` for one that
/// is blank or no valid UTF-8.
pub open spec fn line_text(line: Seq<u8>) -> Option<Seq<char>> {
    if vstd::utf8::valid_utf8(line) && text::trimmed(vstd::utf8::decode_utf8(line)).len() > 0 {
        Some(text::trimmed(vstd::utf8::decode_utf8(line)))
    } else {
        None
    }
}

/// What the complete lines of `buf` say; blank and invalid ones are skipped.
pub open spec fn complete_lines(buf: Seq<u8>) -> Seq<Seq<char>>
    decreases buf.len(),
{
    if has_line(buf) {
        let n = line_end(buf) as int;
        let rest = complete_lines(buf.skip(n + 1));
        match line_text(buf.take(n)) {
            Some(s) => seq![s] + rest,
            None => rest,
        }
    } else {
        Seq::empty()
    }
}

/// How many bytes the complete lines of `buf` take up: everything up to and
/// including the last line feed.
pub open spec fn complete_len(buf: Seq<u8>) -> nat
    decreases buf.len(),
{
    if has_line(buf) {
        let n = line_end(buf) as int;
        (n + 1 + complete_len(buf.skip(n + 1))) as nat
    } else {
        0
    }
}

/// The text of `buf[from..to]` without the white space around it.
fn read_line(buf: &Vec<u8>, from: usize, to: usize) -> (r: Option<String>)
    requires
        from <= to <= buf@.len(),
    ensures
        text::opt_text(r) == line_text(buf@.subrange(from as int, to as int)),
{
    let mut line: Vec<u8> = Vec::new();
    let mut i: usize = from;
    while i < to
        invariant
            from <= i <= to <= buf@.len(),
            line@ == buf@.subrange(from as int, i as int),
        decreases to - i,
    {
        line.push(buf[i]);
        i += 1;
    }
    match text::utf8_text(line.as_slice()) {
        Some(s) => {
            proof {
                vstd::utf8::encode_utf8_decode_utf8(s@);
            }
            let t = text::trim(s);
            if t.as_str().is_empty() {
                None
            } else {
                Some(t)
            }
        },
        None => None,
    }
}

/// Split a byte buffer into complete lines, returning what they say and the
/// number of bytes consumed (everything up to and including the last
/// newline). Blank lines and lines that are no valid UTF-8 are skipped.
pub fn parse_complete_lines(buf: &Vec<u8>) -> (r: (Vec<String>, usize))
    ensures
        text::texts(r.0@) == complete_lines(buf@),
        r.1 == complete_len(buf@),
        r.1 <= buf@.len(),
{
    let mut lines: Vec<String> = Vec::new();
    let mut consumed: usize = 0;
    let mut i: usize = 0;
    proof {
        assert(buf@.skip(0) =~= buf@);
        assert(text::texts(lines@) + complete_lines(buf@) =~= complete_lines(buf@));
    }
    while i < buf.len()
        invariant
            consumed <= i <= buf@.len(),
            forall|k: int| consumed <= k < i ==> buf@[k] != 10,
            complete_lines(buf@) == text::texts(lines@) + complete_lines(
                buf@.skip(consumed as int),
            ),
            complete_len(buf@) == consumed + complete_len(buf@.skip(consumed as int)),
        decreases buf@.len() - i,
    {
        if buf[i] == 10 {
            let ghost rest = buf@.skip(consumed as int);
            let ghost n = i - consumed;
            let ghost before = text::texts(lines@);
            proof {
                assert forall|k: int| 0 <= k < n implies rest[k] != 10 by {
                    assert(rest[k] == buf@[consumed + k]);
                }
                lemma_line_end(rest, n);
                assert(rest.take(n) =~= buf@.subrange(consumed as int, i as int));
                assert(rest.skip(n + 1) =~= buf@.skip(i + 1));
            }
            match read_line(buf, consumed, i) {
                Some(s) => {
                    let ghost v = s@;
                    lines.push(s);
                    proof {
                        assert(text::texts(lines@) =~= before.push(v));
                        assert(before + (seq![v] + complete_lines(buf@.skip(i + 1)))
                            =~= before.push(v) + complete_lines(buf@.skip(i + 1)));
                    }
                },
                None => {},
            }
            consumed = i + 1;
        }
        i += 1;
    }
    proof {
        let rest = buf@.skip(consumed as int);
        assert forall|k: int| 0 <= k < rest.len() implies rest[k] != 10 by {
            assert(rest[k] == buf@[consumed + k]);
        }
        lemma_line_end(rest, rest.len() as int);
        assert(text::texts(lines@) + Seq::empty() =~= text::texts(lines@));
    }
    (lines, consumed)
}

/// The key grouping events into sessions. Events without a `session_id` share
/// one bucket rather than being dropped.
pub open spec fn session_key(ev: HookEvent) -> Seq<char> {
    match ev.session_id {
        Some(s) => s@,
        None => Seq::empty(),
    }
}

fn key_of(ev: &HookEvent) -> (r: &str)
    ensures
        r@ == session_key(*ev),
{
    match &ev.session_id {
        Some(s) => s.as_str(),
        None => {
            proof {
                reveal_strlit("");
                assert(""@ =~= Seq::empty());
            }
            ""
        },
    }
}

/// Where the last session of `evs` begins; `-1` when none does.
pub open spec fn last_boundary(evs: Seq<HookEvent>) -> int
    decreases evs.len(),
{
    if evs.len() == 0 {
        -1
    } else if event::starts_anew(evs.last()) {
        evs.len() - 1
    } else {
        last_boundary(evs.drop_last())
    }
}

/// Whether the session of event `i` is still active: it begins the feed or has
/// an event from there on.
pub open spec fn still_active(evs: Seq<HookEvent>, i: int) -> bool {
    exists|j: int|
        last_boundary(evs) <= j < evs.len() && session_key(#[trigger] evs[j]) == session_key(evs[i])
}

/// Whether event `i` belongs to the current segment of its session: the
/// session does not begin anew after it.
pub open spec fn in_segment(evs: Seq<HookEvent>, i: int) -> bool {
    forall|j: int|
        i < j < evs.len() && event::starts_anew(#[trigger] evs[j]) ==> session_key(evs[j])
            != session_key(evs[i])
}

/// The first `n` events, as far as they are to be replayed.
pub open spec fn replayed(evs: Seq<HookEvent>, n: int) -> Seq<HookEvent>
    decreases n,
{
    if n <= 0 {
        Seq::empty()
    } else if still_active(evs, n - 1) && in_segment(evs, n - 1) {
        replayed(evs, n - 1).push(evs[n - 1])
    } else {
        replayed(evs, n - 1)
    }
}

/// The events of the sessions still in play, in spool order: those of the
/// session that began last and of every other one active since, each from
/// where it last began. Without such a beginning, the last
/// `NO_BOUNDARY_TAIL` events.
pub open spec fn in_play(evs: Seq<HookEvent>) -> Seq<HookEvent> {
    if last_boundary(evs) < 0 {
        if evs.len() <= NO_BOUNDARY_TAIL {
            evs
        } else {
            evs.skip(evs.len() - NO_BOUNDARY_TAIL)
        }
    } else {
        replayed(evs, evs.len() as int)
    }
}

/// The events a monitor follows.
pub open spec fn followed(m: CwdMatcher, evs: Seq<HookEvent>) -> Seq<HookEvent>
    decreases evs.len(),
{
    if evs.len() == 0 {
        Seq::empty()
    } else if known(m, evs.last()) is Some {
        followed(m, evs.drop_last()).push(evs.last())
    } else {
        followed(m, evs.drop_last())
    }
}

/// Whether `keys` holds `key`.
fn has_key(keys: &Vec<String>, key: &str) -> (r: bool)
    ensures
        r == text::texts(keys@).contains(key@),
{
    let mut i: usize = 0;
    while i < keys.len()
        invariant
            i <= keys@.len(),
            forall|k: int| 0 <= k < i ==> text::texts(keys@)[k] != key@,
        decreases keys@.len() - i,
    {
        if text::same(keys[i].as_str(), key) {
            assert(text::texts(keys@)[i as int] == key@);
            return true;
        }
        i += 1;
    }
    false
}

/// Adds `key` to `keys` unless it is there.
fn add_key(keys: &mut Vec<String>, key: &str)
    ensures
        forall|k: Seq<char>| #[trigger]
            text::texts(final(keys)@).contains(k) <==> text::texts(old(keys)@).contains(k) || k
                == key@,
{
    let ghost before = text::texts(keys@);
    if !has_key(keys, key) {
        keys.push(key.to_owned());
        proof {
            let after = text::texts(keys@);
            assert(after =~= before.push(key@));
            assert forall|k: Seq<char>| #[trigger] after.contains(k) <==> before.contains(k) || k
                == key@ by {
                if before.contains(k) {
                    let i = choose|i: int| 0 <= i < before.len() && before[i] == k;
                    assert(after[i] == k);
                }
                if k == key@ {
                    assert(after[before.len() as int] == k);
                }
            }
        }
    }
}

/// The events a monitor follows.
fn follow(all: Vec<HookEvent>, matcher: &CwdMatcher) -> (r: Vec<HookEvent>)
    ensures
        r@ == followed(*matcher, all@),
{
    let ghost evs = all@;
    let mut out: Vec<HookEvent> = Vec::new();
    assert(evs.take(0) =~= Seq::empty());
    for ev in it: all
        invariant
            it.seq() == evs,
            out@ == followed(*matcher, evs.take(it.index() as int)),
    {
        let ghost i = it.index() as int;
        assert(evs.take(i + 1).drop_last() =~= evs.take(i));
        assert(ev == evs[i]);
        if matcher.accepts(&ev) {
            out.push(ev);
        }
    }
    assert(evs.take(evs.len() as int) =~= evs);
    out
}

/// Where the last session of `evs` begins.
fn find_boundary(evs: &Vec<HookEvent>) -> (r: Option<usize>)
    ensures
        r is None <==> last_boundary(evs@) < 0,
        r matches Some(i) ==> i == last_boundary(evs@) && i < evs@.len(),
{
    let mut i: usize = evs.len();
    assert(evs@.take(i as int) =~= evs@);
    while i > 0
        invariant
            i <= evs@.len(),
            last_boundary(evs@.take(i as int)) == last_boundary(evs@),
        decreases i,
    {
        assert(evs@.take(i as int).drop_last() =~= evs@.take(i - 1));
        i -= 1;
        if evs[i].is_boundary() {
            return Some(i);
        }
    }
    None
}

/// The sessions that have an event from `from` on.
fn active_keys(evs: &Vec<HookEvent>, from: usize) -> (keys: Vec<String>)
    requires
        from <= evs@.len(),
    ensures
        forall|k: Seq<char>| #[trigger]
            text::texts(keys@).contains(k) <==> exists|j: int|
                from <= j < evs@.len() && session_key(#[trigger] evs@[j]) == k,
{
    let mut keys: Vec<String> = Vec::new();
    let mut i: usize = from;
    while i < evs.len()
        invariant
            from <= i <= evs@.len(),
            forall|k: Seq<char>| #[trigger]
                text::texts(keys@).contains(k) <==> exists|j: int|
                    from <= j < i && session_key(#[trigger] evs@[j]) == k,
        decreases evs@.len() - i,
    {
        let ghost before = text::texts(keys@);
        add_key(&mut keys, key_of(&evs[i]));
        proof {
            let after = text::texts(keys@);
            assert forall|k: Seq<char>| #[trigger] after.contains(k) <==> exists|j: int|
                from <= j < i + 1 && session_key(#[trigger] evs@[j]) == k by {
                if after.contains(k) {
                    if before.contains(k) {
                        let j = choose|j: int|
                            from <= j < i && session_key(#[trigger] evs@[j]) == k;
                        assert(session_key(evs@[j]) == k);
                    } else {
                        assert(session_key(evs@[i as int]) == k);
                    }
                }
                if exists|j: int| from <= j < i + 1 && session_key(#[trigger] evs@[j]) == k {
                    let j = choose|j: int|
                        from <= j < i + 1 && session_key(#[trigger] evs@[j]) == k;
                    if j < i {
                        assert(before.contains(k));
                    }
                }
            }
        }
        i += 1;
    }
    keys
}

/// Which events are to be replayed, last first.
fn keep_flags(evs: &Vec<HookEvent>, active: &Vec<String>) -> (flags: Vec<bool>)
    requires
        forall|i: int|
            0 <= i < evs@.len() ==> (text::texts(active@).contains(session_key(#[trigger] evs@[i]))
                <==> still_active(evs@, i)),
    ensures
        flags@.len() == evs@.len(),
        forall|i: int|
            0 <= i < evs@.len() ==> #[trigger] flags@[evs@.len() - 1 - i] == (still_active(evs@, i)
                && in_segment(evs@, i)),
{
    let n: usize = evs.len();
    let mut closed: Vec<String> = Vec::new();
    let mut flags: Vec<bool> = Vec::new();
    let mut i: usize = n;
    while i > 0
        invariant
            i <= n,
            n == evs@.len(),
            flags@.len() == n - i,
            forall|k: int|
                0 <= k < n ==> (text::texts(active@).contains(session_key(#[trigger] evs@[k]))
                    <==> still_active(evs@, k)),
            forall|k: Seq<char>| #[trigger]
                text::texts(closed@).contains(k) <==> exists|j: int|
                    i <= j < n && event::starts_anew(#[trigger] evs@[j]) && session_key(evs@[j])
                        == k,
            forall|k: int|
                i <= k < n ==> #[trigger] flags@[n - 1 - k] == (still_active(evs@, k)
                    && in_segment(evs@, k)),
        decreases i,
    {
        i -= 1;
        let key = key_of(&evs[i]);
        let done = has_key(&closed, key);
        let keep = has_key(active, key) && !done;
        let ghost before = text::texts(closed@);
        let ghost old_flags = flags@;
        proof {
            let kk = session_key(evs@[i as int]);
            if done {
                let j = choose|j: int|
                    i + 1 <= j < n && event::starts_anew(#[trigger] evs@[j]) && session_key(
                        evs@[j],
                    ) == kk;
                assert(!in_segment(evs@, i as int));
            } else {
                assert forall|j: int|
                    i < j < n && event::starts_anew(#[trigger] evs@[j]) implies session_key(evs@[j])
                    != kk by {
                    if session_key(evs@[j]) == kk {
                        assert(before.contains(kk));
                    }
                }
            }
        }
        flags.push(keep);
        if evs[i].is_boundary() {
            add_key(&mut closed, key);
        }
        proof {
            let after = text::texts(closed@);
            assert forall|k: Seq<char>| #[trigger] after.contains(k) <==> exists|j: int|
                i <= j < n && event::starts_anew(#[trigger] evs@[j]) && session_key(evs@[j])
                    == k by {
                if after.contains(k) {
                    if before.contains(k) {
                        let j = choose|j: int|
                            i + 1 <= j < n && event::starts_anew(#[trigger] evs@[j])
                                && session_key(evs@[j]) == k;
                        assert(event::starts_anew(evs@[j]));
                    } else {
                        assert(event::starts_anew(evs@[i as int]));
                    }
                }
                if exists|j: int|
                    i <= j < n && event::starts_anew(#[trigger] evs@[j]) && session_key(evs@[j])
                        == k {
                    let j = choose|j: int|
                        i <= j < n && event::starts_anew(#[trigger] evs@[j]) && session_key(evs@[j])
                            == k;
                    if j > i {
                        assert(before.contains(k));
                    }
                }
            }
            assert forall|k: int| i <= k < n implies #[trigger] flags@[n - 1 - k] == (still_active(
                evs@,
                k,
            ) && in_segment(evs@, k)) by {
                if k > i {
                    assert(flags@[n - 1 - k] == old_flags[n - 1 - k]);
                }
            }
        }
    }
    flags
}

/// Pure selection step of the replay scan.
///
/// The primary session is the one owning the last non-compact SessionStart
/// `matcher` accepts. Any other session with activity after that boundary is
/// running concurrently in the same directory or repository, so its own
/// current segment is kept too; otherwise starting a second agent session here
/// would erase the first session's feed. The order of the spool is preserved.
pub fn select_session(all: Vec<HookEvent>, matcher: &CwdMatcher) -> (r: Vec<HookEvent>)
    ensures
        r@ == in_play(followed(*matcher, all@)),
{
    let mut matching = follow(all, matcher);
    let ghost evs = matching@;
    let primary = match find_boundary(&matching) {
        Some(i) => i,
        None => {
            let start: usize = matching.len().saturating_sub(NO_BOUNDARY_TAIL);
            let tail = matching.split_off(start);
            assert(tail@ =~= in_play(evs));
            return tail;
        },
    };
    let active = active_keys(&matching, primary);
    let flags = keep_flags(&matching, &active);
    let n: usize = matching.len();
    let mut out: Vec<HookEvent> = Vec::new();
    let mut i: usize = 0;
    for ev in it: matching
        invariant
            it.seq() == evs,
            i == it.index(),
            n == evs.len(),
            flags@.len() == n,
            forall|k: int|
                0 <= k < n ==> #[trigger] flags@[n - 1 - k] == (still_active(evs, k) && in_segment(
                    evs,
                    k,
                )),
            out@ == replayed(evs, i as int),
    {
        assert(flags@[n - 1 - i] == (still_active(evs, i as int) && in_segment(evs, i as int)));
        if flags[n - 1 - i] {
            out.push(ev);
        }
        i += 1;
    }
    out
}

/// What a replay scan finds.
#[derive(Debug)]
pub struct Replay {
    pub events: Vec<HookEvent>,
    /// Byte offset just past the last complete line of the current spool.
    pub offset: u64,
}

/// What the spool files say: the lines of the rotated file, which precede
/// those of the current one, and how far the current one was read.
pub fn read_spools(previous: &Vec<u8>, current: &Vec<u8>) -> (r: (Vec<String>, u64))
    ensures
        text::texts(r.0@) == complete_lines(previous@) + complete_lines(current@),
        r.1 == complete_len(current@),
{
    let (mut lines, _) = parse_complete_lines(previous);
    let (mut more, consumed) = parse_complete_lines(current);
    let ghost a = text::texts(lines@);
    let ghost b = text::texts(more@);
    lines.append(&mut more);
    assert(text::texts(lines@) =~= a + b);
    (lines, consumed as u64)
}

/// The events `matcher` accepts belonging to the sessions still in play, out
/// of all that the spool holds.
pub fn scan_replay(all: Vec<HookEvent>, offset: u64, matcher: &CwdMatcher) -> (r: Replay)
    ensures
        r.events@ == in_play(followed(*matcher, all@)),
        r.offset == offset,
{
    Replay { events: select_session(all, matcher), offset }
}

/// Incremental reader that survives rotation (inode change or shrink).
#[derive(Debug)]
pub struct SpoolTailer {
    pub offset: u64,
    pub ino: u64,
    /// What follows the last complete line read so far.
    pub buf: Vec<u8>,
}

/// Whether the file behind a tailer was replaced or cut.
pub open spec fn replaced(t: SpoolTailer, ino: u64, len: u64) -> bool {
    ino != t.ino || len < t.offset
}

impl SpoolTailer {
    /// A reader from `offset` on of a file with that inode; zero without a
    /// file.
    pub fn new(offset: u64, ino: u64) -> (r: SpoolTailer)
        ensures
            r.offset == offset,
            r.ino == ino,
            r.buf@.len() == 0,
    {
        SpoolTailer { offset, ino, buf: Vec::new() }
    }

    pub fn offset(&self) -> (r: u64)
        ensures
            r == self.offset,
    {
        self.offset
    }

    /// Where to read on, when there is anything new. A file that was replaced
    /// or cut is read from its start.
    pub fn poll(&mut self, ino: u64, len: u64) -> (r: Option<u64>)
        ensures
            final(self).ino == ino,
            replaced(*old(self), ino, len) ==> final(self).offset == 0 && final(self).buf@.len()
                == 0,
            !replaced(*old(self), ino, len) ==> final(self).offset == old(self).offset,
            !replaced(*old(self), ino, len) ==> final(self).buf == old(self).buf,
            r == (if len == final(self).offset {
                None::<u64>
            } else {
                Some(final(self).offset)
            }),
    {
        if ino != self.ino || len < self.offset {
            self.offset = 0;
            self.buf = Vec::new();
            self.ino = ino;
        }
        if len == self.offset {
            None
        } else {
            Some(self.offset)
        }
    }

    /// Take in what was read from `offset` on; what the lines say that are
    /// complete now.
    pub fn absorb(&mut self, chunk: &Vec<u8>) -> (r: Vec<String>)
        requires
            old(self).offset + chunk@.len() <= u64::MAX,
        ensures
            text::texts(r@) == complete_lines(old(self).buf@ + chunk@),
            final(self).buf@ == (old(self).buf@ + chunk@).skip(
                complete_len(old(self).buf@ + chunk@) as int,
            ),
            final(self).offset == old(self).offset + chunk@.len(),
            final(self).ino == old(self).ino,
    {
        let ghost before = self.buf@;
        let n: usize = chunk.len();
        let mut i: usize = 0;
        assert(before + chunk@.take(0) =~= before);
        while i < n
            invariant
                i <= n,
                n == chunk@.len(),
                self.buf@ == before + chunk@.take(i as int),
                self.offset == old(self).offset,
                self.ino == old(self).ino,
            decreases n - i,
        {
            self.buf.push(chunk[i]);
            assert(before + chunk@.take(i + 1) =~= (before + chunk@.take(i as int)).push(
                chunk@[i as int],
            ));
            i += 1;
        }
        assert(chunk@.take(i as int) =~= chunk@);
        self.offset = self.offset + n as u64;
        let (lines, consumed) = parse_complete_lines(&self.buf);
        let rest = self.buf.split_off(consumed);
        self.buf = rest;
        proof {
            assert(self.buf@ =~= (before + chunk@).skip(consumed as int));
        }
        lines
    }
}

/// What is left of `buf` behind its complete lines holds no line feed.
proof fn lemma_rest(buf: Seq<u8>)
    ensures
        complete_len(buf) <= buf.len(),
        forall|i: int| complete_len(buf) <= i < buf.len() ==> buf[i] != 10,
    decreases buf.len(),
{
    lemma_line_end_bound(buf);
    if has_line(buf) {
        let n = line_end(buf) as int;
        let rest = buf.skip(n + 1);
        lemma_rest(rest);
        assert forall|i: int| complete_len(buf) <= i < buf.len() implies buf[i] != 10 by {
            assert(buf[i] == rest[i - n - 1]);
        }
    }
}

proof fn lemma_lines_join(a: Seq<u8>, b: Seq<u8>)
    ensures
        complete_lines(a + b) == complete_lines(a) + complete_lines(
            a.skip(complete_len(a) as int) + b,
        ),
        complete_len(a + b) == complete_len(a) + complete_len(a.skip(complete_len(a) as int) + b),
    decreases a.len(),
{
    if has_line(a) {
        lemma_line_end_bound(a);
        let n = line_end(a) as int;
        let rest = a.skip(n + 1);
        assert forall|i: int| 0 <= i < n implies (a + b)[i] != 10 by {
            assert((a + b)[i] == a[i]);
        }
        assert((a + b)[n] == 10);
        lemma_line_end(a + b, n);
        assert((a + b).take(n) =~= a.take(n));
        assert((a + b).skip(n + 1) =~= rest + b);
        lemma_lines_join(rest, b);
        lemma_rest(rest);
        assert(rest.skip(complete_len(rest) as int) =~= a.skip(complete_len(a) as int));
        let tail = complete_lines(a.skip(complete_len(a) as int) + b);
        match line_text(a.take(n)) {
            Some(s) => {
                assert(seq![s] + (complete_lines(rest) + tail) =~= (seq![s] + complete_lines(rest))
                    + tail);
            },
            None => {},
        }
    } else {
        assert(a.skip(0) =~= a);
        assert(complete_lines(a) + complete_lines(a + b) =~= complete_lines(a + b));
    }
}

/// It makes no difference in which pieces the spool is read: two pieces, one
/// after the other, give the lines of both together and leave the same rest.
pub proof fn law_pieces_read_like_the_whole(buf: Seq<u8>, a: Seq<u8>, b: Seq<u8>)
    ensures
        ({
            let rest = (buf + a).skip(complete_len(buf + a) as int);
            &&& complete_lines(buf + a) + complete_lines(rest + b) == complete_lines(buf + a + b)
            &&& (rest + b).skip(complete_len(rest + b) as int) == (buf + a + b).skip(
                complete_len(buf + a + b) as int,
            )
        }),
{
    let whole = buf + a;
    let rest = whole.skip(complete_len(whole) as int);
    lemma_lines_join(whole, b);
    lemma_rest(whole);
    lemma_rest(rest + b);
    assert((rest + b).skip(complete_len(rest + b) as int) =~= (whole + b).skip(
        complete_len(whole + b) as int,
    ));
}

/// Whether event `i` is to be replayed.
pub open spec fn kept(evs: Seq<HookEvent>, i: int) -> bool {
    still_active(evs, i) && in_segment(evs, i)
}

/// A replay keeps the order of the spool: of two events that are kept, the
/// earlier one comes first.
pub proof fn law_replay_keeps_spool_order(evs: Seq<HookEvent>, i: int, j: int)
    requires
        last_boundary(evs) >= 0,
        0 <= i < j < evs.len(),
        kept(evs, i),
        kept(evs, j),
    ensures
        0 <= place(evs, i) < place(evs, j) < in_play(evs).len(),
        in_play(evs)[place(evs, i)] == evs[i],
        in_play(evs)[place(evs, j)] == evs[j],
{
    let n = evs.len() as int;
    lemma_place(evs, i, n);
    lemma_place(evs, j, n);
    lemma_place(evs, i, j);
}

/// A replay holds nothing but events that are kept.
pub proof fn law_replay_holds_only_kept_events(evs: Seq<HookEvent>, n: int, k: int)
    requires
        0 <= n <= evs.len(),
        0 <= k < replayed(evs, n).len(),
    ensures
        exists|i: int| 0 <= i < n && #[trigger] kept(evs, i) && evs[i] == replayed(evs, n)[k],
    decreases n,
{
    if n > 0 {
        let front = replayed(evs, n - 1);
        if k < front.len() {
            law_replay_holds_only_kept_events(evs, n - 1, k);
            let i = choose|i: int| 0 <= i < n - 1 && #[trigger] kept(evs, i) && evs[i] == front[k];
            assert(kept(evs, i) && evs[i] == replayed(evs, n)[k]);
        } else {
            assert(kept(evs, n - 1));
        }
    }
}

/// Where event `i` stands in the replay when it is kept.
pub open spec fn place(evs: Seq<HookEvent>, i: int) -> int {
    replayed(evs, i).len() as int
}

proof fn lemma_place(evs: Seq<HookEvent>, i: int, n: int)
    requires
        0 <= i < n <= evs.len(),
        kept(evs, i),
    ensures
        place(evs, i) < replayed(evs, n).len(),
        replayed(evs, n)[place(evs, i)] == evs[i],
    decreases n,
{
    if i < n - 1 {
        lemma_place(evs, i, n - 1);
    }
}

/// Outside repo mode only the monitor's own directory is followed, whatever
/// git reports.
pub proof fn law_without_a_repository_git_does_not_count(
    m: CwdMatcher,
    cwd: Seq<char>,
    canonical: Option<Seq<char>>,
    git: Option<CwdInfo>,
)
    requires
        m.repo is None,
    ensures
        classified(m, cwd, canonical, git) == classified(m, cwd, canonical, None),
        classified(m, cwd, canonical, git) is Some <==> own_dir(m, cwd, canonical),
{
}

/// The monitor's own directory is followed in every mode, and needs no git.
pub proof fn law_the_own_directory_is_followed(
    m: CwdMatcher,
    git: Option<CwdInfo>,
)
    ensures
        classified(m, m.cwd@, text::opt_text(m.canonical), git) is Some,
        classified(m, m.cwd@, text::opt_text(m.canonical), git) == classified(
            m,
            m.cwd@,
            text::opt_text(m.canonical),
            None,
        ),
{
}

/// The answer for a directory stays: whatever is asked later, of this
/// directory or another, and whatever its canonical path and git are by then.
pub proof fn law_an_answer_stays(
    m: CwdMatcher,
    later: CwdMatcher,
    cwd: Seq<char>,
    kept: Option<Accepted>,
    other: Seq<char>,
    canonical: Option<Seq<char>>,
    git: Option<CwdInfo>,
    canonical_then: Option<Seq<char>>,
    git_then: Option<CwdInfo>,
)
    requires
        cached_in(m.cache@, cwd) == Some(kept),
        remembers(later, m, other, answer(m, other, canonical, git)),
    ensures
        cached_in(later.cache@, cwd) == Some(kept),
        answer(later, cwd, canonical_then, git_then) == kept,
{
}

/// A line of the spool counts once its line feed is there: its text without
/// the white space around it comes before that of the lines behind it, and a
/// line that is blank or not text is passed over. What has no line feed yet is
/// left for later.
pub proof fn law_lines_end_at_line_feeds(line: Seq<u8>, rest: Seq<u8>)
    requires
        forall|i: int| 0 <= i < line.len() ==> (#[trigger] line[i]) != 10,
    ensures
        complete_lines(line).len() == 0,
        complete_len(line) == 0,
        complete_len(line.push(10) + rest) == line.len() + 1 + complete_len(rest),
        vstd::utf8::valid_utf8(line) && text::trimmed(vstd::utf8::decode_utf8(line)).len() > 0
            ==> complete_lines(line.push(10) + rest) == seq![
            text::trimmed(vstd::utf8::decode_utf8(line)),
        ] + complete_lines(rest),
        !vstd::utf8::valid_utf8(line) || text::trimmed(vstd::utf8::decode_utf8(line)).len() == 0
            ==> complete_lines(line.push(10) + rest) == complete_lines(rest),
{
    let n = line.len() as int;
    let all = line.push(10) + rest;
    lemma_line_end(line, n);
    assert forall|i: int| 0 <= i < n implies all[i] != 10 by {
        assert(all[i] == line[i]);
    }
    assert(all[n] == 10);
    lemma_line_end(all, n);
    assert(all.take(n) =~= line);
    assert(all.skip(n + 1) =~= rest);
}

/// Two directories that both resolve are the same when they resolve to the
/// same place. Where one does not, they are compared as written, whatever
/// slashes are at the end.
pub proof fn law_directories_are_compared_as_they_resolve(
    a: Seq<char>,
    b: Seq<char>,
    x: Seq<char>,
    y: Seq<char>,
    other: Option<Seq<char>>,
)
    ensures
        same_dir(a, Some(x), b, Some(y)) <==> x == y,
        same_dir(a, None, a, other),
        same_dir(a, other, a, None),
        same_dir(a, None, a.push('/'), other),
        a.len() > 0 && b.len() > 0 && a.last() != '/' && b.last() != '/' ==> (same_dir(
            a,
            None,
            b,
            other,
        ) <==> a == b),
{
    text::law_slashes_at_the_end_do_not_count(a);
    text::law_slashes_at_the_end_do_not_count(b);
}

/// In a repository the events of all its worktrees are followed, each with the
/// root of its own worktree. Those of other repositories are not, nor those
/// outside any.
pub proof fn law_a_repository_is_followed_in_all_its_worktrees(
    m: CwdMatcher,
    cwd: Seq<char>,
    canonical: Option<Seq<char>>,
    info: CwdInfo,
)
    requires
        m.repo is Some,
    ensures
        ({
            let own = same_dir(cwd, canonical, m.cwd@, text::opt_text(m.canonical));
            &&& own ==> classified(m, cwd, canonical, Some(info)) == Some(
                Accepted::Repo(m.repo->0.toplevel@),
            )
            &&& !own && info.common_dir@ == m.repo->0.common_dir@ ==> classified(
                m,
                cwd,
                canonical,
                Some(info),
            ) == Some(Accepted::Repo(info.toplevel@))
            &&& !own && info.common_dir@ != m.repo->0.common_dir@ ==> classified(
                m,
                cwd,
                canonical,
                Some(info),
            ) is None
            &&& !own ==> classified(m, cwd, canonical, None) is None
        }),
{
}

/// Without a repository the events of the own directory are followed, and no
/// others.
pub proof fn law_a_directory_is_followed_by_itself(
    m: CwdMatcher,
    cwd: Seq<char>,
    canonical: Option<Seq<char>>,
    git: Option<CwdInfo>,
)
    requires
        m.repo is None,
    ensures
        classified(m, cwd, canonical, git) == (if same_dir(
            cwd,
            canonical,
            m.cwd@,
            text::opt_text(m.canonical),
        ) {
            Some(Accepted::Exact)
        } else {
            None
        }),
{
}

/// An event is followed as its directory was resolved; one without a
/// directory, or with one that was not resolved, is not followed.
pub proof fn law_events_are_followed_by_their_directory(
    m: CwdMatcher,
    before: CwdMatcher,
    ev: HookEvent,
    found: Option<Accepted>,
)
    ensures
        ev.cwd is None ==> known(m, ev) is None,
        ev.cwd is Some && m.cache@.len() == 0 ==> known(m, ev) is None,
        ev.cwd matches Some(c) ==> (remembers(m, before, c@, found) ==> known(m, ev) == found),
{
}

/// The events that are followed are those whose directory was accepted, all of
/// them and in order.
pub proof fn law_accepted_events_are_followed_in_order(m: CwdMatcher, evs: Seq<HookEvent>, i: int)
    requires
        0 <= i < evs.len(),
    ensures
        ({
            let at = followed(m, evs.take(i)).len() as int;
            let next = followed(m, evs.take(i + 1)).len() as int;
            &&& next <= followed(m, evs).len()
            &&& known(m, evs[i]) is Some ==> next == at + 1 && followed(m, evs)[at] == evs[i]
            &&& known(m, evs[i]) is None ==> next == at
        }),
    decreases evs.len(),
{
    let front = evs.drop_last();
    assert(evs.take(i + 1).drop_last() =~= evs.take(i));
    if i < front.len() {
        law_accepted_events_are_followed_in_order(m, front, i);
        assert(front.take(i) =~= evs.take(i));
        assert(front.take(i + 1) =~= evs.take(i + 1));
        assert(front[i] == evs[i]);
    } else {
        assert(evs.take(i) =~= front);
        assert(evs.take(i + 1) =~= evs);
    }
}

proof fn lemma_no_boundary(evs: Seq<HookEvent>)
    requires
        forall|i: int| 0 <= i < evs.len() ==> !event::starts_anew(#[trigger] evs[i]),
    ensures
        last_boundary(evs) == -1,
    decreases evs.len(),
{
    if evs.len() > 0 {
        let front = evs.drop_last();
        assert forall|i: int| 0 <= i < front.len() implies !event::starts_anew(
            #[trigger] front[i],
        ) by {
            assert(front[i] == evs[i]);
        }
        assert(!event::starts_anew(evs[evs.len() - 1]));
        lemma_no_boundary(front);
    }
}

proof fn lemma_boundary_at(evs: Seq<HookEvent>, b: int)
    requires
        0 <= b < evs.len(),
        event::starts_anew(evs[b]),
        forall|i: int| b < i < evs.len() ==> !event::starts_anew(#[trigger] evs[i]),
    ensures
        last_boundary(evs) == b,
    decreases evs.len(),
{
    if b < evs.len() - 1 {
        let front = evs.drop_last();
        assert(front[b] == evs[b]);
        assert forall|i: int| b < i < front.len() implies !event::starts_anew(
            #[trigger] front[i],
        ) by {
            assert(front[i] == evs[i]);
        }
        assert(!event::starts_anew(evs[evs.len() - 1]));
        lemma_boundary_at(front, b);
    }
}

/// A spool in which no session starts anew is replayed from its last two
/// hundred events on, or whole where it has fewer.
pub proof fn law_without_a_start_the_last_events_are_replayed(evs: Seq<HookEvent>, k: int)
    requires
        forall|i: int|
            0 <= i < evs.len() ==> !((#[trigger] evs[i]).hook_event_name@ == "SessionStart"@ && (
            evs[i].source matches Some(s) ==> s@ != "compact"@)),
    ensures
        evs.len() <= 200 ==> in_play(evs) == evs,
        evs.len() > 200 ==> in_play(evs).len() == 200,
        evs.len() > 200 && 0 <= k < 200 ==> in_play(evs)[k] == evs[evs.len() - 200 + k],
{
    assert forall|i: int| 0 <= i < evs.len() implies !event::starts_anew(#[trigger] evs[i]) by {
        assert(evs[i].hook_event_name@ == evs[i].hook_event_name@);
    }
    lemma_no_boundary(evs);
}

/// From where a session last started anew on, everything of the sessions that
/// are active since is replayed: an event of such a session is kept unless its
/// session starts anew after it. The start itself is.
pub proof fn law_active_sessions_are_replayed(evs: Seq<HookEvent>, b: int, i: int, j: int)
    requires
        0 <= b < evs.len(),
        evs[b].hook_event_name@ == "SessionStart"@,
        evs[b].source matches Some(s) ==> s@ != "compact"@,
        forall|i: int|
            b < i < evs.len() ==> !((#[trigger] evs[i]).hook_event_name@ == "SessionStart"@ && (
            evs[i].source matches Some(s) ==> s@ != "compact"@)),
        0 <= i < evs.len(),
    ensures
        kept(evs, b),
        b <= i ==> kept(evs, i),
        i < b && session_key(evs[i]) == session_key(evs[b]) ==> !kept(evs, i),
        i < b <= j < evs.len() && session_key(evs[j]) == session_key(evs[i]) && (forall|l: int|
            i < l < evs.len() && session_key(#[trigger] evs[l]) == session_key(evs[i])
                ==> !event::starts_anew(evs[l])) ==> kept(evs, i),
        i < j < evs.len() && session_key(evs[j]) == session_key(evs[i]) && event::starts_anew(
            evs[j],
        ) ==> !kept(evs, i),
        i < b && (forall|l: int|
            b <= l < evs.len() ==> session_key(#[trigger] evs[l]) != session_key(evs[i]))
            ==> !kept(evs, i),
        kept(evs, i) ==> in_play(evs).contains(evs[i]),
{
    assert(event::starts_anew(evs[b]));
    assert forall|i: int| b < i < evs.len() implies !event::starts_anew(#[trigger] evs[i]) by {
        assert(evs[i].hook_event_name@ == evs[i].hook_event_name@);
    }
    lemma_boundary_at(evs, b);
    assert(session_key(evs[b]) == session_key(evs[b]));
    assert(session_key(evs[i]) == session_key(evs[i]));
    assert(still_active(evs, b));
    if kept(evs, i) {
        lemma_replayed_at(evs, i, evs.len() as int);
        assert(in_play(evs)[place(evs, i)] == evs[i]);
    }
}

proof fn lemma_replayed_at(evs: Seq<HookEvent>, i: int, n: int)
    requires
        0 <= i < n <= evs.len(),
        kept(evs, i),
    ensures
        place(evs, i) < replayed(evs, n).len(),
        replayed(evs, n)[place(evs, i)] == evs[i],
    decreases n,
{
    if i < n - 1 {
        lemma_replayed_at(evs, i, n - 1);
    }
}

/// A spool is read from its start when it is another file than before or is
/// shorter than what was read of it, and goes on where it was otherwise.
pub proof fn law_a_spool_is_read_anew_when_it_was_replaced(t: SpoolTailer, ino: u64, len: u64)
    ensures
        ino == t.ino && len >= t.offset ==> !replaced(t, ino, len),
        ino != t.ino ==> replaced(t, ino, len),
        len < t.offset ==> replaced(t, ino, len),
{
}

proof fn lemma_cached_at(cache: Seq<(String, Option<CwdMatch>)>, cwd: Seq<char>, i: int)
    requires
        -1 <= i < cache.len(),
        i >= 0 ==> cache[i].0@ == cwd,
        forall|j: int| i < j < cache.len() ==> (#[trigger] cache[j]).0@ != cwd,
    ensures
        i < 0 ==> cached_in(cache, cwd) is None,
        i >= 0 ==> cached_in(cache, cwd) == Some(opt_match(cache[i].1)),
    decreases cache.len(),
{
    if cache.len() > 0 && i < cache.len() - 1 {
        let front = cache.drop_last();
        assert(cache[cache.len() - 1].0@ != cwd);
        assert forall|j: int| i < j < front.len() implies (#[trigger] front[j]).0@ != cwd by {
            assert(front[j] == cache[j]);
        }
        lemma_cached_at(front, cwd, i);
    }
}

/// A directory is looked at once: what was found of it is the answer from then
/// on. One that was not looked at yet is looked at now, however many others
/// were before.
pub proof fn law_a_directory_is_looked_at_once(
    m: CwdMatcher,
    cwd: Seq<char>,
    canonical: Option<Seq<char>>,
    git: Option<CwdInfo>,
    i: int,
)
    ensures
        (forall|j: int| 0 <= j < m.cache@.len() ==> (#[trigger] m.cache@[j]).0@ != cwd) ==> answer(
            m,
            cwd,
            canonical,
            git,
        ) == classified(m, cwd, canonical, git),
        0 <= i < m.cache@.len() && m.cache@[i].0@ == cwd && (forall|j: int|
            i < j < m.cache@.len() ==> (#[trigger] m.cache@[j]).0@ != cwd) ==> answer(
            m,
            cwd,
            canonical,
            git,
        ) == (match m.cache@[i].1 {
            Some(found) => Some(found@),
            None => None,
        }),
{
    if forall|j: int| 0 <= j < m.cache@.len() ==> (#[trigger] m.cache@[j]).0@ != cwd {
        lemma_cached_at(m.cache@, cwd, -1);
    }
    if 0 <= i < m.cache@.len() && m.cache@[i].0@ == cwd && (forall|j: int|
        i < j < m.cache@.len() ==> (#[trigger] m.cache@[j]).0@ != cwd) {
        lemma_cached_at(m.cache@, cwd, i);
    }
}

} // verus!
