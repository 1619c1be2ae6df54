//! Filesystem locations shared between `diffier hook` and the monitor.
//!
//! Derived from the XDG environment variables with their documented defaults
//! rather than from platform conventions (macOS keeps caches in
//! `~/Library/Caches`), so the paths stay stable and predictable. A path is a
//! string with `/` between its parts.

use std::path::Path;

use vstd::prelude::*;
use vstd::string::*;

use crate::text;

verus! {

/// What `Path::strip_prefix` leaves of `path` below `base`.
pub uninterp spec fn below(path: Seq<char>, base: Seq<char>) -> Option<Seq<char>>;

/// What `Path::file_name` finds.
pub uninterp spec fn base_name(path: Seq<char>) -> Option<Seq<char>>;

/// What `Path::extension` finds.
pub uninterp spec fn suffix_of(path: Seq<char>) -> Option<Seq<char>>;

/// `Path::strip_prefix`: `path` relative to `base`, `None` when it is not
/// below it. Parts are compared as a whole.
#[verifier::external_body]
pub(crate) fn strip_prefix(path: &str, base: &str) -> (r: Option<String>)
    ensures
        text::opt_text(r) == below(path@, base@),
{
    let rest = Path::new(path).strip_prefix(base).ok()?;
    Some(rest.to_string_lossy().into_owned())
}

/// `Path::file_name`: the last part of `path`.
#[verifier::external_body]
pub(crate) fn file_name(path: &str) -> (r: Option<String>)
    ensures
        text::opt_text(r) == base_name(path@),
{
    Path::new(path).file_name().map(|n| n.to_string_lossy().into_owned())
}

/// `Path::extension`: what follows the last dot of the file name.
#[verifier::external_body]
pub(crate) fn extension(path: &str) -> (r: Option<String>)
    ensures
        text::opt_text(r) == suffix_of(path@),
{
    Path::new(path).extension().map(|e| e.to_string_lossy().into_owned())
}

/// `part` below `base`: an absolute `part` stands for itself.
pub open spec fn under(base: Seq<char>, part: Seq<char>) -> Seq<char> {
    if part.len() > 0 && part[0] == '/' {
        part
    } else if base.len() == 0 || base.last() == '/' {
        base + part
    } else {
        base.push('/') + part
    }
}

/// `part` below `base`.
pub fn join(base: &str, part: &str) -> (r: String)
    ensures
        r@ == under(base@, part@),
{
    let b = text::chars_of(base);
    let p = text::chars_of(part);
    if p.len() > 0 && p[0] == '/' {
        part.to_owned()
    } else {
        let mut s = base.to_owned();
        if b.len() > 0 && b[b.len() - 1] != '/' {
            s.push('/');
        }
        s.append(part);
        s
    }
}

/// The coding agent whose edits are followed.
#[derive(Debug, Clone, PartialEq, Eq)]
pub struct Agent {
    /// Its settings are in `~/.<name>` and its scratch files in `<name>-*`
    /// directories.
    pub name: String,
    /// What it is called on the screen.
    pub title: String,
}

/// Where an agent of that name keeps its settings.
pub open spec fn agent_dir(home: Seq<char>, name: Seq<char>) -> Seq<char> {
    under(home, "."@ + name)
}

/// Where things are kept.
#[derive(Debug, Clone, PartialEq, Eq)]
pub struct Paths {
    /// JSONL spool the hook appends to.
    pub spool: String,
    /// Root of pre-edit snapshots: `<root>/<session_id>/<tool_use_id>`.
    pub snapshot_root: String,
    /// A shell script that once was the hook; `install` and `uninstall` delete it.
    pub hook_script: String,
    /// The agent's user settings.
    pub settings: String,
}

/// The value of a variable; an empty one counts as unset.
pub open spec fn set_value(v: Option<String>) -> Option<Seq<char>> {
    match v {
        Some(s) => if s@.len() == 0 {
            None
        } else {
            Some(s@)
        },
        None => None,
    }
}

/// Where state is kept.
pub open spec fn state_dir(home: Seq<char>, xdg_state: Option<String>) -> Seq<char> {
    match set_value(xdg_state) {
        Some(s) => s,
        None => under(under(home, ".local"@), "state"@),
    }
}

/// Where caches are kept.
pub open spec fn cache_dir(home: Seq<char>, xdg_cache: Option<String>) -> Seq<char> {
    match set_value(xdg_cache) {
        Some(s) => s,
        None => under(home, ".cache"@),
    }
}

/// `v` unless it is unset or empty.
pub fn non_empty(v: Option<String>) -> (r: Option<String>)
    ensures
        text::opt_text(r) == set_value(v),
{
    match v {
        Some(s) => if s.as_str().is_empty() {
            None
        } else {
            Some(s)
        },
        None => None,
    }
}

impl Paths {
    /// An empty value counts as unset, as the XDG documentation says and as
    /// `${VAR:-default}` does in a shell.
    pub fn from_parts(
        home: &str,
        xdg_state: Option<String>,
        xdg_cache: Option<String>,
        agent: &Agent,
    ) -> (r: Paths)
        ensures
            r.spool@ == under(under(state_dir(home@, xdg_state), "diffier"@), "events.jsonl"@),
            r.snapshot_root@ == under(cache_dir(home@, xdg_cache), "diffier"@),
            r.hook_script@ == under(
                under(agent_dir(home@, agent.name@), "hooks"@),
                "diffier.sh"@,
            ),
            r.settings@ == under(agent_dir(home@, agent.name@), "settings.json"@),
    {
        let state = match non_empty(xdg_state) {
            Some(s) => s,
            None => join(join(home, ".local").as_str(), "state"),
        };
        let cache = match non_empty(xdg_cache) {
            Some(s) => s,
            None => join(home, ".cache"),
        };
        let mut hidden = ".".to_owned();
        hidden.append(agent.name.as_str());
        let dir = join(home, hidden.as_str());
        Paths {
            spool: join(join(state.as_str(), "diffier").as_str(), "events.jsonl"),
            snapshot_root: join(cache.as_str(), "diffier"),
            hook_script: join(join(dir.as_str(), "hooks").as_str(), "diffier.sh"),
            settings: join(dir.as_str(), "settings.json"),
        }
    }

    /// Previous spool file, written by the hook when it rotates.
    pub fn rotated_spool(&self) -> (r: String)
        ensures
            r@ == self.spool@ + ".1"@,
    {
        rotated(self.spool.as_str())
    }
}

/// `<path>.1`, appended to the file name rather than replacing an extension.
pub fn rotated(spool: &str) -> (r: String)
    ensures
        r@ == spool@ + ".1"@,
{
    let mut s = spool.to_owned();
    s.append(".1");
    s
}

/// Whether `file` is somewhere below a directory whose path begins with
/// `prefix`.
pub open spec fn scratch_in(file: Seq<char>, prefix: Seq<char>) -> bool {
    text::begins(file, prefix) && exists|i: int|
        prefix.len() <= i < file.len() - 1 && #[trigger] file[i] == '/'
}

/// Whether `file` is below a scratch directory.
pub open spec fn scratch(file: Seq<char>, prefixes: Seq<Seq<char>>) -> bool {
    exists|i: int| 0 <= i < prefixes.len() && scratch_in(file, #[trigger] prefixes[i])
}

fn is_scratch_in(file: &str, prefix: &str) -> (r: bool)
    ensures
        r == scratch_in(file@, prefix@),
{
    if !text::starts_with(file, prefix) {
        return false;
    }
    let v = text::chars_of(file);
    let mut i: usize = text::char_count(prefix);
    while i < v.len()
        invariant
            v@ == file@,
            text::begins(file@, prefix@),
            prefix@.len() <= i <= v@.len(),
            forall|k: int| prefix@.len() <= k < i && k < v@.len() - 1 ==> v@[k] != '/',
        decreases v@.len() - i,
    {
        if i < v.len() - 1 && v[i] == '/' {
            assert(file@[i as int] == '/');
            return true;
        }
        i += 1;
    }
    false
}

/// Whether `file` is a scratch file, given how the paths of scratch
/// directories begin. The check is on the text of the path alone.
pub fn is_scratch(file: &str, prefixes: &Vec<String>) -> (r: bool)
    ensures
        r == scratch(file@, text::texts(prefixes@)),
{
    let mut i: usize = 0;
    while i < prefixes.len()
        invariant
            i <= prefixes@.len(),
            forall|k: int| 0 <= k < i ==> !scratch_in(file@, #[trigger] text::texts(prefixes@)[k]),
        decreases prefixes@.len() - i,
    {
        if is_scratch_in(file, prefixes[i].as_str()) {
            assert(scratch_in(file@, text::texts(prefixes@)[i as int]));
            return true;
        }
        i += 1;
    }
    false
}

/// How the paths of the scratch directories in `dir` begin: `<dir>/<name>-`.
pub open spec fn scratch_prefix(dir: Seq<char>, name: Seq<char>) -> Seq<char> {
    text::without_slashes(dir) + "/"@ + name + "-"@
}

fn prefix_in(dir: &str, agent: &Agent) -> (r: String)
    ensures
        r@ == scratch_prefix(dir@, agent.name@),
{
    let mut prefix = text::trim_slashes(dir);
    prefix.append("/");
    prefix.append(agent.name.as_str());
    prefix.append("-");
    prefix
}

/// How the paths of an agent's scratch directories begin: they are directly
/// inside `/tmp`, `/private/tmp`, or the platform's temporary directory.
pub fn scratch_prefixes(platform: &str, agent: &Agent) -> (r: Vec<String>)
    ensures
        text::texts(r@) == seq![
            scratch_prefix("/tmp"@, agent.name@),
            scratch_prefix("/private/tmp"@, agent.name@),
            scratch_prefix(platform@, agent.name@),
        ],
{
    let mut prefixes: Vec<String> = Vec::new();
    prefixes.push(prefix_in("/tmp", agent));
    prefixes.push(prefix_in("/private/tmp", agent));
    prefixes.push(prefix_in(platform, agent));
    assert(text::texts(prefixes@) =~= seq![
        scratch_prefix("/tmp"@, agent.name@),
        scratch_prefix("/private/tmp"@, agent.name@),
        scratch_prefix(platform@, agent.name@),
    ]);
    prefixes
}

/// A name is put behind a directory with one slash between, whether or not the
/// directory has one already. A path from the root stands for itself.
pub proof fn law_names_go_behind_their_directory(base: Seq<char>, part: Seq<char>)
    ensures
        part.len() > 0 && part[0] == '/' ==> under(base, part) == part,
        part.len() > 0 && part[0] != '/' ==> under(Seq::empty(), part) == part,
        part.len() > 0 && part[0] != '/' ==> under(base.push('/'), part) == base + "/"@ + part,
        base.len() > 0 && base.last() != '/' && part.len() > 0 && part[0] != '/' ==> under(
            base,
            part,
        ) == base + "/"@ + part,
{
    reveal_strlit("/");
    assert(base.push('/') =~= base + "/"@);
    assert(Seq::<char>::empty() + part =~= part);
}

/// State and cache lie where the variables say, and below the home directory
/// when a variable is not set or empty.
pub proof fn law_directories_default_below_home(home: Seq<char>, value: Option<String>)
    requires
        home.len() > 0,
        home.last() != '/',
    ensures
        value matches Some(s) ==> (s@.len() > 0 ==> state_dir(home, value) == s@),
        value matches Some(s) ==> (s@.len() > 0 ==> cache_dir(home, value) == s@),
        value is None || value->0@.len() == 0 ==> state_dir(home, value) == home
            + "/.local/state"@,
        value is None || value->0@.len() == 0 ==> cache_dir(home, value) == home + "/.cache"@,
{
    reveal_strlit(".local");
    reveal_strlit("state");
    reveal_strlit(".cache");
    reveal_strlit("/.local/state");
    reveal_strlit("/.cache");
    let a = under(home, ".local"@);
    assert(a.last() == 'l');
    assert(under(a, "state"@) =~= home + "/.local/state"@);
    assert(under(home, ".cache"@) =~= home + "/.cache"@);
}

/// A file is a scratch file when it lies, at any depth, in a directory whose
/// path begins with a prefix; the directory itself is none, nor is any path
/// that begins otherwise.
pub proof fn law_scratch_files_lie_in_scratch_directories(
    prefix: Seq<char>,
    name: Seq<char>,
    rest: Seq<char>,
    file: Seq<char>,
)
    ensures
        rest.len() > 0 ==> scratch_in(prefix + name + "/"@ + rest, prefix),
        (forall|i: int| 0 <= i < name.len() ==> (#[trigger] name[i]) != '/') ==> !scratch_in(
            prefix + name,
            prefix,
        ) && !scratch_in(prefix + name + "/"@, prefix),
        file.len() < prefix.len() || file.take(prefix.len() as int) != prefix ==> !scratch_in(
            file,
            prefix,
        ),
{
    reveal_strlit("/");
    let f = prefix + name + "/"@ + rest;
    let at = (prefix.len() + name.len()) as int;
    assert(f[at] == '/');
    assert(f.take(prefix.len() as int) =~= prefix);
    if forall|i: int| 0 <= i < name.len() ==> (#[trigger] name[i]) != '/' {
        let d = prefix + name;
        assert forall|i: int| prefix.len() <= i < d.len() implies d[i] != '/' by {
            assert(d[i] == name[i - prefix.len()]);
        }
        let e = d + "/"@;
        assert forall|i: int| prefix.len() <= i < e.len() - 1 implies e[i] != '/' by {
            assert(e[i] == name[i - prefix.len()]);
        }
    }
}

/// The scratch directories of an agent begin with its name and a dash.
pub proof fn law_scratch_directories_begin_with_the_name(dir: Seq<char>, name: Seq<char>)
    requires
        dir.len() > 0,
        dir.last() != '/',
    ensures
        scratch_prefix(dir, name) == dir + "/"@ + name + "-"@,
        scratch_prefix(dir.push('/'), name) == dir + "/"@ + name + "-"@,
{
    text::law_slashes_at_the_end_do_not_count(dir);
}

} // verus!
