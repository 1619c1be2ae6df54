//! Register and remove the `diffier hook` entries in the agent's settings.

use vstd::prelude::*;
use vstd::string::*;

use crate::event;
use crate::json;
use crate::json::{Json, Tree};
use crate::text;

verus! {

/// The shell hook that preceded `diffier hook`; `install` replaces its entries
/// and deletes the script.
pub const LEGACY_HOOK_MARKER: &'static str = "diffier.sh";

/// Anchored so an MCP tool whose name merely contains "Edit" does not match.
pub const TOOL_MATCHER: &'static str = "^(Edit|Write|MultiEdit|NotebookEdit)$";

/// Seconds after which the agent stops waiting for the hook.
pub const HOOK_TIMEOUT_SECS: u64 = 5;

/// Whether a command runs our hook: `'<path to diffier>' hook`, or the legacy
/// `diffier.sh` script.
pub open spec fn ours(command: Seq<char>) -> bool {
    let c = text::trimmed_end(command);
    text::contains(c, "diffier.sh"@) || (text::contains(c, "diffier"@) && text::ends(c, "' hook"@))
}

/// Whether a command runs our hook.
pub fn command_is_ours(command: &str) -> (r: bool)
    ensures
        r == ours(command@),
{
    let c = text::trim_end(command);
    text::has(c.as_str(), LEGACY_HOOK_MARKER) || (text::has(c.as_str(), "diffier")
        && text::ends_with(c.as_str(), "' hook"))
}

/// Whether a hook of a group runs our hook.
pub open spec fn hook_ours(hook: Tree) -> bool {
    match json::text_at(hook, "command"@) {
        Some(c) => ours(c),
        None => false,
    }
}

/// Whether a group of hooks holds our hook.
pub open spec fn group_ours(group: Tree) -> bool {
    match json::child(group, "hooks"@) {
        Some(h) => match json::items_of(h) {
            Some(hooks) => some_ours(hooks),
            None => false,
        },
        None => false,
    }
}

/// Whether one of some hooks runs our hook.
pub open spec fn some_ours(hooks: Seq<Tree>) -> bool {
    exists|i: int| 0 <= i < hooks.len() && hook_ours(#[trigger] hooks[i])
}

fn any_ours(hooks: &Vec<Json>) -> (r: bool)
    ensures
        r == some_ours(json::trees(hooks@)),
{
    let ghost all = json::trees(hooks@);
    proof {
        json::lemma_trees(hooks@);
    }
    let mut i: usize = 0;
    while i < hooks.len()
        invariant
            i <= hooks@.len(),
            all == json::trees(hooks@),
            all.len() == hooks@.len(),
            forall|k: int| 0 <= k < hooks@.len() ==> #[trigger] all[k] == json::tree(hooks@[k]),
            forall|k: int| 0 <= k < i ==> !hook_ours(#[trigger] all[k]),
        decreases hooks@.len() - i,
    {
        assert(all[i as int] == json::tree(hooks@[i as int]));
        if let Some(c) = hooks[i].str_at("command") {
            if command_is_ours(c) {
                assert(hook_ours(all[i as int]));
                return true;
            }
        }
        i += 1;
    }
    false
}

/// Whether a group of hooks holds our hook.
pub fn group_is_ours(group: &Json) -> (r: bool)
    ensures
        r == group_ours(group@),
{
    match group.get("hooks") {
        Some(h) => match h.as_array() {
            Some(v) => any_ours(v),
            None => false,
        },
        None => false,
    }
}

/// `path` with each single quote closed, escaped and opened again.
pub open spec fn escaped(path: Seq<char>) -> Seq<char>
    decreases path.len(),
{
    if path.len() == 0 {
        Seq::empty()
    } else if path.last() == '\'' {
        escaped(path.drop_last()) + "'\\''"@
    } else {
        escaped(path.drop_last()).push(path.last())
    }
}

/// A path in single quotes.
pub open spec fn quoted(path: Seq<char>) -> Seq<char> {
    "'"@ + escaped(path) + "'"@
}

/// The command the agent runs.
pub open spec fn command_for(exe: Seq<char>) -> Seq<char> {
    quoted(exe) + " hook"@
}

/// Wrap a path in single quotes for the shell the agent runs hooks in, so a
/// home directory with a space or a metacharacter still resolves.
pub fn shell_quote(path: &str) -> (r: String)
    ensures
        r@ == quoted(path@),
{
    let v = text::chars_of(path);
    let mut s = String::new();
    let mut i: usize = 0;
    assert(v@.take(0) =~= Seq::empty());
    while i < v.len()
        invariant
            i <= v@.len(),
            s@ == escaped(v@.take(i as int)),
        decreases v@.len() - i,
    {
        assert(v@.take(i + 1).drop_last() =~= v@.take(i as int));
        if v[i] == '\'' {
            s.append("'\\''");
        } else {
            s.push(v[i]);
        }
        i += 1;
    }
    assert(v@.take(i as int) =~= v@);
    let mut r = "'".to_owned();
    r.append(s.as_str());
    r.append("'");
    r
}

/// The command the agent runs: the binary by absolute path, so it works
/// without `~/.cargo/bin` on PATH, followed by the `hook` subcommand.
pub fn hook_command(exe: &str) -> (r: String)
    ensures
        r@ == command_for(exe@),
{
    let mut r = shell_quote(exe);
    r.append(" hook");
    r
}

/// The hook of our groups.
pub open spec fn our_hook(exe: Seq<char>) -> Tree {
    Tree::Object(
        Map::empty().insert("type"@, Tree::Text("command"@)).insert(
            "command"@,
            Tree::Text(command_for(exe)),
        ).insert("timeout"@, Tree::Number(json::number(HOOK_TIMEOUT_SECS))),
    )
}

/// Our group of hooks for an event.
pub open spec fn group_for(matcher: Option<Seq<char>>, exe: Seq<char>) -> Tree {
    let m = match matcher {
        Some(s) => Map::empty().insert("matcher"@, Tree::Text(s)),
        None => Map::empty(),
    };
    Tree::Object(m.insert("hooks"@, Tree::Array(seq![our_hook(exe)])))
}

/// Our group of hooks for an event.
pub fn our_group(matcher: Option<&str>, exe: &str) -> (r: Json)
    ensures
        r@ == group_for(
            match matcher {
                Some(s) => Some(s@),
                None => None,
            },
            exe@,
        ),
{
    let mut hook: Vec<(String, Json)> = Vec::new();
    json::set(&mut hook, "type", Json::Text("command".to_owned()));
    json::set(&mut hook, "command", Json::Text(hook_command(exe)));
    json::set(&mut hook, "timeout", Json::Number(json::number_of(HOOK_TIMEOUT_SECS)));
    let mut hooks: Vec<Json> = Vec::new();
    let hook = Json::Object(hook);
    let ghost h = hook@;
    hooks.push(hook);
    proof {
        json::lemma_trees(hooks@);
        assert(json::trees(hooks@)[0] == h);
        assert(json::trees(hooks@) =~= seq![our_hook(exe@)]);
    }
    let mut group: Vec<(String, Json)> = Vec::new();
    if let Some(m) = matcher {
        json::set(&mut group, "matcher", Json::Text(m.to_owned()));
    }
    json::set(&mut group, "hooks", Json::Array(hooks));
    Json::Object(group)
}

/// The groups that are not ours.
pub open spec fn others(groups: Seq<Tree>) -> Seq<Tree>
    decreases groups.len(),
{
    if groups.len() == 0 {
        Seq::empty()
    } else if group_ours(groups.last()) {
        others(groups.drop_last())
    } else {
        others(groups.drop_last()).push(groups.last())
    }
}

/// The groups that are not ours.
fn drop_ours(groups: Vec<Json>) -> (r: Vec<Json>)
    ensures
        json::trees(r@) == others(json::trees(groups@)),
{
    let ghost all = json::trees(groups@);
    let ghost items = groups@;
    proof {
        json::lemma_trees(items);
    }
    let mut out: Vec<Json> = Vec::new();
    assert(all.take(0) =~= Seq::empty());
    assert(json::trees(out@) =~= Seq::empty());
    for g in it: groups
        invariant
            it.seq() == items,
            all == json::trees(items),
            all.len() == items.len(),
            forall|k: int| 0 <= k < items.len() ==> #[trigger] all[k] == json::tree(items[k]),
            json::trees(out@) == others(all.take(it.index() as int)),
    {
        let ghost i = it.index() as int;
        proof {
            assert(all.take(i + 1).drop_last() =~= all.take(i));
            assert(all[i] == json::tree(items[i]));
        }
        if !group_is_ours(&g) {
            let ghost before = out@;
            out.push(g);
            assert(out@.drop_last() =~= before);
        }
    }
    assert(all.take(all.len() as int) =~= all);
    out
}

/// The entries of an object; none of anything else.
pub open spec fn object_of(t: Option<Tree>) -> Map<Seq<char>, Tree> {
    match t {
        Some(Tree::Object(m)) => m,
        _ => Map::empty(),
    }
}

/// The items of an array; none of anything else.
pub open spec fn array_of(t: Option<Tree>) -> Seq<Tree> {
    match t {
        Some(Tree::Array(s)) => s,
        _ => Seq::empty(),
    }
}

/// What stands under `key`.
pub open spec fn at(m: Map<Seq<char>, Tree>, key: Seq<char>) -> Option<Tree> {
    if m.contains_key(key) {
        Some(m[key])
    } else {
        None
    }
}

/// Hooks with our group as the last one of an event.
pub open spec fn registered(
    hooks: Map<Seq<char>, Tree>,
    name: Seq<char>,
    matcher: Option<Seq<char>>,
    exe: Seq<char>,
) -> Map<Seq<char>, Tree> {
    hooks.insert(
        name,
        Tree::Array(others(array_of(at(hooks, name))).push(group_for(matcher, exe))),
    )
}

/// Hooks with our groups for all our events.
pub open spec fn all_registered(hooks: Map<Seq<char>, Tree>, exe: Seq<char>) -> Map<
    Seq<char>,
    Tree,
> {
    let a = registered(hooks, "PreToolUse"@, Some(TOOL_MATCHER@), exe);
    let b = registered(a, "PostToolUse"@, Some(TOOL_MATCHER@), exe);
    registered(b, "SessionStart"@, None, exe)
}

/// Settings with our hooks registered. Everything else is preserved.
pub open spec fn merged(settings: Tree, exe: Seq<char>) -> Tree {
    let root = object_of(Some(settings));
    Tree::Object(
        root.insert(
            "hooks"@,
            Tree::Object(all_registered(object_of(at(root, "hooks"@)), exe)),
        ),
    )
}

/// Adds or refreshes our group of one event.
fn register(hooks: &mut Vec<(String, Json)>, name: &str, matcher: Option<&str>, exe: &str)
    ensures
        json::entries(final(hooks)@) == registered(
            json::entries(old(hooks)@),
            name@,
            match matcher {
                Some(s) => Some(s@),
                None => None,
            },
            exe@,
        ),
{
    let ghost m = json::entries(hooks@);
    let list = match json::take(hooks, name) {
        Some(Json::Array(v)) => v,
        _ => Vec::new(),
    };
    proof {
        assert(json::trees(list@) =~= array_of(at(m, name@)));
    }
    let mut list = drop_ours(list);
    let ghost kept = list@;
    list.push(our_group(matcher, exe));
    proof {
        assert(list@.drop_last() =~= kept);
    }
    let value = Json::Array(list);
    json::set(hooks, name, value);
    proof {
        assert(m.remove(name@).insert(name@, value@) =~= m.insert(name@, value@));
    }
}

/// The entries of a document that is an object; none of any other.
fn into_entries(j: Option<Json>) -> (r: Vec<(String, Json)>)
    ensures
        json::entries(r@) == object_of(event::opt_tree(j)),
{
    match j {
        Some(Json::Object(es)) => es,
        _ => {
            let es: Vec<(String, Json)> = Vec::new();
            assert(json::entries(es@) =~= Map::empty());
            es
        },
    }
}

/// Add or refresh our hook groups. Everything else in `settings` is preserved.
pub fn merge_hooks(settings: &mut Json, exe: &str)
    ensures
        final(settings)@ == merged(old(settings)@, exe@),
{
    let mut taken = Json::Null;
    std::mem::swap(&mut taken, settings);
    let mut root = into_entries(Some(taken));
    let ghost m = json::entries(root@);
    let mut hooks = into_entries(json::take(&mut root, "hooks"));
    register(&mut hooks, "PreToolUse", Some(TOOL_MATCHER), exe);
    register(&mut hooks, "PostToolUse", Some(TOOL_MATCHER), exe);
    register(&mut hooks, "SessionStart", None, exe);
    let value = Json::Object(hooks);
    json::set(&mut root, "hooks", value);
    proof {
        assert(m.remove("hooks"@).insert("hooks"@, value@) =~= m.insert("hooks"@, value@));
    }
    *settings = Json::Object(root);
}

/// What is left of an event's groups without ours; nothing when none is left.
pub open spec fn kept_value(t: Tree) -> Option<Tree> {
    match t {
        Tree::Array(groups) => if others(groups).len() == 0 {
            None
        } else {
            Some(Tree::Array(others(groups)))
        },
        _ => Some(t),
    }
}

/// Hooks without our groups, and without the events that leaves empty.
pub open spec fn pruned(hooks: Map<Seq<char>, Tree>) -> Map<Seq<char>, Tree> {
    Map::new(
        |k: Seq<char>| hooks.contains_key(k) && kept_value(hooks[k]) is Some,
        |k: Seq<char>| kept_value(hooks[k])->0,
    )
}

/// Settings without our hooks; `hooks` goes too when nothing is left in it.
pub open spec fn removed(settings: Tree) -> Tree {
    match settings {
        Tree::Object(m) => match at(m, "hooks"@) {
            Some(Tree::Object(hooks)) => if pruned(hooks) == Map::<Seq<char>, Tree>::empty() {
                Tree::Object(m.remove("hooks"@))
            } else {
                Tree::Object(m.insert("hooks"@, Tree::Object(pruned(hooks))))
            },
            _ => settings,
        },
        _ => settings,
    }
}

/// What is left of an event's groups without ours.
fn prune_value(j: Json) -> (r: Option<Json>)
    ensures
        event::opt_tree(r) == kept_value(j@),
{
    match j {
        Json::Array(groups) => {
            let list = drop_ours(groups);
            proof {
                json::lemma_trees(list@);
            }
            if list.len() == 0 {
                None
            } else {
                Some(Json::Array(list))
            }
        },
        other => Some(other),
    }
}

/// Hooks without our groups.
fn prune(hooks: Vec<(String, Json)>) -> (out: Vec<(String, Json)>)
    ensures
        json::entries(out@) == pruned(json::entries(hooks@)),
{
    let ghost all = json::entries(hooks@);
    let mut rest = hooks;
    let mut out: Vec<(String, Json)> = Vec::new();
    assert(json::entries(out@) =~= Map::empty());
    while rest.len() > 0
        invariant
            all == json::entries(hooks@),
            forall|k: Seq<char>| #[trigger]
                json::entries(rest@).contains_key(k) ==> all.contains_key(k) && all[k]
                    == json::entries(rest@)[k] && !json::entries(out@).contains_key(k),
            forall|k: Seq<char>|
                !json::entries(rest@).contains_key(k) ==> (#[trigger] json::entries(
                    out@,
                ).contains_key(k) <==> pruned(all).contains_key(k)),
            forall|k: Seq<char>| #[trigger]
                json::entries(out@).contains_key(k) ==> json::entries(out@)[k] == pruned(all)[k],
        decreases rest@.len(),
    {
        let n: usize = rest.len();
        let key = rest[n - 1].0.clone();
        let ghost before = json::entries(rest@);
        let ghost done = json::entries(out@);
        proof {
            json::lemma_entries_key(rest@, key@);
            assert(rest@[n - 1].0@ == key@);
            assert(before.contains_key(key@));
        }
        match json::take(&mut rest, key.as_str()) {
            Some(value) => match prune_value(value) {
                Some(v) => {
                    json::set(&mut out, key.as_str(), v);
                    proof {
                        assert forall|k: Seq<char>|
                            !json::entries(rest@).contains_key(k) implies (#[trigger] json::entries(
                            out@,
                        ).contains_key(k) <==> pruned(all).contains_key(k)) by {
                            if k != key@ {
                                assert(!before.contains_key(k));
                                assert(done.contains_key(k) <==> pruned(all).contains_key(k));
                            }
                        }
                    }
                },
                None => {
                    proof {
                        assert forall|k: Seq<char>|
                            !json::entries(rest@).contains_key(k) implies (#[trigger] json::entries(
                            out@,
                        ).contains_key(k) <==> pruned(all).contains_key(k)) by {
                            if k != key@ {
                                assert(!before.contains_key(k));
                            }
                        }
                    }
                },
            },
            None => {},
        }
    }
    proof {
        assert(json::entries(rest@) =~= Map::empty());
        assert(json::entries(out@) =~= pruned(all));
    }
    out
}

/// Remove our hook groups, dropping event arrays and `hooks` when emptied.
pub fn remove_hooks(settings: &mut Json)
    ensures
        final(settings)@ == removed(old(settings)@),
{
    let mut taken = Json::Null;
    std::mem::swap(&mut taken, settings);
    let mut root = match taken {
        Json::Object(es) => es,
        other => {
            *settings = other;
            return;
        },
    };
    let ghost m = json::entries(root@);
    match json::take(&mut root, "hooks") {
        Some(Json::Object(hooks)) => {
            let ghost h = json::entries(hooks@);
            let left = prune(hooks);
            if left.len() > 0 {
                let ghost last = left@.last().0@;
                let value = Json::Object(left);
                proof {
                    json::lemma_entries_key(left@, last);
                    assert(left@[left@.len() - 1].0@ == last);
                    assert(pruned(h).contains_key(last));
                    assert(pruned(h) != Map::<Seq<char>, Tree>::empty());
                }
                json::set(&mut root, "hooks", value);
                assert(m.remove("hooks"@).insert("hooks"@, value@) =~= m.insert(
                    "hooks"@,
                    value@,
                ));
            } else {
                assert(json::entries(left@) =~= Map::empty());
            }
        },
        Some(other) => {
            json::set(&mut root, "hooks", other);
            assert(m.remove("hooks"@).insert("hooks"@, other@) =~= m);
        },
        None => {
            assert(m.remove("hooks"@) =~= m);
        },
    }
    *settings = Json::Object(root);
}

/// Why settings cannot be changed.
#[derive(Debug, Clone, Copy, PartialEq, Eq, Structural)]
pub enum SettingsError {
    /// The file is not valid JSON, so it is not touched.
    NotJson,
}

/// What a settings file holds: nothing when it is missing or blank, and
/// `None` when it is not JSON.
pub open spec fn loaded(file: Option<Seq<char>>) -> Option<Tree> {
    match file {
        Some(s) => if text::trimmed(s).len() == 0 {
            Some(Tree::Object(Map::empty()))
        } else {
            json::parsed_text(s)
        },
        None => Some(Tree::Object(Map::empty())),
    }
}

/// What the settings file says; `None` when there is no file.
pub fn load_settings(file: &Option<String>) -> (r: Result<Json, SettingsError>)
    ensures
        r is Ok <==> loaded(text::opt_text(*file)) is Some,
        r matches Ok(j) ==> loaded(text::opt_text(*file)) == Some(j@),
{
    match file {
        Some(s) => {
            let t = text::trim(s.as_str());
            if t.as_str().is_empty() {
                return Ok(empty_object());
            }
            match Json::parse_text(s.as_str()) {
                Some(j) => Ok(j),
                None => Err(SettingsError::NotJson),
            }
        },
        None => Ok(empty_object()),
    }
}

fn empty_object() -> (r: Json)
    ensures
        r@ == Tree::Object(Map::empty()),
{
    let es: Vec<(String, Json)> = Vec::new();
    assert(json::entries(es@) =~= Map::empty());
    Json::Object(es)
}

/// The text of a settings file.
pub open spec fn settings_text(t: Tree) -> Seq<char> {
    json::pretty_text(t).push('\n')
}

/// Whether `r` is what becomes of a settings file that is to hold `want`: its
/// new text, or `None` when it holds that already.
pub open spec fn is_update(r: Option<String>, was: Tree, want: Tree) -> bool {
    if json::alike(want, was) {
        r is None
    } else {
        r matches Some(s) && s@ == settings_text(want)
    }
}

fn update(was: &Json, want: &Json) -> (r: Option<String>)
    ensures
        is_update(r, was@, want@),
        r matches Some(s) ==> (json::whole(want@) && json::nests_within(want@, 127)
            ==> json::parsed_text(s@) == Some(want@)),
{
    if json::same_json(want, was) {
        None
    } else {
        let mut s = want.to_pretty();
        s.push('\n');
        Some(s)
    }
}

/// What `install` makes of a settings file: its new text, or `None` when our
/// hooks are registered already. A file that is not JSON is an error.
pub fn install(file: &Option<String>, exe: &str) -> (r: Result<Option<String>, SettingsError>)
    ensures
        r is Err <==> loaded(text::opt_text(*file)) is None,
        r matches Ok(s) ==> ({
            let was = loaded(text::opt_text(*file))->0;
            &&& is_update(s, was, merged(was, exe@))
            &&& s matches Some(x) ==> (json::whole(merged(was, exe@)) && json::nests_within(
                merged(was, exe@),
                127,
            ) ==> json::parsed_text(x@) == Some(merged(was, exe@)))
        }),
{
    match load_settings(file) {
        Ok(was) => {
            let mut want = was.copy();
            merge_hooks(&mut want, exe);
            Ok(update(&was, &want))
        },
        Err(e) => Err(e),
    }
}

/// What `uninstall` makes of a settings file: its new text, or `None` when it
/// holds no hook of ours. A file that is not JSON is an error.
pub fn uninstall(file: &Option<String>) -> (r: Result<Option<String>, SettingsError>)
    ensures
        r is Err <==> loaded(text::opt_text(*file)) is None,
        r matches Ok(s) ==> ({
            let was = loaded(text::opt_text(*file))->0;
            &&& is_update(s, was, removed(was))
            &&& s matches Some(x) ==> (json::whole(removed(was)) && json::nests_within(
                removed(was),
                127,
            ) ==> json::parsed_text(x@) == Some(removed(was)))
        }),
{
    match load_settings(file) {
        Ok(was) => {
            let mut want = was.copy();
            remove_hooks(&mut want);
            Ok(update(&was, &want))
        },
        Err(e) => Err(e),
    }
}

proof fn lemma_escaped_join(a: Seq<char>, b: Seq<char>)
    ensures
        escaped(a + b) == escaped(a) + escaped(b),
    decreases b.len(),
{
    if b.len() == 0 {
        assert(a + b =~= a);
        assert(escaped(a) + escaped(b) =~= escaped(a));
    } else {
        assert((a + b).drop_last() =~= a + b.drop_last());
        lemma_escaped_join(a, b.drop_last());
        assert(escaped(a + b) =~= escaped(a) + escaped(b));
    }
}

proof fn lemma_escaped_plain(p: Seq<char>)
    requires
        forall|i: int| 0 <= i < p.len() ==> p[i] != '\'',
    ensures
        escaped(p) == p,
    decreases p.len(),
{
    if p.len() > 0 {
        assert forall|i: int| 0 <= i < p.drop_last().len() implies p.drop_last()[i] != '\'' by {
            assert(p.drop_last()[i] == p[i]);
        }
        lemma_escaped_plain(p.drop_last());
        assert(escaped(p) =~= p);
    } else {
        assert(escaped(p) =~= p);
    }
}

/// The command for a binary called `diffier`, wherever it is, is recognized as
/// ours, whatever quotes and spaces its path has.
pub proof fn law_our_command_is_recognized(exe: Seq<char>)
    requires
        text::contains(exe, "diffier"@),
    ensures
        ours(command_for(exe)),
{
    reveal_strlit("diffier");
    reveal_strlit("'");
    reveal_strlit(" hook");
    reveal_strlit("' hook");
    let d = "diffier"@;
    let i = choose|i: int| text::stands_at(exe, d, i);
    let a = exe.take(i);
    let b = exe.skip(i + d.len());
    assert(exe =~= a + d + b);
    lemma_escaped_join(a + d, b);
    lemma_escaped_join(a, d);
    lemma_escaped_plain(d);
    let cmd = command_for(exe);
    let at = 1 + escaped(a).len() as int;
    assert(cmd.subrange(at, at + d.len()) =~= d);
    assert(text::stands_at(cmd, d, at));
    assert(cmd.last() == 'k');
    assert(text::trimmed_end(cmd) == cmd);
    assert(cmd.subrange(cmd.len() - 6, cmd.len() as int) =~= "' hook"@);
}

proof fn lemma_our_group(matcher: Option<Seq<char>>, exe: Seq<char>)
    requires
        text::contains(exe, "diffier"@),
    ensures
        group_ours(group_for(matcher, exe)),
{
    law_our_command_is_recognized(exe);
    reveal_strlit("timeout");
    reveal_strlit("command");
    reveal_strlit("type");
    assert("timeout"@[0] != "command"@[0]);
    let hooks = seq![our_hook(exe)];
    assert(json::text_at(our_hook(exe), "command"@) == Some(command_for(exe)));
    assert(hook_ours(hooks[0]));
    assert(some_ours(hooks));
}

proof fn lemma_others_twice(groups: Seq<Tree>)
    ensures
        others(others(groups)) == others(groups),
        forall|i: int| 0 <= i < others(groups).len() ==> !group_ours(#[trigger] others(groups)[i]),
    decreases groups.len(),
{
    if groups.len() > 0 {
        let front = groups.drop_last();
        lemma_others_twice(front);
        if !group_ours(groups.last()) {
            assert(others(groups).drop_last() =~= others(front));
        }
    }
}

proof fn lemma_others_push(groups: Seq<Tree>, g: Tree)
    requires
        group_ours(g),
    ensures
        others(groups.push(g)) == others(groups),
{
    assert(groups.push(g).drop_last() =~= groups);
}

proof fn lemma_names_differ()
    ensures
        "PreToolUse"@ != "PostToolUse"@,
        "PreToolUse"@ != "SessionStart"@,
        "PostToolUse"@ != "SessionStart"@,
{
    reveal_strlit("PreToolUse");
    reveal_strlit("PostToolUse");
    reveal_strlit("SessionStart");
    assert("PreToolUse"@.len() == 10);
    assert("PostToolUse"@.len() == 11);
    assert("SessionStart"@.len() == 12);
}

/// Installing again replaces our hooks rather than adding to them: only the
/// last binary counts, and with the same one nothing changes.
pub proof fn law_merging_again_replaces(settings: Tree, first: Seq<char>, second: Seq<char>)
    requires
        text::contains(first, "diffier"@),
    ensures
        merged(merged(settings, first), second) == merged(settings, second),
{
    lemma_names_differ();
    let root = object_of(Some(settings));
    let h = object_of(at(root, "hooks"@));
    let h1 = all_registered(h, first);
    let m = Some(TOOL_MATCHER@);
    lemma_our_group(m, first);
    lemma_our_group(None, first);
    lemma_event_again(h, h1, "PreToolUse"@, m, first);
    lemma_event_again(h, h1, "PostToolUse"@, m, first);
    lemma_event_again(h, h1, "SessionStart"@, None, first);
    assert(all_registered(h1, second) =~= all_registered(h, second));
    let once = root.insert("hooks"@, Tree::Object(h1));
    assert(once.insert("hooks"@, Tree::Object(all_registered(h, second))) =~= root.insert(
        "hooks"@,
        Tree::Object(all_registered(h, second)),
    ));
}

proof fn lemma_event_again(
    h: Map<Seq<char>, Tree>,
    h1: Map<Seq<char>, Tree>,
    name: Seq<char>,
    matcher: Option<Seq<char>>,
    exe: Seq<char>,
)
    requires
        group_ours(group_for(matcher, exe)),
        h1.contains_key(name),
        h1[name] == Tree::Array(others(array_of(at(h, name))).push(group_for(matcher, exe))),
    ensures
        others(array_of(at(h1, name))) == others(array_of(at(h, name))),
{
    let o = others(array_of(at(h, name)));
    lemma_others_push(o, group_for(matcher, exe));
    lemma_others_twice(array_of(at(h, name)));
}

/// Installing leaves everything else in the settings as it is: other keys,
/// other events, and the groups of others, which stay in order before ours.
pub proof fn law_merging_preserves_the_rest(settings: Map<Seq<char>, Tree>, exe: Seq<char>)
    ensures
        forall|k: Seq<char>|
            k != "hooks"@ && settings.contains_key(k) ==> json::child(
                merged(Tree::Object(settings), exe),
                k,
            ) == Some(#[trigger] settings[k]),
        ({
            let was = object_of(at(settings, "hooks"@));
            let now = object_of(json::child(merged(Tree::Object(settings), exe), "hooks"@));
            &&& forall|k: Seq<char>|
                k != "PreToolUse"@ && k != "PostToolUse"@ && k != "SessionStart"@ ==> at(now, k)
                    == #[trigger] at(was, k)
            &&& array_of(at(now, "PreToolUse"@)).drop_last() == others(
                array_of(at(was, "PreToolUse"@)),
            )
            &&& array_of(at(now, "PostToolUse"@)).drop_last() == others(
                array_of(at(was, "PostToolUse"@)),
            )
            &&& array_of(at(now, "SessionStart"@)).drop_last() == others(
                array_of(at(was, "SessionStart"@)),
            )
        }),
{
    lemma_names_differ();
    let was = object_of(at(settings, "hooks"@));
    let now = all_registered(was, exe);
    let m = Some(TOOL_MATCHER@);
    let a = others(array_of(at(was, "PreToolUse"@)));
    let b = others(array_of(at(was, "PostToolUse"@)));
    let c = others(array_of(at(was, "SessionStart"@)));
    assert(a.push(group_for(m, exe)).drop_last() =~= a);
    assert(b.push(group_for(m, exe)).drop_last() =~= b);
    assert(c.push(group_for(None, exe)).drop_last() =~= c);
}

/// Whether settings hold none of our groups, and nothing empty that would be
/// taken for what we left behind.
pub open spec fn untouched(settings: Map<Seq<char>, Tree>) -> bool {
    settings.contains_key("hooks"@) ==> (settings["hooks"@] matches Tree::Object(h)
        && plain_hooks(h))
}

/// Whether hooks hold none of our groups and are not empty, nor is a list of
/// theirs; our events have lists if anything.
pub open spec fn plain_hooks(h: Map<Seq<char>, Tree>) -> bool {
    &&& exists|k: Seq<char>| #[trigger] h.contains_key(k)
    &&& forall|k: Seq<char>| #[trigger]
        h.contains_key(k) ==> (h[k] matches Tree::Array(s) ==> s.len() > 0 && others(s) == s)
    &&& h.contains_key("PreToolUse"@) ==> h["PreToolUse"@] is Array
    &&& h.contains_key("PostToolUse"@) ==> h["PostToolUse"@] is Array
    &&& h.contains_key("SessionStart"@) ==> h["SessionStart"@] is Array
}

proof fn lemma_pruned_event(
    h: Map<Seq<char>, Tree>,
    h1: Map<Seq<char>, Tree>,
    name: Seq<char>,
    matcher: Option<Seq<char>>,
    exe: Seq<char>,
)
    requires
        group_ours(group_for(matcher, exe)),
        h1.contains_key(name),
        h1[name] == Tree::Array(others(array_of(at(h, name))).push(group_for(matcher, exe))),
        h.contains_key(name) ==> (h[name] matches Tree::Array(s) && s.len() > 0 && others(s) == s),
    ensures
        kept_value(h1[name]) == at(h, name),
{
    lemma_event_again(h, h1, name, matcher, exe);
    if !h.contains_key(name) {
        assert(others(Seq::<Tree>::empty()) =~= Seq::empty());
    }
}

/// Uninstalling undoes installing: settings without hooks of ours and without
/// empty lists come back as they were.
pub proof fn law_removing_undoes_merging(settings: Map<Seq<char>, Tree>, exe: Seq<char>)
    requires
        text::contains(exe, "diffier"@),
        untouched(settings),
    ensures
        removed(merged(Tree::Object(settings), exe)) == Tree::Object(settings),
{
    lemma_names_differ();
    let h = object_of(at(settings, "hooks"@));
    let h1 = all_registered(h, exe);
    let m = Some(TOOL_MATCHER@);
    lemma_our_group(m, exe);
    lemma_our_group(None, exe);
    lemma_pruned_event(h, h1, "PreToolUse"@, m, exe);
    lemma_pruned_event(h, h1, "PostToolUse"@, m, exe);
    lemma_pruned_event(h, h1, "SessionStart"@, None, exe);
    assert forall|k: Seq<char>| #[trigger] h1.contains_key(k) implies kept_value(h1[k]) == at(
        h,
        k,
    ) by {
        if k != "PreToolUse"@ && k != "PostToolUse"@ && k != "SessionStart"@ {
            assert(h.contains_key(k));
            assert(h1[k] == h[k]);
        }
    }
    assert(pruned(h1) =~= h);
    let once = settings.insert("hooks"@, Tree::Object(h1));
    if settings.contains_key("hooks"@) {
        let k = choose|k: Seq<char>| #[trigger] h.contains_key(k);
        assert(h.contains_key(k));
        assert(h != Map::<Seq<char>, Tree>::empty());
        assert(once.insert("hooks"@, Tree::Object(h)) =~= settings);
    } else {
        assert(once.remove("hooks"@) =~= settings);
    }
}

/// Uninstalling leaves no hook of ours behind.
pub proof fn law_removing_leaves_none_of_ours(
    hooks: Map<Seq<char>, Tree>,
    name: Seq<char>,
    i: int,
)
    requires
        pruned(hooks).contains_key(name),
        0 <= i < array_of(at(pruned(hooks), name)).len(),
    ensures
        !group_ours(array_of(at(pruned(hooks), name))[i]),
{
    if let Tree::Array(groups) = hooks[name] {
        lemma_others_twice(groups);
    }
}

/// Uninstalling twice changes nothing more.
pub proof fn law_removing_twice(settings: Tree)
    ensures
        removed(removed(settings)) == removed(settings),
{
    if let Tree::Object(m) = settings {
        if let Some(Tree::Object(hooks)) = at(m, "hooks"@) {
            let p = pruned(hooks);
            assert forall|k: Seq<char>| #[trigger] p.contains_key(k) implies kept_value(p[k])
                == Some(p[k]) by {
                if let Tree::Array(groups) = hooks[k] {
                    lemma_others_twice(groups);
                }
            }
            assert(pruned(p) =~= p);
            if p != Map::<Seq<char>, Tree>::empty() {
                let once = m.insert("hooks"@, Tree::Object(p));
                assert(once.insert("hooks"@, Tree::Object(p)) =~= once);
            }
        }
    }
}

/// A command that does not name diffier is not ours, and neither is one that
/// names it but is neither the old script nor a call of `hook`. The old script
/// is ours, wherever it stands in a command.
pub proof fn law_only_commands_that_name_diffier_are_ours(command: Seq<char>)
    ensures
        !text::contains(command, "diffier"@) ==> !ours(command),
        text::contains(command, "diffier.sh"@) ==> ours(command),
        !text::contains(command, "diffier.sh"@) && !text::contains(command, "' hook"@) ==> !ours(
            command,
        ),
{
    let c = text::trimmed_end(command);
    let d = "diffier"@;
    let old_script = "diffier.sh"@;
    let call = "' hook"@;
    text::law_trimming_the_end(command);
    reveal_strlit("diffier");
    reveal_strlit("diffier.sh");
    reveal_strlit("' hook");
    assert forall|p: Seq<char>, i: int| #[trigger] text::stands_at(c, p, i) implies text::stands_at(
        command,
        p,
        i,
    ) by {
        assert(command.subrange(i, i + p.len()) =~= c.subrange(i, i + p.len()));
    }
    if ours(command) && text::contains(c, old_script) {
        let i = choose|i: int| text::stands_at(c, old_script, i);
        assert(text::stands_at(command, old_script, i));
        assert(command.subrange(i, i + d.len()) =~= old_script.subrange(0, d.len() as int)) by {
            assert(command.subrange(i, i + old_script.len()) == old_script);
            assert forall|k: int| 0 <= k < d.len() implies command[i + k] == old_script[k] by {
                assert(command.subrange(i, i + old_script.len())[k] == old_script[k]);
            }
        }
        assert(old_script.subrange(0, d.len() as int) =~= d);
        assert(text::stands_at(command, d, i));
    } else if ours(command) {
        let i = choose|i: int| text::stands_at(c, d, i);
        assert(text::stands_at(command, d, i));
        assert(text::stands_at(c, call, c.len() - call.len()));
    }
    if text::contains(command, old_script) {
        let i = choose|i: int| text::stands_at(command, old_script, i);
        let n = i + old_script.len();
        assert(command.subrange(i, n)[9] == old_script[9]);
        assert(command[n - 1] == 'h');
        assert(n <= c.len()) by {
            if n > c.len() {
                assert(text::blank(command[n - 1]));
            }
        }
        assert(c.subrange(i, n) =~= command.subrange(i, n));
        assert(text::stands_at(c, old_script, i));
    }
}

/// Whether no command of a group of hooks names diffier.
pub open spec fn foreign(group: Tree) -> bool {
    match json::child(group, "hooks"@) {
        Some(Tree::Array(hooks)) => forall|i: int|
            0 <= i < hooks.len() ==> (json::text_at(#[trigger] hooks[i], "command"@) matches Some(c)
                ==> !text::contains(c, "diffier"@)),
        _ => true,
    }
}

proof fn lemma_foreign(group: Tree)
    requires
        foreign(group),
    ensures
        !group_ours(group),
{
    if group_ours(group) {
        let hooks = json::items_of(json::child(group, "hooks"@)->0)->0;
        let i = choose|i: int| 0 <= i < hooks.len() && hook_ours(#[trigger] hooks[i]);
        law_only_commands_that_name_diffier_are_ours(json::text_at(hooks[i], "command"@)->0);
    }
}

/// Where group `i` is among those that are left.
spec fn left_at(groups: Seq<Tree>, i: int) -> int {
    others(groups.take(i)).len() as int
}

proof fn lemma_left(groups: Seq<Tree>, i: int)
    requires
        0 <= i < groups.len(),
        foreign(groups[i]),
    ensures
        0 <= left_at(groups, i) < others(groups).len(),
        others(groups)[left_at(groups, i)] == groups[i],
        forall|j: int|
            i < j <= groups.len() ==> left_at(groups, i) < others(#[trigger] groups.take(j)).len(),
    decreases groups.len(),
{
    lemma_foreign(groups[i]);
    let front = groups.drop_last();
    assert(groups.take(groups.len() as int) =~= groups);
    if i < groups.len() - 1 {
        assert(front[i] == groups[i]);
        lemma_left(front, i);
        assert(front.take(i) =~= groups.take(i));
        assert forall|j: int| i < j <= groups.len() implies left_at(groups, i) < others(
            #[trigger] groups.take(j),
        ).len() by {
            if j < groups.len() {
                assert(front.take(j) =~= groups.take(j));
            }
        }
    } else {
        assert(groups.take(i) =~= front);
    }
}

/// The groups that settings hold for an event.
pub open spec fn groups_at(settings: Tree, event: Seq<char>) -> Seq<Tree> {
    match json::child(settings, "hooks"@) {
        Some(h) => match json::child(h, event) {
            Some(Tree::Array(s)) => s,
            _ => Seq::empty(),
        },
        None => Seq::empty(),
    }
}

/// The hooks of others survive: a group in which no command names diffier is
/// still there after installing and after uninstalling, and two of them in the
/// same order.
pub proof fn law_the_hooks_of_others_survive(
    settings: Map<Seq<char>, Tree>,
    exe: Seq<char>,
    event: Seq<char>,
    i: int,
    j: int,
)
    requires
        0 <= i < j < groups_at(Tree::Object(settings), event).len(),
        foreign(groups_at(Tree::Object(settings), event)[i]),
        foreign(groups_at(Tree::Object(settings), event)[j]),
    ensures
        ({
            let was = groups_at(Tree::Object(settings), event);
            let now = groups_at(merged(Tree::Object(settings), exe), event);
            exists|p: int, q: int|
                0 <= p < q < now.len() && #[trigger] now[p] == was[i] && #[trigger] now[q] == was[j]
        }),
        ({
            let was = groups_at(Tree::Object(settings), event);
            let now = groups_at(removed(Tree::Object(settings)), event);
            exists|p: int, q: int|
                0 <= p < q < now.len() && #[trigger] now[p] == was[i] && #[trigger] now[q] == was[j]
        }),
{
    lemma_names_differ();
    let was = groups_at(Tree::Object(settings), event);
    let h = settings["hooks"@]->Object_0;
    lemma_left(was, i);
    lemma_left(was, j);
    let p = left_at(was, i);
    let q = left_at(was, j);
    assert(p < others(was.take(j)).len());
    let now = groups_at(merged(Tree::Object(settings), exe), event);
    lemma_registered_at(h, exe, event);
    if event == "PreToolUse"@ || event == "PostToolUse"@ || event == "SessionStart"@ {
        assert(now.drop_last() =~= others(was));
        assert(now[p] == now.drop_last()[p] && now[q] == now.drop_last()[q]);
    } else {
        assert(now == was);
        assert(now[i] == was[i] && now[j] == was[j]);
    }
    let gone = groups_at(removed(Tree::Object(settings)), event);
    assert(kept_value(h[event]) == Some(Tree::Array(others(was))));
    assert(pruned(h).contains_key(event));
    assert(gone == others(was));
    assert(gone[p] == was[i] && gone[q] == was[j]);
}

proof fn lemma_registered_at(h: Map<Seq<char>, Tree>, exe: Seq<char>, event: Seq<char>)
    ensures
        ({
            let now = all_registered(h, exe);
            if event == "PreToolUse"@ || event == "PostToolUse"@ {
                now.contains_key(event) && now[event] == Tree::Array(
                    others(array_of(at(h, event))).push(group_for(Some(TOOL_MATCHER@), exe)),
                )
            } else if event == "SessionStart"@ {
                now.contains_key(event) && now[event] == Tree::Array(
                    others(array_of(at(h, event))).push(group_for(None, exe)),
                )
            } else {
                at(now, event) == at(h, event)
            }
        }),
{
    lemma_names_differ();
}

/// One group of hooks that is not ours survives, wherever it stands.
pub proof fn law_a_foreign_group_survives(
    settings: Map<Seq<char>, Tree>,
    exe: Seq<char>,
    event: Seq<char>,
    i: int,
)
    requires
        0 <= i < groups_at(Tree::Object(settings), event).len(),
        foreign(groups_at(Tree::Object(settings), event)[i]),
    ensures
        groups_at(merged(Tree::Object(settings), exe), event).contains(
            groups_at(Tree::Object(settings), event)[i],
        ),
        groups_at(removed(Tree::Object(settings)), event).contains(
            groups_at(Tree::Object(settings), event)[i],
        ),
{
    lemma_names_differ();
    let was = groups_at(Tree::Object(settings), event);
    let h = settings["hooks"@]->Object_0;
    lemma_left(was, i);
    let p = left_at(was, i);
    let now = groups_at(merged(Tree::Object(settings), exe), event);
    lemma_registered_at(h, exe, event);
    if event == "PreToolUse"@ || event == "PostToolUse"@ || event == "SessionStart"@ {
        assert(now.drop_last() =~= others(was));
        assert(now[p] == now.drop_last()[p]);
    } else {
        assert(now[i] == was[i]);
    }
    let gone = groups_at(removed(Tree::Object(settings)), event);
    assert(kept_value(h[event]) == Some(Tree::Array(others(was))));
    assert(pruned(h).contains_key(event));
    assert(gone[p] == was[i]);
}

/// Installing registers the binary once for each of three events, behind what
/// is there: for the four tools that edit files before and after their use,
/// and for every session that starts. Each hook is the command with five
/// seconds to run.
pub proof fn law_installing_registers_the_binary(settings: Tree, exe: Seq<char>, event: Seq<char>)
    requires
        event == "PreToolUse"@ || event == "PostToolUse"@ || event == "SessionStart"@,
    ensures
        ({
            let groups = groups_at(merged(settings, exe), event);
            let group = groups.last();
            &&& groups.len() > 0
            &&& json::child(group, "matcher"@) == (if event == "SessionStart"@ {
                None
            } else {
                Some(Tree::Text("^(Edit|Write|MultiEdit|NotebookEdit)$"@))
            })
            &&& json::child(group, "hooks"@) matches Some(Tree::Array(hooks)) && hooks.len() == 1
                && json::child(hooks[0], "type"@) == Some(Tree::Text("command"@)) && json::child(
                hooks[0],
                "timeout"@,
            ) == Some(Tree::Number(json::number(5))) && (json::text_at(
                hooks[0],
                "command"@,
            ) matches Some(c) && runs_hook_of(c, exe))
        }),
        json::child(merged(settings, exe), "hooks"@) is Some,
{
    lemma_names_differ();
    reveal_strlit("SessionStart");
    reveal_strlit("PreToolUse");
    reveal_strlit("PostToolUse");
    reveal_strlit("matcher");
    reveal_strlit("hooks");
    reveal_strlit("timeout");
    reveal_strlit("command");
    reveal_strlit("type");
    assert("matcher"@.len() == 7 && "hooks"@.len() == 5 && "type"@.len() == 4);
    assert("timeout"@[0] != "command"@[0]);
    assert("PreToolUse"@.len() == 10 && "PostToolUse"@.len() == 11 && "SessionStart"@.len() == 12);
    let h = object_of(at(object_of(Some(settings)), "hooks"@));
    lemma_registered_at(h, exe, event);
    law_quoting_is_undone_by_the_shell(exe);
    reveal_strlit(" hook");
    let c = command_for(exe);
    assert(c.take(c.len() - 5) =~= quoted(exe));
    assert(c.skip(c.len() - 5) =~= " hook"@);
}

/// Whether a shell that runs `command` calls `exe` with `hook` as its one
/// argument.
pub open spec fn runs_hook_of(command: Seq<char>, exe: Seq<char>) -> bool {
    let n = command.len() - 5;
    &&& n >= 0
    &&& shell_word(command.take(n), false) == exe
    &&& command.skip(n) == " hook"@
}

/// What a shell makes of one word: single quotes keep everything between them
/// as it is, and a backslash outside of them keeps the next character.
pub open spec fn shell_word(s: Seq<char>, in_quotes: bool) -> Seq<char>
    decreases s.len(),
{
    if s.len() == 0 {
        Seq::empty()
    } else if s[0] == '\'' {
        shell_word(s.skip(1), !in_quotes)
    } else if !in_quotes && s[0] == '\\' && s.len() > 1 {
        seq![s[1]] + shell_word(s.skip(2), false)
    } else {
        seq![s[0]] + shell_word(s.skip(1), in_quotes)
    }
}

proof fn lemma_shell_char(c: char, t: Seq<char>)
    ensures
        c != '\'' ==> shell_word(seq![c] + t, true) == seq![c] + shell_word(t, true),
        shell_word("'\\''"@ + t, true) == seq!['\''] + shell_word(t, true),
{
    reveal_strlit("'\\''");
    if c != '\'' {
        assert((seq![c] + t).skip(1) =~= t);
    }
    let s = "'\\''"@ + t;
    assert(s[0] == '\'' && s[1] == '\\' && s[2] == '\'' && s[3] == '\'');
    let a = s.skip(1);
    let b = a.skip(2);
    assert(a[0] == '\\' && a[1] == '\'' && a.len() > 1);
    assert(b =~= seq!['\''] + t);
    assert(b[0] == '\'');
    assert(b.skip(1) =~= t);
    assert(shell_word(s, true) == shell_word(a, false));
    assert(shell_word(a, false) == seq![a[1]] + shell_word(b, false));
    assert(shell_word(b, false) == shell_word(t, true));
}

proof fn lemma_shell_escaped(path: Seq<char>, t: Seq<char>)
    ensures
        shell_word(escaped(path) + t, true) == path + shell_word(t, true),
    decreases path.len(),
{
    if path.len() == 0 {
        assert(escaped(path) + t =~= t);
        assert(path + shell_word(t, true) =~= shell_word(t, true));
    } else {
        let front = path.drop_last();
        let c = path.last();
        if c == '\'' {
            assert(escaped(path) + t =~= escaped(front) + ("'\\''"@ + t));
            lemma_shell_escaped(front, "'\\''"@ + t);
        } else {
            assert(escaped(path) + t =~= escaped(front) + (seq![c] + t));
            lemma_shell_escaped(front, seq![c] + t);
        }
        lemma_shell_char(c, t);
        assert(front + (seq![c] + shell_word(t, true)) =~= path + shell_word(t, true));
    }
}

/// A quoted path is one word to a shell, and that word is the path, whatever
/// spaces, quotes and backslashes it has.
pub proof fn law_quoting_is_undone_by_the_shell(path: Seq<char>)
    ensures
        shell_word(quoted(path), false) == path,
{
    reveal_strlit("'");
    let q = quoted(path);
    let rest = escaped(path) + "'"@;
    assert(q[0] == '\'');
    assert(q.skip(1) =~= rest);
    lemma_shell_escaped(path, "'"@);
    let end = "'"@;
    assert(end.skip(1) =~= Seq::empty());
    assert(shell_word(end, true) == shell_word(end.skip(1), false));
    assert(path + Seq::empty() =~= path);
}

/// Uninstalling leaves every other setting as it is, and every event that has
/// no list of hooks.
pub proof fn law_removing_preserves_the_rest(
    settings: Map<Seq<char>, Tree>,
    key: Seq<char>,
)
    ensures
        key != "hooks"@ ==> json::child(removed(Tree::Object(settings)), key) == json::child(
            Tree::Object(settings),
            key,
        ),
        settings.contains_key("hooks"@) ==> (settings["hooks"@] matches Tree::Object(h) ==> (
        h.contains_key(key) && !(h[key] is Array) ==> (json::child(
            removed(Tree::Object(settings)),
            "hooks"@,
        ) matches Some(now) && json::child(now, key) == Some(h[key])))),
{
    if settings.contains_key("hooks"@) {
        if let Tree::Object(h) = settings["hooks"@] {
            if h.contains_key(key) && !(h[key] is Array) {
                assert(pruned(h).contains_key(key));
                assert(pruned(h) != Map::<Seq<char>, Tree>::empty());
            }
        }
    }
}

/// A settings file that is missing or blank counts as empty settings, and any
/// other as what it holds.
pub proof fn law_missing_settings_are_empty(file: Option<Seq<char>>)
    ensures
        file is None ==> loaded(file) == Some(Tree::Object(Map::empty())),
        file matches Some(s) ==> (forall|i: int| 0 <= i < s.len() ==> text::blank(#[trigger] s[i]))
            ==> loaded(file) == Some(Tree::Object(Map::empty())),
        file matches Some(s) ==> (exists|i: int|
            0 <= i < s.len() && !text::blank(#[trigger] s[i])) ==> loaded(file)
            == json::parsed_text(s),
{
    if let Some(s) = file {
        text::law_trimming_both_ends(s);
        let (a, b) = choose|a: int, b: int|
            0 <= a <= b <= s.len() && text::trimmed(s) == #[trigger] s.subrange(a, b) && (forall|
                i: int,
            |
                0 <= i < a || b <= i < s.len() ==> text::blank(#[trigger] s[i]));
        let t = text::trimmed(s);
        if t.len() > 0 {
            assert(t[0] == s[a]);
            assert(!text::blank(s[a]));
        }
    }
}

/// A settings file is written only when it changes, and ends in a line feed.
pub proof fn law_unchanged_settings_are_not_written(r: Option<String>, was: Tree, want: Tree)
    requires
        is_update(r, was, want),
    ensures
        json::numberless(want) ==> (r is None <==> was == want),
        r matches Some(s) ==> s@.len() > 0 && s@.last() == '\n' && s@.drop_last()
            == json::pretty_text(want),
{
    if json::numberless(want) {
        json::law_values_are_alike_when_they_are_the_same(want, was);
    }
    assert(settings_text(want).drop_last() =~= json::pretty_text(want));
}

/// A command that names diffier is ours when it ends in `' hook`, white space
/// aside. Apart from the old script no other command is.
pub proof fn law_a_call_of_our_hook_ends_the_command(command: Seq<char>)
    requires
        !text::contains(command, "diffier.sh"@),
    ensures
        ours(command) <==> text::contains(command, "diffier"@) && text::ends(
            text::trimmed_end(command),
            "' hook"@,
        ),
{
    let c = text::trimmed_end(command);
    let d = "diffier"@;
    law_only_commands_that_name_diffier_are_ours(command);
    text::law_trimming_the_end(command);
    reveal_strlit("diffier");
    if text::contains(c, "diffier.sh"@) {
        let i = choose|i: int| text::stands_at(c, "diffier.sh"@, i);
        assert(command.subrange(i, i + "diffier.sh"@.len()) =~= c.subrange(
            i,
            i + "diffier.sh"@.len(),
        ));
        assert(text::stands_at(command, "diffier.sh"@, i));
    }
    if text::contains(command, d) {
        let i = choose|i: int| text::stands_at(command, d, i);
        let n = i + d.len();
        assert(command.subrange(i, n)[6] == d[6]);
        assert(command[n - 1] == 'r');
        assert(n <= c.len()) by {
            if n > c.len() {
                assert(text::blank(command[n - 1]));
            }
        }
        assert(c.subrange(i, n) =~= command.subrange(i, n));
        assert(text::stands_at(c, d, i));
    }
}

/// A group of hooks is ours when the command of one of them is, whichever it
/// is, and not otherwise.
pub proof fn law_one_hook_of_ours_makes_the_group_ours(group: Tree, hooks: Seq<Tree>, i: int)
    requires
        json::child(group, "hooks"@) == Some(Tree::Array(hooks)),
    ensures
        0 <= i < hooks.len() ==> (json::text_at(hooks[i], "command"@) matches Some(c) ==> (ours(c)
            ==> group_ours(group))),
        (forall|k: int|
            0 <= k < hooks.len() ==> (json::text_at(#[trigger] hooks[k], "command"@) matches Some(
                c,
            ) ==> !ours(c))) ==> !group_ours(group),
{
    if 0 <= i < hooks.len() {
        if let Some(c) = json::text_at(hooks[i], "command"@) {
            if ours(c) {
                assert(hook_ours(hooks[i]));
            }
        }
    }
}

} // verus!
