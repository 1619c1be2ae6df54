//! JSON documents as plain values.
//!
//! `serde_json` reads and writes the text; [`Json`] is what the crate's own
//! logic looks at and changes. Its meaning is a [`Tree`]: an object is the map
//! from its keys to its values, whatever order its entries stand in.

use serde_json::{Number, Value};
use vstd::prelude::*;

use crate::text::same;

verus! {

/// A `serde_json::Value`, seen only through [`value_tree`].
#[verifier::external_type_specification]
#[verifier::external_body]
pub struct ExValue(serde_json::Value);

/// A `serde_json::Number`, carried through unread.
#[verifier::external_type_specification]
#[verifier::external_body]
pub struct ExNumber(serde_json::Number);

/// A JSON document.
#[derive(Debug, PartialEq)]
pub enum Json {
    Null,
    Bool(bool),
    Number(Number),
    Text(String),
    Array(Vec<Json>),
    /// Entries in any order; the last one of a key counts.
    Object(Vec<(String, Json)>),
}

/// What a JSON document means.
pub enum Tree {
    Null,
    Bool(bool),
    Number(Number),
    Text(Seq<char>),
    Array(Seq<Tree>),
    Object(Map<Seq<char>, Tree>),
}

/// The outermost layer of a `serde_json::Value`.
pub enum Node {
    Null,
    Bool(bool),
    Number(Number),
    Text(String),
    Array(Vec<Value>),
    Object(Vec<(String, Value)>),
}

/// What a `serde_json::Value` means.
pub uninterp spec fn value_tree(v: Value) -> Tree;

/// What `serde_json::from_slice` reads as a `Value`, if anything.
pub uninterp spec fn parsed_bytes(bytes: Seq<u8>) -> Option<Tree>;

/// What `serde_json::from_str` reads as a `Value`, if anything.
pub uninterp spec fn parsed_text(text: Seq<char>) -> Option<Tree>;

/// What `serde_json::to_vec` writes for a `Value`.
pub uninterp spec fn compact_bytes(t: Tree) -> Seq<u8>;

/// What `serde_json::to_string_pretty` writes for a `Value`.
pub uninterp spec fn pretty_text(t: Tree) -> Seq<char>;

/// The number `serde_json::Number::from` makes of an unsigned integer.
pub uninterp spec fn number(n: u64) -> Number;

/// What `==` answers for two numbers.
pub uninterp spec fn numbers_alike(a: Number, b: Number) -> bool;

/// The map of a list of `serde_json` entries, the last of a key counting.
pub open spec fn value_entries(es: Seq<(String, Value)>) -> Map<Seq<char>, Tree>
    decreases es.len(),
{
    if es.len() == 0 {
        Map::empty()
    } else {
        value_entries(es.drop_last()).insert(es.last().0@, value_tree(es.last().1))
    }
}

/// Whether no key stands twice.
pub open spec fn distinct_keys(es: Seq<(String, Value)>) -> bool {
    forall|i: int, j: int| 0 <= i < j < es.len() ==> (#[trigger] es[i]).0@ != (#[trigger] es[j]).0@
}

/// What one layer and the values under it mean.
pub open spec fn node_tree(n: Node) -> Tree {
    match n {
        Node::Null => Tree::Null,
        Node::Bool(b) => Tree::Bool(b),
        Node::Number(x) => Tree::Number(x),
        Node::Text(s) => Tree::Text(s@),
        Node::Array(v) => Tree::Array(v@.map_values(|x: Value| value_tree(x))),
        Node::Object(es) => Tree::Object(value_entries(es@)),
    }
}

/// Matching on a `serde_json::Value`: the layer says which variant it is and
/// holds its fields. An object's keys are distinct.
#[verifier::external_body]
fn open_value(v: Value) -> (r: Node)
    ensures
        node_tree(r) == value_tree(v),
        r matches Node::Object(es) ==> distinct_keys(es@),
{
    match v {
        Value::Null => Node::Null,
        Value::Bool(b) => Node::Bool(b),
        Value::Number(n) => Node::Number(n),
        Value::String(s) => Node::Text(s),
        Value::Array(a) => Node::Array(a),
        Value::Object(m) => Node::Object(m.into_iter().collect()),
    }
}

/// The `serde_json::Value` of one layer.
#[verifier::external_body]
fn close_value(n: Node) -> (r: Value)
    requires
        n matches Node::Object(es) ==> distinct_keys(es@),
    ensures
        value_tree(r) == node_tree(n),
{
    match n {
        Node::Null => Value::Null,
        Node::Bool(b) => Value::Bool(b),
        Node::Number(n) => Value::Number(n),
        Node::Text(s) => Value::String(s),
        Node::Array(a) => Value::Array(a),
        Node::Object(es) => Value::Object(es.into_iter().collect()),
    }
}

/// `serde_json::from_slice` into a `Value`; an error is `None`.
#[verifier::external_body]
fn value_from_slice(bytes: &[u8]) -> (r: Option<Value>)
    ensures
        r is Some <==> parsed_bytes(bytes@) is Some,
        r matches Some(v) ==> parsed_bytes(bytes@) == Some(value_tree(v)),
{
    serde_json::from_slice(bytes).ok()
}

/// `serde_json::from_str` into a `Value`; an error is `None`.
#[verifier::external_body]
fn value_from_str(text: &str) -> (r: Option<Value>)
    ensures
        r is Some <==> parsed_text(text@) is Some,
        r matches Some(v) ==> parsed_text(text@) == Some(value_tree(v)),
{
    serde_json::from_str(text).ok()
}

/// `serde_json::to_vec` of a `Value`, which cannot fail on one. The compact
/// form has no line feed: nothing is put between tokens, and a line feed in a
/// string is escaped. A document of bounded depth whose numbers are unsigned
/// integers is read back as it was; of other numbers nothing is said.
#[verifier::external_body]
fn value_to_vec(v: &Value) -> (r: Vec<u8>)
    ensures
        r@ == compact_bytes(value_tree(*v)),
        !r@.contains(10u8),
        whole(value_tree(*v)) && nests_within(value_tree(*v), 127) ==> parsed_bytes(r@) == Some(
            value_tree(*v),
        ),
{
    serde_json::to_vec(v).unwrap_or_default()
}

/// `serde_json::to_string_pretty` of a `Value`, which cannot fail on one. A
/// document of bounded depth whose numbers are unsigned integers is read back
/// as it was, also with a line feed behind it; of other numbers nothing is
/// said.
#[verifier::external_body]
fn value_to_pretty(v: &Value) -> (r: String)
    ensures
        r@ == pretty_text(value_tree(*v)),
        whole(value_tree(*v)) && nests_within(value_tree(*v), 127) ==> parsed_text(r@.push('\n'))
            == Some(value_tree(*v)),
{
    serde_json::to_string_pretty(v).unwrap_or_default()
}

/// `serde_json::Number::from` for `u64`.
#[verifier::external_body]
pub(crate) fn number_of(n: u64) -> (r: Number)
    ensures
        r == number(n),
{
    Number::from(n)
}

/// `Clone` of a `serde_json::Number`: the same number.
#[verifier::external_body]
fn copy_number(n: &Number) -> (r: Number)
    ensures
        r == *n,
{
    n.clone()
}

/// `==` of two `serde_json::Number`s: integers by value, floats by value, an
/// integer never like a float. A number is like itself.
#[verifier::external_body]
fn same_number(a: &Number, b: &Number) -> (r: bool)
    ensures
        r == numbers_alike(*a, *b),
        *a == *b ==> r,
{
    a == b
}

/// Whether every number of `t` is an unsigned integer.
pub open spec fn whole(t: Tree) -> bool
    decreases t,
{
    match t {
        Tree::Number(n) => exists|u: u64| n == number(u),
        Tree::Array(s) => forall|i: int| 0 <= i < s.len() ==> whole(#[trigger] s[i]),
        Tree::Object(m) => m.dom().finite() && forall|k: Seq<char>| #[trigger]
            m.contains_key(k) ==> m.dom().finite() && whole(m[k]),
        _ => true,
    }
}

/// Whether no more than `n` arrays and objects of `t` stand in one another.
pub open spec fn nests_within(t: Tree, n: nat) -> bool
    decreases n,
{
    match t {
        Tree::Array(s) => n > 0 && forall|i: int|
            0 <= i < s.len() ==> nests_within(#[trigger] s[i], (n - 1) as nat),
        Tree::Object(m) => n > 0 && forall|k: Seq<char>| #[trigger]
            m.contains_key(k) ==> nests_within(m[k], (n - 1) as nat),
        _ => true,
    }
}

impl View for Json {
    type V = Tree;

    open spec fn view(&self) -> Tree {
        tree(*self)
    }
}

/// What a document means.
pub open spec fn tree(j: Json) -> Tree
    decreases j,
{
    match j {
        Json::Null => Tree::Null,
        Json::Bool(b) => Tree::Bool(b),
        Json::Number(n) => Tree::Number(n),
        Json::Text(s) => Tree::Text(s@),
        Json::Array(v) => Tree::Array(trees(v@)),
        Json::Object(es) => Tree::Object(entries(es@)),
    }
}

/// What the items of an array mean.
pub open spec fn trees(v: Seq<Json>) -> Seq<Tree>
    decreases v,
{
    if v.len() == 0 {
        Seq::empty()
    } else {
        trees(v.drop_last()).push(tree(v.last()))
    }
}

/// The map of an object's entries, the last of a key counting.
pub open spec fn entries(es: Seq<(String, Json)>) -> Map<Seq<char>, Tree>
    decreases es,
{
    if es.len() == 0 {
        Map::empty()
    } else {
        entries(es.drop_last()).insert(es.last().0@, tree(es.last().1))
    }
}

/// What stands under `key`.
pub open spec fn child(t: Tree, key: Seq<char>) -> Option<Tree> {
    match t {
        Tree::Object(m) => if m.contains_key(key) {
            Some(m[key])
        } else {
            None
        },
        _ => None,
    }
}

/// The string `t` is, if it is one.
pub open spec fn text_of(t: Tree) -> Option<Seq<char>> {
    match t {
        Tree::Text(s) => Some(s),
        _ => None,
    }
}

/// The boolean `t` is, if it is one.
pub open spec fn bool_of(t: Tree) -> Option<bool> {
    match t {
        Tree::Bool(b) => Some(b),
        _ => None,
    }
}

/// The items of `t`, if it is an array.
pub open spec fn items_of(t: Tree) -> Option<Seq<Tree>> {
    match t {
        Tree::Array(s) => Some(s),
        _ => None,
    }
}

/// The string under `key`, if there is one.
pub open spec fn text_at(t: Tree, key: Seq<char>) -> Option<Seq<char>> {
    match child(t, key) {
        Some(c) => text_of(c),
        None => None,
    }
}

pub proof fn lemma_trees(v: Seq<Json>)
    ensures
        trees(v).len() == v.len(),
        forall|i: int| 0 <= i < v.len() ==> #[trigger] trees(v)[i] == tree(v[i]),
    decreases v.len(),
{
    if v.len() > 0 {
        lemma_trees(v.drop_last());
    }
}

proof fn lemma_entries_finite(es: Seq<(String, Json)>)
    ensures
        entries(es).dom().finite(),
    decreases es.len(),
{
    if es.len() > 0 {
        lemma_entries_finite(es.drop_last());
    }
}

/// Putting one entry in front of `es` shows only where `es` lacks its key.
proof fn lemma_entries_front(e: (String, Json), es: Seq<(String, Json)>)
    ensures
        entries(seq![e] + es) == if entries(es).contains_key(e.0@) {
            entries(es)
        } else {
            entries(es).insert(e.0@, tree(e.1))
        },
    decreases es.len(),
{
    let all = seq![e] + es;
    if es.len() == 0 {
        assert(all.drop_last() =~= Seq::empty());
        assert(entries(Seq::<(String, Json)>::empty()) =~= Map::empty());
        assert(all =~= seq![e]);
        assert(entries(all) =~= Map::empty().insert(e.0@, tree(e.1)));
    } else {
        lemma_entries_front(e, es.drop_last());
        assert(all.drop_last() =~= seq![e] + es.drop_last());
        assert(all.last() == es.last());
        if entries(es.drop_last()).contains_key(e.0@) {
        } else if es.last().0@ == e.0@ {
            assert(entries(all) =~= entries(es));
        } else {
            assert(entries(all) =~= entries(es).insert(e.0@, tree(e.1)));
        }
    }
}

/// Taking out an entry of `key` changes nothing but what `key` gives.
proof fn lemma_entries_remove(es: Seq<(String, Json)>, i: int)
    requires
        0 <= i < es.len(),
    ensures
        entries(es.remove(i)).remove(es[i].0@) == entries(es).remove(es[i].0@),
    decreases es.len(),
{
    let key = es[i].0@;
    if i == es.len() - 1 {
        assert(es.remove(i) =~= es.drop_last());
        assert(entries(es.drop_last()).remove(key) =~= entries(es).remove(key));
    } else {
        lemma_entries_remove(es.drop_last(), i);
        assert(es.remove(i).drop_last() =~= es.drop_last().remove(i));
        assert(es.remove(i).last() == es.last());
        assert(es.drop_last()[i] == es[i]);
        let less = entries(es.drop_last().remove(i));
        let more = entries(es.drop_last());
        let (k, x) = (es.last().0@, tree(es.last().1));
        assert(less.insert(k, x).remove(key) =~= if k == key {
            less.remove(key)
        } else {
            less.remove(key).insert(k, x)
        });
        assert(more.insert(k, x).remove(key) =~= if k == key {
            more.remove(key)
        } else {
            more.remove(key).insert(k, x)
        });
    }
}

/// A key that no entry has is no key of the map.
proof fn lemma_entries_absent(es: Seq<(String, Json)>, key: Seq<char>)
    requires
        forall|k: int| 0 <= k < es.len() ==> (#[trigger] es[k]).0@ != key,
    ensures
        !entries(es).contains_key(key),
    decreases es.len(),
{
    if es.len() > 0 {
        assert forall|k: int| 0 <= k < es.drop_last().len() implies (
        #[trigger] es.drop_last()[k]).0@ != key by {
            assert(es[k].0@ != key);
        }
        lemma_entries_absent(es.drop_last(), key);
    }
}

proof fn lemma_value_entries(es: Seq<(String, Value)>)
    ensures
        value_entries(es).dom().finite(),
        distinct_keys(es) ==> forall|i: int|
            0 <= i < es.len() ==> value_entries(es).contains_key((#[trigger] es[i]).0@)
                && value_entries(es)[es[i].0@] == value_tree(es[i].1),
        forall|k: Seq<char>| #[trigger]
            value_entries(es).contains_key(k) ==> exists|i: int|
                0 <= i < es.len() && (#[trigger] es[i]).0@ == k,
    decreases es.len(),
{
    if es.len() > 0 {
        let rest = es.drop_last();
        lemma_value_entries(rest);
        if distinct_keys(es) {
            assert(distinct_keys(rest)) by {
                assert forall|i: int, j: int| 0 <= i < j < rest.len() implies (
                #[trigger] rest[i]).0@ != (#[trigger] rest[j]).0@ by {
                    assert(es[i].0@ != es[j].0@);
                }
            }
            assert forall|i: int| 0 <= i < es.len() implies value_entries(es).contains_key(
                (#[trigger] es[i]).0@,
            ) && value_entries(es)[es[i].0@] == value_tree(es[i].1) by {
                if i < es.len() - 1 {
                    assert(rest[i] == es[i]);
                    assert(es[i].0@ != es[es.len() - 1].0@);
                }
            }
        }
        assert forall|k: Seq<char>| #[trigger] value_entries(es).contains_key(k) implies exists|
            i: int,
        |
            0 <= i < es.len() && (#[trigger] es[i]).0@ == k by {
            if k == es.last().0@ {
                assert(es[es.len() - 1].0@ == k);
            } else {
                assert(value_entries(rest).contains_key(k));
                let i = choose|i: int| 0 <= i < rest.len() && (#[trigger] rest[i]).0@ == k;
                assert(es[i].0@ == k);
            }
        }
    }
}

impl Json {
    /// The document a `serde_json::Value` is.
    pub fn from_value(v: Value) -> (r: Json)
        ensures
            r@ == value_tree(v),
        decreases value_tree(v),
    {
        let ghost whole_tree = value_tree(v);
        match open_value(v) {
            Node::Null => Json::Null,
            Node::Bool(b) => Json::Bool(b),
            Node::Number(n) => Json::Number(n),
            Node::Text(s) => Json::Text(s),
            Node::Array(xs) => {
                let ghost all = xs@;
                let mut out: Vec<Json> = Vec::new();
                for x in it: xs
                    invariant
                        it.seq() == all,
                        whole_tree == Tree::Array(all.map_values(|x: Value| value_tree(x))),
                        value_tree(v) == whole_tree,
                        out@.len() == it.index(),
                        forall|k: int| 0 <= k < out@.len() ==> tree(#[trigger] out@[k]) == value_tree(all[k]),
                {
                    proof {
                        let s = whole_tree->Array_0;
                        assert(s[it.index() as int] == value_tree(x));
                        assert(decreases_to!(whole_tree => s[it.index() as int]));
                    }
                    out.push(Json::from_value(x));
                }
                proof {
                    lemma_trees(out@);
                    assert(trees(out@) =~= all.map_values(|x: Value| value_tree(x)));
                }
                Json::Array(out)
            },
            Node::Object(es) => {
                let ghost all = es@;
                let mut out: Vec<(String, Json)> = Vec::new();
                proof {
                    lemma_value_entries(all);
                    assert(all.take(0) =~= Seq::empty());
                }
                for e in it: es
                    invariant
                        it.seq() == all,
                        distinct_keys(all),
                        whole_tree == Tree::Object(value_entries(all)),
                        value_tree(v) == whole_tree,
                        entries(out@) == value_entries(all.take(it.index() as int)),
                {
                    let ghost at = it.index() as int;
                    proof {
                        lemma_value_entries(all);
                        let m = whole_tree->Object_0;
                        assert(all[at] == e);
                        assert(m[e.0@] == value_tree(e.1));
                        assert(decreases_to!(m => m[e.0@]));
                        assert(decreases_to!(whole_tree => m));
                        assert(all.take(at + 1).drop_last() =~= all.take(at));
                    }
                    let ghost before = out@;
                    let (key, inner) = e;
                    out.push((key, Json::from_value(inner)));
                    proof {
                        assert(out@.drop_last() =~= before);
                    }
                }
                proof {
                    assert(all.take(all.len() as int) =~= all);
                }
                Json::Object(out)
            },
        }
    }

    /// The document as a `serde_json::Value`.
    pub fn to_value(&self) -> (r: Value)
        ensures
            value_tree(r) == self@,
        decreases self,
    {
        let node = match self {
            Json::Null => Node::Null,
            Json::Bool(b) => Node::Bool(*b),
            Json::Number(n) => Node::Number(copy_number(n)),
            Json::Text(s) => Node::Text(s.clone()),
            Json::Array(v) => {
                let mut out: Vec<Value> = Vec::new();
                let mut i: usize = 0;
                while i < v.len()
                    invariant
                        *self == Json::Array(*v),
                        i <= v@.len(),
                        out@.len() == i,
                        forall|k: int| 0 <= k < i ==> value_tree(#[trigger] out@[k]) == tree(v@[k]),
                    decreases v@.len() - i,
                {
                    assert(decreases_to!(*self => self->Array_0));
                    assert(decreases_to!(*v => v@));
                    assert(decreases_to!(v@ => v@[i as int]));
                    out.push(v[i].to_value());
                    i += 1;
                }
                proof {
                    lemma_trees(v@);
                    assert(trees(v@) =~= out@.map_values(|x: Value| value_tree(x)));
                }
                Node::Array(out)
            },
            Json::Object(es) => {
                let mut out: Vec<(String, Value)> = Vec::new();
                let mut i: usize = es.len();
                assert(es@.skip(i as int) =~= Seq::empty());
                while i > 0
                    invariant
                        *self == Json::Object(*es),
                        i <= es@.len(),
                        distinct_keys(out@),
                        value_entries(out@) == entries(es@.skip(i as int)),
                    decreases i,
                {
                    i -= 1;
                    let ghost rest = es@.skip(i + 1);
                    proof {
                        assert(es@.skip(i as int) =~= seq![es@[i as int]] + rest);
                        lemma_entries_front(es@[i as int], rest);
                        lemma_value_entries(out@);
                    }
                    if !has_key(&out, es[i].0.as_str()) {
                        let ghost before = out@;
                        proof {
                            if value_entries(before).contains_key(es@[i as int].0@) {
                                let k = choose|k: int|
                                    0 <= k < before.len() && (#[trigger] before[k]).0@ == es@[i as int].0@;
                                assert(before[k].0@ == es@[i as int].0@);
                            }
                        }
                        assert(decreases_to!(*self => self->Object_0));
                    assert(decreases_to!(*es => es@));
                    assert(decreases_to!(es@ => es@[i as int]));
                        assert(decreases_to!(es@[i as int] => es@[i as int].1));
                        out.push((es[i].0.clone(), es[i].1.to_value()));
                        assert(out@.drop_last() =~= before);
                    }
                }
                assert(es@.skip(0) =~= es@);
                Node::Object(out)
            },
        };
        close_value(node)
    }

    /// Reads a document from bytes; `None` when they are not JSON.
    pub fn parse(bytes: &[u8]) -> (r: Option<Json>)
        ensures
            r is Some <==> parsed_bytes(bytes@) is Some,
            r matches Some(j) ==> parsed_bytes(bytes@) == Some(j@),
    {
        match value_from_slice(bytes) {
            Some(v) => Some(Json::from_value(v)),
            None => None,
        }
    }

    /// Reads a document from text; `None` when it is not JSON.
    pub fn parse_text(text: &str) -> (r: Option<Json>)
        ensures
            r is Some <==> parsed_text(text@) is Some,
            r matches Some(j) ==> parsed_text(text@) == Some(j@),
    {
        match value_from_str(text) {
            Some(v) => Some(Json::from_value(v)),
            None => None,
        }
    }

    /// The document on one line.
    pub fn to_bytes(&self) -> (r: Vec<u8>)
        ensures
            r@ == compact_bytes(self@),
            !r@.contains(10u8),
            whole(self@) && nests_within(self@, 127) ==> parsed_bytes(r@) == Some(self@),
    {
        value_to_vec(&self.to_value())
    }

    /// The document indented for people.
    pub fn to_pretty(&self) -> (r: String)
        ensures
            r@ == pretty_text(self@),
            whole(self@) && nests_within(self@, 127) ==> parsed_text(r@.push('\n')) == Some(self@),
    {
        value_to_pretty(&self.to_value())
    }

    /// A copy of the document.
    pub fn copy(&self) -> (r: Json)
        ensures
            r@ == self@,
        decreases self,
    {
        match self {
            Json::Null => Json::Null,
            Json::Bool(b) => Json::Bool(*b),
            Json::Number(n) => Json::Number(copy_number(n)),
            Json::Text(s) => Json::Text(s.clone()),
            Json::Array(v) => {
                let mut out: Vec<Json> = Vec::new();
                let mut i: usize = 0;
                assert(v@.take(0) =~= Seq::empty());
                while i < v.len()
                    invariant
                        *self == Json::Array(*v),
                        i <= v@.len(),
                        trees(out@) == trees(v@.take(i as int)),
                    decreases v@.len() - i,
                {
                    let ghost before = out@;
                    assert(decreases_to!(*self => self->Array_0));
                    assert(decreases_to!(*v => v@));
                    assert(decreases_to!(v@ => v@[i as int]));
                    out.push(v[i].copy());
                    proof {
                        assert(out@.drop_last() =~= before);
                        assert(v@.take(i + 1).drop_last() =~= v@.take(i as int));
                    }
                    i += 1;
                }
                assert(v@.take(i as int) =~= v@);
                Json::Array(out)
            },
            Json::Object(es) => {
                let mut out: Vec<(String, Json)> = Vec::new();
                let mut i: usize = 0;
                assert(es@.take(0) =~= Seq::empty());
                while i < es.len()
                    invariant
                        *self == Json::Object(*es),
                        i <= es@.len(),
                        entries(out@) == entries(es@.take(i as int)),
                    decreases es@.len() - i,
                {
                    let ghost before = out@;
                    assert(decreases_to!(*self => self->Object_0));
                    assert(decreases_to!(*es => es@));
                    assert(decreases_to!(es@ => es@[i as int]));
                    assert(decreases_to!(es@[i as int] => es@[i as int].1));
                    out.push((es[i].0.clone(), es[i].1.copy()));
                    proof {
                        assert(out@.drop_last() =~= before);
                        assert(es@.take(i + 1).drop_last() =~= es@.take(i as int));
                    }
                    i += 1;
                }
                assert(es@.take(i as int) =~= es@);
                Json::Object(out)
            },
        }
    }

    /// What stands under `key`; `None` when nothing does or this is no object.
    pub fn get(&self, key: &str) -> (r: Option<&Json>)
        ensures
            r is Some <==> child(self@, key@) is Some,
            r matches Some(j) ==> child(self@, key@) == Some(j@),
            r matches Some(j) ==> decreases_to!(*self => *j),
    {
        match self {
            Json::Object(es) => {
                let mut i: usize = es.len();
                assert(es@.take(i as int) =~= es@);
                while i > 0
                    invariant
                        *self == Json::Object(*es),
                        i <= es@.len(),
                        entries(es@).contains_key(key@) <==> entries(
                            es@.take(i as int),
                        ).contains_key(key@),
                        entries(es@).contains_key(key@) ==> entries(es@)[key@] == entries(
                            es@.take(i as int),
                        )[key@],
                    decreases i,
                {
                    i -= 1;
                    assert(es@.take(i + 1).drop_last() =~= es@.take(i as int));
                    if same(es[i].0.as_str(), key) {
                        return Some(&es[i].1);
                    }
                }
                assert(es@.take(0) =~= Seq::empty());
                None
            },
            _ => None,
        }
    }

    /// The string this is, if it is one.
    pub fn as_str(&self) -> (r: Option<&str>)
        ensures
            r is Some <==> text_of(self@) is Some,
            r matches Some(s) ==> text_of(self@) == Some(s@),
    {
        match self {
            Json::Text(s) => Some(s.as_str()),
            _ => None,
        }
    }

    /// The boolean this is, if it is one.
    pub fn as_bool(&self) -> (r: Option<bool>)
        ensures
            r == bool_of(self@),
    {
        match self {
            Json::Bool(b) => Some(*b),
            _ => None,
        }
    }

    /// The items of this array, if it is one.
    pub fn as_array(&self) -> (r: Option<&Vec<Json>>)
        ensures
            r is Some <==> items_of(self@) is Some,
            r matches Some(v) ==> *self == Json::Array(*v) && items_of(self@) == Some(trees(v@)),
    {
        match self {
            Json::Array(v) => Some(v),
            _ => None,
        }
    }

    /// The string under `key`, if there is one.
    pub fn str_at(&self, key: &str) -> (r: Option<&str>)
        ensures
            r is Some <==> text_at(self@, key@) is Some,
            r matches Some(s) ==> text_at(self@, key@) == Some(s@),
    {
        match self.get(key) {
            Some(j) => j.as_str(),
            None => None,
        }
    }

    /// Whether this is an object.
    pub fn is_object(&self) -> (r: bool)
        ensures
            r == (self@ is Object),
    {
        match self {
            Json::Object(_) => true,
            _ => false,
        }
    }
}

/// Whether `es` has an entry of `key`.
fn has_key(es: &Vec<(String, Value)>, key: &str) -> (r: bool)
    ensures
        r == exists|i: int| 0 <= i < es@.len() && (#[trigger] es@[i]).0@ == key@,
{
    let mut i: usize = 0;
    while i < es.len()
        invariant
            i <= es@.len(),
            forall|k: int| 0 <= k < i ==> (#[trigger] es@[k]).0@ != key@,
        decreases es@.len() - i,
    {
        if same(es[i].0.as_str(), key) {
            assert(es@[i as int].0@ == key@);
            return true;
        }
        i += 1;
    }
    false
}

/// Takes every entry of `key` out of an object.
pub fn unset(es: &mut Vec<(String, Json)>, key: &str)
    ensures
        entries(final(es)@) == entries(old(es)@).remove(key@),
        final(es)@.len() <= old(es)@.len(),
{
    let mut i: usize = 0;
    while i < es.len()
        invariant
            i <= es@.len(),
            forall|k: int| 0 <= k < i ==> (#[trigger] es@[k]).0@ != key@,
            entries(es@).remove(key@) == entries(old(es)@).remove(key@),
            es@.len() <= old(es)@.len(),
        decreases es@.len() - i,
    {
        if same(es[i].0.as_str(), key) {
            proof {
                lemma_entries_remove(es@, i as int);
            }
            let ghost before = es@;
            let _ = es.remove(i);
            assert(forall|k: int| 0 <= k < i ==> es@[k] == before[k]);
        } else {
            i += 1;
        }
    }
    proof {
        lemma_entries_absent(es@, key@);
        assert(entries(es@) =~= entries(es@).remove(key@));
    }
}

/// Puts `value` under `key` in an object.
pub fn set(es: &mut Vec<(String, Json)>, key: &str, value: Json)
    ensures
        entries(final(es)@) == entries(old(es)@).insert(key@, value@),
{
    unset(es, key);
    let ghost before = es@;
    es.push((key.to_owned(), value));
    proof {
        assert(es@.drop_last() =~= before);
        assert(entries(es@) =~= entries(old(es)@).insert(key@, value@));
    }
}

/// Whether two documents are alike: the same shape, keys, strings and
/// booleans, and numbers that are alike.
pub open spec fn alike(a: Tree, b: Tree) -> bool
    decreases a,
{
    match (a, b) {
        (Tree::Null, Tree::Null) => true,
        (Tree::Bool(x), Tree::Bool(y)) => x == y,
        (Tree::Number(x), Tree::Number(y)) => numbers_alike(x, y),
        (Tree::Text(x), Tree::Text(y)) => x == y,
        (Tree::Array(x), Tree::Array(y)) => x.len() == y.len() && forall|i: int|
            0 <= i < x.len() ==> alike(#[trigger] x[i], y[i]),
        (Tree::Object(x), Tree::Object(y)) => x.dom() == y.dom() && x.dom().finite() && forall|
            k: Seq<char>,
        | #[trigger]
            x.contains_key(k) ==> x.dom().finite() && alike(x[k], y[k]),
        _ => false,
    }
}

/// Takes what stands under `key` out of an object.
pub fn take(es: &mut Vec<(String, Json)>, key: &str) -> (r: Option<Json>)
    ensures
        entries(final(es)@) == entries(old(es)@).remove(key@),
        r is Some <==> entries(old(es)@).contains_key(key@),
        r matches Some(j) ==> j@ == entries(old(es)@)[key@],
        r is Some ==> final(es)@.len() < old(es)@.len(),
{
    let ghost before = es@;
    let mut i: usize = es.len();
    assert(before.take(i as int) =~= before);
    while i > 0
        invariant
            i <= es@.len(),
            es@ == before,
            before == old(es)@,
            entries(before).contains_key(key@) <==> entries(before.take(i as int)).contains_key(
                key@,
            ),
            entries(before).contains_key(key@) ==> entries(before)[key@] == entries(
                before.take(i as int),
            )[key@],
        decreases i,
    {
        i -= 1;
        assert(before.take(i + 1).drop_last() =~= before.take(i as int));
        if same(es[i].0.as_str(), key) {
            proof {
                lemma_entries_remove(before, i as int);
            }
            let (_, value) = es.remove(i);
            unset(es, key);
            return Some(value);
        }
    }
    proof {
        assert(before.take(0) =~= Seq::empty());
        assert(entries(before).remove(key@) =~= entries(before));
    }
    None
}

/// A key of the map is a key of some entry.
pub proof fn lemma_entries_key(es: Seq<(String, Json)>, key: Seq<char>)
    ensures
        entries(es).contains_key(key) <==> exists|i: int|
            0 <= i < es.len() && (#[trigger] es[i]).0@ == key,
        entries(es).dom().finite(),
    decreases es.len(),
{
    lemma_entries_finite(es);
    if entries(es).contains_key(key) {
        if forall|k: int| 0 <= k < es.len() ==> (#[trigger] es[k]).0@ != key {
            lemma_entries_absent(es, key);
        }
    }
    if exists|i: int| 0 <= i < es.len() && (#[trigger] es[i]).0@ == key {
        let i = choose|i: int| 0 <= i < es.len() && (#[trigger] es[i]).0@ == key;
        lemma_entries_has(es, i);
    }
}

proof fn lemma_entries_has(es: Seq<(String, Json)>, i: int)
    requires
        0 <= i < es.len(),
    ensures
        entries(es).contains_key(es[i].0@),
    decreases es.len(),
{
    if i < es.len() - 1 {
        lemma_entries_has(es.drop_last(), i);
        assert(es.drop_last()[i] == es[i]);
    }
}

/// Whether two documents are alike.
pub fn same_json(a: &Json, b: &Json) -> (r: bool)
    ensures
        r == alike(a@, b@),
    decreases *a,
{
    match (a, b) {
        (Json::Null, Json::Null) => true,
        (Json::Bool(x), Json::Bool(y)) => *x == *y,
        (Json::Number(x), Json::Number(y)) => same_number(x, y),
        (Json::Text(x), Json::Text(y)) => same(x.as_str(), y.as_str()),
        (Json::Array(x), Json::Array(y)) => {
            proof {
                lemma_trees(x@);
                lemma_trees(y@);
            }
            if x.len() != y.len() {
                return false;
            }
            let mut i: usize = 0;
            while i < x.len()
                invariant
                    i <= x@.len(),
                    x@.len() == y@.len(),
                    *a == Json::Array(*x),
                    *b == Json::Array(*y),
                    trees(x@).len() == x@.len(),
                    trees(y@).len() == y@.len(),
                    forall|k: int| 0 <= k < x@.len() ==> #[trigger] trees(x@)[k] == tree(x@[k]),
                    forall|k: int| 0 <= k < y@.len() ==> #[trigger] trees(y@)[k] == tree(y@[k]),
                    forall|k: int| 0 <= k < i ==> alike(#[trigger] trees(x@)[k], trees(y@)[k]),
                decreases x@.len() - i,
            {
                proof {
                    assert(decreases_to!(*a => a->Array_0));
                    assert(decreases_to!(*x => x@));
                    assert(decreases_to!(x@ => x@[i as int]));
                    assert(trees(x@)[i as int] == tree(x@[i as int]));
                    assert(trees(y@)[i as int] == tree(y@[i as int]));
                }
                if !same_json(&x[i], &y[i]) {
                    return false;
                }
                i += 1;
            }
            true
        },
        (Json::Object(x), Json::Object(y)) => {
            let ghost p = entries(x@);
            let ghost q = entries(y@);
            proof {
                lemma_entries_finite(x@);
            }
            let mut i: usize = 0;
            while i < x.len()
                invariant
                    i <= x@.len(),
                    *a == Json::Object(*x),
                    *b == Json::Object(*y),
                    p == entries(x@),
                    q == entries(y@),
                    p.dom().finite(),
                    forall|k: int|
                        0 <= k < i ==> p.contains_key((#[trigger] x@[k]).0@) && q.contains_key(
                            x@[k].0@,
                        ) && alike(p[x@[k].0@], q[x@[k].0@]),
                decreases x@.len() - i,
            {
                let key = x[i].0.as_str();
                proof {
                    lemma_entries_has(x@, i as int);
                }
                match (a.get(key), b.get(key)) {
                    (Some(v), Some(w)) => {
                        if !same_json(v, w) {
                            assert(!alike(p[key@], q[key@]));
                            assert(p.contains_key(key@));
                            return false;
                        }
                    },
                    _ => {
                        assert(p.contains_key(key@));
                        assert(!q.contains_key(key@));
                        assert(!q.dom().contains(key@));
                        return false;
                    },
                }
                i += 1;
            }
            let mut j: usize = 0;
            while j < y.len()
                invariant
                    j <= y@.len(),
                    *a == Json::Object(*x),
                    *b == Json::Object(*y),
                    p == entries(x@),
                    q == entries(y@),
                    forall|k: int| 0 <= k < j ==> p.contains_key((#[trigger] y@[k]).0@),
                decreases y@.len() - j,
            {
                let key = y[j].0.as_str();
                if a.get(key).is_none() {
                    proof {
                        lemma_entries_has(y@, j as int);
                        assert(q.dom().contains(key@));
                        assert(!p.dom().contains(key@));
                    }
                    return false;
                }
                j += 1;
            }
            proof {
                assert forall|k: Seq<char>| #[trigger] p.contains_key(k) implies q.contains_key(k)
                    && alike(p[k], q[k]) by {
                    lemma_entries_key(x@, k);
                    let n = choose|n: int| 0 <= n < x@.len() && (#[trigger] x@[n]).0@ == k;
                    assert(x@[n].0@ == k);
                }
                assert forall|k: Seq<char>| #[trigger] q.contains_key(k) implies p.contains_key(
                    k,
                ) by {
                    lemma_entries_key(y@, k);
                    let n = choose|n: int| 0 <= n < y@.len() && (#[trigger] y@[n]).0@ == k;
                    assert(y@[n].0@ == k);
                }
                assert(p.dom() =~= q.dom());
            }
            true
        },
        _ => false,
    }
}

/// Whether a value has no numbers in it.
pub open spec fn numberless(t: Tree) -> bool
    decreases t,
{
    match t {
        Tree::Number(_) => false,
        Tree::Array(s) => forall|i: int| 0 <= i < s.len() ==> numberless(#[trigger] s[i]),
        Tree::Object(m) => m.dom().finite() && forall|k: Seq<char>| #[trigger]
            m.contains_key(k) ==> m.dom().finite() && numberless(m[k]),
        _ => true,
    }
}

/// Values without numbers are alike exactly when they are the same; numbers
/// are compared as numbers.
pub proof fn law_values_are_alike_when_they_are_the_same(a: Tree, b: Tree)
    requires
        numberless(a),
    ensures
        alike(a, b) <==> a == b,
    decreases a,
{
    match (a, b) {
        (Tree::Array(x), Tree::Array(y)) => {
            if alike(a, b) {
                assert forall|i: int| 0 <= i < x.len() implies x[i] == y[i] by {
                    assert(numberless(x[i]));
                    assert(alike(x[i], y[i]));
                    law_values_are_alike_when_they_are_the_same(x[i], y[i]);
                }
                assert(x =~= y);
            }
            if a == b {
                assert forall|i: int| 0 <= i < x.len() implies alike(#[trigger] x[i], y[i]) by {
                    assert(numberless(x[i]));
                    law_values_are_alike_when_they_are_the_same(x[i], y[i]);
                }
            }
        },
        (Tree::Object(x), Tree::Object(y)) => {
            if alike(a, b) {
                assert forall|k: Seq<char>| x.dom().contains(k) implies x[k] == y[k] by {
                    assert(x.contains_key(k));
                    assert(numberless(x[k]));
                    assert(alike(x[k], y[k]));
                    law_values_are_alike_when_they_are_the_same(x[k], y[k]);
                }
                assert(x =~= y);
            }
            if a == b {
                assert forall|k: Seq<char>| #[trigger] x.contains_key(k) implies alike(
                    x[k],
                    y[k],
                ) by {
                    assert(numberless(x[k]));
                    law_values_are_alike_when_they_are_the_same(x[k], y[k]);
                }
            }
        },
        _ => {},
    }
}

/// Only an object has entries, only a string text, only a truth value truth
/// and only an array items; each is what it was made of.
pub proof fn law_values_hold_what_they_were_made_of(
    m: Map<Seq<char>, Tree>,
    key: Seq<char>,
    value: Tree,
    s: Seq<char>,
    b: bool,
    items: Seq<Tree>,
)
    ensures
        child(Tree::Object(m.insert(key, value)), key) == Some(value),
        child(Tree::Object(m.remove(key)), key) is None,
        child(Tree::Array(items), key) is None,
        child(Tree::Text(s), key) is None,
        text_of(Tree::Text(s)) == Some(s),
        text_of(Tree::Bool(b)) is None,
        text_of(Tree::Array(items)) is None,
        text_of(Tree::Null) is None,
        bool_of(Tree::Bool(b)) == Some(b),
        bool_of(Tree::Text(s)) is None,
        items_of(Tree::Array(items)) == Some(items),
        items_of(Tree::Object(m)) is None,
        text_at(Tree::Object(m.insert(key, Tree::Text(s))), key) == Some(s),
        text_at(Tree::Object(m.insert(key, Tree::Bool(b))), key) is None,
{
}

/// Of two entries of one key the last counts, and other keys are not touched.
pub proof fn law_the_last_entry_of_a_key_counts(
    es: Seq<(String, Json)>,
    e: (String, Json),
    other: Seq<char>,
)
    requires
        other != e.0@,
    ensures
        entries(es.push(e)).contains_key(e.0@),
        entries(es.push(e))[e.0@] == e.1@,
        entries(es.push(e)).contains_key(other) <==> entries(es).contains_key(other),
        entries(es).contains_key(other) ==> entries(es.push(e))[other] == entries(es)[other],
{
    assert(es.push(e).drop_last() =~= es);
}

} // verus!
