//! Strings as sequences of characters: the operations the rest of the crate
//! is written with.

use vstd::prelude::*;
use vstd::string::*;

verus! {

/// `String::push`: appends one character.
pub assume_specification[ String::push ](s: &mut String, c: char)
    ensures
        final(s)@ == old(s)@.push(c),
;

/// What `char::is_whitespace` answers.
pub uninterp spec fn whitespace(c: char) -> bool;

/// Whether `c` is white space.
pub open spec fn blank(c: char) -> bool {
    if (c as u32) < 128 {
        c == ' ' || 9 <= c as u32 <= 13
    } else {
        whitespace(c)
    }
}

/// `char::is_whitespace`, the Unicode `White_Space` property. Among ASCII
/// characters those are the space and the controls from tab to carriage
/// return.
#[verifier::external_body]
fn is_whitespace(c: char) -> (r: bool)
    ensures
        r == if (c as u32) < 128 {
            c == ' ' || 9 <= c as u32 <= 13
        } else {
            whitespace(c)
        },
{
    c.is_whitespace()
}

/// What `core::str::from_utf8` decides: the text of `bytes` when they are
/// valid UTF-8.
#[verifier::external_body]
pub(crate) fn utf8_text(bytes: &[u8]) -> (r: Option<&str>)
    ensures
        r is Some <==> vstd::utf8::valid_utf8(bytes@),
        r matches Some(s) ==> s.spec_bytes() == bytes@,
{
    core::str::from_utf8(bytes).ok()
}

/// Whether two strings hold the same characters.
pub fn same(a: &str, b: &str) -> (r: bool)
    ensures
        r == (a@ == b@),
{
    let x = a.as_bytes();
    let y = b.as_bytes();
    if x.len() != y.len() {
        return false;
    }
    let n: usize = x.len();
    let mut i: usize = 0;
    while i < n
        invariant
            i <= n,
            n == x@.len(),
            n == y@.len(),
            x@ == a.spec_bytes(),
            y@ == b.spec_bytes(),
            forall|k: int| 0 <= k < i ==> x@[k] == y@[k],
        decreases n - i,
    {
        if x[i] != y[i] {
            return false;
        }
        i += 1;
    }
    proof {
        assert(x@ =~= y@);
        vstd::utf8::encode_utf8_decode_utf8(a@);
        vstd::utf8::encode_utf8_decode_utf8(b@);
    }
    true
}

/// The characters of `s`.
pub fn chars_of(s: &str) -> (r: Vec<char>)
    ensures
        r@ == s@,
{
    let mut v: Vec<char> = Vec::new();
    for c in it: s.chars()
        invariant
            v@ == s@.take(it.index() as int),
            it.seq() == s@,
    {
        v.push(c);
    }
    v
}

/// The string of the characters `v[from..to]`.
pub fn text_between(v: &Vec<char>, from: usize, to: usize) -> (r: String)
    requires
        from <= to <= v@.len(),
    ensures
        r@ == v@.subrange(from as int, to as int),
{
    let mut s = String::new();
    let mut i: usize = from;
    while i < to
        invariant
            from <= i <= to <= v@.len(),
            s@ == v@.subrange(from as int, i as int),
        decreases to - i,
    {
        s.push(v[i]);
        i += 1;
    }
    s
}

/// `n` copies of `c`.
pub open spec fn copies(c: char, n: nat) -> Seq<char> {
    Seq::new(n, |i: int| c)
}

/// A string of `n` copies of `c`.
pub fn repeated(c: char, n: usize) -> (r: String)
    ensures
        r@ == copies(c, n as nat),
{
    let mut s = String::new();
    let mut i: usize = 0;
    while i < n
        invariant
            i <= n,
            s@ == copies(c, i as nat),
        decreases n - i,
    {
        s.push(c);
        i += 1;
    }
    s
}

/// The decimal digit `d`.
pub open spec fn digit(d: nat) -> char {
    (48 + d) as char
}

/// `n` in decimal, without leading zeros.
pub open spec fn digits(n: nat) -> Seq<char>
    decreases n,
{
    if n < 10 {
        seq![digit(n)]
    } else {
        digits(n / 10).push(digit(n % 10))
    }
}

/// Ten to the power `k`.
spec fn tens(k: nat) -> nat
    decreases k,
{
    if k == 0 {
        1
    } else {
        10 * tens((k - 1) as nat)
    }
}

proof fn lemma_digits_len(n: nat, k: nat)
    requires
        k > 0,
        n < tens(k),
    ensures
        1 <= digits(n).len() <= k,
    decreases k,
{
    if n >= 10 {
        if k == 1 {
            assert(tens(0) == 1);
        } else {
            lemma_digits_len(n / 10, (k - 1) as nat);
        }
    }
}

/// A 64-bit number has at most twenty digits.
pub proof fn lemma_digits_u64(n: u64)
    ensures
        1 <= digits(n as nat).len() <= 20,
{
    reveal_with_fuel(tens, 21);
    assert(tens(20) == 100000000000000000000);
    lemma_digits_len(n as nat, 20);
}

/// The decimal digit `d`.
pub fn digit_char(d: u64) -> (c: char)
    requires
        d < 10,
    ensures
        c == digit(d as nat),
{
    match d {
        0 => '0',
        1 => '1',
        2 => '2',
        3 => '3',
        4 => '4',
        5 => '5',
        6 => '6',
        7 => '7',
        8 => '8',
        _ => '9',
    }
}

/// `n` in decimal.
pub fn decimal(n: u64) -> (r: String)
    ensures
        r@ == digits(n as nat),
    decreases n,
{
    if n < 10 {
        let mut s = String::new();
        s.push(digit_char(n));
        assert(s@ =~= digits(n as nat));
        s
    } else {
        let mut s = decimal(n / 10);
        s.push(digit_char(n % 10));
        s
    }
}

/// Whether `s` begins with `p`.
pub open spec fn begins(s: Seq<char>, p: Seq<char>) -> bool {
    p.len() <= s.len() && s.subrange(0, p.len() as int) == p
}

/// Whether `s` ends with `p`.
pub open spec fn ends(s: Seq<char>, p: Seq<char>) -> bool {
    p.len() <= s.len() && s.subrange(s.len() - p.len(), s.len() as int) == p
}

/// Whether `p` stands in `s` at `i`.
pub open spec fn stands_at(s: Seq<char>, p: Seq<char>, i: int) -> bool {
    0 <= i <= s.len() - p.len() && s.subrange(i, i + p.len()) == p
}

/// Whether `p` stands anywhere in `s`.
pub open spec fn contains(s: Seq<char>, p: Seq<char>) -> bool {
    exists|i: int| stands_at(s, p, i)
}

/// Whether the characters `p` stand in `s` at `at`.
fn matches_at(s: &Vec<char>, p: &Vec<char>, at: usize) -> (r: bool)
    requires
        at + p@.len() <= s@.len(),
    ensures
        r == stands_at(s@, p@, at as int),
{
    let mut i: usize = 0;
    while i < p.len()
        invariant
            i <= p@.len(),
            at + p@.len() <= s.len(),
            forall|k: int| 0 <= k < i ==> s@[at + k] == p@[k],
        decreases p@.len() - i,
    {
        if s[at + i] != p[i] {
            assert(s@.subrange(at as int, at + p@.len())[i as int] != p@[i as int]);
            return false;
        }
        i += 1;
    }
    assert(s@.subrange(at as int, at + p@.len()) =~= p@);
    true
}

/// Whether `s` begins with `p`.
pub fn starts_with(s: &str, p: &str) -> (r: bool)
    ensures
        r == begins(s@, p@),
{
    let v = chars_of(s);
    let w = chars_of(p);
    w.len() <= v.len() && matches_at(&v, &w, 0)
}

/// Whether `s` ends with `p`.
pub fn ends_with(s: &str, p: &str) -> (r: bool)
    ensures
        r == ends(s@, p@),
{
    let v = chars_of(s);
    let w = chars_of(p);
    w.len() <= v.len() && matches_at(&v, &w, v.len() - w.len())
}

/// Whether `p` stands anywhere in `s`.
pub fn has(s: &str, p: &str) -> (r: bool)
    ensures
        r == contains(s@, p@),
{
    let v = chars_of(s);
    let w = chars_of(p);
    if w.len() > v.len() {
        return false;
    }
    let last: usize = v.len() - w.len();
    let mut i: usize = 0;
    while i <= last
        invariant
            v@ == s@,
            w@ == p@,
            w@.len() <= v@.len(),
            last == v@.len() - w@.len(),
            i <= last + 1,
            forall|k: int| 0 <= k < i ==> !stands_at(s@, p@, k),
        decreases last + 1 - i,
    {
        if matches_at(&v, &w, i) {
            return true;
        }
        if i == last {
            return false;
        }
        i += 1;
    }
    false
}

/// `s` without the white space at its end.
pub open spec fn trimmed_end(s: Seq<char>) -> Seq<char>
    decreases s.len(),
{
    if s.len() > 0 && blank(s.last()) {
        trimmed_end(s.drop_last())
    } else {
        s
    }
}

/// `s` without the white space at its start.
pub open spec fn trimmed_start(s: Seq<char>) -> Seq<char>
    decreases s.len(),
{
    if s.len() > 0 && blank(s.first()) {
        trimmed_start(s.drop_first())
    } else {
        s
    }
}

/// `s` without the white space around it.
pub open spec fn trimmed(s: Seq<char>) -> Seq<char> {
    trimmed_start(trimmed_end(s))
}

/// `s` without the white space at its end.
pub fn trim_end(s: &str) -> (r: String)
    ensures
        r@ == trimmed_end(s@),
{
    let v = chars_of(s);
    let mut n: usize = v.len();
    assert(s@.take(n as int) =~= s@);
    while n > 0 && is_whitespace(v[n - 1])
        invariant
            v@ == s@,
            n <= v@.len(),
            trimmed_end(s@.take(n as int)) == trimmed_end(s@),
        decreases n,
    {
        assert(s@.take(n as int).drop_last() =~= s@.take(n - 1));
        n -= 1;
    }
    text_between(&v, 0, n)
}

/// `s` without the white space around it.
pub fn trim(s: &str) -> (r: String)
    ensures
        r@ == trimmed(s@),
{
    let t = trim_end(s);
    let v = chars_of(t.as_str());
    let n: usize = v.len();
    let mut i: usize = 0;
    assert(v@.skip(0) =~= v@);
    while i < n && is_whitespace(v[i])
        invariant
            n == v@.len(),
            i <= n,
            trimmed_start(v@.skip(i as int)) == trimmed_start(v@),
        decreases n - i,
    {
        assert(v@.skip(i as int).drop_first() =~= v@.skip(i + 1));
        i += 1;
    }
    text_between(&v, i, n)
}

/// `s` without the slashes at its end.
pub open spec fn without_slashes(s: Seq<char>) -> Seq<char>
    decreases s.len(),
{
    if s.len() > 0 && s.last() == '/' {
        without_slashes(s.drop_last())
    } else {
        s
    }
}

/// `s` without the slashes at its end.
pub fn trim_slashes(s: &str) -> (r: String)
    ensures
        r@ == without_slashes(s@),
{
    let v = chars_of(s);
    let mut n: usize = v.len();
    assert(s@.take(n as int) =~= s@);
    while n > 0 && v[n - 1] == '/'
        invariant
            v@ == s@,
            n <= v@.len(),
            without_slashes(s@.take(n as int)) == without_slashes(s@),
        decreases n,
    {
        assert(s@.take(n as int).drop_last() =~= s@.take(n - 1));
        n -= 1;
    }
    text_between(&v, 0, n)
}

/// The texts of a list of strings.
pub open spec fn texts(v: Seq<String>) -> Seq<Seq<char>> {
    v.map_values(|s: String| s@)
}

/// `parts` with `sep` between each two.
pub open spec fn joined(parts: Seq<Seq<char>>, sep: Seq<char>) -> Seq<char>
    decreases parts.len(),
{
    if parts.len() == 0 {
        Seq::empty()
    } else if parts.len() == 1 {
        parts[0]
    } else {
        joined(parts.drop_last(), sep) + sep + parts.last()
    }
}

/// `parts` with `sep` between each two.
pub fn join(parts: &Vec<String>, sep: &str) -> (r: String)
    ensures
        r@ == joined(texts(parts@), sep@),
{
    let mut s = String::new();
    let mut i: usize = 0;
    while i < parts.len()
        invariant
            i <= parts@.len(),
            s@ == joined(texts(parts@.take(i as int)), sep@),
        decreases parts@.len() - i,
    {
        let ghost before = parts@.take(i as int);
        let ghost after = parts@.take(i + 1);
        assert(texts(after).drop_last() =~= texts(before));
        if i > 0 {
            s.append(sep);
        }
        s.append(parts[i].as_str());
        proof {
            if i == 0 {
                assert(s@ =~= parts@[0]@);
                assert(texts(after).len() == 1);
            }
        }
        i += 1;
    }
    assert(parts@.take(parts@.len() as int) =~= parts@);
    s
}

/// How many characters `s` holds.
pub fn char_count(s: &str) -> (n: usize)
    ensures
        n == s@.len(),
{
    s.unicode_len()
}

/// `a` when it is there, as an owned string.
pub fn owned(a: Option<&str>) -> (r: Option<String>)
    ensures
        r is Some <==> a is Some,
        a matches Some(s) ==> r->0@ == s@,
{
    match a {
        Some(s) => Some(s.to_owned()),
        None => None,
    }
}

/// The text of an optional string.
pub open spec fn opt_text(a: Option<String>) -> Option<Seq<char>> {
    match a {
        Some(s) => Some(s@),
        None => None,
    }
}

/// A copy of an optional string.
pub fn copied(a: &Option<String>) -> (r: Option<String>)
    ensures
        r == *a,
{
    match a {
        Some(s) => Some(s.clone()),
        None => None,
    }
}

/// How much of `s` stands before its first line feed.
pub open spec fn head_len(s: Seq<char>) -> nat
    decreases s.len(),
{
    if s.len() == 0 || s[0] == '\n' {
        0
    } else {
        1 + head_len(s.drop_first())
    }
}

proof fn lemma_head_len(s: Seq<char>, n: int)
    requires
        0 <= n <= s.len(),
        forall|i: int| 0 <= i < n ==> s[i] != '\n',
        n < s.len() ==> s[n] == '\n',
    ensures
        head_len(s) == n,
    decreases s.len(),
{
    if n > 0 {
        let rest = s.drop_first();
        assert forall|i: int| 0 <= i < n - 1 implies rest[i] != '\n' by {
            assert(rest[i] == s[i + 1]);
        }
        lemma_head_len(rest, n - 1);
    }
}

/// The first line of `s`, without the line feed that ends it or the carriage
/// return before that.
pub open spec fn first_line(s: Seq<char>) -> Seq<char> {
    let n = head_len(s) as int;
    if 0 < n < s.len() && s[n - 1] == '\r' {
        s.take(n - 1)
    } else {
        s.take(n)
    }
}

/// What follows the first line of `s`.
pub open spec fn after_first_line(s: Seq<char>) -> Seq<char> {
    let n = head_len(s) as int;
    if n < s.len() {
        s.skip(n + 1)
    } else {
        Seq::empty()
    }
}

/// The first line of `v[from..]` and where the next one begins.
fn split_line(v: &Vec<char>, from: usize) -> (r: (String, usize))
    requires
        from <= v@.len(),
    ensures
        r.0@ == first_line(v@.skip(from as int)),
        from <= r.1 <= v@.len(),
        v@.skip(r.1 as int) == after_first_line(v@.skip(from as int)),
        from < v@.len() ==> r.1 > from,
{
    let ghost rest = v@.skip(from as int);
    let mut n: usize = from;
    while n < v.len() && v[n] != '\n'
        invariant
            from <= n <= v@.len(),
            forall|i: int| from <= i < n ==> v@[i] != '\n',
        decreases v@.len() - n,
    {
        n += 1;
    }
    proof {
        assert forall|i: int| 0 <= i < n - from implies rest[i] != '\n' by {
            assert(rest[i] == v@[from + i]);
        }
        lemma_head_len(rest, n - from);
    }
    let end: usize = if from < n && n < v.len() && v[n - 1] == '\r' {
        n - 1
    } else {
        n
    };
    let line = text_between(v, from, end);
    assert(line@ =~= first_line(rest));
    let next: usize = if n < v.len() {
        n + 1
    } else {
        n
    };
    assert(v@.skip(next as int) =~= after_first_line(rest));
    (line, next)
}

/// The first line of `s`.
pub fn first_line_of(s: &str) -> (r: String)
    ensures
        r@ == first_line(s@),
{
    let v = chars_of(s);
    assert(v@.skip(0) =~= s@);
    let (line, _) = split_line(&v, 0);
    line
}

/// The first two lines of `s`, when it has as many.
pub fn two_lines(s: &str) -> (r: Option<(String, String)>)
    ensures
        r is Some <==> s@.len() > 0 && after_first_line(s@).len() > 0,
        r matches Some((a, b)) ==> a@ == first_line(s@) && b@ == first_line(after_first_line(s@)),
{
    let v = chars_of(s);
    assert(v@.skip(0) =~= s@);
    if v.len() == 0 {
        return None;
    }
    let (a, next) = split_line(&v, 0);
    if next >= v.len() {
        return None;
    }
    let (b, _) = split_line(&v, next);
    Some((a, b))
}

/// Trimming takes white space off the end of a text, all of it and nothing
/// else.
pub proof fn law_trimming_the_end(s: Seq<char>)
    ensures
        text_end(s) <= s.len(),
        trimmed_end(s) == s.take(text_end(s) as int),
        forall|i: int| text_end(s) <= i < s.len() ==> blank(#[trigger] s[i]),
        text_end(s) > 0 ==> !blank(s[text_end(s) - 1]),
    decreases s.len(),
{
    if s.len() > 0 && blank(s.last()) {
        let front = s.drop_last();
        law_trimming_the_end(front);
        assert(front.take(text_end(front) as int) =~= s.take(text_end(front) as int));
        assert forall|i: int| text_end(s) <= i < s.len() implies blank(#[trigger] s[i]) by {
            if i < s.len() - 1 {
                assert(s[i] == front[i]);
            }
        }
    } else {
        assert(s.take(s.len() as int) =~= s);
    }
}

/// Where the white space at the end of a text begins.
pub open spec fn text_end(s: Seq<char>) -> nat {
    trimmed_end(s).len()
}

proof fn lemma_trimmed_start(s: Seq<char>)
    ensures
        trimmed_start(s).len() <= s.len(),
        trimmed_start(s) == s.skip(s.len() - trimmed_start(s).len()),
        forall|i: int| 0 <= i < s.len() - trimmed_start(s).len() ==> blank(#[trigger] s[i]),
        trimmed_start(s).len() > 0 ==> !blank(trimmed_start(s)[0]),
    decreases s.len(),
{
    if s.len() > 0 && blank(s.first()) {
        let rest = s.drop_first();
        lemma_trimmed_start(rest);
        let n = trimmed_start(rest).len() as int;
        assert(rest.skip(rest.len() - n) =~= s.skip(s.len() - n));
        assert forall|i: int| 0 <= i < s.len() - n implies blank(#[trigger] s[i]) by {
            if i > 0 {
                assert(s[i] == rest[i - 1]);
            }
        }
    } else {
        assert(s.skip(0) =~= s);
    }
}

/// Trimming takes white space off both ends of a text, all of it and nothing
/// else.
pub proof fn law_trimming_both_ends(s: Seq<char>)
    ensures
        exists|a: int, b: int|
            0 <= a <= b <= s.len() && trimmed(s) == #[trigger] s.subrange(a, b) && (forall|i: int|
                0 <= i < a || b <= i < s.len() ==> blank(#[trigger] s[i])),
        trimmed(s).len() > 0 ==> !blank(trimmed(s)[0]) && !blank(trimmed(s).last()),
{
    let t = trimmed_end(s);
    law_trimming_the_end(s);
    lemma_trimmed_start(t);
    let a = t.len() - trimmed(s).len();
    let b = t.len() as int;
    assert(trimmed(s) =~= s.subrange(a, b));
    assert forall|i: int| 0 <= i < a || b <= i < s.len() implies blank(#[trigger] s[i]) by {
        if i < a {
            assert(s[i] == t[i]);
        }
    }
}

/// The number that a text of decimal digits stands for.
pub open spec fn value_of(s: Seq<char>) -> int
    decreases s.len(),
{
    if s.len() == 0 {
        0
    } else {
        10 * value_of(s.drop_last()) + (s.last() as int - '0' as int)
    }
}

/// A number is written in decimal digits that read as that number, without a
/// zero in front.
pub proof fn law_digits_read_as_the_number(n: nat)
    ensures
        digits(n).len() > 0,
        value_of(digits(n)) == n,
        forall|i: int| 0 <= i < digits(n).len() ==> '0' <= #[trigger] digits(n)[i] <= '9',
        n > 0 ==> digits(n)[0] != '0',
    decreases n,
{
    let d = digits(n);
    if n < 10 {
        assert(d.drop_last() =~= Seq::empty());
        assert(value_of(d.drop_last()) == 0);
    } else {
        law_digits_read_as_the_number(n / 10);
        let front = digits(n / 10);
        assert(d.drop_last() =~= front);
        assert forall|i: int| 0 <= i < d.len() implies '0' <= #[trigger] d[i] <= '9' by {
            if i < front.len() {
                assert(d[i] == front[i]);
            }
        }
        assert(d[0] == front[0]);
    }
}

/// Slashes at the end of a path do not count.
pub proof fn law_slashes_at_the_end_do_not_count(s: Seq<char>)
    ensures
        without_slashes(s.push('/')) == without_slashes(s),
        s.len() > 0 && s.last() != '/' ==> without_slashes(s) == s,
        without_slashes(s).len() <= s.len(),
        without_slashes(s) == s.take(without_slashes(s).len() as int),
        forall|i: int| without_slashes(s).len() <= i < s.len() ==> (#[trigger] s[i]) == '/',
    decreases s.len(),
{
    assert(s.push('/').drop_last() =~= s);
    if s.len() > 0 && s.last() == '/' {
        let front = s.drop_last();
        law_slashes_at_the_end_do_not_count(front);
        let n = without_slashes(front).len() as int;
        assert(front.take(n) =~= s.take(n));
        assert forall|i: int| n <= i < s.len() implies (#[trigger] s[i]) == '/' by {
            if i < s.len() - 1 {
                assert(s[i] == front[i]);
            }
        }
    } else {
        assert(s.take(s.len() as int) =~= s);
    }
}

/// The first line of a text ends at its first line feed, and a carriage return
/// before that belongs to the terminator.
pub proof fn law_the_first_line_ends_at_a_line_feed(line: Seq<char>, rest: Seq<char>)
    requires
        forall|i: int| 0 <= i < line.len() ==> (#[trigger] line[i]) != '\n',
        line.len() > 0 ==> line.last() != '\r',
    ensures
        first_line(line) == line,
        first_line(line.push('\n') + rest) == line,
        first_line(line.push('\r').push('\n') + rest) == line,
        after_first_line(line.push('\n') + rest) == rest,
        after_first_line(line.push('\r').push('\n') + rest) == rest,
        after_first_line(line).len() == 0,
{
    let n = line.len() as int;
    let s = line.push('\n') + rest;
    let t = line.push('\r').push('\n') + rest;
    assert(s[n] == '\n');
    assert(t[n + 1] == '\n');
    lemma_head_len(line, n);
    assert forall|i: int| 0 <= i < n implies (#[trigger] s[i]) != '\n' by {
        assert(s[i] == line[i]);
    }
    lemma_head_len(s, n);
    assert forall|i: int| 0 <= i < n + 1 implies (#[trigger] t[i]) != '\n' by {
        if i < n {
            assert(t[i] == line[i]);
        }
    }
    lemma_head_len(t, n + 1);
    assert(line.take(n) =~= line);
    assert(s.take(n) =~= line);
    assert(t.take(n) =~= line);
    assert(s.skip(n + 1) =~= rest);
    assert(t.skip(n + 2) =~= rest);
    if n > 0 {
        assert(s[n - 1] == line.last());
    }
    assert(t[n] == '\r');
}

/// Joined parts stand one after the other with the separator between.
pub proof fn law_joining(parts: Seq<Seq<char>>, part: Seq<char>, sep: Seq<char>)
    ensures
        joined(seq![part], sep) == part,
        parts.len() > 0 ==> joined(parts.push(part), sep) == joined(parts, sep) + sep + part,
{
    assert(parts.push(part).drop_last() =~= parts);
}

/// A text begins with what stands at its start and ends with what stands at
/// its end, and with nothing else.
pub proof fn law_texts_begin_and_end_with_their_parts(a: Seq<char>, b: Seq<char>, s: Seq<char>)
    ensures
        begins(a + b, a),
        ends(a + b, b),
        begins(s, a) ==> s == a + s.skip(a.len() as int),
        ends(s, b) ==> s == s.take(s.len() - b.len()) + b,
{
    assert((a + b).subrange(0, a.len() as int) =~= a);
    assert((a + b).subrange((a + b).len() - b.len(), (a + b).len() as int) =~= b);
    if begins(s, a) {
        assert(s =~= s.subrange(0, a.len() as int) + s.skip(a.len() as int));
    }
    if ends(s, b) {
        assert(s =~= s.take(s.len() - b.len()) + s.subrange(s.len() - b.len(), s.len() as int));
    }
}

/// A text contains what stands anywhere in it, and nothing else.
pub proof fn law_texts_contain_their_parts(a: Seq<char>, b: Seq<char>, c: Seq<char>, s: Seq<char>)
    ensures
        contains(a + b + c, b),
        contains(s, b) ==> exists|i: int|
            0 <= i <= s.len() - b.len() && #[trigger] s.subrange(i, i + b.len()) == b,
{
    let n = a.len() as int;
    assert((a + b + c).subrange(n, n + b.len()) =~= b);
    assert(stands_at(a + b + c, b, n));
    if contains(s, b) {
        let i = choose|i: int| stands_at(s, b, i);
        assert(s.subrange(i, i + b.len()) == b);
    }
}

} // verus!
