//! Errors of the generation settings, and the `key = value` grammar of a
//! settings file.
//!
//! The settings themselves hold decimal fractions (the density range), so
//! they live with the program that reads and writes them; what goes wrong
//! while reading them is reported with this type.

use vstd::prelude::*;
use vstd::string::StringExecFns;

use crate::command::{is_space, white_space};

verus! {

/// A setting that could not be read or written, with a message for the
/// player.
pub struct ConfigError(pub String);

impl ConfigError {
    /// The message.
    pub fn message(&self) -> (m: &String)
        ensures
            m@ == self.0@,
    {
        &self.0
    }
}

// ---------------------------------------------------------------------------
// The settings file
// ---------------------------------------------------------------------------

/// `s` without the byte order marks some editors put at its start.
pub open spec fn strip_bom(s: Seq<char>) -> Seq<char>
    decreases s.len(),
{
    if s.len() > 0 && s[0] == '\u{feff}' {
        strip_bom(s.drop_first())
    } else {
        s
    }
}

/// The lines of `s`, split at line feeds. A carriage return before a line
/// feed stays on its line, where it is white space.
pub open spec fn split_lines(s: Seq<char>) -> Seq<Seq<char>>
    decreases s.len(),
{
    if s.len() == 0 {
        seq![Seq::empty()]
    } else {
        let prev = split_lines(s.drop_last());
        if s.last() == '\n' {
            prev.push(Seq::empty())
        } else {
            prev.update(prev.len() - 1, prev.last().push(s.last()))
        }
    }
}

/// Where `c` first occurs in `l`, or the length of `l` when it does not.
pub open spec fn first_at(l: Seq<char>, c: char) -> int
    decreases l.len(),
{
    if l.len() == 0 {
        0
    } else if l[0] == c {
        0
    } else {
        1 + first_at(l.drop_first(), c)
    }
}

/// `l` without its leading white space.
pub open spec fn trim_front(l: Seq<char>) -> Seq<char>
    decreases l.len(),
{
    if l.len() > 0 && white_space(l[0]) {
        trim_front(l.drop_first())
    } else {
        l
    }
}

/// `l` without its trailing white space.
pub open spec fn trim_back(l: Seq<char>) -> Seq<char>
    decreases l.len(),
{
    if l.len() > 0 && white_space(l.last()) {
        trim_back(l.drop_last())
    } else {
        l
    }
}

/// `l` without white space at either end.
pub open spec fn trimmed(l: Seq<char>) -> Seq<char> {
    trim_back(trim_front(l))
}

/// What one line of a settings file says: nothing (blank, or only a
/// comment after `#`), a key and a value on either side of the first `=`,
/// each without surrounding white space, or, without an `=`, the line as it
/// stands before its comment, which is an error.
pub open spec fn setting_line(l: Seq<char>) -> Option<Result<(Seq<char>, Seq<char>), Seq<char>>> {
    let body = trimmed(l.take(first_at(l, '#')));
    if body.len() == 0 {
        None
    } else if first_at(body, '=') < body.len() {
        let p = first_at(body, '=');
        Some(Ok((trimmed(body.take(p)), trimmed(body.skip(p + 1)))))
    } else {
        Some(Err(body))
    }
}

/// The settings of the first `k` lines, each with its line number counted
/// from one, up to the first line that is not `key = value`, which is
/// reported with its number.
pub open spec fn settings_upto(ls: Seq<Seq<char>>, k: int) -> (Seq<(nat, Seq<char>, Seq<char>)>, Option<(nat, Seq<char>)>)
    decreases k,
{
    if k <= 0 {
        (Seq::empty(), None)
    } else {
        let prev = settings_upto(ls, k - 1);
        if prev.1 is Some {
            prev
        } else {
            match setting_line(ls[k - 1]) {
                None => prev,
                Some(Ok(kv)) => (prev.0.push((k as nat, kv.0, kv.1)), None),
                Some(Err(t)) => (prev.0, Some((k as nat, t))),
            }
        }
    }
}

/// What a settings file says: its settings in order up to the first line
/// that is not `key = value`, and that line, if any.
pub open spec fn settings_text(text: Seq<char>) -> (Seq<(nat, Seq<char>, Seq<char>)>, Option<(nat, Seq<char>)>) {
    let ls = split_lines(strip_bom(text));
    settings_upto(ls, ls.len() as int)
}

/// The settings as plain values.
pub open spec fn settings_view(r: (Vec<(usize, String, String)>, Option<(usize, String)>)) -> (
    Seq<(nat, Seq<char>, Seq<char>)>,
    Option<(nat, Seq<char>)>,
) {
    (
        r.0@.map_values(|e: (usize, String, String)| (e.0 as nat, e.1@, e.2@)),
        match r.1 {
            None => None,
            Some(e) => Some((e.0 as nat, e.1@)),
        },
    )
}

proof fn lemma_split_lines_len(s: Seq<char>)
    ensures
        split_lines(s).len() >= 1,
    decreases s.len(),
{
    if s.len() > 0 {
        lemma_split_lines_len(s.drop_last());
    }
}

/// `first_at` finds the first position holding `c`.
proof fn lemma_first_at(l: Seq<char>, c: char, i: int)
    requires
        0 <= i <= l.len(),
        forall|j: int| 0 <= j < i ==> l[j] != c,
        i == l.len() || l[i] == c,
    ensures
        first_at(l, c) == i,
    decreases i,
{
    if i > 0 {
        lemma_first_at(l.drop_first(), c, i - 1);
    }
}

/// Leading white space up to `a` is what `trim_front` drops.
proof fn lemma_trim_front(l: Seq<char>, a: int)
    requires
        0 <= a <= l.len(),
        forall|j: int| 0 <= j < a ==> white_space(l[j]),
        a == l.len() || !white_space(l[a]),
    ensures
        trim_front(l) == l.skip(a),
    decreases a,
{
    if a > 0 {
        lemma_trim_front(l.drop_first(), a - 1);
        assert(l.drop_first().skip(a - 1) =~= l.skip(a));
    } else {
        assert(l.skip(0) =~= l);
    }
}

/// Trailing white space from `b` on is what `trim_back` drops.
proof fn lemma_trim_back(l: Seq<char>, b: int)
    requires
        0 <= b <= l.len(),
        forall|j: int| b <= j < l.len() ==> white_space(l[j]),
        b == 0 || !white_space(l[b - 1]),
    ensures
        trim_back(l) == l.take(b),
    decreases l.len() - b,
{
    if b < l.len() {
        lemma_trim_back(l.drop_last(), b);
        assert(l.drop_last().take(b) =~= l.take(b));
    } else {
        assert(l.take(b) =~= l);
    }
}

/// The characters of `v` from `a` up to `b`.
fn chars_between(v: &Vec<char>, a: usize, b: usize) -> (r: Vec<char>)
    requires
        a <= b <= v@.len(),
    ensures
        r@ == v@.subrange(a as int, b as int),
{
    let mut r: Vec<char> = Vec::new();
    let mut i = a;
    while i < b
        invariant
            a <= i <= b <= v@.len(),
            r@ == v@.subrange(a as int, i as int),
        decreases b - i,
    {
        r.push(v[i]);
        i = i + 1;
    }
    r
}

/// `v` without white space at either end.
fn trim_chars(v: &Vec<char>) -> (r: Vec<char>)
    ensures
        r@ == trimmed(v@),
{
    let n = v.len();
    let mut a: usize = 0;
    while a < n && is_space(v[a])
        invariant
            a <= n == v@.len(),
            forall|j: int| 0 <= j < a ==> white_space(v@[j]),
        decreases n - a,
    {
        a = a + 1;
    }
    let mut b: usize = n;
    while b > a && is_space(v[b - 1])
        invariant
            a <= b <= n == v@.len(),
            forall|j: int| b <= j < n ==> white_space(v@[j]),
        decreases b,
    {
        b = b - 1;
    }
    proof {
        lemma_trim_front(v@, a as int);
        let f = v@.skip(a as int);
        assert forall|j: int| b - a <= j < f.len() implies white_space(f[j]) by {
            assert(f[j] == v@[j + a]);
        }
        if b > a {
            assert(f[b - a - 1] == v@[b - 1]);
        }
        lemma_trim_back(f, b - a);
        assert(f.take(b - a) =~= v@.subrange(a as int, b as int));
    }
    chars_between(v, a, b)
}

/// Where `c` first occurs in `v`, or its length.
fn first_index(v: &Vec<char>, c: char) -> (p: usize)
    ensures
        p == first_at(v@, c),
        p <= v@.len(),
{
    let mut i: usize = 0;
    while i < v.len() && v[i] != c
        invariant
            i <= v@.len(),
            forall|j: int| 0 <= j < i ==> v@[j] != c,
        decreases v@.len() - i,
    {
        i = i + 1;
    }
    proof {
        lemma_first_at(v@, c, i as int);
    }
    i
}

/// The text of `v`.
fn string_of(v: &Vec<char>) -> (s: String)
    ensures
        s@ == v@,
{
    let mut s = String::new();
    let mut i: usize = 0;
    while i < v.len()
        invariant
            i <= v@.len(),
            s@ == v@.take(i as int),
        decreases v@.len() - i,
    {
        crate::model::push_char(&mut s, v[i]);
        proof {
            assert(v@.take(i + 1) =~= v@.take(i as int).push(v@[i as int]));
        }
        i = i + 1;
    }
    proof {
        assert(v@.take(v@.len() as int) =~= v@);
    }
    s
}

/// What one line says, as [`setting_line`] reads it.
fn read_line(l: &Vec<char>) -> (r: Option<Result<(String, String), String>>)
    ensures
        r == None::<Result<(String, String), String>> <==> setting_line(l@) is None,
        r matches Some(Ok(kv)) ==> setting_line(l@) == Some(Ok::<(Seq<char>, Seq<char>), Seq<char>>((kv.0@, kv.1@))),
        r matches Some(Err(t)) ==> setting_line(l@) == Some(Err::<(Seq<char>, Seq<char>), Seq<char>>(t@)),
{
    let h = first_index(l, '#');
    let before = chars_between(l, 0, h);
    proof {
        assert(before@ =~= l@.take(h as int));
    }
    let body = trim_chars(&before);
    if body.len() == 0 {
        return None;
    }
    let p = first_index(&body, '=');
    if p < body.len() {
        let key = trim_chars(&chars_between(&body, 0, p));
        let value = trim_chars(&chars_between(&body, p + 1, body.len()));
        proof {
            assert(body@.subrange(0, p as int) =~= body@.take(p as int));
            assert(body@.subrange(p + 1, body@.len() as int) =~= body@.skip(p + 1));
        }
        Some(Ok((string_of(&key), string_of(&value))))
    } else {
        Some(Err(string_of(&body)))
    }
}

/// Read a settings file: `key = value` lines, where `#` starts a comment
/// and blank lines count only for the line numbers. Gives the settings in
/// order, each with its line number counted from one, up to the first line
/// that is not `key = value`, and that line with its number, if any.
pub fn settings_lines(text: &str) -> (r: (Vec<(usize, String, String)>, Option<(usize, String)>))
    requires
        text@.len() < usize::MAX,
    ensures
        settings_view(r) == settings_text(text@),
{
    let n = text.unicode_len();
    let mut b: usize = 0;
    proof {
        assert(text@.skip(0) =~= text@);
    }
    while b < n && text.get_char(b) == '\u{feff}'
        invariant
            n == text@.len(),
            b <= n,
            strip_bom(text@.skip(b as int)) == strip_bom(text@),
        decreases n - b,
    {
        proof {
            assert(text@.skip(b as int).drop_first() =~= text@.skip(b + 1));
        }
        b = b + 1;
    }
    let ghost rest = text@.skip(b as int);
    proof {
        if b < n {
            assert(rest[0] == text@[b as int]);
        }
        assert(strip_bom(rest) == rest);
    }
    let mut entries: Vec<(usize, String, String)> = Vec::new();
    let mut bad: Option<(usize, String)> = None;
    let mut line: Vec<char> = Vec::new();
    let mut number: usize = 0;
    let ghost mut done: Seq<Seq<char>> = Seq::empty();
    let mut i: usize = b;
    while i < n
        invariant
            n == text@.len(),
            b <= i <= n,
            rest == text@.skip(b as int),
            split_lines(rest.take(i - b)) == done.push(line@),
            number == done.len(),
            number <= i - b,
            settings_view((entries, bad)) == settings_upto(done, done.len() as int),
        decreases n - i,
    {
        let c = text.get_char(i);
        proof {
            assert(rest.take(i - b + 1).drop_last() =~= rest.take(i - b));
            assert(rest.take(i - b + 1).last() == c);
            lemma_split_lines_len(rest.take(i - b));
        }
        if c == '\n' {
            let ghost prev = settings_upto(done, done.len() as int);
            let ghost done2 = done.push(line@);
            proof {
                assert(done2[done2.len() - 1] == line@);
                assert(settings_upto(done2, done2.len() - 1) == prev) by {
                    lemma_settings_upto_prefix(done, line@, done.len() as int);
                }
            }
            number = number + 1;
            if bad.is_none() {
                match read_line(&line) {
                    None => {},
                    Some(Ok(kv)) => {
                        let ghost e0 = entries@;
                        entries.push((number, kv.0, kv.1));
                        proof {
                            assert(settings_view((entries, bad)).0 =~= prev.0.push((number as nat, kv.0@, kv.1@)));
                        }
                    },
                    Some(Err(t)) => {
                        bad = Some((number, t));
                    },
                }
            }
            proof {
                done = done2;
            }
            line = Vec::new();
            proof {
                assert(split_lines(rest.take(i - b + 1)) =~= done.push(line@));
            }
        } else {
            line.push(c);
            proof {
                assert(split_lines(rest.take(i - b + 1)) =~= done.push(line@));
            }
        }
        i = i + 1;
    }
    proof {
        assert(rest.take(n - b) =~= rest);
    }
    let ghost prev = settings_upto(done, done.len() as int);
    let ghost done2 = done.push(line@);
    proof {
        lemma_settings_upto_prefix(done, line@, done.len() as int);
    }
    number = number + 1;
    if bad.is_none() {
        match read_line(&line) {
            None => {},
            Some(Ok(kv)) => {
                entries.push((number, kv.0, kv.1));
                proof {
                    assert(settings_view((entries, bad)).0 =~= prev.0.push((number as nat, kv.0@, kv.1@)));
                }
            },
            Some(Err(t)) => {
                bad = Some((number, t));
            },
        }
    }
    proof {
        assert(done2.len() == split_lines(strip_bom(text@)).len());
        assert(done2 == split_lines(strip_bom(text@)));
    }
    (entries, bad)
}

/// Adding a line after the first `k` leaves what they say unchanged.
proof fn lemma_settings_upto_prefix(ls: Seq<Seq<char>>, l: Seq<char>, k: int)
    requires
        0 <= k <= ls.len(),
    ensures
        settings_upto(ls.push(l), k) == settings_upto(ls, k),
    decreases k,
{
    if k > 0 {
        lemma_settings_upto_prefix(ls, l, k - 1);
        assert(ls.push(l)[k - 1] == ls[k - 1]);
    }
}

} // verus!
