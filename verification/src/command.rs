//! Helpers of the text command language and the JSON replies that a front
//! end (such as the browser page) exchanges with the engine.

use vstd::prelude::*;
use vstd::string::StringExecFns;

verus! {

/// An ASCII decimal digit.
pub open spec fn is_digit(c: char) -> bool {
    '0' <= c && c <= '9'
}

/// One or more decimal digits and nothing else.
pub open spec fn all_digits(s: Seq<char>) -> bool {
    s.len() > 0 && forall|i: int| 0 <= i < s.len() ==> is_digit(#[trigger] s[i])
}

/// The value of a string of decimal digits.
pub open spec fn digits_value(s: Seq<char>) -> int
    decreases s.len(),
{
    if s.len() == 0 {
        0
    } else {
        digits_value(s.drop_last()) * 10 + (s.last() as int - '0' as int)
    }
}

proof fn lemma_digits_value_nonneg(s: Seq<char>)
    requires
        forall|i: int| 0 <= i < s.len() ==> is_digit(#[trigger] s[i]),
    ensures
        digits_value(s) >= 0,
    decreases s.len(),
{
    if s.len() > 0 {
        lemma_digits_value_nonneg(s.drop_last());
    }
}

/// The integer spelled by an optional `+` or `-` followed by decimal digits.
pub open spec fn signed_text(s: Seq<char>) -> Option<int> {
    if s.len() > 0 && s[0] == '-' && all_digits(s.drop_first()) {
        Some(-digits_value(s.drop_first()))
    } else if s.len() > 0 && s[0] == '+' && all_digits(s.drop_first()) {
        Some(digits_value(s.drop_first()))
    } else if all_digits(s) {
        Some(digits_value(s))
    } else {
        None
    }
}

/// The number spelled by an optional `+` followed by decimal digits.
pub open spec fn unsigned_text(s: Seq<char>) -> Option<int> {
    if s.len() > 0 && s[0] == '+' && all_digits(s.drop_first()) {
        Some(digits_value(s.drop_first()))
    } else if all_digits(s) {
        Some(digits_value(s))
    } else {
        None
    }
}

/// `str::parse::<i64>`: an optional `+` or `-` followed by decimal digits
/// only, whose value fits; anything else is an error.
#[verifier::external_body]
fn parse_i64_text(text: &str) -> (r: Option<i64>)
    ensures
        r == match signed_text(text@) {
            Some(v) => if i64::MIN <= v <= i64::MAX {
                Some(v as i64)
            } else {
                None
            },
            None => None,
        },
{
    text.parse::<i64>().ok()
}

/// `str::parse::<usize>`: an optional `+` followed by decimal digits only,
/// whose value fits; anything else is an error.
#[verifier::external_body]
fn parse_usize_text(text: &str) -> (r: Option<usize>)
    ensures
        r == match unsigned_text(text@) {
            Some(v) => if v <= usize::MAX {
                Some(v as usize)
            } else {
                None
            },
            None => None,
        },
{
    text.parse::<usize>().ok()
}

/// The text of an optional argument.
pub open spec fn opt_view(t: Option<&str>) -> Option<Seq<char>> {
    match t {
        Some(s) => Some(s@),
        None => None,
    }
}

/// A result with its error message taken by its text.
pub open spec fn res_view<T>(r: Result<T, String>) -> Result<T, Seq<char>> {
    match r {
        Ok(v) => Ok(v),
        Err(e) => Err(e@),
    }
}

/// A coordinate argument: a signed decimal that fits an `i64`.
pub open spec fn coordinate(t: Option<Seq<char>>) -> Result<i64, Seq<char>> {
    match t {
        None => Err("missing coordinate"@),
        Some(s) => match signed_text(s) {
            Some(v) => if i64::MIN <= v <= i64::MAX {
                Ok(v as i64)
            } else {
                Err("bad coordinate"@)
            },
            None => Err("bad coordinate"@),
        },
    }
}

/// A count argument: `fallback` when absent, otherwise an unsigned decimal
/// that fits a `usize`, clamped to `1..=200`.
pub open spec fn count_or(t: Option<Seq<char>>, fallback: usize) -> Result<usize, Seq<char>> {
    match t {
        None => Ok(fallback),
        Some(s) => match unsigned_text(s) {
            Some(v) => if v <= usize::MAX {
                Ok(
                    if v < 1 {
                        1
                    } else if v > 200 {
                        200
                    } else {
                        v as usize
                    },
                )
            } else {
                Err("bad count"@)
            },
            None => Err("bad count"@),
        },
    }
}

/// A coordinate argument of a command.
pub fn parse_i64(text: Option<&str>) -> (r: Result<i64, String>)
    ensures
        res_view(r) == coordinate(opt_view(text)),
{
    match text {
        None => {
            let e = String::from_str("missing coordinate");
            Err(e)
        },
        Some(t) => match parse_i64_text(t) {
            Some(v) => Ok(v),
            None => {
                let e = String::from_str("bad coordinate");
                Err(e)
            },
        },
    }
}

/// A count argument of a command: `fallback` when absent, otherwise clamped
/// to `1..=200`.
pub fn parse_count(text: Option<&str>, fallback: usize) -> (r: Result<usize, String>)
    ensures
        res_view(r) == count_or(opt_view(text), fallback),
{
    match text {
        None => Ok(fallback),
        Some(t) => match parse_usize_text(t) {
            Some(n) => {
                proof {
                    if t@.len() > 0 && t@[0] == '+' && all_digits(t@.drop_first()) {
                        lemma_digits_value_nonneg(t@.drop_first());
                    } else {
                        lemma_digits_value_nonneg(t@);
                    }
                }
                Ok(
                    if n < 1 {
                        1
                    } else if n > 200 {
                        200
                    } else {
                        n
                    },
                )
            },
            None => {
                let e = String::from_str("bad count");
                Err(e)
            },
        },
    }
}

/// `str::parse::<u64>`: an optional `+` followed by decimal digits only,
/// whose value fits; anything else is an error.
#[verifier::external_body]
fn parse_u64_text(text: &str) -> (r: Option<u64>)
    ensures
        r == match unsigned_text(text@) {
            Some(v) => if v <= u64::MAX {
                Some(v as u64)
            } else {
                None
            },
            None => None,
        },
{
    text.parse::<u64>().ok()
}

/// A seed argument: an unsigned decimal that fits a `u64`.
pub open spec fn seed_text(s: Seq<char>) -> Option<u64> {
    match unsigned_text(s) {
        Some(v) => if v <= u64::MAX {
            Some(v as u64)
        } else {
            None
        },
        None => None,
    }
}

/// Read a seed argument.
pub fn parse_seed(text: &str) -> (r: Option<u64>)
    ensures
        r == seed_text(text@),
{
    parse_u64_text(text)
}

/// The Unicode `White_Space` property.
pub open spec fn white_space(c: char) -> bool {
    let u = c as u32;
    ||| 0x9 <= u <= 0xD
    ||| u == 0x20
    ||| u == 0x85
    ||| u == 0xA0
    ||| u == 0x1680
    ||| 0x2000 <= u <= 0x200A
    ||| u == 0x2028
    ||| u == 0x2029
    ||| u == 0x202F
    ||| u == 0x205F
    ||| u == 0x3000
}

/// Whether `c` has the Unicode `White_Space` property, as
/// `char::is_whitespace` answers.
pub(crate) fn is_space(c: char) -> (r: bool)
    ensures
        r == white_space(c),
{
    let u = c as u32;
    (0x9 <= u && u <= 0xD) || u == 0x20 || u == 0x85 || u == 0xA0 || u == 0x1680 || (0x2000 <= u && u
        <= 0x200A) || u == 0x2028 || u == 0x2029 || u == 0x202F || u == 0x205F || u == 0x3000
}

/// The words read so far and the word being read, after the characters of
/// `s`.
pub open spec fn scan(s: Seq<char>) -> (Seq<Seq<char>>, Seq<char>)
    decreases s.len(),
{
    if s.len() == 0 {
        (Seq::empty(), Seq::empty())
    } else {
        let (ws, cur) = scan(s.drop_last());
        let c = s.last();
        if white_space(c) {
            if cur.len() > 0 {
                (ws.push(cur), Seq::empty())
            } else {
                (ws, cur)
            }
        } else {
            (ws, cur.push(c))
        }
    }
}

/// The words of `s`: the maximal runs of characters that are not white
/// space, in order.
pub open spec fn words_of(s: Seq<char>) -> Seq<Seq<char>> {
    let (ws, cur) = scan(s);
    if cur.len() > 0 {
        ws.push(cur)
    } else {
        ws
    }
}

/// The texts of a list of strings.
pub open spec fn views(ws: Seq<String>) -> Seq<Seq<char>> {
    ws.map_values(|w: String| w@)
}

/// The words of a command line.
pub fn words(text: &str) -> (ws: Vec<String>)
    ensures
        views(ws@) == words_of(text@),
{
    let n = text.unicode_len();
    let mut ws: Vec<String> = Vec::new();
    let mut cur = String::new();
    let mut i: usize = 0;
    while i < n
        invariant
            n == text@.len(),
            i <= n,
            views(ws@) == scan(text@.take(i as int)).0,
            cur@ == scan(text@.take(i as int)).1,
        decreases n - i,
    {
        proof {
            assert(text@.take(i + 1).drop_last() =~= text@.take(i as int));
        }
        let c = text.get_char(i);
        if is_space(c) {
            if cur.as_str().unicode_len() > 0 {
                let ghost before = ws@;
                ws.push(cur);
                cur = String::new();
                proof {
                    assert(views(ws@) =~= views(before).push(scan(text@.take(i as int)).1));
                }
            }
        } else {
            crate::model::push_char(&mut cur, c);
        }
        i = i + 1;
    }
    proof {
        assert(text@.take(n as int) =~= text@);
    }
    if cur.as_str().unicode_len() > 0 {
        let ghost before = ws@;
        ws.push(cur);
        proof {
            assert(views(ws@) =~= views(before).push(scan(text@).1));
        }
    }
    ws
}

/// Words joined by single spaces.
pub open spec fn joined(ws: Seq<Seq<char>>) -> Seq<char>
    decreases ws.len(),
{
    if ws.len() == 0 {
        Seq::empty()
    } else if ws.len() == 1 {
        ws[0]
    } else {
        joined(ws.drop_last()) + " "@ + ws.last()
    }
}

/// The words from `from` on, joined by single spaces.
pub fn join_from(ws: &Vec<String>, from: usize) -> (r: String)
    requires
        from <= ws@.len(),
    ensures
        r@ == joined(views(ws@).skip(from as int)),
{
    let mut r = String::new();
    if from >= ws.len() {
        proof {
            assert(views(ws@).skip(from as int) =~= Seq::<Seq<char>>::empty());
        }
        return r;
    }
    let mut i: usize = from;
    while i < ws.len()
        invariant
            from < ws@.len(),
            from <= i <= ws@.len(),
            r@ == joined(views(ws@).subrange(from as int, i as int)),
        decreases ws@.len() - i,
    {
        let ghost part = views(ws@).subrange(from as int, i + 1);
        proof {
            assert(part.drop_last() =~= views(ws@).subrange(from as int, i as int));
            assert(part.last() == ws@[i as int]@);
        }
        if i > from {
            r.append(" ");
        }
        r.append(ws[i].as_str());
        proof {
            if i == from {
                assert(part.len() == 1);
                assert(r@ =~= part[0]);
            }
        }
        i = i + 1;
    }
    proof {
        assert(views(ws@).subrange(from as int, ws@.len() as int) =~= views(ws@).skip(from as int));
    }
    r
}

/// The two texts are the same.
pub fn text_is(a: &str, b: &str) -> (r: bool)
    ensures
        r == (a@ == b@),
{
    let n = a.unicode_len();
    if n != b.unicode_len() {
        return false;
    }
    let mut i: usize = 0;
    while i < n
        invariant
            n == a@.len(),
            n == b@.len(),
            i <= n,
            forall|j: int| 0 <= j < i ==> a@[j] == b@[j],
        decreases n - i,
    {
        if a.get_char(i) != b.get_char(i) {
            return false;
        }
        i = i + 1;
    }
    proof {
        assert(a@ =~= b@);
    }
    true
}

/// `'1'` for every set flag, `'0'` for every clear one.
pub open spec fn bool_chars(flags: Seq<bool>) -> Seq<char>
    decreases flags.len(),
{
    if flags.len() == 0 {
        Seq::empty()
    } else {
        bool_chars(flags.drop_last()).push(
            if flags.last() {
                '1'
            } else {
                '0'
            },
        )
    }
}

/// Append the flags as a string of `0` and `1`.
pub fn push_bools(out: &mut String, flags: &[bool])
    ensures
        final(out)@ == old(out)@ + bool_chars(flags@),
{
    let mut i: usize = 0;
    while i < flags.len()
        invariant
            i <= flags@.len(),
            out@ == old(out)@ + bool_chars(flags@.take(i as int)),
        decreases flags@.len() - i,
    {
        let c = if flags[i] {
            '1'
        } else {
            '0'
        };
        crate::model::push_char(out, c);
        proof {
            assert(flags@.take(i + 1).drop_last() =~= flags@.take(i as int));
        }
        i = i + 1;
    }
    proof {
        assert(flags@.take(flags@.len() as int) =~= flags@);
    }
}

/// Lower case hex digit.
pub open spec fn hex_digit(d: int) -> char {
    if d < 10 {
        (48 + d) as char
    } else {
        (87 + d) as char
    }
}

/// How one character is written inside a JSON string.
pub open spec fn escaped_char(c: char) -> Seq<char> {
    if c == '"' {
        seq!['\\', '"']
    } else if c == '\\' {
        seq!['\\', '\\']
    } else if c == '\n' {
        seq!['\\', 'n']
    } else if c == '\r' {
        seq!['\\', 'r']
    } else if c == '\t' {
        seq!['\\', 't']
    } else if (c as u32) < 0x20 {
        seq!['\\', 'u', '0', '0', hex_digit((c as int) / 16), hex_digit((c as int) % 16)]
    } else {
        seq![c]
    }
}

/// A text written inside a JSON string.
pub open spec fn escaped(s: Seq<char>) -> Seq<char>
    decreases s.len(),
{
    if s.len() == 0 {
        Seq::empty()
    } else {
        escaped(s.drop_last()) + escaped_char(s.last())
    }
}

fn push_hex(out: &mut String, d: u32)
    requires
        d < 16,
    ensures
        final(out)@ == old(out)@.push(hex_digit(d as int)),
{
    let c = if d < 10 {
        (48 + d) as u8 as char
    } else {
        (87 + d) as u8 as char
    };
    crate::model::push_char(out, c);
}

/// Append `text` escaped for a JSON string.
pub fn escape_into(out: &mut String, text: &str)
    ensures
        final(out)@ == old(out)@ + escaped(text@),
{
    let n = text.unicode_len();
    let mut i: usize = 0;
    while i < n
        invariant
            n == text@.len(),
            i <= n,
            out@ == old(out)@ + escaped(text@.take(i as int)),
        decreases n - i,
    {
        let c = text.get_char(i);
        let ghost before = out@;
        if c == '"' {
            crate::model::push_char(out, '\\');
            crate::model::push_char(out, '"');
        } else if c == '\\' {
            crate::model::push_char(out, '\\');
            crate::model::push_char(out, '\\');
        } else if c == '\n' {
            crate::model::push_char(out, '\\');
            crate::model::push_char(out, 'n');
        } else if c == '\r' {
            crate::model::push_char(out, '\\');
            crate::model::push_char(out, 'r');
        } else if c == '\t' {
            crate::model::push_char(out, '\\');
            crate::model::push_char(out, 't');
        } else if (c as u32) < 0x20 {
            crate::model::push_char(out, '\\');
            crate::model::push_char(out, 'u');
            crate::model::push_char(out, '0');
            crate::model::push_char(out, '0');
            push_hex(out, (c as u32) / 16);
            push_hex(out, (c as u32) % 16);
        } else {
            crate::model::push_char(out, c);
        }
        proof {
            assert(out@ =~= before + escaped_char(c));
            assert(text@.take(i + 1).drop_last() =~= text@.take(i as int));
        }
        i = i + 1;
    }
    proof {
        assert(text@.take(n as int) =~= text@);
    }
}

} // verus!
