use crate::grammar::{at, digits_end, kw_false, kw_true, number_value};
use crate::parser::{characters, spells};
use vstd::prelude::*;
use vstd::string::StrSliceExecFns;

verus! {

/// An expression of the token-based syntax.
#[derive(Debug, PartialEq)]
pub enum Expr {
    Number(i64),
    Str(String),
    Boolean(bool),
    Reference(String),
    Assign(String, Box<Expr>),
    Add(Box<Expr>, Box<Expr>),
    Subtract(Box<Expr>, Box<Expr>),
    Multiply(Box<Expr>, Box<Expr>),
    Divide(Box<Expr>, Box<Expr>),
    If(Box<Expr>, Vec<Expr>, Vec<Expr>),
}

/// What `boolean` says of a text that is neither `true` nor `false`.
pub open spec fn unknown_boolean() -> Seq<char> {
    "Unknown boolean."@
}

/// The truth value that a text writes: `true` or `false`, the whole text and
/// nothing else.
pub fn boolean(input: &str) -> (r: Result<bool, &'static str>)
    ensures
        input@ == kw_true() ==> r == Ok::<bool, &'static str>(true),
        input@ == kw_false() ==> r == Ok::<bool, &'static str>(false),
        input@ != kw_true() && input@ != kw_false() ==> r is Err && r->Err_0@ == unknown_boolean(),
{
    let text = characters(input);
    let yes: [char; 4] = ['t', 'r', 'u', 'e'];
    let no: [char; 5] = ['f', 'a', 'l', 's', 'e'];
    assert(yes@ =~= kw_true());
    assert(no@ =~= kw_false());
    assert(text@.subrange(0, text@.len() as int) =~= input@);
    if spells(text.as_slice(), 0, text.len(), yes.as_slice()) {
        Ok(true)
    } else if spells(text.as_slice(), 0, text.len(), no.as_slice()) {
        Ok(false)
    } else {
        Err("Unknown boolean.")
    }
}

/// Why a text does not start with what was to be cut from it.
#[derive(Debug, PartialEq, Eq, Clone, Copy)]
pub enum Unscanned {
    /// A marker that must stand at this place does not.
    Marker,
    /// A line comment has no line feed behind it.
    Unended,
    /// Nothing stands between the opening marker and what ends the body.
    Empty,
    /// The text ends before the body does.
    Incomplete,
    /// The text starts with no digit.
    Digit,
    /// The number does not fit in sixty-four bits with a sign.
    Range,
}

/// The offset of the first `a` or `b` from `i` on, or the length of the
/// text where there is none.
pub open spec fn first_of(s: Seq<char>, i: int, a: char, b: char) -> int
    decreases s.len() - i,
{
    if i < 0 || i >= s.len() {
        s.len() as int
    } else if s[i] == a || s[i] == b {
        i
    } else {
        first_of(s, i + 1, a, b)
    }
}

fn find_first(s: &[char], i: usize, a: char, b: char) -> (at: usize)
    requires
        i <= s@.len(),
    ensures
        at == first_of(s@, i as int, a, b),
        i <= at <= s@.len(),
{
    let mut at = i;
    while at < s.len() && s[at] != a && s[at] != b
        invariant
            i <= at <= s@.len(),
            first_of(s@, at as int, a, b) == first_of(s@, i as int, a, b),
        decreases s@.len() - at,
    {
        at += 1;
    }
    at
}

/// What is cut from a text and what is left of it, as two texts.
pub open spec fn cut(rest: &str, body: &str, s: Seq<char>, from: int, to: int, after: int) -> bool {
    body@ == s.subrange(from, to) && rest@ == s.subrange(after, s.len() as int)
}

/// What `strip_comment` makes of a text.
pub open spec fn line_comment(s: Seq<char>) -> Result<(int, int), Unscanned> {
    if !(at(s, 0, '/') && at(s, 1, '/')) {
        Err(Unscanned::Marker)
    } else if first_of(s, 2, '\n', '\n') >= s.len() {
        Err(Unscanned::Unended)
    } else {
        Ok((first_of(s, 2, '\n', '\n'), first_of(s, 2, '\n', '\n')))
    }
}

/// Cuts a line comment from the start of a text: the body is what stands
/// between `//` and the first line feed, the rest starts at that line feed.
pub fn strip_comment(input: &str) -> (r: Result<(&str, &str), Unscanned>)
    ensures
        match (r, line_comment(input@)) {
            (Ok((rest, body)), Ok((to, after))) => cut(rest, body, input@, 2, to, after),
            (Err(e), Err(f)) => e == f,
            _ => false,
        },
{
    let text = characters(input);
    let s = text.as_slice();
    if !(s.len() >= 2 && s[0] == '/' && s[1] == '/') {
        return Err(Unscanned::Marker);
    }
    let end = find_first(s, 2, '\n', '\n');
    if end >= s.len() {
        return Err(Unscanned::Unended);
    }
    Ok((input.substring_char(end, s.len()), input.substring_char(2, end)))
}

/// What `strip_multiline_comment` makes of a text.
pub open spec fn block_comment(s: Seq<char>) -> Result<(int, int), Unscanned> {
    let end = first_of(s, 2, '*', '/');
    if !(at(s, 0, '/') && at(s, 1, '*')) {
        Err(Unscanned::Marker)
    } else if end >= s.len() {
        Err(Unscanned::Incomplete)
    } else if end == 2 {
        Err(Unscanned::Empty)
    } else if !(at(s, end, '*') && at(s, end + 1, '/')) {
        Err(Unscanned::Marker)
    } else {
        Ok((end, end + 2))
    }
}

/// Cuts a block comment from the start of a text: the body stands between
/// `/*` and `*/`, is not empty and holds neither `*` nor `/`.
pub fn strip_multiline_comment(input: &str) -> (r: Result<(&str, &str), Unscanned>)
    ensures
        match (r, block_comment(input@)) {
            (Ok((rest, body)), Ok((to, after))) => cut(rest, body, input@, 2, to, after),
            (Err(e), Err(f)) => e == f,
            _ => false,
        },
{
    let text = characters(input);
    let s = text.as_slice();
    if !(s.len() >= 2 && s[0] == '/' && s[1] == '*') {
        return Err(Unscanned::Marker);
    }
    let end = find_first(s, 2, '*', '/');
    if end >= s.len() {
        return Err(Unscanned::Incomplete);
    }
    if end == 2 {
        return Err(Unscanned::Empty);
    }
    if !(s[end] == '*' && end + 1 < s.len() && s[end + 1] == '/') {
        return Err(Unscanned::Marker);
    }
    Ok((input.substring_char(end + 2, s.len()), input.substring_char(2, end)))
}

/// What `string` makes of a text.
pub open spec fn quoted(s: Seq<char>) -> Result<(int, int), Unscanned> {
    let end = first_of(s, 1, '"', '"');
    if !at(s, 0, '"') {
        Err(Unscanned::Marker)
    } else if end >= s.len() {
        Err(Unscanned::Incomplete)
    } else if end == 1 {
        Err(Unscanned::Empty)
    } else {
        Ok((end, end + 1))
    }
}

/// Cuts a string from the start of a text: the body stands between two
/// `"`, is not empty and holds no `"`.
pub fn string(input: &str) -> (r: Result<(&str, &str), Unscanned>)
    ensures
        match (r, quoted(input@)) {
            (Ok((rest, body)), Ok((to, after))) => cut(rest, body, input@, 1, to, after),
            (Err(e), Err(f)) => e == f,
            _ => false,
        },
{
    let text = characters(input);
    let s = text.as_slice();
    if !(s.len() >= 1 && s[0] == '"') {
        return Err(Unscanned::Marker);
    }
    let end = find_first(s, 1, '"', '"');
    if end >= s.len() {
        return Err(Unscanned::Incomplete);
    }
    if end == 1 {
        return Err(Unscanned::Empty);
    }
    Ok((input.substring_char(end + 1, s.len()), input.substring_char(1, end)))
}

/// What `number` makes of a text: the value of its leading digits and the
/// offset behind them.
pub open spec fn leading_number(s: Seq<char>) -> Result<(int, int), Unscanned> {
    let end = digits_end(s, 0);
    if end == 0 {
        Err(Unscanned::Digit)
    } else if number_value(s.subrange(0, end)) > i64::MAX {
        Err(Unscanned::Range)
    } else {
        Ok((number_value(s.subrange(0, end)) as int, end))
    }
}

/// Cuts a number from the start of a text: the digits it starts with, as
/// a number of sixty-four bits.
pub fn number(input: &str) -> (r: Result<(&str, i64), Unscanned>)
    ensures
        match (r, leading_number(input@)) {
            (Ok((rest, n)), Ok((value, after))) => n == value && rest@ == input@.subrange(
                after,
                input@.len() as int,
            ),
            (Err(e), Err(f)) => e == f,
            _ => false,
        },
{
    let text = characters(input);
    let s = text.as_slice();
    let mut k: usize = 0;
    let mut value: u128 = 0;
    let mut fits = true;
    assert(number_value(s@.subrange(0, 0)) == 0);
    while k < s.len() && '0' <= s[k] && s[k] <= '9'
        invariant
            k <= s@.len(),
            digits_end(s@, k as int) == digits_end(s@, 0),
            fits ==> value == number_value(s@.subrange(0, k as int)) && value <= i64::MAX,
            !fits ==> number_value(s@.subrange(0, k as int)) > i64::MAX,
        decreases s@.len() - k,
    {
        let d: u128 = (s[k] as u32 - '0' as u32) as u128;
        proof {
            let longer = s@.subrange(0, k + 1);
            assert(longer.drop_last() =~= s@.subrange(0, k as int));
            assert(longer.last() == s@[k as int]);
        }
        if fits {
            value = value * 10 + d;
            if value > 9223372036854775807 {
                fits = false;
            }
        }
        k += 1;
    }
    if k == 0 {
        Err(Unscanned::Digit)
    } else if !fits {
        Err(Unscanned::Range)
    } else {
        Ok((input.substring_char(k, s.len()), value as i64))
    }
}

} // verus!
