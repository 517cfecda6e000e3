use crate::grammar::{all_digits, is_digit, number_value};
use crate::parser::characters;
use vstd::prelude::*;

verus! {

/// A token of the line-based lexer.
#[derive(Debug, PartialEq, Eq, Clone, Copy)]
pub enum Token {
    Number(i32),
    Add,
    Subtract,
    Divide,
    Multiply,
    Equals,
    LeftParenthesis,
    RightParenthesis,
    LeftCurlyBrace,
    RightCurlyBrace,
    Delimiter,
    /// The word `let`.
    Declaration,
    /// Any other character.
    Identifier,
}

/// Whether `char::is_numeric` holds of `c`.
pub uninterp spec fn is_numeric(c: char) -> bool;

/// `char::is_numeric`: whether Unicode counts the character among the
/// numbers.
#[verifier::external_body]
fn numeric(c: char) -> (b: bool)
    ensures
        b == is_numeric(c),
{
    c.is_numeric()
}

/// Whether the character at `i` belongs to no line: a line feed, or a
/// carriage return right before one.
pub open spec fn line_break(s: Seq<char>, i: int) -> bool {
    0 <= i < s.len() && (s[i] == '\n' || (s[i] == '\r' && i + 1 < s.len() && s[i + 1] == '\n'))
}

/// Whether the character at `i` is there and belongs to a line.
pub open spec fn in_line(s: Seq<char>, i: int) -> bool {
    0 <= i < s.len() && !line_break(s, i)
}

/// Where the run of numeric characters and dots that holds `i` ends: at the
/// end of its line at the latest.
pub open spec fn run_end(s: Seq<char>, i: int) -> int
    decreases s.len() - i,
{
    if in_line(s, i) && (is_numeric(s[i]) || s[i] == '.') {
        run_end(s, i + 1)
    } else {
        i
    }
}

/// The token that one character alone stands for.
pub open spec fn single(c: char) -> Token {
    if c == '+' {
        Token::Add
    } else if c == '-' {
        Token::Subtract
    } else if c == '/' {
        Token::Divide
    } else if c == '*' {
        Token::Multiply
    } else if c == '=' {
        Token::Equals
    } else if c == '(' {
        Token::LeftParenthesis
    } else if c == ')' {
        Token::RightParenthesis
    } else if c == '{' {
        Token::LeftCurlyBrace
    } else if c == '}' {
        Token::RightCurlyBrace
    } else if c == ';' {
        Token::Delimiter
    } else {
        Token::Identifier
    }
}

/// The tokens of `s` from offset `i` on, or nothing where a number cannot
/// be read.
///
/// Blanks and line ends give no token. A numeric character starts a number,
/// which takes the numeric characters and dots behind it on its line; it can
/// be read where all of it is decimal digits and its value fits in
/// thirty-two bits with a sign. An `l` takes the next character of its line
/// with it, and with an `e` the one after that too: `let` is a declaration,
/// anything else that was so taken is one identifier. Every other character
/// is a token of its own.
pub open spec fn tokens_from(s: Seq<char>, i: int) -> Option<Seq<Token>>
    decreases s.len() - i,
{
    if i < 0 || i >= s.len() {
        Some(Seq::empty())
    } else if line_break(s, i) || s[i] == ' ' {
        tokens_from(s, i + 1)
    } else if is_numeric(s[i]) {
        proof {
            lemma_run_end(s, i + 1);
        }
        let e = run_end(s, i + 1);
        let run = s.subrange(i, e);
        if all_digits(run) && number_value(run) <= i32::MAX {
            followed(Token::Number(number_value(run) as i32), tokens_from(s, e))
        } else {
            None
        }
    } else if s[i] == 'l' {
        if !in_line(s, i + 1) {
            followed(Token::Identifier, tokens_from(s, i + 1))
        } else if s[i + 1] != 'e' || !in_line(s, i + 2) {
            followed(Token::Identifier, tokens_from(s, i + 2))
        } else if s[i + 2] == 't' {
            followed(Token::Declaration, tokens_from(s, i + 3))
        } else {
            followed(Token::Identifier, tokens_from(s, i + 3))
        }
    } else {
        followed(single(s[i]), tokens_from(s, i + 1))
    }
}

/// `first`, then `rest`, where there is a rest.
pub open spec fn followed(first: Token, rest: Option<Seq<Token>>) -> Option<Seq<Token>> {
    match rest {
        Some(tokens) => Some(seq![first] + tokens),
        None => None,
    }
}

/// A run ends at or behind where it starts, within the text.
pub proof fn lemma_run_end(s: Seq<char>, i: int)
    ensures
        0 <= i <= s.len() ==> i <= run_end(s, i) <= s.len(),
        i < 0 || i > s.len() ==> run_end(s, i) == i,
    decreases s.len() - i,
{
    if in_line(s, i) && (is_numeric(s[i]) || s[i] == '.') {
        lemma_run_end(s, i + 1);
    }
}

/// The tokens of a text, or nothing where a number in it cannot be read.
pub open spec fn tokens(s: Seq<char>) -> Option<Seq<Token>> {
    tokens_from(s, 0)
}

/// `done`, then `rest`, where there is a rest.
pub open spec fn behind(done: Seq<Token>, rest: Option<Seq<Token>>) -> Option<Seq<Token>> {
    match rest {
        Some(tokens) => Some(done + tokens),
        None => None,
    }
}

proof fn lemma_behind(done: Seq<Token>, first: Token, rest: Option<Seq<Token>>)
    ensures
        behind(done, followed(first, rest)) == behind(done.push(first), rest),
{
    if let Some(tokens) = rest {
        assert(done + (seq![first] + tokens) =~= done.push(first) + tokens);
    }
}

fn within_line(s: &[char], i: usize) -> (b: bool)
    requires
        i <= s@.len(),
    ensures
        b == in_line(s@, i as int),
{
    i < s.len() && !(s[i] == '\n' || (s[i] == '\r' && i + 1 < s.len() && s[i + 1] == '\n'))
}

fn end_of_run(s: &[char], i: usize) -> (e: usize)
    requires
        i <= s@.len(),
    ensures
        e == run_end(s@, i as int),
        i <= e <= s@.len(),
{
    let mut e = i;
    while within_line(s, e) && (numeric(s[e]) || s[e] == '.')
        invariant
            i <= e <= s@.len(),
            run_end(s@, e as int) == run_end(s@, i as int),
        decreases s@.len() - e,
    {
        e += 1;
    }
    e
}

/// The value of a run, where it is decimal digits throughout and fits.
fn run_value(s: &[char], i: usize, e: usize) -> (r: Option<i32>)
    requires
        i <= e <= s@.len(),
    ensures
        r == if all_digits(s@.subrange(i as int, e as int)) && number_value(
            s@.subrange(i as int, e as int),
        ) <= i32::MAX {
            Some(number_value(s@.subrange(i as int, e as int)) as i32)
        } else {
            None
        },
{
    let mut k = i;
    let mut value: u64 = 0;
    assert(number_value(s@.subrange(i as int, i as int)) == 0);
    while k < e
        invariant
            i <= k <= e <= s@.len(),
            all_digits(s@.subrange(i as int, k as int)),
            value == number_value(s@.subrange(i as int, k as int)),
            value <= i32::MAX,
        decreases e - k,
    {
        let ghost whole = s@.subrange(i as int, e as int);
        let ghost longer = s@.subrange(i as int, k + 1);
        proof {
            assert(longer.drop_last() =~= s@.subrange(i as int, k as int));
            assert(longer.last() == s@[k as int]);
            assert(whole[k - i] == s@[k as int]);
        }
        let c = s[k];
        if !('0' <= c && c <= '9') {
            return None;
        }
        let d: u64 = (c as u32 - '0' as u32) as u64;
        value = value * 10 + d;
        if value > 2147483647 {
            proof {
                if all_digits(whole) {
                    lemma_value_grows(whole, k + 1 - i);
                    assert(whole.subrange(0, k + 1 - i) =~= longer);
                }
            }
            return None;
        }
        k += 1;
        assert(all_digits(longer)) by {
            assert forall|t: int| 0 <= t < longer.len() implies is_digit(#[trigger] longer[t]) by {
                if t < k - 1 - i {
                    assert(longer[t] == s@.subrange(i as int, k - 1)[t]);
                }
            }
        }
    }
    Some(value as i32)
}

/// A run of digits is worth at least as much as any of its beginnings.
pub proof fn lemma_value_grows(digits: Seq<char>, n: int)
    requires
        all_digits(digits),
        0 <= n <= digits.len(),
    ensures
        number_value(digits.subrange(0, n)) <= number_value(digits),
    decreases digits.len() - n,
{
    if n < digits.len() {
        let shorter = digits.drop_last();
        assert(all_digits(shorter)) by {
            assert forall|t: int| 0 <= t < shorter.len() implies is_digit(
                #[trigger] shorter[t],
            ) by {
                assert(shorter[t] == digits[t]);
            }
        }
        lemma_value_grows(shorter, n);
        assert(shorter.subrange(0, n) =~= digits.subrange(0, n));
        assert(is_digit(digits[digits.len() - 1]));
    } else {
        assert(digits.subrange(0, n) =~= digits);
    }
}

fn single_token(c: char) -> (t: Token)
    ensures
        t == single(c),
{
    if c == '+' {
        Token::Add
    } else if c == '-' {
        Token::Subtract
    } else if c == '/' {
        Token::Divide
    } else if c == '*' {
        Token::Multiply
    } else if c == '=' {
        Token::Equals
    } else if c == '(' {
        Token::LeftParenthesis
    } else if c == ')' {
        Token::RightParenthesis
    } else if c == '{' {
        Token::LeftCurlyBrace
    } else if c == '}' {
        Token::RightCurlyBrace
    } else if c == ';' {
        Token::Delimiter
    } else {
        Token::Identifier
    }
}

fn scan(s: &[char]) -> (r: Option<Vec<Token>>)
    ensures
        match (r, tokens(s@)) {
            (Some(found), Some(expected)) => found@ == expected,
            (None, None) => true,
            _ => false,
        },
{
    let mut found: Vec<Token> = Vec::new();
    let mut i: usize = 0;
    assert(behind(found@, tokens_from(s@, 0)) == tokens(s@)) by {
        if let Some(t) = tokens_from(s@, 0) {
            assert(found@ + t =~= t);
        }
    }
    while i < s.len()
        invariant
            i <= s@.len(),
            behind(found@, tokens_from(s@, i as int)) == tokens(s@),
        decreases s@.len() - i,
    {
        let c = s[i];
        let ghost done = found@;
        if !within_line(s, i) || c == ' ' {
            i += 1;
        } else if numeric(c) {
            let e = end_of_run(s, i + 1);
            match run_value(s, i, e) {
                Some(n) => {
                    proof {
                        lemma_behind(done, Token::Number(n), tokens_from(s@, e as int));
                    }
                    found.push(Token::Number(n));
                    i = e;
                },
                None => {
                    return None;
                },
            }
        } else if c == 'l' {
            if !within_line(s, i + 1) {
                proof {
                    lemma_behind(done, Token::Identifier, tokens_from(s@, i + 1));
                }
                found.push(Token::Identifier);
                i += 1;
            } else if s[i + 1] != 'e' || !within_line(s, i + 2) {
                proof {
                    lemma_behind(done, Token::Identifier, tokens_from(s@, i + 2));
                }
                found.push(Token::Identifier);
                i += 2;
            } else if s[i + 2] == 't' {
                proof {
                    lemma_behind(done, Token::Declaration, tokens_from(s@, i + 3));
                }
                found.push(Token::Declaration);
                i += 3;
            } else {
                proof {
                    lemma_behind(done, Token::Identifier, tokens_from(s@, i + 3));
                }
                found.push(Token::Identifier);
                i += 3;
            }
        } else {
            proof {
                lemma_behind(done, single(c), tokens_from(s@, i + 1));
            }
            found.push(single_token(c));
            i += 1;
        }
    }
    assert(found@ + Seq::<Token>::empty() =~= found@);
    Some(found)
}

/// The tokens of a text in which every number can be read.
pub fn lex(code: &str) -> (found: Vec<Token>)
    requires
        tokens(code@) is Some,
    ensures
        Some(found@) == tokens(code@),
{
    let text = characters(code);
    match scan(text.as_slice()) {
        Some(found) => found,
        None => Vec::new(),
    }
}

/// The tokens of a text, or nothing where a number in it cannot be read.
pub fn try_lex(code: &str) -> (r: Option<Vec<Token>>)
    ensures
        match (r, tokens(code@)) {
            (Some(found), Some(expected)) => found@ == expected,
            (None, None) => true,
            _ => false,
        },
{
    let text = characters(code);
    match scan(text.as_slice()) {
        Some(_) => Some(lex(code)),
        None => None,
    }
}

} // verus!
