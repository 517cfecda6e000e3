use crate::ast::{
    boxed_view, lemma_function_view, nodes_view, Argument, BinaryOp, Node, NodeView, Type, UnaryOp,
};
use crate::diagnostic::{locate, located, SyntaxError};
use crate::grammar::{
    arrow, at, block_comment_end, declared_type, digits_end, expand_tabs, expr, function,
    functions, ident, is_digit, is_letter, kw_bool, kw_false, kw_fn, kw_int, kw_let, kw_return,
    kw_true, line_comment_end, number_value, operand, program, reserved, skip, statements, sum,
    sum_from, symbol, word_end, Expected, Fault, Stop,
};
use vstd::prelude::*;
use vstd::std_specs::iter::IteratorSpec;

verus! {

/// A failure, and the offset of the character at which it was met.
#[derive(Debug, PartialEq, Eq, Clone, Copy)]
pub struct Failure {
    pub at: usize,
    pub fault: Fault,
}

impl View for Failure {
    type V = Stop;

    open spec fn view(&self) -> Stop {
        Stop { at: self.at as int, fault: self.fault }
    }
}

/// `String::push`: the string grows by the one character `c`, at its end.
#[verifier::external_body]
pub(crate) fn push_char(text: &mut String, c: char)
    ensures
        final(text)@ == old(text)@.push(c),
{
    text.push(c);
}

/// The characters of `s` from `from` up to `to`, as a string.
pub fn text_of(s: &[char], from: usize, to: usize) -> (text: String)
    requires
        from <= to <= s@.len(),
    ensures
        text@ == s@.subrange(from as int, to as int),
{
    let mut text = String::new();
    let mut k = from;
    while k < to
        invariant
            from <= k <= to <= s@.len(),
            text@ == s@.subrange(from as int, k as int),
        decreases to - k,
    {
        push_char(&mut text, s[k]);
        k += 1;
        assert(text@ =~= s@.subrange(from as int, k as int));
    }
    text
}

fn letter(c: char) -> (b: bool)
    ensures
        b == is_letter(c),
{
    ('a' <= c && c <= 'z') || ('A' <= c && c <= 'Z')
}

fn digit(c: char) -> (b: bool)
    ensures
        b == is_digit(c),
{
    '0' <= c && c <= '9'
}

fn end_of_line_comment(s: &[char], i: usize) -> (j: usize)
    requires
        i <= s@.len(),
    ensures
        j == line_comment_end(s@, i as int),
        i <= j <= s@.len(),
{
    let mut j = i;
    while j < s.len()
        invariant
            i <= j <= s@.len(),
            line_comment_end(s@, j as int) == line_comment_end(s@, i as int),
        decreases s@.len() - j,
    {
        if s[j] == '\n' {
            return j + 1;
        }
        j += 1;
    }
    j
}

fn end_of_block_comment(s: &[char], i: usize) -> (r: Option<usize>)
    requires
        i <= s@.len(),
    ensures
        match r {
            Some(j) => block_comment_end(s@, i as int) == Some(j as int) && i + 2 <= j <= s@.len(),
            None => block_comment_end(s@, i as int) is None,
        },
{
    let mut j = i;
    while j < s.len() && j + 1 < s.len()
        invariant
            i <= j <= s@.len(),
            block_comment_end(s@, j as int) == block_comment_end(s@, i as int),
        decreases s@.len() - j,
    {
        if s[j] == '*' && s[j + 1] == '/' {
            return Some(j + 2);
        }
        j += 1;
    }
    None
}

/// The offset of the first character from `i` on that is not skipped.
pub fn skip_trivia(s: &[char], i: usize, lines: bool) -> (j: usize)
    requires
        i <= s@.len(),
    ensures
        j == skip(s@, i as int, lines),
        i <= j <= s@.len(),
{
    let mut j = i;
    loop
        invariant
            i <= j <= s@.len(),
            skip(s@, j as int, lines) == skip(s@, i as int, lines),
        decreases s@.len() - j,
    {
        if j >= s.len() {
            return j;
        }
        let c = s[j];
        if c == ' ' || c == '\t' || (lines && (c == '\n' || c == '\r')) {
            j += 1;
        } else if c == '/' && j + 1 < s.len() && s[j + 1] == '/' {
            j = end_of_line_comment(s, j + 2);
        } else if c == '/' && j + 1 < s.len() && s[j + 1] == '*' {
            match end_of_block_comment(s, j + 2) {
                Some(k) => {
                    j = k;
                },
                None => {
                    return j;
                },
            }
        } else {
            return j;
        }
    }
}

fn end_of_word(s: &[char], i: usize) -> (w: usize)
    requires
        i <= s@.len(),
    ensures
        w == word_end(s@, i as int),
        i <= w <= s@.len(),
{
    let mut w = i;
    while w < s.len() && letter(s[w])
        invariant
            i <= w <= s@.len(),
            word_end(s@, w as int) == word_end(s@, i as int),
        decreases s@.len() - w,
    {
        w += 1;
    }
    w
}

/// Whether the characters of `s` from `j` up to `w` spell `word`.
pub fn spells(s: &[char], j: usize, w: usize, word: &[char]) -> (b: bool)
    requires
        j <= w <= s@.len(),
    ensures
        b == (s@.subrange(j as int, w as int) == word@),
{
    if w - j != word.len() {
        return false;
    }
    let mut k: usize = 0;
    while k < word.len()
        invariant
            j <= w <= s@.len(),
            w - j == word@.len(),
            k <= word@.len(),
            forall|t: int| 0 <= t < k ==> s@[j + t] == word@[t],
        decreases word@.len() - k,
    {
        if s[j + k] != word[k] {
            assert(s@.subrange(j as int, w as int)[k as int] != word@[k as int]);
            return false;
        }
        k += 1;
    }
    assert(s@.subrange(j as int, w as int) =~= word@);
    true
}

/// The value of the digits that start at `j`, and the offset behind them.
fn number(s: &[char], j: usize) -> (r: Result<(i32, usize), Failure>)
    requires
        j < s@.len(),
        is_digit(s@[j as int]),
    ensures
        match r {
            Ok((n, d)) => d == digits_end(s@, j as int) && j < d <= s@.len() && n == number_value(
                s@.subrange(j as int, d as int),
            ),
            Err(e) => e == (Failure { at: j, fault: Fault::Overflow }) && number_value(
                s@.subrange(j as int, digits_end(s@, j as int)),
            ) > i32::MAX,
        },
{
    let mut k = j;
    let mut value: u64 = 0;
    let mut fits = true;
    assert(number_value(s@.subrange(j as int, j as int)) == 0);
    while k < s.len() && digit(s[k])
        invariant
            j <= k <= s@.len(),
            k == j ==> is_digit(s@[j as int]),
            digits_end(s@, k as int) == digits_end(s@, j as int),
            fits ==> value == number_value(s@.subrange(j as int, k as int)) && value <= i32::MAX,
            !fits ==> number_value(s@.subrange(j as int, k as int)) > i32::MAX,
        decreases s@.len() - k,
    {
        let d: u64 = (s[k] as u32 - '0' as u32) as u64;
        proof {
            let longer = s@.subrange(j as int, k + 1);
            assert(longer.drop_last() =~= s@.subrange(j as int, k as int));
            assert(longer.last() == s@[k as int]);
        }
        if fits {
            value = value * 10 + d;
            if value > 2147483647 {
                fits = false;
            }
        }
        k += 1;
    }
    if fits {
        Ok((value as i32, k))
    } else {
        Err(Failure { at: j, fault: Fault::Overflow })
    }
}

fn spells_let(s: &[char], j: usize, w: usize) -> (b: bool)
    requires
        j <= w <= s@.len(),
    ensures
        b == (s@.subrange(j as int, w as int) == kw_let()),
{
    let word: [char; 3] = ['l', 'e', 't'];
    assert(word@ =~= kw_let());
    spells(s, j, w, word.as_slice())
}

fn spells_return(s: &[char], j: usize, w: usize) -> (b: bool)
    requires
        j <= w <= s@.len(),
    ensures
        b == (s@.subrange(j as int, w as int) == kw_return()),
{
    let word: [char; 6] = ['r', 'e', 't', 'u', 'r', 'n'];
    assert(word@ =~= kw_return());
    spells(s, j, w, word.as_slice())
}

fn spells_true(s: &[char], j: usize, w: usize) -> (b: bool)
    requires
        j <= w <= s@.len(),
    ensures
        b == (s@.subrange(j as int, w as int) == kw_true()),
{
    let word: [char; 4] = ['t', 'r', 'u', 'e'];
    assert(word@ =~= kw_true());
    spells(s, j, w, word.as_slice())
}

fn spells_false(s: &[char], j: usize, w: usize) -> (b: bool)
    requires
        j <= w <= s@.len(),
    ensures
        b == (s@.subrange(j as int, w as int) == kw_false()),
{
    let word: [char; 5] = ['f', 'a', 'l', 's', 'e'];
    assert(word@ =~= kw_false());
    spells(s, j, w, word.as_slice())
}

fn spells_fn(s: &[char], j: usize, w: usize) -> (b: bool)
    requires
        j <= w <= s@.len(),
    ensures
        b == (s@.subrange(j as int, w as int) == kw_fn()),
{
    let word: [char; 2] = ['f', 'n'];
    assert(word@ =~= kw_fn());
    spells(s, j, w, word.as_slice())
}

fn spells_bool(s: &[char], j: usize, w: usize) -> (b: bool)
    requires
        j <= w <= s@.len(),
    ensures
        b == (s@.subrange(j as int, w as int) == kw_bool()),
{
    let word: [char; 4] = ['b', 'o', 'o', 'l'];
    assert(word@ =~= kw_bool());
    spells(s, j, w, word.as_slice())
}

fn spells_int(s: &[char], j: usize, w: usize) -> (b: bool)
    requires
        j <= w <= s@.len(),
    ensures
        b == (s@.subrange(j as int, w as int) == kw_int()),
{
    let word: [char; 3] = ['i', 'n', 't'];
    assert(word@ =~= kw_int());
    spells(s, j, w, word.as_slice())
}

pub(crate) fn spells_reserved(s: &[char], j: usize, w: usize) -> (b: bool)
    requires
        j <= w <= s@.len(),
    ensures
        b == reserved(s@.subrange(j as int, w as int)),
{
    spells_let(s, j, w) || spells_return(s, j, w) || spells_true(s, j, w) || spells_false(s, j, w)
}

fn stop<T>(at: usize, what: Expected) -> (r: Result<T, Failure>)
    ensures
        r is Err,
        r->Err_0 == (Failure { at, fault: Fault::Mismatch(what) }),
{
    Err(Failure { at, fault: Fault::Mismatch(what) })
}

/// What the grammar yields and what the parser returns are the same
/// offset, or the same failure.
pub open spec fn same_offset(r: Result<usize, Failure>, m: Result<int, Stop>) -> bool {
    match (r, m) {
        (Ok(k), Ok(q)) => k == q,
        (Err(e), Err(f)) => e@ == f,
        _ => false,
    }
}

/// The same, for a node and the offset behind it.
pub open spec fn same_node(
    r: Result<(Node, usize), Failure>,
    m: Result<(NodeView, int), Stop>,
) -> bool {
    match (r, m) {
        (Ok((n, k)), Ok((v, q))) => n@ == v && k == q,
        (Err(e), Err(f)) => e@ == f,
        _ => false,
    }
}

fn parse_ident(s: &[char], i: usize) -> (r: Result<(String, usize), Failure>)
    requires
        i <= s@.len(),
    ensures
        match (r, ident(s@, i as int)) {
            (Ok((name, k)), Ok((n, q))) => name@ == n && k == q && i < k <= s@.len(),
            (Err(e), Err(f)) => e@ == f && e.at <= s@.len(),
            _ => false,
        },
{
    let j = skip_trivia(s, i, false);
    let w = end_of_word(s, j);
    if w == j || spells_reserved(s, j, w) {
        return stop(j, Expected::Identifier);
    }
    Ok((text_of(s, j, w), w))
}

fn expect(s: &[char], i: usize, c: char, what: Expected) -> (r: Result<usize, Failure>)
    requires
        i <= s@.len(),
    ensures
        same_offset(r, symbol(s@, i as int, c, what)),
        r matches Ok(k) ==> i < k <= s@.len(),
        r matches Err(e) ==> e.at <= s@.len(),
{
    let j = skip_trivia(s, i, false);
    if j < s.len() && s[j] == c {
        Ok(j + 1)
    } else {
        stop(j, what)
    }
}

fn expect_arrow(s: &[char], i: usize) -> (r: Result<usize, Failure>)
    requires
        i <= s@.len(),
    ensures
        same_offset(r, arrow(s@, i as int)),
        r matches Ok(k) ==> i < k <= s@.len(),
        r matches Err(e) ==> e.at <= s@.len(),
{
    let j = skip_trivia(s, i, false);
    if j < s.len() && s[j] == '-' && j + 1 < s.len() && s[j + 1] == '>' {
        Ok(j + 2)
    } else {
        stop(j, Expected::Arrow)
    }
}

fn parse_type(s: &[char], i: usize) -> (r: Result<(Type, usize), Failure>)
    requires
        i <= s@.len(),
    ensures
        match (r, declared_type(s@, i as int)) {
            (Ok((t, k)), Ok((u, q))) => t == u && k == q && i < k <= s@.len(),
            (Err(e), Err(f)) => e@ == f && e.at <= s@.len(),
            _ => false,
        },
{
    let j = skip_trivia(s, i, false);
    let w = end_of_word(s, j);
    if spells_bool(s, j, w) {
        assert(kw_bool().len() == 4);
        Ok((Type::Bool, w))
    } else if spells_int(s, j, w) {
        assert(kw_int().len() == 3);
        Ok((Type::Int, w))
    } else {
        stop(j, Expected::TypeName)
    }
}

/// Reads an expression from offset `i` on, as `expr` states.
pub fn parse_expr(s: &[char], i: usize) -> (r: Result<(Node, usize), Failure>)
    requires
        i <= s@.len(),
    ensures
        same_node(r, expr(s@, i as int)),
        r matches Ok((_, k)) ==> i < k <= s@.len(),
        r matches Err(e) ==> e.at <= s@.len(),
    decreases s@.len() - i, 3nat,
{
    let j = skip_trivia(s, i, false);
    let w = end_of_word(s, j);
    if spells_let(s, j, w) {
        assert(kw_let().len() == 3);
        let (name, k) = parse_ident(s, w)?;
        let m = expect(s, k, '=', Expected::Equals)?;
        let (value, n) = parse_expr(s, m)?;
        Ok((Node::Assign(name, Box::new(value)), n))
    } else if spells_return(s, j, w) {
        assert(kw_return().len() == 6);
        let (child, n) = parse_expr(s, w)?;
        Ok((Node::UnaryExpr { op: UnaryOp::Return, child: Box::new(child) }, n))
    } else if j < s.len() && s[j] == '-' {
        let (child, n) = parse_expr(s, j + 1)?;
        Ok((Node::UnaryExpr { op: UnaryOp::Minus, child: Box::new(child) }, n))
    } else {
        parse_sum(s, j)
    }
}

fn parse_sum(s: &[char], i: usize) -> (r: Result<(Node, usize), Failure>)
    requires
        i <= s@.len(),
    ensures
        same_node(r, sum(s@, i as int)),
        r matches Ok((_, k)) ==> i < k <= s@.len(),
        r matches Err(e) ==> e.at <= s@.len(),
    decreases s@.len() - i, 2nat,
{
    let (first, start) = parse_operand(s, i)?;
    let mut lhs = first;
    let mut k = start;
    loop
        invariant
            i < k <= s@.len(),
            sum_from(s@, lhs@, k as int) == sum(s@, i as int),
        decreases s@.len() - k,
    {
        let j = skip_trivia(s, k, false);
        if j < s.len() && (s[j] == '+' || s[j] == '-') {
            let op = if s[j] == '+' {
                BinaryOp::Plus
            } else {
                BinaryOp::Minus
            };
            let (rhs, n) = parse_operand(s, j + 1)?;
            lhs = Node::BinaryExpr { op, lhs: Box::new(lhs), rhs: Box::new(rhs) };
            k = n;
        } else {
            return Ok((lhs, k));
        }
    }
}

fn parse_operand(s: &[char], i: usize) -> (r: Result<(Node, usize), Failure>)
    requires
        i <= s@.len(),
    ensures
        same_node(r, operand(s@, i as int)),
        r matches Ok((_, k)) ==> i < k <= s@.len(),
        r matches Err(e) ==> e.at <= s@.len(),
    decreases s@.len() - i, 0nat,
{
    let j = skip_trivia(s, i, false);
    let w = end_of_word(s, j);
    if j < s.len() && s[j] == '(' {
        let (inner, k) = parse_expr(s, j + 1)?;
        let m = expect(s, k, ')', Expected::CloseParen)?;
        Ok((inner, m))
    } else if j < s.len() && digit(s[j]) {
        let (n, d) = number(s, j)?;
        Ok((Node::Int(n), d))
    } else if spells_true(s, j, w) {
        assert(kw_true().len() == 4);
        Ok((Node::Bool(true), w))
    } else if spells_false(s, j, w) {
        assert(kw_false().len() == 5);
        Ok((Node::Bool(false), w))
    } else if w == j || spells_reserved(s, j, w) {
        stop(j, Expected::Expression)
    } else {
        let p = skip_trivia(s, w, false);
        if p < s.len() && s[p] == '(' {
            let m = expect(s, p + 1, ')', Expected::CloseParen)?;
            let arguments: Vec<Argument> = Vec::new();
            assert(arguments@.map_values(|a: Argument| a@) =~= Seq::empty());
            Ok((Node::FnRef(text_of(s, j, w), arguments), m))
        } else {
            Ok((Node::Ref(text_of(s, j, w)), w))
        }
    }
}

fn parse_statements(s: &[char], i: usize) -> (r: Result<(Vec<Box<Node>>, usize), Failure>)
    requires
        i <= s@.len(),
    ensures
        match (r, statements(s@, i as int, Seq::empty())) {
            (Ok((nodes, k)), Ok((v, q))) => boxed_view(nodes@) == v && k == q && i < k <= s@.len(),
            (Err(e), Err(f)) => e@ == f && e.at <= s@.len(),
            _ => false,
        },
{
    let mut nodes: Vec<Box<Node>> = Vec::new();
    let mut at = i;
    assert(boxed_view(nodes@) =~= Seq::empty());
    loop
        invariant
            i <= at <= s@.len(),
            statements(s@, at as int, boxed_view(nodes@)) == statements(
                s@,
                i as int,
                Seq::empty(),
            ),
        decreases s@.len() - at,
    {
        let j = skip_trivia(s, at, true);
        let (statement, k) = parse_expr(s, j)?;
        let m = expect(s, k, ';', Expected::Semicolon)?;
        let ghost before = boxed_view(nodes@);
        nodes.push(Box::new(statement));
        assert(boxed_view(nodes@) =~= before.push(statement@));
        let p = skip_trivia(s, m, true);
        if p < s.len() && s[p] == '}' {
            return Ok((nodes, p + 1));
        }
        at = m;
    }
}

fn parse_function(s: &[char], i: usize) -> (r: Result<(Node, usize), Failure>)
    requires
        i <= s@.len(),
    ensures
        same_node(r, function(s@, i as int)),
        r matches Ok((_, k)) ==> i < k <= s@.len(),
        r matches Err(e) ==> e.at <= s@.len(),
{
    let w = end_of_word(s, i);
    if !spells_fn(s, i, w) {
        return stop(i, Expected::Function);
    }
    let (name, a) = parse_ident(s, w)?;
    let b = expect(s, a, '(', Expected::OpenParen)?;
    let c = expect(s, b, ')', Expected::CloseParen)?;
    let d = expect_arrow(s, c)?;
    let (return_value, f) = parse_type(s, d)?;
    let g = expect(s, f, '{', Expected::OpenBrace)?;
    let (children, h) = parse_statements(s, g)?;
    let arguments: Vec<Argument> = Vec::new();
    proof {
        assert(arguments@.map_values(|a: Argument| a@) =~= Seq::empty());
        lemma_function_view(name, arguments, return_value, children);
    }
    Ok((Node::Function { name, arguments, return_value, children }, h))
}

/// Reads a program from text in which no tab is left: its functions, in
/// order, or where and why the text is no program.
pub fn parse_program(s: &[char]) -> (r: Result<Vec<Node>, Failure>)
    ensures
        match (r, program(s@)) {
            (Ok(nodes), Ok(v)) => nodes_view(nodes@) == v,
            (Err(e), Err(f)) => e@ == f && e.at <= s@.len(),
            _ => false,
        },
{
    let mut nodes: Vec<Node> = Vec::new();
    let mut at: usize = 0;
    assert(nodes_view(nodes@) =~= Seq::empty());
    loop
        invariant
            at <= s@.len(),
            functions(s@, at as int, nodes_view(nodes@)) == program(s@),
        decreases s@.len() - at,
    {
        let j = skip_trivia(s, at, true);
        if j >= s.len() {
            return Ok(nodes);
        }
        match parse_function(s, j) {
            Ok((f, k)) => {
                let ghost before = nodes_view(nodes@);
                let ghost tree = f@;
                nodes.push(f);
                assert(nodes_view(nodes@) =~= before.push(tree));
                at = k;
            },
            Err(e) => {
                return Err(e);
            },
        }
    }
}

/// The characters of a text, as they are.
pub fn characters(code: &str) -> (out: Vec<char>)
    ensures
        out@ == code@,
{
    broadcast use vstd::string::group_string_axioms;

    let mut out: Vec<char> = Vec::new();
    let mut it = code.chars();
    loop
        invariant
            out@ + it.remaining() == code@,
            it.obeys_prophetic_iter_laws(),
            it.decrease() is Some,
        decreases it.decrease()->0,
    {
        match it.next() {
            Some(c) => {
                out.push(c);
                assert(out@ + it.remaining() =~= code@);
            },
            None => {
                assert(out@ =~= code@);
                return out;
            },
        }
    }
}

/// The characters of `input`, with four blanks in place of each tab.
pub fn normalize(input: &str) -> (out: Vec<char>)
    ensures
        out@ == expand_tabs(input@),
{
    broadcast use vstd::string::group_string_axioms;

    let mut out: Vec<char> = Vec::new();
    let mut it = input.chars();
    let ghost mut seen: Seq<char> = Seq::empty();
    loop
        invariant
            seen + it.remaining() == input@,
            out@ == expand_tabs(seen),
            it.obeys_prophetic_iter_laws(),
            it.decrease() is Some,
        decreases it.decrease()->0,
    {
        match it.next() {
            Some(c) => {
                proof {
                    assert(seen.push(c).drop_last() =~= seen);
                    seen = seen.push(c);
                    assert(seen + it.remaining() =~= input@);
                }
                if c == '\t' {
                    out.push(' ');
                    out.push(' ');
                    out.push(' ');
                    out.push(' ');
                } else {
                    out.push(c);
                }
                assert(out@ =~= expand_tabs(seen));
            },
            None => {
                assert(seen =~= input@);
                return out;
            },
        }
    }
}

/// Reads a program: the functions that `input` writes, in order, once each
/// tab has given way to four blanks; or the syntax error at which the
/// text stops being a program.
pub fn parse(input: String) -> (r: Result<Vec<Node>, SyntaxError>)
    requires
        expand_tabs(input@).len() + 1 < usize::MAX,
    ensures
        match (r, program(expand_tabs(input@))) {
            (Ok(nodes), Ok(v)) => nodes_view(nodes@) == v,
            (Err(e), Err(f)) => e@ == located(expand_tabs(input@), f) && e.wf(),
            _ => false,
        },
{
    let text = normalize(input.as_str());
    match parse_program(text.as_slice()) {
        Ok(nodes) => Ok(nodes),
        Err(failure) => Err(locate(text.as_slice(), failure)),
    }
}

} // verus!
