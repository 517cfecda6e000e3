use crate::ast::{ArgumentView, BinaryOp, NodeView, Type, UnaryOp};
use vstd::prelude::*;

verus! {

/// What the parser was looking for where it stopped.
#[derive(Debug, PartialEq, Eq, Clone, Copy)]
pub enum Expected {
    /// The word `fn`, which starts a function.
    Function,
    /// A name: letters only, and none of `let`, `return`, `true`, `false`.
    Identifier,
    OpenParen,
    CloseParen,
    /// `->`, before the return type.
    Arrow,
    /// `bool` or `int`.
    TypeName,
    OpenBrace,
    Semicolon,
    /// `=`, behind the name in a `let`.
    Equals,
    /// Anything an expression can start with.
    Expression,
}

/// Why the text is no program.
#[derive(Debug, PartialEq, Eq, Clone, Copy)]
pub enum Fault {
    /// The text does not go on as the grammar asks.
    Mismatch(Expected),
    /// A number does not fit in thirty-two bits with a sign.
    Overflow,
}

/// A failure, and the offset of the character at which it was met.
pub struct Stop {
    pub at: int,
    pub fault: Fault,
}

/// The letters of names: `a` to `z` and `A` to `Z`.
pub open spec fn is_letter(c: char) -> bool {
    ('a' <= c && c <= 'z') || ('A' <= c && c <= 'Z')
}

/// The decimal digits.
pub open spec fn is_digit(c: char) -> bool {
    '0' <= c && c <= '9'
}

/// What may stand between any two tokens: a blank or a tab.
pub open spec fn is_blank(c: char) -> bool {
    c == ' ' || c == '\t'
}

/// What ends a line: a line feed or a carriage return.
pub open spec fn is_newline(c: char) -> bool {
    c == '\n' || c == '\r'
}

/// Whether a text is letters throughout.
pub open spec fn all_letters(word: Seq<char>) -> bool {
    forall|k: int| 0 <= k < word.len() ==> is_letter(#[trigger] word[k])
}

/// Whether a text is decimal digits throughout.
pub open spec fn all_digits(run: Seq<char>) -> bool {
    forall|k: int| 0 <= k < run.len() ==> is_digit(#[trigger] run[k])
}

/// Whether the character at offset `i` of `s` is `c`.
pub open spec fn at(s: Seq<char>, i: int, c: char) -> bool {
    0 <= i < s.len() && s[i] == c
}

/// Whether `text` stands in `s` at offset `i`.
pub open spec fn stands(s: Seq<char>, i: int, text: Seq<char>) -> bool {
    0 <= i && i + text.len() <= s.len() && s.subrange(i, i + text.len()) == text
}

/// The word `fn`.
pub open spec fn kw_fn() -> Seq<char> {
    seq!['f', 'n']
}

/// The word `let`.
pub open spec fn kw_let() -> Seq<char> {
    seq!['l', 'e', 't']
}

/// The word `return`.
pub open spec fn kw_return() -> Seq<char> {
    seq!['r', 'e', 't', 'u', 'r', 'n']
}

/// The word `true`.
pub open spec fn kw_true() -> Seq<char> {
    seq!['t', 'r', 'u', 'e']
}

/// The word `false`.
pub open spec fn kw_false() -> Seq<char> {
    seq!['f', 'a', 'l', 's', 'e']
}

/// The word `bool`.
pub open spec fn kw_bool() -> Seq<char> {
    seq!['b', 'o', 'o', 'l']
}

/// The word `int`.
pub open spec fn kw_int() -> Seq<char> {
    seq!['i', 'n', 't']
}

/// The words that cannot be names.
pub open spec fn reserved(word: Seq<char>) -> bool {
    word == kw_let() || word == kw_return() || word == kw_true() || word == kw_false()
}

/// Where the line that holds offset `i` ends: just behind its line feed, or
/// at the end of the text.
pub open spec fn line_comment_end(s: Seq<char>, i: int) -> int
    decreases s.len() - i,
{
    if i < 0 || i >= s.len() {
        i
    } else if s[i] == '\n' {
        i + 1
    } else {
        line_comment_end(s, i + 1)
    }
}

/// Where a block comment whose text starts at `i` ends: just behind the
/// first `*/` from there on, if there is one.
pub open spec fn block_comment_end(s: Seq<char>, i: int) -> Option<int>
    decreases s.len() - i,
{
    if i < 0 || i + 1 >= s.len() {
        None
    } else if s[i] == '*' && s[i + 1] == '/' {
        Some(i + 2)
    } else {
        block_comment_end(s, i + 1)
    }
}

/// The offset of the first character from `i` on that is not skipped:
/// blanks and comments are, and line ends too where `lines` is set. A `/*`
/// that is never closed is not a comment and is not skipped.
pub open spec fn skip(s: Seq<char>, i: int, lines: bool) -> int
    decreases s.len() - i,
{
    if i < 0 || i >= s.len() {
        i
    } else if is_blank(s[i]) || (lines && is_newline(s[i])) {
        skip(s, i + 1, lines)
    } else if at(s, i, '/') && at(s, i + 1, '/') {
        proof {
            lemma_line_comment_end(s, i + 2);
        }
        skip(s, line_comment_end(s, i + 2), lines)
    } else if at(s, i, '/') && at(s, i + 1, '*') {
        proof {
            lemma_block_comment_end(s, i + 2);
        }
        match block_comment_end(s, i + 2) {
            Some(j) => skip(s, j, lines),
            None => i,
        }
    } else {
        i
    }
}

/// A line comment ends at or behind where its text starts, within the text.
pub proof fn lemma_line_comment_end(s: Seq<char>, i: int)
    requires
        0 <= i <= s.len(),
    ensures
        i <= line_comment_end(s, i) <= s.len(),
    decreases s.len() - i,
{
    if i < s.len() && s[i] != '\n' {
        lemma_line_comment_end(s, i + 1);
    }
}

/// A block comment ends behind its `*/`, within the text.
pub proof fn lemma_block_comment_end(s: Seq<char>, i: int)
    requires
        0 <= i,
    ensures
        block_comment_end(s, i) matches Some(j) ==> i + 2 <= j <= s.len(),
    decreases s.len() - i,
{
    if i + 1 < s.len() && !(s[i] == '*' && s[i + 1] == '/') {
        lemma_block_comment_end(s, i + 1);
    }
}

/// Skipping never goes back, nor beyond the end.
pub proof fn lemma_skip(s: Seq<char>, i: int, lines: bool)
    ensures
        0 <= i <= s.len() ==> i <= skip(s, i, lines) <= s.len(),
        i < 0 || i > s.len() ==> skip(s, i, lines) == i,
    decreases s.len() - i,
{
    if 0 <= i < s.len() {
        if is_blank(s[i]) || (lines && is_newline(s[i])) {
            lemma_skip(s, i + 1, lines);
        } else if at(s, i, '/') && at(s, i + 1, '/') {
            lemma_line_comment_end(s, i + 2);
            lemma_skip(s, line_comment_end(s, i + 2), lines);
        } else if at(s, i, '/') && at(s, i + 1, '*') {
            lemma_block_comment_end(s, i + 2);
            match block_comment_end(s, i + 2) {
                Some(j) => {
                    lemma_skip(s, j, lines);
                },
                None => {},
            }
        }
    }
}

/// Where the run of letters that starts at `i` ends.
pub open spec fn word_end(s: Seq<char>, i: int) -> int
    decreases s.len() - i,
{
    if 0 <= i < s.len() && is_letter(s[i]) {
        word_end(s, i + 1)
    } else {
        i
    }
}

/// The run of letters that starts at `i`: empty where no letter stands.
pub open spec fn word_at(s: Seq<char>, i: int) -> Seq<char> {
    if 0 <= i <= s.len() {
        s.subrange(i, word_end(s, i))
    } else {
        Seq::empty()
    }
}

/// Where the run of digits that starts at `i` ends.
pub open spec fn digits_end(s: Seq<char>, i: int) -> int
    decreases s.len() - i,
{
    if 0 <= i < s.len() && is_digit(s[i]) {
        digits_end(s, i + 1)
    } else {
        i
    }
}

/// A word ends within the text, holds letters only, and no letter follows it.
pub proof fn lemma_word_end(s: Seq<char>, i: int)
    ensures
        0 <= i <= s.len() ==> i <= word_end(s, i) <= s.len(),
        i < 0 || i > s.len() ==> word_end(s, i) == i,
        forall|k: int| i <= k < word_end(s, i) ==> is_letter(#[trigger] s[k]),
        0 <= word_end(s, i) < s.len() ==> !is_letter(s[word_end(s, i)]),
    decreases s.len() - i,
{
    if 0 <= i < s.len() && is_letter(s[i]) {
        lemma_word_end(s, i + 1);
    }
}

/// A run of digits ends within the text, holds digits only, and no digit
/// follows it.
pub proof fn lemma_digits_end(s: Seq<char>, i: int)
    ensures
        0 <= i <= s.len() ==> i <= digits_end(s, i) <= s.len(),
        i < 0 || i > s.len() ==> digits_end(s, i) == i,
        forall|k: int| i <= k < digits_end(s, i) ==> is_digit(#[trigger] s[k]),
        0 <= digits_end(s, i) < s.len() ==> !is_digit(s[digits_end(s, i)]),
    decreases s.len() - i,
{
    if 0 <= i < s.len() && is_digit(s[i]) {
        lemma_digits_end(s, i + 1);
    }
}

/// The number that a run of decimal digits writes.
pub open spec fn number_value(digits: Seq<char>) -> nat
    decreases digits.len(),
{
    if digits.len() == 0 {
        0
    } else {
        (10 * number_value(digits.drop_last()) + (digits.last() as int - '0' as int)) as nat
    }
}

/// A failure at offset `at`: `what` was looked for and not found.
pub open spec fn mismatch<T>(at: int, what: Expected) -> Result<T, Stop> {
    Err(Stop { at, fault: Fault::Mismatch(what) })
}

/// A name, after blanks and comments: the longest run of letters, which
/// must not be empty nor a reserved word. Yields the name and the offset
/// behind it.
pub open spec fn ident(s: Seq<char>, i: int) -> Result<(Seq<char>, int), Stop> {
    let j = skip(s, i, false);
    let w = word_end(s, j);
    if w == j || reserved(word_at(s, j)) {
        mismatch(j, Expected::Identifier)
    } else {
        Ok((word_at(s, j), w))
    }
}

/// The character `c`, after blanks and comments. Yields the offset behind it.
pub open spec fn symbol(s: Seq<char>, i: int, c: char, what: Expected) -> Result<int, Stop> {
    let j = skip(s, i, false);
    if at(s, j, c) {
        Ok(j + 1)
    } else {
        mismatch(j, what)
    }
}

/// `->`, after blanks and comments.
pub open spec fn arrow(s: Seq<char>, i: int) -> Result<int, Stop> {
    let j = skip(s, i, false);
    if at(s, j, '-') && at(s, j + 1, '>') {
        Ok(j + 2)
    } else {
        mismatch(j, Expected::Arrow)
    }
}

/// `bool` or `int`, after blanks and comments.
pub open spec fn declared_type(s: Seq<char>, i: int) -> Result<(Type, int), Stop> {
    let j = skip(s, i, false);
    let w = word_end(s, j);
    if word_at(s, j) == kw_bool() {
        Ok((Type::Bool, w))
    } else if word_at(s, j) == kw_int() {
        Ok((Type::Int, w))
    } else {
        mismatch(j, Expected::TypeName)
    }
}

/// The infix operator that `c` writes: `+`, or else `-`.
pub open spec fn infix(c: char) -> BinaryOp {
    if c == '+' {
        BinaryOp::Plus
    } else {
        BinaryOp::Minus
    }
}

/// The infix expression of `op` over `lhs` and `rhs`.
pub open spec fn binary(op: BinaryOp, lhs: NodeView, rhs: NodeView) -> NodeView {
    NodeView::BinaryExpr { op, lhs: Box::new(lhs), rhs: Box::new(rhs) }
}

/// The prefix expression of `op` over `child`.
pub open spec fn unary(op: UnaryOp, child: NodeView) -> NodeView {
    NodeView::UnaryExpr { op, child: Box::new(child) }
}

/// An expression from offset `i` on: the node, and the offset behind it.
///
/// `let NAME = EXPR`, `return EXPR` and `- EXPR` are tried first, in that
/// order; each takes all of the expression that follows it. Anything else
/// is a sum.
pub open spec fn expr(s: Seq<char>, i: int) -> Result<(NodeView, int), Stop>
    decreases s.len() - i, 3nat,
{
    let j = skip(s, i, false);
    let w = word_end(s, j);
    if word_at(s, j) == kw_let() {
        match ident(s, w) {
            Err(e) => Err(e),
            Ok((name, k)) => match symbol(s, k, '=', Expected::Equals) {
                Err(e) => Err(e),
                Ok(m) => {
                    proof {
                        lemma_skip(s, i, false);
                        lemma_word_end(s, j);
                        assert(kw_let().len() == 3);
                        lemma_skip(s, w, false);
                        lemma_word_end(s, skip(s, w, false));
                        lemma_skip(s, k, false);
                    }
                    match expr(s, m) {
                        Err(e) => Err(e),
                        Ok((value, n)) => Ok((NodeView::Assign(name, Box::new(value)), n)),
                    }
                },
            },
        }
    } else if word_at(s, j) == kw_return() {
        proof {
            lemma_skip(s, i, false);
            lemma_word_end(s, j);
            assert(kw_return().len() == 6);
        }
        match expr(s, w) {
            Err(e) => Err(e),
            Ok((child, n)) => Ok((unary(UnaryOp::Return, child), n)),
        }
    } else if at(s, j, '-') {
        proof {
            lemma_skip(s, i, false);
        }
        match expr(s, j + 1) {
            Err(e) => Err(e),
            Ok((child, n)) => Ok((unary(UnaryOp::Minus, child), n)),
        }
    } else {
        proof {
            lemma_skip(s, i, false);
        }
        sum(s, j)
    }
}

/// A sum: operands joined by `+` and `-`, grouped from the left. The test
/// on the offsets never fails (`lemma_sum_unfolds`).
pub open spec fn sum(s: Seq<char>, i: int) -> Result<(NodeView, int), Stop>
    decreases s.len() - i, 2nat,
{
    match operand(s, i) {
        Err(e) => Err(e),
        Ok((lhs, j)) => if i <= j <= s.len() {
            sum_from(s, lhs, j)
        } else {
            Ok((lhs, j))
        },
    }
}

/// The rest of a sum whose operands so far make up `lhs`. It ends before the
/// blanks in front of what is no `+` or `-`.
///
/// Every operand ends behind where it starts, so the test on the offsets
/// never fails (`lemma_sum_from_unfolds`); it is there to show that the
/// definition is well founded.
pub open spec fn sum_from(s: Seq<char>, lhs: NodeView, i: int) -> Result<(NodeView, int), Stop>
    decreases s.len() - i, 1nat,
{
    let j = skip(s, i, false);
    if at(s, j, '+') || at(s, j, '-') {
        proof {
            lemma_skip(s, i, false);
        }
        match operand(s, j + 1) {
            Err(e) => Err(e),
            Ok((rhs, k)) => if j < k <= s.len() {
                sum_from(s, binary(infix(s[j]), lhs, rhs), k)
            } else {
                Ok((binary(infix(s[j]), lhs, rhs), k))
            },
        }
    } else {
        Ok((lhs, i))
    }
}

/// An operand of a sum: an expression in parentheses, a number, `true`,
/// `false`, a call without arguments, or a name.
pub open spec fn operand(s: Seq<char>, i: int) -> Result<(NodeView, int), Stop>
    decreases s.len() - i, 0nat,
{
    let j = skip(s, i, false);
    let w = word_end(s, j);
    let word = word_at(s, j);
    if at(s, j, '(') {
        proof {
            lemma_skip(s, i, false);
        }
        match expr(s, j + 1) {
            Err(e) => Err(e),
            Ok((inner, k)) => match symbol(s, k, ')', Expected::CloseParen) {
                Err(e) => Err(e),
                Ok(m) => Ok((inner, m)),
            },
        }
    } else if 0 <= j < s.len() && is_digit(s[j]) {
        let d = digits_end(s, j);
        let n = number_value(s.subrange(j, d));
        if n > i32::MAX {
            Err(Stop { at: j, fault: Fault::Overflow })
        } else {
            Ok((NodeView::Int(n as i32), d))
        }
    } else if word == kw_true() {
        Ok((NodeView::Bool(true), w))
    } else if word == kw_false() {
        Ok((NodeView::Bool(false), w))
    } else if w == j || reserved(word) {
        mismatch(j, Expected::Expression)
    } else if at(s, skip(s, w, false), '(') {
        match symbol(s, skip(s, w, false) + 1, ')', Expected::CloseParen) {
            Err(e) => Err(e),
            Ok(m) => Ok((NodeView::FnRef(word, Seq::empty()), m)),
        }
    } else {
        Ok((NodeView::Ref(word), w))
    }
}

/// An expression that is read ends behind where it starts, within the text.
pub proof fn lemma_expr_advances(s: Seq<char>, i: int)
    ensures
        expr(s, i) matches Ok((_, k)) ==> 0 <= i < k <= s.len(),
    decreases s.len() - i, 3nat,
{
    let j = skip(s, i, false);
    let w = word_end(s, j);
    lemma_skip(s, i, false);
    lemma_word_end(s, j);
    if word_at(s, j) == kw_let() {
        assert(kw_let().len() == 3);
        if let Ok((name, k)) = ident(s, w) {
            lemma_skip(s, w, false);
            lemma_word_end(s, skip(s, w, false));
            lemma_skip(s, k, false);
            if let Ok(m) = symbol(s, k, '=', Expected::Equals) {
                lemma_expr_advances(s, m);
            }
        }
    } else if word_at(s, j) == kw_return() {
        assert(kw_return().len() == 6);
        lemma_expr_advances(s, w);
    } else if at(s, j, '-') {
        lemma_expr_advances(s, j + 1);
    } else {
        lemma_sum_advances(s, j);
    }
}

/// The same, for a sum.
pub proof fn lemma_sum_advances(s: Seq<char>, i: int)
    ensures
        sum(s, i) matches Ok((_, k)) ==> 0 <= i < k <= s.len(),
    decreases s.len() - i, 2nat,
{
    lemma_operand_advances(s, i);
    if let Ok((lhs, j)) = operand(s, i) {
        lemma_sum_from_advances(s, lhs, j);
    }
}

/// The rest of a sum ends at or behind where it starts, within the text.
pub proof fn lemma_sum_from_advances(s: Seq<char>, lhs: NodeView, i: int)
    requires
        0 <= i <= s.len(),
    ensures
        sum_from(s, lhs, i) matches Ok((_, k)) ==> i <= k <= s.len(),
    decreases s.len() - i, 1nat,
{
    let j = skip(s, i, false);
    lemma_skip(s, i, false);
    if at(s, j, '+') || at(s, j, '-') {
        lemma_operand_advances(s, j + 1);
        if let Ok((rhs, k)) = operand(s, j + 1) {
            lemma_sum_from_advances(s, binary(infix(s[j]), lhs, rhs), k);
        }
    }
}

/// The same as for an expression, for an operand.
pub proof fn lemma_operand_advances(s: Seq<char>, i: int)
    ensures
        operand(s, i) matches Ok((_, k)) ==> 0 <= i < k <= s.len(),
    decreases s.len() - i, 0nat,
{
    let j = skip(s, i, false);
    let w = word_end(s, j);
    lemma_skip(s, i, false);
    lemma_word_end(s, j);
    assert(kw_true().len() == 4);
    assert(kw_false().len() == 5);
    if at(s, j, '(') {
        lemma_expr_advances(s, j + 1);
        if let Ok((inner, k)) = expr(s, j + 1) {
            lemma_skip(s, k, false);
        }
    } else if 0 <= j < s.len() && is_digit(s[j]) {
        lemma_digits_end(s, j);
    } else {
        lemma_skip(s, w, false);
        lemma_skip(s, skip(s, w, false) + 1, false);
    }
}

/// The test on the offsets in `sum` never fails: a sum is its first
/// operand and what follows it.
pub proof fn lemma_sum_unfolds(s: Seq<char>, i: int)
    ensures
        sum(s, i) == match operand(s, i) {
            Err(e) => Err(e),
            Ok((lhs, j)) => sum_from(s, lhs, j),
        },
{
    lemma_operand_advances(s, i);
}

/// The test on the offsets in `sum_from` never fails: behind an operator,
/// a sum goes on with the next operand and what follows it.
pub proof fn lemma_sum_from_unfolds(s: Seq<char>, lhs: NodeView, i: int)
    ensures
        sum_from(s, lhs, i) == if at(s, skip(s, i, false), '+') || at(s, skip(s, i, false), '-') {
            match operand(s, skip(s, i, false) + 1) {
                Err(e) => Err(e),
                Ok((rhs, k)) => sum_from(s, binary(infix(s[skip(s, i, false)]), lhs, rhs), k),
            }
        } else {
            Ok((lhs, i))
        },
{
    lemma_operand_advances(s, skip(s, i, false) + 1);
    lemma_skip(s, i, false);
}

/// A statement and its `;` end behind where they start, within the text.
pub proof fn lemma_statement_advances(s: Seq<char>, i: int)
    ensures
        expr(s, skip(s, i, true)) matches Ok((_, k)) ==> (symbol(
            s,
            k,
            ';',
            Expected::Semicolon,
        ) matches Ok(m) ==> 0 <= i < m <= s.len()),
{
    lemma_expr_advances(s, skip(s, i, true));
    if let Ok((_, k)) = expr(s, skip(s, i, true)) {
        lemma_skip(s, i, true);
        lemma_skip(s, k, false);
    }
}

/// The statements of a body, from behind its `{` or behind a `;` on, up to
/// and with the closing `}`. Each statement is an expression and a `;`;
/// there is at least one. Line ends may stand before a statement and before
/// the `}`. `done` holds the statements read so far.
pub open spec fn statements(s: Seq<char>, i: int, done: Seq<NodeView>) -> Result<
    (Seq<NodeView>, int),
    Stop,
>
    decreases s.len() - i,
{
    match expr(s, skip(s, i, true)) {
        Err(e) => Err(e),
        Ok((statement, k)) => match symbol(s, k, ';', Expected::Semicolon) {
            Err(e) => Err(e),
            Ok(m) => if at(s, skip(s, m, true), '}') {
                Ok((done.push(statement), skip(s, m, true) + 1))
            } else {
                proof {
                    lemma_statement_advances(s, i);
                }
                statements(s, m, done.push(statement))
            },
        },
    }
}

/// A function that starts at offset `i`:
/// `fn NAME ( ) -> TYPE { STATEMENT ; ... }`. Its parameter list is empty.
pub open spec fn function(s: Seq<char>, i: int) -> Result<(NodeView, int), Stop> {
    if word_at(s, i) != kw_fn() {
        mismatch(i, Expected::Function)
    } else {
        match ident(s, word_end(s, i)) {
            Err(e) => Err(e),
            Ok((name, a)) => match symbol(s, a, '(', Expected::OpenParen) {
                Err(e) => Err(e),
                Ok(b) => match symbol(s, b, ')', Expected::CloseParen) {
                    Err(e) => Err(e),
                    Ok(c) => match arrow(s, c) {
                        Err(e) => Err(e),
                        Ok(d) => match declared_type(s, d) {
                            Err(e) => Err(e),
                            Ok((return_value, f)) => match symbol(
                                s,
                                f,
                                '{',
                                Expected::OpenBrace,
                            ) {
                                Err(e) => Err(e),
                                Ok(g) => match statements(s, g, Seq::empty()) {
                                    Err(e) => Err(e),
                                    Ok((children, h)) => Ok(
                                        (
                                            NodeView::Function {
                                                name,
                                                arguments: Seq::<ArgumentView>::empty(),
                                                return_value,
                                                children,
                                            },
                                            h,
                                        ),
                                    ),
                                },
                            },
                        },
                    },
                },
            },
        }
    }
}

/// The statements that are read end behind where they start.
pub proof fn lemma_statements_advance(s: Seq<char>, i: int, done: Seq<NodeView>)
    ensures
        statements(s, i, done) matches Ok((_, k)) ==> 0 <= i < k <= s.len(),
    decreases s.len() - i,
{
    lemma_statement_advances(s, i);
    if let Ok((statement, k)) = expr(s, skip(s, i, true)) {
        if let Ok(m) = symbol(s, k, ';', Expected::Semicolon) {
            lemma_skip(s, m, true);
            if !at(s, skip(s, m, true), '}') {
                lemma_statements_advance(s, m, done.push(statement));
            }
        }
    }
}

/// A function that is read after line ends, blanks and comments ends
/// behind where those start, within the text.
pub proof fn lemma_function_advances(s: Seq<char>, i: int)
    ensures
        function(s, skip(s, i, true)) matches Ok((_, k)) ==> 0 <= i < k <= s.len(),
{
    let j = skip(s, i, true);
    lemma_skip(s, i, true);
    lemma_word_end(s, j);
    assert(kw_fn().len() == 2);
    let w = word_end(s, j);
    if word_at(s, j) == kw_fn() {
        if let Ok((name, a)) = ident(s, w) {
            lemma_skip(s, w, false);
            lemma_word_end(s, skip(s, w, false));
            lemma_skip(s, a, false);
            if let Ok(b) = symbol(s, a, '(', Expected::OpenParen) {
                lemma_skip(s, b, false);
                if let Ok(c) = symbol(s, b, ')', Expected::CloseParen) {
                    lemma_skip(s, c, false);
                    if let Ok(d) = arrow(s, c) {
                        lemma_skip(s, d, false);
                        lemma_word_end(s, skip(s, d, false));
                        if let Ok((t, f)) = declared_type(s, d) {
                            lemma_skip(s, f, false);
                            if let Ok(g) = symbol(s, f, '{', Expected::OpenBrace) {
                                lemma_statements_advance(s, g, Seq::empty());
                            }
                        }
                    }
                }
            }
        }
    }
}

/// The functions from offset `i` to the end of the text. Blanks, line ends
/// and comments may stand before, between and behind them. `done` holds
/// the functions read so far.
pub open spec fn functions(s: Seq<char>, i: int, done: Seq<NodeView>) -> Result<
    Seq<NodeView>,
    Stop,
>
    decreases s.len() - i,
{
    let j = skip(s, i, true);
    if j < 0 || j >= s.len() {
        Ok(done)
    } else {
        match function(s, j) {
            Err(e) => Err(e),
            Ok((f, k)) => {
                proof {
                    lemma_function_advances(s, i);
                }
                functions(s, k, done.push(f))
            },
        }
    }
}

/// The program that a text writes, or where and why it writes none.
pub open spec fn program(s: Seq<char>) -> Result<Seq<NodeView>, Stop> {
    functions(s, 0, Seq::empty())
}

/// What stands for one character once tabs are gone: four blanks for a
/// tab, the character itself for any other.
pub open spec fn expansion(c: char) -> Seq<char> {
    if c == '\t' {
        seq![' ', ' ', ' ', ' ']
    } else {
        seq![c]
    }
}

/// The text with each tab replaced by four blanks.
pub open spec fn expand_tabs(s: Seq<char>) -> Seq<char>
    decreases s.len(),
{
    if s.len() == 0 {
        Seq::empty()
    } else {
        expand_tabs(s.drop_last()) + expansion(s.last())
    }
}

} // verus!
