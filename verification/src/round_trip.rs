use crate::ast::{ArgumentView, BinaryOp, NodeView, Type, UnaryOp};
use crate::grammar::{
    all_digits, all_letters, arrow, at, binary, declared_type, digits_end, expand_tabs, expr,
    function, functions, ident, infix, is_blank, is_digit, is_letter, is_newline, kw_bool,
    kw_false, kw_fn, kw_int, kw_let, kw_return, kw_true, lemma_digits_end, number_value, operand,
    program, skip, stands, statements, sum, sum_from, symbol, unary, word_at, word_end, Expected,
    Fault, Stop,
};
use crate::unparse::{
    atomic, digit_char, digits_of, header_text, is_name, let_text, op_char, printable,
    printable_function, type_text, unparse, unparse_body, unparse_function, unparse_operand,
    unparse_program,
};
use vstd::prelude::*;

verus! {

/// A text made of two stands where its first part does, with its second
/// part right behind.
pub proof fn lemma_stands_both(s: Seq<char>, i: int, first: Seq<char>, second: Seq<char>)
    ensures
        stands(s, i, first + second) <==> stands(s, i, first) && stands(s, i + first.len(), second),
{
    let whole = first + second;
    if stands(s, i, whole) {
        assert(s.subrange(i, i + first.len()) =~= whole.subrange(0, first.len() as int));
        assert(whole.subrange(0, first.len() as int) =~= first);
        assert(s.subrange(i + first.len(), i + first.len() + second.len()) =~= whole.subrange(
            first.len() as int,
            whole.len() as int,
        ));
        assert(whole.subrange(first.len() as int, whole.len() as int) =~= second);
    }
    if stands(s, i, first) && stands(s, i + first.len(), second) {
        assert(s.subrange(i, i + whole.len()) =~= s.subrange(i, i + first.len()) + s.subrange(
            i + first.len(),
            i + first.len() + second.len(),
        ));
    }
}

/// The characters of a text that stands in `s` are characters of `s`.
pub proof fn lemma_stands_each(s: Seq<char>, i: int, text: Seq<char>)
    requires
        stands(s, i, text),
    ensures
        forall|k: int| 0 <= k < text.len() ==> s[i + k] == #[trigger] text[k],
{
    assert forall|k: int| 0 <= k < text.len() implies s[i + k] == #[trigger] text[k] by {
        assert(s.subrange(i, i + text.len())[k] == s[i + k]);
    }
}

/// What ends a token: no character at all, or one that is no blank, no line
/// end and no `/`.
pub open spec fn solid(s: Seq<char>, i: int) -> bool {
    0 <= i < s.len() ==> !is_blank(s[i]) && !is_newline(s[i]) && s[i] != '/'
}

/// Nothing is skipped in front of a solid character.
pub proof fn lemma_skip_none(s: Seq<char>, i: int, lines: bool)
    requires
        solid(s, i),
    ensures
        skip(s, i, lines) == i,
{
}

/// One blank is skipped in front of a solid character.
pub proof fn lemma_skip_blank(s: Seq<char>, i: int, lines: bool)
    requires
        at(s, i, ' '),
        solid(s, i + 1),
    ensures
        skip(s, i, lines) == i + 1,
{
    lemma_skip_none(s, i + 1, lines);
}

/// A run of letters that stands in `s`, with no letter behind it, is the
/// word at its offset.
pub proof fn lemma_word(s: Seq<char>, i: int, word: Seq<char>)
    requires
        stands(s, i, word),
        all_letters(word),
        i + word.len() < s.len() ==> !is_letter(s[i + word.len()]),
    ensures
        word_end(s, i) == i + word.len(),
        word_at(s, i) == word,
    decreases word.len(),
{
    lemma_stands_each(s, i, word);
    if word.len() > 0 {
        let rest = word.subrange(1, word.len() as int);
        assert(s[i] == word[0]);
        assert(stands(s, i + 1, rest)) by {
            assert(s.subrange(i + 1, i + 1 + rest.len()) =~= rest);
        }
        assert(all_letters(rest)) by {
            assert forall|k: int| 0 <= k < rest.len() implies is_letter(#[trigger] rest[k]) by {
                assert(rest[k] == word[k + 1]);
            }
        }
        lemma_word(s, i + 1, rest);
    }
}

/// A run of digits that stands in `s`, with no digit behind it, ends where
/// the digits from its offset on end.
pub proof fn lemma_digits(s: Seq<char>, i: int, run: Seq<char>)
    requires
        stands(s, i, run),
        all_digits(run),
        i + run.len() < s.len() ==> !is_digit(s[i + run.len()]),
    ensures
        digits_end(s, i) == i + run.len(),
    decreases run.len(),
{
    lemma_stands_each(s, i, run);
    if run.len() > 0 {
        let rest = run.subrange(1, run.len() as int);
        assert(s[i] == run[0]);
        assert(stands(s, i + 1, rest)) by {
            assert(s.subrange(i + 1, i + 1 + rest.len()) =~= rest);
        }
        assert(all_digits(rest)) by {
            assert forall|k: int| 0 <= k < rest.len() implies is_digit(#[trigger] rest[k]) by {
                assert(rest[k] == run[k + 1]);
            }
        }
        lemma_digits(s, i + 1, rest);
    }
}

/// The digits of a number are digits, at least one, and write that number.
pub proof fn lemma_digits_of(n: nat)
    ensures
        digits_of(n).len() > 0,
        all_digits(digits_of(n)),
        number_value(digits_of(n)) == n,
    decreases n,
{
    if n < 10 {
        let one = seq![digit_char(n)];
        assert(one.drop_last() =~= Seq::<char>::empty());
        assert(number_value(one.drop_last()) == 0);
        assert(one.last() == digit_char(n));
    } else {
        lemma_digits_of(n / 10);
        let most = digits_of(n / 10);
        let all = most.push(digit_char(n % 10));
        assert(all.drop_last() =~= most);
        assert(all.last() == digit_char(n % 10));
        assert forall|k: int| 0 <= k < all.len() implies is_digit(#[trigger] all[k]) by {
            if k < most.len() {
                assert(all[k] == most[k]);
            }
        }
    }
}

/// What may stand behind an expression: nothing, `)` or `;`.
pub open spec fn ends(s: Seq<char>, p: int) -> bool {
    p == s.len() || at(s, p, ')') || at(s, p, ';')
}

/// What stands behind the left operand of an infix operator: a blank and
/// the operator.
pub open spec fn joins(s: Seq<char>, p: int) -> bool {
    at(s, p, ' ') && (at(s, p + 1, '+') || at(s, p + 1, '-'))
}

/// Where a sum can start: at a solid character that is no `-` and no `}`
/// and starts neither `let` nor `return`.
pub open spec fn starts_sum(s: Seq<char>, i: int) -> bool {
    &&& 0 <= i < s.len()
    &&& solid(s, i)
    &&& !at(s, i, '-')
    &&& !at(s, i, '}')
    &&& word_at(s, i) != kw_let()
    &&& word_at(s, i) != kw_return()
}

/// An atomic node, written at offset `i`, is read back as an operand.
pub proof fn lemma_atom_printed(s: Seq<char>, i: int, n: NodeView)
    requires
        atomic(n),
        printable(n),
        stands(s, i, unparse(n)),
        ends(s, i + unparse(n).len()) || joins(s, i + unparse(n).len()),
    ensures
        operand(s, i) == Ok::<(NodeView, int), Stop>((n, i + unparse(n).len())),
        starts_sum(s, i),
        unparse(n).len() > 0,
{
    let text = unparse(n);
    let p = i + text.len();
    lemma_stands_each(s, i, text);
    assert(kw_let().len() == 3 && kw_return().len() == 6 && kw_true().len() == 4
        && kw_false().len() == 5);
    if joins(s, p) {
        lemma_skip_blank(s, p, false);
    } else {
        lemma_skip_none(s, p, false);
    }
    match n {
        NodeView::Int(v) => {
            lemma_digits_of(v as nat);
            assert(is_digit(text[0]));
            assert(s[i] == text[0]);
            lemma_digits(s, i, text);
            lemma_skip_none(s, i, false);
            assert(word_end(s, i) == i);
            assert(word_at(s, i) =~= Seq::<char>::empty());
            assert(s.subrange(i, p) == text);
        },
        NodeView::Bool(b) => {
            assert(text[0] == if b {
                't'
            } else {
                'f'
            });
            assert(s[i] == text[0]);
            assert(all_letters(text));
            lemma_word(s, i, text);
            lemma_skip_none(s, i, false);
            assert(kw_true()[0] == 't' && kw_false()[0] == 'f' && kw_let()[0] == 'l'
                && kw_return()[0] == 'r');
        },
        NodeView::Ref(name) => {
            assert(is_letter(name[0]));
            assert(s[i] == text[0]);
            lemma_word(s, i, name);
            lemma_skip_none(s, i, false);
        },
        NodeView::FnRef(name, arguments) => {
            lemma_stands_both(s, i, name, seq!['(', ')']);
            lemma_stands_each(s, i, name);
            lemma_stands_each(s, i + name.len(), seq!['(', ')']);
            assert(is_letter(name[0]));
            assert(s[i] == name[0]);
            let w = i + name.len();
            assert(s[w] == seq!['(', ')'][0]);
            assert(s[w + 1] == seq!['(', ')'][1]);
            lemma_word(s, i, name);
            lemma_skip_none(s, i, false);
            lemma_skip_none(s, w, false);
            lemma_skip_none(s, w + 1, false);
            assert(arguments =~= Seq::<ArgumentView>::empty());
        },
        _ => {},
    }
}

/// A blank in front of an expression changes nothing.
pub proof fn lemma_expr_from_blank(s: Seq<char>, i: int)
    requires
        at(s, i, ' '),
        solid(s, i + 1),
    ensures
        expr(s, i) == expr(s, i + 1),
{
    lemma_skip_blank(s, i, false);
    lemma_skip_none(s, i + 1, false);
}

/// A blank in front of an operand changes nothing.
pub proof fn lemma_operand_from_blank(s: Seq<char>, i: int)
    requires
        at(s, i, ' '),
        solid(s, i + 1),
    ensures
        operand(s, i) == operand(s, i + 1),
{
    lemma_skip_blank(s, i, false);
    lemma_skip_none(s, i + 1, false);
}

/// What an assignment is, given what its value is read as.
pub open spec fn assigned(name: Seq<char>, value: Result<(NodeView, int), Stop>) -> Result<
    (NodeView, int),
    Stop,
> {
    match value {
        Ok((v, e)) => Ok((NodeView::Assign(name, Box::new(v)), e)),
        Err(e) => Err(e),
    }
}

/// What a prefix expression is, given what its operand is read as.
pub open spec fn prefixed(op: UnaryOp, child: Result<(NodeView, int), Stop>) -> Result<
    (NodeView, int),
    Stop,
> {
    match child {
        Ok((c, e)) => Ok((unary(op, c), e)),
        Err(e) => Err(e),
    }
}

/// Behind `let NAME = `, the expression is an assignment of what follows.
pub proof fn lemma_let_step(s: Seq<char>, i: int, name: Seq<char>)
    requires
        is_name(name),
        stands(s, i, let_text(name)),
        solid(s, i + let_text(name).len()),
    ensures
        expr(s, i) == assigned(name, expr(s, i + let_text(name).len())),
        solid(s, i),
        !at(s, i, '}'),
        i < s.len(),
{
    let sep = seq![' ', '=', ' '];
    let blank = seq![' '];
    lemma_stands_both(s, i, kw_let() + blank + name, sep);
    lemma_stands_both(s, i, kw_let() + blank, name);
    lemma_stands_both(s, i, kw_let(), blank);
    lemma_stands_each(s, i, kw_let());
    lemma_stands_each(s, i + 3, blank);
    lemma_stands_each(s, i + 4, name);
    let k = i + 4 + name.len();
    lemma_stands_each(s, k, sep);
    assert(s[i] == kw_let()[0]);
    assert(s[i + 3] == blank[0]);
    assert(s[i + 4] == name[0]);
    assert(s[k] == sep[0] && s[k + 1] == sep[1] && s[k + 2] == sep[2]);
    assert(all_letters(kw_let()));
    lemma_word(s, i, kw_let());
    lemma_word(s, i + 4, name);
    lemma_skip_none(s, i, false);
    lemma_skip_blank(s, i + 3, false);
    lemma_skip_blank(s, k, false);
    lemma_expr_from_blank(s, k + 2);
    assert(ident(s, i + 3) == Ok::<(Seq<char>, int), Stop>((name, k)));
    assert(symbol(s, k, '=', Expected::Equals) == Ok::<int, Stop>(k + 2));
}

/// Behind `return `, the expression is a return of what follows.
pub proof fn lemma_return_step(s: Seq<char>, i: int)
    requires
        stands(s, i, kw_return() + seq![' ']),
        solid(s, i + 7),
    ensures
        expr(s, i) == prefixed(UnaryOp::Return, expr(s, i + 7)),
        solid(s, i),
        !at(s, i, '}'),
        i < s.len(),
{
    let blank = seq![' '];
    lemma_stands_both(s, i, kw_return(), blank);
    lemma_stands_each(s, i, kw_return());
    lemma_stands_each(s, i + 6, blank);
    assert(s[i] == kw_return()[0]);
    assert(s[i + 6] == blank[0]);
    assert(all_letters(kw_return()));
    lemma_word(s, i, kw_return());
    lemma_skip_none(s, i, false);
    lemma_expr_from_blank(s, i + 6);
    assert(kw_let().len() == 3 && kw_return().len() == 6);
}

/// Behind `- `, the expression is the negation of what follows.
pub proof fn lemma_minus_step(s: Seq<char>, i: int)
    requires
        stands(s, i, seq!['-', ' ']),
        solid(s, i + 2),
    ensures
        expr(s, i) == prefixed(UnaryOp::Minus, expr(s, i + 2)),
        solid(s, i),
        !at(s, i, '}'),
        i < s.len(),
{
    let sign = seq!['-', ' '];
    lemma_stands_each(s, i, sign);
    assert(s[i] == sign[0] && s[i + 1] == sign[1]);
    lemma_skip_none(s, i, false);
    lemma_expr_from_blank(s, i + 1);
    assert(word_end(s, i) == i);
    assert(word_at(s, i) =~= Seq::<char>::empty());
    assert(kw_let().len() == 3 && kw_return().len() == 6);
}

/// Where a sum can start, the expression is that sum.
pub proof fn lemma_sum_start(s: Seq<char>, i: int)
    requires
        starts_sum(s, i),
    ensures
        expr(s, i) == sum(s, i),
{
    lemma_skip_none(s, i, false);
}

/// A sum ends in front of what ends an expression.
pub proof fn lemma_sum_end(s: Seq<char>, n: NodeView, p: int)
    requires
        0 <= p,
        ends(s, p),
    ensures
        sum_from(s, n, p) == Ok::<(NodeView, int), Stop>((n, p)),
{
    if p < s.len() {
        lemma_skip_none(s, p, false);
    }
}

/// Behind an operator between blanks, a sum goes on with the operand that
/// follows.
pub proof fn lemma_sum_step(
    s: Seq<char>,
    lhs: NodeView,
    q: int,
    op: BinaryOp,
    rhs: NodeView,
    k: int,
)
    requires
        stands(s, q, seq![' ', op_char(op), ' ']),
        solid(s, q + 3),
        operand(s, q + 3) == Ok::<(NodeView, int), Stop>((rhs, k)),
        q + 3 < k <= s.len(),
    ensures
        sum_from(s, lhs, q) == sum_from(s, binary(op, lhs, rhs), k),
        joins(s, q),
{
    let sep = seq![' ', op_char(op), ' '];
    lemma_stands_each(s, q, sep);
    assert(s[q] == sep[0] && s[q + 1] == sep[1] && s[q + 2] == sep[2]);
    lemma_skip_blank(s, q, false);
    lemma_operand_from_blank(s, q + 2);
    assert(infix(s[q + 1]) == op);
}

/// An operand, written at offset `i`, is read back as an operand.
pub proof fn lemma_operand_printed(s: Seq<char>, i: int, n: NodeView)
    requires
        printable(n),
        stands(s, i, unparse_operand(n)),
        ends(s, i + unparse_operand(n).len()) || joins(s, i + unparse_operand(n).len()),
    ensures
        operand(s, i) == Ok::<(NodeView, int), Stop>((n, i + unparse_operand(n).len())),
        starts_sum(s, i),
        unparse_operand(n).len() > 0,
    decreases n, 3nat,
{
    if atomic(n) {
        lemma_atom_printed(s, i, n);
    } else {
        let inner = unparse(n);
        let open = seq!['('];
        let close = seq![')'];
        lemma_stands_both(s, i, open + inner, close);
        lemma_stands_both(s, i, open, inner);
        lemma_stands_each(s, i, open);
        lemma_stands_each(s, i + 1 + inner.len(), close);
        assert(s[i] == open[0]);
        assert(s[i + 1 + inner.len()] == close[0]);
        lemma_expr_printed(s, i + 1, n);
        lemma_skip_none(s, i, false);
        lemma_skip_none(s, i + 1 + inner.len(), false);
        assert(word_end(s, i) == i);
        assert(word_at(s, i) =~= Seq::<char>::empty());
        assert(kw_let().len() == 3 && kw_return().len() == 6);
    }
}

/// An expression, written at offset `i` with nothing behind it that could
/// carry it on, is read back as it was.
pub proof fn lemma_expr_printed(s: Seq<char>, i: int, n: NodeView)
    requires
        printable(n),
        stands(s, i, unparse(n)),
        ends(s, i + unparse(n).len()),
    ensures
        expr(s, i) == Ok::<(NodeView, int), Stop>((n, i + unparse(n).len())),
        solid(s, i),
        !at(s, i, '}'),
        0 <= i < s.len(),
        unparse(n).len() > 0,
    decreases n, 2nat,
{
    match n {
        NodeView::Assign(_, _) => {
            lemma_assign_printed(s, i, n);
        },
        NodeView::UnaryExpr { op: UnaryOp::Return, .. } => {
            lemma_return_printed(s, i, n);
        },
        NodeView::UnaryExpr { op: UnaryOp::Minus, .. } => {
            lemma_minus_printed(s, i, n);
        },
        NodeView::BinaryExpr { .. } => {
            lemma_binary_printed(s, i, n);
        },
        NodeView::Function { .. } => {},
        _ => {
            lemma_atom_printed(s, i, n);
            lemma_sum_end(s, n, i + unparse(n).len());
            lemma_sum_start(s, i);
        },
    }
}

proof fn lemma_assign_printed(s: Seq<char>, i: int, n: NodeView)
    requires
        n is Assign,
        printable(n),
        stands(s, i, unparse(n)),
        ends(s, i + unparse(n).len()),
    ensures
        expr(s, i) == Ok::<(NodeView, int), Stop>((n, i + unparse(n).len())),
        solid(s, i),
        !at(s, i, '}'),
        0 <= i < s.len(),
        unparse(n).len() > 0,
    decreases n, 1nat,
{
    if let NodeView::Assign(name, value) = n {
        lemma_stands_both(s, i, let_text(name), unparse(*value));
        lemma_expr_printed(s, i + let_text(name).len(), *value);
        lemma_let_step(s, i, name);
    }
}

proof fn lemma_return_printed(s: Seq<char>, i: int, n: NodeView)
    requires
        n matches NodeView::UnaryExpr { op: UnaryOp::Return, .. },
        printable(n),
        stands(s, i, unparse(n)),
        ends(s, i + unparse(n).len()),
    ensures
        expr(s, i) == Ok::<(NodeView, int), Stop>((n, i + unparse(n).len())),
        solid(s, i),
        !at(s, i, '}'),
        0 <= i < s.len(),
        unparse(n).len() > 0,
    decreases n, 1nat,
{
    if let NodeView::UnaryExpr { op, child } = n {
        lemma_stands_both(s, i, kw_return() + seq![' '], unparse(*child));
        assert(kw_return().len() == 6);
        lemma_expr_printed(s, i + 7, *child);
        lemma_return_step(s, i);
    }
}

proof fn lemma_minus_printed(s: Seq<char>, i: int, n: NodeView)
    requires
        n matches NodeView::UnaryExpr { op: UnaryOp::Minus, .. },
        printable(n),
        stands(s, i, unparse(n)),
        ends(s, i + unparse(n).len()),
    ensures
        expr(s, i) == Ok::<(NodeView, int), Stop>((n, i + unparse(n).len())),
        solid(s, i),
        !at(s, i, '}'),
        0 <= i < s.len(),
        unparse(n).len() > 0,
    decreases n, 1nat,
{
    if let NodeView::UnaryExpr { op, child } = n {
        lemma_stands_both(s, i, seq!['-', ' '], unparse(*child));
        lemma_expr_printed(s, i + 2, *child);
        lemma_minus_step(s, i);
    }
}

proof fn lemma_binary_printed(s: Seq<char>, i: int, n: NodeView)
    requires
        n is BinaryExpr,
        printable(n),
        stands(s, i, unparse(n)),
        ends(s, i + unparse(n).len()),
    ensures
        expr(s, i) == Ok::<(NodeView, int), Stop>((n, i + unparse(n).len())),
        solid(s, i),
        !at(s, i, '}'),
        0 <= i < s.len(),
        unparse(n).len() > 0,
    decreases n, 1nat,
{
    if let NodeView::BinaryExpr { op, lhs, rhs } = n {
        let p = i + unparse(n).len();
        let left = unparse_operand(*lhs);
        let sep = seq![' ', op_char(op), ' '];
        lemma_stands_both(s, i, left + sep, unparse_operand(*rhs));
        lemma_stands_both(s, i, left, sep);
        let q = i + left.len();
        lemma_operand_printed(s, q + 3, *rhs);
        lemma_sum_step(s, *lhs, q, op, *rhs, p);
        lemma_operand_printed(s, i, *lhs);
        lemma_sum_end(s, binary(op, *lhs, *rhs), p);
        lemma_sum_start(s, i);
    }
}

/// The statements of a body, written at offset `i`, are read back in order.
pub proof fn lemma_body_printed(
    s: Seq<char>,
    i: int,
    children: Seq<NodeView>,
    from: nat,
    done: Seq<NodeView>,
)
    requires
        from < children.len(),
        forall|k: int| from <= k < children.len() ==> printable(#[trigger] children[k]),
        stands(s, i, unparse_body(children, from)),
    ensures
        statements(s, i, done) == Ok::<(Seq<NodeView>, int), Stop>(
            (
                done + children.subrange(from as int, children.len() as int),
                i + unparse_body(children, from).len(),
            ),
        ),
    decreases children.len() - from,
{
    let first = children[from as int];
    let text = unparse(first);
    let rest = unparse_body(children, from + 1);
    let blank = seq![' '];
    let semi = seq![';'];
    lemma_stands_both(s, i, blank + text + semi, rest);
    lemma_stands_both(s, i, blank + text, semi);
    lemma_stands_both(s, i, blank, text);
    lemma_stands_each(s, i, blank);
    let k = i + 1 + text.len();
    lemma_stands_each(s, k, semi);
    assert(s[i] == blank[0]);
    assert(s[k] == semi[0]);
    lemma_expr_printed(s, i + 1, first);
    lemma_skip_blank(s, i, true);
    lemma_skip_none(s, k, false);
    let m = k + 1;
    assert(symbol(s, k, ';', Expected::Semicolon) == Ok::<int, Stop>(m));
    let all = children.subrange(from as int, children.len() as int);
    if from + 1 >= children.len() {
        let close = seq![' ', '}'];
        lemma_stands_each(s, m, close);
        assert(s[m] == close[0] && s[m + 1] == close[1]);
        lemma_skip_blank(s, m, true);
        assert(done.push(first) =~= done + all);
    } else {
        let next = unparse(children[from as int + 1]);
        let later = unparse_body(children, from + 2);
        lemma_stands_both(s, m, blank + next + semi, later);
        lemma_stands_both(s, m, blank + next, semi);
        lemma_stands_both(s, m, blank, next);
        lemma_stands_each(s, m, blank);
        assert(s[m] == blank[0]);
        lemma_stands_each(s, m + 1 + next.len(), semi);
        assert(s[m + 1 + next.len()] == semi[0]);
        lemma_expr_printed(s, m + 1, children[from as int + 1]);
        lemma_skip_blank(s, m, true);
        lemma_body_printed(s, m, children, from + 1, done.push(first));
        assert(done.push(first) + children.subrange(from as int + 1, children.len() as int) =~= done
            + all);
    }
}

/// What a function is, given what its body is read as.
pub open spec fn defined(
    name: Seq<char>,
    t: Type,
    body: Result<(Seq<NodeView>, int), Stop>,
) -> Result<(NodeView, int), Stop> {
    match body {
        Ok((children, e)) => Ok(
            (
                NodeView::Function {
                    name,
                    arguments: Seq::<ArgumentView>::empty(),
                    return_value: t,
                    children,
                },
                e,
            ),
        ),
        Err(e) => Err(e),
    }
}

/// Behind its written header, a function is what its body makes it.
pub proof fn lemma_header_step(s: Seq<char>, i: int, name: Seq<char>, t: Type)
    requires
        is_name(name),
        stands(s, i, header_text(name, t)),
    ensures
        function(s, i) == defined(
            name,
            t,
            statements(s, i + header_text(name, t).len(), Seq::empty()),
        ),
        solid(s, i),
        i < s.len(),
{
    let blank = seq![' '];
    let mid = seq!['(', ')', ' ', '-', '>', ' '];
    let word = type_text(t);
    let brace = seq![' ', '{'];
    lemma_stands_both(s, i, kw_fn() + blank + name + mid + word, brace);
    lemma_stands_both(s, i, kw_fn() + blank + name + mid, word);
    lemma_stands_both(s, i, kw_fn() + blank + name, mid);
    lemma_stands_both(s, i, kw_fn() + blank, name);
    lemma_stands_both(s, i, kw_fn(), blank);
    let a = i + 3 + name.len();
    let f = a + 6 + word.len();
    lemma_stands_each(s, i, kw_fn());
    lemma_stands_each(s, i + 2, blank);
    lemma_stands_each(s, i + 3, name);
    lemma_stands_each(s, a, mid);
    lemma_stands_each(s, a + 6, word);
    lemma_stands_each(s, f, brace);
    assert(s[i] == kw_fn()[0]);
    assert(s[i + 2] == blank[0]);
    assert(s[i + 3] == name[0]);
    assert(s[a] == mid[0] && s[a + 1] == mid[1] && s[a + 2] == mid[2] && s[a + 3] == mid[3] && s[a
        + 4] == mid[4] && s[a + 5] == mid[5]);
    assert(s[a + 6] == word[0]);
    assert(s[f] == brace[0] && s[f + 1] == brace[1]);
    assert(all_letters(kw_fn()));
    assert(all_letters(word));
    lemma_word(s, i, kw_fn());
    lemma_word(s, i + 3, name);
    lemma_word(s, a + 6, word);
    lemma_skip_none(s, i, true);
    lemma_skip_blank(s, i + 2, false);
    lemma_skip_none(s, a, false);
    lemma_skip_none(s, a + 1, false);
    lemma_skip_blank(s, a + 2, false);
    lemma_skip_blank(s, a + 5, false);
    lemma_skip_blank(s, f, false);
    assert(kw_bool().len() == 4 && kw_int().len() == 3);
    assert(ident(s, i + 2) == Ok::<(Seq<char>, int), Stop>((name, a)));
    assert(symbol(s, a, '(', Expected::OpenParen) == Ok::<int, Stop>(a + 1));
    assert(symbol(s, a + 1, ')', Expected::CloseParen) == Ok::<int, Stop>(a + 2));
    assert(arrow(s, a + 2) == Ok::<int, Stop>(a + 5));
    assert(declared_type(s, a + 5) == Ok::<(Type, int), Stop>((t, f)));
    assert(symbol(s, f, '{', Expected::OpenBrace) == Ok::<int, Stop>(f + 2));
}

/// A function, written at offset `i`, is read back as it was.
pub proof fn lemma_function_printed(s: Seq<char>, i: int, f: NodeView)
    requires
        printable_function(f),
        stands(s, i, unparse_function(f)),
    ensures
        function(s, i) == Ok::<(NodeView, int), Stop>((f, i + unparse_function(f).len())),
        solid(s, i),
        i < s.len(),
{
    if let NodeView::Function { name, arguments, return_value, children } = f {
        let head = header_text(name, return_value);
        lemma_stands_both(s, i, head, unparse_body(children, 0));
        lemma_header_step(s, i, name, return_value);
        lemma_body_printed(s, i + head.len(), children, 0, Seq::empty());
        assert(Seq::<NodeView>::empty() + children.subrange(0, children.len() as int)
            =~= children);
        assert(arguments =~= Seq::<ArgumentView>::empty());
    }
}

/// The functions of a program, written from offset `i` to the end of the
/// text, are read back in order.
pub proof fn lemma_functions_printed(
    s: Seq<char>,
    i: int,
    fs: Seq<NodeView>,
    from: nat,
    done: Seq<NodeView>,
)
    requires
        from <= fs.len(),
        forall|k: int| from <= k < fs.len() ==> printable_function(#[trigger] fs[k]),
        stands(s, i, unparse_program(fs, from)),
        i + unparse_program(fs, from).len() == s.len(),
    ensures
        functions(s, i, done) == Ok::<Seq<NodeView>, Stop>(
            done + fs.subrange(from as int, fs.len() as int),
        ),
    decreases fs.len() - from,
{
    let all = fs.subrange(from as int, fs.len() as int);
    if from >= fs.len() {
        assert(done + all =~= done);
    } else {
        let f = fs[from as int];
        let text = unparse_function(f);
        let k = i + text.len();
        if from + 1 == fs.len() {
            lemma_function_printed(s, i, f);
            lemma_skip_none(s, i, true);
            assert(done.push(f) =~= done + all);
            assert(functions(s, k, done.push(f)) == Ok::<Seq<NodeView>, Stop>(done.push(f)));
        } else {
            let feed = seq!['\n'];
            let rest = unparse_program(fs, from + 1);
            lemma_stands_both(s, i, text + feed, rest);
            lemma_stands_both(s, i, text, feed);
            lemma_stands_each(s, k, feed);
            assert(s[k] == feed[0]);
            lemma_function_printed(s, i, f);
            lemma_skip_none(s, i, true);
            lemma_functions_printed(s, k + 1, fs, from + 1, done.push(f));
            lemma_program_starts(s, k + 1, fs, from + 1);
            lemma_skip_none(s, k + 1, true);
            assert(functions(s, k, done.push(f)) == functions(s, k + 1, done.push(f)));
            assert(done.push(f) + fs.subrange(from as int + 1, fs.len() as int) =~= done + all);
        }
    }
}

/// A written program that is not empty starts with a solid character.
proof fn lemma_program_starts(s: Seq<char>, i: int, fs: Seq<NodeView>, from: nat)
    requires
        from < fs.len(),
        printable_function(fs[from as int]),
        stands(s, i, unparse_program(fs, from)),
    ensures
        solid(s, i),
        i < s.len(),
{
    let f = fs[from as int];
    if from + 1 == fs.len() {
        lemma_function_printed(s, i, f);
    } else {
        lemma_stands_both(s, i, unparse_function(f) + seq!['\n'], unparse_program(fs, from + 1));
        lemma_stands_both(s, i, unparse_function(f), seq!['\n']);
        lemma_function_printed(s, i, f);
    }
}

/// Reading the written form of a program gives the program back: for
/// functions without parameters and with at least one statement, over
/// literals that are not negative, names, calls without arguments,
/// assignments, prefix and infix expressions.
pub proof fn lemma_program_round_trip(fs: Seq<NodeView>)
    requires
        forall|k: int| 0 <= k < fs.len() ==> printable_function(#[trigger] fs[k]),
    ensures
        program(unparse_program(fs, 0)) == Ok::<Seq<NodeView>, Stop>(fs),
{
    let s = unparse_program(fs, 0);
    assert(s.subrange(0, s.len() as int) =~= s);
    lemma_functions_printed(s, 0, fs, 0, Seq::empty());
    assert(Seq::<NodeView>::empty() + fs.subrange(0, fs.len() as int) =~= fs);
}

/// Reading the written form of an expression gives the expression back.
pub proof fn lemma_expr_round_trip(n: NodeView)
    requires
        printable(n),
    ensures
        expr(unparse(n), 0) == Ok::<(NodeView, int), Stop>((n, unparse(n).len() as int)),
{
    let s = unparse(n);
    assert(s.subrange(0, s.len() as int) =~= s);
    lemma_expr_printed(s, 0, n);
}

/// Whether a text holds no tab.
pub open spec fn plain(s: Seq<char>) -> bool {
    forall|k: int| 0 <= k < s.len() ==> #[trigger] s[k] != '\t'
}

/// A text without tabs is its own expansion.
pub proof fn lemma_expand_plain(s: Seq<char>)
    requires
        plain(s),
    ensures
        expand_tabs(s) == s,
    decreases s.len(),
{
    if s.len() > 0 {
        assert(plain(s.drop_last())) by {
            assert forall|k: int| 0 <= k < s.drop_last().len() implies #[trigger] s.drop_last()[k]
                != '\t' by {
                assert(s.drop_last()[k] == s[k]);
            }
        }
        lemma_expand_plain(s.drop_last());
        assert(s[s.len() - 1] != '\t');
        assert(s.drop_last() + seq![s.last()] =~= s);
    } else {
        assert(s =~= Seq::<char>::empty());
    }
}

/// Two texts without tabs make one without tabs.
pub proof fn lemma_plain_both(first: Seq<char>, second: Seq<char>)
    requires
        plain(first),
        plain(second),
    ensures
        plain(first + second),
{
    let whole = first + second;
    assert forall|k: int| 0 <= k < whole.len() implies #[trigger] whole[k] != '\t' by {
        if k < first.len() {
            assert(whole[k] == first[k]);
        } else {
            assert(whole[k] == second[k - first.len()]);
        }
    }
}

proof fn lemma_plain_letters(word: Seq<char>)
    requires
        all_letters(word),
    ensures
        plain(word),
{
    assert forall|k: int| 0 <= k < word.len() implies #[trigger] word[k] != '\t' by {
        assert(is_letter(word[k]));
    }
}

proof fn lemma_plain_digits(run: Seq<char>)
    requires
        all_digits(run),
    ensures
        plain(run),
{
    assert forall|k: int| 0 <= k < run.len() implies #[trigger] run[k] != '\t' by {
        assert(is_digit(run[k]));
    }
}

/// The written form of an expression holds no tab.
pub proof fn lemma_unparse_plain(n: NodeView)
    requires
        printable(n),
    ensures
        plain(unparse(n)),
        plain(unparse_operand(n)),
    decreases n,
{
    match n {
        NodeView::Int(v) => {
            lemma_digits_of(v as nat);
            lemma_plain_digits(digits_of(v as nat));
        },
        NodeView::Bool(b) => {
            assert(all_letters(kw_true()) && all_letters(kw_false()));
            lemma_plain_letters(unparse(n));
        },
        NodeView::Ref(name) => {
            lemma_plain_letters(name);
        },
        NodeView::FnRef(name, _) => {
            lemma_plain_letters(name);
            lemma_plain_both(name, seq!['(', ')']);
        },
        NodeView::Assign(name, value) => {
            lemma_unparse_plain(*value);
            lemma_plain_letters(name);
            lemma_plain_both(kw_let(), seq![' ']);
            lemma_plain_both(kw_let() + seq![' '], name);
            lemma_plain_both(kw_let() + seq![' '] + name, seq![' ', '=', ' ']);
            lemma_plain_both(let_text(name), unparse(*value));
        },
        NodeView::UnaryExpr { op: UnaryOp::Return, child } => {
            lemma_unparse_plain(*child);
            lemma_plain_both(kw_return(), seq![' ']);
            lemma_plain_both(kw_return() + seq![' '], unparse(*child));
        },
        NodeView::UnaryExpr { op: UnaryOp::Minus, child } => {
            lemma_unparse_plain(*child);
            lemma_plain_both(seq!['-', ' '], unparse(*child));
        },
        NodeView::BinaryExpr { op, lhs, rhs } => {
            lemma_unparse_plain(*lhs);
            lemma_unparse_plain(*rhs);
            let sep = seq![' ', op_char(op), ' '];
            lemma_plain_both(unparse_operand(*lhs), sep);
            lemma_plain_both(unparse_operand(*lhs) + sep, unparse_operand(*rhs));
        },
        NodeView::Function { .. } => {},
    }
    if !atomic(n) {
        lemma_plain_both(seq!['('], unparse(n));
        lemma_plain_both(seq!['('] + unparse(n), seq![')']);
    }
}

proof fn lemma_body_plain(children: Seq<NodeView>, from: nat)
    requires
        forall|k: int| from <= k < children.len() ==> printable(#[trigger] children[k]),
    ensures
        plain(unparse_body(children, from)),
    decreases children.len() - from,
{
    if from < children.len() {
        let text = unparse(children[from as int]);
        lemma_unparse_plain(children[from as int]);
        lemma_body_plain(children, from + 1);
        lemma_plain_both(seq![' '], text);
        lemma_plain_both(seq![' '] + text, seq![';']);
        lemma_plain_both(seq![' '] + text + seq![';'], unparse_body(children, from + 1));
    }
}

proof fn lemma_function_plain(f: NodeView)
    requires
        printable_function(f),
    ensures
        plain(unparse_function(f)),
{
    if let NodeView::Function { name, arguments, return_value, children } = f {
        let mid = seq!['(', ')', ' ', '-', '>', ' '];
        let word = type_text(return_value);
        assert(all_letters(kw_fn()) && all_letters(kw_bool()) && all_letters(kw_int()));
        lemma_plain_letters(kw_fn());
        lemma_plain_letters(name);
        lemma_plain_letters(word);
        lemma_plain_both(kw_fn(), seq![' ']);
        lemma_plain_both(kw_fn() + seq![' '], name);
        lemma_plain_both(kw_fn() + seq![' '] + name, mid);
        lemma_plain_both(kw_fn() + seq![' '] + name + mid, word);
        lemma_plain_both(kw_fn() + seq![' '] + name + mid + word, seq![' ', '{']);
        lemma_body_plain(children, 0);
        lemma_plain_both(header_text(name, return_value), unparse_body(children, 0));
    }
}

/// The written form of a program holds no tab.
pub proof fn lemma_program_plain(fs: Seq<NodeView>, from: nat)
    requires
        forall|k: int| from <= k < fs.len() ==> printable_function(#[trigger] fs[k]),
    ensures
        plain(unparse_program(fs, from)),
    decreases fs.len() - from,
{
    if from < fs.len() {
        let text = unparse_function(fs[from as int]);
        lemma_function_plain(fs[from as int]);
        if from + 1 < fs.len() {
            lemma_program_plain(fs, from + 1);
            lemma_plain_both(text, seq!['\n']);
            lemma_plain_both(text + seq!['\n'], unparse_program(fs, from + 1));
        }
    }
}

/// The written form of a program, read as `parse` reads it, is the program:
/// it holds no tab, and what is read is what was written.
pub proof fn lemma_parse_of_written(fs: Seq<NodeView>)
    requires
        forall|k: int| 0 <= k < fs.len() ==> printable_function(#[trigger] fs[k]),
    ensures
        program(expand_tabs(unparse_program(fs, 0))) == Ok::<Seq<NodeView>, Stop>(fs),
{
    lemma_program_plain(fs, 0);
    lemma_expand_plain(unparse_program(fs, 0));
    lemma_program_round_trip(fs);
}

/// The function `f` that returns an integer and holds the one statement
/// `statement`.
pub open spec fn function_f(statement: NodeView) -> NodeView {
    NodeView::Function {
        name: seq!['f'],
        arguments: Seq::<ArgumentView>::empty(),
        return_value: Type::Int,
        children: seq![statement],
    }
}

/// The text `fn f() -> int { return MIDDLE; }`.
pub open spec fn return_text(middle: Seq<char>) -> Seq<char> {
    "fn f() -> int { return "@ + middle + "; }"@
}

/// `f` can be written as a name.
proof fn lemma_f_is_name()
    ensures
        is_name(seq!['f']),
{
    assert(all_letters(seq!['f']));
    assert(kw_let().len() == 3 && kw_return().len() == 6 && kw_true().len() == 4
        && kw_false().len() == 5);
}

/// The parts of `fn f() -> int { return MIDDLE; }` stand where they are
/// written.
proof fn lemma_return_text(middle: Seq<char>)
    ensures
        ({
            let s = return_text(middle);
            &&& s.len() == 26 + middle.len()
            &&& stands(s, 0, header_text(seq!['f'], Type::Int))
            &&& header_text(seq!['f'], Type::Int).len() == 15
            &&& at(s, 15, ' ')
            &&& stands(s, 16, kw_return() + seq![' '])
            &&& stands(s, 23, middle)
            &&& at(s, 23 + middle.len() as int, ';')
            &&& s == header_text(seq!['f'], Type::Int) + (seq![' '] + (kw_return() + seq![' ']
                + middle) + seq![';'] + seq![' ', '}'])
            &&& (plain(middle) ==> plain(s))
        }),
{
    reveal_strlit("fn f() -> int { return ");
    reveal_strlit("; }");
    let front = "fn f() -> int { return "@;
    let back = "; }"@;
    let s = return_text(middle);
    let head = header_text(seq!['f'], Type::Int);
    assert(front =~= head + seq![' '] + (kw_return() + seq![' ']));
    assert(back =~= seq![';'] + seq![' ', '}']);
    assert(s.subrange(0, s.len() as int) =~= s);
    lemma_stands_both(s, 0, front + middle, back);
    lemma_stands_both(s, 0, front, middle);
    lemma_stands_both(s, 0, head + seq![' '], kw_return() + seq![' ']);
    lemma_stands_both(s, 0, head, seq![' ']);
    lemma_stands_each(s, 15, seq![' ']);
    lemma_stands_each(s, 23 + middle.len() as int, back);
    assert(s[15] == seq![' '][0]);
    assert(s[23 + middle.len() as int] == back[0]);
    assert(s =~= head + (seq![' '] + (kw_return() + seq![' '] + middle) + seq![';'] + seq![
        ' ',
        '}',
    ]));
    if plain(middle) {
        assert(plain(front));
        assert(plain(back));
        lemma_plain_both(front, middle);
        lemma_plain_both(front + middle, back);
    }
}

/// For every literal `n` that is not negative, the text
/// `fn f() -> int { return n; }` reads as the one function `f`, of type
/// `int`, whose body is the return of that literal.
pub proof fn lemma_return_of_literal(n: i32)
    requires
        n >= 0,
    ensures
        program(expand_tabs(return_text(digits_of(n as nat)))) == Ok::<Seq<NodeView>, Stop>(
            seq![function_f(unary(UnaryOp::Return, NodeView::Int(n)))],
        ),
{
    let statement = unary(UnaryOp::Return, NodeView::Int(n));
    let f = function_f(statement);
    let fs = seq![f];
    let digits = digits_of(n as nat);
    lemma_f_is_name();
    assert(printable(statement)) by {
        reveal_with_fuel(printable, 2);
    }
    assert(printable_function(f));
    assert(unparse(statement) == kw_return() + seq![' '] + digits) by {
        reveal_with_fuel(unparse, 2);
    }
    assert(unparse_body(seq![statement], 0) == seq![' '] + unparse(statement) + seq![';'] + seq![
        ' ',
        '}',
    ]) by {
        reveal_with_fuel(unparse_body, 2);
    }
    lemma_return_text(digits);
    assert(unparse_program(fs, 0) == return_text(digits));
    lemma_parse_of_written(fs);
}

/// A literal is read as the number its digits write, where that number fits
/// in thirty-two bits with a sign, and is an overflow at its first digit
/// where it does not: no literal is ever cut short.
pub proof fn lemma_literal_boundary(s: Seq<char>, i: int)
    requires
        0 <= i < s.len(),
        is_digit(s[i]),
    ensures
        ({
            let end = digits_end(s, i);
            let value = number_value(s.subrange(i, end));
            if value <= i32::MAX {
                &&& operand(s, i) == Ok::<(NodeView, int), Stop>(
                    (NodeView::Int(value as i32), end),
                )
                &&& value as i32 == value
            } else {
                &&& operand(s, i) == Err::<(NodeView, int), Stop>(
                    Stop { at: i, fault: Fault::Overflow },
                )
                &&& expr(s, i) == operand(s, i)
            }
        }),
{
    lemma_digits_end(s, i);
    lemma_skip_none(s, i, false);
    assert(word_end(s, i) == i);
    assert(word_at(s, i) =~= Seq::<char>::empty());
    assert(kw_let().len() == 3 && kw_return().len() == 6);
    assert(expr(s, i) == sum(s, i));
}

/// A literal beyond thirty-two bits is fatal to the whole text: in
/// `fn f() -> int { return DIGITS; }` the overflow is met at the first
/// digit, and no program is read.
pub proof fn lemma_literal_out_of_range(digits: Seq<char>)
    requires
        digits.len() > 0,
        all_digits(digits),
        number_value(digits) > i32::MAX,
    ensures
        program(expand_tabs(return_text(digits))) == Err::<Seq<NodeView>, Stop>(
            Stop { at: 23, fault: Fault::Overflow },
        ),
{
    let s = return_text(digits);
    lemma_plain_digits(digits);
    lemma_return_text(digits);
    lemma_expand_plain(s);
    lemma_f_is_name();
    lemma_stands_each(s, 23, digits);
    assert(s[23] == digits[0]);
    assert(is_digit(digits[0]));
    lemma_digits(s, 23, digits);
    lemma_literal_boundary(s, 23);
    lemma_return_step(s, 16);
    lemma_body_fails(s, 15, Stop { at: 23, fault: Fault::Overflow });
    lemma_header_step(s, 0, seq!['f'], Type::Int);
    lemma_skip_none(s, 0, true);
}

/// Where the first statement behind a blank fails, the body fails as it
/// does.
proof fn lemma_body_fails(s: Seq<char>, i: int, stop: Stop)
    requires
        at(s, i, ' '),
        solid(s, i + 1),
        expr(s, i + 1) == Err::<(NodeView, int), Stop>(stop),
    ensures
        statements(s, i, Seq::empty()) == Err::<(Seq<NodeView>, int), Stop>(stop),
{
    lemma_skip_blank(s, i, true);
}

} // verus!
