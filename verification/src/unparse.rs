use crate::ast::{
    boxed_view, lemma_function_view, nodes_view, BinaryOp, Node, NodeView, Type, UnaryOp,
};
use crate::grammar::{
    all_letters, is_letter, kw_bool, kw_false, kw_fn, kw_int, kw_let, kw_return, kw_true,
    reserved,
};
use crate::parser::{characters, push_char, spells_reserved};
use vstd::prelude::*;
use vstd::string::StringExecFns;

verus! {

/// The character that writes a digit.
pub open spec fn digit_char(d: nat) -> char {
    if d == 0 {
        '0'
    } else if d == 1 {
        '1'
    } else if d == 2 {
        '2'
    } else if d == 3 {
        '3'
    } else if d == 4 {
        '4'
    } else if d == 5 {
        '5'
    } else if d == 6 {
        '6'
    } else if d == 7 {
        '7'
    } else if d == 8 {
        '8'
    } else {
        '9'
    }
}

/// A number in decimal digits, without leading zeros.
pub open spec fn digits_of(n: nat) -> Seq<char>
    decreases n,
{
    if n < 10 {
        seq![digit_char(n)]
    } else {
        digits_of(n / 10).push(digit_char(n % 10))
    }
}

/// Whether a text can be written as a name: letters, at least one, and no
/// reserved word.
pub open spec fn is_name(word: Seq<char>) -> bool {
    word.len() > 0 && all_letters(word) && !reserved(word)
}

/// The nodes that are written without parentheses where they are operands.
pub open spec fn atomic(n: NodeView) -> bool {
    n is Int || n is Bool || n is Ref || n is FnRef
}

/// The expressions that have a written form: no literal is negative, every
/// name can be written as one, no call has arguments, and no function is
/// among them.
pub open spec fn printable(n: NodeView) -> bool
    decreases n,
{
    match n {
        NodeView::Int(v) => v >= 0,
        NodeView::Bool(_) => true,
        NodeView::Ref(name) => is_name(name),
        NodeView::FnRef(name, arguments) => is_name(name) && arguments.len() == 0,
        NodeView::Assign(name, value) => is_name(name) && printable(*value),
        NodeView::UnaryExpr { child, .. } => printable(*child),
        NodeView::BinaryExpr { lhs, rhs, .. } => printable(*lhs) && printable(*rhs),
        NodeView::Function { .. } => false,
    }
}

/// The character that writes an infix operator.
pub open spec fn op_char(op: BinaryOp) -> char {
    match op {
        BinaryOp::Plus => '+',
        BinaryOp::Minus => '-',
    }
}

/// The written form of an expression.
pub open spec fn unparse(n: NodeView) -> Seq<char>
    decreases n, 0nat,
{
    match n {
        NodeView::Int(v) => digits_of(v as nat),
        NodeView::Bool(b) => if b {
            kw_true()
        } else {
            kw_false()
        },
        NodeView::Ref(name) => name,
        NodeView::FnRef(name, _) => name + seq!['(', ')'],
        NodeView::Assign(name, value) => kw_let() + seq![' '] + name + seq![' ', '=', ' ']
            + unparse(*value),
        NodeView::UnaryExpr { op: UnaryOp::Return, child } => kw_return() + seq![' '] + unparse(
            *child,
        ),
        NodeView::UnaryExpr { op: UnaryOp::Minus, child } => seq!['-', ' '] + unparse(*child),
        NodeView::BinaryExpr { op, lhs, rhs } => unparse_operand(*lhs) + seq![
            ' ',
            op_char(op),
            ' ',
        ] + unparse_operand(*rhs),
        NodeView::Function { .. } => Seq::empty(),
    }
}

/// The written form of an operand: in parentheses, unless it is atomic.
pub open spec fn unparse_operand(n: NodeView) -> Seq<char>
    decreases n, 1nat,
{
    if atomic(n) {
        unparse(n)
    } else {
        seq!['('] + unparse(n) + seq![')']
    }
}

/// The beginning of an assignment, as it is written.
pub open spec fn let_text(name: Seq<char>) -> Seq<char> {
    kw_let() + seq![' '] + name + seq![' ', '=', ' ']
}

/// The written form of the statements from `from` on, with the `}` that
/// closes the body: a blank in front of each, a `;` behind each.
pub open spec fn unparse_body(children: Seq<NodeView>, from: nat) -> Seq<char>
    decreases children.len() - from,
{
    if from >= children.len() {
        seq![' ', '}']
    } else {
        seq![' '] + unparse(children[from as int]) + seq![';'] + unparse_body(children, from + 1)
    }
}

/// The word that writes a declared type.
pub open spec fn type_text(t: Type) -> Seq<char> {
    match t {
        Type::Bool => kw_bool(),
        Type::Int => kw_int(),
    }
}

/// The written form of a function up to and with the `{` of its body.
pub open spec fn header_text(name: Seq<char>, t: Type) -> Seq<char> {
    kw_fn() + seq![' '] + name + seq!['(', ')', ' ', '-', '>', ' '] + type_text(t) + seq![' ', '{']
}

/// The functions that have a written form: a name that can be written as
/// one, no parameters, at least one statement, and statements that have a
/// written form.
pub open spec fn printable_function(f: NodeView) -> bool {
    &&& f matches NodeView::Function { name, arguments, return_value, children }
    &&& is_name(name)
    &&& arguments.len() == 0
    &&& children.len() > 0
    &&& forall|k: int| 0 <= k < children.len() ==> printable(#[trigger] children[k])
}

/// The written form of a function.
pub open spec fn unparse_function(f: NodeView) -> Seq<char> {
    match f {
        NodeView::Function { name, arguments, return_value, children } => header_text(
            name,
            return_value,
        ) + unparse_body(children, 0),
        _ => Seq::empty(),
    }
}

/// The written form of the functions from `from` on: one to a line.
pub open spec fn unparse_program(fs: Seq<NodeView>, from: nat) -> Seq<char>
    decreases fs.len() - from,
{
    if from >= fs.len() {
        Seq::empty()
    } else if from + 1 == fs.len() {
        unparse_function(fs[from as int])
    } else {
        unparse_function(fs[from as int]) + seq!['\n'] + unparse_program(fs, from + 1)
    }
}

/// Whether a text can be written as a name.
pub fn can_name(name: &String) -> (b: bool)
    ensures
        b == is_name(name@),
{
    let text = characters(name.as_str());
    let s = text.as_slice();
    let mut k: usize = 0;
    while k < s.len()
        invariant
            k <= s@.len(),
            s@ == name@,
            forall|t: int| 0 <= t < k ==> is_letter(#[trigger] s@[t]),
        decreases s@.len() - k,
    {
        let c = s[k];
        if !(('a' <= c && c <= 'z') || ('A' <= c && c <= 'Z')) {
            assert(!is_letter(name@[k as int]));
            return false;
        }
        k += 1;
    }
    assert(s@.subrange(0, s@.len() as int) =~= s@);
    s.len() > 0 && !spells_reserved(s, 0, s.len())
}

/// Whether an expression has a written form.
pub fn can_write(node: &Node) -> (b: bool)
    ensures
        b == printable(node@),
    decreases node,
{
    match node {
        Node::Int(v) => *v >= 0,
        Node::Bool(_) => true,
        Node::Ref(name) => can_name(name),
        Node::FnRef(name, arguments) => can_name(name) && arguments.len() == 0,
        Node::Assign(name, value) => can_name(name) && can_write(value),
        Node::UnaryExpr { op, child } => can_write(child),
        Node::BinaryExpr { op, lhs, rhs } => can_write(lhs) && can_write(rhs),
        Node::Function { .. } => false,
    }
}

fn digit_of(d: u32) -> (c: char)
    requires
        d < 10,
    ensures
        c == digit_char(d as nat),
{
    if d == 0 {
        '0'
    } else if d == 1 {
        '1'
    } else if d == 2 {
        '2'
    } else if d == 3 {
        '3'
    } else if d == 4 {
        '4'
    } else if d == 5 {
        '5'
    } else if d == 6 {
        '6'
    } else if d == 7 {
        '7'
    } else if d == 8 {
        '8'
    } else {
        '9'
    }
}

fn write_digits(n: u32, out: &mut String)
    ensures
        final(out)@ == old(out)@ + digits_of(n as nat),
    decreases n,
{
    if n < 10 {
        push_char(out, digit_of(n));
        assert(out@ =~= old(out)@ + digits_of(n as nat));
    } else {
        write_digits(n / 10, out);
        push_char(out, digit_of(n % 10));
        assert(out@ =~= old(out)@ + digits_of(n as nat));
    }
}

fn write_operand(node: &Node, out: &mut String)
    requires
        printable(node@),
    ensures
        final(out)@ == old(out)@ + unparse_operand(node@),
    decreases node, 1nat,
{
    match node {
        Node::Int(_) | Node::Bool(_) | Node::Ref(_) | Node::FnRef(_, _) => {
            write_into(node, out);
        },
        _ => {
            push_char(out, '(');
            write_into(node, out);
            push_char(out, ')');
            assert(out@ =~= old(out)@ + (seq!['('] + unparse(node@) + seq![')']));
        },
    }
}

fn write_into(node: &Node, out: &mut String)
    requires
        printable(node@),
    ensures
        final(out)@ == old(out)@ + unparse(node@),
    decreases node, 0nat,
{
    match node {
        Node::Int(v) => {
            write_digits(*v as u32, out);
        },
        Node::Bool(b) => {
            proof {
                reveal_strlit("true");
                reveal_strlit("false");
                assert("true"@ =~= kw_true());
                assert("false"@ =~= kw_false());
            }
            if *b {
                out.append("true");
            } else {
                out.append("false");
            }
        },
        Node::Ref(name) => {
            out.append(name.as_str());
        },
        Node::FnRef(name, _) => {
            out.append(name.as_str());
            push_char(out, '(');
            push_char(out, ')');
            assert(out@ =~= old(out)@ + (name@ + seq!['(', ')']));
        },
        Node::Assign(name, value) => {
            proof {
                reveal_strlit("let ");
                reveal_strlit(" = ");
                assert("let "@ =~= kw_let() + seq![' ']);
                assert(" = "@ =~= seq![' ', '=', ' ']);
            }
            out.append("let ");
            out.append(name.as_str());
            out.append(" = ");
            write_into(value, out);
            assert(out@ =~= old(out)@ + (kw_let() + seq![' '] + name@ + seq![' ', '=', ' ']
                + unparse(value@)));
        },
        Node::UnaryExpr { op: UnaryOp::Return, child } => {
            proof {
                reveal_strlit("return ");
                assert("return "@ =~= kw_return() + seq![' ']);
            }
            out.append("return ");
            write_into(child, out);
            assert(out@ =~= old(out)@ + (kw_return() + seq![' '] + unparse(child@)));
        },
        Node::UnaryExpr { op: UnaryOp::Minus, child } => {
            push_char(out, '-');
            push_char(out, ' ');
            write_into(child, out);
            assert(out@ =~= old(out)@ + (seq!['-', ' '] + unparse(child@)));
        },
        Node::BinaryExpr { op, lhs, rhs } => {
            write_operand(lhs, out);
            push_char(out, ' ');
            push_char(
                out,
                match op {
                    BinaryOp::Plus => '+',
                    BinaryOp::Minus => '-',
                },
            );
            push_char(out, ' ');
            write_operand(rhs, out);
            assert(out@ =~= old(out)@ + (unparse_operand(lhs@) + seq![' ', op_char(*op), ' ']
                + unparse_operand(rhs@)));
        },
        Node::Function { .. } => {},
    }
}

/// Writes an expression, where it has a written form.
pub fn write_expr(node: &Node) -> (r: Option<String>)
    ensures
        match r {
            Some(text) => printable(node@) && text@ == unparse(node@),
            None => !printable(node@),
        },
{
    if !can_write(node) {
        return None;
    }
    let mut out = String::new();
    write_into(node, &mut out);
    assert(out@ =~= unparse(node@));
    Some(out)
}

/// Whether a function has a written form.
pub fn can_write_function(node: &Node) -> (b: bool)
    ensures
        b == printable_function(node@),
{
    match node {
        Node::Function { name, arguments, return_value, children } => {
            proof {
                lemma_function_view(*name, *arguments, *return_value, *children);
            }
            if !(can_name(name) && arguments.len() == 0 && children.len() > 0) {
                return false;
            }
            let mut k: usize = 0;
            while k < children.len()
                invariant
                    k <= children@.len(),
                    node@ is Function,
                    node@->children == boxed_view(children@),
                    forall|t: int| 0 <= t < k ==> printable(#[trigger] node@->children[t]),
                decreases children@.len() - k,
            {
                if !can_write(&children[k]) {
                    assert(!printable(node@->children[k as int]));
                    return false;
                }
                k += 1;
            }
            true
        },
        _ => false,
    }
}

fn write_function(node: &Node, out: &mut String)
    requires
        printable_function(node@),
    ensures
        final(out)@ == old(out)@ + unparse_function(node@),
{
    match node {
        Node::Function { name, arguments, return_value, children } => {
            proof {
                lemma_function_view(*name, *arguments, *return_value, *children);
                reveal_strlit("fn ");
                reveal_strlit("() -> ");
                reveal_strlit("bool");
                reveal_strlit("int");
                reveal_strlit(" {");
                reveal_strlit(" }");
                assert("fn "@ =~= kw_fn() + seq![' ']);
                assert("() -> "@ =~= seq!['(', ')', ' ', '-', '>', ' ']);
                assert("bool"@ =~= kw_bool());
                assert("int"@ =~= kw_int());
                assert(" {"@ =~= seq![' ', '{']);
                assert(" }"@ =~= seq![' ', '}']);
            }
            out.append("fn ");
            out.append(name.as_str());
            out.append("() -> ");
            match return_value {
                Type::Bool => {
                    out.append("bool");
                },
                Type::Int => {
                    out.append("int");
                },
            }
            out.append(" {");
            assert(out@ =~= old(out)@ + header_text(name@, *return_value));
            let ghost head = out@;
            let ghost statements = node@->children;
            let mut k: usize = 0;
            while k < children.len()
                invariant
                    k <= children@.len(),
                    statements == boxed_view(children@),
                    forall|t: int| 0 <= t < statements.len() ==> printable(#[trigger] statements[t]),
                    out@ + unparse_body(statements, k as nat) == head + unparse_body(statements, 0),
                decreases children@.len() - k,
            {
                let ghost before = out@;
                push_char(out, ' ');
                write_into(&children[k], out);
                push_char(out, ';');
                assert(before + unparse_body(statements, k as nat) =~= out@ + unparse_body(
                    statements,
                    (k + 1) as nat,
                ));
                k += 1;
            }
            let ghost before = out@;
            out.append(" }");
            assert(out@ =~= old(out)@ + (header_text(name@, *return_value) + unparse_body(
                statements,
                0,
            )));
        },
        _ => {},
    }
}

/// Writes a program, one function to a line, where every function of it has
/// a written form.
pub fn write_program(nodes: &Vec<Node>) -> (r: Option<String>)
    ensures
        match r {
            Some(text) => text@ == unparse_program(nodes_view(nodes@), 0) && forall|k: int|
                0 <= k < nodes@.len() ==> printable_function(#[trigger] nodes_view(nodes@)[k]),
            None => exists|k: int|
                0 <= k < nodes@.len() && !printable_function(#[trigger] nodes_view(nodes@)[k]),
        },
{
    let ghost fs = nodes_view(nodes@);
    let mut k: usize = 0;
    while k < nodes.len()
        invariant
            k <= nodes@.len(),
            fs == nodes_view(nodes@),
            forall|t: int| 0 <= t < k ==> printable_function(#[trigger] fs[t]),
        decreases nodes@.len() - k,
    {
        if !can_write_function(&nodes[k]) {
            assert(!printable_function(fs[k as int]));
            return None;
        }
        k += 1;
    }
    let mut out = String::new();
    let mut k: usize = 0;
    assert(out@ + unparse_program(fs, 0) =~= unparse_program(fs, 0));
    while k < nodes.len()
        invariant
            k <= nodes@.len(),
            fs == nodes_view(nodes@),
            forall|t: int| 0 <= t < fs.len() ==> printable_function(#[trigger] fs[t]),
            out@ + unparse_program(fs, k as nat) == unparse_program(fs, 0),
        decreases nodes@.len() - k,
    {
        let ghost before = out@;
        write_function(&nodes[k], &mut out);
        if k + 1 < nodes.len() {
            push_char(&mut out, '\n');
        }
        assert(before + unparse_program(fs, k as nat) =~= out@ + unparse_program(
            fs,
            (k + 1) as nat,
        ));
        k += 1;
    }
    assert(out@ + unparse_program(fs, k as nat) =~= out@);
    Some(out)
}

} // verus!
