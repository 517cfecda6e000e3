use jargonoc::ast::{Argument, BinaryOp, Node, Type, UnaryOp};
use jargonoc::diagnostic::SyntaxError;
use jargonoc::grammar::{Expected, Fault};
use jargonoc::parser::{
    characters, normalize, parse, parse_expr, parse_program, skip_trivia, text_of, Failure,
};
use jargonoc::unparse::{write_expr, write_program};

fn function(name: &str, return_value: Type, children: Vec<Node>) -> Node {
    Node::Function {
        name: name.to_string(),
        arguments: vec![],
        return_value,
        children: children.into_iter().map(Box::new).collect(),
    }
}

fn ret(child: Node) -> Node {
    Node::UnaryExpr { op: UnaryOp::Return, child: Box::new(child) }
}

fn neg(child: Node) -> Node {
    Node::UnaryExpr { op: UnaryOp::Minus, child: Box::new(child) }
}

fn bin(op: BinaryOp, lhs: Node, rhs: Node) -> Node {
    Node::BinaryExpr { op, lhs: Box::new(lhs), rhs: Box::new(rhs) }
}

fn name(s: &str) -> Node {
    Node::Ref(s.to_string())
}

fn assign(s: &str, value: Node) -> Node {
    Node::Assign(s.to_string(), Box::new(value))
}

fn body(statements: &str) -> Result<Vec<Node>, SyntaxError> {
    parse(format!("fn f() -> int {{ {} }}", statements))
}

fn one(children: Vec<Node>) -> Result<Vec<Node>, SyntaxError> {
    Ok(vec![function("f", Type::Int, children)])
}

fn fault_of(text: &str) -> (usize, usize, usize, Fault) {
    let e = parse(text.to_string()).unwrap_err();
    (e.line, e.column_start, e.column_end, e.fault)
}

#[test]
fn returns_an_integer_literal() {
    for n in [0, 1, 7, 42, 1000, 2147483647] {
        assert_eq!(
            parse(format!("fn f() -> int {{ return {}; }}", n)),
            Ok(vec![function("f", Type::Int, vec![ret(Node::Int(n))])])
        );
    }
}

#[test]
fn returns_true_from_main() {
    assert_eq!(
        parse("fn main() -> bool { return true; }".to_string()),
        Ok(vec![function("main", Type::Bool, vec![ret(Node::Bool(true))])])
    );
}

#[test]
fn returns_a_sum() {
    assert_eq!(
        parse("fn add() -> int { return 1 + 2; }".to_string()),
        Ok(vec![function(
            "add",
            Type::Int,
            vec![ret(bin(BinaryOp::Plus, Node::Int(1), Node::Int(2)))]
        )])
    );
}

#[test]
fn empty_text_is_the_empty_program() {
    assert_eq!(parse(String::new()), Ok(vec![]));
    assert_eq!(parse("  \n\t// nothing here\n/* nor here */\r\n".to_string()), Ok(vec![]));
}

#[test]
fn functions_come_in_source_order() {
    let text = "fn a() -> int { let x = 1; return x; }\n\nfn b() -> bool { return false; }\n";
    assert_eq!(
        parse(text.to_string()),
        Ok(vec![
            function("a", Type::Int, vec![assign("x", Node::Int(1)), ret(name("x"))]),
            function("b", Type::Bool, vec![ret(Node::Bool(false))]),
        ])
    );
}

#[test]
fn sums_group_from_the_left() {
    assert_eq!(
        body("return 1 - 2 + 3;"),
        one(vec![ret(bin(
            BinaryOp::Plus,
            bin(BinaryOp::Minus, Node::Int(1), Node::Int(2)),
            Node::Int(3)
        ))])
    );
}

#[test]
fn parentheses_group() {
    assert_eq!(
        body("return 1 - (2 + 3);"),
        one(vec![ret(bin(
            BinaryOp::Minus,
            Node::Int(1),
            bin(BinaryOp::Plus, Node::Int(2), Node::Int(3))
        ))])
    );
    assert_eq!(body("return ((7));"), one(vec![ret(Node::Int(7))]));
    assert_eq!(body("return ( - 1 ) + 2;"), one(vec![ret(bin(
        BinaryOp::Plus,
        neg(Node::Int(1)),
        Node::Int(2)
    ))]));
}

#[test]
fn prefix_forms_take_the_whole_expression() {
    assert_eq!(
        body("return - 5 + 3;"),
        one(vec![ret(neg(bin(BinaryOp::Plus, Node::Int(5), Node::Int(3))))])
    );
    assert_eq!(
        body("let x = return 1;"),
        one(vec![assign("x", ret(Node::Int(1)))])
    );
    assert_eq!(
        body("return let x = - y;"),
        one(vec![ret(assign("x", neg(name("y"))))])
    );
}

#[test]
fn operands_of_a_sum() {
    assert_eq!(
        body("return x + true - f() + 0;"),
        one(vec![ret(bin(
            BinaryOp::Plus,
            bin(
                BinaryOp::Minus,
                bin(BinaryOp::Plus, name("x"), Node::Bool(true)),
                Node::FnRef("f".to_string(), vec![])
            ),
            Node::Int(0)
        ))])
    );
}

#[test]
fn words_are_read_whole() {
    assert_eq!(body("return truex;"), one(vec![ret(name("truex"))]));
    assert_eq!(body("return letter;"), one(vec![ret(name("letter"))]));
    assert_eq!(body("returning;"), one(vec![name("returning")]));
    assert_eq!(body("return(1);"), one(vec![ret(Node::Int(1))]));
    assert_eq!(body("let x=1;"), one(vec![assign("x", Node::Int(1))]));
}

#[test]
fn blanks_and_comments_between_tokens() {
    let text = "fn/* a */f  ( )->int{return/* b */1 ;}";
    assert_eq!(parse(text.to_string()), one(vec![ret(Node::Int(1))]));
    let text = "// head\nfn f() -> int {\n    // first\n    let x = 1; /* then */\n    return x; // last\n}\n// tail";
    assert_eq!(
        parse(text.to_string()),
        one(vec![assign("x", Node::Int(1)), ret(name("x"))])
    );
    // A line comment takes its line feed with it.
    assert_eq!(body("return // up to here\n 1;"), one(vec![ret(Node::Int(1))]));
}

#[test]
fn tabs_count_as_four_blanks() {
    let text = "fn f() -> int {\n\treturn\t1;\n\t)";
    let e = parse(text.to_string()).unwrap_err();
    assert_eq!(e.line, 3);
    assert_eq!(e.column_start, 4);
    assert_eq!(e.column_end, 5);
    assert_eq!(e.source, "    )");
    assert_eq!(parse("fn f() -> int {\treturn\t1;\t}".to_string()), one(vec![ret(Node::Int(1))]));
}

#[test]
fn leading_zeros_do_not_count() {
    assert_eq!(body("return 007;"), one(vec![ret(Node::Int(7))]));
    assert_eq!(body("return 0000000000002147483647;"), one(vec![ret(Node::Int(2147483647))]));
}

#[test]
fn a_literal_beyond_thirty_two_bits_overflows() {
    assert_eq!(
        fault_of("fn f() -> int { return 2147483648; }"),
        (1, 23, 24, Fault::Overflow)
    );
    assert_eq!(
        fault_of("fn f() -> int { return 99999999999999999999999999; }"),
        (1, 23, 24, Fault::Overflow)
    );
    assert_eq!(
        fault_of("fn f() -> int {\n  return 1 + 4294967296;\n}"),
        (2, 13, 14, Fault::Overflow)
    );
}

#[test]
fn each_expectation_has_an_input() {
    assert_eq!(fault_of("main"), (1, 0, 1, Fault::Mismatch(Expected::Function)));
    assert_eq!(fault_of("fnf() -> int { return 1; }"), (1, 0, 1, Fault::Mismatch(Expected::Function)));
    assert_eq!(fault_of("fn 1() -> int { return 1; }"), (1, 3, 4, Fault::Mismatch(Expected::Identifier)));
    assert_eq!(fault_of("fn let() -> int { return 1; }"), (1, 3, 4, Fault::Mismatch(Expected::Identifier)));
    assert_eq!(fault_of("fn f -> int { return 1; }"), (1, 5, 6, Fault::Mismatch(Expected::OpenParen)));
    assert_eq!(fault_of("fn f(a: int) -> int { return 1; }"), (1, 5, 6, Fault::Mismatch(Expected::CloseParen)));
    assert_eq!(fault_of("fn f() int { return 1; }"), (1, 7, 8, Fault::Mismatch(Expected::Arrow)));
    assert_eq!(fault_of("fn f() - > int { return 1; }"), (1, 7, 8, Fault::Mismatch(Expected::Arrow)));
    assert_eq!(fault_of("fn f() -> float { return 1; }"), (1, 10, 11, Fault::Mismatch(Expected::TypeName)));
    assert_eq!(fault_of("fn f() -> int return 1; }"), (1, 14, 15, Fault::Mismatch(Expected::OpenBrace)));
    assert_eq!(fault_of("fn f() -> int { return 1 }"), (1, 25, 26, Fault::Mismatch(Expected::Semicolon)));
    assert_eq!(fault_of("fn f() -> int { let x 1; }"), (1, 22, 23, Fault::Mismatch(Expected::Equals)));
    assert_eq!(fault_of("fn f() -> int { return ; }"), (1, 23, 24, Fault::Mismatch(Expected::Expression)));
    assert_eq!(fault_of("fn f() -> int { return (1; }"), (1, 25, 26, Fault::Mismatch(Expected::CloseParen)));
    assert_eq!(fault_of("fn f() -> int { return g(1); }"), (1, 25, 26, Fault::Mismatch(Expected::CloseParen)));
}

#[test]
fn a_body_holds_a_statement() {
    assert_eq!(fault_of("fn f() -> int { }"), (1, 16, 17, Fault::Mismatch(Expected::Expression)));
    assert_eq!(fault_of("fn f() -> int {;}"), (1, 15, 16, Fault::Mismatch(Expected::Expression)));
    assert_eq!(fault_of("fn f() -> int { return 1;"), (1, 25, 26, Fault::Mismatch(Expected::Expression)));
}

#[test]
fn reserved_words_are_no_names() {
    assert_eq!(fault_of("fn f() -> int { let true = 1; }"), (1, 20, 21, Fault::Mismatch(Expected::Identifier)));
    assert_eq!(fault_of("fn f() -> int { return 1 + return; }"), (1, 27, 28, Fault::Mismatch(Expected::Expression)));
    assert_eq!(fault_of("fn f() -> int { return 1 + let; }"), (1, 27, 28, Fault::Mismatch(Expected::Expression)));
}

#[test]
fn line_ends_stand_only_between_statements() {
    assert_eq!(
        fault_of("fn f() -> int { return\n1; }"),
        (1, 22, 23, Fault::Mismatch(Expected::Expression))
    );
    assert_eq!(
        fault_of("fn f()\n-> int { return 1; }"),
        (1, 6, 7, Fault::Mismatch(Expected::Arrow))
    );
}

#[test]
fn an_open_block_comment_is_no_comment() {
    assert_eq!(
        fault_of("fn f() -> int { return 1; } /* never closed"),
        (1, 28, 29, Fault::Mismatch(Expected::Function))
    );
}

#[test]
fn the_error_carries_its_line() {
    let e = parse("fn f() -> int {\n    return 1;\n    let = 2;\n}\n".to_string()).unwrap_err();
    assert_eq!(
        e,
        SyntaxError {
            line: 3,
            column_start: 8,
            column_end: 9,
            source: "    let = 2;".to_string(),
            fault: Fault::Mismatch(Expected::Identifier),
        }
    );
    assert_eq!(e.message(), "Expected: a name");
}

#[test]
fn columns_count_characters() {
    let e = parse("/* ü */ fn f() -> int { return é; }".to_string()).unwrap_err();
    assert_eq!((e.line, e.column_start, e.column_end), (1, 31, 32));
    assert_eq!(e.source, "/* ü */ fn f() -> int { return é; }");
}

#[test]
fn an_error_at_the_end_names_the_last_line() {
    let e = parse("fn f() -> int { return 1;\n".to_string()).unwrap_err();
    assert_eq!((e.line, e.column_start, e.column_end), (2, 0, 1));
    assert_eq!(e.source, "");
}

#[test]
fn what_is_written_is_read_back() {
    // Operands that are no atoms stand in parentheses, one blank separates
    // the words.
    let cases = vec![
        ("0", Node::Int(0)),
        ("2147483647", Node::Int(2147483647)),
        ("true", Node::Bool(true)),
        ("false", Node::Bool(false)),
        ("x", name("x")),
        ("f()", Node::FnRef("f".to_string(), vec![])),
        ("let x = 1", assign("x", Node::Int(1))),
        ("return x", ret(name("x"))),
        ("- 5", neg(Node::Int(5))),
        ("1 + 2", bin(BinaryOp::Plus, Node::Int(1), Node::Int(2))),
        (
            "(1 - 2) + 3",
            bin(BinaryOp::Plus, bin(BinaryOp::Minus, Node::Int(1), Node::Int(2)), Node::Int(3)),
        ),
        (
            "1 - (2 + 3)",
            bin(BinaryOp::Minus, Node::Int(1), bin(BinaryOp::Plus, Node::Int(2), Node::Int(3))),
        ),
        (
            "(let x = 1) + (- y)",
            bin(BinaryOp::Plus, assign("x", Node::Int(1)), neg(name("y"))),
        ),
        (
            "let x = return - (a + b) - c()",
            assign(
                "x",
                ret(neg(bin(
                    BinaryOp::Minus,
                    bin(BinaryOp::Plus, name("a"), name("b")),
                    Node::FnRef("c".to_string(), vec![]),
                ))),
            ),
        ),
    ];
    for (text, tree) in cases {
        assert_eq!(write_expr(&tree), Some(text.to_string()));
        assert_eq!(body(&format!("{};", text)), one(vec![tree]), "{}", text);
    }
}

#[test]
fn every_literal_in_a_return_is_read_back() {
    for n in [0, 1, 9, 10, 99, 100, 12345, 1000000000, 2147483646, 2147483647] {
        let program = vec![function("f", Type::Int, vec![ret(Node::Int(n))])];
        let text = write_program(&program).unwrap();
        assert_eq!(text, format!("fn f() -> int {{ return {}; }}", n));
        assert_eq!(parse(text), Ok(program));
    }
}

#[test]
fn what_has_no_written_form_is_not_written() {
    assert_eq!(write_expr(&Node::Int(-1)), None);
    assert_eq!(write_expr(&name("")), None);
    assert_eq!(write_expr(&name("a1")), None);
    assert_eq!(write_expr(&name("a_b")), None);
    assert_eq!(write_expr(&name("true")), None);
    assert_eq!(write_expr(&name("false")), None);
    assert_eq!(write_expr(&name("let")), None);
    assert_eq!(write_expr(&name("return")), None);
    assert_eq!(write_expr(&assign("return", Node::Int(1))), None);
    assert_eq!(write_expr(&bin(BinaryOp::Plus, Node::Int(1), Node::Int(-1))), None);
    assert_eq!(write_expr(&function("f", Type::Int, vec![ret(Node::Int(1))])), None);
    let argument = Argument { name: "a".to_string(), value_type: Type::Int };
    assert_eq!(write_expr(&Node::FnRef("f".to_string(), vec![argument])), None);
    assert_eq!(write_program(&vec![function("f", Type::Int, vec![])]), None);
    assert_eq!(write_program(&vec![function("let", Type::Int, vec![Node::Int(1)])]), None);
    assert_eq!(write_program(&vec![Node::Int(1)]), None);
    // Words that only the header of a function knows are names all the same.
    assert_eq!(write_expr(&name("fn")), Some("fn".to_string()));
    assert_eq!(write_expr(&name("int")), Some("int".to_string()));
    assert_eq!(body("return fn + bool;"), one(vec![ret(bin(BinaryOp::Plus, name("fn"), name("bool")))]));
}

#[test]
fn a_written_program_is_read_back() {
    let program = vec![
        function(
            "a",
            Type::Int,
            vec![assign("x", Node::Int(1)), ret(bin(BinaryOp::Plus, name("x"), Node::Int(2)))],
        ),
        function("b", Type::Bool, vec![ret(Node::Bool(true))]),
        function("c", Type::Int, vec![neg(bin(BinaryOp::Minus, name("x"), neg(name("x"))))]),
    ];
    let text = write_program(&program).unwrap();
    assert_eq!(
        text,
        "fn a() -> int { let x = 1; return x + 2; }\nfn b() -> bool { return true; }\nfn c() -> int { - x - (- x); }"
    );
    assert_eq!(parse(text), Ok(program));
    assert_eq!(write_program(&vec![]), Some(String::new()));
}

#[test]
fn a_negative_literal_has_no_written_form() {
    // `-5` is read as the negation of five, never as one literal.
    assert_eq!(body("return -5;"), one(vec![ret(neg(Node::Int(5)))]));
}

#[test]
fn parse_expr_stops_in_front_of_what_ends_it() {
    let text: Vec<char> = "  1 + x  ) rest".chars().collect();
    assert_eq!(
        parse_expr(&text, 0),
        Ok((bin(BinaryOp::Plus, Node::Int(1), name("x")), 7))
    );
    assert_eq!(
        parse_expr(&text, 9),
        Err(Failure { at: 9, fault: Fault::Mismatch(Expected::Expression) })
    );
    assert_eq!(skip_trivia(&text, 0, false), 2);
    assert_eq!(skip_trivia(&text, 7, false), 9);
    assert_eq!(text_of(&text, 11, 15), "rest");
    let lines: Vec<char> = " \n\r /* a */ // b\n x".chars().collect();
    assert_eq!(skip_trivia(&lines, 0, true), 18);
    assert_eq!(skip_trivia(&lines, 0, false), 1);
    assert_eq!(skip_trivia(&lines, 3, false), 18);
    assert_eq!(
        parse_program(&lines),
        Err(Failure { at: 18, fault: Fault::Mismatch(Expected::Function) })
    );
}

#[test]
fn normalize_spreads_tabs() {
    assert_eq!(normalize("\ta\t\tb"), "    a        b".chars().collect::<Vec<char>>());
    assert_eq!(normalize(""), Vec::<char>::new());
    assert_eq!(characters("\ta é"), vec!['\t', 'a', ' ', 'é']);
}
