use jargonoc::scanner::{
    boolean, number, string, strip_comment, strip_multiline_comment, Expr, Unscanned,
};

#[test]
fn comment() {
    assert_eq!(
        strip_comment("// commentification \n let a = 0;"),
        Ok(("\n let a = 0;", " commentification "))
    );
}

#[test]
fn multiline_comment() {
    assert_eq!(
        strip_multiline_comment("/* commentification */ let a = 0;"),
        Ok((" let a = 0;", " commentification "))
    );
}

#[test]
fn numbers() {
    assert_eq!(number("777"), Ok(("", 777)))
}

#[test]
fn strings() {
    assert_eq!(string("\"Hello, world.\""), Ok(("", "Hello, world.")))
}

#[test]
fn booleans() {
    assert_eq!(boolean("true"), Ok(true));

    assert_eq!(boolean("false"), Ok(false))
}

#[test]
fn boolean_takes_the_whole_text() {
    assert_eq!(boolean("True"), Err("Unknown boolean."));
    assert_eq!(boolean("true "), Err("Unknown boolean."));
    assert_eq!(boolean(""), Err("Unknown boolean."));
    assert_eq!(boolean("falsetto"), Err("Unknown boolean."));
}

#[test]
fn a_line_comment_needs_its_marker_and_a_line_feed() {
    assert_eq!(strip_comment("/ not one\n"), Err(Unscanned::Marker));
    assert_eq!(strip_comment(""), Err(Unscanned::Marker));
    assert_eq!(strip_comment(" // late\n"), Err(Unscanned::Marker));
    assert_eq!(strip_comment("// no end"), Err(Unscanned::Unended));
    assert_eq!(strip_comment("//\n"), Ok(("\n", "")));
    assert_eq!(strip_comment("// é\nü"), Ok(("\nü", " é")));
}

#[test]
fn a_block_comment_has_a_body_without_star_and_slash() {
    assert_eq!(strip_multiline_comment("* a */"), Err(Unscanned::Marker));
    assert_eq!(strip_multiline_comment("/**/"), Err(Unscanned::Empty));
    assert_eq!(strip_multiline_comment("/*/"), Err(Unscanned::Empty));
    assert_eq!(strip_multiline_comment("/*"), Err(Unscanned::Incomplete));
    assert_eq!(strip_multiline_comment("/* never closed"), Err(Unscanned::Incomplete));
    assert_eq!(strip_multiline_comment("/* a / b */"), Err(Unscanned::Marker));
    assert_eq!(strip_multiline_comment("/* a * b */"), Err(Unscanned::Marker));
    assert_eq!(strip_multiline_comment("/* a *"), Err(Unscanned::Marker));
    assert_eq!(strip_multiline_comment("/*a*/"), Ok(("", "a")));
    assert_eq!(strip_multiline_comment("/*\nä\n*/*/"), Ok(("*/", "\nä\n")));
}

#[test]
fn a_string_has_a_body_and_two_quotes() {
    assert_eq!(string("Hello"), Err(Unscanned::Marker));
    assert_eq!(string(""), Err(Unscanned::Marker));
    assert_eq!(string("\"\""), Err(Unscanned::Empty));
    assert_eq!(string("\""), Err(Unscanned::Incomplete));
    assert_eq!(string("\"open"), Err(Unscanned::Incomplete));
    assert_eq!(string("\"a\"b\""), Ok(("b\"", "a")));
}

#[test]
fn a_number_is_the_leading_digits() {
    assert_eq!(number(""), Err(Unscanned::Digit));
    assert_eq!(number("x1"), Err(Unscanned::Digit));
    assert_eq!(number("-1"), Err(Unscanned::Digit));
    assert_eq!(number("12ab"), Ok(("ab", 12)));
    assert_eq!(number("0012 3"), Ok((" 3", 12)));
    assert_eq!(number("9223372036854775807"), Ok(("", 9223372036854775807)));
    assert_eq!(number("9223372036854775808"), Err(Unscanned::Range));
    assert_eq!(number("99999999999999999999999999999999999999999x"), Err(Unscanned::Range));
}

#[test]
fn expressions_compare_by_structure() {
    let sum = Expr::Add(Box::new(Expr::Number(2)), Box::new(Expr::Number(2)));
    assert_eq!(sum, Expr::Add(Box::new(Expr::Number(2)), Box::new(Expr::Number(2))));
    assert_ne!(sum, Expr::Subtract(Box::new(Expr::Number(2)), Box::new(Expr::Number(2))));
    assert_ne!(Expr::Str("a".to_string()), Expr::Reference("a".to_string()));
}
