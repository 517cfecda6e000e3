use jargonoc::lexer::{lex, try_lex, Token};

#[test]
fn return_empty_vec_on_empty_input() {
    assert_eq!(lex(""), vec![]);
}

#[test]
fn lex_two_plus_two() {
    assert_eq!(lex("2 + 2"), vec![Token::Number(2), Token::Add, Token::Number(2)]);
}

#[test]
fn lots_of_numbers() {
    assert_eq!(
        lex("2147483647 + 2147483647 + 2147483647 + 2147483647 + 2147483647"),
        vec![
            Token::Number(2147483647),
            Token::Add,
            Token::Number(2147483647),
            Token::Add,
            Token::Number(2147483647),
            Token::Add,
            Token::Number(2147483647),
            Token::Add,
            Token::Number(2147483647),
        ]
    );
}

#[test]
fn lex_variables() {
    assert_eq!(
        lex("let a = 10; let b = a;"),
        vec![
            Token::Declaration, // let
            Token::Identifier,  // a
            Token::Equals,      // =
            Token::Number(10),  // 10
            Token::Delimiter,   // ;
            Token::Declaration, // let
            Token::Identifier,  // b
            Token::Equals,      // =
            Token::Identifier,  // a
            Token::Delimiter,   // ;
        ]
    );
}

#[test]
fn parenthesis() {
    assert_eq!(
        lex("(100)"),
        vec![Token::LeftParenthesis, Token::Number(100), Token::RightParenthesis]
    );
}

#[test]
fn every_single_character_token() {
    assert_eq!(
        lex("+-/*=(){};x"),
        vec![
            Token::Add,
            Token::Subtract,
            Token::Divide,
            Token::Multiply,
            Token::Equals,
            Token::LeftParenthesis,
            Token::RightParenthesis,
            Token::LeftCurlyBrace,
            Token::RightCurlyBrace,
            Token::Delimiter,
            Token::Identifier,
        ]
    );
}

#[test]
fn an_l_takes_what_follows_it() {
    // `l` swallows the next character, and after an `e` the one behind it.
    assert_eq!(lex("lx+"), vec![Token::Identifier, Token::Add]);
    assert_eq!(lex("lex+"), vec![Token::Identifier, Token::Add]);
    assert_eq!(lex("le"), vec![Token::Identifier]);
    assert_eq!(lex("l"), vec![Token::Identifier]);
    assert_eq!(lex("l1"), vec![Token::Identifier]);
}

#[test]
fn tokens_do_not_cross_lines() {
    assert_eq!(
        lex("l\net"),
        vec![Token::Identifier, Token::Identifier, Token::Identifier]
    );
    assert_eq!(lex("1\n2"), vec![Token::Number(1), Token::Number(2)]);
    assert_eq!(lex("1\r\n2\r\n"), vec![Token::Number(1), Token::Number(2)]);
    assert_eq!(lex("a\rb"), vec![Token::Identifier, Token::Identifier, Token::Identifier]);
}

#[test]
fn tabs_are_identifiers_blanks_are_nothing() {
    assert_eq!(lex(" \t "), vec![Token::Identifier]);
}

#[test]
fn try_lex_agrees_with_lex() {
    assert_eq!(try_lex("let a = 10;"), Some(lex("let a = 10;")));
    assert_eq!(try_lex(""), Some(vec![]));
}

#[test]
fn try_lex_refuses_numbers_that_cannot_be_read() {
    assert_eq!(try_lex("2147483648"), None);
    assert_eq!(try_lex("1.5"), None);
    assert_eq!(try_lex("1 + 99999999999999999999"), None);
    // A numeric character that is no decimal digit starts a number too.
    assert_eq!(try_lex("\u{0663}"), None);
    assert_eq!(try_lex("2147483647"), Some(vec![Token::Number(2147483647)]));
    assert_eq!(try_lex("007"), Some(vec![Token::Number(7)]));
}
