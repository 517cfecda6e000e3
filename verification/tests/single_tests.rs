use jargonoc::ast::{Node, UnaryOp};
use jargonoc::single::{boolean, parse, parse_jargono, return_identifier, sp, try_parse};

fn chars(text: &str) -> Vec<char> {
    text.chars().collect()
}

fn ret(child: Node) -> Node {
    Node::UnaryExpr { op: UnaryOp::Return, child: Box::new(child) }
}

#[test]
fn reads_a_truth_value_behind_spaces() {
    assert_eq!(parse("true".to_string()), vec![Node::Bool(true)]);
    assert_eq!(parse("false".to_string()), vec![Node::Bool(false)]);
    assert_eq!(parse(" \t\r\n true".to_string()), vec![Node::Bool(true)]);
}

#[test]
fn what_follows_the_node_is_not_looked_at() {
    assert_eq!(parse("truest".to_string()), vec![Node::Bool(true)]);
    assert_eq!(parse("false; 1 + 2".to_string()), vec![Node::Bool(false)]);
}

#[test]
fn reads_a_return_of_a_node() {
    assert_eq!(parse("return true".to_string()), vec![ret(Node::Bool(true))]);
    assert_eq!(parse("return\n\tfalse".to_string()), vec![ret(Node::Bool(false))]);
    assert_eq!(parse("returntrue".to_string()), vec![ret(Node::Bool(true))]);
    assert_eq!(
        parse("returnreturn false".to_string()),
        vec![ret(ret(Node::Bool(false)))]
    );
}

#[test]
fn a_return_behind_spaces_is_refused() {
    assert_eq!(try_parse(" return true"), None);
    assert_eq!(try_parse("return return true"), None);
}

#[test]
fn anything_else_is_refused() {
    assert_eq!(try_parse(""), None);
    assert_eq!(try_parse("   "), None);
    assert_eq!(try_parse("retur"), None);
    assert_eq!(try_parse("return"), None);
    assert_eq!(try_parse("return 1"), None);
    assert_eq!(try_parse("True"), None);
    assert_eq!(try_parse("1"), None);
}

#[test]
fn try_parse_agrees_with_parse() {
    for text in ["true", " false", "return true", "returnreturn true"] {
        assert_eq!(try_parse(text), Some(parse(text.to_string())));
    }
}

#[test]
fn the_pieces() {
    let text = chars("  \t\r\nreturn false");
    assert_eq!(sp(&text, 0), 5);
    assert_eq!(sp(&text, 5), 5);
    assert_eq!(sp(&text, text.len()), text.len());
    assert_eq!(return_identifier(&text, 5), Some(11));
    assert_eq!(return_identifier(&text, 4), None);
    assert_eq!(return_identifier(&text, 12), None);
    assert_eq!(boolean(&text, 12), Some(false));
    assert_eq!(boolean(&text, 11), None);
    assert_eq!(boolean(&chars("true"), 0), Some(true));
    assert_eq!(boolean(&chars("tru"), 0), None);
    assert_eq!(parse_jargono(&text, 5), Some(ret(Node::Bool(false))));
    assert_eq!(parse_jargono(&text, 0), None);
    assert_eq!(parse_jargono(&text, 11), Some(Node::Bool(false)));
}
