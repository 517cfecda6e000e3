use jargonoc::diagnostic::{locate, SyntaxError};
use jargonoc::grammar::{Expected, Fault};
use jargonoc::parser::{parse, Failure};

fn chars(text: &str) -> Vec<char> {
    text.chars().collect()
}

fn at(text: &str, offset: usize) -> SyntaxError {
    locate(&chars(text), Failure { at: offset, fault: Fault::Overflow })
}

#[test]
fn renders_the_line_and_a_mark() {
    let e = parse("fn f() -> int {\n    return 1\n}".to_string()).unwrap_err();
    assert_eq!(
        e.render(),
        "error: An error occurred while parsing:\n  |\n2 |     return 1\n  |             ^ Expected: `;`\n  |"
    );
}

#[test]
fn renders_an_overflow() {
    let e = parse("fn f() -> int { return 4294967296; }".to_string()).unwrap_err();
    assert_eq!(
        e.render(),
        "error: An error occurred while parsing:\n  |\n1 | fn f() -> int { return 4294967296; }\n  |                        ^ Expected: a number no greater than 2147483647\n  |"
    );
}

#[test]
fn locates_by_lines_and_columns() {
    let text = "ab\ncd\n\nef";
    let places: Vec<(usize, usize, String)> = (0..=text.len())
        .map(|offset| {
            let e = at(text, offset);
            assert_eq!(e.column_end, e.column_start + 1);
            (e.line, e.column_start, e.source)
        })
        .collect();
    let expected = vec![
        (1, 0, "ab"),
        (1, 1, "ab"),
        (1, 2, "ab"),
        (2, 0, "cd"),
        (2, 1, "cd"),
        (2, 2, "cd"),
        (3, 0, ""),
        (4, 0, "ef"),
        (4, 1, "ef"),
        (4, 2, "ef"),
    ];
    assert_eq!(places.len(), expected.len());
    for (found, wanted) in places.iter().zip(expected) {
        assert_eq!((found.0, found.1, found.2.as_str()), wanted);
    }
}

#[test]
fn locates_in_the_empty_text() {
    let e = at("", 0);
    assert_eq!((e.line, e.column_start, e.column_end, e.source.as_str()), (1, 0, 1, ""));
}

#[test]
fn a_carriage_return_stays_in_the_line() {
    let e = at("a\r\nb", 3);
    assert_eq!((e.line, e.column_start, e.source.as_str()), (2, 0, "b"));
    let e = at("a\r\nb", 1);
    assert_eq!((e.line, e.column_start, e.source.as_str()), (1, 1, "a\r"));
}

#[test]
fn every_expectation_has_its_words() {
    let words = [
        (Expected::Function, "`fn`"),
        (Expected::Identifier, "a name"),
        (Expected::OpenParen, "`(`"),
        (Expected::CloseParen, "`)`"),
        (Expected::Arrow, "`->`"),
        (Expected::TypeName, "`bool` or `int`"),
        (Expected::OpenBrace, "`{`"),
        (Expected::Semicolon, "`;`"),
        (Expected::Equals, "`=`"),
        (Expected::Expression, "an expression"),
    ];
    for (what, text) in words {
        assert_eq!(what.describe(), text);
        assert_eq!(Fault::Mismatch(what).describe(), format!("Expected: {}", text));
    }
    assert_eq!(
        Fault::Overflow.describe(),
        "Expected: a number no greater than 2147483647"
    );
}

#[test]
fn renders_an_error_on_an_empty_line() {
    let e = parse("fn f() -> int { return 1;\n".to_string()).unwrap_err();
    assert_eq!((e.line, e.column_start, e.source.as_str()), (2, 0, ""));
    // An empty line is not drawn: only the title and the frame are.
    assert_eq!(e.render(), "error: An error occurred while parsing:\n |\n |");
}

#[test]
fn renders_a_line_with_wide_characters() {
    let e = parse("/* ü */ fn f() -> int { return é; }".to_string()).unwrap_err();
    assert_eq!(
        e.render(),
        "error: An error occurred while parsing:\n  |\n1 | /* ü */ fn f() -> int { return é; }\n  |                                ^ Expected: an expression\n  |"
    );
}
