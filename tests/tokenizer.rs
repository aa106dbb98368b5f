use sexpr_lang::diagnostic::Diagnostic;
use sexpr_lang::parser::{is_whitespace, Value};

fn atom(s: &str) -> Value {
    Value::Atom(s.to_string())
}

#[test]
fn reads_nested_lists_and_atoms() {
    let v = Value::from_str("(+ 1 (foo -2))").unwrap();
    assert_eq!(
        v,
        Value::Array(vec![
            atom("+"),
            Value::Int64(1),
            Value::Array(vec![atom("foo"), Value::Int64(-2)]),
        ])
    );
}

#[test]
fn whitespace_of_every_kind_separates_words() {
    let v = Value::from_str("\t( a\u{a0}b\n\u{3000}c )\r\n").unwrap();
    assert_eq!(v, Value::Array(vec![atom("a"), atom("b"), atom("c")]));
}

#[test]
fn brackets_end_words() {
    let v = Value::from_str("(a(b)c)").unwrap();
    assert_eq!(v, Value::Array(vec![atom("a"), Value::Array(vec![atom("b")]), atom("c")]));
}

#[test]
fn integer_words_and_their_limits() {
    assert_eq!(Value::from_str("9223372036854775807").unwrap(), Value::Int64(i64::MAX));
    assert_eq!(Value::from_str("-9223372036854775808").unwrap(), Value::Int64(i64::MIN));
    assert_eq!(Value::from_str("9223372036854775808").unwrap(), atom("9223372036854775808"));
    assert_eq!(Value::from_str("-9223372036854775809").unwrap(), atom("-9223372036854775809"));
    assert_eq!(Value::from_str("007").unwrap(), Value::Int64(7));
    assert_eq!(Value::from_str("-").unwrap(), atom("-"));
    assert_eq!(Value::from_str("+5").unwrap(), atom("+5"));
    assert_eq!(Value::from_str("12a").unwrap(), atom("12a"));
}

#[test]
fn empty_input_is_unexpected_end() {
    assert_eq!(Value::from_str(""), Err(vec![Diagnostic::UnexpectedEnd]));
    assert_eq!(Value::from_str("  \n "), Err(vec![Diagnostic::UnexpectedEnd]));
}

#[test]
fn unclosed_bracket_reports_its_position() {
    assert_eq!(
        Value::from_str("\n  (+ 1"),
        Err(vec![
            Diagnostic::UnexpectedEnd,
            Diagnostic::UnbalancedBracket { line: 2, column: 3 },
        ])
    );
}

#[test]
fn nested_unclosed_brackets_are_all_reported() {
    assert_eq!(
        Value::from_str("((a"),
        Err(vec![
            Diagnostic::UnexpectedEnd,
            Diagnostic::UnbalancedBracket { line: 1, column: 2 },
            Diagnostic::UnexpectedEnd,
            Diagnostic::UnbalancedBracket { line: 1, column: 1 },
        ])
    );
}

#[test]
fn stray_closing_bracket() {
    assert_eq!(
        Value::from_str(" )"),
        Err(vec![Diagnostic::UnbalancedBracket { line: 1, column: 2 }])
    );
    assert_eq!(
        Value::from_str("(a))"),
        Err(vec![Diagnostic::UnbalancedBracket { line: 1, column: 4 }])
    );
}

#[test]
fn text_after_the_expression() {
    assert_eq!(
        Value::from_str("(a)\n b"),
        Err(vec![Diagnostic::TrailingInput { line: 2, column: 2 }])
    );
}

#[test]
fn unicode_whitespace_classification() {
    assert!(is_whitespace(' '));
    assert!(is_whitespace('\u{85}'));
    assert!(is_whitespace('\u{2009}'));
    assert!(!is_whitespace('\u{200b}'));
    assert!(!is_whitespace('x'));
    for c in ['\t', '\n', '\u{b}', '\u{c}', '\r', ' ', '\u{a0}', '\u{1680}', '\u{2028}', '\u{3000}', 'a', '(', '\u{feff}'] {
        assert_eq!(is_whitespace(c), c.is_whitespace());
    }
}
