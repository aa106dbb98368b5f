use sexpr_lang::diagnostic::Diagnostic;
use sexpr_lang::parser::Value;
use sexpr_lang::syntax_tree::{ArithmeticOp, SyntaxTree};

fn build(text: &str) -> Result<SyntaxTree, Vec<Diagnostic>> {
    SyntaxTree::try_from(&Value::from_str(text).unwrap())
}

fn ident(s: &str) -> SyntaxTree {
    SyntaxTree::Ident(s.to_string())
}

#[test]
fn builds_binding_forms() {
    assert_eq!(
        build("(let x 1 x)").unwrap(),
        SyntaxTree::LetVal("x".to_string(), Box::new(SyntaxTree::LiteralInt64(1)), Box::new(ident("x")))
    );
    assert_eq!(
        build("(var a (array-t i64) (set a (array)))").unwrap(),
        SyntaxTree::LetType(
            "a".to_string(),
            Box::new(SyntaxTree::LiteralArrayType(Box::new(ident("i64")))),
            Box::new(SyntaxTree::Assign("a".to_string(), Box::new(SyntaxTree::LiteralArray(vec![])))),
        )
    );
}

#[test]
fn builds_operators_and_array_access() {
    assert_eq!(
        build("(% 7 2 1)").unwrap(),
        SyntaxTree::Arithmetic(
            ArithmeticOp::Rem,
            vec![SyntaxTree::LiteralInt64(7), SyntaxTree::LiteralInt64(2), SyntaxTree::LiteralInt64(1)],
        )
    );
    assert_eq!(
        build("(array-get 0 a)").unwrap(),
        SyntaxTree::ArrayGet(Box::new(ident("a")), Box::new(SyntaxTree::LiteralInt64(0)))
    );
    assert_eq!(
        build("(array-set 0 a 5)").unwrap(),
        SyntaxTree::ArraySet(
            Box::new(ident("a")),
            Box::new(SyntaxTree::LiteralInt64(0)),
            Box::new(SyntaxTree::LiteralInt64(5)),
        )
    );
    assert_eq!(build("(seq 1)").unwrap(), SyntaxTree::Sequence(vec![SyntaxTree::LiteralInt64(1)]));
}

#[test]
fn shape_errors() {
    assert_eq!(build("()"), Err(vec![Diagnostic::EmptyForm]));
    assert_eq!(build("(1 2)"), Err(vec![Diagnostic::NotCallable]));
    assert_eq!(build("((a) 2)"), Err(vec![Diagnostic::NotCallable]));
    assert_eq!(build("(foo 1)"), Err(vec![Diagnostic::UnknownHead("foo".to_string())]));
    assert_eq!(build("(let x 1)"), Err(vec![Diagnostic::WrongArity("let".to_string())]));
    assert_eq!(build("(seq)"), Err(vec![Diagnostic::WrongArity("seq".to_string())]));
    assert_eq!(build("(+)"), Err(vec![Diagnostic::WrongArity("+".to_string())]));
    assert_eq!(build("(array-t)"), Err(vec![Diagnostic::WrongArity("array-t".to_string())]));
    assert_eq!(build("(let 1 2 3)"), Err(vec![Diagnostic::NotIdentifier]));
    assert_eq!(build("(set (x) 2)"), Err(vec![Diagnostic::NotIdentifier]));
}

#[test]
fn keywords_are_case_sensitive() {
    assert_eq!(build("(LET x 1 x)"), Err(vec![Diagnostic::UnknownHead("LET".to_string())]));
}

#[test]
fn sibling_failures_are_all_reported() {
    assert_eq!(
        build("(seq (foo) (let 1 (bar) 3))"),
        Err(vec![
            Diagnostic::UnknownHead("foo".to_string()),
            Diagnostic::NotIdentifier,
            Diagnostic::UnknownHead("bar".to_string()),
        ])
    );
}
