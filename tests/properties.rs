use sexpr_lang::diagnostic::{Diagnostic, ErrorKind};
use sexpr_lang::interpreter::{interpret, run_program, RuntimeContext, TypeInfo, TypedTree, Value};
use sexpr_lang::parser;
use sexpr_lang::syntax_tree::SyntaxTree;

fn typed(text: &str) -> Result<TypedTree, Vec<Diagnostic>> {
    TypedTree::try_from(&SyntaxTree::try_from(&parser::Value::from_str(text).unwrap()).unwrap())
}

fn matches(v: &Value, t: &TypeInfo) -> bool {
    match (v, t) {
        (Value::Unit, TypeInfo::Unit) => true,
        (Value::Int64(_), TypeInfo::Int64) => true,
        (Value::Type(_), TypeInfo::Type(_)) => true,
        (Value::Array(items), TypeInfo::Array(e)) => items.iter().all(|x| matches(x, e)),
        _ => false,
    }
}

#[test]
fn checked_programs_evaluate_to_their_type() {
    for text in [
        "(+ 1 2)",
        "(array (array 1 2) (array 3))",
        "(var a (array-t (array-t i64)) (seq (set a (array (array 4))) a))",
        "(array-t i64)",
        "(let x (array 1 2) (array-get 1 x))",
        "(var a (array-t i64) (seq (set a (array 5 6)) (array-set 0 a 7)))",
    ] {
        let t = typed(text).unwrap();
        let mut ctx = RuntimeContext::new();
        let v = interpret(&mut ctx, &t).unwrap();
        assert!(matches(&v, &t.0), "{text}");
    }
}

#[test]
fn failed_checks_always_explain_themselves() {
    for text in ["(let x y x)", "(+ 1 (array))", "(set q 1)", "(let x z (set x 1))", "(var t 3 t)"] {
        let errs = typed(text).unwrap_err();
        assert!(!errs.is_empty(), "{text}");
        assert!(errs.iter().all(|d| matches!(d.kind(), ErrorKind::Name | ErrorKind::Type)));
    }
}

#[test]
fn array_elements_must_share_a_type() {
    assert_eq!(
        typed("(array 1 (array 2))").unwrap_err(),
        vec![Diagnostic::TypeMismatch {
            expected: TypeInfo::Int64,
            found: TypeInfo::Array(Box::new(TypeInfo::Int64)),
        }]
    );
    assert_eq!(run_program("(array 1 (array 2))").unwrap_err()[0].kind(), ErrorKind::Type);
}

#[test]
fn binding_forms_restore_the_runtime_scope() {
    for text in ["(let x 1 (var y i64 (set y x)))", "(let x 1 (/ x 0))", "(var a (array-t i64) (array-get 3 a))"] {
        let t = typed(text).unwrap();
        let mut ctx = RuntimeContext::new();
        let _ = interpret(&mut ctx, &t);
        assert_eq!(ctx.slots, vec![Value::Type(TypeInfo::Int64)], "{text}");
    }
}
