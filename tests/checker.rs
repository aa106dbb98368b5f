use sexpr_lang::checker::{into_typed_tree, TypeContext};
use sexpr_lang::diagnostic::{Diagnostic, ErrorKind};
use sexpr_lang::interpreter::{TypeInfo, TypedTree};
use sexpr_lang::parser::Value;
use sexpr_lang::syntax_tree::SyntaxTree;

fn syntax(text: &str) -> SyntaxTree {
    SyntaxTree::try_from(&Value::from_str(text).unwrap()).unwrap()
}

fn check(text: &str) -> Result<TypedTree, Vec<Diagnostic>> {
    TypedTree::try_from(&syntax(text))
}

fn type_of(text: &str) -> TypeInfo {
    check(text).unwrap().0
}

fn arr(t: TypeInfo) -> TypeInfo {
    TypeInfo::Array(Box::new(t))
}

fn ty(t: TypeInfo) -> TypeInfo {
    TypeInfo::Type(Box::new(t))
}

#[test]
fn types_of_well_formed_programs() {
    assert_eq!(type_of("5"), TypeInfo::Int64);
    assert_eq!(type_of("i64"), ty(TypeInfo::Int64));
    assert_eq!(type_of("(array-t i64)"), ty(arr(TypeInfo::Int64)));
    assert_eq!(type_of("(array)"), arr(TypeInfo::Unit));
    assert_eq!(type_of("(array (array 1) (array 2 3))"), arr(arr(TypeInfo::Int64)));
    assert_eq!(type_of("(let x 1 (set x 2))"), TypeInfo::Unit);
    assert_eq!(type_of("(seq 1 (array 2))"), arr(TypeInfo::Int64));
    assert_eq!(type_of("(var a (array-t i64) (array-get 0 a))"), TypeInfo::Int64);
    assert_eq!(type_of("(var a (array-t i64) (array-set 0 a 1))"), TypeInfo::Unit);
    assert_eq!(type_of("(- 1 2 3)"), TypeInfo::Int64);
}

#[test]
fn unknown_and_undeclared_names() {
    assert_eq!(check("y").unwrap_err(), vec![Diagnostic::UnknownVariable("y".to_string())]);
    assert_eq!(check("(set y 1)").unwrap_err(), vec![Diagnostic::UndeclaredVariable("y".to_string())]);
    assert_eq!(check("(array-set 0 y 1)").unwrap_err(), vec![Diagnostic::UnknownVariable("y".to_string())]);
}

#[test]
fn a_failed_binding_is_not_reported_again() {
    assert_eq!(
        check("(let x z (+ x x))").unwrap_err(),
        vec![Diagnostic::UnknownVariable("z".to_string())]
    );
}

#[test]
fn assignment_must_keep_the_type() {
    assert_eq!(
        check("(let x 1 (set x (array)))").unwrap_err(),
        vec![Diagnostic::TypeMismatch { expected: TypeInfo::Int64, found: arr(TypeInfo::Unit) }]
    );
}

#[test]
fn arithmetic_reports_each_bad_operand() {
    assert_eq!(
        check("(+ 1 (array) i64)").unwrap_err(),
        vec![
            Diagnostic::TypeMismatch { expected: TypeInfo::Int64, found: arr(TypeInfo::Unit) },
            Diagnostic::TypeMismatch { expected: TypeInfo::Int64, found: ty(TypeInfo::Int64) },
        ]
    );
}

#[test]
fn array_elements_are_each_held_to_the_first() {
    assert_eq!(
        check("(array 1 (array) 2 i64)").unwrap_err(),
        vec![
            Diagnostic::TypeMismatch { expected: TypeInfo::Int64, found: arr(TypeInfo::Unit) },
            Diagnostic::TypeMismatch { expected: TypeInfo::Int64, found: ty(TypeInfo::Int64) },
        ]
    );
}

#[test]
fn type_positions_need_types() {
    assert_eq!(check("(var x 5 x)").unwrap_err(), vec![Diagnostic::NotAType(TypeInfo::Int64)]);
    assert_eq!(check("(array-t 5)").unwrap_err(), vec![Diagnostic::NotAType(TypeInfo::Int64)]);
}

#[test]
fn indexing_needs_an_array_and_an_integer() {
    assert_eq!(check("(array-get 0 5)").unwrap_err(), vec![Diagnostic::NotAnArray(TypeInfo::Int64)]);
    assert_eq!(
        check("(array-get (array) (array 1))").unwrap_err(),
        vec![Diagnostic::TypeMismatch { expected: TypeInfo::Int64, found: arr(TypeInfo::Unit) }]
    );
    assert_eq!(check("(let x 1 (array-set 0 x 1))").unwrap_err(), vec![Diagnostic::NotAnArray(TypeInfo::Int64)]);
    assert_eq!(check("(array-set 0 (array 1) 1)").unwrap_err(), vec![Diagnostic::NotAssignable]);
    assert_eq!(
        check("(var a (array-t i64) (array-set 0 a (array)))").unwrap_err(),
        vec![Diagnostic::TypeMismatch { expected: TypeInfo::Int64, found: arr(TypeInfo::Unit) }]
    );
}

#[test]
fn arithmetic_needs_two_operands() {
    for text in ["(+ 1)", "(- 5)", "(* 2)", "(/ 4)", "(% 4)"] {
        assert_eq!(check(text).unwrap_err(), vec![Diagnostic::TooFewOperands], "{text}");
    }
    assert_eq!(type_of("(% 7 2)"), TypeInfo::Int64);
}

#[test]
fn empty_forms_built_by_hand_are_reported() {
    let mut ctx = TypeContext::new();
    assert!(into_typed_tree(&mut ctx, &SyntaxTree::Sequence(vec![])).is_none());
    assert_eq!(ctx.error_log, vec![Diagnostic::EmptyOperands]);
    assert_eq!(ctx.error_log[0].kind(), ErrorKind::Shape);
}

#[test]
fn checking_leaves_the_scope_as_it_was() {
    for text in ["(let x 1 (var y i64 (set y x)))", "(let x 1 (var y i64 (set y (array))))", "(let x q x)"] {
        let mut ctx = TypeContext::new();
        let before: Vec<String> = ctx.variables.iter().map(|b| b.0.clone()).collect();
        let _ = into_typed_tree(&mut ctx, &syntax(text));
        let after: Vec<String> = ctx.variables.iter().map(|b| b.0.clone()).collect();
        assert_eq!(before, after);
        assert_eq!(ctx.variables[0].1, Some(ty(TypeInfo::Int64)));
    }
}
