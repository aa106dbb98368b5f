use sexpr_lang::diagnostic::{ok_or_log, Diagnostic, ErrorKind};
use sexpr_lang::interpreter::{interpret, parse_interpret, run_program, RuntimeContext, TypeInfo, TypedOp, TypedTree, Value};

fn run(text: &str) -> Result<Value, Vec<Diagnostic>> {
    run_program(text)
}

#[test]
fn wraparound_addition() {
    assert_eq!(run("(+ 9223372036854775807 1)"), Ok(Value::Int64(-9223372036854775808)));
    assert_eq!(parse_interpret("(+ 9223372036854775807 1)"), Ok("-9223372036854775808".to_string()));
}

#[test]
fn wraparound_subtraction_and_multiplication() {
    assert_eq!(run("(- -9223372036854775808 1)"), Ok(Value::Int64(i64::MAX)));
    assert_eq!(run("(* 4611686018427387904 2)"), Ok(Value::Int64(i64::MIN)));
    assert_eq!(run("(* 2 3 7)"), Ok(Value::Int64(42)));
    assert_eq!(run("(- 10 1 2)"), Ok(Value::Int64(7)));
    assert_eq!(run("(- 5)"), Err(vec![Diagnostic::TooFewOperands]));
}

#[test]
fn division_truncates_toward_zero() {
    assert_eq!(run("(/ 7 2)"), Ok(Value::Int64(3)));
    assert_eq!(run("(% 7 2)"), Ok(Value::Int64(1)));
    assert_eq!(run("(/ -7 2)"), Ok(Value::Int64(-3)));
    assert_eq!(run("(% -7 2)"), Ok(Value::Int64(-1)));
    assert_eq!(run("(% 7 -2)"), Ok(Value::Int64(1)));
    assert_eq!(run("(/ 100 5 2)"), Ok(Value::Int64(10)));
    assert_eq!(run("(/ -9223372036854775808 -1)"), Ok(Value::Int64(i64::MIN)));
    assert_eq!(run("(% -9223372036854775808 -1)"), Ok(Value::Int64(0)));
}

#[test]
fn division_by_zero_fails() {
    assert_eq!(run("(/ 5 0)"), Err(vec![Diagnostic::DivisionByZero]));
    assert_eq!(run("(% 5 0)"), Err(vec![Diagnostic::DivisionByZero]));
    assert_eq!(run("(/ 5 1 0 2)"), Err(vec![Diagnostic::DivisionByZero]));
    assert_eq!(parse_interpret("(/ 5 0)"), Err("division by zero\n".to_string()));
    assert_eq!(Diagnostic::DivisionByZero.kind(), ErrorKind::Runtime);
}

#[test]
fn assignment_inside_a_binding() {
    assert_eq!(run("(let x 1 (seq (set x 2) x))"), Ok(Value::Int64(2)));
}

#[test]
fn a_binding_does_not_outlive_its_form() {
    assert_eq!(
        run("(seq (let x 1 (seq (set x 2) x)) x)"),
        Err(vec![Diagnostic::UnknownVariable("x".to_string())])
    );
    assert_eq!(Diagnostic::UnknownVariable("x".to_string()).kind(), ErrorKind::Name);
}

#[test]
fn inner_bindings_shadow_outer_ones() {
    assert_eq!(run("(let x 1 (seq (let x 5 (set x 6)) x))"), Ok(Value::Int64(1)));
    assert_eq!(run("(let x 1 (seq (let y 5 (set x y)) x))"), Ok(Value::Int64(5)));
}

#[test]
fn array_get_bounds() {
    assert_eq!(
        run("(array-get 5 (array 1 2 3))"),
        Err(vec![Diagnostic::IndexOutOfBounds { index: 5, len: 3 }])
    );
    assert_eq!(
        run("(array-get -1 (array 1 2 3))"),
        Err(vec![Diagnostic::IndexOutOfBounds { index: -1, len: 3 }])
    );
    assert_eq!(run("(array-get 1 (array 1 2 3))"), Ok(Value::Int64(2)));
    assert_eq!(run("(array-get 2 (array 1 2 3))"), Ok(Value::Int64(3)));
}

#[test]
fn array_set_mutates_the_variable() {
    assert_eq!(
        parse_interpret("(var a (array-t i64) (seq (set a (array 1 2 3)) (array-set 1 a 9) a))"),
        Ok("[1, 9, 3]".to_string())
    );
    assert_eq!(
        run("(var a (array-t i64) (array-set 0 a 9))"),
        Err(vec![Diagnostic::IndexOutOfBounds { index: 0, len: 0 }])
    );
}

#[test]
fn array_get_leaves_the_variable_alone() {
    assert_eq!(
        parse_interpret("(var a (array-t i64) (seq (set a (array 1 2 3)) (array-get 0 a) a))"),
        Ok("[1, 2, 3]".to_string())
    );
}

#[test]
fn var_starts_at_the_zero_value() {
    assert_eq!(run("(var x i64 x)"), Ok(Value::Int64(0)));
    assert_eq!(run("(var a (array-t i64) a)"), Ok(Value::Array(vec![])));
    assert_eq!(TypeInfo::Unit.zero(), Value::Unit);
    assert_eq!(TypeInfo::Int64.zero(), Value::Int64(0));
    assert_eq!(TypeInfo::Type(Box::new(TypeInfo::Int64)).zero(), Value::Type(TypeInfo::Unit));
    assert_eq!(TypeInfo::Array(Box::new(TypeInfo::Int64)).zero(), Value::Array(vec![]));
}

#[test]
fn rendering_of_values() {
    assert_eq!(parse_interpret("(array)"), Ok("[]".to_string()));
    assert_eq!(parse_interpret("(array (array 1 -2) (array 3))"), Ok("[[1, -2], [3]]".to_string()));
    assert_eq!(
        parse_interpret("(array (array 1) (array))"),
        Err("type mismatch: expected Array(Int64), found Array(Unit)\n".to_string())
    );
    assert_eq!(parse_interpret("(array-t (array-t i64))"), Ok("Array(Array(Int64))".to_string()));
    assert_eq!(parse_interpret("(let x 1 (set x 2))"), Ok("()".to_string()));
    assert_eq!(parse_interpret("(seq 1 2 0)"), Ok("0".to_string()));
}

#[test]
fn rendering_of_diagnostics() {
    assert_eq!(parse_interpret("(+ 1"), Err("unexpected end of input\nunbalanced bracket at 1:1\n".to_string()));
    assert_eq!(
        parse_interpret("(seq (foo) y)"),
        Err("unknown head `foo`\n".to_string())
    );
    assert_eq!(
        parse_interpret("(array 1 (array 2))"),
        Err("type mismatch: expected Int64, found Array(Int64)\n".to_string())
    );
    assert_eq!(
        Diagnostic::IndexOutOfBounds { index: -3, len: 12 }.message(),
        "index -3 out of bounds for length 12"
    );
}

#[test]
fn hand_built_trees_with_bad_slots_fail_cleanly() {
    let mut ctx = RuntimeContext::new();
    let tree = TypedTree(TypeInfo::Int64, TypedOp::LocalGet(7));
    assert_eq!(interpret(&mut ctx, &tree), Err(Diagnostic::UnboundSlot(7)));
    let tree = TypedTree(TypeInfo::Int64, TypedOp::Arithmetic(sexpr_lang::syntax_tree::ArithmeticOp::Add, vec![]));
    assert_eq!(interpret(&mut ctx, &tree), Err(Diagnostic::IllTyped));
    assert_eq!(ctx.slots.len(), 1);
}

#[test]
fn ok_or_log_appends_errors() {
    let mut log = Vec::new();
    assert_eq!(ok_or_log(&mut log, Ok::<i32, Diagnostic>(3)), Some(3));
    assert!(log.is_empty());
    assert_eq!(ok_or_log::<i32>(&mut log, Err(Diagnostic::DivisionByZero)), None);
    assert_eq!(log, vec![Diagnostic::DivisionByZero]);
}

#[test]
fn a_body_may_assign_an_outer_variable() {
    assert_eq!(run("(let y 0 (seq (let x 1 (set y 5)) y))"), Ok(Value::Int64(5)));
}

#[test]
fn messages_of_each_kind() {
    let t = TypeInfo::Array(Box::new(TypeInfo::Type(Box::new(TypeInfo::Unit))));
    let cases = vec![
        (Diagnostic::UnexpectedEnd, "unexpected end of input"),
        (Diagnostic::UnbalancedBracket { line: 10, column: 203 }, "unbalanced bracket at 10:203"),
        (Diagnostic::TrailingInput { line: 1, column: 9 }, "unexpected input after the expression at 1:9"),
        (Diagnostic::EmptyForm, "empty form ()"),
        (Diagnostic::NotCallable, "a list or a number used as a function"),
        (Diagnostic::UnknownHead("f".to_string()), "unknown head `f`"),
        (Diagnostic::WrongArity("let".to_string()), "wrong number of elements for `let`"),
        (Diagnostic::EmptyOperands, "form without operands"),
        (Diagnostic::TooFewOperands, "arithmetic needs at least two operands"),
        (Diagnostic::NotIdentifier, "expected an identifier"),
        (Diagnostic::UnknownVariable("v".to_string()), "unknown variable `v`"),
        (Diagnostic::UndeclaredVariable("w".to_string()), "assignment to undeclared variable `w`"),
        (Diagnostic::NotAssignable, "array-set target is not a variable"),
        (Diagnostic::NotAType(TypeInfo::Int64), "not a type: Int64"),
        (Diagnostic::NotAnArray(t), "not an array: Array(Type(Unit))"),
        (Diagnostic::UnboundSlot(4), "no variable in slot 4"),
        (Diagnostic::IllTyped, "a value of the wrong shape"),
        (Diagnostic::IndexOutOfBounds { index: i64::MIN, len: 0 }, "index -9223372036854775808 out of bounds for length 0"),
    ];
    for (d, text) in cases {
        assert_eq!(d.message(), text);
    }
}

#[test]
fn array_set_evaluates_the_new_element_before_the_index() {
    assert_eq!(
        run("(var a (array-t i64) (array-set (/ 1 0) a (array-get 9 (array 1))))"),
        Err(vec![Diagnostic::IndexOutOfBounds { index: 9, len: 1 }])
    );
}
