//! The text that values, types and diagnostics are shown with.

use crate::diagnostic::Diagnostic;
use crate::interpreter::{TypeInfo, Value, ValueView};
use crate::text::push_char;
use vstd::prelude::*;
use vstd::string::*;

verus! {

/// The character of the decimal digit `d`.
pub open spec fn digit_char(d: int) -> char {
    if d == 0 {
        '0'
    } else if d == 1 {
        '1'
    } else if d == 2 {
        '2'
    } else if d == 3 {
        '3'
    } else if d == 4 {
        '4'
    } else if d == 5 {
        '5'
    } else if d == 6 {
        '6'
    } else if d == 7 {
        '7'
    } else if d == 8 {
        '8'
    } else {
        '9'
    }
}

/// The decimal digits of `n`.
pub open spec fn nat_text(n: nat) -> Seq<char>
    decreases n,
{
    if n < 10 {
        seq![digit_char(n as int)]
    } else {
        nat_text(n / 10) + seq![digit_char((n % 10) as int)]
    }
}

/// `n` in base ten, with a leading `-` when negative.
pub open spec fn int_text(n: int) -> Seq<char> {
    if n < 0 {
        seq!['-'] + nat_text((-n) as nat)
    } else {
        nat_text(n as nat)
    }
}

/// How a type is written: `Unit`, `Int64`, `Type(T)`, `Array(T)`.
pub open spec fn type_text(t: TypeInfo) -> Seq<char>
    decreases t,
{
    match t {
        TypeInfo::Unit => "Unit"@,
        TypeInfo::Int64 => "Int64"@,
        TypeInfo::Type(u) => "Type("@ + type_text(*u) + ")"@,
        TypeInfo::Array(u) => "Array("@ + type_text(*u) + ")"@,
    }
}

/// How a value is written: `()`, an integer, a type, or `[a, b, ...]`.
pub open spec fn value_text(v: ValueView) -> Seq<char>
    decreases v, 0int,
{
    match v {
        ValueView::Unit => "()"@,
        ValueView::Int64(n) => int_text(n as int),
        ValueView::Type(t) => type_text(t),
        ValueView::Array(items) => "["@ + items_text(items, 0) + "]"@,
    }
}

/// Elements `i..` of an array, separated by `, `.
pub open spec fn items_text(items: Seq<ValueView>, i: int) -> Seq<char>
    decreases items, items.len() - i,
{
    if i < 0 || i >= items.len() {
        Seq::empty()
    } else {
        (if i > 0 {
            ", "@
        } else {
            Seq::empty()
        }) + value_text(items[i]) + items_text(items, i + 1)
    }
}

/// The message that a diagnostic is shown with.
pub open spec fn diagnostic_text(d: Diagnostic) -> Seq<char> {
    match d {
        Diagnostic::UnexpectedEnd => "unexpected end of input"@,
        Diagnostic::UnbalancedBracket { line, column } => "unbalanced bracket at "@ + int_text(
            line as int,
        ) + ":"@ + int_text(column as int),
        Diagnostic::TrailingInput { line, column } => "unexpected input after the expression at "@
            + int_text(line as int) + ":"@ + int_text(column as int),
        Diagnostic::EmptyForm => "empty form ()"@,
        Diagnostic::NotCallable => "a list or a number used as a function"@,
        Diagnostic::UnknownHead(h) => "unknown head `"@ + h@ + "`"@,
        Diagnostic::WrongArity(h) => "wrong number of elements for `"@ + h@ + "`"@,
        Diagnostic::EmptyOperands => "form without operands"@,
        Diagnostic::TooFewOperands => "arithmetic needs at least two operands"@,
        Diagnostic::NotIdentifier => "expected an identifier"@,
        Diagnostic::UnknownVariable(n) => "unknown variable `"@ + n@ + "`"@,
        Diagnostic::UndeclaredVariable(n) => "assignment to undeclared variable `"@ + n@ + "`"@,
        Diagnostic::NotAssignable => "array-set target is not a variable"@,
        Diagnostic::TypeMismatch { expected, found } => "type mismatch: expected "@ + type_text(
            expected,
        ) + ", found "@ + type_text(found),
        Diagnostic::NotAType(t) => "not a type: "@ + type_text(t),
        Diagnostic::NotAnArray(t) => "not an array: "@ + type_text(t),
        Diagnostic::UnboundSlot(slot) => "no variable in slot "@ + int_text(slot as int),
        Diagnostic::IllTyped => "a value of the wrong shape"@,
        Diagnostic::DivisionByZero => "division by zero"@,
        Diagnostic::IndexOutOfBounds { index, len } => "index "@ + int_text(index as int)
            + " out of bounds for length "@ + int_text(len as int),
    }
}

/// Diagnostics `i..` of a log, one per line.
pub open spec fn log_text(ds: Seq<Diagnostic>, i: int) -> Seq<char>
    decreases ds.len() - i,
{
    if i < 0 || i >= ds.len() {
        Seq::empty()
    } else {
        diagnostic_text(ds[i]) + "\n"@ + log_text(ds, i + 1)
    }
}

/// The character of the decimal digit `d`.
fn digit(d: u64) -> (r: char)
    requires
        d < 10,
    ensures
        r == digit_char(d as int),
{
    if d == 0 {
        '0'
    } else if d == 1 {
        '1'
    } else if d == 2 {
        '2'
    } else if d == 3 {
        '3'
    } else if d == 4 {
        '4'
    } else if d == 5 {
        '5'
    } else if d == 6 {
        '6'
    } else if d == 7 {
        '7'
    } else if d == 8 {
        '8'
    } else {
        '9'
    }
}

/// Appends the decimal digits of `n`.
fn push_nat(s: &mut String, n: u64)
    ensures
        final(s)@ == old(s)@ + nat_text(n as nat),
    decreases n,
{
    if n >= 10 {
        push_nat(s, n / 10);
    }
    push_char(s, digit(n % 10));
}

/// Appends `n` in base ten.
fn push_int(s: &mut String, n: i64)
    ensures
        final(s)@ == old(s)@ + int_text(n as int),
{
    if n < 0 {
        let m: u64 = if n == i64::MIN {
            9223372036854775808
        } else {
            (-n) as u64
        };
        push_char(s, '-');
        push_nat(s, m);
        assert(s@ =~= old(s)@ + int_text(n as int));
    } else {
        push_nat(s, n as u64);
    }
}

/// Appends the text of a type.
fn push_type(s: &mut String, t: &TypeInfo)
    ensures
        final(s)@ == old(s)@ + type_text(*t),
    decreases t,
{
    match t {
        TypeInfo::Unit => s.append("Unit"),
        TypeInfo::Int64 => s.append("Int64"),
        TypeInfo::Type(u) => {
            s.append("Type(");
            push_type(s, u);
            s.append(")");
            assert(s@ =~= old(s)@ + type_text(*t));
        },
        TypeInfo::Array(u) => {
            s.append("Array(");
            push_type(s, u);
            s.append(")");
            assert(s@ =~= old(s)@ + type_text(*t));
        },
    }
}

#[verifier::loop_isolation(false)]
/// Appends the text of a value.
fn push_value(s: &mut String, v: &Value)
    ensures
        final(s)@ == old(s)@ + value_text(v@),
    decreases v,
{
    match v {
        Value::Unit => s.append("()"),
        Value::Int64(n) => push_int(s, *n),
        Value::Type(t) => push_type(s, t),
        Value::Array(items) => {
            let ghost views = v@->Array_0;
            s.append("[");
            let ghost start = s@;
            let mut i: usize = 0;
            while i < items.len()
                invariant
                    i <= items@.len(),
                    views.len() == items@.len(),
                    s@ + items_text(views, i as int) == start + items_text(views, 0),
                decreases items.len() - i,
            {
                proof {
                    assert(decreases_to!(*v => (*v)->Array_0));
                    assert(decreases_to!(*items => items@));
                    assert(decreases_to!(items@ => items@[i as int]));
                }
                let ghost before = s@;
                if i > 0 {
                    s.append(", ");
                }
                assert(views[i as int] == items@[i as int]@);
                push_value(s, &items[i]);
                assert(s@ + items_text(views, i + 1) =~= before + items_text(views, i as int));
                i += 1;
            }
            s.append("]");
            assert(s@ =~= old(s)@ + value_text(v@));
        },
    }
}

/// The text of a value.
pub fn value_string(v: &Value) -> (r: String)
    ensures
        r@ == value_text(v@),
{
    let mut s = String::new();
    push_value(&mut s, v);
    assert(s@ =~= value_text(v@));
    s
}

impl Diagnostic {
    /// The text that this diagnostic is shown with.
    pub fn message(&self) -> (r: String)
        ensures
            r@ == diagnostic_text(*self),
    {
        let mut s = String::new();
        match self {
            Diagnostic::UnexpectedEnd => s.append("unexpected end of input"),
            Diagnostic::UnbalancedBracket { line, column } => {
                s.append("unbalanced bracket at ");
                push_int_usize(&mut s, *line);
                s.append(":");
                push_int_usize(&mut s, *column);
            },
            Diagnostic::TrailingInput { line, column } => {
                s.append("unexpected input after the expression at ");
                push_int_usize(&mut s, *line);
                s.append(":");
                push_int_usize(&mut s, *column);
            },
            Diagnostic::EmptyForm => s.append("empty form ()"),
            Diagnostic::NotCallable => s.append("a list or a number used as a function"),
            Diagnostic::UnknownHead(h) => {
                s.append("unknown head `");
                s.append(h.as_str());
                s.append("`");
            },
            Diagnostic::WrongArity(h) => {
                s.append("wrong number of elements for `");
                s.append(h.as_str());
                s.append("`");
            },
            Diagnostic::EmptyOperands => s.append("form without operands"),
            Diagnostic::TooFewOperands => s.append("arithmetic needs at least two operands"),
            Diagnostic::NotIdentifier => s.append("expected an identifier"),
            Diagnostic::UnknownVariable(n) => {
                s.append("unknown variable `");
                s.append(n.as_str());
                s.append("`");
            },
            Diagnostic::UndeclaredVariable(n) => {
                s.append("assignment to undeclared variable `");
                s.append(n.as_str());
                s.append("`");
            },
            Diagnostic::NotAssignable => s.append("array-set target is not a variable"),
            Diagnostic::TypeMismatch { expected, found } => {
                s.append("type mismatch: expected ");
                push_type(&mut s, expected);
                s.append(", found ");
                push_type(&mut s, found);
            },
            Diagnostic::NotAType(t) => {
                s.append("not a type: ");
                push_type(&mut s, t);
            },
            Diagnostic::NotAnArray(t) => {
                s.append("not an array: ");
                push_type(&mut s, t);
            },
            Diagnostic::UnboundSlot(slot) => {
                s.append("no variable in slot ");
                push_int_usize(&mut s, *slot);
            },
            Diagnostic::IllTyped => s.append("a value of the wrong shape"),
            Diagnostic::DivisionByZero => s.append("division by zero"),
            Diagnostic::IndexOutOfBounds { index, len } => {
                s.append("index ");
                push_int(&mut s, *index);
                s.append(" out of bounds for length ");
                push_int_usize(&mut s, *len);
            },
        }
        assert(s@ =~= diagnostic_text(*self));
        s
    }
}

/// Appends `n` in base ten.
fn push_int_usize(s: &mut String, n: usize)
    ensures
        final(s)@ == old(s)@ + int_text(n as int),
{
    push_nat(s, n as u64);
}

/// The text of a log: each message on a line of its own.
pub fn log_string(ds: &Vec<Diagnostic>) -> (r: String)
    ensures
        r@ == log_text(ds@, 0),
{
    let mut s = String::new();
    let mut i: usize = 0;
    while i < ds.len()
        invariant
            i <= ds@.len(),
            s@ + log_text(ds@, i as int) == log_text(ds@, 0),
        decreases ds.len() - i,
    {
        let ghost before = s@;
        let m = ds[i].message();
        s.append(m.as_str());
        s.append("\n");
        assert(s@ + log_text(ds@, i + 1) =~= before + log_text(ds@, i as int));
        i += 1;
    }
    assert(s@ =~= s@ + log_text(ds@, i as int));
    s
}

} // verus!
