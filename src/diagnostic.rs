//! Diagnostics: what every stage reports when it cannot go on.

use crate::interpreter::TypeInfo;
use vstd::prelude::*;

verus! {

/// The broad class that a diagnostic belongs to.
#[derive(Debug, Clone, Copy, PartialEq, Eq)]
pub enum ErrorKind {
    /// Unbalanced brackets, unexpected end of input.
    Syntax,
    /// Wrong arity, unknown head, a non-callable or non-identifier in a keyword slot.
    Shape,
    /// Unknown variable or assignment to an undeclared one.
    Name,
    /// Operand, assignment or element type mismatch.
    Type,
    /// Division by zero or an index out of bounds.
    Runtime,
}

/// One problem found by any stage of the pipeline.
#[derive(Debug, PartialEq, Eq)]
pub enum Diagnostic {
    /// The input ended while an expression was expected or a list was open.
    UnexpectedEnd,
    /// A `(` that is never closed, or a `)` that closes nothing.
    UnbalancedBracket { line: usize, column: usize },
    /// Text after the one top-level expression.
    TrailingInput { line: usize, column: usize },
    /// The list `()`.
    EmptyForm,
    /// A list or a number where the head of a form was expected.
    NotCallable,
    /// An atom in head position that names no keyword or operator.
    UnknownHead(String),
    /// A keyword form with the wrong number of elements.
    WrongArity(String),
    /// A sequence or arithmetic form without operands.
    EmptyOperands,
    /// An arithmetic form with fewer than two operands.
    TooFewOperands,
    /// A binding or assignment name that is not an identifier.
    NotIdentifier,
    /// A reference to a name that is not in scope.
    UnknownVariable(String),
    /// An assignment to a name that is not in scope.
    UndeclaredVariable(String),
    /// `array-set` on something other than a variable.
    NotAssignable,
    /// A value whose type is not the one required.
    TypeMismatch { expected: TypeInfo, found: TypeInfo },
    /// An expression used as a type that does not denote a type.
    NotAType(TypeInfo),
    /// An indexed expression that is not an array.
    NotAnArray(TypeInfo),
    /// A slot that the scope does not hold: the tree was not built for it.
    UnboundSlot(usize),
    /// A value of the wrong shape reached an operation: the tree was not
    /// produced by the checker.
    IllTyped,
    /// Division or remainder by zero.
    DivisionByZero,
    /// An array index outside the array.
    IndexOutOfBounds { index: i64, len: usize },
}

impl Diagnostic {
    pub open spec fn spec_kind(&self) -> ErrorKind {
        match self {
            Diagnostic::UnexpectedEnd => ErrorKind::Syntax,
            Diagnostic::UnbalancedBracket { .. } => ErrorKind::Syntax,
            Diagnostic::TrailingInput { .. } => ErrorKind::Syntax,
            Diagnostic::EmptyForm => ErrorKind::Shape,
            Diagnostic::NotCallable => ErrorKind::Shape,
            Diagnostic::UnknownHead(_) => ErrorKind::Shape,
            Diagnostic::WrongArity(_) => ErrorKind::Shape,
            Diagnostic::EmptyOperands => ErrorKind::Shape,
            Diagnostic::TooFewOperands => ErrorKind::Shape,
            Diagnostic::NotIdentifier => ErrorKind::Shape,
            Diagnostic::UnknownVariable(_) => ErrorKind::Name,
            Diagnostic::UndeclaredVariable(_) => ErrorKind::Name,
            Diagnostic::NotAssignable => ErrorKind::Type,
            Diagnostic::TypeMismatch { .. } => ErrorKind::Type,
            Diagnostic::NotAType(_) => ErrorKind::Type,
            Diagnostic::NotAnArray(_) => ErrorKind::Type,
            Diagnostic::UnboundSlot(_) => ErrorKind::Name,
            Diagnostic::IllTyped => ErrorKind::Type,
            Diagnostic::DivisionByZero => ErrorKind::Runtime,
            Diagnostic::IndexOutOfBounds { .. } => ErrorKind::Runtime,
        }
    }

    /// The class of this diagnostic.
    #[verifier::when_used_as_spec(spec_kind)]
    pub fn kind(&self) -> (r: ErrorKind)
        ensures
            r == self.spec_kind(),
    {
        match self {
            Diagnostic::UnexpectedEnd => ErrorKind::Syntax,
            Diagnostic::UnbalancedBracket { .. } => ErrorKind::Syntax,
            Diagnostic::TrailingInput { .. } => ErrorKind::Syntax,
            Diagnostic::EmptyForm => ErrorKind::Shape,
            Diagnostic::NotCallable => ErrorKind::Shape,
            Diagnostic::UnknownHead(_) => ErrorKind::Shape,
            Diagnostic::WrongArity(_) => ErrorKind::Shape,
            Diagnostic::EmptyOperands => ErrorKind::Shape,
            Diagnostic::TooFewOperands => ErrorKind::Shape,
            Diagnostic::NotIdentifier => ErrorKind::Shape,
            Diagnostic::UnknownVariable(_) => ErrorKind::Name,
            Diagnostic::UndeclaredVariable(_) => ErrorKind::Name,
            Diagnostic::NotAssignable => ErrorKind::Type,
            Diagnostic::TypeMismatch { .. } => ErrorKind::Type,
            Diagnostic::NotAType(_) => ErrorKind::Type,
            Diagnostic::NotAnArray(_) => ErrorKind::Type,
            Diagnostic::UnboundSlot(_) => ErrorKind::Name,
            Diagnostic::IllTyped => ErrorKind::Type,
            Diagnostic::DivisionByZero => ErrorKind::Runtime,
            Diagnostic::IndexOutOfBounds { .. } => ErrorKind::Runtime,
        }
    }
}


/// The value inside `res`, or `None` after appending its error to the log.
pub fn ok_or_log<T>(error_log: &mut Vec<Diagnostic>, res: Result<T, Diagnostic>) -> (r: Option<T>)
    ensures
        match res {
            Ok(x) => r == Some(x) && final(error_log)@ == old(error_log)@,
            Err(e) => r is None && final(error_log)@ == old(error_log)@.push(e),
        },
{
    match res {
        Ok(x) => Some(x),
        Err(e) => {
            error_log.push(e);
            None
        },
    }
}

} // verus!
