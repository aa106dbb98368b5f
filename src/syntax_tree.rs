//! The syntax builder: token trees to keyword-resolved, arity-checked
//! expressions, reporting every malformed form it meets.

use crate::diagnostic::Diagnostic;
use crate::parser::Value;
use vstd::prelude::*;
use vstd::string::*;

verus! {

/// The five arithmetic operators.
#[derive(Debug, PartialEq, Eq, Clone, Copy)]
pub enum ArithmeticOp {
    Add,
    Sub,
    Mul,
    Div,
    Rem,
}


/// A keyword-resolved, arity-checked expression.
#[derive(Debug, PartialEq, Eq)]
pub enum SyntaxTree {
    Ident(String),
    /// `(let name value body)`
    LetVal(String, Box<SyntaxTree>, Box<SyntaxTree>),
    /// `(var name type body)`
    LetType(String, Box<SyntaxTree>, Box<SyntaxTree>),
    /// `(seq e ...)`
    Sequence(Vec<SyntaxTree>),
    /// `(set name value)`
    Assign(String, Box<SyntaxTree>),
    LiteralInt64(i64),
    /// `(array e ...)`
    LiteralArray(Vec<SyntaxTree>),
    /// `(array-t type)`
    LiteralArrayType(Box<SyntaxTree>),
    /// `(op e ...)` for `+ - * / %`
    Arithmetic(ArithmeticOp, Vec<SyntaxTree>),
    /// `(array-get index array)`: the array, then the index.
    ArrayGet(Box<SyntaxTree>, Box<SyntaxTree>),
    /// `(array-set index array value)`: the array, the index, the value.
    ArraySet(Box<SyntaxTree>, Box<SyntaxTree>, Box<SyntaxTree>),
}


/// The heads that a form may start with.
#[derive(Debug, PartialEq, Eq, Clone, Copy)]
pub enum Keyword {
    Let,
    Var,
    Sequence,
    Assign,
    Array,
    ArrayT,
    Op(ArithmeticOp),
    ArrayGet,
    ArraySet,
}

/// The keyword that the text `h` names, if any.
pub open spec fn spec_keyword(h: Seq<char>) -> Option<Keyword> {
    if h == "let"@ {
        Some(Keyword::Let)
    } else if h == "var"@ {
        Some(Keyword::Var)
    } else if h == "seq"@ {
        Some(Keyword::Sequence)
    } else if h == "set"@ {
        Some(Keyword::Assign)
    } else if h == "array"@ {
        Some(Keyword::Array)
    } else if h == "array-t"@ {
        Some(Keyword::ArrayT)
    } else if h == "+"@ {
        Some(Keyword::Op(ArithmeticOp::Add))
    } else if h == "-"@ {
        Some(Keyword::Op(ArithmeticOp::Sub))
    } else if h == "*"@ {
        Some(Keyword::Op(ArithmeticOp::Mul))
    } else if h == "/"@ {
        Some(Keyword::Op(ArithmeticOp::Div))
    } else if h == "%"@ {
        Some(Keyword::Op(ArithmeticOp::Rem))
    } else if h == "array-get"@ {
        Some(Keyword::ArrayGet)
    } else if h == "array-set"@ {
        Some(Keyword::ArraySet)
    } else {
        None
    }
}

/// Whether `h` reads `w`.
fn same_text(h: &String, w: &str) -> (r: bool)
    ensures
        r == (h@ == w@),
{
    let s = String::from_str(w);
    *h == s
}

/// The keyword that `h` names, if any.
pub fn keyword(h: &String) -> (r: Option<Keyword>)
    ensures
        r == spec_keyword(h@),
{
    if same_text(h, "let") {
        Some(Keyword::Let)
    } else if same_text(h, "var") {
        Some(Keyword::Var)
    } else if same_text(h, "seq") {
        Some(Keyword::Sequence)
    } else if same_text(h, "set") {
        Some(Keyword::Assign)
    } else if same_text(h, "array") {
        Some(Keyword::Array)
    } else if same_text(h, "array-t") {
        Some(Keyword::ArrayT)
    } else if same_text(h, "+") {
        Some(Keyword::Op(ArithmeticOp::Add))
    } else if same_text(h, "-") {
        Some(Keyword::Op(ArithmeticOp::Sub))
    } else if same_text(h, "*") {
        Some(Keyword::Op(ArithmeticOp::Mul))
    } else if same_text(h, "/") {
        Some(Keyword::Op(ArithmeticOp::Div))
    } else if same_text(h, "%") {
        Some(Keyword::Op(ArithmeticOp::Rem))
    } else if same_text(h, "array-get") {
        Some(Keyword::ArrayGet)
    } else if same_text(h, "array-set") {
        Some(Keyword::ArraySet)
    } else {
        None
    }
}

/// Whether a form headed by `k` may have `n` elements, its head included.
pub open spec fn spec_arity_ok(k: Keyword, n: int) -> bool {
    match k {
        Keyword::Let | Keyword::Var | Keyword::ArraySet => n == 4,
        Keyword::Assign | Keyword::ArrayGet => n == 3,
        Keyword::ArrayT => n == 2,
        Keyword::Sequence | Keyword::Op(_) => n >= 2,
        Keyword::Array => n >= 1,
    }
}

/// Whether a form headed by `k` may have `n` elements.
fn arity_ok(k: Keyword, n: usize) -> (r: bool)
    ensures
        r == spec_arity_ok(k, n as int),
{
    match k {
        Keyword::Let | Keyword::Var | Keyword::ArraySet => n == 4,
        Keyword::Assign | Keyword::ArrayGet => n == 3,
        Keyword::ArrayT => n == 2,
        Keyword::Sequence | Keyword::Op(_) => n >= 2,
        Keyword::Array => n >= 1,
    }
}

/// What a binding form reports when its name element is not an atom.
pub open spec fn name_diags(t: Value) -> Seq<Diagnostic> {
    if t is Atom {
        Seq::empty()
    } else {
        seq![Diagnostic::NotIdentifier]
    }
}

/// Whether `t` builds, and the diagnostics that building it reports. The
/// children of a form are all built, so that one pass reports as much as it
/// can; the form fails if any of them failed.
pub open spec fn build(t: Value) -> (bool, Seq<Diagnostic>)
    decreases t, 0int,
{
    match t {
        Value::Atom(_) => (true, Seq::empty()),
        Value::Int64(_) => (true, Seq::empty()),
        Value::Array(items) => if items@.len() == 0 {
            (false, seq![Diagnostic::EmptyForm])
        } else {
            match items@[0] {
                Value::Atom(h) => match spec_keyword(h@) {
                    None => (false, seq![Diagnostic::UnknownHead(h)]),
                    Some(k) => if !spec_arity_ok(k, items@.len() as int) {
                        (false, seq![Diagnostic::WrongArity(h)])
                    } else {
                        match k {
                            Keyword::Let | Keyword::Var => {
                                let (b2, d2) = build(items@[2]);
                                let (b3, d3) = build(items@[3]);
                                (items@[1] is Atom && b2 && b3, name_diags(items@[1]) + d2 + d3)
                            },
                            Keyword::Assign => {
                                let (b2, d2) = build(items@[2]);
                                (items@[1] is Atom && b2, name_diags(items@[1]) + d2)
                            },
                            Keyword::ArrayT => build(items@[1]),
                            Keyword::ArrayGet => {
                                let (b1, d1) = build(items@[1]);
                                let (b2, d2) = build(items@[2]);
                                (b1 && b2, d1 + d2)
                            },
                            Keyword::ArraySet => {
                                let (b1, d1) = build(items@[1]);
                                let (b2, d2) = build(items@[2]);
                                let (b3, d3) = build(items@[3]);
                                (b1 && b2 && b3, d1 + d2 + d3)
                            },
                            _ => build_from(items@, 1, true, Seq::empty()),
                        }
                    },
                },
                _ => (false, seq![Diagnostic::NotCallable]),
            }
        },
    }
}

/// Elements `i..` of a form, built in order.
pub open spec fn build_from(items: Seq<Value>, i: int, ok: bool, acc: Seq<Diagnostic>) -> (bool, Seq<Diagnostic>)
    decreases items, items.len() - i,
{
    if i < 0 || i >= items.len() {
        (ok, acc)
    } else {
        let (b, d) = build(items[i]);
        build_from(items, i + 1, ok && b, acc + d)
    }
}

/// `out` is what elements `start..` of a form build to.
pub open spec fn builds_all(items: Seq<Value>, start: int, out: Seq<SyntaxTree>) -> bool
    decreases items, 0int,
{
    &&& 0 <= start <= items.len()
    &&& out.len() == items.len() - start
    &&& forall|j: int| 0 <= j < out.len() ==> builds(items[j + start], #[trigger] out[j])
}

/// `s` is what token tree `t` builds to.
pub open spec fn builds(t: Value, s: SyntaxTree) -> bool
    decreases t, 1int,
{
    match t {
        Value::Atom(x) => s == SyntaxTree::Ident(x),
        Value::Int64(n) => s == SyntaxTree::LiteralInt64(n),
        Value::Array(items) => items@.len() > 0 && match items@[0] {
            Value::Atom(h) => match spec_keyword(h@) {
                Some(k) => spec_arity_ok(k, items@.len() as int) && match (k, s) {
                    (Keyword::Let, SyntaxTree::LetVal(name, v, b)) => items@[1] == Value::Atom(name)
                        && builds(items@[2], *v) && builds(items@[3], *b),
                    (Keyword::Var, SyntaxTree::LetType(name, v, b)) => items@[1] == Value::Atom(name)
                        && builds(items@[2], *v) && builds(items@[3], *b),
                    (Keyword::Assign, SyntaxTree::Assign(name, v)) => items@[1] == Value::Atom(name)
                        && builds(items@[2], *v),
                    (Keyword::Sequence, SyntaxTree::Sequence(v)) => builds_all(items@, 1, v@),
                    (Keyword::Array, SyntaxTree::LiteralArray(v)) => builds_all(items@, 1, v@),
                    (Keyword::Op(op), SyntaxTree::Arithmetic(op2, v)) => op == op2 && builds_all(
                        items@,
                        1,
                        v@,
                    ),
                    (Keyword::ArrayT, SyntaxTree::LiteralArrayType(inner)) => builds(items@[1], *inner),
                    (Keyword::ArrayGet, SyntaxTree::ArrayGet(a, i)) => builds(items@[2], *a) && builds(
                        items@[1],
                        *i,
                    ),
                    (Keyword::ArraySet, SyntaxTree::ArraySet(a, i, v)) => builds(items@[2], *a)
                        && builds(items@[1], *i) && builds(items@[3], *v),
                    _ => false,
                },
                None => false,
            },
            _ => false,
        },
    }
}


/// The name that a binding form's element holds, which must be an atom.
fn binding_name(error_log: &mut Vec<Diagnostic>, t: &Value) -> (r: Option<String>)
    ensures
        final(error_log)@ == old(error_log)@ + name_diags(*t),
        r is Some <==> t is Atom,
        r is Some ==> *t == Value::Atom(r->Some_0),
{
    match t {
        Value::Atom(x) => {
            assert(error_log@ =~= error_log@ + name_diags(*t));
            Some(x.clone())
        },
        _ => {
            error_log.push(Diagnostic::NotIdentifier);
            None
        },
    }
}

/// Builds elements `start..` of a form, all of them, in order.
#[verifier::loop_isolation(false)]
fn build_list(error_log: &mut Vec<Diagnostic>, items: &Vec<Value>, start: usize) -> (r: Option<Vec<SyntaxTree>>)
    requires
        start <= items@.len(),
    ensures
        final(error_log)@ == old(error_log)@ + build_from(items@, start as int, true, Seq::empty()).1,
        r is Some <==> build_from(items@, start as int, true, Seq::empty()).0,
        r is Some ==> builds_all(items@, start as int, r->Some_0@),
    decreases items@, 0int,
{
    let ghost base = error_log@;
    let ghost mut acc: Seq<Diagnostic> = Seq::empty();
    let mut ok = true;
    let mut out: Vec<SyntaxTree> = Vec::new();
    let mut i = start;
    assert(error_log@ =~= base + acc);
    while i < items.len()
        invariant
            start <= i <= items@.len(),
            error_log@ == base + acc,
            build_from(items@, i as int, ok, acc) == build_from(items@, start as int, true, Seq::empty()),
            ok ==> out@.len() == i - start && forall|j: int|
                0 <= j < out@.len() ==> builds(items@[j + start], #[trigger] out@[j]),
        decreases items.len() - i,
    {
        proof {
            assert(decreases_to!(items@ => items@[i as int]));
        }
        let r = into_syntax_tree(error_log, &items[i]);
        proof {
            acc = acc + build(items@[i as int]).1;
        }
        match r {
            Some(x) => {
                if ok {
                    out.push(x);
                }
            },
            None => {
                ok = false;
            },
        }
        i += 1;
    }
    if ok {
        Some(out)
    } else {
        None
    }
}

/// Builds the syntax tree of `tree`, appending every diagnostic found to
/// `error_log`.
pub fn into_syntax_tree(error_log: &mut Vec<Diagnostic>, tree: &Value) -> (r: Option<SyntaxTree>)
    ensures
        final(error_log)@ == old(error_log)@ + build(*tree).1,
        r is Some <==> build(*tree).0,
        r is Some ==> builds(*tree, r->Some_0),
    decreases tree, 1int,
{
    match tree {
        Value::Atom(x) => {
            assert(error_log@ =~= error_log@ + build(*tree).1);
            Some(SyntaxTree::Ident(x.clone()))
        },
        Value::Int64(n) => {
            assert(error_log@ =~= error_log@ + build(*tree).1);
            Some(SyntaxTree::LiteralInt64(*n))
        },
        Value::Array(items) => build_form(error_log, tree),
    }
}

/// Builds a form: a list whose head names what it is.
#[verifier::rlimit(40)]
fn build_form(error_log: &mut Vec<Diagnostic>, tree: &Value) -> (r: Option<SyntaxTree>)
    requires
        *tree is Array,
    ensures
        final(error_log)@ == old(error_log)@ + build(*tree).1,
        r is Some <==> build(*tree).0,
        r is Some ==> builds(*tree, r->Some_0),
    decreases tree, 0int,
{
    let ghost base = error_log@;
    let items = match tree {
        Value::Array(items) => items,
        _ => {
            return None;
        },
    };
    proof {
        assert(decreases_to!(*tree => (*tree)->Array_0));
        assert(decreases_to!(*items => items@));
    }
    if items.len() == 0 {
        error_log.push(Diagnostic::EmptyForm);
        return None;
    }
    let head = match &items[0] {
        Value::Atom(h) => h,
        _ => {
            error_log.push(Diagnostic::NotCallable);
            return None;
        },
    };
    let k = match keyword(head) {
        Some(k) => k,
        None => {
            error_log.push(Diagnostic::UnknownHead(head.clone()));
            return None;
        },
    };
    if !arity_ok(k, items.len()) {
        error_log.push(Diagnostic::WrongArity(head.clone()));
        return None;
    }
    match k {
        Keyword::Let | Keyword::Var => {
            proof {
                assert(decreases_to!(items@ => items@[1]));
                assert(decreases_to!(items@ => items@[2]));
                assert(decreases_to!(items@ => items@[3]));
            }
            let name = binding_name(error_log, &items[1]);
            let value = into_syntax_tree(error_log, &items[2]);
            let body = into_syntax_tree(error_log, &items[3]);
            assert(error_log@ =~= base + build(*tree).1);
            match (name, value, body) {
                (Some(name), Some(value), Some(body)) => if matches!(k, Keyword::Let) {
                    Some(SyntaxTree::LetVal(name, Box::new(value), Box::new(body)))
                } else {
                    Some(SyntaxTree::LetType(name, Box::new(value), Box::new(body)))
                },
                _ => None,
            }
        },
        Keyword::Assign => {
            proof {
                assert(decreases_to!(items@ => items@[1]));
                assert(decreases_to!(items@ => items@[2]));
            }
            let name = binding_name(error_log, &items[1]);
            let value = into_syntax_tree(error_log, &items[2]);
            assert(error_log@ =~= base + build(*tree).1);
            match (name, value) {
                (Some(name), Some(value)) => Some(SyntaxTree::Assign(name, Box::new(value))),
                _ => None,
            }
        },
        Keyword::ArrayT => {
            proof {
                assert(decreases_to!(items@ => items@[1]));
            }
            let inner = into_syntax_tree(error_log, &items[1]);
            match inner {
                Some(inner) => Some(SyntaxTree::LiteralArrayType(Box::new(inner))),
                None => None,
            }
        },
        Keyword::ArrayGet => {
            proof {
                assert(decreases_to!(items@ => items@[1]));
                assert(decreases_to!(items@ => items@[2]));
            }
            let index = into_syntax_tree(error_log, &items[1]);
            let array = into_syntax_tree(error_log, &items[2]);
            assert(error_log@ =~= base + build(*tree).1);
            match (array, index) {
                (Some(array), Some(index)) => Some(SyntaxTree::ArrayGet(Box::new(array), Box::new(index))),
                _ => None,
            }
        },
        Keyword::ArraySet => {
            proof {
                assert(decreases_to!(items@ => items@[1]));
                assert(decreases_to!(items@ => items@[2]));
                assert(decreases_to!(items@ => items@[3]));
            }
            let index = into_syntax_tree(error_log, &items[1]);
            let array = into_syntax_tree(error_log, &items[2]);
            let value = into_syntax_tree(error_log, &items[3]);
            assert(error_log@ =~= base + build(*tree).1);
            match (array, index, value) {
                (Some(array), Some(index), Some(value)) => Some(
                    SyntaxTree::ArraySet(Box::new(array), Box::new(index), Box::new(value)),
                ),
                _ => None,
            }
        },
        Keyword::Sequence | Keyword::Array | Keyword::Op(_) => {
            let out = build_list(error_log, items, 1);
            match out {
                Some(v) => match k {
                    Keyword::Sequence => Some(SyntaxTree::Sequence(v)),
                    Keyword::Op(op) => Some(SyntaxTree::Arithmetic(op, v)),
                    _ => Some(SyntaxTree::LiteralArray(v)),
                },
                None => None,
            }
        },
    }
}


/// A token tree that does not build reports at least one diagnostic.
pub proof fn lemma_build_failure_reported(t: Value)
    ensures
        !build(t).0 ==> build(t).1.len() > 0,
    decreases t, 0int,
{
    if let Value::Array(items) = t {
        if items@.len() > 0 {
            if let Value::Atom(h) = items@[0] {
                if let Some(k) = spec_keyword(h@) {
                    if spec_arity_ok(k, items@.len() as int) {
                        assert(decreases_to!(t => t->Array_0));
                        match k {
                            Keyword::Let | Keyword::Var => {
                                lemma_build_failure_reported(items@[2]);
                                lemma_build_failure_reported(items@[3]);
                            },
                            Keyword::Assign => {
                                lemma_build_failure_reported(items@[2]);
                            },
                            Keyword::ArrayT => {
                                lemma_build_failure_reported(items@[1]);
                            },
                            Keyword::ArrayGet => {
                                lemma_build_failure_reported(items@[1]);
                                lemma_build_failure_reported(items@[2]);
                            },
                            Keyword::ArraySet => {
                                lemma_build_failure_reported(items@[1]);
                                lemma_build_failure_reported(items@[2]);
                                lemma_build_failure_reported(items@[3]);
                            },
                            _ => {
                                lemma_build_from_reported(items@, 1, true, Seq::empty());
                            },
                        }
                    }
                }
            }
        }
    }
}

proof fn lemma_build_from_reported(items: Seq<Value>, i: int, ok: bool, acc: Seq<Diagnostic>)
    requires
        !ok ==> acc.len() > 0,
    ensures
        build_from(items, i, ok, acc).1.len() >= acc.len(),
        !build_from(items, i, ok, acc).0 ==> build_from(items, i, ok, acc).1.len() > 0,
    decreases items, items.len() - i,
{
    if 0 <= i < items.len() {
        lemma_build_failure_reported(items[i]);
        let (b, d) = build(items[i]);
        lemma_build_from_reported(items, i + 1, ok && b, acc + d);
    }
}

impl SyntaxTree {
    /// The syntax tree of a whole token tree, or every diagnostic found.
    pub fn try_from(tree: &Value) -> (r: Result<SyntaxTree, Vec<Diagnostic>>)
        ensures
            match r {
                Ok(s) => build(*tree).0 && builds(*tree, s),
                Err(d) => !build(*tree).0 && d@ == build(*tree).1 && d@.len() > 0,
            },
    {
        let mut error_log: Vec<Diagnostic> = Vec::new();
        let r = into_syntax_tree(&mut error_log, tree);
        proof {
            lemma_build_failure_reported(*tree);
        }
        assert(error_log@ =~= build(*tree).1);
        match r {
            Some(s) => Ok(s),
            None => Err(error_log),
        }
    }
}

} // verus!
