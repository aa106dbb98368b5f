//! The type checker: expressions to typed trees in which every variable is
//! resolved to a slot, collecting every independent diagnostic in one pass.

use crate::diagnostic::Diagnostic;
use crate::interpreter::{TypeInfo, TypedOp, TypedTree, Value};
use crate::syntax_tree::{ArithmeticOp, SyntaxTree};
use vstd::prelude::*;
use vstd::string::*;

verus! {

/// A name in scope and its type; `None` marks a binding whose value failed
/// to check, so that uses of it are not reported again.
pub type Binding = (Seq<char>, Option<TypeInfo>);

/// What checking an expression yields: its type, or `None` on failure, and
/// the diagnostics that it reports, in order.
pub type Checked = (Option<TypeInfo>, Seq<Diagnostic>);

/// The slot of the innermost binding of `name`.
pub open spec fn lookup(scope: Seq<Binding>, name: Seq<char>) -> Option<int>
    decreases scope.len(),
{
    if scope.len() == 0 {
        None
    } else if scope.last().0 == name {
        Some(scope.len() - 1)
    } else {
        lookup(scope.drop_last(), name)
    }
}

/// Whether a check yielded the integer type.
pub open spec fn is_int64(t: Option<TypeInfo>) -> bool {
    t == Some(TypeInfo::Int64)
}

/// The static type of `s` in `scope`, with the diagnostics found on the way.
/// Independent sub-expressions are all checked, so that one pass reports as
/// much as it can; the form fails if any part of it failed.
pub open spec fn check(s: SyntaxTree, scope: Seq<Binding>) -> Checked
    decreases s, 0int,
{
    match s {
        SyntaxTree::Ident(name) => match lookup(scope, name@) {
            None => (None, seq![Diagnostic::UnknownVariable(name)]),
            Some(i) => (scope[i].1, Seq::empty()),
        },
        SyntaxTree::LetVal(name, val, body) => {
            let (tv, d1) = check(*val, scope);
            let (tb, d2) = check(*body, scope.push((name@, tv)));
            (if tv is Some { tb } else { None }, d1 + d2)
        },
        SyntaxTree::LetType(name, texpr, body) => {
            let (tt, d1) = check(*texpr, scope);
            let (var_type, d2) = match tt {
                Some(TypeInfo::Type(inner)) => (Some(*inner), Seq::empty()),
                Some(other) => (None, seq![Diagnostic::NotAType(other)]),
                None => (None, Seq::empty()),
            };
            let (tb, d3) = check(*body, scope.push((name@, var_type)));
            (if var_type is Some { tb } else { None }, d1 + d2 + d3)
        },
        SyntaxTree::Sequence(items) => if items@.len() == 0 {
            (None, seq![Diagnostic::EmptyOperands])
        } else {
            check_seq(items@, 0, scope, true, TypeInfo::Unit, Seq::empty())
        },
        SyntaxTree::Assign(name, val) => {
            let (tv, d1) = check(*val, scope);
            match lookup(scope, name@) {
                None => (None, d1.push(Diagnostic::UndeclaredVariable(name))),
                Some(i) => match (scope[i].1, tv) {
                    (Some(expected), Some(found)) => if expected == found {
                        (Some(TypeInfo::Unit), d1)
                    } else {
                        (None, d1.push(Diagnostic::TypeMismatch { expected, found }))
                    },
                    _ => (None, d1),
                },
            }
        },
        SyntaxTree::LiteralInt64(_) => (Some(TypeInfo::Int64), Seq::empty()),
        SyntaxTree::LiteralArray(items) => if items@.len() == 0 {
            (Some(TypeInfo::Array(Box::new(TypeInfo::Unit))), Seq::empty())
        } else {
            let (t0, d0) = check(items@[0], scope);
            check_array(items@, 1, scope, t0 is Some, t0, d0)
        },
        SyntaxTree::LiteralArrayType(inner) => {
            let (ti, d1) = check(*inner, scope);
            match ti {
                Some(TypeInfo::Type(t)) => (Some(TypeInfo::Type(Box::new(TypeInfo::Array(t)))), d1),
                Some(other) => (None, d1.push(Diagnostic::NotAType(other))),
                None => (None, d1),
            }
        },
        SyntaxTree::Arithmetic(_, items) => if items@.len() < 2 {
            (None, seq![Diagnostic::TooFewOperands])
        } else {
            check_arith(items@, 0, scope, true, Seq::empty())
        },
        SyntaxTree::ArrayGet(array, index) => {
            let (ti, d1) = check(*index, scope);
            let (ta, d2) = check(*array, scope);
            let (elem, d3) = match ta {
                Some(TypeInfo::Array(e)) => (Some(*e), Seq::empty()),
                Some(other) => (None, seq![Diagnostic::NotAnArray(other)]),
                None => (None, Seq::empty()),
            };
            let d4 = index_diags(ti);
            (if elem is Some && is_int64(ti) { elem } else { None }, d1 + d2 + d3 + d4)
        },
        SyntaxTree::ArraySet(array, index, val) => {
            let (ti, d1) = check(*index, scope);
            let (tv, d2) = check(*val, scope);
            let (elem, d3) = target_elem(*array, scope);
            let d4 = index_diags(ti);
            let (ok5, d5) = match (elem, tv) {
                (Some(e), Some(v)) => if e == v {
                    (true, Seq::empty())
                } else {
                    (false, seq![Diagnostic::TypeMismatch { expected: e, found: v }])
                },
                _ => (false, Seq::empty()),
            };
            (if ok5 && is_int64(ti) { Some(TypeInfo::Unit) } else { None }, d1 + d2 + d3 + d4 + d5)
        },
    }
}

/// Diagnostics for an index whose type is `ti`.
pub open spec fn index_diags(ti: Option<TypeInfo>) -> Seq<Diagnostic> {
    match ti {
        Some(TypeInfo::Int64) => Seq::empty(),
        Some(other) => seq![Diagnostic::TypeMismatch { expected: TypeInfo::Int64, found: other }],
        None => Seq::empty(),
    }
}

/// The element type of the array that `array-set` writes, which must be a
/// variable holding an array.
pub open spec fn target_elem(array: SyntaxTree, scope: Seq<Binding>) -> Checked {
    match array {
        SyntaxTree::Ident(name) => match lookup(scope, name@) {
            None => (None, seq![Diagnostic::UnknownVariable(name)]),
            Some(i) => match scope[i].1 {
                Some(TypeInfo::Array(e)) => (Some(*e), Seq::empty()),
                Some(other) => (None, seq![Diagnostic::NotAnArray(other)]),
                None => (None, Seq::empty()),
            },
        },
        _ => (None, seq![Diagnostic::NotAssignable]),
    }
}

/// Elements `i..` of a sequence; `last` is the type of the one before.
pub open spec fn check_seq(items: Seq<SyntaxTree>, i: int, scope: Seq<Binding>, ok: bool, last: TypeInfo, acc: Seq<Diagnostic>) -> Checked
    decreases items, items.len() - i,
{
    if i < 0 || i >= items.len() {
        (if ok { Some(last) } else { None }, acc)
    } else {
        let (t, d) = check(items[i], scope);
        match t {
            Some(t) => check_seq(items, i + 1, scope, ok, t, acc + d),
            None => check_seq(items, i + 1, scope, false, last, acc + d),
        }
    }
}

/// Elements `i..` of an array literal, each held to the type of the first.
pub open spec fn check_array(items: Seq<SyntaxTree>, i: int, scope: Seq<Binding>, ok: bool, first: Option<TypeInfo>, acc: Seq<Diagnostic>) -> Checked
    decreases items, items.len() - i,
{
    if i < 0 || i >= items.len() {
        (if ok && first is Some { Some(TypeInfo::Array(Box::new(first->Some_0))) } else { None }, acc)
    } else {
        let (t, d) = check(items[i], scope);
        match (first, t) {
            (Some(f), Some(t)) => if t == f {
                check_array(items, i + 1, scope, ok, first, acc + d)
            } else {
                check_array(items, i + 1, scope, false, first, (acc + d).push(Diagnostic::TypeMismatch { expected: f, found: t }))
            },
            _ => check_array(items, i + 1, scope, false, first, acc + d),
        }
    }
}

/// Operands `i..` of an arithmetic form, each of which must be an integer.
pub open spec fn check_arith(items: Seq<SyntaxTree>, i: int, scope: Seq<Binding>, ok: bool, acc: Seq<Diagnostic>) -> Checked
    decreases items, items.len() - i,
{
    if i < 0 || i >= items.len() {
        (if ok { Some(TypeInfo::Int64) } else { None }, acc)
    } else {
        let (t, d) = check(items[i], scope);
        match t {
            Some(TypeInfo::Int64) => check_arith(items, i + 1, scope, ok, acc + d),
            Some(other) => check_arith(items, i + 1, scope, false, (acc + d).push(Diagnostic::TypeMismatch { expected: TypeInfo::Int64, found: other })),
            None => check_arith(items, i + 1, scope, false, acc + d),
        }
    }
}


/// `t` is the checked form of `s` in `scope`: every variable resolved to the
/// slot of its innermost binding, and every node annotated with its type.
pub open spec fn elaborates(s: SyntaxTree, scope: Seq<Binding>, t: TypedTree) -> bool
    decreases s,
{
    match s {
        SyntaxTree::Ident(name) => match t.1 {
            TypedOp::LocalGet(slot) => lookup(scope, name@) == Some(slot as int) && scope[slot as int].1
                == Some(t.0),
            _ => false,
        },
        SyntaxTree::LetVal(name, val, body) => match t.1 {
            TypedOp::LocalVar(init, b) => elaborates(*val, scope, *init) && elaborates(
                *body,
                scope.push((name@, Some(init.0))),
                *b,
            ) && t.0 == b.0,
            _ => false,
        },
        SyntaxTree::LetType(name, texpr, body) => match t.1 {
            TypedOp::LocalVar(init, b) => check(*texpr, scope).0 == Some(
                TypeInfo::Type(Box::new(init.0)),
            ) && (match init.1 {
                TypedOp::Const(v) => v@ == init.0.spec_zero(),
                _ => false,
            }) && elaborates(*body, scope.push((name@, Some(init.0))), *b) && t.0 == b.0,
            _ => false,
        },
        SyntaxTree::Sequence(items) => match t.1 {
            TypedOp::Sequence(ts) => items@.len() > 0 && ts@.len() == items@.len() && (forall|j: int|
                0 <= j < items@.len() ==> elaborates(items@[j], scope, #[trigger] ts@[j])) && t.0
                == ts@.last().0,
            _ => false,
        },
        SyntaxTree::Assign(name, val) => match (lookup(scope, name@), t.1) {
            (Some(i), TypedOp::LocalSet(slot, v)) => slot == i && scope[i].1 == Some(v.0)
                && elaborates(*val, scope, *v) && t.0 == TypeInfo::Unit,
            _ => false,
        },
        SyntaxTree::LiteralInt64(n) => t.0 == TypeInfo::Int64 && t.1 == TypedOp::Const(
            Value::Int64(n),
        ),
        SyntaxTree::LiteralArray(items) => match t.1 {
            TypedOp::Array(ts) => ts@.len() == items@.len() && (forall|j: int|
                0 <= j < items@.len() ==> elaborates(items@[j], scope, #[trigger] ts@[j])) && if items@.len()
                == 0 {
                t.0 == TypeInfo::Array(Box::new(TypeInfo::Unit))
            } else {
                t.0 == TypeInfo::Array(Box::new(ts@[0].0)) && forall|j: int|
                    0 <= j < ts@.len() ==> (#[trigger] ts@[j]).0 == ts@[0].0
            },
            _ => false,
        },
        SyntaxTree::LiteralArrayType(inner) => match t.1 {
            TypedOp::ArrayT(it) => elaborates(*inner, scope, *it) && match it.0 {
                TypeInfo::Type(u) => t.0 == TypeInfo::Type(Box::new(TypeInfo::Array(u))),
                _ => false,
            },
            _ => false,
        },
        SyntaxTree::Arithmetic(op, items) => match t.1 {
            TypedOp::Arithmetic(op2, ts) => op2 == op && items@.len() >= 2 && ts@.len()
                == items@.len() && (forall|j: int|
                0 <= j < items@.len() ==> elaborates(items@[j], scope, #[trigger] ts@[j])) && (
            forall|j: int| 0 <= j < ts@.len() ==> (#[trigger] ts@[j]).0 == TypeInfo::Int64)
                && t.0 == TypeInfo::Int64,
            _ => false,
        },
        SyntaxTree::ArrayGet(array, index) => match t.1 {
            TypedOp::ArrayGet(ta, ti) => elaborates(*array, scope, *ta) && elaborates(
                *index,
                scope,
                *ti,
            ) && ti.0 == TypeInfo::Int64 && ta.0 == TypeInfo::Array(Box::new(t.0)),
            _ => false,
        },
        SyntaxTree::ArraySet(array, index, val) => match (*array, t.1) {
            (SyntaxTree::Ident(name), TypedOp::ArraySet(slot, ti, tv)) => lookup(scope, name@)
                == Some(slot as int) && scope[slot as int].1 == Some(
                TypeInfo::Array(Box::new(tv.0)),
            ) && elaborates(*index, scope, *ti) && ti.0 == TypeInfo::Int64 && elaborates(
                *val,
                scope,
                *tv,
            ) && t.0 == TypeInfo::Unit,
            _ => false,
        },
    }
}

/// The checker's state: the diagnostics found so far and the names in scope,
/// innermost last. A name's slot is its position.
#[derive(Debug)]
pub struct TypeContext {
    pub error_log: Vec<Diagnostic>,
    pub variables: Vec<(String, Option<TypeInfo>)>,
}

/// The model of the checker's scope: each name's text and type.
pub open spec fn scope_view(vars: Seq<(String, Option<TypeInfo>)>) -> Seq<Binding> {
    Seq::new(vars.len(), |i: int| (vars[i].0@, vars[i].1))
}

impl TypeContext {
    pub open spec fn scope(&self) -> Seq<Binding> {
        scope_view(self.variables@)
    }
}

/// The slot of the innermost binding of `name`, searching from the top.
fn find_binding(vars: &Vec<(String, Option<TypeInfo>)>, name: &String) -> (r: Option<usize>)
    ensures
        r is None ==> lookup(scope_view(vars@), name@) is None,
        r is Some ==> lookup(scope_view(vars@), name@) == Some(r->Some_0 as int) && r->Some_0
            < vars@.len(),
{
    let ghost scope = scope_view(vars@);
    let mut i: usize = vars.len();
    assert(scope.take(i as int) =~= scope);
    while i > 0
        invariant
            i <= vars@.len(),
            scope == scope_view(vars@),
            lookup(scope, name@) == lookup(scope.take(i as int), name@),
        decreases i,
    {
        assert(scope.take(i as int).drop_last() =~= scope.take(i - 1));
        if vars[i - 1].0 == *name {
            return Some(i - 1);
        }
        i -= 1;
    }
    None
}

/// A copy of an optional type.
fn duplicate_opt(t: &Option<TypeInfo>) -> (r: Option<TypeInfo>)
    ensures
        r == *t,
{
    match t {
        Some(x) => Some(x.duplicate()),
        None => None,
    }
}


/// What checking `tree` does to the checker's state and yields.
pub open spec fn check_post(old_ctx: TypeContext, new_ctx: TypeContext, tree: SyntaxTree, r: Option<TypedTree>) -> bool {
    &&& new_ctx.variables@ == old_ctx.variables@
    &&& new_ctx.error_log@ == old_ctx.error_log@ + check(tree, old_ctx.scope()).1
    &&& (r is Some <==> check(tree, old_ctx.scope()).0 is Some)
    &&& (r is Some ==> elaborates(tree, old_ctx.scope(), r->Some_0) && check(tree, old_ctx.scope()).0
        == Some(r->Some_0.0))
}

/// Checks `tree` in the scope of `ctx`, appending every diagnostic found to
/// its log. The scope is left as it was found, on success and on failure.
pub fn into_typed_tree(ctx: &mut TypeContext, tree: &SyntaxTree) -> (r: Option<TypedTree>)
    ensures
        final(ctx).variables@ == old(ctx).variables@,
        final(ctx).error_log@ == old(ctx).error_log@ + check(*tree, old(ctx).scope()).1,
        r is Some <==> check(*tree, old(ctx).scope()).0 is Some,
        r is Some ==> elaborates(*tree, old(ctx).scope(), r->Some_0) && check(
            *tree,
            old(ctx).scope(),
        ).0 == Some(r->Some_0.0),
    decreases tree, 1int,
{
    let ghost scope = ctx.scope();
    let ghost vars0 = ctx.variables@;
    let ghost base = ctx.error_log@;
    match tree {
        SyntaxTree::Ident(name) => {
            match find_binding(&ctx.variables, name) {
                None => {
                    ctx.error_log.push(Diagnostic::UnknownVariable(name.clone()));
                    assert(ctx.error_log@ =~= base + check(*tree, scope).1);
                    None
                },
                Some(i) => {
                    assert(ctx.error_log@ =~= base + check(*tree, scope).1);
                    match &ctx.variables[i].1 {
                        None => None,
                        Some(t) => Some(TypedTree(t.duplicate(), TypedOp::LocalGet(i))),
                    }
                },
            }
        },
        SyntaxTree::LetVal(..) => check_let_val(ctx, tree),
        SyntaxTree::LetType(..) => check_let_type(ctx, tree),
        SyntaxTree::Sequence(..) => check_sequence(ctx, tree),
        SyntaxTree::Assign(..) => check_assign(ctx, tree),
        SyntaxTree::LiteralInt64(n) => Some(TypedTree(TypeInfo::Int64, TypedOp::Const(Value::Int64(*n)))),
        SyntaxTree::LiteralArray(..) => check_array_literal(ctx, tree),
        SyntaxTree::LiteralArrayType(..) => check_array_type(ctx, tree),
        SyntaxTree::Arithmetic(..) => check_arithmetic(ctx, tree),
        SyntaxTree::ArrayGet(..) => check_array_get(ctx, tree),
        SyntaxTree::ArraySet(..) => check_array_set(ctx, tree),
    }
}

#[verifier::loop_isolation(false)]
fn check_let_val(ctx: &mut TypeContext, tree: &SyntaxTree) -> (r: Option<TypedTree>)
    requires
        *tree is LetVal,
    ensures
        check_post(*old(ctx), *final(ctx), *tree, r),
    decreases tree, 0int,
{
    let ghost scope = ctx.scope();
    let ghost vars0 = ctx.variables@;
    let ghost base = ctx.error_log@;
    match tree {
        SyntaxTree::LetVal(name, val, body) => {
        let val_opt = into_typed_tree(ctx, val);
        let var_type = match &val_opt {
            Some(v) => Some(v.0.duplicate()),
            None => None,
        };
        ctx.variables.push((name.clone(), var_type));
        assert(ctx.scope() =~= scope.push((name@, check(**val, scope).0)));
        let body_opt = into_typed_tree(ctx, body);
        ctx.variables.pop();
        assert(ctx.variables@ =~= vars0);
        assert(ctx.error_log@ =~= base + check(*tree, scope).1);
        match (val_opt, body_opt) {
            (Some(v), Some(b)) => {
                let ty = b.0.duplicate();
                Some(TypedTree(ty, TypedOp::LocalVar(Box::new(v), Box::new(b))))
            },
            _ => None,
        }
        },
        _ => None,
    }
}

#[verifier::loop_isolation(false)]
fn check_let_type(ctx: &mut TypeContext, tree: &SyntaxTree) -> (r: Option<TypedTree>)
    requires
        *tree is LetType,
    ensures
        check_post(*old(ctx), *final(ctx), *tree, r),
    decreases tree, 0int,
{
    let ghost scope = ctx.scope();
    let ghost vars0 = ctx.variables@;
    let ghost base = ctx.error_log@;
    match tree {
        SyntaxTree::LetType(name, texpr, body) => {
        let t_opt = into_typed_tree(ctx, texpr);
        let var_type: Option<TypeInfo> = match t_opt {
            Some(TypedTree(TypeInfo::Type(inner), _)) => Some(*inner),
            Some(TypedTree(other, _)) => {
                ctx.error_log.push(Diagnostic::NotAType(other));
                None
            },
            None => None,
        };
        ctx.variables.push((name.clone(), duplicate_opt(&var_type)));
        assert(ctx.scope() =~= scope.push((name@, var_type)));
        let body_opt = into_typed_tree(ctx, body);
        ctx.variables.pop();
        assert(ctx.variables@ =~= vars0);
        assert(ctx.error_log@ =~= base + check(*tree, scope).1);
        match (var_type, body_opt) {
            (Some(vt), Some(b)) => {
                let zero = vt.zero();
                let ty = b.0.duplicate();
                Some(
                    TypedTree(
                        ty,
                        TypedOp::LocalVar(Box::new(TypedTree(vt, TypedOp::Const(zero))), Box::new(b)),
                    ),
                )
            },
            _ => None,
        }
        },
        _ => None,
    }
}

#[verifier::loop_isolation(false)]
fn check_sequence(ctx: &mut TypeContext, tree: &SyntaxTree) -> (r: Option<TypedTree>)
    requires
        *tree is Sequence,
    ensures
        check_post(*old(ctx), *final(ctx), *tree, r),
    decreases tree, 0int,
{
    let ghost scope = ctx.scope();
    let ghost vars0 = ctx.variables@;
    let ghost base = ctx.error_log@;
    match tree {
        SyntaxTree::Sequence(items) => {
        if items.len() == 0 {
            ctx.error_log.push(Diagnostic::EmptyOperands);
            assert(ctx.error_log@ =~= base + check(*tree, scope).1);
            return None;
        }
        let mut out: Vec<TypedTree> = Vec::new();
        let mut ok = true;
        let mut last = TypeInfo::Unit;
        let mut i: usize = 0;
        let ghost mut acc: Seq<Diagnostic> = Seq::empty();
        assert(ctx.error_log@ =~= base + acc);
        while i < items.len()
            invariant
                i <= items@.len(),
                ctx.variables@ == vars0,
                ctx.error_log@ == base + acc,
                check_seq(items@, i as int, scope, ok, last, acc) == check(*tree, scope),
                ok ==> out@.len() == i && (forall|j: int|
                    0 <= j < i ==> elaborates(items@[j], scope, #[trigger] out@[j])),
                ok && i > 0 ==> last == out@[i - 1].0,
            decreases items.len() - i,
        {
            let r = into_typed_tree(ctx, &items[i]);
            proof {
                acc = acc + check(items@[i as int], scope).1;
            }
            assert(ctx.error_log@ =~= base + acc);
            match r {
                Some(t) => {
                    last = t.0.duplicate();
                    if ok {
                        out.push(t);
                    }
                },
                None => {
                    ok = false;
                },
            }
            i += 1;
        }
        if ok {
            Some(TypedTree(last, TypedOp::Sequence(out)))
        } else {
            None
        }
        },
        _ => None,
    }
}

#[verifier::loop_isolation(false)]
fn check_assign(ctx: &mut TypeContext, tree: &SyntaxTree) -> (r: Option<TypedTree>)
    requires
        *tree is Assign,
    ensures
        check_post(*old(ctx), *final(ctx), *tree, r),
    decreases tree, 0int,
{
    let ghost scope = ctx.scope();
    let ghost vars0 = ctx.variables@;
    let ghost base = ctx.error_log@;
    match tree {
        SyntaxTree::Assign(name, val) => {
        let tv = into_typed_tree(ctx, val);
        match find_binding(&ctx.variables, name) {
            None => {
                ctx.error_log.push(Diagnostic::UndeclaredVariable(name.clone()));
                assert(ctx.error_log@ =~= base + check(*tree, scope).1);
                None
            },
            Some(i) => match (&ctx.variables[i].1, tv) {
                (Some(expected), Some(v)) => {
                    if expected.same_as(&v.0) {
                        Some(TypedTree(TypeInfo::Unit, TypedOp::LocalSet(i, Box::new(v))))
                    } else {
                        let e = expected.duplicate();
                        ctx.error_log.push(Diagnostic::TypeMismatch { expected: e, found: v.0 });
                        assert(ctx.error_log@ =~= base + check(*tree, scope).1);
                        None
                    }
                },
                _ => None,
            },
        }
        },
        _ => None,
    }
}

#[verifier::loop_isolation(false)]
fn check_array_literal(ctx: &mut TypeContext, tree: &SyntaxTree) -> (r: Option<TypedTree>)
    requires
        *tree is LiteralArray,
    ensures
        check_post(*old(ctx), *final(ctx), *tree, r),
    decreases tree, 0int,
{
    let ghost scope = ctx.scope();
    let ghost vars0 = ctx.variables@;
    let ghost base = ctx.error_log@;
    match tree {
        SyntaxTree::LiteralArray(items) => {
        if items.len() == 0 {
            assert(ctx.error_log@ =~= base + check(*tree, scope).1);
            return Some(
                TypedTree(TypeInfo::Array(Box::new(TypeInfo::Unit)), TypedOp::Array(Vec::new())),
            );
        }
        let first_opt = into_typed_tree(ctx, &items[0]);
        let ghost mut acc: Seq<Diagnostic> = check(items@[0], scope).1;
        let first: Option<TypeInfo> = match &first_opt {
            Some(t) => Some(t.0.duplicate()),
            None => None,
        };
        let mut ok = first.is_some();
        let mut out: Vec<TypedTree> = Vec::new();
        if let Some(t) = first_opt {
            out.push(t);
        }
        let mut i: usize = 1;
        while i < items.len()
            invariant
                1 <= i <= items@.len(),
                ctx.variables@ == vars0,
                ctx.error_log@ == base + acc,
                first == check(items@[0], scope).0,
                check_array(items@, i as int, scope, ok, first, acc) == check(*tree, scope),
                ok ==> first is Some && out@.len() == i && (forall|j: int|
                    0 <= j < i ==> elaborates(items@[j], scope, #[trigger] out@[j])) && (
                forall|j: int| 0 <= j < i ==> (#[trigger] out@[j]).0 == first->Some_0),
            decreases items.len() - i,
        {
            let r = into_typed_tree(ctx, &items[i]);
            proof {
                acc = acc + check(items@[i as int], scope).1;
            }
            match (&first, r) {
                (Some(f), Some(t)) => {
                    if t.0.same_as(f) {
                        if ok {
                            out.push(t);
                        }
                    } else {
                        let d = Diagnostic::TypeMismatch { expected: f.duplicate(), found: t.0 };
                        proof {
                            acc = acc.push(d);
                        }
                        ctx.error_log.push(d);
                        ok = false;
                    }
                },
                _ => {
                    ok = false;
                },
            }
            assert(ctx.error_log@ =~= base + acc);
            i += 1;
        }
        match first {
            Some(f) => if ok {
                Some(TypedTree(TypeInfo::Array(Box::new(f)), TypedOp::Array(out)))
            } else {
                None
            },
            None => None,
        }
        },
        _ => None,
    }
}

#[verifier::loop_isolation(false)]
fn check_array_type(ctx: &mut TypeContext, tree: &SyntaxTree) -> (r: Option<TypedTree>)
    requires
        *tree is LiteralArrayType,
    ensures
        check_post(*old(ctx), *final(ctx), *tree, r),
    decreases tree, 0int,
{
    let ghost scope = ctx.scope();
    let ghost vars0 = ctx.variables@;
    let ghost base = ctx.error_log@;
    match tree {
        SyntaxTree::LiteralArrayType(inner) => {
        match into_typed_tree(ctx, inner) {
            Some(it) => {
                let ty: Option<TypeInfo> = match &it.0 {
                    TypeInfo::Type(u) => Some(
                        TypeInfo::Type(Box::new(TypeInfo::Array(Box::new(u.duplicate())))),
                    ),
                    other => {
                        ctx.error_log.push(Diagnostic::NotAType(other.duplicate()));
                        None
                    },
                };
                assert(ctx.error_log@ =~= base + check(*tree, scope).1);
                match ty {
                    Some(ty) => Some(TypedTree(ty, TypedOp::ArrayT(Box::new(it)))),
                    None => None,
                }
            },
            None => None,
        }
        },
        _ => None,
    }
}

#[verifier::loop_isolation(false)]
fn check_arithmetic(ctx: &mut TypeContext, tree: &SyntaxTree) -> (r: Option<TypedTree>)
    requires
        *tree is Arithmetic,
    ensures
        check_post(*old(ctx), *final(ctx), *tree, r),
    decreases tree, 0int,
{
    let ghost scope = ctx.scope();
    let ghost vars0 = ctx.variables@;
    let ghost base = ctx.error_log@;
    match tree {
        SyntaxTree::Arithmetic(op, items) => {
        if items.len() < 2 {
            ctx.error_log.push(Diagnostic::TooFewOperands);
            assert(ctx.error_log@ =~= base + check(*tree, scope).1);
            return None;
        }
        let mut out: Vec<TypedTree> = Vec::new();
        let mut ok = true;
        let mut i: usize = 0;
        let ghost mut acc: Seq<Diagnostic> = Seq::empty();
        assert(ctx.error_log@ =~= base + acc);
        while i < items.len()
            invariant
                i <= items@.len(),
                ctx.variables@ == vars0,
                ctx.error_log@ == base + acc,
                check_arith(items@, i as int, scope, ok, acc) == check(*tree, scope),
                ok ==> out@.len() == i && (forall|j: int|
                    0 <= j < i ==> elaborates(items@[j], scope, #[trigger] out@[j])) && (
                forall|j: int| 0 <= j < i ==> (#[trigger] out@[j]).0 == TypeInfo::Int64),
            decreases items.len() - i,
        {
            let r = into_typed_tree(ctx, &items[i]);
            proof {
                acc = acc + check(items@[i as int], scope).1;
            }
            match r {
                Some(t) => {
                    match &t.0 {
                        TypeInfo::Int64 => {
                            if ok {
                                out.push(t);
                            }
                        },
                        other => {
                            let d = Diagnostic::TypeMismatch {
                                expected: TypeInfo::Int64,
                                found: other.duplicate(),
                            };
                            proof {
                                acc = acc.push(d);
                            }
                            ctx.error_log.push(d);
                            ok = false;
                        },
                    }
                },
                None => {
                    ok = false;
                },
            }
            assert(ctx.error_log@ =~= base + acc);
            i += 1;
        }
        if ok {
            Some(TypedTree(TypeInfo::Int64, TypedOp::Arithmetic(*op, out)))
        } else {
            None
        }
        },
        _ => None,
    }
}

#[verifier::loop_isolation(false)]
fn check_array_get(ctx: &mut TypeContext, tree: &SyntaxTree) -> (r: Option<TypedTree>)
    requires
        *tree is ArrayGet,
    ensures
        check_post(*old(ctx), *final(ctx), *tree, r),
    decreases tree, 0int,
{
    let ghost scope = ctx.scope();
    let ghost vars0 = ctx.variables@;
    let ghost base = ctx.error_log@;
    match tree {
        SyntaxTree::ArrayGet(array, index) => {
        let ti = into_typed_tree(ctx, index);
        let ta = into_typed_tree(ctx, array);
        let elem: Option<TypeInfo> = match &ta {
            Some(a) => match &a.0 {
                TypeInfo::Array(e) => Some(e.duplicate()),
                other => {
                    ctx.error_log.push(Diagnostic::NotAnArray(other.duplicate()));
                    None
                },
            },
            None => None,
        };
        let idx_ok = check_index(ctx, &ti);
        assert(ctx.error_log@ =~= base + check(*tree, scope).1);
        match (elem, ta, ti) {
            (Some(e), Some(a), Some(x)) => if idx_ok {
                Some(TypedTree(e, TypedOp::ArrayGet(Box::new(a), Box::new(x))))
            } else {
                None
            },
            _ => None,
        }
        },
        _ => None,
    }
}

#[verifier::loop_isolation(false)]
fn check_array_set(ctx: &mut TypeContext, tree: &SyntaxTree) -> (r: Option<TypedTree>)
    requires
        *tree is ArraySet,
    ensures
        check_post(*old(ctx), *final(ctx), *tree, r),
    decreases tree, 0int,
{
    let ghost scope = ctx.scope();
    let ghost vars0 = ctx.variables@;
    let ghost base = ctx.error_log@;
    match tree {
        SyntaxTree::ArraySet(array, index, val) => {
        let ti = into_typed_tree(ctx, index);
        let tv = into_typed_tree(ctx, val);
        let ghost log2 = ctx.error_log@;
        let target: Option<(usize, TypeInfo)> = match &**array {
            SyntaxTree::Ident(name) => match find_binding(&ctx.variables, name) {
                None => {
                    ctx.error_log.push(Diagnostic::UnknownVariable(name.clone()));
                    None
                },
                Some(i) => match &ctx.variables[i].1 {
                    Some(TypeInfo::Array(e)) => Some((i, e.duplicate())),
                    Some(other) => {
                        ctx.error_log.push(Diagnostic::NotAnArray(other.duplicate()));
                        None
                    },
                    None => None,
                },
            },
            _ => {
                ctx.error_log.push(Diagnostic::NotAssignable);
                None
            },
        };
        let ghost log3 = ctx.error_log@;
        assert(log3 =~= log2 + target_elem(**array, scope).1);
        let idx_ok = check_index(ctx, &ti);
        let ok5 = match (&target, &tv) {
            (Some((_, e)), Some(v)) => {
                if v.0.same_as(e) {
                    true
                } else {
                    ctx.error_log.push(
                        Diagnostic::TypeMismatch { expected: e.duplicate(), found: v.0.duplicate() },
                    );
                    false
                }
            },
            _ => false,
        };
        assert(ctx.error_log@ =~= base + check(*tree, scope).1);
        if ok5 && idx_ok {
            match (target, ti, tv) {
                (Some((slot, _)), Some(x), Some(v)) => Some(
                    TypedTree(TypeInfo::Unit, TypedOp::ArraySet(slot, Box::new(x), Box::new(v))),
                ),
                _ => None,
            }
        } else {
            None
        }
        },
        _ => None,
    }
}
/// Reports an index that is not an integer; true when it is one.
fn check_index(ctx: &mut TypeContext, ti: &Option<TypedTree>) -> (r: bool)
    ensures
        final(ctx).variables@ == old(ctx).variables@,
        final(ctx).error_log@ == old(ctx).error_log@ + index_diags(
            match ti {
                Some(t) => Some(t.0),
                None => None,
            },
        ),
        r == (ti is Some && ti->Some_0.0 == TypeInfo::Int64),
{
    match ti {
        Some(x) => match &x.0 {
            TypeInfo::Int64 => {
                assert(ctx.error_log@ =~= ctx.error_log@ + Seq::<Diagnostic>::empty());
                true
            },
            other => {
                let ghost before = ctx.error_log@;
                ctx.error_log.push(
                    Diagnostic::TypeMismatch { expected: TypeInfo::Int64, found: other.duplicate() },
                );
                assert(ctx.error_log@ =~= before + index_diags(Some(x.0)));
                false
            },
        },
        None => {
            assert(ctx.error_log@ =~= ctx.error_log@ + Seq::<Diagnostic>::empty());
            false
        },
    }
}


/// Every name in `scope` has a type: no earlier failure is recorded in it.
pub open spec fn all_typed(scope: Seq<Binding>) -> bool {
    forall|i: int| 0 <= i < scope.len() ==> (#[trigger] scope[i]).1 is Some
}

/// A name that is found is found at the last slot of the scope that
/// carries it.
pub proof fn lemma_lookup_in_range(scope: Seq<Binding>, name: Seq<char>)
    ensures
        lookup(scope, name) matches Some(i) ==> 0 <= i < scope.len() && scope[i].0 == name,
        lookup(scope, name) matches Some(i) ==> forall|k: int|
            i < k < scope.len() ==> (#[trigger] scope[k]).0 != name,
    decreases scope.len(),
{
    if scope.len() > 0 && scope.last().0 != name {
        lemma_lookup_in_range(scope.drop_last(), name);
        if let Some(i) = lookup(scope, name) {
            assert forall|k: int| i < k < scope.len() implies (#[trigger] scope[k]).0 != name by {
                if k < scope.len() - 1 {
                    assert(scope.drop_last()[k] == scope[k]);
                }
            }
        }
    }
}

/// A check that fails in a scope where every name has a type reports at
/// least one diagnostic: no failure goes unexplained.
#[verifier::rlimit(80)]
pub proof fn lemma_failure_is_reported(s: SyntaxTree, scope: Seq<Binding>)
    requires
        all_typed(scope),
        check(s, scope).0 is None,
    ensures
        check(s, scope).1.len() > 0,
    decreases s, 0int,
{
    match s {
        SyntaxTree::Ident(name) => {
            lemma_lookup_in_range(scope, name@);
        },
        SyntaxTree::LetVal(name, val, body) => {
            let (tv, d1) = check(*val, scope);
            if tv is None {
                lemma_failure_is_reported(*val, scope);
            } else {
                assert(all_typed(scope.push((name@, tv))));
                lemma_failure_is_reported(*body, scope.push((name@, tv)));
            }
        },
        SyntaxTree::LetType(name, texpr, body) => {
            let (tt, d1) = check(*texpr, scope);
            if tt is None {
                lemma_failure_is_reported(*texpr, scope);
            } else if let Some(TypeInfo::Type(inner)) = tt {
                assert(all_typed(scope.push((name@, Some(*inner)))));
                lemma_failure_is_reported(*body, scope.push((name@, Some(*inner))));
            }
        },
        SyntaxTree::Sequence(items) => {
            if items@.len() > 0 {
                lemma_seq_reported(items@, 0, scope, true, TypeInfo::Unit, Seq::empty());
            }
        },
        SyntaxTree::Assign(name, val) => {
            lemma_lookup_in_range(scope, name@);
            if check(*val, scope).0 is None {
                lemma_failure_is_reported(*val, scope);
            }
        },
        SyntaxTree::LiteralArray(items) => {
            if items@.len() > 0 {
                let (t0, d0) = check(items@[0], scope);
                if t0 is None {
                    lemma_failure_is_reported(items@[0], scope);
                }
                lemma_array_reported(items@, 1, scope, t0 is Some, t0, d0);
            }
        },
        SyntaxTree::LiteralArrayType(inner) => {
            if check(*inner, scope).0 is None {
                lemma_failure_is_reported(*inner, scope);
            }
        },
        SyntaxTree::Arithmetic(_, items) => {
            if items@.len() >= 2 {
                lemma_arith_reported(items@, 0, scope, true, Seq::empty());
            }
        },
        SyntaxTree::ArrayGet(array, index) => {
            if check(*index, scope).0 is None {
                lemma_failure_is_reported(*index, scope);
            }
            if check(*array, scope).0 is None {
                lemma_failure_is_reported(*array, scope);
            }
        },
        SyntaxTree::ArraySet(array, index, val) => {
            if check(*index, scope).0 is None {
                lemma_failure_is_reported(*index, scope);
            }
            if check(*val, scope).0 is None {
                lemma_failure_is_reported(*val, scope);
            }
            if let SyntaxTree::Ident(name) = *array {
                lemma_lookup_in_range(scope, name@);
            }
        },
        SyntaxTree::LiteralInt64(_) => {},
    }
}

proof fn lemma_seq_reported(items: Seq<SyntaxTree>, i: int, scope: Seq<Binding>, ok: bool, last: TypeInfo, acc: Seq<Diagnostic>)
    requires
        all_typed(scope),
        !ok ==> acc.len() > 0,
    ensures
        check_seq(items, i, scope, ok, last, acc).1.len() >= acc.len(),
        check_seq(items, i, scope, ok, last, acc).0 is None ==> check_seq(items, i, scope, ok, last, acc).1.len() > 0,
    decreases items, items.len() - i,
{
    if 0 <= i < items.len() {
        let (t, d) = check(items[i], scope);
        if t is None {
            lemma_failure_is_reported(items[i], scope);
            lemma_seq_reported(items, i + 1, scope, false, last, acc + d);
        } else {
            lemma_seq_reported(items, i + 1, scope, ok, t->Some_0, acc + d);
        }
    }
}

proof fn lemma_array_reported(items: Seq<SyntaxTree>, i: int, scope: Seq<Binding>, ok: bool, first: Option<TypeInfo>, acc: Seq<Diagnostic>)
    requires
        all_typed(scope),
        !ok ==> acc.len() > 0,
        first is None ==> acc.len() > 0,
    ensures
        check_array(items, i, scope, ok, first, acc).1.len() >= acc.len(),
        check_array(items, i, scope, ok, first, acc).0 is None ==> check_array(items, i, scope, ok, first, acc).1.len() > 0,
    decreases items, items.len() - i,
{
    if 0 <= i < items.len() {
        let (t, d) = check(items[i], scope);
        if t is None {
            lemma_failure_is_reported(items[i], scope);
        }
        match (first, t) {
            (Some(f), Some(t)) => if t == f {
                lemma_array_reported(items, i + 1, scope, ok, first, acc + d);
            } else {
                lemma_array_reported(items, i + 1, scope, false, first, (acc + d).push(Diagnostic::TypeMismatch { expected: f, found: t }));
            },
            _ => lemma_array_reported(items, i + 1, scope, false, first, acc + d),
        }
    }
}

proof fn lemma_arith_reported(items: Seq<SyntaxTree>, i: int, scope: Seq<Binding>, ok: bool, acc: Seq<Diagnostic>)
    requires
        all_typed(scope),
        !ok ==> acc.len() > 0,
    ensures
        check_arith(items, i, scope, ok, acc).1.len() >= acc.len(),
        check_arith(items, i, scope, ok, acc).0 is None ==> check_arith(items, i, scope, ok, acc).1.len() > 0,
    decreases items, items.len() - i,
{
    if 0 <= i < items.len() {
        let (t, d) = check(items[i], scope);
        match t {
            Some(TypeInfo::Int64) => lemma_arith_reported(items, i + 1, scope, ok, acc + d),
            Some(other) => lemma_arith_reported(items, i + 1, scope, false, (acc + d).push(Diagnostic::TypeMismatch { expected: TypeInfo::Int64, found: other })),
            None => {
                lemma_failure_is_reported(items[i], scope);
                lemma_arith_reported(items, i + 1, scope, false, acc + d);
            },
        }
    }
}


/// One mismatch diagnostic, naming both types, for each of the element types
/// `ts[i..]` that differs from `first`.
pub open spec fn mismatches(first: TypeInfo, ts: Seq<TypeInfo>, i: int) -> Seq<Diagnostic>
    decreases ts.len() - i,
{
    if i < 0 || i >= ts.len() {
        Seq::empty()
    } else {
        (if ts[i] == first {
            Seq::empty()
        } else {
            seq![Diagnostic::TypeMismatch { expected: first, found: ts[i] }]
        }) + mismatches(first, ts, i + 1)
    }
}

proof fn lemma_check_array_mismatches(items: Seq<SyntaxTree>, ts: Seq<TypeInfo>, i: int, scope: Seq<Binding>, ok: bool, acc: Seq<Diagnostic>)
    requires
        items.len() == ts.len() >= 1,
        1 <= i <= items.len(),
        forall|j: int| 0 <= j < items.len() ==> check(#[trigger] items[j], scope) == (Some(ts[j]), Seq::<Diagnostic>::empty()),
    ensures
        check_array(items, i, scope, ok, Some(ts[0]), acc).1 == acc + mismatches(ts[0], ts, i),
        check_array(items, i, scope, ok, Some(ts[0]), acc).0 is Some <==> ok && forall|j: int|
            i <= j < ts.len() ==> #[trigger] ts[j] == ts[0],
        check_array(items, i, scope, ok, Some(ts[0]), acc).0 is Some ==> check_array(items, i, scope, ok, Some(ts[0]), acc).0
            == Some(TypeInfo::Array(Box::new(ts[0]))),
    decreases items.len() - i,
{
    if i < items.len() {
        assert(check(items[i], scope) == (Some(ts[i]), Seq::<Diagnostic>::empty()));
        assert(acc + Seq::<Diagnostic>::empty() =~= acc);
        if ts[i] == ts[0] {
            lemma_check_array_mismatches(items, ts, i + 1, scope, ok, acc);
            assert(acc + mismatches(ts[0], ts, i) =~= acc + mismatches(ts[0], ts, i + 1));
        } else {
            let d = Diagnostic::TypeMismatch { expected: ts[0], found: ts[i] };
            lemma_check_array_mismatches(items, ts, i + 1, scope, false, acc.push(d));
            assert(acc.push(d) + mismatches(ts[0], ts, i + 1) =~= acc + mismatches(ts[0], ts, i));
        }
    } else {
        assert(acc + mismatches(ts[0], ts, i) =~= acc);
    }
}

/// An array literal whose elements each check without a diagnostic reports
/// one mismatch, naming both types, for every element whose type differs
/// from the first element's, and checks, as an array of the first element's
/// type, exactly when there is none.
pub proof fn lemma_array_literal_mismatches(s: SyntaxTree, scope: Seq<Binding>, ts: Seq<TypeInfo>)
    requires
        s is LiteralArray,
        s->LiteralArray_0@.len() == ts.len() >= 1,
        forall|j: int| 0 <= j < ts.len() ==> check(#[trigger] s->LiteralArray_0@[j], scope) == (Some(ts[j]), Seq::<Diagnostic>::empty()),
    ensures
        check(s, scope).1 == mismatches(ts[0], ts, 1),
        check(s, scope).0 is Some <==> forall|j: int| 0 <= j < ts.len() ==> #[trigger] ts[j] == ts[0],
        check(s, scope).0 is Some ==> check(s, scope).0 == Some(TypeInfo::Array(Box::new(ts[0]))),
{
    let items = s->LiteralArray_0@;
    assert(check(items[0], scope) == (Some(ts[0]), Seq::<Diagnostic>::empty()));
    lemma_check_array_mismatches(items, ts, 1, scope, true, Seq::empty());
    assert(Seq::<Diagnostic>::empty() + mismatches(ts[0], ts, 1) =~= mismatches(ts[0], ts, 1));
    if forall|j: int| 1 <= j < ts.len() ==> #[trigger] ts[j] == ts[0] {
        assert forall|j: int| 0 <= j < ts.len() implies #[trigger] ts[j] == ts[0] by {
            if j > 0 {
                assert(1 <= j < ts.len());
            }
        }
    }
}

/// The scope a program is checked in: `i64` names the integer type.
pub open spec fn initial_scope() -> Seq<Binding> {
    seq![("i64"@, Some(TypeInfo::Type(Box::new(TypeInfo::Int64))))]
}

impl TypeContext {
    /// A context with an empty log, in which only `i64` is bound.
    pub fn new() -> (r: TypeContext)
        ensures
            r.scope() == initial_scope(),
            r.error_log@ == Seq::<Diagnostic>::empty(),
    {
        let mut variables: Vec<(String, Option<TypeInfo>)> = Vec::new();
        variables.push((String::from_str("i64"), Some(TypeInfo::Type(Box::new(TypeInfo::Int64)))));
        let r = TypeContext { error_log: Vec::new(), variables };
        assert(r.scope() =~= initial_scope());
        r
    }
}

impl TypedTree {
    /// Checks a whole program: its checked form, or every diagnostic found,
    /// of which there is at least one.
    pub fn try_from(tree: &SyntaxTree) -> (r: Result<TypedTree, Vec<Diagnostic>>)
        ensures
            match r {
                Ok(t) => check(*tree, initial_scope()).0 == Some(t.0) && elaborates(
                    *tree,
                    initial_scope(),
                    t,
                ),
                Err(d) => check(*tree, initial_scope()).0 is None && d@ == check(
                    *tree,
                    initial_scope(),
                ).1 && d@.len() > 0,
            },
    {
        let mut ctx = TypeContext::new();
        let r = into_typed_tree(&mut ctx, tree);
        proof {
            assert(all_typed(initial_scope()));
            if r is None {
                lemma_failure_is_reported(*tree, initial_scope());
            }
        }
        assert(ctx.error_log@ =~= check(*tree, initial_scope()).1);
        match r {
            Some(t) => Ok(t),
            None => Err(ctx.error_log),
        }
    }
}

} // verus!
