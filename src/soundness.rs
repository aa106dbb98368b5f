//! Type soundness: a checked program evaluates to a value of its type.

use crate::checker::{all_typed, check, elaborates, initial_scope, lemma_lookup_in_range, lookup, Binding};
use crate::interpreter::{lemma_eval_keeps_len, lemma_eval_keeps_lower_slots, lemma_eval_keeps_spared_slot, spares, writes_from, eval, eval_arith, eval_array, eval_seq, initial_env, apply_op, TypeInfo, TypedOp, TypedTree, ValueView};
use crate::diagnostic::Diagnostic;
use crate::syntax_tree::{ArithmeticOp, SyntaxTree};
use vstd::prelude::*;

verus! {

/// The runtime shape of `v` agrees with the static type `t`: an integer for
/// `Int64`, a type for a type, unit for unit, and for an array type an array
/// each of whose elements agrees with the element type.
pub open spec fn value_matches(v: ValueView, t: TypeInfo) -> bool
    decreases v,
{
    match (v, t) {
        (ValueView::Unit, TypeInfo::Unit) => true,
        (ValueView::Int64(_), TypeInfo::Int64) => true,
        (ValueView::Type(_), TypeInfo::Type(_)) => true,
        (ValueView::Array(items), TypeInfo::Array(e)) => forall|j: int|
            0 <= j < items.len() ==> value_matches(#[trigger] items[j], *e),
        _ => false,
    }
}

/// Every slot whose name has a type holds a value of that shape.
pub open spec fn env_matches(env: Seq<ValueView>, scope: Seq<Binding>) -> bool {
    &&& env.len() == scope.len()
    &&& forall|i: int|
        0 <= i < scope.len() && (#[trigger] scope[i]).1 is Some ==> value_matches(
            env[i],
            scope[i].1->Some_0,
        )
}

pub proof fn lemma_zero_matches(t: TypeInfo)
    ensures
        value_matches(t.spec_zero(), t),
{
}

proof fn lemma_env_push(env: Seq<ValueView>, scope: Seq<Binding>, v: ValueView, b: Binding)
    requires
        env_matches(env, scope),
        b.1 is Some ==> value_matches(v, b.1->Some_0),
    ensures
        env_matches(env.push(v), scope.push(b)),
{
    assert forall|i: int| 0 <= i < scope.push(b).len() && (#[trigger] scope.push(b)[i]).1 is Some implies value_matches(
        env.push(v)[i],
        scope.push(b)[i].1->Some_0,
    ) by {
        if i < scope.len() {
            assert(scope.push(b)[i] == scope[i]);
        }
    }
}

proof fn lemma_env_pop(env: Seq<ValueView>, scope: Seq<Binding>, b: Binding)
    requires
        env_matches(env, scope.push(b)),
    ensures
        env_matches(env.take(scope.len() as int), scope),
{
    assert forall|i: int| 0 <= i < scope.len() && (#[trigger] scope[i]).1 is Some implies value_matches(
        env.take(scope.len() as int)[i],
        scope[i].1->Some_0,
    ) by {
        assert(scope.push(b)[i] == scope[i]);
    }
}

proof fn lemma_env_update(env: Seq<ValueView>, scope: Seq<Binding>, slot: int, v: ValueView)
    requires
        env_matches(env, scope),
        0 <= slot < scope.len(),
        scope[slot].1 is Some ==> value_matches(v, scope[slot].1->Some_0),
    ensures
        env_matches(env.update(slot, v), scope),
{
    assert forall|i: int| 0 <= i < scope.len() && (#[trigger] scope[i]).1 is Some implies value_matches(
        env.update(slot, v)[i],
        scope[i].1->Some_0,
    ) by {
    }
}

/// A fault that a checked program can meet at run time: division by zero or
/// an index out of bounds. Nothing else can stop it.
pub open spec fn is_runtime_fault(e: Diagnostic) -> bool {
    e is DivisionByZero || e is IndexOutOfBounds
}

/// Evaluating a checked expression in a scope whose values agree with their
/// types yields a value that agrees with the expression's type, or stops at a
/// runtime fault, and leaves every value in the scope agreeing with its type.
#[verifier::rlimit(100)]
pub proof fn lemma_checked_evaluates_to_its_type(s: SyntaxTree, scope: Seq<Binding>, t: TypedTree, env: Seq<ValueView>)
    requires
        elaborates(s, scope, t),
        env_matches(env, scope),
    ensures
        env_matches(eval(t, env).1, scope),
        eval(t, env).0 matches Ok(v) ==> value_matches(v, t.0),
        eval(t, env).0 matches Err(e) ==> is_runtime_fault(e),
    decreases s, 0int,
{
    match s {
        SyntaxTree::Ident(name) => {
            lemma_lookup_in_range(scope, name@);
        },
        SyntaxTree::LetVal(name, val, body) => {
            if let TypedOp::LocalVar(init, b) = t.1 {
                lemma_checked_evaluates_to_its_type(*val, scope, *init, env);
                let (r, env1) = eval(*init, env);
                if let Ok(v) = r {
                    let scope2 = scope.push((name@, Some(init.0)));
                    lemma_env_push(env1, scope, v, (name@, Some(init.0)));
                    lemma_checked_evaluates_to_its_type(*body, scope2, *b, env1.push(v));
                    lemma_env_pop(eval(*b, env1.push(v)).1, scope, (name@, Some(init.0)));
                }
            }
        },
        SyntaxTree::LetType(name, texpr, body) => {
            if let TypedOp::LocalVar(init, b) = t.1 {
                lemma_zero_matches(init.0);
                let v = init.0.spec_zero();
                let scope2 = scope.push((name@, Some(init.0)));
                lemma_env_push(env, scope, v, (name@, Some(init.0)));
                lemma_checked_evaluates_to_its_type(*body, scope2, *b, env.push(v));
                lemma_env_pop(eval(*b, env.push(v)).1, scope, (name@, Some(init.0)));
            }
        },
        SyntaxTree::Sequence(items) => {
            if let TypedOp::Sequence(ts) = t.1 {
                lemma_seq_sound(items@, ts@, 0, scope, env, ValueView::Unit);
            }
        },
        SyntaxTree::Assign(name, val) => {
            if let TypedOp::LocalSet(slot, v) = t.1 {
                lemma_lookup_in_range(scope, name@);
                lemma_checked_evaluates_to_its_type(*val, scope, *v, env);
                let (r, env1) = eval(*v, env);
                if let Ok(x) = r {
                    lemma_env_update(env1, scope, slot as int, x);
                }
            }
        },
        SyntaxTree::LiteralInt64(_) => {},
        SyntaxTree::LiteralArray(items) => {
            if let TypedOp::Array(ts) = t.1 {
                let elem = if items@.len() == 0 {
                    TypeInfo::Unit
                } else {
                    ts@[0].0
                };
                lemma_array_sound(items@, ts@, 0, scope, env, Seq::empty(), elem);
            }
        },
        SyntaxTree::LiteralArrayType(inner) => {
            if let TypedOp::ArrayT(it) = t.1 {
                lemma_checked_evaluates_to_its_type(*inner, scope, *it, env);
            }
        },
        SyntaxTree::Arithmetic(op, items) => {
            if let TypedOp::Arithmetic(op2, ts) = t.1 {
                lemma_checked_evaluates_to_its_type(items@[0], scope, ts@[0], env);
                let (r, env1) = eval(ts@[0], env);
                if let Ok(ValueView::Int64(a)) = r {
                    lemma_arith_sound(op, items@, ts@, 1, scope, env1, a);
                }
            }
        },
        SyntaxTree::ArrayGet(array, index) => {
            if let TypedOp::ArrayGet(ta, ti) = t.1 {
                lemma_checked_evaluates_to_its_type(*index, scope, *ti, env);
                let (r, env1) = eval(*ti, env);
                lemma_checked_evaluates_to_its_type(*array, scope, *ta, env1);
            }
        },
        SyntaxTree::ArraySet(array, index, val) => {
            if let TypedOp::ArraySet(slot, ti, tv) = t.1 {
                if let SyntaxTree::Ident(name) = *array {
                    lemma_lookup_in_range(scope, name@);
                }
                lemma_checked_evaluates_to_its_type(*val, scope, *tv, env);
                let (rv, env1) = eval(*tv, env);
                lemma_checked_evaluates_to_its_type(*index, scope, *ti, env1);
                let (r, env2) = eval(*ti, env1);
                if let (Ok(ValueView::Int64(i)), Ok(v)) = (r, rv) {
                    if (slot as int) < env2.len() {
                        if let ValueView::Array(elems) = env2[slot as int] {
                            if 0 <= i < elems.len() {
                                let ne = ValueView::Array(elems.update(i as int, v));
                                assert(value_matches(env2[slot as int], TypeInfo::Array(Box::new(tv.0))));
                                assert forall|j: int| 0 <= j < elems.update(i as int, v).len() implies value_matches(
                                    #[trigger] elems.update(i as int, v)[j],
                                    tv.0,
                                ) by {
                                    if j != i {
                                        assert(value_matches(elems[j], tv.0));
                                    }
                                }
                                lemma_env_update(env2, scope, slot as int, ne);
                            }
                        }
                    }
                }
            }
        },
    }
}

proof fn lemma_seq_sound(items: Seq<SyntaxTree>, ts: Seq<TypedTree>, i: int, scope: Seq<Binding>, env: Seq<ValueView>, last: ValueView)
    requires
        ts.len() == items.len() > 0,
        forall|j: int| 0 <= j < items.len() ==> elaborates(items[j], scope, #[trigger] ts[j]),
        0 <= i <= ts.len(),
        i > 0 ==> value_matches(last, ts[i - 1].0),
        env_matches(env, scope),
    ensures
        env_matches(eval_seq(ts, i, env, last).1, scope),
        eval_seq(ts, i, env, last).0 matches Err(e) ==> is_runtime_fault(e),
        eval_seq(ts, i, env, last).0 matches Ok(v) ==> value_matches(v, ts.last().0),
    decreases items, items.len() - i,
{
    if i < ts.len() {
        lemma_checked_evaluates_to_its_type(items[i], scope, ts[i], env);
        let (r, env1) = eval(ts[i], env);
        if let Ok(v) = r {
            lemma_seq_sound(items, ts, i + 1, scope, env1, v);
        }
    }
}

proof fn lemma_array_sound(items: Seq<SyntaxTree>, ts: Seq<TypedTree>, i: int, scope: Seq<Binding>, env: Seq<ValueView>, acc: Seq<ValueView>, elem: TypeInfo)
    requires
        ts.len() == items.len(),
        forall|j: int| 0 <= j < items.len() ==> elaborates(items[j], scope, #[trigger] ts[j]),
        forall|j: int| 0 <= j < ts.len() ==> (#[trigger] ts[j]).0 == elem,
        0 <= i <= ts.len(),
        forall|j: int| 0 <= j < acc.len() ==> value_matches(#[trigger] acc[j], elem),
        env_matches(env, scope),
    ensures
        env_matches(eval_array(ts, i, env, acc).1, scope),
        eval_array(ts, i, env, acc).0 matches Err(e) ==> is_runtime_fault(e),
        eval_array(ts, i, env, acc).0 matches Ok(v) ==> value_matches(v, TypeInfo::Array(Box::new(elem))),
    decreases items, items.len() - i,
{
    if i < ts.len() {
        lemma_checked_evaluates_to_its_type(items[i], scope, ts[i], env);
        let (r, env1) = eval(ts[i], env);
        if let Ok(v) = r {
            assert forall|j: int| 0 <= j < acc.push(v).len() implies value_matches(#[trigger] acc.push(v)[j], elem) by {
                if j < acc.len() {
                    assert(acc.push(v)[j] == acc[j]);
                }
            }
            lemma_array_sound(items, ts, i + 1, scope, env1, acc.push(v), elem);
        }
    }
}

proof fn lemma_arith_sound(op: ArithmeticOp, items: Seq<SyntaxTree>, ts: Seq<TypedTree>, i: int, scope: Seq<Binding>, env: Seq<ValueView>, acc: i64)
    requires
        ts.len() == items.len(),
        forall|j: int| 0 <= j < items.len() ==> elaborates(items[j], scope, #[trigger] ts[j]),
        forall|j: int| 0 <= j < ts.len() ==> (#[trigger] ts[j]).0 == TypeInfo::Int64,
        0 <= i <= ts.len(),
        env_matches(env, scope),
    ensures
        env_matches(eval_arith(op, ts, i, env, acc).1, scope),
        eval_arith(op, ts, i, env, acc).0 matches Err(e) ==> is_runtime_fault(e),
        eval_arith(op, ts, i, env, acc).0 matches Ok(v) ==> v is Int64,
    decreases items, items.len() - i,
{
    if i < ts.len() {
        lemma_checked_evaluates_to_its_type(items[i], scope, ts[i], env);
        let (r, env1) = eval(ts[i], env);
        if let Ok(ValueView::Int64(b)) = r {
            if let Some(c) = apply_op(op, acc, b) {
                lemma_arith_sound(op, items, ts, i + 1, scope, env1, c);
            }
        }
    }
}

/// A program that checks evaluates to a value whose shape agrees with the
/// program's static type, or stops at division by zero or an index out of
/// bounds: never at an unbound variable or a value of the wrong shape.
pub proof fn lemma_programs_evaluate_to_their_type(syntax: SyntaxTree, typed: TypedTree)
    requires
        elaborates(syntax, initial_scope(), typed),
    ensures
        eval(typed, initial_env()).0 matches Ok(v) ==> value_matches(v, typed.0),
        eval(typed, initial_env()).0 matches Err(e) ==> is_runtime_fault(e),
{
    assert(env_matches(initial_env(), initial_scope()));
    lemma_checked_evaluates_to_its_type(syntax, initial_scope(), typed, initial_env());
}


/// A checked expression assigns no variable that a later binding of the same
/// name hides: names resolve to their innermost binding.
pub proof fn lemma_hidden_slots_are_spared(s: SyntaxTree, scope: Seq<Binding>, t: TypedTree, i: int, k: int)
    requires
        elaborates(s, scope, t),
        0 <= i < k < scope.len(),
        scope[k].0 == scope[i].0,
    ensures
        spares(t, i),
    decreases s, 0int,
{
    match s {
        SyntaxTree::LetVal(name, val, body) => {
            if let TypedOp::LocalVar(init, b) = t.1 {
                let scope2 = scope.push((name@, Some(init.0)));
                assert(scope2[i] == scope[i] && scope2[k] == scope[k]);
                lemma_hidden_slots_are_spared(*val, scope, *init, i, k);
                lemma_hidden_slots_are_spared(*body, scope2, *b, i, k);
            }
        },
        SyntaxTree::LetType(name, texpr, body) => {
            if let TypedOp::LocalVar(init, b) = t.1 {
                let scope2 = scope.push((name@, Some(init.0)));
                assert(scope2[i] == scope[i] && scope2[k] == scope[k]);
                lemma_hidden_slots_are_spared(*body, scope2, *b, i, k);
                assert(init.1 is Const);
                assert(spares(*init, i));
            }
        },
        SyntaxTree::Sequence(items) => {
            if let TypedOp::Sequence(ts) = t.1 {
                assert forall|j: int| 0 <= j < ts@.len() implies spares(#[trigger] ts@[j], i) by {
                    lemma_hidden_slots_are_spared(items@[j], scope, ts@[j], i, k);
                }
            }
        },
        SyntaxTree::LiteralArray(items) => {
            if let TypedOp::Array(ts) = t.1 {
                assert forall|j: int| 0 <= j < ts@.len() implies spares(#[trigger] ts@[j], i) by {
                    lemma_hidden_slots_are_spared(items@[j], scope, ts@[j], i, k);
                }
            }
        },
        SyntaxTree::Arithmetic(_, items) => {
            if let TypedOp::Arithmetic(_, ts) = t.1 {
                assert forall|j: int| 0 <= j < ts@.len() implies spares(#[trigger] ts@[j], i) by {
                    lemma_hidden_slots_are_spared(items@[j], scope, ts@[j], i, k);
                }
            }
        },
        SyntaxTree::Assign(name, val) => {
            if let TypedOp::LocalSet(slot, v) = t.1 {
                lemma_lookup_in_range(scope, name@);
                lemma_hidden_slots_are_spared(*val, scope, *v, i, k);
            }
        },
        SyntaxTree::LiteralArrayType(inner) => {
            if let TypedOp::ArrayT(it) = t.1 {
                lemma_hidden_slots_are_spared(*inner, scope, *it, i, k);
            }
        },
        SyntaxTree::ArrayGet(array, index) => {
            if let TypedOp::ArrayGet(ta, ti) = t.1 {
                lemma_hidden_slots_are_spared(*array, scope, *ta, i, k);
                lemma_hidden_slots_are_spared(*index, scope, *ti, i, k);
            }
        },
        SyntaxTree::ArraySet(array, index, val) => {
            if let TypedOp::ArraySet(slot, ti, tv) = t.1 {
                if let SyntaxTree::Ident(name) = *array {
                    lemma_lookup_in_range(scope, name@);
                }
                lemma_hidden_slots_are_spared(*index, scope, *ti, i, k);
                lemma_hidden_slots_are_spared(*val, scope, *tv, i, k);
            }
        },
        SyntaxTree::Ident(name) => {
            lemma_lookup_in_range(scope, name@);
        },
        _ => {},
    }
}

/// After a `let` or `var` form, whether it succeeded or failed, the scope has
/// the slots it had before, and every outer variable of the bound name holds
/// the value it held before, provided the bound value itself assigns no
/// outer variable. The body's own assignments to other outer variables are
/// what the program asked for, and stay.
pub proof fn lemma_binding_restores_outer_name(s: SyntaxTree, scope: Seq<Binding>, t: TypedTree, env: Seq<ValueView>)
    requires
        s is LetVal || s is LetType,
        elaborates(s, scope, t),
        env.len() == scope.len(),
        writes_from(*t.1->LocalVar_0, env.len() as int),
    ensures
        eval(t, env).1.len() == env.len(),
        forall|i: int|
            0 <= i < env.len() && (#[trigger] scope[i]).0 == (match s {
                SyntaxTree::LetVal(name, _, _) => name@,
                SyntaxTree::LetType(name, _, _) => name@,
                _ => Seq::empty(),
            }) ==> eval(t, env).1[i] == env[i],
{
    lemma_eval_keeps_len(t, env);
    let init = *t.1->LocalVar_0;
    let b = *t.1->LocalVar_1;
    let name = match s {
        SyntaxTree::LetVal(name, _, _) => name@,
        SyntaxTree::LetType(name, _, _) => name@,
        _ => Seq::empty(),
    };
    let body = match s {
        SyntaxTree::LetVal(_, _, body) => *body,
        SyntaxTree::LetType(_, _, body) => *body,
        _ => s,
    };
    lemma_eval_keeps_len(init, env);
    lemma_eval_keeps_lower_slots(init, env, env.len() as int);
    let (r, env1) = eval(init, env);
    assert(env1 =~= env1.take(env.len() as int));
    assert(env =~= env.take(env.len() as int));
    assert(env1 == env);
    assert(t.1 == TypedOp::LocalVar(Box::new(init), Box::new(b)));
    assert(elaborates(body, scope.push((name, Some(init.0))), b));
    if let Ok(v) = r {
        lemma_eval_keeps_len(b, env1.push(v));
        let scope2 = scope.push((name, Some(init.0)));
        assert forall|i: int| 0 <= i < env.len() && (#[trigger] scope[i]).0 == name implies eval(t, env).1[i] == env[i] by {
            assert(scope2[i] == scope[i]);
            lemma_hidden_slots_are_spared(body, scope2, b, i, scope.len() as int);
            lemma_eval_keeps_spared_slot(b, env1.push(v), i);
        }
    }
}

} // verus!
