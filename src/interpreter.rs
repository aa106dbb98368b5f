//! Types, runtime values, typed trees and the evaluator, with the meaning of
//! a typed tree stated as a function over scopes of values.

use crate::checker::{check, elaborates, initial_scope};
use crate::diagnostic::{ok_or_log, Diagnostic};
use crate::parser::{tokenize, Token};
use crate::render::{log_string, log_text, value_string, value_text};
use crate::soundness::{is_runtime_fault, lemma_programs_evaluate_to_their_type, value_matches};
use crate::syntax_tree::{build, builds, SyntaxTree};
use crate::syntax_tree::ArithmeticOp;
use vstd::prelude::*;

verus! {

/// A static type.
#[derive(Debug, PartialEq, Eq)]
pub enum TypeInfo {
    Unit,
    /// The type of a value that is itself the type given.
    Type(Box<TypeInfo>),
    Int64,
    Array(Box<TypeInfo>),
}

/// A runtime value.
#[derive(Debug, PartialEq)]
pub enum Value {
    Unit,
    Int64(i64),
    Type(TypeInfo),
    Array(Vec<Value>),
}

/// The mathematical model of a runtime value.
pub enum ValueView {
    Unit,
    Int64(i64),
    Type(TypeInfo),
    Array(Seq<ValueView>),
}

/// The model of a runtime value.
pub open spec fn value_view(v: Value) -> ValueView
    decreases v,
{
    match v {
        Value::Unit => ValueView::Unit,
        Value::Int64(n) => ValueView::Int64(n),
        Value::Type(t) => ValueView::Type(t),
        Value::Array(items) => ValueView::Array(
            Seq::new(items@.len(), |i: int| if 0 <= i < items@.len() { value_view(items@[i]) } else { ValueView::Unit }),
        ),
    }
}

impl View for Value {
    type V = ValueView;

    open spec fn view(&self) -> ValueView {
        value_view(*self)
    }
}


impl TypeInfo {
    /// The default value that a variable of this type starts with.
    pub open spec fn spec_zero(&self) -> ValueView {
        match self {
            TypeInfo::Unit => ValueView::Unit,
            TypeInfo::Type(_) => ValueView::Type(TypeInfo::Unit),
            TypeInfo::Int64 => ValueView::Int64(0),
            TypeInfo::Array(_) => ValueView::Array(Seq::empty()),
        }
    }

    /// The default value of this type: unit, the unit type, zero or the empty array.
    pub fn zero(&self) -> (r: Value)
        ensures
            r@ == self.spec_zero(),
    {
        match self {
            TypeInfo::Unit => Value::Unit,
            TypeInfo::Type(_) => Value::Type(TypeInfo::Unit),
            TypeInfo::Int64 => Value::Int64(0),
            TypeInfo::Array(_) => {
                let r = Value::Array(Vec::new());
                assert(r@ == self.spec_zero()) by {
                    assert(value_view(r)->Array_0 =~= Seq::<ValueView>::empty());
                }
                r
            },
        }
    }

    /// A copy of this type.
    pub fn duplicate(&self) -> (r: TypeInfo)
        ensures
            r == *self,
        decreases self,
    {
        match self {
            TypeInfo::Unit => TypeInfo::Unit,
            TypeInfo::Type(inner) => TypeInfo::Type(Box::new(inner.duplicate())),
            TypeInfo::Int64 => TypeInfo::Int64,
            TypeInfo::Array(inner) => TypeInfo::Array(Box::new(inner.duplicate())),
        }
    }

    /// Structural equality of two types.
    pub fn same_as(&self, other: &TypeInfo) -> (r: bool)
        ensures
            r == (*self == *other),
        decreases self,
    {
        match (self, other) {
            (TypeInfo::Unit, TypeInfo::Unit) => true,
            (TypeInfo::Int64, TypeInfo::Int64) => true,
            (TypeInfo::Type(a), TypeInfo::Type(b)) => a.same_as(b),
            (TypeInfo::Array(a), TypeInfo::Array(b)) => a.same_as(b),
            _ => false,
        }
    }
}

impl Value {
    /// A deep copy of this value.
    #[verifier::loop_isolation(false)]
    pub fn duplicate(&self) -> (r: Value)
        ensures
            r@ == self@,
        decreases self,
    {
        match self {
            Value::Unit => Value::Unit,
            Value::Int64(n) => Value::Int64(*n),
            Value::Type(t) => Value::Type(t.duplicate()),
            Value::Array(items) => {
                let mut out: Vec<Value> = Vec::new();
                let mut i: usize = 0;
                while i < items.len()
                    invariant
                        i <= items.len(),
                        out@.len() == i,
                        forall|j: int| 0 <= j < i ==> #[trigger] out@[j]@ == items@[j]@,
                    decreases items.len() - i,
                {
                    proof {
                        assert(decreases_to!(*self => (*self)->Array_0));
                        assert(decreases_to!(*items => items@));
                        assert(decreases_to!(items@ => items@[i as int]));
                    }
                    out.push(items[i].duplicate());
                    i += 1;
                }
                let r = Value::Array(out);
                assert(value_view(r)->Array_0 =~= value_view(*self)->Array_0) by {
                    assert forall|j: int| 0 <= j < items@.len() implies value_view(r)->Array_0[j]
                        == value_view(*self)->Array_0[j] by {
                        assert(out@[j]@ == items@[j]@);
                    }
                }
                r
            },
        }
    }
}


/// A checked expression: its static type and the resolved operation.
#[derive(Debug)]
pub struct TypedTree(pub TypeInfo, pub TypedOp);

/// A resolved operation. Variables are addressed by their slot: the depth of
/// the binding form that introduced them, counted from the outermost.
#[derive(Debug)]
pub enum TypedOp {
    Const(Value),
    /// Binds a new innermost slot to the initial value for the body.
    LocalVar(Box<TypedTree>, Box<TypedTree>),
    LocalGet(usize),
    LocalSet(usize, Box<TypedTree>),
    Arithmetic(ArithmeticOp, Vec<TypedTree>),
    Sequence(Vec<TypedTree>),
    Array(Vec<TypedTree>),
    ArrayT(Box<TypedTree>),
    /// The array, then the index; the index is evaluated first.
    ArrayGet(Box<TypedTree>, Box<TypedTree>),
    /// The slot that holds the array, the index and the new element; the
    /// new element is evaluated first.
    ArraySet(usize, Box<TypedTree>, Box<TypedTree>),
}

/// The runtime scope: one value per slot, innermost last.
#[derive(Debug)]
pub struct RuntimeContext {
    pub slots: Vec<Value>,
}

/// The models of a sequence of runtime values.
pub open spec fn values_view(s: Seq<Value>) -> Seq<ValueView> {
    Seq::new(s.len(), |i: int| s[i]@)
}

impl View for RuntimeContext {
    type V = Seq<ValueView>;

    open spec fn view(&self) -> Seq<ValueView> {
        values_view(self.slots@)
    }
}

/// What evaluation yields, with the scope that it leaves behind.
pub type Outcome = (Result<ValueView, Diagnostic>, Seq<ValueView>);

/// The model of an evaluation result.
pub open spec fn result_view(r: Result<Value, Diagnostic>) -> Result<ValueView, Diagnostic> {
    match r {
        Ok(v) => Ok(v@),
        Err(e) => Err(e),
    }
}

/// One step of an arithmetic fold: `None` is a division or remainder by zero.
/// Addition, subtraction and multiplication wrap around; a quotient is
/// truncated toward zero, and the one that does not fit (`MIN / -1`) wraps to
/// `MIN`, with remainder zero.
pub open spec fn apply_op(op: ArithmeticOp, a: i64, b: i64) -> Option<i64> {
    match op {
        ArithmeticOp::Add => Some(a.wrapping_add(b)),
        ArithmeticOp::Sub => Some(a.wrapping_sub(b)),
        ArithmeticOp::Mul => Some(a.wrapping_mul(b)),
        ArithmeticOp::Div => if b == 0 {
            None
        } else {
            match a.checked_div(b) {
                Some(q) => Some(q),
                None => Some(i64::MIN),
            }
        },
        ArithmeticOp::Rem => if b == 0 {
            None
        } else {
            match a.checked_rem(b) {
                Some(q) => Some(q),
                None => Some(0),
            }
        },
    }
}

/// The meaning of a checked expression: evaluated in the scope `env`, it
/// yields a value or the first runtime error, and leaves the scope given.
pub open spec fn eval(t: TypedTree, env: Seq<ValueView>) -> Outcome
    decreases t, 0int,
{
    match t.1 {
        TypedOp::Const(v) => (Ok(v@), env),
        TypedOp::LocalGet(slot) => if slot < env.len() {
            (Ok(env[slot as int]), env)
        } else {
            (Err(Diagnostic::UnboundSlot(slot)), env)
        },
        TypedOp::LocalSet(slot, val) => {
            let (r, env1) = eval(*val, env);
            match r {
                Err(e) => (Err(e), env1),
                Ok(v) => if slot < env1.len() {
                    (Ok(ValueView::Unit), env1.update(slot as int, v))
                } else {
                    (Err(Diagnostic::UnboundSlot(slot)), env1)
                },
            }
        },
        TypedOp::LocalVar(init, body) => {
            let (r, env1) = eval(*init, env);
            match r {
                Err(e) => (Err(e), env1),
                Ok(v) => {
                    let (rb, env2) = eval(*body, env1.push(v));
                    (rb, env2.take(env1.len() as int))
                },
            }
        },
        TypedOp::Arithmetic(op, items) => if items@.len() == 0 {
            (Err(Diagnostic::IllTyped), env)
        } else {
            let (r, env1) = eval(items@[0], env);
            match r {
                Err(e) => (Err(e), env1),
                Ok(ValueView::Int64(a)) => eval_arith(op, items@, 1, env1, a),
                Ok(_) => (Err(Diagnostic::IllTyped), env1),
            }
        },
        TypedOp::Sequence(items) => eval_seq(items@, 0, env, ValueView::Unit),
        TypedOp::Array(items) => eval_array(items@, 0, env, Seq::empty()),
        TypedOp::ArrayT(inner) => {
            let (r, env1) = eval(*inner, env);
            match r {
                Err(e) => (Err(e), env1),
                Ok(ValueView::Type(u)) => (Ok(ValueView::Type(TypeInfo::Array(Box::new(u)))), env1),
                Ok(_) => (Err(Diagnostic::IllTyped), env1),
            }
        },
        TypedOp::ArrayGet(array, index) => {
            let (ri, env1) = eval(*index, env);
            match ri {
                Err(e) => (Err(e), env1),
                Ok(ValueView::Int64(i)) => {
                    let (ra, env2) = eval(*array, env1);
                    match ra {
                        Err(e) => (Err(e), env2),
                        Ok(ValueView::Array(elems)) => if 0 <= i < elems.len() {
                            (Ok(elems[i as int]), env2)
                        } else {
                            (Err(Diagnostic::IndexOutOfBounds { index: i, len: elems.len() as usize }), env2)
                        },
                        Ok(_) => (Err(Diagnostic::IllTyped), env2),
                    }
                },
                Ok(_) => (Err(Diagnostic::IllTyped), env1),
            }
        },
        TypedOp::ArraySet(slot, index, val) => {
            let (rv, env1) = eval(*val, env);
            match rv {
                Err(e) => (Err(e), env1),
                Ok(v) => {
                    let (ri, env2) = eval(*index, env1);
                    match ri {
                        Err(e) => (Err(e), env2),
                        Ok(ValueView::Int64(i)) => if slot >= env2.len() {
                            (Err(Diagnostic::UnboundSlot(slot)), env2)
                        } else {
                            match env2[slot as int] {
                                ValueView::Array(elems) => if 0 <= i < elems.len() {
                                    (Ok(ValueView::Unit), env2.update(slot as int, ValueView::Array(elems.update(i as int, v))))
                                } else {
                                    (Err(Diagnostic::IndexOutOfBounds { index: i, len: elems.len() as usize }), env2)
                                },
                                _ => (Err(Diagnostic::IllTyped), env2),
                            }
                        },
                        Ok(_) => (Err(Diagnostic::IllTyped), env2),
                    }
                },
            }
        },
    }
}

/// Operands `i..` of an arithmetic form, folded into `acc`.
pub open spec fn eval_arith(op: ArithmeticOp, items: Seq<TypedTree>, i: int, env: Seq<ValueView>, acc: i64) -> Outcome
    decreases items, items.len() - i,
{
    if i < 0 || i >= items.len() {
        (Ok(ValueView::Int64(acc)), env)
    } else {
        let (r, env1) = eval(items[i], env);
        match r {
            Err(e) => (Err(e), env1),
            Ok(ValueView::Int64(b)) => match apply_op(op, acc, b) {
                Some(c) => eval_arith(op, items, i + 1, env1, c),
                None => (Err(Diagnostic::DivisionByZero), env1),
            },
            Ok(_) => (Err(Diagnostic::IllTyped), env1),
        }
    }
}

/// Elements `i..` of a sequence; the value is that of the last one.
pub open spec fn eval_seq(items: Seq<TypedTree>, i: int, env: Seq<ValueView>, last: ValueView) -> Outcome
    decreases items, items.len() - i,
{
    if i < 0 || i >= items.len() {
        (Ok(last), env)
    } else {
        let (r, env1) = eval(items[i], env);
        match r {
            Err(e) => (Err(e), env1),
            Ok(v) => eval_seq(items, i + 1, env1, v),
        }
    }
}

/// Elements `i..` of an array literal, appended to `acc` left to right.
pub open spec fn eval_array(items: Seq<TypedTree>, i: int, env: Seq<ValueView>, acc: Seq<ValueView>) -> Outcome
    decreases items, items.len() - i,
{
    if i < 0 || i >= items.len() {
        (Ok(ValueView::Array(acc)), env)
    } else {
        let (r, env1) = eval(items[i], env);
        match r {
            Err(e) => (Err(e), env1),
            Ok(v) => eval_array(items, i + 1, env1, acc.push(v)),
        }
    }
}


/// Evaluates a checked expression in the scope `ctx`, failing at the first
/// runtime error. A binding form pushes its slot and pops it on every path.
#[verifier::loop_isolation(false)]
pub fn interpret(ctx: &mut RuntimeContext, tree: &TypedTree) -> (r: Result<Value, Diagnostic>)
    ensures
        (result_view(r), final(ctx)@) == eval(*tree, old(ctx)@),
    decreases tree,
{
    let ghost env0 = ctx@;
    match &tree.1 {
        TypedOp::Const(v) => Ok(v.duplicate()),
        TypedOp::LocalGet(slot) => {
            if *slot < ctx.slots.len() {
                Ok(ctx.slots[*slot].duplicate())
            } else {
                Err(Diagnostic::UnboundSlot(*slot))
            }
        },
        TypedOp::LocalSet(slot, val) => {
            let v = match interpret(ctx, val) {
                Ok(v) => v,
                Err(e) => return Err(e),
            };
            if *slot < ctx.slots.len() {
                let ghost env1 = ctx@;
                ctx.slots.set(*slot, v);
                assert(ctx@ =~= env1.update(*slot as int, v@));
                Ok(Value::Unit)
            } else {
                Err(Diagnostic::UnboundSlot(*slot))
            }
        },
        TypedOp::LocalVar(init, body) => {
            let v = match interpret(ctx, init) {
                Ok(v) => v,
                Err(e) => return Err(e),
            };
            let ghost env1 = ctx@;
            let depth = ctx.slots.len();
            ctx.slots.push(v);
            assert(ctx@ =~= env1.push(v@));
            let rb = interpret(ctx, body);
            proof {
                lemma_eval_keeps_len(**body, env1.push(v@));
            }
            ctx.slots.truncate(depth);
            assert(ctx@ =~= eval(**body, env1.push(v@)).1.take(env1.len() as int));
            rb
        },
        TypedOp::Arithmetic(op, items) => {
            if items.len() == 0 {
                return Err(Diagnostic::IllTyped);
            }
            let mut acc: i64 = match interpret(ctx, &items[0]) {
                Ok(Value::Int64(a)) => a,
                Ok(_) => return Err(Diagnostic::IllTyped),
                Err(e) => return Err(e),
            };
            let mut i: usize = 1;
            while i < items.len()
                invariant
                    1 <= i <= items.len(),
                    eval_arith(*op, items@, i as int, ctx@, acc) == eval(*tree, env0),
                decreases items.len() - i,
            {
                match interpret(ctx, &items[i]) {
                    Ok(Value::Int64(b)) => {
                        acc = match op {
                            ArithmeticOp::Add => acc.wrapping_add(b),
                            ArithmeticOp::Sub => acc.wrapping_sub(b),
                            ArithmeticOp::Mul => acc.wrapping_mul(b),
                            ArithmeticOp::Div => {
                                if b == 0 {
                                    return Err(Diagnostic::DivisionByZero);
                                }
                                match acc.checked_div(b) {
                                    Some(q) => q,
                                    None => i64::MIN,
                                }
                            },
                            ArithmeticOp::Rem => {
                                if b == 0 {
                                    return Err(Diagnostic::DivisionByZero);
                                }
                                match acc.checked_rem(b) {
                                    Some(q) => q,
                                    None => 0,
                                }
                            },
                        };
                    },
                    Ok(_) => return Err(Diagnostic::IllTyped),
                    Err(e) => return Err(e),
                }
                i += 1;
            }
            Ok(Value::Int64(acc))
        },
        TypedOp::Sequence(items) => {
            let mut last = Value::Unit;
            let mut i: usize = 0;
            while i < items.len()
                invariant
                    i <= items.len(),
                    eval_seq(items@, i as int, ctx@, last@) == eval(*tree, env0),
                decreases items.len() - i,
            {
                match interpret(ctx, &items[i]) {
                    Ok(v) => last = v,
                    Err(e) => return Err(e),
                }
                i += 1;
            }
            Ok(last)
        },
        TypedOp::Array(items) => {
            let mut out: Vec<Value> = Vec::new();
            let mut i: usize = 0;
            assert(values_view(out@) =~= Seq::<ValueView>::empty());
            while i < items.len()
                invariant
                    i <= items.len(),
                    eval_array(items@, i as int, ctx@, values_view(out@)) == eval(*tree, env0),
                decreases items.len() - i,
            {
                match interpret(ctx, &items[i]) {
                    Ok(v) => {
                        let ghost before = out@;
                        out.push(v);
                        assert(values_view(out@) =~= values_view(before).push(v@));
                    },
                    Err(e) => return Err(e),
                }
                i += 1;
            }
            let r = Value::Array(out);
            assert(r@ == ValueView::Array(values_view(out@))) by {
                assert(r@->Array_0 =~= values_view(out@));
            }
            Ok(r)
        },
        TypedOp::ArrayT(inner) => {
            match interpret(ctx, inner) {
                Ok(Value::Type(u)) => Ok(Value::Type(TypeInfo::Array(Box::new(u)))),
                Ok(_) => Err(Diagnostic::IllTyped),
                Err(e) => Err(e),
            }
        },
        TypedOp::ArrayGet(array, index) => {
            let i: i64 = match interpret(ctx, index) {
                Ok(Value::Int64(i)) => i,
                Ok(_) => return Err(Diagnostic::IllTyped),
                Err(e) => return Err(e),
            };
            let mut elems: Vec<Value> = match interpret(ctx, array) {
                Ok(Value::Array(v)) => v,
                Ok(_) => return Err(Diagnostic::IllTyped),
                Err(e) => return Err(e),
            };
            if 0 <= i && (i as u64) < (elems.len() as u64) {
                Ok(elems.swap_remove(i as usize))
            } else {
                Err(Diagnostic::IndexOutOfBounds { index: i, len: elems.len() })
            }
        },
        TypedOp::ArraySet(slot, index, val) => {
            let v = match interpret(ctx, val) {
                Ok(v) => v,
                Err(e) => return Err(e),
            };
            let i: i64 = match interpret(ctx, index) {
                Ok(Value::Int64(i)) => i,
                Ok(_) => return Err(Diagnostic::IllTyped),
                Err(e) => return Err(e),
            };
            if *slot >= ctx.slots.len() {
                return Err(Diagnostic::UnboundSlot(*slot));
            }
            let ghost env2 = ctx@;
            let ghost held = ctx.slots@[*slot as int];
            let mut cur = Value::Unit;
            ctx.slots.set_and_swap(*slot, &mut cur);
            match cur {
                Value::Array(mut elems) => {
                    if 0 <= i && (i as u64) < (elems.len() as u64) {
                        let ghost vv = v@;
                        elems.set(i as usize, v);
                        let nv = Value::Array(elems);
                        assert(nv@ == ValueView::Array(held@->Array_0.update(i as int, vv))) by {
                            assert(nv@->Array_0 =~= held@->Array_0.update(i as int, vv));
                        }
                        ctx.slots.set(*slot, nv);
                        assert(ctx@ =~= env2.update(*slot as int, nv@));
                        Ok(Value::Unit)
                    } else {
                        let len = elems.len();
                        ctx.slots.set(*slot, Value::Array(elems));
                        assert(ctx@ =~= env2);
                        Err(Diagnostic::IndexOutOfBounds { index: i, len })
                    }
                },
                other => {
                    ctx.slots.set(*slot, other);
                    assert(ctx@ =~= env2);
                    Err(Diagnostic::IllTyped)
                },
            }
        },
    }
}

/// Evaluation leaves the scope as long as it found it.
pub proof fn lemma_eval_keeps_len(t: TypedTree, env: Seq<ValueView>)
    ensures
        eval(t, env).1.len() == env.len(),
    decreases t, 0int,
{
    match t.1 {
        TypedOp::LocalSet(_, val) => lemma_eval_keeps_len(*val, env),
        TypedOp::LocalVar(init, body) => {
            lemma_eval_keeps_len(*init, env);
            let (r, env1) = eval(*init, env);
            if let Ok(v) = r {
                lemma_eval_keeps_len(*body, env1.push(v));
            }
        },
        TypedOp::Arithmetic(op, items) => if items@.len() > 0 {
            lemma_eval_keeps_len(items@[0], env);
            let (r, env1) = eval(items@[0], env);
            if let Ok(ValueView::Int64(a)) = r {
                lemma_arith_keeps_len(op, items@, 1, env1, a);
            }
        },
        TypedOp::Sequence(items) => lemma_seq_keeps_len(items@, 0, env, ValueView::Unit),
        TypedOp::Array(items) => lemma_array_keeps_len(items@, 0, env, Seq::empty()),
        TypedOp::ArrayT(inner) => lemma_eval_keeps_len(*inner, env),
        TypedOp::ArrayGet(array, index) => {
            lemma_eval_keeps_len(*index, env);
            let (r, env1) = eval(*index, env);
            lemma_eval_keeps_len(*array, env1);
        },
        TypedOp::ArraySet(_, index, val) => {
            lemma_eval_keeps_len(*val, env);
            let (r, env1) = eval(*val, env);
            lemma_eval_keeps_len(*index, env1);
        },
        _ => {},
    }
}

proof fn lemma_arith_keeps_len(op: ArithmeticOp, items: Seq<TypedTree>, i: int, env: Seq<ValueView>, acc: i64)
    ensures
        eval_arith(op, items, i, env, acc).1.len() == env.len(),
    decreases items, items.len() - i,
{
    if 0 <= i < items.len() {
        lemma_eval_keeps_len(items[i], env);
        let (r, env1) = eval(items[i], env);
        if let Ok(ValueView::Int64(b)) = r {
            if let Some(c) = apply_op(op, acc, b) {
                lemma_arith_keeps_len(op, items, i + 1, env1, c);
            }
        }
    }
}

proof fn lemma_seq_keeps_len(items: Seq<TypedTree>, i: int, env: Seq<ValueView>, last: ValueView)
    ensures
        eval_seq(items, i, env, last).1.len() == env.len(),
    decreases items, items.len() - i,
{
    if 0 <= i < items.len() {
        lemma_eval_keeps_len(items[i], env);
        let (r, env1) = eval(items[i], env);
        if let Ok(v) = r {
            lemma_seq_keeps_len(items, i + 1, env1, v);
        }
    }
}

proof fn lemma_array_keeps_len(items: Seq<TypedTree>, i: int, env: Seq<ValueView>, acc: Seq<ValueView>)
    ensures
        eval_array(items, i, env, acc).1.len() == env.len(),
    decreases items, items.len() - i,
{
    if 0 <= i < items.len() {
        lemma_eval_keeps_len(items[i], env);
        let (r, env1) = eval(items[i], env);
        if let Ok(v) = r {
            lemma_array_keeps_len(items, i + 1, env1, acc.push(v));
        }
    }
}


/// The left fold of `vs[i..]` into `acc` under `op`, or `None` at the first
/// division or remainder by zero.
pub open spec fn int_fold(op: ArithmeticOp, vs: Seq<i64>, i: int, acc: i64) -> Option<i64>
    decreases vs.len() - i,
{
    if i < 0 || i >= vs.len() {
        Some(acc)
    } else {
        match apply_op(op, acc, vs[i]) {
            Some(c) => int_fold(op, vs, i + 1, c),
            None => None,
        }
    }
}

proof fn lemma_arith_folds(op: ArithmeticOp, items: Seq<TypedTree>, vs: Seq<i64>, i: int, env: Seq<ValueView>, acc: i64)
    requires
        items.len() == vs.len(),
        0 <= i <= items.len(),
        forall|j: int| 0 <= j < items.len() ==> eval(#[trigger] items[j], env) == (
        Ok::<ValueView, Diagnostic>(ValueView::Int64(vs[j])), env),
    ensures
        eval_arith(op, items, i, env, acc) == match int_fold(op, vs, i, acc) {
            Some(v) => (Ok::<ValueView, Diagnostic>(ValueView::Int64(v)), env),
            None => (Err::<ValueView, Diagnostic>(Diagnostic::DivisionByZero), env),
        },
    decreases items.len() - i,
{
    if i < items.len() {
        assert(eval(items[i], env) == (Ok::<ValueView, Diagnostic>(ValueView::Int64(vs[i])), env));
        if let Some(c) = apply_op(op, acc, vs[i]) {
            lemma_arith_folds(op, items, vs, i + 1, env, c);
        }
    }
}

/// An arithmetic form whose operands each evaluate to an integer without
/// touching the scope evaluates, left to right, to the left fold of those
/// integers, or to the division-by-zero error where the fold meets a zero
/// divisor.
pub proof fn lemma_arithmetic_is_a_left_fold(t: TypedTree, env: Seq<ValueView>, vs: Seq<i64>)
    requires
        t.1 is Arithmetic,
        t.1->Arithmetic_1@.len() == vs.len() >= 1,
        forall|j: int| 0 <= j < vs.len() ==> eval(#[trigger] t.1->Arithmetic_1@[j], env) == (
        Ok::<ValueView, Diagnostic>(ValueView::Int64(vs[j])), env),
    ensures
        eval(t, env) == match int_fold(t.1->Arithmetic_0, vs, 1, vs[0]) {
            Some(v) => (Ok::<ValueView, Diagnostic>(ValueView::Int64(v)), env),
            None => (Err::<ValueView, Diagnostic>(Diagnostic::DivisionByZero), env),
        },
{
    let items = t.1->Arithmetic_1@;
    assert(eval(items[0], env) == (Ok::<ValueView, Diagnostic>(ValueView::Int64(vs[0])), env));
    lemma_arith_folds(t.1->Arithmetic_0, items, vs, 1, env, vs[0]);
}

/// Addition, subtraction and multiplication never fail: each step is the
/// wrapping two's-complement operation.
pub proof fn lemma_wrapping_folds_succeed(op: ArithmeticOp, vs: Seq<i64>, i: int, acc: i64)
    requires
        op is Add || op is Sub || op is Mul,
    ensures
        int_fold(op, vs, i, acc) is Some,
        0 <= i < vs.len() ==> int_fold(op, vs, i, acc) == int_fold(
            op,
            vs,
            i + 1,
            match op {
                ArithmeticOp::Add => acc.wrapping_add(vs[i]),
                ArithmeticOp::Sub => acc.wrapping_sub(vs[i]),
                _ => acc.wrapping_mul(vs[i]),
            },
        ),
    decreases vs.len() - i,
{
    if 0 <= i < vs.len() {
        let c = apply_op(op, acc, vs[i])->Some_0;
        lemma_wrapping_folds_succeed(op, vs, i + 1, c);
    }
}

/// A quotient or remainder fold fails exactly when one of its divisors is
/// zero.
pub proof fn lemma_division_fails_at_zero(op: ArithmeticOp, vs: Seq<i64>, i: int, acc: i64)
    requires
        op is Div || op is Rem,
        0 <= i,
    ensures
        int_fold(op, vs, i, acc) is None <==> exists|j: int| i <= j < vs.len() && vs[j] == 0,
    decreases vs.len() - i,
{
    if i < vs.len() {
        if vs[i] != 0 {
            let c = apply_op(op, acc, vs[i])->Some_0;
            lemma_division_fails_at_zero(op, vs, i + 1, c);
            if exists|j: int| i <= j < vs.len() && vs[j] == 0 {
                let j = choose|j: int| i <= j < vs.len() && vs[j] == 0;
                assert(i + 1 <= j);
            }
        }
    }
}

/// Every assignment in `t` writes a slot at or above `n`: `t` changes no
/// variable bound below that depth.
pub open spec fn writes_from(t: TypedTree, n: int) -> bool
    decreases t, 0int,
{
    match t.1 {
        TypedOp::Const(_) => true,
        TypedOp::LocalGet(_) => true,
        TypedOp::LocalSet(slot, v) => slot >= n && writes_from(*v, n),
        TypedOp::LocalVar(init, body) => writes_from(*init, n) && writes_from(*body, n),
        TypedOp::Arithmetic(_, items) => forall|j: int|
            0 <= j < items@.len() ==> writes_from(#[trigger] items@[j], n),
        TypedOp::Sequence(items) => forall|j: int|
            0 <= j < items@.len() ==> writes_from(#[trigger] items@[j], n),
        TypedOp::Array(items) => forall|j: int|
            0 <= j < items@.len() ==> writes_from(#[trigger] items@[j], n),
        TypedOp::ArrayT(inner) => writes_from(*inner, n),
        TypedOp::ArrayGet(a, i) => writes_from(*a, n) && writes_from(*i, n),
        TypedOp::ArraySet(slot, i, v) => slot >= n && writes_from(*i, n) && writes_from(*v, n),
    }
}

/// Evaluation leaves the slots below `n` as they were when `t` writes none
/// of them, on success and on failure alike.
pub proof fn lemma_eval_keeps_lower_slots(t: TypedTree, env: Seq<ValueView>, n: int)
    requires
        writes_from(t, n),
        0 <= n <= env.len(),
    ensures
        eval(t, env).1.take(n) == env.take(n),
    decreases t, 0int,
{
    lemma_eval_keeps_len(t, env);
    match t.1 {
        TypedOp::LocalSet(_, val) => {
            lemma_eval_keeps_lower_slots(*val, env, n);
            lemma_eval_keeps_len(*val, env);
            let env1 = eval(*val, env).1;
            if let TypedOp::LocalSet(slot, _) = t.1 {
                if eval(*val, env).0 is Ok && slot < env1.len() {
                    let v = eval(*val, env).0->Ok_0;
                    assert(env1.update(slot as int, v).take(n) =~= env1.take(n));
                }
            }
        },
        TypedOp::LocalVar(init, body) => {
            lemma_eval_keeps_lower_slots(*init, env, n);
            lemma_eval_keeps_len(*init, env);
            let (r, env1) = eval(*init, env);
            if let Ok(v) = r {
                lemma_eval_keeps_lower_slots(*body, env1.push(v), n);
                lemma_eval_keeps_len(*body, env1.push(v));
                let env2 = eval(*body, env1.push(v)).1;
                assert(env2.take(env1.len() as int).take(n) =~= env2.take(n));
                assert(env1.push(v).take(n) =~= env1.take(n));
            }
        },
        TypedOp::Arithmetic(op, items) => if items@.len() > 0 {
            lemma_eval_keeps_lower_slots(items@[0], env, n);
            lemma_eval_keeps_len(items@[0], env);
            let (r, env1) = eval(items@[0], env);
            if let Ok(ValueView::Int64(a)) = r {
                lemma_arith_keeps_lower_slots(op, items@, 1, env1, a, n);
            }
        },
        TypedOp::Sequence(items) => lemma_seq_keeps_lower_slots(items@, 0, env, ValueView::Unit, n),
        TypedOp::Array(items) => lemma_array_keeps_lower_slots(items@, 0, env, Seq::empty(), n),
        TypedOp::ArrayT(inner) => lemma_eval_keeps_lower_slots(*inner, env, n),
        TypedOp::ArrayGet(array, index) => {
            lemma_eval_keeps_lower_slots(*index, env, n);
            lemma_eval_keeps_len(*index, env);
            let env1 = eval(*index, env).1;
            lemma_eval_keeps_lower_slots(*array, env1, n);
        },
        TypedOp::ArraySet(slot, index, val) => {
            lemma_eval_keeps_lower_slots(*val, env, n);
            lemma_eval_keeps_len(*val, env);
            let env1 = eval(*val, env).1;
            lemma_eval_keeps_lower_slots(*index, env1, n);
            lemma_eval_keeps_len(*index, env1);
            let env2 = eval(*index, env1).1;
            if slot < env2.len() {
                assert forall|x: ValueView| #[trigger] env2.update(slot as int, x).take(n) == env2.take(n) by {
                    assert(env2.update(slot as int, x).take(n) =~= env2.take(n));
                }
            }
        },
        _ => {},
    }
}

proof fn lemma_arith_keeps_lower_slots(op: ArithmeticOp, items: Seq<TypedTree>, i: int, env: Seq<ValueView>, acc: i64, n: int)
    requires
        forall|j: int| 0 <= j < items.len() ==> writes_from(#[trigger] items[j], n),
        0 <= n <= env.len(),
    ensures
        eval_arith(op, items, i, env, acc).1.take(n) == env.take(n),
    decreases items, items.len() - i,
{
    if 0 <= i < items.len() {
        lemma_eval_keeps_lower_slots(items[i], env, n);
        lemma_eval_keeps_len(items[i], env);
        let (r, env1) = eval(items[i], env);
        if let Ok(ValueView::Int64(b)) = r {
            if let Some(c) = apply_op(op, acc, b) {
                lemma_arith_keeps_lower_slots(op, items, i + 1, env1, c, n);
            }
        }
    }
}

proof fn lemma_seq_keeps_lower_slots(items: Seq<TypedTree>, i: int, env: Seq<ValueView>, last: ValueView, n: int)
    requires
        forall|j: int| 0 <= j < items.len() ==> writes_from(#[trigger] items[j], n),
        0 <= n <= env.len(),
    ensures
        eval_seq(items, i, env, last).1.take(n) == env.take(n),
    decreases items, items.len() - i,
{
    if 0 <= i < items.len() {
        lemma_eval_keeps_lower_slots(items[i], env, n);
        lemma_eval_keeps_len(items[i], env);
        let (r, env1) = eval(items[i], env);
        if let Ok(v) = r {
            lemma_seq_keeps_lower_slots(items, i + 1, env1, v, n);
        }
    }
}

proof fn lemma_array_keeps_lower_slots(items: Seq<TypedTree>, i: int, env: Seq<ValueView>, acc: Seq<ValueView>, n: int)
    requires
        forall|j: int| 0 <= j < items.len() ==> writes_from(#[trigger] items[j], n),
        0 <= n <= env.len(),
    ensures
        eval_array(items, i, env, acc).1.take(n) == env.take(n),
    decreases items, items.len() - i,
{
    if 0 <= i < items.len() {
        lemma_eval_keeps_lower_slots(items[i], env, n);
        lemma_eval_keeps_len(items[i], env);
        let (r, env1) = eval(items[i], env);
        if let Ok(v) = r {
            lemma_array_keeps_lower_slots(items, i + 1, env1, acc.push(v), n);
        }
    }
}

/// A binding form whose body assigns only variables bound inside the form
/// leaves the scope exactly as it found it, whether it succeeds or fails.
pub proof fn lemma_binding_form_restores_scope(t: TypedTree, env: Seq<ValueView>)
    requires
        t.1 is LocalVar,
        writes_from(t, env.len() as int),
    ensures
        eval(t, env).1 == env,
{
    lemma_eval_keeps_len(t, env);
    lemma_eval_keeps_lower_slots(t, env, env.len() as int);
    assert(eval(t, env).1 =~= eval(t, env).1.take(env.len() as int));
    assert(env =~= env.take(env.len() as int));
}

/// `t` assigns no variable in slot `i`.
pub open spec fn spares(t: TypedTree, i: int) -> bool
    decreases t, 0int,
{
    match t.1 {
        TypedOp::Const(_) => true,
        TypedOp::LocalGet(_) => true,
        TypedOp::LocalSet(slot, v) => slot != i && spares(*v, i),
        TypedOp::LocalVar(init, body) => spares(*init, i) && spares(*body, i),
        TypedOp::Arithmetic(_, items) => forall|j: int|
            0 <= j < items@.len() ==> spares(#[trigger] items@[j], i),
        TypedOp::Sequence(items) => forall|j: int|
            0 <= j < items@.len() ==> spares(#[trigger] items@[j], i),
        TypedOp::Array(items) => forall|j: int|
            0 <= j < items@.len() ==> spares(#[trigger] items@[j], i),
        TypedOp::ArrayT(inner) => spares(*inner, i),
        TypedOp::ArrayGet(a, x) => spares(*a, i) && spares(*x, i),
        TypedOp::ArraySet(slot, x, v) => slot != i && spares(*x, i) && spares(*v, i),
    }
}

/// Evaluation leaves slot `i` as it was when `t` assigns nothing to it, on
/// success and on failure alike.
pub proof fn lemma_eval_keeps_spared_slot(t: TypedTree, env: Seq<ValueView>, i: int)
    requires
        spares(t, i),
        0 <= i < env.len(),
    ensures
        eval(t, env).1[i] == env[i],
    decreases t, 0int,
{
    lemma_eval_keeps_len(t, env);
    match t.1 {
        TypedOp::LocalSet(_, val) => {
            lemma_eval_keeps_spared_slot(*val, env, i);
            lemma_eval_keeps_len(*val, env);
        },
        TypedOp::LocalVar(init, body) => {
            lemma_eval_keeps_spared_slot(*init, env, i);
            lemma_eval_keeps_len(*init, env);
            let (r, env1) = eval(*init, env);
            if let Ok(v) = r {
                lemma_eval_keeps_spared_slot(*body, env1.push(v), i);
                lemma_eval_keeps_len(*body, env1.push(v));
            }
        },
        TypedOp::Arithmetic(op, items) => if items@.len() > 0 {
            lemma_eval_keeps_spared_slot(items@[0], env, i);
            lemma_eval_keeps_len(items@[0], env);
            let (r, env1) = eval(items@[0], env);
            if let Ok(ValueView::Int64(a)) = r {
                lemma_arith_keeps_spared_slot(op, items@, 1, env1, a, i);
            }
        },
        TypedOp::Sequence(items) => lemma_seq_keeps_spared_slot(items@, 0, env, ValueView::Unit, i),
        TypedOp::Array(items) => lemma_array_keeps_spared_slot(items@, 0, env, Seq::empty(), i),
        TypedOp::ArrayT(inner) => lemma_eval_keeps_spared_slot(*inner, env, i),
        TypedOp::ArrayGet(array, index) => {
            lemma_eval_keeps_spared_slot(*index, env, i);
            lemma_eval_keeps_len(*index, env);
            let env1 = eval(*index, env).1;
            lemma_eval_keeps_spared_slot(*array, env1, i);
        },
        TypedOp::ArraySet(slot, index, val) => {
            lemma_eval_keeps_spared_slot(*val, env, i);
            lemma_eval_keeps_len(*val, env);
            let env1 = eval(*val, env).1;
            lemma_eval_keeps_spared_slot(*index, env1, i);
            lemma_eval_keeps_len(*index, env1);
        },
        _ => {},
    }
}

proof fn lemma_arith_keeps_spared_slot(op: ArithmeticOp, items: Seq<TypedTree>, k: int, env: Seq<ValueView>, acc: i64, i: int)
    requires
        forall|j: int| 0 <= j < items.len() ==> spares(#[trigger] items[j], i),
        0 <= i < env.len(),
    ensures
        eval_arith(op, items, k, env, acc).1[i] == env[i],
    decreases items, items.len() - k,
{
    if 0 <= k < items.len() {
        lemma_eval_keeps_spared_slot(items[k], env, i);
        lemma_eval_keeps_len(items[k], env);
        let (r, env1) = eval(items[k], env);
        if let Ok(ValueView::Int64(b)) = r {
            if let Some(c) = apply_op(op, acc, b) {
                lemma_arith_keeps_spared_slot(op, items, k + 1, env1, c, i);
            }
        }
    }
}

proof fn lemma_seq_keeps_spared_slot(items: Seq<TypedTree>, k: int, env: Seq<ValueView>, last: ValueView, i: int)
    requires
        forall|j: int| 0 <= j < items.len() ==> spares(#[trigger] items[j], i),
        0 <= i < env.len(),
    ensures
        eval_seq(items, k, env, last).1[i] == env[i],
    decreases items, items.len() - k,
{
    if 0 <= k < items.len() {
        lemma_eval_keeps_spared_slot(items[k], env, i);
        lemma_eval_keeps_len(items[k], env);
        let (r, env1) = eval(items[k], env);
        if let Ok(v) = r {
            lemma_seq_keeps_spared_slot(items, k + 1, env1, v, i);
        }
    }
}

proof fn lemma_array_keeps_spared_slot(items: Seq<TypedTree>, k: int, env: Seq<ValueView>, acc: Seq<ValueView>, i: int)
    requires
        forall|j: int| 0 <= j < items.len() ==> spares(#[trigger] items[j], i),
        0 <= i < env.len(),
    ensures
        eval_array(items, k, env, acc).1[i] == env[i],
    decreases items, items.len() - k,
{
    if 0 <= k < items.len() {
        lemma_eval_keeps_spared_slot(items[k], env, i);
        lemma_eval_keeps_len(items[k], env);
        let (r, env1) = eval(items[k], env);
        if let Ok(v) = r {
            lemma_array_keeps_spared_slot(items, k + 1, env1, acc.push(v), i);
        }
    }
}

/// The runtime scope a program starts in: slot 0, `i64`, holds the integer type.
pub open spec fn initial_env() -> Seq<ValueView> {
    seq![ValueView::Type(TypeInfo::Int64)]
}

impl RuntimeContext {
    /// A scope in which only `i64` is bound.
    pub fn new() -> (r: RuntimeContext)
        ensures
            r@ == initial_env(),
    {
        let mut slots: Vec<Value> = Vec::new();
        slots.push(Value::Type(TypeInfo::Int64));
        let r = RuntimeContext { slots };
        assert(r@ =~= initial_env());
        r
    }
}

/// Evaluates a checked program in the scope where only `i64` is bound.
pub fn interpret_no_context(tree: &TypedTree) -> (r: Result<Value, Diagnostic>)
    ensures
        result_view(r) == eval(*tree, initial_env()).0,
{
    let mut ctx = RuntimeContext::new();
    interpret(&mut ctx, tree)
}

/// `tokens`, `syntax` and `typed` are what the stages before evaluation make
/// of `text`.
pub open spec fn prepared(text: Seq<char>, tokens: crate::parser::Value, syntax: SyntaxTree, typed: TypedTree) -> bool {
    &&& tokenize(text) == Ok::<Token, Seq<Diagnostic>>(tokens@)
    &&& build(tokens).0
    &&& builds(tokens, syntax)
    &&& check(syntax, initial_scope()).0 == Some(typed.0)
    &&& elaborates(syntax, initial_scope(), typed)
}

/// `d` is what the first failing stage reports for `text`; evaluation stops
/// only at a runtime fault.
pub open spec fn stopped_with(text: Seq<char>, d: Seq<Diagnostic>) -> bool {
    ||| tokenize(text) == Err::<Token, Seq<Diagnostic>>(d)
    ||| exists|tokens: crate::parser::Value|
        tokenize(text) == Ok::<Token, Seq<Diagnostic>>(tokens@) && !(#[trigger] build(tokens)).0 && d == build(tokens).1
    ||| exists|tokens: crate::parser::Value, syntax: SyntaxTree|
        tokenize(text) == Ok::<Token, Seq<Diagnostic>>(tokens@) && build(tokens).0 && #[trigger] builds(tokens, syntax)
            && check(syntax, initial_scope()).0 is None && d == check(syntax, initial_scope()).1
    ||| exists|tokens: crate::parser::Value, syntax: SyntaxTree, typed: TypedTree|
        #[trigger] prepared(text, tokens, syntax, typed) && eval(typed, initial_env()).0 is Err && d
            == seq![eval(typed, initial_env()).0->Err_0] && is_runtime_fault(
            eval(typed, initial_env()).0->Err_0,
        )
}

/// Runs a program text through every stage: its value, or the diagnostics
/// of the first stage that failed.
pub fn run_program(text: &str) -> (r: Result<Value, Vec<Diagnostic>>)
    ensures
        r is Ok ==> exists|tokens: crate::parser::Value, syntax: SyntaxTree, typed: TypedTree|
            #[trigger] prepared(text@, tokens, syntax, typed) && eval(typed, initial_env()).0 == Ok::<
                ValueView,
                Diagnostic,
            >(r->Ok_0@) && value_matches(r->Ok_0@, typed.0),
        r is Err ==> r->Err_0@.len() > 0 && stopped_with(text@, r->Err_0@),
{
    proof {
        crate::parser::lemma_tokenize_failure_reported(text@);
    }
    let tokens = match crate::parser::Value::from_str(text) {
        Ok(t) => t,
        Err(d) => return Err(d),
    };
    let syntax = match SyntaxTree::try_from(&tokens) {
        Ok(s) => s,
        Err(d) => return Err(d),
    };
    let typed = match TypedTree::try_from(&syntax) {
        Ok(t) => t,
        Err(d) => {
            assert(builds(tokens, syntax));
            return Err(d);
        },
    };
    assert(prepared(text@, tokens, syntax, typed));
    proof {
        lemma_programs_evaluate_to_their_type(syntax, typed);
    }
    let mut log: Vec<Diagnostic> = Vec::new();
    match ok_or_log(&mut log, interpret_no_context(&typed)) {
        Some(v) => Ok(v),
        None => {
            assert(log@ =~= seq![eval(typed, initial_env()).0->Err_0]);
            Err(log)
        },
    }
}


/// Runs a program text and renders the outcome: the text of its value, or
/// the diagnostics of the first stage that failed, one per line.
pub fn parse_interpret(s: &str) -> (r: Result<String, String>)
    ensures
        r is Ok ==> exists|tokens: crate::parser::Value, syntax: SyntaxTree, typed: TypedTree|
            #[trigger] prepared(s@, tokens, syntax, typed) && eval(typed, initial_env()).0 is Ok
                && r->Ok_0@ == value_text(eval(typed, initial_env()).0->Ok_0),
        r is Err ==> exists|d: Seq<Diagnostic>|
            #[trigger] stopped_with(s@, d) && d.len() > 0 && r->Err_0@ == log_text(d, 0),
{
    match run_program(s) {
        Ok(v) => Ok(value_string(&v)),
        Err(d) => Err(log_string(&d)),
    }
}

} // verus!
