use vstd::prelude::*;
use crate::ast::{
    bytes_eq, lemma_terms_of_push, terms_of, Builtin, BuiltinLambda, Lit, Literal, Name,
    Term, Value,
};
use crate::builtins::builtin_arity;
use crate::context::Context;

verus! {

/// Why an evaluation was abandoned.
#[derive(Debug, PartialEq)]
pub enum Fault {
    /// A name was looked up that the context does not bind.
    UnboundName(Name),
    /// A statement tried to bind a name that is bound already.
    Redefinition(Name),
    /// An arithmetic operation was given something that is not an integer.
    NotAnInteger(Builtin),
    /// The condition of `if` was not a truth value.
    NotABoolean,
    /// Division or remainder by zero.
    DivisionByZero,
    /// An arithmetic result that does not fit the integer type.
    Overflow,
    /// A native operation was invoked with fewer arguments than it takes.
    MissingArguments(Builtin),
    /// The evaluation needed more nested steps than the caller allowed.
    DepthExhausted,
}

/// A fault, in its mathematical form.
pub enum FaultView {
    UnboundName(Seq<u8>),
    Redefinition(Seq<u8>),
    NotAnInteger(Builtin),
    NotABoolean,
    DivisionByZero,
    Overflow,
    MissingArguments(Builtin),
    DepthExhausted,
}

impl View for Fault {
    type V = FaultView;

    open spec fn view(&self) -> FaultView {
        match self {
            Fault::UnboundName(n) => FaultView::UnboundName(n@),
            Fault::Redefinition(n) => FaultView::Redefinition(n@),
            Fault::NotAnInteger(op) => FaultView::NotAnInteger(*op),
            Fault::NotABoolean => FaultView::NotABoolean,
            Fault::DivisionByZero => FaultView::DivisionByZero,
            Fault::Overflow => FaultView::Overflow,
            Fault::MissingArguments(op) => FaultView::MissingArguments(*op),
            Fault::DepthExhausted => FaultView::DepthExhausted,
        }
    }
}

/// What an evaluation gives, in its mathematical form.
pub open spec fn outcome_of(res: Result<Value, Fault>) -> Result<Term, FaultView> {
    match res {
        Ok(v) => Ok(v@),
        Err(e) => Err(e@),
    }
}

/// `term` with `referent` in place of every reference to `name` that no lambda with that
/// parameter name stands above. Bound names are never renamed, and the collected arguments
/// of a native operation are left as they are.
pub open spec fn subst(term: Term, name: Seq<u8>, referent: Term) -> Term
    decreases term,
{
    match term {
        Term::Reference(hay) => if hay == name {
            referent
        } else {
            term
        },
        Term::Apply(l, r) => Term::Apply(
            Box::new(subst(*l, name, referent)),
            Box::new(subst(*r, name, referent)),
        ),
        Term::Lambda(param, body) => if name != param {
            Term::Lambda(param, Box::new(subst(*body, name, referent)))
        } else {
            term
        },
        Term::Literal(_) => term,
        Term::Builtin(_, _, _) => term,
    }
}

/// The absolute value of an integer.
pub open spec fn magnitude(x: int) -> int {
    if x < 0 {
        -x
    } else {
        x
    }
}

/// The quotient of `x` by `d`, rounded toward zero.
pub open spec fn trunc_div(x: int, d: int) -> int
    recommends
        d != 0,
{
    if (x < 0) == (d < 0) {
        magnitude(x) / magnitude(d)
    } else {
        -(magnitude(x) / magnitude(d))
    }
}

/// The remainder that goes with `trunc_div`: it has the sign of `x`.
pub open spec fn trunc_rem(x: int, d: int) -> int
    recommends
        d != 0,
{
    if x < 0 {
        -(magnitude(x) % magnitude(d))
    } else {
        x % magnitude(d)
    }
}

/// Whether an integer fits the integer type of the language.
pub open spec fn in_range(x: int) -> bool {
    i128::MIN <= x <= i128::MAX
}

/// What an arithmetic operation gives on two integers.
pub open spec fn arithmetic(op: Builtin, l: int, r: int) -> Result<int, FaultView> {
    match op {
        Builtin::Add => if in_range(l + r) {
            Ok(l + r)
        } else {
            Err(FaultView::Overflow)
        },
        Builtin::Mul => if in_range(l * r) {
            Ok(l * r)
        } else {
            Err(FaultView::Overflow)
        },
        Builtin::Div => if r == 0 {
            Err(FaultView::DivisionByZero)
        } else if in_range(trunc_div(l, r)) {
            Ok(trunc_div(l, r))
        } else {
            Err(FaultView::Overflow)
        },
        Builtin::Rem => if r == 0 {
            Err(FaultView::DivisionByZero)
        } else if l == i128::MIN && r == -1 {
            Err(FaultView::Overflow)
        } else {
            Ok(trunc_rem(l, r))
        },
        _ => Err(FaultView::NotAnInteger(op)),
    }
}

/// What a two-place operation gives once both of its arguments have been forced.
pub open spec fn binary_result(op: Builtin, l: Term, r: Term) -> Result<Term, FaultView> {
    if op == Builtin::Eq {
        Ok(Term::Literal(Lit::Boolean(l == r)))
    } else {
        match (l, r) {
            (Term::Literal(Lit::Integer(a)), Term::Literal(Lit::Integer(b))) => match arithmetic(
                op,
                a,
                b,
            ) {
                Ok(v) => Ok(Term::Literal(Lit::Integer(v))),
                Err(e) => Err(e),
            },
            _ => Err(FaultView::NotAnInteger(op)),
        }
    }
}

/// The weak head normal form of `term` under `context`, by call-by-name reduction.
///
/// `fuel` bounds how deep reductions may nest: a reference or an application needs one
/// unit more than the deepest reduction under it. Where that is not there the result is
/// `DepthExhausted`. Literals, lambdas and native operations are returned as they are.
pub open spec fn eval(term: Term, context: Map<Seq<u8>, Term>, fuel: nat) -> Result<Term, FaultView>
    decreases fuel, 0nat,
{
    match term {
        Term::Reference(name) => if !context.dom().contains(name) {
            Err(FaultView::UnboundName(name))
        } else if fuel == 0 {
            Err(FaultView::DepthExhausted)
        } else {
            eval(context[name], context, (fuel - 1) as nat)
        },
        Term::Apply(f, arg) => if fuel == 0 {
            Err(FaultView::DepthExhausted)
        } else {
            match eval(*f, context, (fuel - 1) as nat) {
                Err(e) => Err(e),
                Ok(Term::Builtin(op, num_params, args)) => {
                    let collected = args.push(*arg);
                    if collected.len() == num_params {
                        invoke(op, collected, context, (fuel - 1) as nat)
                    } else {
                        Ok(Term::Builtin(op, num_params, collected))
                    }
                },
                Ok(Term::Lambda(param, body)) => eval(
                    subst(*body, param, *arg),
                    context,
                    (fuel - 1) as nat,
                ),
                Ok(other) => Ok(Term::Apply(Box::new(other), arg)),
            }
        },
        _ => Ok(term),
    }
}

/// What a native operation gives on its full argument list. The operands are the last
/// arguments of the list, as many as the operation takes; each is forced with `fuel`.
/// `if` forces its condition and then only the branch that the condition selects.
pub open spec fn invoke(op: Builtin, args: Seq<Term>, context: Map<Seq<u8>, Term>, fuel: nat) -> Result<
    Term,
    FaultView,
>
    decreases fuel, 1nat,
{
    let n = args.len() as int;
    if n < builtin_arity(op) {
        Err(FaultView::MissingArguments(op))
    } else if op == Builtin::If {
        match eval(args[n - 3], context, fuel) {
            Err(e) => Err(e),
            Ok(Term::Literal(Lit::Boolean(b))) => if b {
                eval(args[n - 2], context, fuel)
            } else {
                eval(args[n - 1], context, fuel)
            },
            Ok(_) => Err(FaultView::NotABoolean),
        }
    } else {
        match eval(args[n - 2], context, fuel) {
            Err(e) => Err(e),
            Ok(l) => match eval(args[n - 1], context, fuel) {
                Err(e) => Err(e),
                Ok(r) => binary_result(op, l, r),
            },
        }
    }
}

/// Substitutes `referent` for `name` in `value`, by reference.
fn substitute(value: Value, name: &Name, referent: &Value) -> (res: Value)
    ensures
        res@ == subst(value@, name@, referent@),
    decreases value,
{
    match value {
        Value::Reference(hay) => {
            if bytes_eq(hay.as_slice(), name.as_slice()) {
                referent.clone()
            } else {
                Value::Reference(hay)
            }
        },
        Value::Apply(l, r) => {
            let l2 = substitute(*l, name, referent);
            let r2 = substitute(*r, name, referent);
            Value::Apply(Box::new(l2), Box::new(r2))
        },
        Value::Lambda(param, body) => {
            if !bytes_eq(name.as_slice(), param.as_slice()) {
                let body2 = substitute(*body, name, referent);
                Value::Lambda(param, Box::new(body2))
            } else {
                Value::Lambda(param, body)
            }
        },
        Value::Literal(l) => Value::Literal(l),
        Value::BuiltinLambda(b) => Value::BuiltinLambda(b),
    }
}

/// Puts `referent` in place of the references to `name` in `value`. A lambda whose
/// parameter is `name` is left as it is; no bound name is renamed, so a free name of
/// `referent` may come to stand under a lambda that binds it.
pub fn substitute_fully(value: Value, name: Name, referent: Value) -> (res: Value)
    ensures
        res@ == subst(value@, name@, referent@),
{
    substitute(value, &name, &referent)
}

/// Carries out an arithmetic operation on two integers.
fn compute(op: Builtin, l: i128, r: i128) -> (res: Result<i128, Fault>)
    requires
        op == Builtin::Add || op == Builtin::Mul || op == Builtin::Div || op == Builtin::Rem,
    ensures
        match res {
            Ok(v) => arithmetic(op, l as int, r as int) == Ok::<int, FaultView>(v as int),
            Err(e) => arithmetic(op, l as int, r as int) == Err::<int, FaultView>(e@),
        },
{
    match op {
        Builtin::Add => match l.checked_add(r) {
            Some(v) => Ok(v),
            None => Err(Fault::Overflow),
        },
        Builtin::Mul => match l.checked_mul(r) {
            Some(v) => Ok(v),
            None => Err(Fault::Overflow),
        },
        Builtin::Div => {
            if r == 0 {
                Err(Fault::DivisionByZero)
            } else {
                match l.checked_div(r) {
                    Some(v) => Ok(v),
                    None => Err(Fault::Overflow),
                }
            }
        },
        _ => {
            if r == 0 {
                Err(Fault::DivisionByZero)
            } else {
                match l.checked_rem(r) {
                    Some(v) => Ok(v),
                    None => Err(Fault::Overflow),
                }
            }
        },
    }
}

/// What a two-place operation gives on its two forced arguments.
fn binary(op: Builtin, l: Value, r: Value) -> (res: Result<Value, Fault>)
    requires
        op != Builtin::If,
    ensures
        outcome_of(res) == binary_result(op, l@, r@),
{
    if op == Builtin::Eq {
        Ok(Value::Literal(Literal::Boolean(l.same(&r))))
    } else {
        match (l, r) {
            (Value::Literal(Literal::Integer(a)), Value::Literal(Literal::Integer(b))) => {
                match compute(op, a, b) {
                    Ok(v) => Ok(Value::Literal(Literal::Integer(v))),
                    Err(e) => Err(e),
                }
            },
            _ => Err(Fault::NotAnInteger(op)),
        }
    }
}

/// Invokes a native operation on its full argument list.
///
/// The operands are the last arguments of the list, as many as the operation takes. Each
/// argument that the operation needs is forced, with `fuel` as its depth; `if` forces its
/// condition and one branch, never the other.
pub fn apply_builtin(op: Builtin, args: Vec<Value>, context: &Context, fuel: usize) -> (res: Result<
    Value,
    Fault,
>)
    ensures
        outcome_of(res) == invoke(op, terms_of(args@), context@, fuel as nat),
    decreases fuel, 1nat,
{
    let mut args = args;
    proof {
        crate::ast::lemma_terms_of(args@);
    }
    if args.len() < op.arity() {
        return Err(Fault::MissingArguments(op));
    }
    let ghost all = terms_of(args@);
    let ghost n = all.len() as int;
    if op == Builtin::If {
        let if_false = args.pop().unwrap();
        let if_true = args.pop().unwrap();
        let condition = args.pop().unwrap();
        match evaluate(condition, context, fuel) {
            Err(e) => Err(e),
            Ok(Value::Literal(Literal::Boolean(b))) => {
                if b {
                    evaluate(if_true, context, fuel)
                } else {
                    evaluate(if_false, context, fuel)
                }
            },
            Ok(_) => Err(Fault::NotABoolean),
        }
    } else {
        let rval = args.pop().unwrap();
        let lval = args.pop().unwrap();
        match evaluate(lval, context, fuel) {
            Err(e) => Err(e),
            Ok(l) => match evaluate(rval, context, fuel) {
                Err(e) => Err(e),
                Ok(r) => binary(op, l, r),
            },
        }
    }
}

/// Reduces `value` to weak head normal form under `context`, by call-by-name: an
/// argument is handed on as it stands and forced only where a native operation needs it.
///
/// `fuel` bounds how deep reductions may nest; where it runs out the result is
/// `Fault::DepthExhausted`. Every other fault is the one that the reduction meets first.
pub fn evaluate(value: Value, context: &Context, fuel: usize) -> (res: Result<Value, Fault>)
    ensures
        outcome_of(res) == eval(value@, context@, fuel as nat),
    decreases fuel, 0nat,
{
    match value {
        Value::Reference(name) => {
            match context.get(&name) {
                None => Err(Fault::UnboundName(name)),
                Some(referent) => {
                    if fuel == 0 {
                        Err(Fault::DepthExhausted)
                    } else {
                        evaluate(referent.clone(), context, fuel - 1)
                    }
                },
            }
        },
        Value::Apply(f, arg) => {
            if fuel == 0 {
                return Err(Fault::DepthExhausted);
            }
            match evaluate(*f, context, fuel - 1) {
                Err(e) => Err(e),
                Ok(Value::BuiltinLambda(b)) => {
                    let BuiltinLambda { op, num_params, args } = b;
                    let mut args = args;
                    proof {
                        lemma_terms_of_push(args@, *arg);
                        crate::ast::lemma_terms_of(args@.push(*arg));
                    }
                    args.push(*arg);
                    if args.len() == num_params {
                        apply_builtin(op, args, context, fuel - 1)
                    } else {
                        Ok(Value::BuiltinLambda(BuiltinLambda { op, num_params, args }))
                    }
                },
                Ok(Value::Lambda(param, body)) => {
                    evaluate(substitute_fully(*body, param, *arg), context, fuel - 1)
                },
                Ok(other) => Ok(Value::Apply(Box::new(other), arg)),
            }
        },
        other => Ok(other),
    }
}

} // verus!
