use vstd::prelude::*;
use crate::ast::{Builtin, Lit, Term};
use crate::builtins::{builtin_arity, fresh_builtin};
use crate::ast::Stmt;
use crate::evaluator::{
    arithmetic, binary_result, eval, invoke, magnitude, subst, trunc_div, trunc_rem, FaultView,
};
use crate::grammar::fold_apply;
use crate::interpreter::{run_from, step};

verus! {

/// Currying: a native operation applied to fewer arguments than it takes evaluates to
/// the operation holding exactly those arguments, in order, and nothing is computed; given
/// all its arguments it evaluates to what the operation gives on them.
///
/// The application is the chain `(op a1 .. ak)`; a depth of `k` is enough to reach the
/// operation through it.
pub proof fn lemma_currying(op: Builtin, args: Seq<Term>, context: Map<Seq<u8>, Term>, fuel: nat)
    requires
        args.len() <= builtin_arity(op),
        fuel >= args.len(),
    ensures
        eval(fold_apply(seq![fresh_builtin(op)] + args), context, fuel) == (if args.len()
            < builtin_arity(op) {
            Ok::<Term, FaultView>(Term::Builtin(op, builtin_arity(op), args))
        } else {
            invoke(op, args, context, (fuel - 1) as nat)
        }),
    decreases args.len(),
{
    let chain = seq![fresh_builtin(op)] + args;
    if args.len() == 0 {
        assert(chain[0] == fresh_builtin(op));
        assert(args =~= Seq::<Term>::empty());
    } else {
        let before = args.drop_last();
        assert(chain.drop_last() =~= seq![fresh_builtin(op)] + before);
        assert(chain.last() == args.last());
        lemma_currying(op, before, context, (fuel - 1) as nat);
        assert(before.push(args.last()) =~= args);
    }
}

/// The condition of `if` decides alone which branch is forced: the result does not
/// depend on the branch that is not taken.
pub proof fn lemma_if_is_lazy(
    condition: Term,
    taken: Term,
    other1: Term,
    other2: Term,
    context: Map<Seq<u8>, Term>,
    fuel: nat,
)
    ensures
        eval(condition, context, fuel) == Ok::<Term, FaultView>(Term::Literal(Lit::Boolean(true)))
            ==> invoke(Builtin::If, seq![condition, taken, other1], context, fuel) == eval(
            taken,
            context,
            fuel,
        ) && invoke(Builtin::If, seq![condition, taken, other1], context, fuel) == invoke(
            Builtin::If,
            seq![condition, taken, other2],
            context,
            fuel,
        ),
        eval(condition, context, fuel) == Ok::<Term, FaultView>(Term::Literal(Lit::Boolean(false)))
            ==> invoke(Builtin::If, seq![condition, other1, taken], context, fuel) == eval(
            taken,
            context,
            fuel,
        ) && invoke(Builtin::If, seq![condition, other1, taken], context, fuel) == invoke(
            Builtin::If,
            seq![condition, other2, taken],
            context,
            fuel,
        ),
{
}

/// A reference to a name that the context does not bind faults with that name, whatever
/// the depth allowed.
pub proof fn lemma_unbound_reference(name: Seq<u8>, context: Map<Seq<u8>, Term>, fuel: nat)
    requires
        !context.dom().contains(name),
    ensures
        eval(Term::Reference(name), context, fuel) == Err::<Term, FaultView>(
            FaultView::UnboundName(name),
        ),
{
}

/// A greater depth changes no result but `DepthExhausted`: what an evaluation gives with
/// some depth, a value or a fault of another kind, it gives with every greater depth.
pub proof fn lemma_depth_is_monotone(term: Term, context: Map<Seq<u8>, Term>, fuel: nat, more: nat)
    requires
        fuel <= more,
        eval(term, context, fuel) != Err::<Term, FaultView>(FaultView::DepthExhausted),
    ensures
        eval(term, context, more) == eval(term, context, fuel),
    decreases fuel, 0nat,
{
    match term {
        Term::Reference(name) => {
            if context.dom().contains(name) {
                lemma_depth_is_monotone(context[name], context, (fuel - 1) as nat, (more - 1) as nat);
            }
        },
        Term::Apply(f, arg) => {
            let less = (fuel - 1) as nat;
            let most = (more - 1) as nat;
            lemma_depth_is_monotone(*f, context, less, most);
            match eval(*f, context, less) {
                Err(e) => {},
                Ok(Term::Builtin(op, num_params, args)) => {
                    let collected = args.push(*arg);
                    if collected.len() == num_params {
                        lemma_invoke_depth_is_monotone(op, collected, context, less, most);
                    }
                },
                Ok(Term::Lambda(param, body)) => {
                    lemma_depth_is_monotone(subst(*body, param, *arg), context, less, most);
                },
                Ok(_) => {},
            }
        },
        _ => {},
    }
}

/// A greater depth changes no result of a native operation but `DepthExhausted`.
pub proof fn lemma_invoke_depth_is_monotone(
    op: Builtin,
    args: Seq<Term>,
    context: Map<Seq<u8>, Term>,
    fuel: nat,
    more: nat,
)
    requires
        fuel <= more,
        invoke(op, args, context, fuel) != Err::<Term, FaultView>(FaultView::DepthExhausted),
    ensures
        invoke(op, args, context, more) == invoke(op, args, context, fuel),
    decreases fuel, 1nat,
{
    let n = args.len() as int;
    if n >= builtin_arity(op) {
        if op == Builtin::If {
            lemma_depth_is_monotone(args[n - 3], context, fuel, more);
            match eval(args[n - 3], context, fuel) {
                Ok(Term::Literal(Lit::Boolean(b))) => {
                    if b {
                        lemma_depth_is_monotone(args[n - 2], context, fuel, more);
                    } else {
                        lemma_depth_is_monotone(args[n - 1], context, fuel, more);
                    }
                },
                _ => {},
            }
        } else {
            lemma_depth_is_monotone(args[n - 2], context, fuel, more);
            match eval(args[n - 2], context, fuel) {
                Ok(_) => {
                    lemma_depth_is_monotone(args[n - 1], context, fuel, more);
                },
                Err(_) => {},
            }
        }
    }
}

/// Division rounds toward zero: quotient and remainder make up the dividend, the
/// remainder is smaller in magnitude than the divisor, and is zero or has the sign of the
/// dividend.
pub proof fn lemma_division_truncates(x: int, d: int)
    requires
        d != 0,
    ensures
        x == d * trunc_div(x, d) + trunc_rem(x, d),
        magnitude(trunc_rem(x, d)) < magnitude(d),
        trunc_rem(x, d) != 0 ==> (trunc_rem(x, d) < 0 <==> x < 0),
        magnitude(d * trunc_div(x, d)) <= magnitude(x),
{
    let a = magnitude(x);
    let b = magnitude(d);
    vstd::arithmetic::div_mod::lemma_fundamental_div_mod(a, b);
    vstd::arithmetic::div_mod::lemma_mod_bound(a, b);
    let q = a / b;
    let r = a % b;
    assert(a == b * q + r);
    assert(0 <= q) by {
        vstd::arithmetic::div_mod::lemma_div_pos_is_pos(a, b);
    }
    assert(b * q >= 0) by (nonlinear_arith)
        requires
            b > 0,
            q >= 0,
    ;
    if x < 0 && d < 0 {
        assert(d * q == -(b * q)) by (nonlinear_arith)
            requires
                d == -b,
        ;
    } else if x < 0 {
        assert(d * (-q) == -(b * q)) by (nonlinear_arith)
            requires
                d == b,
        ;
    } else if d < 0 {
        assert(d * (-q) == b * q) by (nonlinear_arith)
            requires
                d == -b,
        ;
    }
}

/// Addition and multiplication do not depend on the order of their operands.
pub proof fn lemma_arithmetic_commutes(l: Term, r: Term)
    ensures
        binary_result(Builtin::Add, l, r) == binary_result(Builtin::Add, r, l),
        binary_result(Builtin::Mul, l, r) == binary_result(Builtin::Mul, r, l),
        binary_result(Builtin::Eq, l, r) == binary_result(Builtin::Eq, r, l),
{
    match (l, r) {
        (Term::Literal(Lit::Integer(a)), Term::Literal(Lit::Integer(b))) => {
            assert(a * b == b * a) by (nonlinear_arith);
        },
        _ => {},
    }
}

/// An arithmetic operation gives an integer of the language or a fault, never an integer
/// that does not fit.
pub proof fn lemma_arithmetic_stays_in_range(op: Builtin, l: int, r: int)
    requires
        i128::MIN <= l <= i128::MAX,
        i128::MIN <= r <= i128::MAX,
    ensures
        arithmetic(op, l, r) matches Ok(v) ==> i128::MIN <= v <= i128::MAX,
{
    if op == Builtin::Rem && r != 0 {
        lemma_division_truncates(l, r);
    }
}

/// Putting a name in its own place changes nothing.
pub proof fn lemma_substituting_a_name_for_itself(term: Term, name: Seq<u8>)
    ensures
        subst(term, name, Term::Reference(name)) == term,
    decreases term,
{
    match term {
        Term::Apply(l, r) => {
            lemma_substituting_a_name_for_itself(*l, name);
            lemma_substituting_a_name_for_itself(*r, name);
        },
        Term::Lambda(param, body) => {
            lemma_substituting_a_name_for_itself(*body, name);
        },
        _ => {},
    }
}

/// The context only grows: a statement leaves every binding as it was, and adds at most
/// the one that it makes. A statement that faults changes nothing.
pub proof fn lemma_context_only_grows(stmt: Stmt, context: Map<Seq<u8>, Term>, fuel: nat)
    ensures
        forall|name: Seq<u8>| #[trigger]
            context.dom().contains(name) ==> step(stmt, context, fuel).0.dom().contains(name) && step(
                stmt,
                context,
                fuel,
            ).0[name] == context[name],
        step(stmt, context, fuel).1 is Err ==> step(stmt, context, fuel).0 == context,
        stmt is Print ==> step(stmt, context, fuel).0 == context,
{
}

/// Binding a name that is bound already faults, and the run ends there: what it showed
/// before is all that it shows, whatever statements follow.
pub proof fn lemma_rebinding_ends_the_run(
    name: Seq<u8>,
    term: Term,
    rest: Seq<Stmt>,
    context: Map<Seq<u8>, Term>,
    fuel: nat,
    shown: Seq<Seq<u8>>,
)
    requires
        context.dom().contains(name),
    ensures
        run_from(seq![Stmt::Bind(name, term)] + rest, context, fuel, shown) == (
            shown,
            Some(FaultView::Redefinition(name)),
        ),
{
    let stmts = seq![Stmt::Bind(name, term)] + rest;
    assert(stmts[0] == Stmt::Bind(name, term));
}

} // verus!
