use vstd::prelude::*;
use crate::ast::{terms_of, Builtin, BuiltinLambda, Name, Term, Value};
use crate::context::Context;

verus! {

/// The name under which a native operation is bound.
pub open spec fn builtin_name(op: Builtin) -> Seq<u8> {
    match op {
        // "add"
        Builtin::Add => seq![97u8, 100u8, 100u8],
        // "mul"
        Builtin::Mul => seq![109u8, 117u8, 108u8],
        // "div"
        Builtin::Div => seq![100u8, 105u8, 118u8],
        // "rem"
        Builtin::Rem => seq![114u8, 101u8, 109u8],
        // "eq"
        Builtin::Eq => seq![101u8, 113u8],
        // "if"
        Builtin::If => seq![105u8, 102u8],
    }
}

/// The number of arguments that a native operation takes.
pub open spec fn builtin_arity(op: Builtin) -> nat {
    match op {
        Builtin::If => 3,
        _ => 2,
    }
}

/// A native operation that has been given no argument yet.
pub open spec fn fresh_builtin(op: Builtin) -> Term {
    Term::Builtin(op, builtin_arity(op), Seq::empty())
}

/// The bindings that every run starts with: each native operation under its name.
pub open spec fn builtin_bindings() -> Map<Seq<u8>, Term> {
    Map::<Seq<u8>, Term>::empty().insert(builtin_name(Builtin::If), fresh_builtin(Builtin::If)).insert(
        builtin_name(Builtin::Eq),
        fresh_builtin(Builtin::Eq),
    ).insert(builtin_name(Builtin::Add), fresh_builtin(Builtin::Add)).insert(
        builtin_name(Builtin::Mul),
        fresh_builtin(Builtin::Mul),
    ).insert(builtin_name(Builtin::Div), fresh_builtin(Builtin::Div)).insert(
        builtin_name(Builtin::Rem),
        fresh_builtin(Builtin::Rem),
    )
}

impl Builtin {
    /// The name under which the operation is bound.
    pub fn name(self) -> (res: Name)
        ensures
            res@ == builtin_name(self),
    {
        let res = match self {
            Builtin::Add => vec![97u8, 100u8, 100u8],
            Builtin::Mul => vec![109u8, 117u8, 108u8],
            Builtin::Div => vec![100u8, 105u8, 118u8],
            Builtin::Rem => vec![114u8, 101u8, 109u8],
            Builtin::Eq => vec![101u8, 113u8],
            Builtin::If => vec![105u8, 102u8],
        };
        assert(res@ =~= builtin_name(self));
        res
    }

    /// The number of arguments that the operation takes.
    pub fn arity(self) -> (res: usize)
        ensures
            res == builtin_arity(self),
    {
        match self {
            Builtin::If => 3,
            _ => 2,
        }
    }

    /// The operation as a term that has been given no argument yet.
    pub fn fresh(self) -> (res: Value)
        ensures
            res@ == fresh_builtin(self),
    {
        let args: Vec<Value> = Vec::new();
        assert(terms_of(args@) =~= Seq::<Term>::empty());
        Value::BuiltinLambda(BuiltinLambda { op: self, num_params: self.arity(), args })
    }
}

/// The context that a run starts with: the native operations, each under its name.
pub fn context_with_builtins() -> (res: Context)
    ensures
        res@ == builtin_bindings(),
{
    let mut context = Context::new();
    context.insert(Builtin::If.name(), Builtin::If.fresh());
    context.insert(Builtin::Eq.name(), Builtin::Eq.fresh());
    context.insert(Builtin::Add.name(), Builtin::Add.fresh());
    context.insert(Builtin::Mul.name(), Builtin::Mul.fresh());
    context.insert(Builtin::Div.name(), Builtin::Div.fresh());
    context.insert(Builtin::Rem.name(), Builtin::Rem.fresh());
    context
}

} // verus!
