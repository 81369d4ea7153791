use mos::ast::{Builtin, BuiltinLambda, Literal, Value};
use mos::builtins::context_with_builtins;
use mos::context::Context;
use mos::evaluator::{apply_builtin, evaluate, substitute_fully, Fault};
use mos::parser::parse_statement;
use mos::ast::Statement;

const DEPTH: usize = 10_000;

fn var(text: &str) -> Value {
    Value::Reference(text.as_bytes().to_vec())
}

fn num(i: i128) -> Value {
    Value::Literal(Literal::Integer(i))
}

fn truth(b: bool) -> Value {
    Value::Literal(Literal::Boolean(b))
}

fn bytes(t: &str) -> Value {
    Value::Literal(Literal::Bytes(t.as_bytes().to_vec()))
}

fn app(f: Value, a: Value) -> Value {
    Value::Apply(Box::new(f), Box::new(a))
}

fn lam(param: &str, body: Value) -> Value {
    Value::Lambda(param.as_bytes().to_vec(), Box::new(body))
}

fn term(source: &str) -> Value {
    match parse_statement(source) {
        Ok(Statement::Print(value)) => value,
        other => panic!("{:?} is no term: {:?}", source, other),
    }
}

fn value_of(source: &str) -> Result<Value, Fault> {
    evaluate(term(source), &context_with_builtins(), DEPTH)
}

#[test]
fn arithmetic_nests() {
    assert_eq!(value_of("(add 2 (mul 3 4))"), Ok(num(14)));
}

#[test]
fn remainder_of_ten_by_three() {
    assert_eq!(value_of("(rem 10 3)"), Ok(num(1)));
}

#[test]
fn division_truncates() {
    assert_eq!(value_of("(div 7 2)"), Ok(num(3)));
}

#[test]
fn division_rounds_toward_zero_for_negative_operands() {
    assert_eq!(value_of("(div -7 2)"), Ok(num(-3)));
    assert_eq!(value_of("(div 7 -2)"), Ok(num(-3)));
    assert_eq!(value_of("(div -7 -2)"), Ok(num(3)));
    assert_eq!(value_of("(div 0 -2)"), Ok(num(0)));
}

#[test]
fn remainder_has_the_sign_of_the_dividend() {
    assert_eq!(value_of("(rem -7 2)"), Ok(num(-1)));
    assert_eq!(value_of("(rem 7 -2)"), Ok(num(1)));
    assert_eq!(value_of("(rem -7 -2)"), Ok(num(-1)));
    assert_eq!(value_of("(rem -6 2)"), Ok(num(0)));
}

#[test]
fn division_by_zero_faults() {
    assert_eq!(value_of("(div 1 0)"), Err(Fault::DivisionByZero));
    assert_eq!(value_of("(rem 1 0)"), Err(Fault::DivisionByZero));
}

#[test]
fn results_beyond_the_width_fault() {
    assert_eq!(
        value_of("(add 170141183460469231731687303715884105727 1)"),
        Err(Fault::Overflow)
    );
    assert_eq!(
        value_of("(add -170141183460469231731687303715884105728 -1)"),
        Err(Fault::Overflow)
    );
    assert_eq!(
        value_of("(mul 170141183460469231731687303715884105727 2)"),
        Err(Fault::Overflow)
    );
    assert_eq!(
        value_of("(div -170141183460469231731687303715884105728 -1)"),
        Err(Fault::Overflow)
    );
    assert_eq!(
        value_of("(rem -170141183460469231731687303715884105728 -1)"),
        Err(Fault::Overflow)
    );
    assert_eq!(
        value_of("(add 170141183460469231731687303715884105726 1)"),
        Ok(num(i128::MAX))
    );
}

#[test]
fn arithmetic_on_something_else_faults() {
    assert_eq!(value_of("(add 1 True)"), Err(Fault::NotAnInteger(Builtin::Add)));
    assert_eq!(value_of("(mul \"a\" 2)"), Err(Fault::NotAnInteger(Builtin::Mul)));
    assert_eq!(value_of("(div add 2)"), Err(Fault::NotAnInteger(Builtin::Div)));
    assert_eq!(value_of("(rem 1 (add 1))"), Err(Fault::NotAnInteger(Builtin::Rem)));
}

#[test]
fn both_operands_are_forced_before_their_kind_is_looked_at() {
    assert_eq!(value_of("(add True (div 1 0))"), Err(Fault::DivisionByZero));
    assert_eq!(value_of("(add (div 1 0) y)"), Err(Fault::DivisionByZero));
}

#[test]
fn if_never_forces_the_branch_not_taken() {
    assert_eq!(value_of("(if True 1 (div 1 0))"), Ok(num(1)));
    assert_eq!(value_of("(if False (div 1 0) 2)"), Ok(num(2)));
    assert_eq!(value_of("(if True 1 nowhere)"), Ok(num(1)));
}

#[test]
fn if_forces_the_branch_taken() {
    assert_eq!(value_of("(if (eq 1 1) (add 1 1) 0)"), Ok(num(2)));
    assert_eq!(value_of("(if True (div 1 0) 2)"), Err(Fault::DivisionByZero));
}

#[test]
fn if_on_something_else_faults() {
    assert_eq!(value_of("(if 1 2 3)"), Err(Fault::NotABoolean));
    assert_eq!(value_of("(if \"True\" 2 3)"), Err(Fault::NotABoolean));
}

#[test]
fn lambda_application_substitutes_the_argument() {
    let double = lam("x", app(app(var("add"), var("x")), var("x")));
    let context = context_with_builtins();
    assert_eq!(evaluate(app(double, num(5)), &context, DEPTH), Ok(num(10)));
}

#[test]
fn bound_lambda_is_applied_through_its_name() {
    let mut context = context_with_builtins();
    context.insert(b"double".to_vec(), term("\\x -> (add x x)"));
    assert_eq!(evaluate(term("(double 5)"), &context, DEPTH), Ok(num(10)));
    assert_eq!(evaluate(term("(double (double 5))"), &context, DEPTH), Ok(num(20)));
}

#[test]
fn equality_is_structural() {
    assert_eq!(value_of("(eq 3 3)"), Ok(truth(true)));
    assert_eq!(value_of("(eq 3 4)"), Ok(truth(false)));
    assert_eq!(value_of("(eq True True)"), Ok(truth(true)));
    assert_eq!(value_of("(eq \"a\" \"a\")"), Ok(truth(true)));
    assert_eq!(value_of("(eq \"a\" \"b\")"), Ok(truth(false)));
    assert_eq!(value_of("(eq 1 True)"), Ok(truth(false)));
    assert_eq!(value_of("(eq 1 \"1\")"), Ok(truth(false)));
}

#[test]
fn equality_forces_both_sides() {
    assert_eq!(value_of("(eq (add 1 2) 3)"), Ok(truth(true)));
    assert_eq!(value_of("(eq (add 1 2) (div 1 0))"), Err(Fault::DivisionByZero));
}

#[test]
fn equality_of_native_operations_looks_at_operation_arity_and_arguments() {
    assert_eq!(value_of("(eq add add)"), Ok(truth(true)));
    assert_eq!(value_of("(eq add mul)"), Ok(truth(false)));
    assert_eq!(value_of("(eq (add 1) (add 1))"), Ok(truth(true)));
    assert_eq!(value_of("(eq (add 1) (add 2))"), Ok(truth(false)));
    assert_eq!(value_of("(eq (add 1) add)"), Ok(truth(false)));
    let a = Value::BuiltinLambda(BuiltinLambda { op: Builtin::Add, num_params: 2, args: vec![] });
    let b = Value::BuiltinLambda(BuiltinLambda { op: Builtin::Add, num_params: 3, args: vec![] });
    assert!(a.same(&a.clone()));
    assert!(!a.same(&b));
}

#[test]
fn same_agrees_with_derived_equality() {
    let values = vec![
        num(1),
        num(2),
        truth(true),
        bytes("a"),
        bytes(""),
        var("a"),
        var("b"),
        lam("a", var("a")),
        lam("b", var("a")),
        lam("a", var("b")),
        app(var("a"), var("b")),
        app(var("a"), var("a")),
        Builtin::Add.fresh(),
        Builtin::If.fresh(),
    ];
    for a in &values {
        for b in &values {
            assert_eq!(a.same(b), a == b, "{:?} and {:?}", a, b);
        }
    }
}

#[test]
fn unbound_reference_faults_with_its_name() {
    let context = Context::new();
    assert_eq!(evaluate(var("y"), &context, DEPTH), Err(Fault::UnboundName(b"y".to_vec())));
    assert_eq!(evaluate(var("y"), &context, 0), Err(Fault::UnboundName(b"y".to_vec())));
    assert_eq!(value_of("(add 1 y)"), Err(Fault::UnboundName(b"y".to_vec())));
}

#[test]
fn reference_is_evaluated_anew_each_time() {
    let mut context = context_with_builtins();
    context.insert(b"three".to_vec(), term("(add 1 2)"));
    assert_eq!(evaluate(var("three"), &context, DEPTH), Ok(num(3)));
    assert_eq!(evaluate(term("(mul three three)"), &context, DEPTH), Ok(num(9)));
}

#[test]
fn normal_forms_are_returned_as_they_are() {
    let context = context_with_builtins();
    for value in [num(5), truth(false), bytes("t"), lam("x", var("nowhere")), Builtin::Add.fresh()] {
        assert_eq!(evaluate(value.clone(), &context, 0), Ok(value));
    }
}

#[test]
fn partial_application_collects_the_arguments() {
    let one = Value::BuiltinLambda(BuiltinLambda { op: Builtin::Add, num_params: 2, args: vec![num(1)] });
    assert_eq!(value_of("(add 1)"), Ok(one));
    let cond = Value::BuiltinLambda(BuiltinLambda {
        op: Builtin::If,
        num_params: 3,
        args: vec![truth(true), app(app(var("div"), num(1)), num(0))],
    });
    assert_eq!(value_of("(if True (div 1 0))"), Ok(cond));
    assert_eq!(value_of("add"), Ok(Builtin::Add.fresh()));
}

#[test]
fn partial_application_can_be_applied_further() {
    assert_eq!(value_of("((add 1) 2)"), Ok(num(3)));
    assert_eq!(value_of("(((if False) 1) 2)"), Ok(num(2)));
    let mut context = context_with_builtins();
    context.insert(b"inc".to_vec(), term("(add 1)"));
    assert_eq!(evaluate(term("(inc 41)"), &context, DEPTH), Ok(num(42)));
}

#[test]
fn arguments_are_collected_unevaluated() {
    let held = Value::BuiltinLambda(BuiltinLambda {
        op: Builtin::Add,
        num_params: 2,
        args: vec![app(app(var("div"), num(1)), num(0))],
    });
    assert_eq!(value_of("(add (div 1 0))"), Ok(held));
}

#[test]
fn saturated_operation_gives_its_result() {
    assert_eq!(value_of("(add 1 2)"), Ok(num(3)));
    assert_eq!(value_of("(add 1 2 3)"), Ok(app(num(3), num(3))));
}

#[test]
fn application_of_something_that_is_no_function_is_stuck() {
    assert_eq!(value_of("(1 2)"), Ok(app(num(1), num(2))));
    assert_eq!(value_of("(\"f\" (div 1 0))"), Ok(app(bytes("f"), term("(div 1 0)"))));
}

#[test]
fn arguments_are_passed_by_name() {
    let constant = lam("x", num(7));
    let context = context_with_builtins();
    assert_eq!(evaluate(app(constant, term("(div 1 0)")), &context, DEPTH), Ok(num(7)));
}

#[test]
fn depth_limit_stops_a_reduction_that_does_not_end() {
    let mut context = context_with_builtins();
    context.insert(b"loop".to_vec(), term("\\x -> (loop x)"));
    assert_eq!(evaluate(term("(loop 1)"), &context, 500), Err(Fault::DepthExhausted));
    context.insert(b"self".to_vec(), var("self"));
    assert_eq!(evaluate(var("self"), &context, 500), Err(Fault::DepthExhausted));
}

#[test]
fn depth_counts_nested_reductions() {
    let context = context_with_builtins();
    assert_eq!(evaluate(term("(add 1 2)"), &context, 1), Err(Fault::DepthExhausted));
    assert_eq!(evaluate(term("(add 1 2)"), &context, 2), Err(Fault::DepthExhausted));
    assert_eq!(evaluate(term("(add 1 2)"), &context, 3), Ok(num(3)));
    assert_eq!(evaluate(term("(add 1 2)"), &context, 4), Ok(num(3)));
    assert_eq!(evaluate(term("(add 1)"), &context, 2), Ok(term_add_one()));
}

fn term_add_one() -> Value {
    Value::BuiltinLambda(BuiltinLambda { op: Builtin::Add, num_params: 2, args: vec![num(1)] })
}

#[test]
fn recursion_through_a_binding() {
    let mut context = context_with_builtins();
    context.insert(
        b"fact".to_vec(),
        term("\\n -> (if (eq n 0) 1 (mul n (fact (add n -1))))"),
    );
    assert_eq!(evaluate(term("(fact 10)"), &context, DEPTH), Ok(num(3628800)));
}

#[test]
fn substitution_replaces_free_references_only() {
    let body = app(var("x"), lam("x", var("x")));
    assert_eq!(
        substitute_fully(body, b"x".to_vec(), num(1)),
        app(num(1), lam("x", var("x")))
    );
    let body = lam("y", app(var("x"), var("y")));
    assert_eq!(
        substitute_fully(body, b"x".to_vec(), num(1)),
        lam("y", app(num(1), var("y")))
    );
    assert_eq!(substitute_fully(var("z"), b"x".to_vec(), num(1)), var("z"));
    assert_eq!(substitute_fully(bytes("x"), b"x".to_vec(), num(1)), bytes("x"));
}

#[test]
fn substitution_does_not_rename_bound_names() {
    let body = lam("y", var("x"));
    assert_eq!(substitute_fully(body, b"x".to_vec(), var("y")), lam("y", var("y")));
}

#[test]
fn substitution_leaves_collected_arguments_alone() {
    let held = Value::BuiltinLambda(BuiltinLambda { op: Builtin::Add, num_params: 2, args: vec![var("x")] });
    assert_eq!(substitute_fully(held.clone(), b"x".to_vec(), num(1)), held);
}

#[test]
fn operation_takes_its_operands_from_the_end_of_the_list() {
    let context = Context::new();
    assert_eq!(apply_builtin(Builtin::Add, vec![num(100), num(1), num(2)], &context, 0), Ok(num(3)));
    assert_eq!(apply_builtin(Builtin::Div, vec![num(7), num(2)], &context, 0), Ok(num(3)));
    assert_eq!(
        apply_builtin(Builtin::If, vec![truth(false), num(1), num(2)], &context, 0),
        Ok(num(2))
    );
}

#[test]
fn operation_with_too_few_arguments_faults() {
    let context = Context::new();
    assert_eq!(
        apply_builtin(Builtin::Add, vec![num(1)], &context, 5),
        Err(Fault::MissingArguments(Builtin::Add))
    );
    assert_eq!(
        apply_builtin(Builtin::If, vec![truth(true), num(1)], &context, 5),
        Err(Fault::MissingArguments(Builtin::If))
    );
    let early = Value::BuiltinLambda(BuiltinLambda { op: Builtin::Add, num_params: 1, args: vec![] });
    assert_eq!(
        evaluate(app(early, num(1)), &context, 5),
        Err(Fault::MissingArguments(Builtin::Add))
    );
}

#[test]
fn context_binds_the_native_operations() {
    let context = context_with_builtins();
    for (name, op, arity) in [
        ("add", Builtin::Add, 2usize),
        ("mul", Builtin::Mul, 2),
        ("div", Builtin::Div, 2),
        ("rem", Builtin::Rem, 2),
        ("eq", Builtin::Eq, 2),
        ("if", Builtin::If, 3),
    ] {
        let expected = Value::BuiltinLambda(BuiltinLambda { op, num_params: arity, args: vec![] });
        assert_eq!(context.get(&name.as_bytes().to_vec()), Some(&expected));
        assert_eq!(op.name(), name.as_bytes().to_vec());
        assert_eq!(op.arity(), arity);
    }
    assert_eq!(context.get(&b"sub".to_vec()), None);
    assert!(!context.contains_key(&b"Add".to_vec()));
}

#[test]
fn context_keeps_the_latest_binding_of_a_name() {
    let mut context = Context::new();
    assert_eq!(context.get(&b"x".to_vec()), None);
    context.insert(b"x".to_vec(), num(1));
    context.insert(b"y".to_vec(), num(2));
    assert_eq!(context.get(&b"x".to_vec()), Some(&num(1)));
    context.insert(b"x".to_vec(), num(3));
    assert_eq!(context.get(&b"x".to_vec()), Some(&num(3)));
    assert_eq!(context.get(&b"y".to_vec()), Some(&num(2)));
    assert!(context.contains_key(&b"y".to_vec()));
    assert!(!context.contains_key(&b"z".to_vec()));
}

#[test]
fn substituting_a_name_for_itself_changes_nothing() {
    for source in ["x", "(f x (g x))", "\\x -> x", "\\y -> (x y)", "1"] {
        let value = term(source);
        assert_eq!(substitute_fully(value.clone(), b"x".to_vec(), var("x")), value);
    }
}

#[test]
fn addition_and_multiplication_commute() {
    assert_eq!(value_of("(add 3 -8)"), value_of("(add -8 3)"));
    assert_eq!(value_of("(mul 3 -8)"), value_of("(mul -8 3)"));
    assert_eq!(value_of("(mul 3 -8)"), Ok(num(-24)));
    assert_eq!(value_of("(add 3 True)"), value_of("(add True 3)"));
}

#[test]
fn quotient_and_remainder_make_up_the_dividend() {
    for (x, d) in [(7i128, 2i128), (-7, 2), (7, -2), (-7, -2), (0, 5), (5, 7), (-5, 7), (i128::MIN, 3)] {
        let context = context_with_builtins();
        let q = apply_builtin(Builtin::Div, vec![num(x), num(d)], &context, 0);
        let r = apply_builtin(Builtin::Rem, vec![num(x), num(d)], &context, 0);
        match (q, r) {
            (Ok(Value::Literal(Literal::Integer(q))), Ok(Value::Literal(Literal::Integer(r)))) => {
                assert_eq!(q * d + r, x);
                assert_eq!(q, x / d);
                assert_eq!(r, x % d);
            }
            other => panic!("{:?}", other),
        }
    }
}

#[test]
fn greater_depth_keeps_a_result() {
    let mut context = context_with_builtins();
    context.insert(b"fact".to_vec(), term("\\n -> (if (eq n 0) 1 (mul n (fact (add n -1))))"));
    let mut first: Option<usize> = None;
    for depth in 0..200usize {
        let result = evaluate(term("(fact 5)"), &context, depth);
        match first {
            None => {
                if result != Err(Fault::DepthExhausted) {
                    assert_eq!(result, Ok(num(120)));
                    first = Some(depth);
                }
            }
            Some(_) => assert_eq!(result, Ok(num(120))),
        }
    }
    assert!(first.is_some());
}

#[test]
fn copies_are_equal_to_what_they_copy() {
    let held = BuiltinLambda { op: Builtin::If, num_params: 3, args: vec![var("c"), num(1)] };
    assert_eq!(held.clone(), held);
    assert!(held.same(&held.clone()));
    let other = BuiltinLambda { op: Builtin::If, num_params: 3, args: vec![var("c"), num(2)] };
    assert!(!held.same(&other));
    let value = app(lam("x", Value::BuiltinLambda(held)), bytes("b"));
    assert_eq!(value.clone(), value);
    let statement = Statement::Bind(b"v".to_vec(), value.clone());
    assert_eq!(statement.clone(), statement);
    let program = mos::ast::Program { statements: vec![statement, Statement::Print(value)] };
    assert_eq!(program.clone(), program);
}
