use mos::ast::{Builtin, BuiltinLambda, Literal, Program, Statement, Value};
use mos::formatter::application_list;
use mos::parser::{parse, parse_bytes, parse_statement};

fn r(text: &str) -> Value {
    Value::Reference(text.as_bytes().to_vec())
}

fn n(i: i128) -> Value {
    Value::Literal(Literal::Integer(i))
}

fn ap(f: Value, a: Value) -> Value {
    Value::Apply(Box::new(f), Box::new(a))
}

fn shown(value: &Value) -> String {
    String::from_utf8(value.render()).unwrap()
}

fn reparsed(source: &str) -> Program {
    let program = parse(source).unwrap();
    let text = program.render();
    let again = parse_bytes(&text).unwrap();
    assert_eq!(again, program, "{:?} shown as {:?}", source, String::from_utf8_lossy(&text));
    assert_eq!(again.render(), text);
    program
}

#[test]
fn integers_are_shown_in_decimal() {
    assert_eq!(shown(&n(0)), "0");
    assert_eq!(shown(&n(7)), "7");
    assert_eq!(shown(&n(10)), "10");
    assert_eq!(shown(&n(-1)), "-1");
    assert_eq!(shown(&n(1234567890)), "1234567890");
    assert_eq!(shown(&n(i128::MAX)), "170141183460469231731687303715884105727");
    assert_eq!(shown(&n(i128::MIN)), "-170141183460469231731687303715884105728");
    assert_eq!(Literal::Integer(-305).render(), b"-305".to_vec());
}

#[test]
fn truth_values_are_shown_as_words() {
    assert_eq!(shown(&Value::Literal(Literal::Boolean(true))), "True");
    assert_eq!(shown(&Value::Literal(Literal::Boolean(false))), "False");
}

#[test]
fn byte_strings_are_shown_between_quotes_unescaped() {
    assert_eq!(shown(&Value::Literal(Literal::Bytes(b"a b\\n".to_vec()))), "\"a b\\n\"");
    assert_eq!(shown(&Value::Literal(Literal::Bytes(vec![]))), "\"\"");
    assert_eq!(Literal::Bytes(vec![255, 34]).render(), vec![34, 255, 34, 34]);
}

#[test]
fn references_are_shown_as_their_names() {
    assert_eq!(shown(&r("x_1'")), "x_1'");
}

#[test]
fn lambdas_are_shown_with_an_arrow() {
    let value = Value::Lambda(b"x".to_vec(), Box::new(Value::Lambda(b"y".to_vec(), Box::new(ap(r("x"), r("y"))))));
    assert_eq!(shown(&value), "\\x -> \\y -> (x y)");
}

#[test]
fn applications_are_shown_as_one_flat_list() {
    assert_eq!(shown(&ap(ap(ap(r("f"), r("a")), r("b")), r("c"))), "(f a b c)");
    assert_eq!(shown(&ap(r("f"), ap(r("g"), r("a")))), "(f (g a))");
    assert_eq!(shown(&ap(ap(r("f"), ap(r("g"), n(1))), ap(r("h"), n(2)))), "(f (g 1) (h 2))");
}

#[test]
fn native_operations_are_shown_by_name() {
    assert_eq!(shown(&Builtin::Add.fresh()), "add");
    assert_eq!(shown(&Builtin::If.fresh()), "if");
    let held = BuiltinLambda { op: Builtin::Mul, num_params: 2, args: vec![n(3)] };
    assert_eq!(held.render(), b"(mul 3)".to_vec());
    let held = BuiltinLambda { op: Builtin::If, num_params: 3, args: vec![ap(r("eq"), n(1)), r("x")] };
    assert_eq!(shown(&Value::BuiltinLambda(held)), "(if (eq 1) x)");
    for (op, name) in [
        (Builtin::Add, "add"),
        (Builtin::Mul, "mul"),
        (Builtin::Div, "div"),
        (Builtin::Rem, "rem"),
        (Builtin::Eq, "eq"),
        (Builtin::If, "if"),
    ] {
        assert_eq!(shown(&op.fresh()), name);
    }
}

#[test]
fn statements_end_with_a_semicolon() {
    assert_eq!(Statement::Bind(b"x".to_vec(), n(1)).render(), b"x = 1;".to_vec());
    assert_eq!(Statement::Print(ap(r("f"), n(1))).render(), b"(f 1);".to_vec());
}

#[test]
fn programs_are_shown_line_by_line() {
    let program = Program {
        statements: vec![Statement::Bind(b"x".to_vec(), n(1)), Statement::Print(r("x"))],
    };
    assert_eq!(program.render(), b"x = 1;\nx;\n".to_vec());
    assert_eq!(Program { statements: vec![] }.render(), Vec::<u8>::new());
}

#[test]
fn application_list_is_the_operator_and_its_arguments() {
    let value = ap(ap(r("f"), ap(r("g"), r("a"))), r("b"));
    let g = ap(r("g"), r("a"));
    assert_eq!(application_list(&value), vec![&r("f"), &g, &r("b")]);
    assert_eq!(application_list(&r("f")), vec![&r("f")]);
    assert_eq!(application_list(&n(1)), vec![&n(1)]);
}

#[test]
fn shown_program_reads_back_as_the_same_program() {
    reparsed("");
    reparsed("x = 1");
    reparsed("x");
    reparsed("True");
    reparsed("True = False");
    reparsed("Truex");
    reparsed("x = 1; x = 2;");
    reparsed("f = \\x -> \\y' -> (add x (mul y' -2));\n(f 1 2)\n");
    reparsed("  ( f\n( g  \"a b\" ( h ) )\t007 )  ;");
    reparsed("\"\" \"\\\" x' y_ -0 (((a)))");
    reparsed("k = \\a->\\b->a (k 1 (div 1 0)) (if True (k 1) \"no\")");
    reparsed("-170141183460469231731687303715884105728 170141183460469231731687303715884105727");
}

#[test]
fn shown_program_may_differ_from_its_source_in_spacing_only() {
    let program = parse(" x=1  (f   a)\n\n").unwrap();
    assert_eq!(program.render(), b"x = 1;\n(f a);\n".to_vec());
}

#[test]
fn shown_statement_reads_back_as_the_same_statement() {
    for source in ["x = \\y -> (y 1)", "(add 1 2)", "\"s\"", "False", "q'"] {
        let statement = parse_statement(source).unwrap();
        let text = String::from_utf8(statement.render()).unwrap();
        assert_eq!(parse_statement(&text), Ok(statement));
    }
}
