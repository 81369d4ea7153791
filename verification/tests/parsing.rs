use mos::ast::{Literal, Program, Statement, Value};
use mos::grammar::{Expected, Rule};
use mos::parser::{make_application, parse, parse_bytes, parse_statement, parse_statement_bytes, Error};

fn name(text: &str) -> Vec<u8> {
    text.as_bytes().to_vec()
}

fn reference(text: &str) -> Value {
    Value::Reference(name(text))
}

fn integer(i: i128) -> Value {
    Value::Literal(Literal::Integer(i))
}

fn apply(f: Value, a: Value) -> Value {
    Value::Apply(Box::new(f), Box::new(a))
}

fn lambda(param: &str, body: Value) -> Value {
    Value::Lambda(name(param), Box::new(body))
}

fn failure_of(source: &str) -> Error {
    match parse_statement(source) {
        Ok(statement) => panic!("{:?} was read from {:?}", statement, source),
        Err(e) => e,
    }
}

#[test]
fn empty_text_is_the_empty_program() {
    assert_eq!(parse(""), Ok(Program { statements: vec![] }));
}

#[test]
fn white_space_alone_is_the_empty_program() {
    assert_eq!(parse(" \t\r\n  "), Ok(Program { statements: vec![] }));
}

#[test]
fn bind_and_print_statements_in_order() {
    let program = parse("x = 1;\nx;\n").unwrap();
    assert_eq!(
        program.statements,
        vec![Statement::Bind(name("x"), integer(1)), Statement::Print(reference("x"))]
    );
}

#[test]
fn semicolon_is_optional() {
    let with = parse("x = 1; (add x 2);").unwrap();
    let without = parse("x = 1 (add x 2)").unwrap();
    assert_eq!(with, without);
    assert_eq!(with.statements.len(), 2);
}

#[test]
fn application_folds_to_the_left() {
    let expected = apply(apply(apply(reference("f"), reference("a")), reference("b")), reference("c"));
    assert_eq!(parse_statement("(f a b c)"), Ok(Statement::Print(expected)));
}

#[test]
fn single_item_list_is_the_item() {
    assert_eq!(parse_statement("(x)"), Ok(Statement::Print(reference("x"))));
    assert_eq!(parse_statement("((x))"), Ok(Statement::Print(reference("x"))));
}

#[test]
fn nested_lists_group_arguments() {
    let expected = apply(reference("f"), apply(reference("g"), reference("a")));
    assert_eq!(parse_statement("(f (g a))"), Ok(Statement::Print(expected)));
    let grouped_head = apply(apply(reference("f"), reference("a")), reference("b"));
    assert_eq!(parse_statement("((f a) b)"), Ok(Statement::Print(grouped_head)));
}

#[test]
fn items_need_no_space_between_them() {
    let expected = apply(
        apply(reference("f"), Value::Literal(Literal::Bytes(name("a")))),
        apply(reference("x'"), reference("y")),
    );
    assert_eq!(parse_statement("(f\"a\"(x'y))"), Ok(Statement::Print(expected)));
}

#[test]
fn lambdas_nest_to_the_right() {
    let expected = lambda("x", lambda("y", apply(apply(reference("add"), reference("x")), reference("y"))));
    assert_eq!(
        parse_statement("f = \\x -> \\y -> (add x y)"),
        Ok(Statement::Bind(name("f"), expected))
    );
}

#[test]
fn arrow_may_stand_without_spaces() {
    assert_eq!(parse_statement("\\x->x"), Ok(Statement::Print(lambda("x", reference("x")))));
    assert_eq!(parse_statement("\\x  \n->\t x"), Ok(Statement::Print(lambda("x", reference("x")))));
}

#[test]
fn identifiers_take_letters_digits_underscores_and_one_prime() {
    assert_eq!(parse_statement("a_1B'"), Ok(Statement::Print(reference("a_1B'"))));
    assert_eq!(parse_statement("x'' "), Err(Error {
        offset: 2,
        line: 0,
        column: 2,
        expected: Expected::EndOfInput,
        trail: vec![],
    }));
    assert!(parse_statement("_x").is_err());
    assert!(parse_statement("1x = 2").is_err());
}

#[test]
fn literals_of_each_kind() {
    assert_eq!(parse_statement("True"), Ok(Statement::Print(Value::Literal(Literal::Boolean(true)))));
    assert_eq!(parse_statement("False"), Ok(Statement::Print(Value::Literal(Literal::Boolean(false)))));
    assert_eq!(
        parse_statement("\"hello world\""),
        Ok(Statement::Print(Value::Literal(Literal::Bytes(name("hello world")))))
    );
    assert_eq!(parse_statement("\"\""), Ok(Statement::Print(Value::Literal(Literal::Bytes(vec![])))));
    assert_eq!(parse_statement("42"), Ok(Statement::Print(integer(42))));
    assert_eq!(parse_statement("-42"), Ok(Statement::Print(integer(-42))));
    assert_eq!(parse_statement("007"), Ok(Statement::Print(integer(7))));
    assert_eq!(parse_statement("-0"), Ok(Statement::Print(integer(0))));
}

#[test]
fn byte_strings_keep_their_bytes_unescaped() {
    assert_eq!(
        parse_statement("\"a\\n(b) é\""),
        Ok(Statement::Print(Value::Literal(Literal::Bytes("a\\n(b) é".as_bytes().to_vec()))))
    );
    assert_eq!(
        parse_statement_bytes(&[34, 255, 0, 34]),
        Ok(Statement::Print(Value::Literal(Literal::Bytes(vec![255, 0]))))
    );
}

#[test]
fn integers_span_the_whole_width() {
    assert_eq!(
        parse_statement("170141183460469231731687303715884105727"),
        Ok(Statement::Print(integer(i128::MAX)))
    );
    assert_eq!(
        parse_statement("-170141183460469231731687303715884105728"),
        Ok(Statement::Print(integer(i128::MIN)))
    );
}

#[test]
fn integers_beyond_the_width_are_rejected() {
    let e = failure_of("170141183460469231731687303715884105728");
    assert_eq!((e.offset, e.expected), (0, Expected::IntegerInRange));
    let e = failure_of("(f -170141183460469231731687303715884105729)");
    assert_eq!((e.offset, e.expected), (3, Expected::IntegerInRange));
    let e = failure_of("999999999999999999999999999999999999999999999999999999999999");
    assert_eq!((e.offset, e.expected), (0, Expected::IntegerInRange));
}

#[test]
fn plus_sign_starts_no_integer() {
    let e = failure_of("+5");
    assert_eq!((e.offset, e.expected), (0, Expected::Term));
}

#[test]
fn name_that_begins_with_a_truth_value_reads_as_the_truth_value_first() {
    let program = parse("Truex").unwrap();
    assert_eq!(
        program.statements,
        vec![
            Statement::Print(Value::Literal(Literal::Boolean(true))),
            Statement::Print(reference("x")),
        ]
    );
    assert_eq!(parse_statement("Tru"), Ok(Statement::Print(reference("Tru"))));
    assert_eq!(
        parse_statement("True = 1"),
        Ok(Statement::Bind(name("True"), integer(1)))
    );
}

#[test]
fn lambda_is_no_item_of_an_application() {
    let e = failure_of("((\\x -> x) 5)");
    assert_eq!((e.offset, e.expected), (2, Expected::Term));
}

#[test]
fn whole_text_must_be_read() {
    let e = match parse("x = 1; )") {
        Ok(p) => panic!("{:?}", p),
        Err(e) => e,
    };
    assert_eq!(e.offset, 7);
    assert_eq!(e.expected, Expected::Term);
    assert_eq!(e.trail, vec![Rule::Program, Rule::Statement, Rule::PrintStatement]);
    let e = failure_of("x y");
    assert_eq!((e.offset, e.expected, e.trail), (2, Expected::EndOfInput, vec![]));
}

#[test]
fn each_expectation_has_its_input() {
    assert_eq!(failure_of("\\ -> x").expected, Expected::Letter);
    assert_eq!(failure_of("\\ -> x").trail, vec![Rule::Statement, Rule::PrintStatement, Rule::Identifier]);
    assert_eq!(failure_of("\\x x").expected, Expected::Arrow);
    assert_eq!(failure_of("\\x - > x").expected, Expected::Arrow);
    assert_eq!(failure_of("()").expected, Expected::Term);
    assert_eq!(failure_of("").expected, Expected::Term);
    assert_eq!(failure_of("(f a").expected, Expected::ClosingParen);
    assert_eq!(failure_of("(f a ;").expected, Expected::ClosingParen);
    assert_eq!(failure_of("\"abc").expected, Expected::ClosingQuote);
    assert_eq!(failure_of("(f -)").expected, Expected::Digit);
    assert_eq!(failure_of("-").expected, Expected::Digit);
    assert_eq!(failure_of("1 1").expected, Expected::EndOfInput);
}

#[test]
fn failure_inside_a_binding_names_the_binding() {
    let e = failure_of("x = (f \"abc)");
    assert_eq!(e.offset, 12);
    assert_eq!(e.expected, Expected::ClosingQuote);
    assert_eq!(e.trail, vec![Rule::Statement, Rule::BindStatement]);
}

#[test]
fn deepest_failure_of_a_list_is_reported() {
    let e = failure_of("(f (g -x))");
    assert_eq!((e.offset, e.expected), (7, Expected::Digit));
    let e = failure_of("(f a ]");
    assert_eq!((e.offset, e.expected), (5, Expected::ClosingParen));
}

#[test]
fn line_and_column_count_from_zero() {
    let e = match parse("x = 1;\ny = 2;\n  z = )") {
        Ok(p) => panic!("{:?}", p),
        Err(e) => e,
    };
    assert_eq!((e.offset, e.line, e.column), (20, 2, 6));
    let e = match parse("\n\n)") {
        Ok(p) => panic!("{:?}", p),
        Err(e) => e,
    };
    assert_eq!((e.offset, e.line, e.column), (2, 2, 0));
}

#[test]
fn statement_text_may_have_white_space_around_it() {
    assert_eq!(parse_statement("  x = 1 ;  \n"), Ok(Statement::Bind(name("x"), integer(1))));
    assert_eq!(parse_statement("\t(f  a)\n"), Ok(Statement::Print(apply(reference("f"), reference("a")))));
}

#[test]
fn text_and_bytes_read_alike() {
    let source = "f = \\x -> (mul x 2); (f 21)";
    assert_eq!(parse(source), parse_bytes(source.as_bytes()));
    assert_eq!(parse_statement("(f 21)"), parse_statement_bytes(b"(f 21)"));
}

#[test]
fn make_application_of_one_two_and_three_values() {
    assert_eq!(make_application(vec![reference("f")]), reference("f"));
    assert_eq!(make_application(vec![reference("f"), integer(1)]), apply(reference("f"), integer(1)));
    assert_eq!(
        make_application(vec![reference("f"), integer(1), integer(2)]),
        apply(apply(reference("f"), integer(1)), integer(2))
    );
}
