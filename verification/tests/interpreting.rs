use mos::ast::{Builtin, Literal, Program, Statement, Value};
use mos::builtins::context_with_builtins;
use mos::context::Context;
use mos::evaluator::Fault;
use mos::grammar::{Expected, Rule};
use mos::interpreter::{execute_statement, interpret_line, run, LineOutcome, RunReport};
use mos::parser::{parse, Error};

const DEPTH: usize = 10_000;

fn report(source: &str) -> RunReport {
    run(parse(source).unwrap(), DEPTH)
}

fn lines(texts: &[&str]) -> Vec<Vec<u8>> {
    texts.iter().map(|t| t.as_bytes().to_vec()).collect()
}

#[test]
fn binding_shows_nothing_and_extends_the_context() {
    let mut context = Context::new();
    let statement = Statement::Bind(b"x".to_vec(), Value::Literal(Literal::Integer(1)));
    assert_eq!(execute_statement(statement, &mut context, DEPTH), Ok(None));
    assert_eq!(context.get(&b"x".to_vec()), Some(&Value::Literal(Literal::Integer(1))));
}

#[test]
fn binding_is_not_evaluated() {
    let mut context = context_with_builtins();
    let program = parse("x = (div 1 0)").unwrap();
    for statement in program.statements {
        assert_eq!(execute_statement(statement, &mut context, DEPTH), Ok(None));
    }
    assert!(context.contains_key(&b"x".to_vec()));
}

#[test]
fn rebinding_faults_and_keeps_the_first_binding() {
    let mut context = Context::new();
    let first = Statement::Bind(b"x".to_vec(), Value::Literal(Literal::Integer(1)));
    let second = Statement::Bind(b"x".to_vec(), Value::Literal(Literal::Integer(2)));
    assert_eq!(execute_statement(first, &mut context, DEPTH), Ok(None));
    assert_eq!(
        execute_statement(second, &mut context, DEPTH),
        Err(Fault::Redefinition(b"x".to_vec()))
    );
    assert_eq!(context.get(&b"x".to_vec()), Some(&Value::Literal(Literal::Integer(1))));
}

#[test]
fn rebinding_stops_the_program() {
    let outcome = report("x = 1; x = 2;");
    assert_eq!(outcome.fault, Some(Fault::Redefinition(b"x".to_vec())));
    assert_eq!(outcome.shown, lines(&[]));
    let outcome = report("x = 1; x; x = 2; x;");
    assert_eq!(outcome.fault, Some(Fault::Redefinition(b"x".to_vec())));
    assert_eq!(outcome.shown, lines(&["1"]));
}

#[test]
fn native_operation_cannot_be_rebound() {
    let outcome = report("add = 1;");
    assert_eq!(outcome.fault, Some(Fault::Redefinition(b"add".to_vec())));
}

#[test]
fn print_of_an_unbound_name_faults_with_the_name() {
    let mut context = context_with_builtins();
    let statement = Statement::Print(Value::Reference(b"y".to_vec()));
    assert_eq!(
        execute_statement(statement, &mut context, DEPTH),
        Err(Fault::UnboundName(b"y".to_vec()))
    );
}

#[test]
fn print_shows_the_value() {
    let mut context = context_with_builtins();
    let program = parse("(add 2 (mul 3 4)) (add 1) \\x -> x \"s\" (eq 1 1) (1 2)").unwrap();
    let mut shown = Vec::new();
    for statement in program.statements {
        shown.push(execute_statement(statement, &mut context, DEPTH).unwrap().unwrap());
    }
    assert_eq!(shown, lines(&["14", "(add 1)", "\\x -> x", "\"s\"", "True", "(1 2)"]));
}

#[test]
fn program_runs_in_order() {
    let outcome = report("double = \\x -> (add x x);\n(double 5);\n(double (double 1))");
    assert_eq!(outcome, RunReport { shown: lines(&["10", "4"]), fault: None });
}

#[test]
fn empty_program_shows_nothing() {
    assert_eq!(run(Program { statements: vec![] }, DEPTH), RunReport { shown: vec![], fault: None });
}

#[test]
fn fault_ends_the_run_and_keeps_what_was_shown() {
    let outcome = report("1; (div 1 0); 2;");
    assert_eq!(outcome, RunReport { shown: lines(&["1"]), fault: Some(Fault::DivisionByZero) });
}

#[test]
fn binding_may_refer_to_a_later_binding() {
    let outcome = report("a = (add b 1); b = 41; a;");
    assert_eq!(outcome, RunReport { shown: lines(&["42"]), fault: None });
}

#[test]
fn run_stops_a_program_that_does_not_end() {
    let outcome = run(parse("loop = \\x -> (loop x); 1; (loop 1); 2;").unwrap(), 200);
    assert_eq!(outcome, RunReport { shown: lines(&["1"]), fault: Some(Fault::DepthExhausted) });
}

#[test]
fn session_keeps_its_context_from_line_to_line() {
    let mut context = context_with_builtins();
    assert_eq!(interpret_line("inc = (add 1)", &mut context, DEPTH), LineOutcome::Bound);
    assert_eq!(interpret_line("(inc 1)", &mut context, DEPTH), LineOutcome::Shown(b"2".to_vec()));
    assert_eq!(interpret_line("inc", &mut context, DEPTH), LineOutcome::Shown(b"(add 1)".to_vec()));
}

#[test]
fn session_skips_an_empty_line() {
    let mut context = Context::new();
    assert_eq!(interpret_line("", &mut context, DEPTH), LineOutcome::Blank);
}

#[test]
fn session_rejects_what_is_no_statement() {
    let mut context = context_with_builtins();
    assert_eq!(
        interpret_line("(add 1", &mut context, DEPTH),
        LineOutcome::Rejected(Error {
            offset: 6,
            line: 0,
            column: 6,
            expected: Expected::ClosingParen,
            trail: vec![Rule::Statement, Rule::PrintStatement],
        })
    );
    assert_eq!(
        interpret_line("x = 1; y = 2", &mut context, DEPTH),
        LineOutcome::Rejected(Error {
            offset: 7,
            line: 0,
            column: 7,
            expected: Expected::EndOfInput,
            trail: vec![],
        })
    );
    assert!(!context.contains_key(&b"x".to_vec()));
    assert!(matches!(interpret_line("   ", &mut context, DEPTH), LineOutcome::Rejected(_)));
}

#[test]
fn session_goes_on_after_a_fault() {
    let mut context = context_with_builtins();
    assert_eq!(interpret_line("x = 1", &mut context, DEPTH), LineOutcome::Bound);
    assert_eq!(
        interpret_line("x = 2", &mut context, DEPTH),
        LineOutcome::Faulted(Fault::Redefinition(b"x".to_vec()))
    );
    assert_eq!(
        interpret_line("(add x True)", &mut context, DEPTH),
        LineOutcome::Faulted(Fault::NotAnInteger(Builtin::Add))
    );
    assert_eq!(interpret_line("x", &mut context, DEPTH), LineOutcome::Shown(b"1".to_vec()));
}

#[test]
fn fault_messages() {
    let text = |f: Fault| String::from_utf8(f.message()).unwrap();
    assert_eq!(text(Fault::UnboundName(b"y".to_vec())), "Value with name 'y' does not exist in the context");
    assert_eq!(text(Fault::Redefinition(b"x".to_vec())), "cannot redefine x");
    assert_eq!(text(Fault::NotAnInteger(Builtin::Add)), "Add called with non-integer");
    assert_eq!(text(Fault::NotAnInteger(Builtin::Rem)), "Rem called with non-integer");
    assert_eq!(text(Fault::NotABoolean), "If called with non-boolean");
    assert_eq!(text(Fault::DivisionByZero), "division by zero");
    assert_eq!(text(Fault::Overflow), "integer overflow");
    assert_eq!(text(Fault::MissingArguments(Builtin::If)), "If called with too few arguments");
    assert_eq!(text(Fault::DepthExhausted), "evaluation nests too deep");
}

#[test]
fn parse_error_messages() {
    let text = |source: &str| String::from_utf8(parse(source).unwrap_err().message()).unwrap();
    assert_eq!(
        text("x = 1;\n  (f a"),
        "line 2, column 7: expected `)` in Program > Statement > Print-statement"
    );
    assert_eq!(
        text("\\ -> x"),
        "line 1, column 2: expected a letter in Program > Statement > Print-statement > Identifier"
    );
    assert_eq!(
        text("y = \"abc"),
        "line 1, column 9: expected `\"` in Program > Statement > Bind-statement"
    );
    let e = Error { offset: 3, line: 9, column: 99, expected: Expected::EndOfInput, trail: vec![] };
    assert_eq!(String::from_utf8(e.message()).unwrap(), "line 10, column 100: expected the end of the text");
}
