use vstd::prelude::*;
use vstd::string::StringSliceAdditionalSpecFns;
use crate::ast::{copy_bytes, Program, Statement, Stmt, Term};
use crate::builtins::{builtin_bindings, context_with_builtins};
use crate::context::Context;
use crate::evaluator::{eval, evaluate, Fault, FaultView};
use crate::formatter::term_text;
use crate::grammar::parse_single_statement;
use crate::parser::{parse_statement_bytes, Error};

verus! {

/// What a statement does to a context and what it gives: the context afterwards, and the
/// text to show, nothing, or the fault that stopped it.
///
/// A binding adds its term, unevaluated, under its name; where the name is bound already
/// it faults and binds nothing. A term to show is evaluated and shown as it is written.
pub open spec fn step(stmt: Stmt, context: Map<Seq<u8>, Term>, fuel: nat) -> (
    Map<Seq<u8>, Term>,
    Result<Option<Seq<u8>>, FaultView>,
) {
    match stmt {
        Stmt::Bind(name, term) => if context.dom().contains(name) {
            (context, Err(FaultView::Redefinition(name)))
        } else {
            (context.insert(name, term), Ok(None))
        },
        Stmt::Print(term) => match eval(term, context, fuel) {
            Ok(t) => (context, Ok(Some(term_text(t)))),
            Err(e) => (context, Err(e)),
        },
    }
}

/// What running a statement gave, in its mathematical form.
pub open spec fn shown_of(res: Result<Option<Vec<u8>>, Fault>) -> Result<Option<Seq<u8>>, FaultView> {
    match res {
        Ok(Some(text)) => Ok(Some(text@)),
        Ok(None) => Ok(None),
        Err(e) => Err(e@),
    }
}

/// Runs one statement against `context`, by reference.
fn execute(statement: &Statement, context: &mut Context, fuel: usize) -> (res: Result<
    Option<Vec<u8>>,
    Fault,
>)
    ensures
        (final(context)@, shown_of(res)) == step(statement@, old(context)@, fuel as nat),
{
    match statement {
        Statement::Bind(name, value) => {
            if context.contains_key(name) {
                Err(Fault::Redefinition(copy_bytes(name)))
            } else {
                context.insert(copy_bytes(name), value.clone());
                Ok(None)
            }
        },
        Statement::Print(value) => {
            match evaluate(value.clone(), context, fuel) {
                Ok(v) => Ok(Some(v.render())),
                Err(e) => Err(e),
            }
        },
    }
}

/// Runs one statement against `context`.
///
/// A binding is added to the context without being evaluated and gives `Ok(None)`; where
/// its name is bound already the result is `Fault::Redefinition` and the context stays as
/// it was. A term to show is evaluated with `fuel` as its depth and gives its text, or
/// the fault that stopped the evaluation; the context stays as it was.
pub fn execute_statement(statement: Statement, context: &mut Context, fuel: usize) -> (res: Result<
    Option<Vec<u8>>,
    Fault,
>)
    ensures
        (final(context)@, shown_of(res)) == step(statement@, old(context)@, fuel as nat),
{
    execute(&statement, context, fuel)
}

/// What a run of statements shows, behind what `shown` holds, and the fault that stopped
/// it, if one did. No statement behind a fault is run.
pub open spec fn run_from(
    stmts: Seq<Stmt>,
    context: Map<Seq<u8>, Term>,
    fuel: nat,
    shown: Seq<Seq<u8>>,
) -> (Seq<Seq<u8>>, Option<FaultView>)
    decreases stmts.len(),
{
    if stmts.len() == 0 {
        (shown, None)
    } else {
        let (next, res) = step(stmts[0], context, fuel);
        match res {
            Err(e) => (shown, Some(e)),
            Ok(Some(text)) => run_from(stmts.drop_first(), next, fuel, shown.push(text)),
            Ok(None) => run_from(stmts.drop_first(), next, fuel, shown),
        }
    }
}

/// What a whole program shows when it starts from the native operations alone.
pub open spec fn run_program(stmts: Seq<Stmt>, fuel: nat) -> (Seq<Seq<u8>>, Option<FaultView>) {
    run_from(stmts, builtin_bindings(), fuel, Seq::empty())
}

/// What a run showed, line by line, and the fault that ended it, if one did.
#[derive(Debug, PartialEq)]
pub struct RunReport {
    pub shown: Vec<Vec<u8>>,
    pub fault: Option<Fault>,
}

/// The texts of a vector of lines.
pub open spec fn lines_of(lines: Seq<Vec<u8>>) -> Seq<Seq<u8>> {
    lines.map_values(|l: Vec<u8>| l@)
}

impl View for RunReport {
    type V = (Seq<Seq<u8>>, Option<FaultView>);

    open spec fn view(&self) -> (Seq<Seq<u8>>, Option<FaultView>) {
        (
            lines_of(self.shown@),
            match self.fault {
                Some(f) => Some(f@),
                None => None,
            },
        )
    }
}

/// Runs the statements of `program` in order, starting from the native operations alone.
///
/// The report holds what the statements showed, in order, up to the first fault, and that
/// fault; no statement behind it is run.
pub fn run(program: Program, fuel: usize) -> (res: RunReport)
    ensures
        res@ == run_program(program@, fuel as nat),
{
    let mut context = context_with_builtins();
    let mut shown: Vec<Vec<u8>> = Vec::new();
    let mut i: usize = 0;
    assert(program@.subrange(0, program@.len() as int) == program@);
    assert(lines_of(shown@) =~= Seq::<Seq<u8>>::empty());
    while i < program.statements.len()
        invariant
            i <= program.statements.len(),
            program@.len() == program.statements.len(),
            run_program(program@, fuel as nat) == run_from(
                program@.subrange(i as int, program@.len() as int),
                context@,
                fuel as nat,
                lines_of(shown@),
            ),
        decreases program.statements.len() - i,
    {
        let ghost rest = program@.subrange(i as int, program@.len() as int);
        proof {
            assert(rest[0] == program.statements[i as int]@);
            assert(rest.drop_first() == program@.subrange(i + 1, program@.len() as int));
        }
        match execute(&program.statements[i], &mut context, fuel) {
            Err(e) => {
                return RunReport { shown, fault: Some(e) };
            },
            Ok(Some(text)) => {
                proof {
                    assert(lines_of(shown@.push(text)) =~= lines_of(shown@).push(text@));
                }
                shown.push(text);
            },
            Ok(None) => {},
        }
        i += 1;
    }
    RunReport { shown, fault: None }
}

/// What became of one line of an interactive session.
#[derive(Debug, PartialEq)]
pub enum LineOutcome {
    /// The line was empty: nothing was read or run.
    Blank,
    /// The line is no statement.
    Rejected(Error),
    /// The line bound a name.
    Bound,
    /// The line showed a term: this is its text.
    Shown(Vec<u8>),
    /// The statement of the line was stopped by a fault; the context is as it was.
    Faulted(Fault),
}

/// What a line does to the context of a session, and whether the outcome tells of it.
pub open spec fn line_step(
    line: Seq<u8>,
    before: Map<Seq<u8>, Term>,
    fuel: nat,
    after: Map<Seq<u8>, Term>,
    outcome: LineOutcome,
) -> bool {
    if line.len() == 0 {
        outcome == LineOutcome::Blank && after == before
    } else {
        match parse_single_statement(line) {
            Err(f) => after == before && (outcome matches LineOutcome::Rejected(e) && e.matches(f)
                && e.located_in(line)),
            Ok(stmt) => after == step(stmt, before, fuel).0 && match step(stmt, before, fuel).1 {
                Ok(None) => outcome == LineOutcome::Bound,
                Ok(Some(text)) => outcome matches LineOutcome::Shown(t) && t@ == text,
                Err(fault) => outcome matches LineOutcome::Faulted(e) && e@ == fault,
            },
        }
    }
}

/// Takes one line of an interactive session: reads it as a single statement and runs
/// that against the context of the session.
///
/// An empty line does nothing. A line that is no statement is rejected with its parse
/// error. A fault stops the statement and leaves the context as it was; the session
/// can go on.
pub fn interpret_line(line: &str, context: &mut Context, fuel: usize) -> (res: LineOutcome)
    ensures
        line_step(line.spec_bytes(), old(context)@, fuel as nat, final(context)@, res),
{
    let bytes = line.as_bytes();
    if bytes.len() == 0 {
        return LineOutcome::Blank;
    }
    match parse_statement_bytes(bytes) {
        Err(e) => LineOutcome::Rejected(e),
        Ok(statement) => match execute(&statement, context, fuel) {
            Ok(None) => LineOutcome::Bound,
            Ok(Some(text)) => LineOutcome::Shown(text),
            Err(fault) => LineOutcome::Faulted(fault),
        },
    }
}

} // verus!
