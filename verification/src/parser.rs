use vstd::prelude::*;
use vstd::string::StringSliceAdditionalSpecFns;
use crate::ascii::{
    alpha, digit, space, word, BACKSLASH, CLOSE_PAREN, DIGIT_ZERO, EQUALS, GREATER, LINE_FEED,
    MINUS, OPEN_PAREN, PRIME, QUOTE, SEMICOLON,
};
use crate::ast::{
    lemma_terms_of, lemma_terms_of_push, terms_of, Literal, Name, Program, Statement, Stmt, Term,
    Value,
};
use crate::formatter::{false_text, true_text};
use crate::grammar::{
    at, column_of, digits_value, failure, fold_apply, has_at, in_class, lemma_application_bounds,
    lemma_identifier_bounds, lemma_lambda_bounds, lemma_scan, lemma_scan_is,
    lemma_statement_bounds, line_of, parse_application, parse_identifier, parse_integer,
    parse_items, parse_lambda, parse_literal, parse_program, parse_reference,
    parse_single_statement, parse_statements, scan, skip_spaces, statement_end, within, Class,
    Expected, Failure, Parsed, Rule,
};

verus! {

/// Why a text is no program, or no statement.
///
/// `offset` is the byte at which the parser gave up, `line` the number of line feeds
/// before it and `column` the number of bytes between the start of its line and it (both
/// count from zero). `trail` names the grammar rules that were being matched, outermost
/// first.
#[derive(Debug, PartialEq, Eq)]
pub struct Error {
    pub offset: usize,
    pub line: usize,
    pub column: usize,
    pub expected: Expected,
    pub trail: Vec<Rule>,
}

impl Error {
    /// Whether the error tells of the failure `f`.
    pub open spec fn matches(&self, f: Failure) -> bool {
        &&& self.offset == f.at
        &&& self.expected == f.expected
        &&& self.trail@ == f.trail
    }

    /// Whether line and column are those of the offset in `s`.
    pub open spec fn located_in(&self, s: Seq<u8>) -> bool {
        &&& self.line == line_of(s, self.offset as int)
        &&& self.column == column_of(s, self.offset as int)
    }
}

/// Whether what a parsing function returned is what the grammar gives.
pub open spec fn agrees<T: View>(res: Result<(T, usize), Error>, parsed: Parsed<T::V>) -> bool {
    match (res, parsed) {
        (Ok((v, e)), Ok((pv, pe))) => v@ == pv && e == pe,
        (Err(e), Err(f)) => e.matches(f),
        _ => false,
    }
}

/// An error at `at` with no rule around it and no line or column yet.
fn miss(at: usize, expected: Expected) -> (res: Error)
    ensures
        res.matches(failure(at as int, expected)),
{
    Error { offset: at, line: 0, column: 0, expected, trail: Vec::new() }
}

/// The error `e` as seen from `rule`.
fn inside(rule: Rule, e: Error, Ghost(f): Ghost<Failure>) -> (res: Error)
    requires
        e.matches(f),
    ensures
        res.matches(within(rule, f)),
{
    let mut e = e;
    e.trail.insert(0, rule);
    assert(e.trail@ == seq![rule] + f.trail);
    e
}

/// Whether `b` belongs to `class`.
fn member(class: Class, b: u8) -> (res: bool)
    ensures
        res == in_class(class, b),
{
    match class {
        Class::Space => space(b),
        Class::Word => word(b),
        Class::Digit => digit(b),
        Class::Unquoted => b != QUOTE,
    }
}

/// The end of the longest run of bytes of `class` that starts at `pos`.
fn run_end(s: &[u8], pos: usize, class: Class) -> (res: usize)
    requires
        pos <= s.len(),
    ensures
        res == scan(s@, pos as int, class),
        pos <= res <= s.len(),
{
    let mut i: usize = pos;
    while i < s.len() && member(class, s[i])
        invariant
            pos <= i <= s.len(),
            scan(s@, pos as int, class) == scan(s@, i as int, class),
        decreases s.len() - i,
    {
        i += 1;
    }
    i
}

/// The position of the first byte at or after `pos` that is no white space.
fn ws(s: &[u8], pos: usize) -> (res: usize)
    requires
        pos <= s.len(),
    ensures
        res == skip_spaces(s@, pos as int),
        pos <= res <= s.len(),
{
    run_end(s, pos, Class::Space)
}

/// A copy of the bytes of `s` from `from` up to `to`.
fn copy_range(s: &[u8], from: usize, to: usize) -> (res: Vec<u8>)
    requires
        from <= to <= s.len(),
    ensures
        res@ == s@.subrange(from as int, to as int),
{
    let mut res: Vec<u8> = Vec::new();
    let mut i: usize = from;
    while i < to
        invariant
            from <= i <= to <= s.len(),
            res@ == s@.subrange(from as int, i as int),
        decreases to - i,
    {
        res.push(s[i]);
        assert(s@.subrange(from as int, i + 1) == s@.subrange(from as int, i as int).push(s@[i as int]));
        i += 1;
    }
    res
}

/// Reads an identifier at `pos`.
fn identifier(s: &[u8], pos: usize) -> (res: Result<(Name, usize), Error>)
    requires
        pos <= s.len(),
    ensures
        agrees(res, parse_identifier(s@, pos as int)),
{
    if pos < s.len() && alpha(s[pos]) {
        let e = run_end(s, pos + 1, Class::Word);
        let end = if e < s.len() && s[e] == PRIME {
            e + 1
        } else {
            e
        };
        Ok((copy_range(s, pos, end), end))
    } else {
        let e = miss(pos, Expected::Letter);
        Err(inside(Rule::Identifier, e, Ghost(failure(pos as int, Expected::Letter))))
    }
}

/// The number of a run of digits with one more digit at its end.
proof fn lemma_digits_push(digits: Seq<u8>, d: u8)
    requires
        48 <= d <= 57,
    ensures
        digits_value(digits.push(d)) == digits_value(digits) * 10 + (d - DIGIT_ZERO),
{
    assert(digits.push(d).drop_last() == digits);
}

/// The number of a run of digits is at least the number of each of its beginnings.
proof fn lemma_digits_grow(s: Seq<u8>, start: int, mid: int, end: int)
    requires
        0 <= start <= mid <= end <= s.len(),
        forall|i: int| start <= i < end ==> in_class(Class::Digit, #[trigger] s[i]),
    ensures
        digits_value(s.subrange(start, mid)) <= digits_value(s.subrange(start, end)),
    decreases end - mid,
{
    if mid < end {
        lemma_digits_grow(s, start, mid, end - 1);
        assert(s.subrange(start, end).drop_last() == s.subrange(start, end - 1));
        assert(s.subrange(start, end).last() == s[end - 1]);
        assert(in_class(Class::Digit, s[end - 1]));
    }
}

/// Reads an integer at `pos`.
fn integer(s: &[u8], pos: usize) -> (res: Result<(i128, usize), Error>)
    requires
        pos <= s.len(),
    ensures
        match (res, parse_integer(s@, pos as int)) {
            (Ok((v, e)), Ok((pv, pe))) => v == pv && e == pe,
            (Err(e), Err(f)) => e.matches(f),
            _ => false,
        },
{
    let negative = pos < s.len() && s[pos] == MINUS;
    let start = if negative {
        pos + 1
    } else {
        pos
    };
    let end = run_end(s, start, Class::Digit);
    if end <= start {
        return Err(miss(start, Expected::Digit));
    }
    proof {
        lemma_scan(s@, start as int, Class::Digit);
    }
    let mut acc: u128 = 0;
    let mut i: usize = start;
    assert(s@.subrange(start as int, start as int) =~= Seq::<u8>::empty());
    while i < end
        invariant
            start <= i <= end <= s.len(),
            acc == digits_value(s@.subrange(start as int, i as int)),
            forall|j: int| start <= j < end ==> in_class(Class::Digit, #[trigger] s@[j]),
            end == scan(s@, start as int, Class::Digit),
            start == (if at(s@, pos as int, MINUS) {
                pos + 1
            } else {
                pos as int
            }),
        decreases end - i,
    {
        assert(in_class(Class::Digit, s@[i as int]));
        let d: u128 = (s[i] - DIGIT_ZERO) as u128;
        proof {
            lemma_digits_push(s@.subrange(start as int, i as int), s@[i as int]);
            assert(s@.subrange(start as int, i + 1) == s@.subrange(start as int, i as int).push(s@[i as int]));
            lemma_digits_grow(s@, start as int, i + 1, end as int);
        }
        let next = match acc.checked_mul(10) {
            None => None,
            Some(m) => m.checked_add(d),
        };
        match next {
            None => {
                return Err(miss(pos, Expected::IntegerInRange));
            },
            Some(v) => {
                acc = v;
            },
        }
        i += 1;
    }
    let limit: u128 = 0x8000_0000_0000_0000_0000_0000_0000_0000u128;
    if negative {
        if acc > limit {
            Err(miss(pos, Expected::IntegerInRange))
        } else if acc == limit {
            Ok((i128::MIN, end))
        } else {
            Ok((-(acc as i128), end))
        }
    } else {
        if acc >= limit {
            Err(miss(pos, Expected::IntegerInRange))
        } else {
            Ok((acc as i128, end))
        }
    }
}

/// Whether `True` stands at `pos`.
fn reads_true(s: &[u8], pos: usize) -> (res: bool)
    requires
        pos <= s.len(),
    ensures
        res == has_at(s@, pos as int, true_text()),
{
    if s.len() - pos < 4 {
        false
    } else {
        let res = s[pos] == 84u8 && s[pos + 1] == 114u8 && s[pos + 2] == 117u8 && s[pos + 3] == 101u8;
        proof {
            let part = s@.subrange(pos as int, pos + 4);
            if res {
                assert(part =~= true_text());
            } else {
                assert(part[0] == s@[pos as int] && part[1] == s@[pos + 1] && part[2] == s@[pos + 2]
                    && part[3] == s@[pos + 3]);
            }
        }
        res
    }
}

/// Whether `False` stands at `pos`.
fn reads_false(s: &[u8], pos: usize) -> (res: bool)
    requires
        pos <= s.len(),
    ensures
        res == has_at(s@, pos as int, false_text()),
{
    if s.len() - pos < 5 {
        false
    } else {
        let res = s[pos] == 70u8 && s[pos + 1] == 97u8 && s[pos + 2] == 108u8 && s[pos + 3] == 115u8
            && s[pos + 4] == 101u8;
        proof {
            let part = s@.subrange(pos as int, pos + 5);
            if res {
                assert(part =~= false_text());
            } else {
                assert(part[0] == s@[pos as int] && part[1] == s@[pos + 1] && part[2] == s@[pos + 2]
                    && part[3] == s@[pos + 3] && part[4] == s@[pos + 4]);
            }
        }
        res
    }
}

/// Reads a literal at `pos`.
fn literal(s: &[u8], pos: usize) -> (res: Result<(Literal, usize), Error>)
    requires
        pos <= s.len(),
    ensures
        agrees(res, parse_literal(s@, pos as int)),
{
    if reads_true(s, pos) {
        Ok((Literal::Boolean(true), pos + 4))
    } else if reads_false(s, pos) {
        Ok((Literal::Boolean(false), pos + 5))
    } else if pos < s.len() && s[pos] == QUOTE {
        let e = run_end(s, pos + 1, Class::Unquoted);
        if e < s.len() && s[e] == QUOTE {
            Ok((Literal::Bytes(copy_range(s, pos + 1, e)), e + 1))
        } else {
            Err(miss(e, Expected::ClosingQuote))
        }
    } else {
        match integer(s, pos) {
            Ok((v, e)) => Ok((Literal::Integer(v), e)),
            Err(f) => Err(f),
        }
    }
}

/// Reads a literal or an identifier at `pos`.
fn reference(s: &[u8], pos: usize) -> (res: Result<(Value, usize), Error>)
    requires
        pos <= s.len(),
    ensures
        agrees(res, parse_reference(s@, pos as int)),
{
    match literal(s, pos) {
        Ok((l, e)) => Ok((Value::Literal(l), e)),
        Err(f) => match identifier(s, pos) {
            Ok((n, e)) => Ok((Value::Reference(n), e)),
            Err(_) => {
                if f.offset == pos && f.expected == Expected::Digit {
                    Err(miss(pos, Expected::Term))
                } else {
                    Err(f)
                }
            },
        },
    }
}

/// The application of the first of `values` to the others, one after the other: of
/// `f`, `a` and `b` it makes `(f a) b`. A single value is returned as it is.
pub fn make_application(values: Vec<Value>) -> (res: Value)
    requires
        values.len() >= 1,
    ensures
        res@ == fold_apply(terms_of(values@)),
    decreases values.len(),
{
    let mut values = values;
    let ghost all = values@;
    proof {
        lemma_terms_of(all);
    }
    let r = values.pop().unwrap();
    proof {
        lemma_terms_of(values@);
        assert(values@ == all.drop_last());
        assert(terms_of(all).drop_last() =~= terms_of(values@));
    }
    if values.len() == 0 {
        r
    } else {
        Value::Apply(Box::new(make_application(values)), Box::new(r))
    }
}

/// The list of items is the same from a position and from behind the white space there,
/// where no white space is left.
proof fn lemma_items_skip(s: Seq<u8>, pos: int, acc: Seq<Term>)
    requires
        0 <= pos <= s.len(),
    ensures
        parse_items(s, pos, acc) == parse_items(s, skip_spaces(s, pos), acc),
        skip_spaces(s, skip_spaces(s, pos)) == skip_spaces(s, pos),
{
    lemma_scan(s, pos, Class::Space);
    let p = skip_spaces(s, pos);
    lemma_scan_is(s, p, p, Class::Space);
}

/// Reads a parenthesized list of items, or else a literal or an identifier, at `pos`.
fn application(s: &[u8], pos: usize) -> (res: Result<(Value, usize), Error>)
    requires
        pos <= s.len(),
    ensures
        agrees(res, parse_application(s@, pos as int)),
    decreases s.len() - pos,
{
    if pos < s.len() && s[pos] == OPEN_PAREN {
        let mut items: Vec<Value> = Vec::new();
        let mut p: usize = ws(s, pos + 1);
        let mut stop: Error = miss(p, Expected::Term);
        proof {
            lemma_items_skip(s@, pos + 1, Seq::empty());
            assert(terms_of(items@) =~= Seq::<Term>::empty());
        }
        loop
            invariant_except_break
                pos < p <= s.len(),
                p == skip_spaces(s@, p as int),
                parse_items(s@, pos + 1, Seq::empty()) == parse_items(s@, p as int, terms_of(items@)),
            ensures
                pos < p <= s.len(),
                parse_items(s@, pos + 1, Seq::empty()).0 == terms_of(items@),
                parse_items(s@, pos + 1, Seq::empty()).1 == p,
                stop.matches(parse_items(s@, pos + 1, Seq::empty()).2),
            decreases s.len() - p,
        {
            if p >= s.len() {
                stop = miss(p, Expected::Term);
                break ;
            }
            proof {
                lemma_application_bounds(s@, p as int);
            }
            match application(s, p) {
                Ok((t, q)) => {
                    proof {
                        lemma_terms_of_push(items@, t);
                        lemma_items_skip(s@, q as int, terms_of(items@).push(t@));
                    }
                    items.push(t);
                    p = ws(s, q);
                },
                Err(e) => {
                    stop = e;
                    break ;
                },
            }
        }
        proof {
            lemma_terms_of(items@);
        }
        if items.len() == 0 {
            Err(stop)
        } else if p < s.len() && s[p] == CLOSE_PAREN {
            Ok((make_application(items), p + 1))
        } else if stop.offset > p || stop.expected != Expected::Term {
            Err(stop)
        } else {
            Err(miss(p, Expected::ClosingParen))
        }
    } else {
        reference(s, pos)
    }
}

/// Reads a lambda, or else an application, at `pos`.
fn lambda(s: &[u8], pos: usize) -> (res: Result<(Value, usize), Error>)
    requires
        pos <= s.len(),
    ensures
        agrees(res, parse_lambda(s@, pos as int)),
    decreases s.len() - pos,
{
    if pos < s.len() && s[pos] == BACKSLASH {
        match identifier(s, pos + 1) {
            Err(f) => Err(f),
            Ok((param, q1)) => {
                proof {
                    lemma_identifier_bounds(s@, pos + 1);
                }
                let q2 = ws(s, q1);
                if q2 < s.len() && s[q2] == MINUS && q2 + 1 < s.len() && s[q2 + 1] == GREATER {
                    let q3 = ws(s, q2 + 2);
                    match lambda(s, q3) {
                        Ok((body, q4)) => Ok((Value::Lambda(param, Box::new(body)), q4)),
                        Err(f) => Err(f),
                    }
                } else {
                    Err(miss(q2, Expected::Arrow))
                }
            },
        }
    } else {
        application(s, pos)
    }
}

/// The end of a statement whose term ends at `pos`.
fn end_of_statement(s: &[u8], pos: usize) -> (res: usize)
    requires
        pos <= s.len(),
    ensures
        res == statement_end(s@, pos as int),
        pos <= res <= s.len(),
{
    let p = ws(s, pos);
    if p < s.len() && s[p] == SEMICOLON {
        ws(s, p + 1)
    } else {
        p
    }
}

/// Reads the term of a binding of `name`, whose `=` ends before `pos`, and what ends
/// the statement.
fn bind(s: &[u8], name: Name, pos: usize) -> (res: Result<(Statement, usize), Error>)
    requires
        pos <= s.len(),
    ensures
        match (res, parse_lambda(s@, pos as int)) {
            (Ok((st, e)), Ok((t, q4))) => st@ == Stmt::Bind(name@, t) && e == statement_end(s@, q4),
            (Err(e), Err(f)) => e.matches(within(Rule::Statement, within(Rule::BindStatement, f))),
            _ => false,
        },
{
    proof {
        lemma_lambda_bounds(s@, pos as int);
    }
    match lambda(s, pos) {
        Ok((value, q4)) => Ok((Statement::Bind(name, value), end_of_statement(s, q4))),
        Err(e) => {
            let ghost f = parse_lambda(s@, pos as int)->Err_0;
            let e1 = inside(Rule::BindStatement, e, Ghost(f));
            Err(inside(Rule::Statement, e1, Ghost(within(Rule::BindStatement, f))))
        },
    }
}

/// Reads a term to show at `pos`, and what ends the statement.
fn print(s: &[u8], pos: usize) -> (res: Result<(Statement, usize), Error>)
    requires
        pos <= s.len(),
    ensures
        match (res, parse_lambda(s@, pos as int)) {
            (Ok((st, e)), Ok((t, q4))) => st@ == Stmt::Print(t) && e == statement_end(s@, q4),
            (Err(e), Err(f)) => e.matches(within(Rule::Statement, within(Rule::PrintStatement, f))),
            _ => false,
        },
{
    proof {
        lemma_lambda_bounds(s@, pos as int);
    }
    match lambda(s, pos) {
        Ok((value, q4)) => Ok((Statement::Print(value), end_of_statement(s, q4))),
        Err(e) => {
            let ghost f = parse_lambda(s@, pos as int)->Err_0;
            let e1 = inside(Rule::PrintStatement, e, Ghost(f));
            Err(inside(Rule::Statement, e1, Ghost(within(Rule::PrintStatement, f))))
        },
    }
}

/// Reads a statement at `pos`.
fn statement(s: &[u8], pos: usize) -> (res: Result<(Statement, usize), Error>)
    requires
        pos <= s.len(),
    ensures
        agrees(res, crate::grammar::parse_statement(s@, pos as int)),
{
    proof {
        lemma_identifier_bounds(s@, pos as int);
    }
    match identifier(s, pos) {
        Ok((name, q1)) => {
            let q2 = ws(s, q1);
            if q2 < s.len() && s[q2] == EQUALS {
                bind(s, name, ws(s, q2 + 1))
            } else {
                print(s, pos)
            }
        },
        Err(_) => print(s, pos),
    }
}

/// Fills in the line and the column of an error.
fn locate(s: &[u8], e: Error) -> (res: Error)
    requires
        e.offset <= s.len(),
    ensures
        res.offset == e.offset,
        res.expected == e.expected,
        res.trail == e.trail,
        res.located_in(s@),
{
    let mut line: usize = 0;
    let mut column: usize = 0;
    let mut i: usize = 0;
    while i < e.offset
        invariant
            i <= e.offset <= s.len(),
            line == line_of(s@, i as int),
            column == column_of(s@, i as int),
            line <= i,
            column <= i,
        decreases e.offset - i,
    {
        if s[i] == LINE_FEED {
            line += 1;
            column = 0;
        } else {
            column += 1;
        }
        i += 1;
    }
    Error { offset: e.offset, line, column, expected: e.expected, trail: e.trail }
}

/// Whether what a top-level parsing function returned is what the grammar gives for `s`.
pub open spec fn reports<T: View>(res: Result<T, Error>, parsed: Result<T::V, Failure>, s: Seq<u8>) -> bool {
    match (res, parsed) {
        (Ok(v), Ok(pv)) => v@ == pv,
        (Err(e), Err(f)) => e.matches(f) && e.located_in(s),
        _ => false,
    }
}

/// Reads a whole text as a program: statements up to the end of the text, with white
/// space before, between and behind them.
///
/// The result is `Ok` exactly where the grammar matches the whole text, with the
/// statements in the order of the text; otherwise the error is that of the statement that
/// did not match.
pub fn parse_bytes(s: &[u8]) -> (res: Result<Program, Error>)
    ensures
        reports(res, parse_program(s@), s@),
{
    let mut statements: Vec<Statement> = Vec::new();
    let mut pos: usize = ws(s, 0);
    assert(statements@.map_values(|st: Statement| st@) =~= Seq::<Stmt>::empty());
    while pos < s.len()
        invariant
            pos <= s.len(),
            parse_program(s@) == parse_statements(
                s@,
                pos as int,
                statements@.map_values(|st: Statement| st@),
            ),
        decreases s.len() - pos,
    {
        proof {
            lemma_statement_bounds(s@, pos as int);
        }
        match statement(s, pos) {
            Ok((st, q)) => {
                proof {
                    assert(statements@.push(st).map_values(|st: Statement| st@) =~= statements@.map_values(
                        |st: Statement| st@,
                    ).push(st@));
                }
                statements.push(st);
                pos = q;
            },
            Err(e) => {
                let ghost f = crate::grammar::parse_statement(s@, pos as int)->Err_0;
                let e1 = inside(Rule::Program, e, Ghost(f));
                return Err(locate(s, e1));
            },
        }
    }
    Ok(Program { statements })
}

/// Reads a text that holds one statement and nothing else but white space around it.
///
/// The result is `Ok` exactly where the grammar matches a statement that ends at the end
/// of the text.
pub fn parse_statement_bytes(s: &[u8]) -> (res: Result<Statement, Error>)
    ensures
        reports(res, parse_single_statement(s@), s@),
{
    let pos = ws(s, 0);
    proof {
        lemma_statement_bounds(s@, pos as int);
    }
    match statement(s, pos) {
        Ok((st, q)) => {
            if q >= s.len() {
                Ok(st)
            } else {
                Err(locate(s, miss(q, Expected::EndOfInput)))
            }
        },
        Err(e) => Err(locate(s, e)),
    }
}

/// Reads a source text as a program. The grammar is matched against the bytes of the
/// text.
pub fn parse(s: &str) -> (res: Result<Program, Error>)
    ensures
        reports(res, parse_program(s.spec_bytes()), s.spec_bytes()),
{
    parse_bytes(s.as_bytes())
}

/// Reads a source text as one statement. The grammar is matched against the bytes of
/// the text.
pub fn parse_statement(s: &str) -> (res: Result<Statement, Error>)
    ensures
        reports(res, parse_single_statement(s.spec_bytes()), s.spec_bytes()),
{
    parse_statement_bytes(s.as_bytes())
}

} // verus!
