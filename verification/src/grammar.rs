use vstd::prelude::*;
use crate::ascii::{
    is_alpha, is_digit, is_space, is_word, BACKSLASH, CLOSE_PAREN, DIGIT_ZERO, EQUALS, GREATER,
    LINE_FEED, MINUS, OPEN_PAREN, PRIME, QUOTE, SEMICOLON,
};
use crate::ast::{Lit, Stmt, Term};
use crate::formatter::{false_text, true_text};

verus! {

/// A named rule of the grammar, as it appears in the trail of a parse error.
#[derive(Debug, Clone, Copy, PartialEq, Eq, Structural)]
pub enum Rule {
    Program,
    Statement,
    BindStatement,
    PrintStatement,
    Identifier,
}

/// What the parser needed at the place where it gave up.
#[derive(Debug, Clone, Copy, PartialEq, Eq, Structural)]
pub enum Expected {
    /// The letter that an identifier starts with.
    Letter,
    /// `->` after the parameter of a lambda.
    Arrow,
    /// A literal, an identifier or `(`.
    Term,
    /// `)` at the end of an application.
    ClosingParen,
    /// `"` at the end of a byte string.
    ClosingQuote,
    /// A digit after `-`.
    Digit,
    /// An integer that fits the integer type.
    IntegerInRange,
    /// The end of the text.
    EndOfInput,
}

/// Where and why the grammar does not match: the offset of the byte at which it gave up,
/// what it needed there, and the rules it was in, outermost first.
pub struct Failure {
    pub at: int,
    pub expected: Expected,
    pub trail: Seq<Rule>,
}

/// What a rule gives at a position: its value and the position behind it, or a failure.
pub type Parsed<T> = Result<(T, int), Failure>;

/// A failure with no rule around it.
pub open spec fn failure(at: int, expected: Expected) -> Failure {
    Failure { at, expected, trail: Seq::empty() }
}

/// The failure `f` as seen from `rule`, which was being matched when it arose.
pub open spec fn within(rule: Rule, f: Failure) -> Failure {
    Failure { at: f.at, expected: f.expected, trail: seq![rule] + f.trail }
}

/// A class of bytes that the grammar takes a whole run of.
#[derive(Debug, Clone, Copy, PartialEq, Eq, Structural)]
pub enum Class {
    /// Space, tab, carriage return and line feed.
    Space,
    /// Letters, digits and `_`.
    Word,
    /// Decimal digits.
    Digit,
    /// Every byte but `"`.
    Unquoted,
}

/// Whether a byte belongs to a class.
pub open spec fn in_class(class: Class, b: u8) -> bool {
    match class {
        Class::Space => is_space(b),
        Class::Word => is_word(b),
        Class::Digit => is_digit(b),
        Class::Unquoted => b != QUOTE,
    }
}

/// The end of the longest run of bytes of `class` that starts at `pos`.
pub open spec fn scan(s: Seq<u8>, pos: int, class: Class) -> int
    decreases s.len() - pos,
{
    if 0 <= pos < s.len() && in_class(class, s[pos]) {
        scan(s, pos + 1, class)
    } else {
        pos
    }
}

/// The position of the first byte at or after `pos` that is no white space.
pub open spec fn skip_spaces(s: Seq<u8>, pos: int) -> int {
    scan(s, pos, Class::Space)
}

/// Whether the byte at `pos` is `b`.
pub open spec fn at(s: Seq<u8>, pos: int, b: u8) -> bool {
    0 <= pos < s.len() && s[pos] == b
}

/// Whether `text` stands in `s` at `pos`.
pub open spec fn has_at(s: Seq<u8>, pos: int, text: Seq<u8>) -> bool {
    0 <= pos && pos + text.len() <= s.len() && s.subrange(pos, pos + text.len()) == text
}

/// The end of the identifier that starts with the letter at `pos`: the letters, digits
/// and `_` that follow, and one `'` if it comes next.
pub open spec fn identifier_end(s: Seq<u8>, pos: int) -> int {
    let e = scan(s, pos + 1, Class::Word);
    if at(s, e, PRIME) {
        e + 1
    } else {
        e
    }
}

/// `identifier := alpha (alnum | "_")* "'"?`
pub open spec fn parse_identifier(s: Seq<u8>, pos: int) -> Parsed<Seq<u8>> {
    if 0 <= pos < s.len() && is_alpha(s[pos]) {
        Ok((s.subrange(pos, identifier_end(s, pos)), identifier_end(s, pos)))
    } else {
        Err(within(Rule::Identifier, failure(pos, Expected::Letter)))
    }
}

/// The number that a run of decimal digits denotes.
pub open spec fn digits_value(digits: Seq<u8>) -> nat
    decreases digits.len(),
{
    if digits.len() == 0 {
        0
    } else {
        (digits_value(digits.drop_last()) * 10 + (digits.last() - DIGIT_ZERO)) as nat
    }
}

/// `integer := ["-"] digit+`, where the number fits the integer type.
pub open spec fn parse_integer(s: Seq<u8>, pos: int) -> Parsed<int> {
    let negative = at(s, pos, MINUS);
    let start = if negative {
        pos + 1
    } else {
        pos
    };
    let end = scan(s, start, Class::Digit);
    if end <= start {
        Err(failure(start, Expected::Digit))
    } else {
        let m = digits_value(s.subrange(start, end)) as int;
        let v = if negative {
            -m
        } else {
            m
        };
        if i128::MIN <= v <= i128::MAX {
            Ok((v, end))
        } else {
            Err(failure(pos, Expected::IntegerInRange))
        }
    }
}

/// `literal := "True" | "False" | '"' (any byte but '"')* '"' | integer`
pub open spec fn parse_literal(s: Seq<u8>, pos: int) -> Parsed<Lit> {
    if has_at(s, pos, true_text()) {
        Ok((Lit::Boolean(true), pos + 4))
    } else if has_at(s, pos, false_text()) {
        Ok((Lit::Boolean(false), pos + 5))
    } else if at(s, pos, QUOTE) {
        let e = scan(s, pos + 1, Class::Unquoted);
        if at(s, e, QUOTE) {
            Ok((Lit::Bytes(s.subrange(pos + 1, e)), e + 1))
        } else {
            Err(failure(e, Expected::ClosingQuote))
        }
    } else {
        match parse_integer(s, pos) {
            Ok((v, e)) => Ok((Lit::Integer(v), e)),
            Err(f) => Err(f),
        }
    }
}

/// `reference := literal | identifier`
///
/// A literal is tried first, so a name that begins with `True` or `False` is never read
/// as a reference. Where neither matches and the literal gave up at its first byte, what
/// was needed there is a term.
pub open spec fn parse_reference(s: Seq<u8>, pos: int) -> Parsed<Term> {
    match parse_literal(s, pos) {
        Ok((l, e)) => Ok((Term::Literal(l), e)),
        Err(f) => match parse_identifier(s, pos) {
            Ok((n, e)) => Ok((Term::Reference(n), e)),
            Err(_) => if f.at == pos && f.expected == Expected::Digit {
                Err(failure(pos, Expected::Term))
            } else {
                Err(f)
            },
        },
    }
}

/// The application of the first term of `items` to the others, one after the other:
/// `f a b` is `(f a) b`. A single term is itself.
pub open spec fn fold_apply(items: Seq<Term>) -> Term
    recommends
        items.len() >= 1,
    decreases items.len(),
{
    if items.len() <= 1 {
        items[0]
    } else {
        Term::Apply(Box::new(fold_apply(items.drop_last())), Box::new(items.last()))
    }
}

/// `application := "(" item+ ")" | reference`, where an item is an application.
///
/// Where the list breaks off, the failure is that of the item that did not match; but
/// where items came before and nothing at that place starts a term, it is the missing
/// `)`.
pub open spec fn parse_application(s: Seq<u8>, pos: int) -> Parsed<Term>
    decreases s.len() - pos, 0nat,
{
    if at(s, pos, OPEN_PAREN) {
        let (items, e, f) = parse_items(s, pos + 1, Seq::empty());
        if items.len() == 0 {
            Err(f)
        } else if at(s, e, CLOSE_PAREN) {
            Ok((fold_apply(items), e + 1))
        } else if f.at > e || f.expected != Expected::Term {
            Err(f)
        } else {
            Err(failure(e, Expected::ClosingParen))
        }
    } else {
        parse_reference(s, pos)
    }
}

/// The items that stand at `pos`, as many as there are, behind those of `acc`; white
/// space before and after each item is passed over. With them come the position of the
/// first byte that starts no item, and why it starts none.
///
/// An item that took no byte would end the list as well; by `lemma_application_bounds`
/// there is none.
pub open spec fn parse_items(s: Seq<u8>, pos: int, acc: Seq<Term>) -> (Seq<Term>, int, Failure)
    decreases s.len() - pos, 1nat,
{
    let p = skip_spaces(s, pos);
    if pos <= p < s.len() {
        match parse_application(s, p) {
            Ok((t, q)) => if p < q <= s.len() {
                parse_items(s, q, acc.push(t))
            } else {
                (acc, p, failure(p, Expected::Term))
            },
            Err(f) => (acc, p, f),
        }
    } else {
        (acc, p, failure(p, Expected::Term))
    }
}

/// `lambda := "\" identifier "->" lambda | application`
pub open spec fn parse_lambda(s: Seq<u8>, pos: int) -> Parsed<Term>
    decreases s.len() - pos,
{
    if at(s, pos, BACKSLASH) {
        match parse_identifier(s, pos + 1) {
            Err(f) => Err(f),
            Ok((param, q1)) => {
                let q2 = skip_spaces(s, q1);
                if at(s, q2, MINUS) && at(s, q2 + 1, GREATER) {
                    let q3 = skip_spaces(s, q2 + 2);
                    proof {
                        lemma_identifier_bounds(s, pos + 1);
                        lemma_scan(s, q1, Class::Space);
                        lemma_scan(s, q2 + 2, Class::Space);
                    }
                    match parse_lambda(s, q3) {
                        Ok((body, q4)) => Ok((Term::Lambda(param, Box::new(body)), q4)),
                        Err(f) => Err(f),
                    }
                } else {
                    Err(failure(q2, Expected::Arrow))
                }
            },
        }
    } else {
        parse_application(s, pos)
    }
}

/// The end of a statement whose term ends at `pos`: behind the white space that follows,
/// and behind a `;` and more white space if the `;` is there.
pub open spec fn statement_end(s: Seq<u8>, pos: int) -> int {
    let p = skip_spaces(s, pos);
    if at(s, p, SEMICOLON) {
        skip_spaces(s, p + 1)
    } else {
        p
    }
}

/// `statement := identifier "=" lambda ";"? | lambda ";"?`
///
/// An identifier with `=` behind it starts a binding; everything else is a term to show.
/// White space may stand between any two tokens; what follows the statement is passed
/// over too.
pub open spec fn parse_statement(s: Seq<u8>, pos: int) -> Parsed<Stmt> {
    match parse_identifier(s, pos) {
        Ok((name, q1)) if at(s, skip_spaces(s, q1), EQUALS) => {
            match parse_lambda(s, skip_spaces(s, skip_spaces(s, q1) + 1)) {
                Ok((t, q4)) => Ok((Stmt::Bind(name, t), statement_end(s, q4))),
                Err(f) => Err(within(Rule::Statement, within(Rule::BindStatement, f))),
            }
        },
        _ => match parse_lambda(s, pos) {
            Ok((t, q4)) => Ok((Stmt::Print(t), statement_end(s, q4))),
            Err(f) => Err(within(Rule::Statement, within(Rule::PrintStatement, f))),
        },
    }
}

/// The statements that stand at `pos`, up to the end of the text, behind those of `acc`.
pub open spec fn parse_statements(s: Seq<u8>, pos: int, acc: Seq<Stmt>) -> Result<Seq<Stmt>, Failure>
    decreases s.len() - pos,
{
    if 0 <= pos < s.len() {
        match parse_statement(s, pos) {
            Ok((st, q)) => {
                proof {
                    lemma_statement_bounds(s, pos);
                }
                parse_statements(s, q, acc.push(st))
            },
            Err(f) => Err(within(Rule::Program, f)),
        }
    } else {
        Ok(acc)
    }
}

/// `program := statement* EOF`: the statements of a whole text, in order.
pub open spec fn parse_program(s: Seq<u8>) -> Result<Seq<Stmt>, Failure> {
    parse_statements(s, skip_spaces(s, 0), Seq::empty())
}

/// A text that holds one statement and nothing else.
pub open spec fn parse_single_statement(s: Seq<u8>) -> Result<Stmt, Failure> {
    match parse_statement(s, skip_spaces(s, 0)) {
        Ok((st, q)) => if q >= s.len() {
            Ok(st)
        } else {
            Err(failure(q, Expected::EndOfInput))
        },
        Err(f) => Err(f),
    }
}

/// How many line feeds stand before `offset`.
pub open spec fn line_of(s: Seq<u8>, offset: int) -> int
    decreases offset,
{
    if offset <= 0 || offset > s.len() {
        0
    } else if s[offset - 1] == LINE_FEED {
        line_of(s, offset - 1) + 1
    } else {
        line_of(s, offset - 1)
    }
}

/// How many bytes stand between the start of the line of `offset` and `offset`.
pub open spec fn column_of(s: Seq<u8>, offset: int) -> int
    decreases offset,
{
    if offset <= 0 || offset > s.len() || s[offset - 1] == LINE_FEED {
        0
    } else {
        column_of(s, offset - 1) + 1
    }
}

/// A run ends inside the text, holds only bytes of its class, and stops at the end of
/// the text or before a byte of another class.
pub proof fn lemma_scan(s: Seq<u8>, pos: int, class: Class)
    requires
        0 <= pos <= s.len(),
    ensures
        pos <= scan(s, pos, class) <= s.len(),
        forall|i: int| pos <= i < scan(s, pos, class) ==> in_class(class, #[trigger] s[i]),
        scan(s, pos, class) < s.len() ==> !in_class(class, s[scan(s, pos, class)]),
    decreases s.len() - pos,
{
    if pos < s.len() && in_class(class, s[pos]) {
        lemma_scan(s, pos + 1, class);
    }
}

/// A stretch of bytes of one class that stops at the end of the text or before a byte
/// of another class is the run that starts at its first byte.
pub proof fn lemma_scan_is(s: Seq<u8>, pos: int, end: int, class: Class)
    requires
        0 <= pos <= end <= s.len(),
        forall|i: int| pos <= i < end ==> in_class(class, #[trigger] s[i]),
        end < s.len() ==> !in_class(class, s[end]),
    ensures
        scan(s, pos, class) == end,
    decreases end - pos,
{
    if pos < end {
        lemma_scan_is(s, pos + 1, end, class);
    }
}

/// An identifier takes at least its first letter and ends inside the text.
pub proof fn lemma_identifier_bounds(s: Seq<u8>, pos: int)
    requires
        0 <= pos <= s.len(),
    ensures
        match parse_identifier(s, pos) {
            Ok((name, e)) => pos < e <= s.len() && name.len() == e - pos,
            Err(f) => f.at == pos,
        },
{
    if pos < s.len() {
        lemma_scan(s, pos + 1, Class::Word);
    }
}

/// A literal takes at least one byte and ends inside the text; a failure lies inside too.
pub proof fn lemma_literal_bounds(s: Seq<u8>, pos: int)
    requires
        0 <= pos <= s.len(),
    ensures
        match parse_literal(s, pos) {
            Ok((_, e)) => pos < e <= s.len(),
            Err(f) => pos <= f.at <= s.len(),
        },
{
    if pos < s.len() {
        lemma_scan(s, pos + 1, Class::Unquoted);
        lemma_scan(s, pos + 1, Class::Digit);
    }
    lemma_scan(s, pos, Class::Digit);
}

/// A reference takes at least one byte and ends inside the text; a failure lies inside too.
pub proof fn lemma_reference_bounds(s: Seq<u8>, pos: int)
    requires
        0 <= pos <= s.len(),
    ensures
        match parse_reference(s, pos) {
            Ok((_, e)) => pos < e <= s.len(),
            Err(f) => pos <= f.at <= s.len(),
        },
{
    lemma_literal_bounds(s, pos);
    lemma_identifier_bounds(s, pos);
}

/// An application takes at least one byte and ends inside the text; a failure lies
/// inside too.
pub proof fn lemma_application_bounds(s: Seq<u8>, pos: int)
    requires
        0 <= pos <= s.len(),
    ensures
        match parse_application(s, pos) {
            Ok((_, e)) => pos < e <= s.len(),
            Err(f) => pos <= f.at <= s.len(),
        },
    decreases s.len() - pos, 0nat,
{
    if at(s, pos, OPEN_PAREN) {
        lemma_items_bounds(s, pos + 1, Seq::empty());
    } else {
        lemma_reference_bounds(s, pos);
    }
}

/// A list of items ends inside the text, at or behind its start, and keeps what was
/// collected before; the failure that ends it lies at or behind that end.
pub proof fn lemma_items_bounds(s: Seq<u8>, pos: int, acc: Seq<Term>)
    requires
        0 <= pos <= s.len(),
    ensures
        ({
            let (items, e, f) = parse_items(s, pos, acc);
            &&& pos <= e <= s.len()
            &&& e == skip_spaces(s, e)
            &&& e <= f.at <= s.len()
            &&& items.len() >= acc.len()
            &&& items.len() > acc.len() ==> e > pos
        }),
    decreases s.len() - pos, 1nat,
{
    lemma_scan(s, pos, Class::Space);
    let p = skip_spaces(s, pos);
    lemma_scan_is(s, p, p, Class::Space);
    if p < s.len() {
        lemma_application_bounds(s, p);
        match parse_application(s, p) {
            Ok((t, q)) => {
                lemma_items_bounds(s, q, acc.push(t));
            },
            Err(_) => {},
        }
    }
}

/// A lambda takes at least one byte and ends inside the text; a failure lies inside too.
pub proof fn lemma_lambda_bounds(s: Seq<u8>, pos: int)
    requires
        0 <= pos <= s.len(),
    ensures
        match parse_lambda(s, pos) {
            Ok((_, e)) => pos < e <= s.len(),
            Err(f) => pos <= f.at <= s.len(),
        },
    decreases s.len() - pos,
{
    if at(s, pos, BACKSLASH) {
        lemma_identifier_bounds(s, pos + 1);
        match parse_identifier(s, pos + 1) {
            Err(f) => {},
            Ok((param, q1)) => {
                lemma_scan(s, q1, Class::Space);
                let q2 = skip_spaces(s, q1);
                if at(s, q2, MINUS) && at(s, q2 + 1, GREATER) {
                    lemma_scan(s, q2 + 2, Class::Space);
                    lemma_lambda_bounds(s, skip_spaces(s, q2 + 2));
                }
            },
        }
    } else {
        lemma_application_bounds(s, pos);
    }
}

/// The end of a statement lies at or behind the end of its term, inside the text, with
/// no white space at it.
pub proof fn lemma_statement_end(s: Seq<u8>, pos: int)
    requires
        0 <= pos <= s.len(),
    ensures
        pos <= statement_end(s, pos) <= s.len(),
        skip_spaces(s, statement_end(s, pos)) == statement_end(s, pos),
{
    lemma_scan(s, pos, Class::Space);
    let p = skip_spaces(s, pos);
    if at(s, p, SEMICOLON) {
        lemma_scan(s, p + 1, Class::Space);
        let e = skip_spaces(s, p + 1);
        lemma_scan_is(s, e, e, Class::Space);
    } else {
        lemma_scan_is(s, p, p, Class::Space);
    }
}

/// A statement takes at least one byte and ends inside the text; a failure lies inside
/// too.
pub proof fn lemma_statement_bounds(s: Seq<u8>, pos: int)
    requires
        0 <= pos <= s.len(),
    ensures
        match parse_statement(s, pos) {
            Ok((_, e)) => pos < e <= s.len() && skip_spaces(s, e) == e,
            Err(f) => pos <= f.at <= s.len(),
        },
{
    lemma_identifier_bounds(s, pos);
    lemma_lambda_bounds(s, pos);
    match parse_lambda(s, pos) {
        Ok((_, q4)) => {
            lemma_statement_end(s, q4);
        },
        Err(_) => {},
    }
    match parse_identifier(s, pos) {
        Ok((name, q1)) => {
            lemma_scan(s, q1, Class::Space);
            let q2 = skip_spaces(s, q1);
            if at(s, q2, EQUALS) {
                lemma_scan(s, q2 + 1, Class::Space);
                let q3 = skip_spaces(s, q2 + 1);
                lemma_lambda_bounds(s, q3);
                match parse_lambda(s, q3) {
                    Ok((_, q4)) => {
                        lemma_statement_end(s, q4);
                    },
                    Err(_) => {},
                }
            }
        },
        Err(_) => {},
    }
}

} // verus!
