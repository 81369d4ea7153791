use vstd::prelude::*;
use vstd::string::StringSliceAdditionalSpecFns;
use crate::ast::Builtin;
use crate::evaluator::{Fault, FaultView};
use crate::formatter::{decimal, write_bytes, write_decimal};
use crate::grammar::{Expected, Rule};
use crate::parser::Error;

verus! {

/// The name of a native operation as a message starts with it.
pub open spec fn operation_text(op: Builtin) -> Seq<u8> {
    match op {
        Builtin::Add => "Add".spec_bytes(),
        Builtin::Mul => "Mul".spec_bytes(),
        Builtin::Div => "Div".spec_bytes(),
        Builtin::Rem => "Rem".spec_bytes(),
        Builtin::Eq => "Eq".spec_bytes(),
        Builtin::If => "If".spec_bytes(),
    }
}

/// Appends the name of a native operation as a message starts with it.
fn write_operation(op: Builtin, out: &mut Vec<u8>)
    ensures
        final(out)@ == old(out)@ + operation_text(op),
{
    match op {
        Builtin::Add => write_bytes("Add".as_bytes(), out),
        Builtin::Mul => write_bytes("Mul".as_bytes(), out),
        Builtin::Div => write_bytes("Div".as_bytes(), out),
        Builtin::Rem => write_bytes("Rem".as_bytes(), out),
        Builtin::Eq => write_bytes("Eq".as_bytes(), out),
        Builtin::If => write_bytes("If".as_bytes(), out),
    }
}

/// A fault in words.
pub open spec fn fault_text(fault: FaultView) -> Seq<u8> {
    match fault {
        FaultView::UnboundName(name) => "Value with name '".spec_bytes() + name
            + "' does not exist in the context".spec_bytes(),
        FaultView::Redefinition(name) => "cannot redefine ".spec_bytes() + name,
        FaultView::NotAnInteger(op) => operation_text(op) + " called with non-integer".spec_bytes(),
        FaultView::NotABoolean => "If called with non-boolean".spec_bytes(),
        FaultView::DivisionByZero => "division by zero".spec_bytes(),
        FaultView::Overflow => "integer overflow".spec_bytes(),
        FaultView::MissingArguments(op) => operation_text(op)
            + " called with too few arguments".spec_bytes(),
        FaultView::DepthExhausted => "evaluation nests too deep".spec_bytes(),
    }
}

impl Fault {
    /// The fault in words.
    pub fn message(&self) -> (res: Vec<u8>)
        ensures
            res@ == fault_text(self@),
    {
        let mut out: Vec<u8> = Vec::new();
        match self {
            Fault::UnboundName(name) => {
                write_bytes("Value with name '".as_bytes(), &mut out);
                write_bytes(name.as_slice(), &mut out);
                write_bytes("' does not exist in the context".as_bytes(), &mut out);
            },
            Fault::Redefinition(name) => {
                write_bytes("cannot redefine ".as_bytes(), &mut out);
                write_bytes(name.as_slice(), &mut out);
            },
            Fault::NotAnInteger(op) => {
                write_operation(*op, &mut out);
                write_bytes(" called with non-integer".as_bytes(), &mut out);
            },
            Fault::NotABoolean => {
                write_bytes("If called with non-boolean".as_bytes(), &mut out);
            },
            Fault::DivisionByZero => {
                write_bytes("division by zero".as_bytes(), &mut out);
            },
            Fault::Overflow => {
                write_bytes("integer overflow".as_bytes(), &mut out);
            },
            Fault::MissingArguments(op) => {
                write_operation(*op, &mut out);
                write_bytes(" called with too few arguments".as_bytes(), &mut out);
            },
            Fault::DepthExhausted => {
                write_bytes("evaluation nests too deep".as_bytes(), &mut out);
            },
        }
        assert(out@ =~= fault_text(self@));
        out
    }
}

/// The name of a grammar rule.
pub open spec fn rule_text(rule: Rule) -> Seq<u8> {
    match rule {
        Rule::Program => "Program".spec_bytes(),
        Rule::Statement => "Statement".spec_bytes(),
        Rule::BindStatement => "Bind-statement".spec_bytes(),
        Rule::PrintStatement => "Print-statement".spec_bytes(),
        Rule::Identifier => "Identifier".spec_bytes(),
    }
}

/// What the parser needed, in words.
pub open spec fn expected_text(expected: Expected) -> Seq<u8> {
    match expected {
        Expected::Letter => "a letter".spec_bytes(),
        Expected::Arrow => "`->`".spec_bytes(),
        Expected::Term => "a term".spec_bytes(),
        Expected::ClosingParen => "`)`".spec_bytes(),
        Expected::ClosingQuote => "`\"`".spec_bytes(),
        Expected::Digit => "a digit".spec_bytes(),
        Expected::IntegerInRange => "an integer of at most 128 bits".spec_bytes(),
        Expected::EndOfInput => "the end of the text".spec_bytes(),
    }
}

/// The rules of a trail, outermost first, with ` > ` between neighbours.
pub open spec fn trail_text(trail: Seq<Rule>) -> Seq<u8>
    decreases trail.len(),
{
    if trail.len() == 0 {
        Seq::empty()
    } else if trail.len() == 1 {
        rule_text(trail[0])
    } else {
        trail_text(trail.drop_last()) + " > ".spec_bytes() + rule_text(trail.last())
    }
}

/// A parse error in words: line and column, counted from one, then what was needed and,
/// where there is a trail, the rules in which it was needed.
pub open spec fn error_text(line: nat, column: nat, expected: Expected, trail: Seq<Rule>) -> Seq<u8> {
    "line ".spec_bytes() + decimal(line + 1) + ", column ".spec_bytes() + decimal(column + 1)
        + ": expected ".spec_bytes() + expected_text(expected) + if trail.len() == 0 {
        Seq::<u8>::empty()
    } else {
        " in ".spec_bytes() + trail_text(trail)
    }
}

/// Appends the name of a grammar rule to `out`.
fn write_rule(rule: Rule, out: &mut Vec<u8>)
    ensures
        final(out)@ == old(out)@ + rule_text(rule),
{
    match rule {
        Rule::Program => write_bytes("Program".as_bytes(), out),
        Rule::Statement => write_bytes("Statement".as_bytes(), out),
        Rule::BindStatement => write_bytes("Bind-statement".as_bytes(), out),
        Rule::PrintStatement => write_bytes("Print-statement".as_bytes(), out),
        Rule::Identifier => write_bytes("Identifier".as_bytes(), out),
    }
}

/// Appends what the parser needed, in words, to `out`.
fn write_expected(expected: Expected, out: &mut Vec<u8>)
    ensures
        final(out)@ == old(out)@ + expected_text(expected),
{
    match expected {
        Expected::Letter => write_bytes("a letter".as_bytes(), out),
        Expected::Arrow => write_bytes("`->`".as_bytes(), out),
        Expected::Term => write_bytes("a term".as_bytes(), out),
        Expected::ClosingParen => write_bytes("`)`".as_bytes(), out),
        Expected::ClosingQuote => write_bytes("`\"`".as_bytes(), out),
        Expected::Digit => write_bytes("a digit".as_bytes(), out),
        Expected::IntegerInRange => write_bytes("an integer of at most 128 bits".as_bytes(), out),
        Expected::EndOfInput => write_bytes("the end of the text".as_bytes(), out),
    }
}

impl Error {
    /// The error in words.
    pub fn message(&self) -> (res: Vec<u8>)
        ensures
            res@ == error_text(self.line as nat, self.column as nat, self.expected, self.trail@),
    {
        let mut out: Vec<u8> = Vec::new();
        write_bytes("line ".as_bytes(), &mut out);
        write_decimal(self.line as u128 + 1, &mut out);
        write_bytes(", column ".as_bytes(), &mut out);
        write_decimal(self.column as u128 + 1, &mut out);
        write_bytes(": expected ".as_bytes(), &mut out);
        write_expected(self.expected, &mut out);
        let ghost head = out@;
        assert(head =~= "line ".spec_bytes() + decimal((self.line + 1) as nat) + ", column ".spec_bytes()
            + decimal((self.column + 1) as nat) + ": expected ".spec_bytes() + expected_text(
            self.expected,
        ));
        if self.trail.len() > 0 {
            write_bytes(" in ".as_bytes(), &mut out);
            let mut i: usize = 0;
            while i < self.trail.len()
                invariant
                    i <= self.trail.len(),
                    out@ == head + " in ".spec_bytes() + trail_text(self.trail@.subrange(0, i as int)),
                decreases self.trail.len() - i,
            {
                let ghost shown = self.trail@.subrange(0, i as int);
                let ghost next = self.trail@.subrange(0, i + 1);
                proof {
                    assert(next.drop_last() == shown);
                    assert(next.last() == self.trail@[i as int]);
                }
                if i > 0 {
                    write_bytes(" > ".as_bytes(), &mut out);
                }
                write_rule(self.trail[i], &mut out);
                proof {
                    if i > 0 {
                        assert(out@ == head + " in ".spec_bytes() + (trail_text(shown) + " > ".spec_bytes()
                            + rule_text(self.trail@[i as int])));
                    } else {
                        assert(trail_text(shown) =~= Seq::<u8>::empty());
                        assert(out@ == head + " in ".spec_bytes() + rule_text(self.trail@[i as int]));
                    }
                }
                i += 1;
            }
            assert(self.trail@.subrange(0, self.trail.len() as int) == self.trail@);
            assert(out@ == head + (" in ".spec_bytes() + trail_text(self.trail@)));
        } else {
            assert(out@ == head + Seq::<u8>::empty());
        }
        out
    }
}

} // verus!
