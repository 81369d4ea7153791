use vstd::prelude::*;
use crate::ascii::{
    BACKSLASH, CLOSE_PAREN, DIGIT_ZERO, EQUALS, GREATER, LINE_FEED, MINUS, OPEN_PAREN, QUOTE,
    SEMICOLON, SPACE,
};
use crate::ast::{
    lemma_terms_of, term_of, terms_of, BuiltinLambda, Lit, Literal, Program, Statement, Stmt,
    Term, Value,
};
use crate::builtins::builtin_name;

verus! {

/// The decimal digits of a natural number, most significant first, without leading zeros.
pub open spec fn decimal(n: nat) -> Seq<u8>
    decreases n,
{
    if n < 10 {
        seq![(DIGIT_ZERO + n) as u8]
    } else {
        decimal(n / 10).push((DIGIT_ZERO + n % 10) as u8)
    }
}

/// An integer in decimal, with `-` before a negative one.
pub open spec fn integer_text(i: int) -> Seq<u8> {
    if i < 0 {
        seq![MINUS] + decimal((-i) as nat)
    } else {
        decimal(i as nat)
    }
}

/// `True`.
pub open spec fn true_text() -> Seq<u8> {
    seq![84u8, 114u8, 117u8, 101u8]
}

/// `False`.
pub open spec fn false_text() -> Seq<u8> {
    seq![70u8, 97u8, 108u8, 115u8, 101u8]
}

/// A literal as it is shown: an integer in decimal, `True` or `False`, or the bytes of a
/// byte string between two double quotes, with nothing escaped.
pub open spec fn literal_text(l: Lit) -> Seq<u8> {
    match l {
        Lit::Bytes(b) => seq![QUOTE] + b + seq![QUOTE],
        Lit::Integer(i) => integer_text(i),
        Lit::Boolean(b) => if b {
            true_text()
        } else {
            false_text()
        },
    }
}

/// The operator of a chain of applications followed by its arguments, in order.
pub open spec fn spine(t: Term) -> Seq<Term>
    decreases t,
{
    match t {
        Term::Apply(f, a) => spine(*f).push(*a),
        _ => seq![t],
    }
}

/// A term as it is shown.
///
/// A reference is its name; a lambda is `\`, the parameter, ` -> ` and the body; an
/// application is its whole chain between parentheses, operator first, with one space
/// between neighbours; a native operation is its name, or, once it holds arguments, the
/// name and the arguments between parentheses.
pub open spec fn term_text(t: Term) -> Seq<u8>
    decreases t, 0nat,
{
    match t {
        Term::Literal(l) => literal_text(l),
        Term::Reference(n) => n,
        Term::Lambda(p, b) => seq![BACKSLASH] + p + seq![SPACE, MINUS, GREATER, SPACE] + term_text(*b),
        Term::Builtin(op, _, args) => if args.len() == 0 {
            builtin_name(op)
        } else {
            seq![OPEN_PAREN] + builtin_name(op) + seq![SPACE] + list_text(args) + seq![CLOSE_PAREN]
        },
        Term::Apply(f, a) => seq![OPEN_PAREN] + chain_text(*f) + seq![SPACE] + term_text(*a) + seq![
            CLOSE_PAREN,
        ],
    }
}

/// The chain of applications that `t` heads, without the parentheses around it.
pub open spec fn chain_text(t: Term) -> Seq<u8>
    decreases t, 1nat,
{
    match t {
        Term::Apply(f, a) => chain_text(*f) + seq![SPACE] + term_text(*a),
        _ => term_text(t),
    }
}

/// The terms of a sequence as they are shown, with one space between neighbours.
pub open spec fn list_text(terms: Seq<Term>) -> Seq<u8>
    decreases terms, 2nat,
{
    if terms.len() == 0 {
        Seq::empty()
    } else if terms.len() == 1 {
        term_text(terms[0])
    } else {
        list_text(terms.drop_last()) + seq![SPACE] + term_text(terms.last())
    }
}

/// A statement as it is shown: a binding as the name, ` = ` and the term, a term to show
/// as the term alone; either ends with `;`.
pub open spec fn statement_text(s: Stmt) -> Seq<u8> {
    match s {
        Stmt::Bind(n, t) => n + seq![SPACE, EQUALS, SPACE] + term_text(t) + seq![SEMICOLON],
        Stmt::Print(t) => term_text(t) + seq![SEMICOLON],
    }
}

/// A program as it is shown: each statement on a line of its own.
pub open spec fn program_text(p: Seq<Stmt>) -> Seq<u8>
    decreases p.len(),
{
    if p.len() == 0 {
        Seq::empty()
    } else {
        program_text(p.drop_last()) + statement_text(p.last()) + seq![LINE_FEED]
    }
}

/// The chain of applications that a term heads is the list of its spine.
pub proof fn lemma_chain_is_list_of_spine(t: Term)
    ensures
        chain_text(t) == list_text(spine(t)),
    decreases t,
{
    match t {
        Term::Apply(f, a) => {
            lemma_chain_is_list_of_spine(*f);
            lemma_spine_len(*f);
            assert(spine(t).drop_last() == spine(*f));
        },
        _ => {},
    }
}

/// A spine holds at least the operator, and one term more for an application.
pub proof fn lemma_spine_len(t: Term)
    ensures
        spine(t).len() >= 1,
        t is Apply ==> spine(t).len() >= 2,
        !(spine(t)[0] is Apply),
    decreases t,
{
    match t {
        Term::Apply(f, a) => {
            lemma_spine_len(*f);
        },
        _ => {},
    }
}

/// The terms that a sequence of borrowed values stands for, in order.
pub open spec fn terms_of_refs(refs: Seq<&Value>) -> Seq<Term> {
    refs.map_values(|v: &Value| term_of(*v))
}

/// The operator of the chain of applications that `val` heads, followed by the chain's
/// arguments in order. For a value that is no application this is the value alone.
pub fn application_list(val: &Value) -> (res: Vec<&Value>)
    ensures
        terms_of_refs(res@) == spine(val@),
        forall|i: int|
            0 <= i < res.len() ==> if val is Apply {
                decreases_to!(val => #[trigger] res[i])
            } else {
                res[i] == val
            },
    decreases val,
{
    match val {
        Value::Apply(l, r) => {
            let mut list = application_list(l);
            let ghost before = list@;
            list.push(r);
            proof {
                assert(terms_of_refs(list@) =~= terms_of_refs(before).push(r@));
                assert forall|i: int| 0 <= i < list.len() implies decreases_to!(val => #[trigger] list[i]) by {
                    if i < before.len() {
                        assert(list[i] == before[i]);
                    }
                }
            }
            list
        },
        other => {
            let list = vec![other];
            assert(terms_of_refs(list@) =~= seq![other@]);
            list
        },
    }
}

/// Appends `bytes` to `out`.
pub(crate) fn write_bytes(bytes: &[u8], out: &mut Vec<u8>)
    ensures
        final(out)@ == old(out)@ + bytes@,
{
    let mut i: usize = 0;
    while i < bytes.len()
        invariant
            i <= bytes.len(),
            out@ == old(out)@ + bytes@.subrange(0, i as int),
        decreases bytes.len() - i,
    {
        out.push(bytes[i]);
        assert(bytes@.subrange(0, i + 1) == bytes@.subrange(0, i as int).push(bytes@[i as int]));
        i += 1;
    }
    assert(bytes@.subrange(0, bytes.len() as int) == bytes@);
}

/// Appends the decimal digits of `n` to `out`.
pub(crate) fn write_decimal(n: u128, out: &mut Vec<u8>)
    ensures
        final(out)@ == old(out)@ + decimal(n as nat),
    decreases n,
{
    if n >= 10 {
        write_decimal(n / 10, out);
    }
    let d: u8 = (n % 10) as u8;
    out.push(DIGIT_ZERO + d);
    proof {
        if n >= 10 {
            assert(old(out)@ + decimal((n / 10) as nat).push((DIGIT_ZERO + n % 10) as u8) == (old(out)@
                + decimal((n / 10) as nat)).push((DIGIT_ZERO + n % 10) as u8));
        } else {
            assert(old(out)@ + seq![(DIGIT_ZERO + n) as u8] == old(out)@.push((DIGIT_ZERO + n) as u8));
        }
    }
}

/// Appends an integer in decimal to `out`.
fn write_integer(i: i128, out: &mut Vec<u8>)
    ensures
        final(out)@ == old(out)@ + integer_text(i as int),
{
    if i < 0 {
        out.push(MINUS);
        let m: u128 = ((-(i + 1)) as u128) + 1;
        write_decimal(m, out);
        assert(old(out)@.push(MINUS) + decimal(m as nat) == old(out)@ + (seq![MINUS] + decimal(m as nat)));
    } else {
        write_decimal(i as u128, out);
    }
}

/// Appends a literal, as it is shown, to `out`.
fn write_literal(l: &Literal, out: &mut Vec<u8>)
    ensures
        final(out)@ == old(out)@ + literal_text(l@),
{
    match l {
        Literal::Bytes(b) => {
            out.push(QUOTE);
            write_bytes(b.as_slice(), out);
            out.push(QUOTE);
            assert(out@ == old(out)@ + (seq![QUOTE] + b@ + seq![QUOTE]));
        },
        Literal::Integer(i) => write_integer(*i, out),
        Literal::Boolean(b) => {
            if *b {
                out.push(84u8);
                out.push(114u8);
                out.push(117u8);
                out.push(101u8);
                assert(out@ == old(out)@ + true_text());
            } else {
                out.push(70u8);
                out.push(97u8);
                out.push(108u8);
                out.push(115u8);
                out.push(101u8);
                assert(out@ == old(out)@ + false_text());
            }
        },
    }
}

/// Appends a term, as it is shown, to `out`.
fn write_value(v: &Value, out: &mut Vec<u8>)
    ensures
        final(out)@ == old(out)@ + term_text(v@),
    decreases v, 0nat,
{
    match v {
        Value::BuiltinLambda(b) => write_builtin(b, out),
        Value::Apply(_, _) => {
            let list = application_list(v);
            proof {
                lemma_chain_is_list_of_spine(v@);
                crate::formatter::lemma_spine_len(v@);
            }
            out.push(OPEN_PAREN);
            let mut i: usize = 0;
            while i < list.len()
                invariant
                    i <= list.len(),
                    v is Apply,
                    list.len() >= 2,
                    forall|j: int| 0 <= j < list.len() ==> decreases_to!(v => #[trigger] list[j]),
                    out@ == old(out)@ + seq![OPEN_PAREN] + list_text(
                        terms_of_refs(list@).subrange(0, i as int),
                    ),
                decreases list.len() - i,
            {
                let ghost shown = terms_of_refs(list@).subrange(0, i as int);
                let ghost next = terms_of_refs(list@).subrange(0, i + 1);
                proof {
                    assert(next.drop_last() == shown);
                    assert(next.last() == list[i as int]@);
                }
                if i > 0 {
                    out.push(SPACE);
                }
                write_value(list[i], out);
                proof {
                    if i > 0 {
                        assert(out@ == old(out)@ + seq![OPEN_PAREN] + (list_text(shown) + seq![SPACE]
                            + term_text(list[i as int]@)));
                    } else {
                        assert(list_text(shown) == Seq::<u8>::empty());
                        assert(out@ == old(out)@ + seq![OPEN_PAREN] + term_text(list[i as int]@));
                    }
                }
                i += 1;
            }
            out.push(CLOSE_PAREN);
            proof {
                assert(terms_of_refs(list@).subrange(0, list.len() as int) == spine(v@));
                let f = v->Apply_0;
                let a = v->Apply_1;
                assert(spine(v@).drop_last() == spine(f@));
                lemma_chain_is_list_of_spine(f@);
                assert(out@ == old(out)@ + term_text(v@));
            }
        },
        Value::Lambda(name, body) => {
            out.push(BACKSLASH);
            write_bytes(name.as_slice(), out);
            out.push(SPACE);
            out.push(MINUS);
            out.push(GREATER);
            out.push(SPACE);
            let ghost head = out@;
            write_value(body, out);
            proof {
                assert(head == old(out)@ + (seq![BACKSLASH] + name@ + seq![SPACE, MINUS, GREATER, SPACE]));
                assert(out@ == old(out)@ + term_text(v@));
            }
        },
        Value::Literal(l) => write_literal(l, out),
        Value::Reference(name) => write_bytes(name.as_slice(), out),
    }
}

/// Appends a native operation with its collected arguments, as it is shown, to `out`.
fn write_builtin(b: &BuiltinLambda, out: &mut Vec<u8>)
    ensures
        final(out)@ == old(out)@ + term_text(b@),
    decreases b, 1nat,
{
    let name = b.op.name();
    proof {
        lemma_terms_of(b.args@);
    }
    if b.args.len() == 0 {
        write_bytes(name.as_slice(), out);
    } else {
        out.push(OPEN_PAREN);
        write_bytes(name.as_slice(), out);
        let ghost head = out@;
        let mut i: usize = 0;
        while i < b.args.len()
            invariant
                i <= b.args.len(),
                head == old(out)@ + seq![OPEN_PAREN] + builtin_name(b.op),
                out@ == head + if i == 0 {
                    Seq::<u8>::empty()
                } else {
                    seq![SPACE] + list_text(terms_of(b.args@).subrange(0, i as int))
                },
                terms_of(b.args@).len() == b.args.len(),
                forall|j: int| 0 <= j < b.args.len() ==> (#[trigger] terms_of(b.args@)[j]) == term_of(b.args@[j]),
            decreases b.args.len() - i,
        {
            let ghost shown = terms_of(b.args@).subrange(0, i as int);
            let ghost next = terms_of(b.args@).subrange(0, i + 1);
            proof {
                assert(next.drop_last() == shown);
                assert(next.last() == b.args[i as int]@);
                vstd::std_specs::vec::axiom_vec_index_decreases(b.args, i as int);
            }
            out.push(SPACE);
            write_value(&b.args[i], out);
            proof {
                if i > 0 {
                    assert(out@ == head + (seq![SPACE] + (list_text(shown) + seq![SPACE] + term_text(
                        b.args[i as int]@,
                    ))));
                } else {
                    assert(out@ == head + (seq![SPACE] + term_text(b.args[i as int]@)));
                }
            }
            i += 1;
        }
        out.push(CLOSE_PAREN);
        proof {
            assert(terms_of(b.args@).subrange(0, b.args.len() as int) == terms_of(b.args@));
            assert(out@ == old(out)@ + (seq![OPEN_PAREN] + builtin_name(b.op) + seq![SPACE] + list_text(
                terms_of(b.args@),
            ) + seq![CLOSE_PAREN]));
        }
    }
}

/// Appends a statement, as it is shown, to `out`.
fn write_statement(s: &Statement, out: &mut Vec<u8>)
    ensures
        final(out)@ == old(out)@ + statement_text(s@),
{
    match s {
        Statement::Bind(name, value) => {
            write_bytes(name.as_slice(), out);
            out.push(SPACE);
            out.push(EQUALS);
            out.push(SPACE);
            let ghost head = out@;
            write_value(value, out);
            out.push(SEMICOLON);
            proof {
                assert(head == old(out)@ + (name@ + seq![SPACE, EQUALS, SPACE]));
                assert(out@ == old(out)@ + statement_text(s@));
            }
        },
        Statement::Print(value) => {
            write_value(value, out);
            out.push(SEMICOLON);
            assert(out@ == old(out)@ + statement_text(s@));
        },
    }
}

impl Literal {
    /// The literal as it is shown.
    pub fn render(&self) -> (res: Vec<u8>)
        ensures
            res@ == literal_text(self@),
    {
        let mut out: Vec<u8> = Vec::new();
        write_literal(self, &mut out);
        assert(Seq::<u8>::empty() + literal_text(self@) == literal_text(self@));
        out
    }
}

impl BuiltinLambda {
    /// The native operation as it is shown: its name, or, once it holds arguments, the
    /// name and the arguments between parentheses.
    pub fn render(&self) -> (res: Vec<u8>)
        ensures
            res@ == term_text(self@),
    {
        let mut out: Vec<u8> = Vec::new();
        write_builtin(self, &mut out);
        assert(Seq::<u8>::empty() + term_text(self@) == term_text(self@));
        out
    }
}

impl Value {
    /// The term as it is shown.
    pub fn render(&self) -> (res: Vec<u8>)
        ensures
            res@ == term_text(self@),
    {
        let mut out: Vec<u8> = Vec::new();
        write_value(self, &mut out);
        assert(Seq::<u8>::empty() + term_text(self@) == term_text(self@));
        out
    }
}

impl Statement {
    /// The statement as it is shown.
    pub fn render(&self) -> (res: Vec<u8>)
        ensures
            res@ == statement_text(self@),
    {
        let mut out: Vec<u8> = Vec::new();
        write_statement(self, &mut out);
        assert(Seq::<u8>::empty() + statement_text(self@) == statement_text(self@));
        out
    }
}

impl Program {
    /// The program as it is shown: each statement on a line of its own.
    pub fn render(&self) -> (res: Vec<u8>)
        ensures
            res@ == program_text(self@),
    {
        let mut out: Vec<u8> = Vec::new();
        let mut i: usize = 0;
        while i < self.statements.len()
            invariant
                i <= self.statements.len(),
                out@ == program_text(self@.subrange(0, i as int)),
            decreases self.statements.len() - i,
        {
            let ghost shown = self@.subrange(0, i as int);
            let ghost next = self@.subrange(0, i + 1);
            proof {
                assert(next.drop_last() == shown);
                assert(next.last() == self.statements[i as int]@);
            }
            write_statement(&self.statements[i], &mut out);
            out.push(LINE_FEED);
            i += 1;
        }
        assert(self@.subrange(0, self.statements.len() as int) == self@);
        out
    }
}

} // verus!
