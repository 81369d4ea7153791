use vstd::prelude::*;
use crate::ascii::{
    is_alpha, is_digit, is_space, is_word, BACKSLASH, CLOSE_PAREN, EQUALS, GREATER, LINE_FEED,
    MINUS, OPEN_PAREN, PRIME, QUOTE, SEMICOLON, SPACE,
};
use crate::ast::{Lit, Stmt, Term};
use crate::formatter::{
    chain_text, decimal, false_text, integer_text, literal_text, program_text, spine,
    statement_text, term_text, true_text,
};
use crate::grammar::{
    at, digits_value, failure, fold_apply, has_at, identifier_end, in_class,
    lemma_identifier_bounds, lemma_scan, lemma_scan_is, lemma_statement_bounds, parse_application, parse_identifier, parse_integer, parse_items, parse_lambda,
    parse_literal, parse_program, parse_reference, parse_single_statement, parse_statement,
    parse_statements, scan, skip_spaces, Class, Expected, Failure,
};

verus! {

/// Whether `name` is spelled as the grammar spells an identifier: a letter, then
/// letters, digits and `_`, then at most one `'`.
pub open spec fn valid_identifier(name: Seq<u8>) -> bool {
    &&& name.len() >= 1
    &&& is_alpha(name[0])
    &&& forall|i: int| 1 <= i < name.len() - 1 ==> is_word(#[trigger] name[i])
    &&& name.len() >= 2 ==> is_word(name.last()) || name.last() == PRIME
}

/// Whether the byte at `pos`, if there is one, can follow a token without becoming part
/// of it: it is no letter, digit, `_` or `'`.
pub open spec fn token_ends(s: Seq<u8>, pos: int) -> bool {
    pos >= s.len() || !(is_word(s[pos]) || s[pos] == PRIME)
}

/// Whether a literal can come out of the parser: a byte string holds no `"`, and an
/// integer fits the integer type.
pub open spec fn literal_shape(l: Lit) -> bool {
    match l {
        Lit::Bytes(b) => forall|i: int| 0 <= i < b.len() ==> #[trigger] b[i] != QUOTE,
        Lit::Integer(i) => i128::MIN <= i <= i128::MAX,
        Lit::Boolean(_) => true,
    }
}

/// Whether a term can come out of the parser as an item of an application: a literal, a
/// reference whose name is an identifier that does not begin with `True` or `False`, or
/// an application of such terms.
pub open spec fn item_shape(t: Term) -> bool
    decreases t,
{
    match t {
        Term::Literal(l) => literal_shape(l),
        Term::Reference(n) => valid_identifier(n) && !has_at(n, 0, true_text()) && !has_at(
            n,
            0,
            false_text(),
        ),
        Term::Apply(f, a) => item_shape(*f) && item_shape(*a),
        _ => false,
    }
}

/// Whether a term can come out of the parser: lambdas with identifiers as parameters
/// around an item.
pub open spec fn lambda_shape(t: Term) -> bool
    decreases t,
{
    match t {
        Term::Lambda(p, b) => valid_identifier(p) && lambda_shape(*b),
        _ => item_shape(t),
    }
}

/// Whether a statement can come out of the parser.
pub open spec fn statement_shape(st: Stmt) -> bool {
    match st {
        Stmt::Bind(n, t) => valid_identifier(n) && lambda_shape(t),
        Stmt::Print(t) => lambda_shape(t),
    }
}

/// Whether a program can come out of the parser.
pub open spec fn program_shape(p: Seq<Stmt>) -> bool {
    forall|i: int| 0 <= i < p.len() ==> statement_shape(#[trigger] p[i])
}

/// A text stands at a position where its bytes do, one by one.
pub proof fn lemma_has_at(s: Seq<u8>, pos: int, text: Seq<u8>)
    ensures
        has_at(s, pos, text) <==> (0 <= pos && pos + text.len() <= s.len() && forall|i: int|
            0 <= i < text.len() ==> s[pos + i] == #[trigger] text[i]),
{
    if 0 <= pos && pos + text.len() <= s.len() {
        let part = s.subrange(pos, pos + text.len());
        if has_at(s, pos, text) {
            assert forall|i: int| 0 <= i < text.len() implies s[pos + i] == #[trigger] text[i] by {
                assert(part[i] == s[pos + i]);
            }
        }
        if forall|i: int| 0 <= i < text.len() ==> s[pos + i] == #[trigger] text[i] {
            assert(part =~= text);
        }
    }
}

/// Where two texts stand one behind the other, each stands at its place.
pub proof fn lemma_has_at_split(s: Seq<u8>, pos: int, a: Seq<u8>, b: Seq<u8>)
    requires
        has_at(s, pos, a + b),
    ensures
        has_at(s, pos, a),
        has_at(s, pos + a.len(), b),
{
    lemma_has_at(s, pos, a + b);
    lemma_has_at(s, pos, a);
    lemma_has_at(s, pos + a.len(), b);
    assert forall|i: int| 0 <= i < a.len() implies s[pos + i] == #[trigger] a[i] by {
        assert((a + b)[i] == a[i]);
    }
    assert forall|i: int| 0 <= i < b.len() implies s[pos + a.len() + i] == #[trigger] b[i] by {
        assert((a + b)[a.len() + i] == b[i]);
    }
}

/// An identifier that stands in the text with no letter, digit, `_` or `'` behind it is
/// read back as it is.
pub proof fn lemma_identifier_reads_back(s: Seq<u8>, pos: int, name: Seq<u8>)
    requires
        valid_identifier(name),
        has_at(s, pos, name),
        token_ends(s, pos + name.len()),
    ensures
        parse_identifier(s, pos) == Ok::<(Seq<u8>, int), Failure>((name, pos + name.len())),
{
    lemma_has_at(s, pos, name);
    assert(s[pos + 0] == name[0]);
    let n = name.len() as int;
    let primed = n >= 2 && name.last() == PRIME;
    let e = if primed {
        pos + n - 1
    } else {
        pos + n
    };
    assert forall|i: int| pos + 1 <= i < e implies in_class(Class::Word, #[trigger] s[i]) by {
        assert(s[pos + (i - pos)] == name[i - pos]);
        if i - pos < n - 1 {
            assert(is_word(name[i - pos]));
        }
    }
    if primed {
        assert(s[pos + (n - 1)] == name[n - 1]);
    }
    lemma_scan_is(s, pos + 1, e, Class::Word);
}

/// What the parser reads as an identifier is spelled as one, and ends where no letter,
/// digit or `_` follows, nor a `'` unless it ends in one.
pub proof fn lemma_identifier_shape(s: Seq<u8>, pos: int)
    requires
        0 <= pos <= s.len(),
    ensures
        parse_identifier(s, pos) matches Ok((name, e)) ==> valid_identifier(name) && has_at(
            s,
            pos,
            name,
        ) && e == pos + name.len(),
{
    if pos < s.len() && is_alpha(s[pos]) {
        lemma_scan(s, pos + 1, Class::Word);
        let e = identifier_end(s, pos);
        let name = s.subrange(pos, e);
        assert(name[0] == s[pos]);
        assert forall|i: int| 1 <= i < name.len() - 1 implies is_word(#[trigger] name[i]) by {
            assert(name[i] == s[pos + i]);
            assert(in_class(Class::Word, s[pos + i]));
        }
        if name.len() >= 2 {
            assert(name.last() == s[e - 1]);
            if !at(s, scan(s, pos + 1, Class::Word), PRIME) {
                assert(in_class(Class::Word, s[e - 1]));
            }
        }
    }
}

/// The decimal form of a number is one digit or more, and denotes the number.
pub proof fn lemma_decimal(n: nat)
    ensures
        decimal(n).len() >= 1,
        forall|i: int| 0 <= i < decimal(n).len() ==> is_digit(#[trigger] decimal(n)[i]),
        digits_value(decimal(n)) == n,
    decreases n,
{
    if n < 10 {
        let d = decimal(n);
        assert(d.drop_last() =~= Seq::<u8>::empty());
        assert(digits_value(d.drop_last()) == 0);
    } else {
        lemma_decimal(n / 10);
        let d = decimal(n);
        assert(d.drop_last() =~= decimal(n / 10));
    }
}

/// An integer that stands in the text in decimal, with no digit behind it, is read back
/// as it is.
pub proof fn lemma_integer_reads_back(s: Seq<u8>, pos: int, i: int)
    requires
        i128::MIN <= i <= i128::MAX,
        has_at(s, pos, integer_text(i)),
        token_ends(s, pos + integer_text(i).len()),
    ensures
        parse_integer(s, pos) == Ok::<(int, int), Failure>((i, pos + integer_text(i).len())),
{
    let text = integer_text(i);
    let m: nat = if i < 0 {
        (-i) as nat
    } else {
        i as nat
    };
    lemma_decimal(m);
    lemma_has_at(s, pos, text);
    let start = if i < 0 {
        pos + 1
    } else {
        pos
    };
    let end = pos + text.len();
    if i < 0 {
        assert(text[0] == MINUS);
        assert(s[pos + 0] == text[0]);
        lemma_has_at_split(s, pos, seq![MINUS], decimal(m));
    } else {
        assert(s[pos + 0] == text[0]);
        assert(is_digit(decimal(m)[0]));
    }
    assert(has_at(s, start, decimal(m)));
    lemma_has_at(s, start, decimal(m));
    assert forall|j: int| start <= j < end implies in_class(Class::Digit, #[trigger] s[j]) by {
        assert(s[start + (j - start)] == decimal(m)[j - start]);
    }
    lemma_scan_is(s, start, end, Class::Digit);
}

/// Whether a byte starts a term as it is shown: it is none of white space, `)`, `;`
/// and `=`.
pub open spec fn starts_term(b: u8) -> bool {
    b == BACKSLASH || b == OPEN_PAREN || b == QUOTE || b == MINUS || is_digit(b) || is_alpha(b)
}

/// A literal that can come out of the parser is shown with a first byte that tells its
/// kind.
pub proof fn lemma_literal_head(l: Lit)
    requires
        literal_shape(l),
    ensures
        literal_text(l).len() >= 1,
        match l {
            Lit::Bytes(_) => literal_text(l)[0] == QUOTE,
            Lit::Integer(_) => literal_text(l)[0] == MINUS || is_digit(literal_text(l)[0]),
            Lit::Boolean(b) => literal_text(l)[0] == (if b {
                84u8
            } else {
                70u8
            }),
        },
{
    match l {
        Lit::Integer(i) => {
            if i < 0 {
                lemma_decimal((-i) as nat);
            } else {
                lemma_decimal(i as nat);
            }
        },
        _ => {},
    }
}

/// A literal that can come out of the parser and stands in the text as it is shown, with
/// no letter, digit, `_` or `'` behind it, is read back as it is.
pub proof fn lemma_literal_reads_back(s: Seq<u8>, pos: int, l: Lit)
    requires
        literal_shape(l),
        has_at(s, pos, literal_text(l)),
        token_ends(s, pos + literal_text(l).len()),
    ensures
        parse_literal(s, pos) == Ok::<(Lit, int), Failure>((l, pos + literal_text(l).len())),
{
    let text = literal_text(l);
    lemma_literal_head(l);
    lemma_has_at(s, pos, text);
    lemma_has_at(s, pos, true_text());
    lemma_has_at(s, pos, false_text());
    assert(s[pos + 0] == text[0]);
    assert(true_text()[0] == 84u8);
    assert(false_text()[0] == 70u8);
    match l {
        Lit::Bytes(b) => {
            assert(text.len() == b.len() + 2);
            assert forall|j: int| pos + 1 <= j < pos + 1 + b.len() implies in_class(
                Class::Unquoted,
                #[trigger] s[j],
            ) by {
                assert(s[pos + (j - pos)] == text[j - pos]);
                assert(text[j - pos] == b[j - pos - 1]);
            }
            assert(s[pos + (b.len() + 1)] == text[b.len() as int + 1]);
            lemma_scan_is(s, pos + 1, pos + 1 + b.len(), Class::Unquoted);
            assert(s.subrange(pos + 1, pos + 1 + b.len()) =~= b) by {
                assert forall|j: int| 0 <= j < b.len() implies s[pos + 1 + j] == b[j] by {
                    assert(s[pos + (j + 1)] == text[j + 1]);
                }
            }
        },
        Lit::Integer(i) => {
            lemma_integer_reads_back(s, pos, i);
        },
        Lit::Boolean(b) => {},
    }
}

/// What the parser reads as a literal can come out of the parser.
pub proof fn lemma_literal_shape(s: Seq<u8>, pos: int)
    requires
        0 <= pos <= s.len(),
    ensures
        parse_literal(s, pos) matches Ok((l, e)) ==> literal_shape(l),
{
    if pos < s.len() {
        lemma_scan(s, pos + 1, Class::Unquoted);
    }
    match parse_literal(s, pos) {
        Ok((Lit::Bytes(b), e)) => {
            assert forall|i: int| 0 <= i < b.len() implies #[trigger] b[i] != QUOTE by {
                assert(b[i] == s[pos + 1 + i]);
                assert(in_class(Class::Unquoted, s[pos + 1 + i]));
            }
        },
        _ => {},
    }
}

/// An item is a term that can come out of the parser.
pub proof fn lemma_item_is_term(t: Term)
    requires
        item_shape(t),
    ensures
        lambda_shape(t),
{
}

/// A term that can come out of the parser is shown with a first byte that tells its
/// kind, and that is no white space.
pub proof fn lemma_term_head(t: Term)
    requires
        lambda_shape(t),
    ensures
        term_text(t).len() >= 1,
        starts_term(term_text(t)[0]),
        !is_space(term_text(t)[0]),
        term_text(t)[0] == BACKSLASH <==> t is Lambda,
        term_text(t)[0] == OPEN_PAREN <==> t is Apply,
        is_alpha(term_text(t)[0]) <==> (t is Reference || t matches Term::Literal(Lit::Boolean(_))),
{
    match t {
        Term::Literal(l) => {
            lemma_literal_head(l);
        },
        _ => {},
    }
}

/// The chain that an item heads is shown with the first byte of its operator.
pub proof fn lemma_chain_head(t: Term)
    requires
        item_shape(t),
    ensures
        chain_text(t).len() >= 1,
        starts_term(chain_text(t)[0]),
        !is_space(chain_text(t)[0]),
    decreases t,
{
    match t {
        Term::Apply(f, a) => {
            lemma_chain_head(*f);
        },
        _ => {
            lemma_term_head(t);
        },
    }
}

/// Folding the spine of a term into applications gives the term back.
pub proof fn lemma_fold_spine(t: Term)
    ensures
        fold_apply(spine(t)) == t,
        spine(t).len() >= 1,
        t is Apply ==> spine(t).len() >= 2,
    decreases t,
{
    match t {
        Term::Apply(f, a) => {
            lemma_fold_spine(*f);
            assert(spine(t).drop_last() == spine(*f));
        },
        _ => {},
    }
}

/// A literal or a reference that can come out of the parser and stands in the text as it
/// is shown, with no letter, digit, `_` or `'` behind it, is read back as it is.
pub proof fn lemma_reference_reads_back(s: Seq<u8>, pos: int, t: Term)
    requires
        item_shape(t),
        !(t is Apply),
        has_at(s, pos, term_text(t)),
        token_ends(s, pos + term_text(t).len()),
    ensures
        parse_reference(s, pos) == Ok::<(Term, int), Failure>((t, pos + term_text(t).len())),
{
    match t {
        Term::Literal(l) => {
            lemma_literal_reads_back(s, pos, l);
        },
        Term::Reference(n) => {
            lemma_has_at(s, pos, n);
            lemma_has_at(s, pos, true_text());
            lemma_has_at(s, pos, false_text());
            lemma_has_at(n, 0, true_text());
            lemma_has_at(n, 0, false_text());
            assert(s[pos + 0] == n[0]);
            if has_at(s, pos, true_text()) {
                if n.len() < 4 {
                    assert(s[pos + n.len()] == true_text()[n.len() as int]);
                } else {
                    assert forall|i: int| 0 <= i < 4 implies n[0 + i] == #[trigger] true_text()[i] by {
                        assert(s[pos + i] == n[i]);
                    }
                }
            }
            if has_at(s, pos, false_text()) {
                if n.len() < 5 {
                    assert(s[pos + n.len()] == false_text()[n.len() as int]);
                } else {
                    assert forall|i: int| 0 <= i < 5 implies n[0 + i] == #[trigger] false_text()[i] by {
                        assert(s[pos + i] == n[i]);
                    }
                }
            }
            lemma_scan_is(s, pos, pos, Class::Digit);
            lemma_identifier_reads_back(s, pos, n);
        },
        _ => {},
    }
}

/// No term starts at a `)`: the parser gives up there at once, for want of a term.
pub proof fn lemma_no_term_at_close(s: Seq<u8>, pos: int)
    requires
        at(s, pos, CLOSE_PAREN),
    ensures
        parse_application(s, pos) == Err::<(Term, int), Failure>(failure(pos, Expected::Term)),
{
    lemma_has_at(s, pos, true_text());
    lemma_has_at(s, pos, false_text());
    assert(true_text()[0] == 84u8);
    assert(false_text()[0] == 70u8);
    lemma_scan_is(s, pos, pos, Class::Digit);
}

/// An item that can come out of the parser and stands in the text as it is shown, with
/// no letter, digit, `_` or `'` behind it, is read back as it is.
pub proof fn lemma_item_reads_back(s: Seq<u8>, pos: int, t: Term)
    requires
        item_shape(t),
        has_at(s, pos, term_text(t)),
        token_ends(s, pos + term_text(t).len()),
    ensures
        parse_application(s, pos) == Ok::<(Term, int), Failure>((t, pos + term_text(t).len())),
    decreases t, 1nat,
{
    lemma_term_head(t);
    lemma_has_at(s, pos, term_text(t));
    assert(s[pos + 0] == term_text(t)[0]);
    match t {
        Term::Apply(f, a) => {
            let inner = chain_text(t);
            assert(term_text(t) =~= seq![OPEN_PAREN] + inner + seq![CLOSE_PAREN]);
            lemma_has_at_split(s, pos, seq![OPEN_PAREN] + inner, seq![CLOSE_PAREN]);
            lemma_has_at_split(s, pos, seq![OPEN_PAREN], inner);
            let e = pos + 1 + inner.len();
            lemma_has_at(s, e, seq![CLOSE_PAREN]);
            assert(s[e + 0] == seq![CLOSE_PAREN][0]);
            lemma_chain_reads_back(s, pos + 1, t, Seq::empty());
            assert(Seq::<Term>::empty() + spine(t) =~= spine(t));
            lemma_fold_spine(t);
            lemma_no_term_at_close(s, e);
            lemma_scan_is(s, e, e, Class::Space);
        },
        _ => {
            lemma_reference_reads_back(s, pos, t);
        },
    }
}

/// The chain that an item heads, standing in the text as it is shown with no letter,
/// digit, `_` or `'` behind it, is read back item by item, behind what was collected.
pub proof fn lemma_chain_reads_back(s: Seq<u8>, pos: int, t: Term, acc: Seq<Term>)
    requires
        item_shape(t),
        has_at(s, pos, chain_text(t)),
        token_ends(s, pos + chain_text(t).len()),
    ensures
        parse_items(s, pos, acc) == parse_items(s, pos + chain_text(t).len(), acc + spine(t)),
    decreases t, (if t is Apply { 0nat } else { 2nat }),
{
    lemma_chain_head(t);
    lemma_has_at(s, pos, chain_text(t));
    assert(s[pos + 0] == chain_text(t)[0]);
    match t {
        Term::Apply(f, a) => {
            let head = chain_text(*f);
            let arg = term_text(*a);
            assert(chain_text(t) =~= head + (seq![SPACE] + arg));
            lemma_has_at_split(s, pos, head, seq![SPACE] + arg);
            let q1 = pos + head.len();
            lemma_has_at_split(s, q1, seq![SPACE], arg);
            lemma_has_at(s, q1, seq![SPACE]);
            assert(s[q1 + 0] == seq![SPACE][0]);
            lemma_chain_reads_back(s, pos, *f, acc);
            lemma_item_is_term(*a);
            lemma_term_head(*a);
            lemma_has_at(s, q1 + 1, arg);
            assert(s[q1 + 1 + 0] == arg[0]);
            lemma_scan_is(s, q1, q1 + 1, Class::Space);
            lemma_item_reads_back(s, q1 + 1, *a);
            assert((acc + spine(*f)).push(*a) =~= acc + spine(t));
        },
        _ => {
            lemma_scan_is(s, pos, pos, Class::Space);
            lemma_item_reads_back(s, pos, t);
            assert(acc.push(t) =~= acc + spine(t));
        },
    }
}

/// A term that can come out of the parser and stands in the text as it is shown, with
/// no letter, digit, `_` or `'` behind it, is read back as it is.
pub proof fn lemma_term_reads_back(s: Seq<u8>, pos: int, t: Term)
    requires
        lambda_shape(t),
        has_at(s, pos, term_text(t)),
        token_ends(s, pos + term_text(t).len()),
    ensures
        parse_lambda(s, pos) == Ok::<(Term, int), Failure>((t, pos + term_text(t).len())),
    decreases t,
{
    lemma_term_head(t);
    lemma_has_at(s, pos, term_text(t));
    assert(s[pos + 0] == term_text(t)[0]);
    match t {
        Term::Lambda(p, b) => {
            let arrow = seq![SPACE, MINUS, GREATER, SPACE];
            let body = term_text(*b);
            assert(term_text(t) =~= seq![BACKSLASH] + (p + (arrow + body)));
            lemma_has_at_split(s, pos, seq![BACKSLASH], p + (arrow + body));
            lemma_has_at_split(s, pos + 1, p, arrow + body);
            let q1 = pos + 1 + p.len();
            lemma_has_at_split(s, q1, arrow, body);
            lemma_has_at(s, q1, arrow);
            assert(s[q1 + 0] == arrow[0]);
            assert(s[q1 + 1] == arrow[1]);
            assert(s[q1 + 2] == arrow[2]);
            assert(s[q1 + 3] == arrow[3]);
            lemma_identifier_reads_back(s, pos + 1, p);
            lemma_scan_is(s, q1, q1 + 1, Class::Space);
            lemma_term_head(*b);
            lemma_has_at(s, q1 + 4, body);
            assert(s[q1 + 4 + 0] == body[0]);
            lemma_scan_is(s, q1 + 3, q1 + 4, Class::Space);
            lemma_term_reads_back(s, q1 + 4, *b);
        },
        _ => {
            lemma_item_reads_back(s, pos, t);
        },
    }
}

/// A statement that can come out of the parser and stands in the text as it is shown is
/// read back as it is; the white space behind it is passed over.
pub proof fn lemma_statement_reads_back(s: Seq<u8>, pos: int, st: Stmt)
    requires
        statement_shape(st),
        has_at(s, pos, statement_text(st)),
    ensures
        parse_statement(s, pos) == Ok::<(Stmt, int), Failure>(
            (st, skip_spaces(s, pos + statement_text(st).len())),
        ),
{
    let text = statement_text(st);
    lemma_has_at(s, pos, text);
    match st {
        Stmt::Bind(n, t) => {
            let sign = seq![SPACE, EQUALS, SPACE];
            let term = term_text(t);
            assert(text =~= n + (sign + (term + seq![SEMICOLON])));
            lemma_has_at_split(s, pos, n, sign + (term + seq![SEMICOLON]));
            let q1 = pos + n.len();
            lemma_has_at_split(s, q1, sign, term + seq![SEMICOLON]);
            lemma_has_at(s, q1, sign);
            assert(s[q1 + 0] == sign[0]);
            assert(s[q1 + 1] == sign[1]);
            assert(s[q1 + 2] == sign[2]);
            lemma_identifier_reads_back(s, pos, n);
            lemma_scan_is(s, q1, q1 + 1, Class::Space);
            let q3 = q1 + 3;
            lemma_has_at_split(s, q3, term, seq![SEMICOLON]);
            lemma_term_head(t);
            lemma_has_at(s, q3, term);
            assert(s[q3 + 0] == term[0]);
            lemma_scan_is(s, q1 + 2, q3, Class::Space);
            let q4 = q3 + term.len();
            lemma_has_at(s, q4, seq![SEMICOLON]);
            assert(s[q4 + 0] == seq![SEMICOLON][0]);
            lemma_term_reads_back(s, q3, t);
            lemma_scan_is(s, q4, q4, Class::Space);
        },
        Stmt::Print(t) => {
            let term = term_text(t);
            lemma_has_at_split(s, pos, term, seq![SEMICOLON]);
            let q4 = pos + term.len();
            lemma_has_at(s, q4, seq![SEMICOLON]);
            assert(s[q4 + 0] == seq![SEMICOLON][0]);
            lemma_term_head(t);
            lemma_has_at(s, pos, term);
            assert(s[pos + 0] == term[0]);
            lemma_term_reads_back(s, pos, t);
            lemma_scan_is(s, q4, q4, Class::Space);
            // What stands at `pos` is no binding: where the term starts with a letter it
            // is a name or a truth value, and the `;` comes right behind it.
            if is_alpha(term[0]) {
                match t {
                    Term::Reference(n) => {
                        lemma_identifier_reads_back(s, pos, n);
                    },
                    Term::Literal(Lit::Boolean(b)) => {
                        assert(term.len() == if b { 4int } else { 5int });
                        assert(valid_identifier(term)) by {
                            assert(term =~= if b { true_text() } else { false_text() });
                        }
                        lemma_identifier_reads_back(s, pos, term);
                    },
                    _ => {},
                }
            }
        },
    }
}

/// A program is shown as its first statement on a line, then the rest.
pub proof fn lemma_program_text_front(p: Seq<Stmt>)
    requires
        p.len() >= 1,
    ensures
        program_text(p) == statement_text(p[0]) + seq![LINE_FEED] + program_text(p.drop_first()),
    decreases p.len(),
{
    if p.len() == 1 {
        assert(p.drop_last() =~= Seq::<Stmt>::empty());
        assert(p.drop_first() =~= Seq::<Stmt>::empty());
        assert(program_text(p.drop_last()) =~= Seq::<u8>::empty());
        assert(program_text(p) =~= statement_text(p[0]) + seq![LINE_FEED] + program_text(
            p.drop_first(),
        ));
    } else {
        lemma_program_text_front(p.drop_last());
        assert(p.drop_last().drop_first() =~= p.drop_first().drop_last());
        assert(p.drop_last()[0] == p[0]);
        assert(p.drop_first().last() == p.last());
        assert(program_text(p) =~= statement_text(p[0]) + seq![LINE_FEED] + program_text(
            p.drop_first(),
        ));
    }
}

/// A statement that can come out of the parser is shown with a first byte that is no
/// white space.
pub proof fn lemma_statement_head(st: Stmt)
    requires
        statement_shape(st),
    ensures
        statement_text(st).len() >= 1,
        !is_space(statement_text(st)[0]),
{
    match st {
        Stmt::Bind(n, t) => {},
        Stmt::Print(t) => {
            lemma_term_head(t);
        },
    }
}

/// A program that can come out of the parser and stands at the end of the text as it is
/// shown is read back statement by statement, behind what was collected.
pub proof fn lemma_statements_read_back(s: Seq<u8>, pos: int, p: Seq<Stmt>, acc: Seq<Stmt>)
    requires
        program_shape(p),
        has_at(s, pos, program_text(p)),
        pos + program_text(p).len() == s.len(),
    ensures
        parse_statements(s, pos, acc) == Ok::<Seq<Stmt>, Failure>(acc + p),
    decreases p.len(),
{
    if p.len() == 0 {
        assert(acc + p =~= acc);
    } else {
        let st = p[0];
        let rest = p.drop_first();
        lemma_program_text_front(p);
        let line = statement_text(st);
        assert(program_text(p) =~= line + (seq![LINE_FEED] + program_text(rest)));
        lemma_has_at_split(s, pos, line, seq![LINE_FEED] + program_text(rest));
        let e = pos + line.len();
        lemma_has_at_split(s, e, seq![LINE_FEED], program_text(rest));
        lemma_has_at(s, e, seq![LINE_FEED]);
        assert(s[e + 0] == seq![LINE_FEED][0]);
        assert(statement_shape(p[0]));
        lemma_statement_head(st);
        lemma_statement_reads_back(s, pos, st);
        assert forall|i: int| 0 <= i < rest.len() implies statement_shape(#[trigger] rest[i]) by {
            assert(rest[i] == p[i + 1]);
        }
        if rest.len() > 0 {
            lemma_program_text_front(rest);
            assert(statement_shape(rest[0]));
            lemma_statement_head(rest[0]);
            lemma_has_at(s, e + 1, program_text(rest));
            assert(program_text(rest)[0] == statement_text(rest[0])[0]);
            assert(s[e + 1 + 0] == program_text(rest)[0]);
        } else {
            assert(program_text(rest) =~= Seq::<u8>::empty());
        }
        lemma_scan_is(s, e, e + 1, Class::Space);
        lemma_statements_read_back(s, e + 1, rest, acc.push(st));
        assert(acc.push(st) + rest =~= acc + p);
    }
}

/// A program that can come out of the parser, shown and read again, is the same program.
pub proof fn lemma_shown_program_reads_back(p: Seq<Stmt>)
    requires
        program_shape(p),
    ensures
        parse_program(program_text(p)) == Ok::<Seq<Stmt>, Failure>(p),
{
    let s = program_text(p);
    assert(s.subrange(0, s.len() as int) =~= s);
    if p.len() > 0 {
        lemma_program_text_front(p);
        assert(statement_shape(p[0]));
        lemma_statement_head(p[0]);
        assert(s[0] == statement_text(p[0])[0]);
    }
    lemma_scan_is(s, 0, 0, Class::Space);
    lemma_statements_read_back(s, 0, p, Seq::empty());
    assert(Seq::<Stmt>::empty() + p =~= p);
}

/// What the parser reads as a literal or a reference can come out as an item.
pub proof fn lemma_reference_shape(s: Seq<u8>, pos: int)
    requires
        0 <= pos <= s.len(),
    ensures
        parse_reference(s, pos) matches Ok((t, e)) ==> item_shape(t),
{
    lemma_literal_shape(s, pos);
    lemma_identifier_shape(s, pos);
    match parse_reference(s, pos) {
        Ok((Term::Reference(n), e)) => {
            lemma_has_at(s, pos, n);
            lemma_has_at(s, pos, true_text());
            lemma_has_at(s, pos, false_text());
            lemma_has_at(n, 0, true_text());
            lemma_has_at(n, 0, false_text());
            if has_at(n, 0, true_text()) {
                assert forall|i: int| 0 <= i < 4 implies s[pos + i] == #[trigger] true_text()[i] by {
                    assert(s[pos + i] == n[i]);
                    assert(n[0 + i] == true_text()[i]);
                }
            }
            if has_at(n, 0, false_text()) {
                assert forall|i: int| 0 <= i < 5 implies s[pos + i] == #[trigger] false_text()[i] by {
                    assert(s[pos + i] == n[i]);
                    assert(n[0 + i] == false_text()[i]);
                }
            }
        },
        _ => {},
    }
}

/// Items folded into applications are an item.
pub proof fn lemma_fold_shape(items: Seq<Term>)
    requires
        items.len() >= 1,
        forall|i: int| 0 <= i < items.len() ==> item_shape(#[trigger] items[i]),
    ensures
        item_shape(fold_apply(items)),
    decreases items.len(),
{
    if items.len() > 1 {
        lemma_fold_shape(items.drop_last());
        assert(item_shape(items[items.len() - 1]));
    } else {
        assert(item_shape(items[0]));
    }
}

/// What the parser reads as an application can come out as an item.
pub proof fn lemma_application_shape(s: Seq<u8>, pos: int)
    requires
        0 <= pos <= s.len(),
    ensures
        parse_application(s, pos) matches Ok((t, e)) ==> item_shape(t),
    decreases s.len() - pos, 0nat,
{
    if at(s, pos, OPEN_PAREN) {
        lemma_items_shape(s, pos + 1, Seq::empty());
        let (items, e, f) = parse_items(s, pos + 1, Seq::empty());
        if items.len() > 0 {
            lemma_fold_shape(items);
        }
    } else {
        lemma_reference_shape(s, pos);
    }
}

/// The items that the parser collects can each come out as an item, where those
/// collected before can.
pub proof fn lemma_items_shape(s: Seq<u8>, pos: int, acc: Seq<Term>)
    requires
        0 <= pos <= s.len(),
        forall|i: int| 0 <= i < acc.len() ==> item_shape(#[trigger] acc[i]),
    ensures
        forall|i: int|
            0 <= i < parse_items(s, pos, acc).0.len() ==> item_shape(
                #[trigger] parse_items(s, pos, acc).0[i],
            ),
    decreases s.len() - pos, 1nat,
{
    let p = skip_spaces(s, pos);
    lemma_scan(s, pos, Class::Space);
    if pos <= p < s.len() {
        lemma_application_shape(s, p);
        match parse_application(s, p) {
            Ok((t, q)) => {
                if p < q <= s.len() {
                    let next = acc.push(t);
                    assert forall|i: int| 0 <= i < next.len() implies item_shape(#[trigger] next[i]) by {
                        if i < acc.len() {
                            assert(next[i] == acc[i]);
                        }
                    }
                    lemma_items_shape(s, q, next);
                    assert(parse_items(s, pos, acc) == parse_items(s, q, next));
                }
            },
            Err(_) => {},
        }
    }
}

/// What the parser reads as a term can come out of the parser.
pub proof fn lemma_term_shape(s: Seq<u8>, pos: int)
    requires
        0 <= pos <= s.len(),
    ensures
        parse_lambda(s, pos) matches Ok((t, e)) ==> lambda_shape(t),
    decreases s.len() - pos,
{
    if at(s, pos, BACKSLASH) {
        lemma_identifier_shape(s, pos + 1);
        match parse_identifier(s, pos + 1) {
            Err(f) => {},
            Ok((param, q1)) => {
                let q2 = skip_spaces(s, q1);
                if at(s, q2, MINUS) && at(s, q2 + 1, GREATER) {
                    let q3 = skip_spaces(s, q2 + 2);
                    lemma_identifier_bounds(s, pos + 1);
                    lemma_scan(s, q1, Class::Space);
                    lemma_scan(s, q2 + 2, Class::Space);
                    lemma_term_shape(s, q3);
                }
            },
        }
    } else {
        lemma_application_shape(s, pos);
        match parse_application(s, pos) {
            Ok((t, e)) => {
                lemma_item_is_term(t);
            },
            Err(_) => {},
        }
    }
}

/// What the parser reads as a statement can come out of the parser.
pub proof fn lemma_statement_shape(s: Seq<u8>, pos: int)
    requires
        0 <= pos <= s.len(),
    ensures
        parse_statement(s, pos) matches Ok((st, e)) ==> statement_shape(st),
{
    lemma_identifier_shape(s, pos);
    lemma_term_shape(s, pos);
    match parse_identifier(s, pos) {
        Ok((name, q1)) => {
            lemma_scan(s, q1, Class::Space);
            let q2 = skip_spaces(s, q1);
            if at(s, q2, EQUALS) {
                lemma_scan(s, q2 + 1, Class::Space);
                lemma_term_shape(s, skip_spaces(s, q2 + 1));
            }
        },
        Err(_) => {},
    }
}

/// The statements that the parser collects can each come out of the parser, where those
/// collected before can.
pub proof fn lemma_statements_shape(s: Seq<u8>, pos: int, acc: Seq<Stmt>)
    requires
        program_shape(acc),
    ensures
        parse_statements(s, pos, acc) matches Ok(p) ==> program_shape(p),
    decreases s.len() - pos,
{
    if 0 <= pos < s.len() {
        lemma_statement_shape(s, pos);
        match parse_statement(s, pos) {
            Ok((st, q)) => {
                lemma_statement_bounds(s, pos);
                let next = acc.push(st);
                assert forall|i: int| 0 <= i < next.len() implies statement_shape(
                    #[trigger] next[i],
                ) by {
                    if i < acc.len() {
                        assert(next[i] == acc[i]);
                    }
                }
                lemma_statements_shape(s, q, next);
            },
            Err(_) => {},
        }
    }
}

/// A statement that can come out of the parser, shown and read again as a text of its
/// own, is the same statement.
pub proof fn lemma_shown_statement_reads_back(st: Stmt)
    requires
        statement_shape(st),
    ensures
        parse_single_statement(statement_text(st)) == Ok::<Stmt, Failure>(st),
{
    let s = statement_text(st);
    assert(s.subrange(0, s.len() as int) =~= s);
    lemma_statement_head(st);
    lemma_scan_is(s, 0, 0, Class::Space);
    lemma_statement_reads_back(s, 0, st);
    lemma_scan_is(s, s.len() as int, s.len() as int, Class::Space);
}

/// Whatever the parser reads as a program can come out of the parser.
pub proof fn lemma_parsed_program_shape(source: Seq<u8>)
    ensures
        parse_program(source) matches Ok(p) ==> program_shape(p),
{
    lemma_statements_shape(source, skip_spaces(source, 0), Seq::empty());
}

/// Where a text reads as one statement, the statement as it is shown reads as the same
/// statement.
pub proof fn lemma_parse_render_statement_roundtrip(source: Seq<u8>)
    ensures
        parse_single_statement(source) matches Ok(st) ==> parse_single_statement(
            statement_text(st),
        ) == Ok::<Stmt, Failure>(st),
{
    lemma_scan(source, 0, Class::Space);
    lemma_statement_shape(source, skip_spaces(source, 0));
    match parse_single_statement(source) {
        Ok(st) => {
            lemma_shown_statement_reads_back(st);
        },
        Err(_) => {},
    }
}

/// Showing a program is a left inverse of reading it: where a text reads as a program,
/// the program as it is shown reads as the same program. The two texts may differ in
/// white space, in parentheses that group nothing and in how integers are written.
pub proof fn lemma_parse_render_roundtrip(source: Seq<u8>)
    ensures
        parse_program(source) matches Ok(p) ==> parse_program(program_text(p)) == Ok::<
            Seq<Stmt>,
            Failure,
        >(p),
{
    lemma_parsed_program_shape(source);
    match parse_program(source) {
        Ok(p) => {
            lemma_shown_program_reads_back(p);
        },
        Err(_) => {},
    }
}

} // verus!
