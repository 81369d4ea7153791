use vstd::prelude::*;

verus! {

/// An identifier, as the bytes of its spelling.
pub type Name = Vec<u8>;

/// The native operations of the language.
#[derive(Debug, Clone, Copy, PartialEq, Eq, Structural)]
pub enum Builtin {
    Add,
    Mul,
    Div,
    Rem,
    Eq,
    If,
}

/// A literal of the language, in its mathematical form.
pub enum Lit {
    Bytes(Seq<u8>),
    Integer(int),
    Boolean(bool),
}

/// A term of the language, in its mathematical form.
pub enum Term {
    Literal(Lit),
    Reference(Seq<u8>),
    Lambda(Seq<u8>, Box<Term>),
    Builtin(Builtin, nat, Seq<Term>),
    Apply(Box<Term>, Box<Term>),
}

/// A literal value: a byte string, a signed integer or a truth value.
#[derive(Debug, PartialEq, Eq)]
pub enum Literal {
    Bytes(Vec<u8>),
    Integer(i128),
    Boolean(bool),
}

/// A native operation together with the arguments it has been given so far.
///
/// `num_params` is the number of arguments at which the operation is invoked.
#[derive(Debug, PartialEq)]
pub struct BuiltinLambda {
    pub op: Builtin,
    pub num_params: usize,
    pub args: Vec<Value>,
}

/// A term of the language.
#[derive(Debug, PartialEq)]
pub enum Value {
    Literal(Literal),
    Reference(Name),
    Lambda(Name, Box<Value>),
    BuiltinLambda(BuiltinLambda),
    Apply(Box<Value>, Box<Value>),
}

/// A statement: a new global binding, or a term to evaluate and show.
#[derive(Debug, PartialEq)]
pub enum Statement {
    Bind(Name, Value),
    Print(Value),
}

/// The statements of a source text, in the order in which they run.
#[derive(Debug, PartialEq)]
pub struct Program {
    pub statements: Vec<Statement>,
}

/// A statement, in its mathematical form.
pub enum Stmt {
    Bind(Seq<u8>, Term),
    Print(Term),
}

impl View for Literal {
    type V = Lit;

    open spec fn view(&self) -> Lit {
        match self {
            Literal::Bytes(b) => Lit::Bytes(b@),
            Literal::Integer(i) => Lit::Integer(*i as int),
            Literal::Boolean(b) => Lit::Boolean(*b),
        }
    }
}

/// The term that a value stands for.
pub open spec fn term_of(value: Value) -> Term
    decreases value, 0nat,
{
    match value {
        Value::Literal(l) => Term::Literal(l@),
        Value::Reference(n) => Term::Reference(n@),
        Value::Lambda(n, b) => Term::Lambda(n@, Box::new(term_of(*b))),
        Value::BuiltinLambda(b) => Term::Builtin(b.op, b.num_params as nat, terms_of(b.args@)),
        Value::Apply(f, a) => Term::Apply(Box::new(term_of(*f)), Box::new(term_of(*a))),
    }
}

/// The terms that a sequence of values stands for, in order.
pub open spec fn terms_of(values: Seq<Value>) -> Seq<Term>
    decreases values, 1nat,
{
    if values.len() == 0 {
        Seq::empty()
    } else {
        terms_of(values.drop_last()).push(term_of(values.last()))
    }
}

impl View for Value {
    type V = Term;

    open spec fn view(&self) -> Term {
        term_of(*self)
    }
}

impl View for BuiltinLambda {
    type V = Term;

    open spec fn view(&self) -> Term {
        term_of(Value::BuiltinLambda(*self))
    }
}

impl View for Statement {
    type V = Stmt;

    open spec fn view(&self) -> Stmt {
        match self {
            Statement::Bind(n, v) => Stmt::Bind(n@, v@),
            Statement::Print(v) => Stmt::Print(v@),
        }
    }
}

impl View for Program {
    type V = Seq<Stmt>;

    open spec fn view(&self) -> Seq<Stmt> {
        self.statements@.map_values(|s: Statement| s@)
    }
}

/// `terms_of` keeps the length and works element by element.
pub proof fn lemma_terms_of(values: Seq<Value>)
    ensures
        terms_of(values).len() == values.len(),
        forall|i: int| 0 <= i < values.len() ==> (#[trigger] terms_of(values)[i]) == term_of(values[i]),
    decreases values.len(),
{
    if values.len() > 0 {
        lemma_terms_of(values.drop_last());
    }
}

/// `terms_of` of a sequence with one more value at its end.
pub proof fn lemma_terms_of_push(values: Seq<Value>, value: Value)
    ensures
        terms_of(values.push(value)) == terms_of(values).push(term_of(value)),
{
    assert(values.push(value).drop_last() == values);
}

/// Whether two byte strings hold the same bytes.
pub fn bytes_eq(a: &[u8], b: &[u8]) -> (res: bool)
    ensures
        res == (a@ == b@),
{
    if a.len() != b.len() {
        return false;
    }
    let mut i: usize = 0;
    while i < a.len()
        invariant
            i <= a.len(),
            a.len() == b.len(),
            a@.subrange(0, i as int) == b@.subrange(0, i as int),
        decreases a.len() - i,
    {
        if a[i] != b[i] {
            return false;
        }
        assert(a@.subrange(0, i + 1) == a@.subrange(0, i as int).push(a@[i as int]));
        assert(b@.subrange(0, i + 1) == b@.subrange(0, i as int).push(b@[i as int]));
        i += 1;
    }
    assert(a@.subrange(0, a.len() as int) == a@);
    assert(b@.subrange(0, b.len() as int) == b@);
    true
}

/// A copy of a byte vector.
pub fn copy_bytes(bytes: &Vec<u8>) -> (res: Vec<u8>)
    ensures
        res@ == bytes@,
{
    let mut res: Vec<u8> = Vec::new();
    let mut i: usize = 0;
    while i < bytes.len()
        invariant
            i <= bytes.len(),
            res@ == bytes@.subrange(0, i as int),
        decreases bytes.len() - i,
    {
        res.push(bytes[i]);
        i += 1;
    }
    assert(bytes@.subrange(0, bytes.len() as int) == bytes@);
    res
}

impl Clone for Literal {
    fn clone(&self) -> (res: Self)
        ensures
            res@ == self@,
    {
        match self {
            Literal::Bytes(b) => Literal::Bytes(copy_bytes(b)),
            Literal::Integer(i) => Literal::Integer(*i),
            Literal::Boolean(b) => Literal::Boolean(*b),
        }
    }
}

/// A copy of each value of a vector, in order.
pub fn clone_values(values: &Vec<Value>) -> (res: Vec<Value>)
    ensures
        terms_of(res@) == terms_of(values@),
    decreases values, 1nat,
{
    let mut res: Vec<Value> = Vec::new();
    let mut i: usize = 0;
    while i < values.len()
        invariant
            i <= values.len(),
            terms_of(res@) == terms_of(values@.subrange(0, i as int)),
        decreases values.len() - i,
    {
        proof {
            vstd::std_specs::vec::axiom_vec_index_decreases(*values, i as int);
        }
        let a = values[i].clone();
        proof {
            assert(values@.subrange(0, i + 1).drop_last() == values@.subrange(0, i as int));
            assert(res@.push(a).drop_last() == res@);
        }
        res.push(a);
        i += 1;
    }
    assert(values@.subrange(0, values.len() as int) == values@);
    res
}

impl Literal {
    /// Structural equality of two literals.
    pub fn same(&self, other: &Literal) -> (res: bool)
        ensures
            res == (self@ == other@),
    {
        match (self, other) {
            (Literal::Bytes(a), Literal::Bytes(b)) => bytes_eq(a.as_slice(), b.as_slice()),
            (Literal::Integer(a), Literal::Integer(b)) => *a == *b,
            (Literal::Boolean(a), Literal::Boolean(b)) => *a == *b,
            _ => false,
        }
    }
}

/// Whether two vectors of values stand for the same terms, in the same order.
pub fn same_values(a: &Vec<Value>, b: &Vec<Value>) -> (res: bool)
    ensures
        res == (terms_of(a@) == terms_of(b@)),
    decreases a, 1nat,
{
    proof {
        lemma_terms_of(a@);
        lemma_terms_of(b@);
    }
    if a.len() != b.len() {
        return false;
    }
    let mut i: usize = 0;
    while i < a.len()
        invariant
            i <= a.len(),
            a.len() == b.len(),
            forall|j: int| 0 <= j < i ==> term_of(a@[j]) == term_of(b@[j]),
        decreases a.len() - i,
    {
        proof {
            vstd::std_specs::vec::axiom_vec_index_decreases(*a, i as int);
        }
        if !a[i].same(&b[i]) {
            proof {
                lemma_terms_of(a@);
                lemma_terms_of(b@);
                assert(terms_of(a@)[i as int] != terms_of(b@)[i as int]);
            }
            return false;
        }
        i += 1;
    }
    proof {
        lemma_terms_of(a@);
        lemma_terms_of(b@);
        assert(terms_of(a@) =~= terms_of(b@));
    }
    true
}

impl Value {
    /// Structural equality of two terms: the same shape, names, literals and, for a native
    /// operation, the same operation, arity and collected arguments.
    pub fn same(&self, other: &Value) -> (res: bool)
        ensures
            res == (self@ == other@),
        decreases self, 0nat,
    {
        match (self, other) {
            (Value::Literal(a), Value::Literal(b)) => a.same(b),
            (Value::Reference(a), Value::Reference(b)) => bytes_eq(a.as_slice(), b.as_slice()),
            (Value::Lambda(p, a), Value::Lambda(q, b)) => {
                bytes_eq(p.as_slice(), q.as_slice()) && (&**a).same(&**b)
            },
            (Value::BuiltinLambda(a), Value::BuiltinLambda(b)) => a.same(b),
            (Value::Apply(f, a), Value::Apply(g, b)) => (&**f).same(&**g) && (&**a).same(&**b),
            _ => false,
        }
    }
}

impl BuiltinLambda {
    /// Structural equality of two native operations with their arguments: the same
    /// operation, the same arity and the same collected arguments, one by one.
    pub fn same(&self, other: &BuiltinLambda) -> (res: bool)
        ensures
            res == (self@ == other@),
        decreases self, 2nat,
    {
        self.op == other.op && self.num_params == other.num_params && same_values(
            &self.args,
            &other.args,
        )
    }
}

impl Clone for BuiltinLambda {
    fn clone(&self) -> (res: Self)
        ensures
            res@ == self@,
        decreases self, 2nat,
    {
        BuiltinLambda { op: self.op, num_params: self.num_params, args: clone_values(&self.args) }
    }
}

impl Clone for Value {
    fn clone(&self) -> (res: Self)
        ensures
            res@ == self@,
        decreases self, 0nat,
    {
        match self {
            Value::Literal(l) => Value::Literal(l.clone()),
            Value::Reference(n) => Value::Reference(copy_bytes(n)),
            Value::Lambda(n, b) => Value::Lambda(copy_bytes(n), Box::new((&**b).clone())),
            Value::BuiltinLambda(b) => Value::BuiltinLambda(b.clone()),
            Value::Apply(f, a) => Value::Apply(Box::new((&**f).clone()), Box::new((&**a).clone())),
        }
    }
}

impl Clone for Statement {
    fn clone(&self) -> (res: Self)
        ensures
            res@ == self@,
    {
        match self {
            Statement::Bind(n, v) => Statement::Bind(copy_bytes(n), v.clone()),
            Statement::Print(v) => Statement::Print(v.clone()),
        }
    }
}

impl Clone for Program {
    fn clone(&self) -> (res: Self)
        ensures
            res@ == self@,
    {
        let mut statements: Vec<Statement> = Vec::new();
        let mut i: usize = 0;
        while i < self.statements.len()
            invariant
                i <= self.statements.len(),
                statements@.map_values(|s: Statement| s@) == self@.subrange(0, i as int),
            decreases self.statements.len() - i,
        {
            let st = self.statements[i].clone();
            statements.push(st);
            assert(statements@.map_values(|s: Statement| s@) =~= self@.subrange(0, i as int).push(st@));
            assert(self@.subrange(0, i + 1) =~= self@.subrange(0, i as int).push(self@[i as int]));
            i += 1;
        }
        assert(self@.subrange(0, self.statements.len() as int) =~= self@);
        Program { statements }
    }
}

} // verus!
