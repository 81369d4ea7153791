use vstd::prelude::*;
use crate::ast::{bytes_eq, term_of, Name, Term, Value};

verus! {

/// One entry of a binding context.
pub struct Binding {
    pub name: Name,
    pub value: Value,
}

/// The binding context: which term each bound name stands for.
///
/// Entries are kept in the order in which they were made; where a name occurs more than
/// once the latest entry counts.
pub struct Context {
    entries: Vec<Binding>,
}

/// The map that a sequence of entries stands for.
pub open spec fn bindings_map(entries: Seq<Binding>) -> Map<Seq<u8>, Term>
    decreases entries.len(),
{
    if entries.len() == 0 {
        Map::empty()
    } else {
        bindings_map(entries.drop_last()).insert(entries.last().name@, term_of(entries.last().value))
    }
}

impl View for Context {
    type V = Map<Seq<u8>, Term>;

    closed spec fn view(&self) -> Map<Seq<u8>, Term> {
        bindings_map(self.entries@)
    }
}

impl Context {
    /// The context that binds nothing.
    pub fn new() -> (res: Context)
        ensures
            res@ == Map::<Seq<u8>, Term>::empty(),
    {
        Context { entries: Vec::new() }
    }

    /// Binds `name` to `value`; an earlier binding of the same name no longer counts.
    pub fn insert(&mut self, name: Name, value: Value)
        ensures
            final(self)@ == old(self)@.insert(name@, value@),
    {
        let ghost before = self.entries@;
        self.entries.push(Binding { name, value });
        assert(self.entries@.drop_last() == before);
    }

    /// The term bound to `name`, if there is one.
    pub fn get(&self, name: &Name) -> (res: Option<&Value>)
        ensures
            res is Some == self@.dom().contains(name@),
            res matches Some(v) ==> v@ == self@[name@],
    {
        let mut i: usize = self.entries.len();
        assert(self.entries@.subrange(0, i as int) == self.entries@);
        while i > 0
            invariant
                i <= self.entries.len(),
                bindings_map(self.entries@).dom().contains(name@) == bindings_map(
                    self.entries@.subrange(0, i as int),
                ).dom().contains(name@),
                bindings_map(self.entries@).dom().contains(name@) ==> bindings_map(self.entries@)[name@]
                    == bindings_map(self.entries@.subrange(0, i as int))[name@],
            decreases i,
        {
            i -= 1;
            let entry = &self.entries[i];
            proof {
                assert(self.entries@.subrange(0, i + 1).drop_last() == self.entries@.subrange(
                    0,
                    i as int,
                ));
            }
            if bytes_eq(entry.name.as_slice(), name.as_slice()) {
                return Some(&entry.value);
            }
        }
        None
    }

    /// Whether `name` is bound.
    pub fn contains_key(&self, name: &Name) -> (res: bool)
        ensures
            res == self@.dom().contains(name@),
    {
        self.get(name).is_some()
    }
}

} // verus!
