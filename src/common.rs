use vstd::prelude::*;

verus! {

/// A raw identity number handed out by an id counter.
#[derive(Debug, Clone, Copy, PartialEq, Eq, Hash, Structural)]
pub struct Id(pub usize);

impl Id {
    pub fn new(raw: usize) -> (r: Id)
        ensures
            r.0 == raw,
    {
        Id(raw)
    }
}

/// The identity of one binding occurrence; two scopes are the same binding
/// exactly when their ids are equal.
#[derive(Debug, Clone, Copy, PartialEq, Eq, Hash, Structural)]
pub struct Scope(pub Id);

impl Scope {
    pub fn new(id: Id) -> (r: Scope)
        ensures
            r.0 == id,
    {
        Scope(id)
    }
}

/// A textual identifier as written in the surface syntax.
#[derive(Debug, Clone, PartialEq, Eq, Hash)]
pub struct Ident(pub String);

impl Ident {
    pub fn new(name: &str) -> (r: Ident)
        ensures
            r.0@ == name@,
    {
        Ident(String::from_str(name))
    }

    pub open spec fn name(&self) -> Seq<char> {
        self.0@
    }

    pub fn same_name(&self, other: &Ident) -> (r: bool)
        ensures
            r == (self.name() == other.name()),
    {
        self.0 == other.0
    }
}

} // verus!
