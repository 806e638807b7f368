//! Participants, known by their label.
use vstd::prelude::*;

verus! {

/// A participant. Two persons are the same when their labels are equal.
#[derive(Debug, Clone, PartialEq, Eq, Hash)]
pub struct Person(String);

impl View for Person {
    type V = Seq<char>;

    closed spec fn view(&self) -> Seq<char> {
        self.0@
    }
}

impl Person {
    /// The person labelled `p`.
    pub fn new(p: &str) -> (r: Person)
        ensures
            r@ == p@,
    {
        Person(p.to_owned())
    }

    /// The label.
    pub fn raw(&self) -> (r: &String)
        ensures
            r@ == self@,
    {
        &self.0
    }

    /// Whether two persons have the same label.
    pub fn same(&self, other: &Person) -> (r: bool)
        ensures
            r == (self@ == other@),
    {
        self.0 == other.0
    }

    /// A second value with the same label.
    pub fn copy(&self) -> (r: Person)
        ensures
            r@ == self@,
    {
        Person(self.0.clone())
    }
}

} // verus!
