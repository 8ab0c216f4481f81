use crate::text::{split_owned, split_spec};
use vstd::prelude::*;

verus! {

/// A fully-qualified name given by its dotted parts.
#[derive(Debug, PartialEq, Eq, Hash)]
pub struct FullyQualifiedName {
    parts: Vec<String>,
}

impl View for FullyQualifiedName {
    type V = Seq<Seq<char>>;

    closed spec fn view(&self) -> Seq<Seq<char>> {
        self.parts@.map_values(|p: String| p@)
    }
}

impl FullyQualifiedName {
    /// A name made of `parts`.
    pub fn new(parts: Vec<String>) -> (r: Self)
        ensures
            r@ == parts@.map_values(|p: String| p@),
    {
        FullyQualifiedName { parts }
    }

    /// A fully-qualified name is always fully qualified.
    pub fn is_fully_qualified(&self) -> (b: bool)
        ensures
            b,
    {
        true
    }

    /// The parts, in order.
    pub fn parts(&self) -> (r: &[String])
        ensures
            r@.map_values(|p: String| p@) == self@,
    {
        self.parts.as_slice()
    }

    /// The name written as `A.B.C`.
    pub fn from(value: &str) -> (r: Self)
        ensures
            r@ == split_spec(value@, '.'),
    {
        FullyQualifiedName { parts: split_owned(value, '.') }
    }
}

} // verus!
