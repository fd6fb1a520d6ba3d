//! Opaque actions carried on edges: compared by their source form, never run.

use vstd::prelude::*;

verus! {

/// An action to run when an edge is taken, known by its source form.
/// The engine only carries, compares and merges actions.
#[derive(Clone, Debug, PartialEq, Eq, Hash, PartialOrd, Ord)]
pub struct Call {
    /// Source-code representation.
    src: String,
}

impl View for Call {
    type V = Seq<char>;

    closed spec fn view(&self) -> Seq<char> {
        self.src@
    }
}

impl Call {
    /// Construct an action from its source-code representation.
    pub fn new(src: String) -> (r: Self)
        ensures
            r@ == src@,
    {
        Call { src }
    }

    /// The source-code representation.
    pub fn src(&self) -> (r: &String)
        ensures
            r@ == self@,
    {
        &self.src
    }

    /// A copy of this action.
    pub fn duplicate(&self) -> (r: Self)
        ensures
            r@ == self@,
    {
        Call { src: self.src.clone() }
    }

    /// Whether two actions are the same.
    pub fn same_as(&self, other: &Self) -> (r: bool)
        ensures
            r == (self@ == other@),
    {
        self.src == other.src
    }
}

} // verus!
