//! The end of a lookup: the value that fires.

use vstd::prelude::*;

verus! {

/// Trivial lookup after currying: just return this value.
#[derive(Clone, Copy, Debug, Default, PartialEq, Eq, Hash, PartialOrd, Ord)]
pub struct Return<T>(pub T);

} // verus!
