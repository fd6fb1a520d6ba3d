//! Structural errors of an automaton.

use crate::alphabet::Kind;
use crate::call::Call;
use crate::edge::Edge;
use crate::lookup::Return;
use crate::range::Range;
use crate::wildcard::Wildcard;
use vstd::prelude::*;

verus! {

/// An automaton that is not well-formed, or that tried to take a nonsensical
/// action.
#[derive(Clone, Debug, PartialEq, Eq, Hash, PartialOrd, Ord)]
pub enum IllFormed<A, S, Ctrl> {
    /// A destination or initial index is not the index of a state.
    OutOfBounds,
    /// Two different single indices trying to merge into one.
    IndexMergeConflict(usize, usize),
    /// The same stack symbol mapped to two inner maps that do not merge.
    MapMergeConflict(S, Wildcard<A, Return<Edge<S, Ctrl>>>, Wildcard<A, Return<Edge<S, Ctrl>>>),
    /// Merging two edges of different kinds.
    EdgeMergeConflict(Edge<S, Ctrl>, Edge<S, Ctrl>),
    /// A stack-top wildcard and a more specific entry both match some key.
    CurryOptMergeConflict(Option<S>, Option<Range<A>>),
    /// Merging two different actions.
    CallMergeConflict(Call, Call),
    /// Merging two calls that push different stack symbols.
    PushMergeConflict(S, S),
    /// Merging a match-anything layer with specific ranges.
    WildcardMergeConflict(Vec<Range<A>>),
    /// Two specific ranges overlap; the overlap.
    VecMergeConflict(Range<A>),
    /// A token fired an edge of another kind: the control, the token's kind, the edge's kind.
    InconsistentKind(Ctrl, Kind, Kind),
    /// Subset construction met more subsets than it was allowed to explore.
    Budget,
}

} // verus!
