//! A state of a visibly pushdown automaton.

use crate::alphabet::{Alphabet, Symbol};
use crate::curry_opt::{table_merge, table_sanitized, table_wf, CurryOpt, CurryOptView, Layer};
use crate::error::IllFormed;
use crate::indices::Indices;
use vstd::prelude::*;

verus! {

/// A state in a visibly pushdown automaton.
#[derive(Clone, Debug, PartialEq, Eq, Hash, PartialOrd, Ord)]
pub struct State<A, S, Ctrl> {
    /// State transitions.
    pub transitions: CurryOpt<S, Layer<A, S, Ctrl>>,
    /// Whether an automaton in this state should accept when input ends.
    pub accepting: bool,
}

/// What a state means: its transition table and whether it accepts.
pub struct StateView<A, S> {
    /// The transition table.
    pub transitions: CurryOptView<A, S>,
    /// Whether the state accepts at the end of the input.
    pub accepting: bool,
}

/// The merge of two states, where it is defined.
pub open spec fn state_merge<A: Symbol, S>(a: StateView<A, S>, b: StateView<A, S>, single: bool) -> Option<
    StateView<A, S>,
> {
    match table_merge(a.transitions, b.transitions, single) {
        Some(t) => Some(StateView { transitions: t, accepting: a.accepting || b.accepting }),
        None => None,
    }
}

/// A state after clamping destinations modulo `size` and dropping absurd
/// entries.
pub open spec fn state_sanitized<A: Alphabet, S>(s: StateView<A, S>, size: usize) -> StateView<A, S> {
    StateView { transitions: table_sanitized(s.transitions, size), accepting: s.accepting }
}

impl<A, S, Ctrl: Indices> View for State<A, S, Ctrl> {
    type V = StateView<A, S>;

    open spec fn view(&self) -> StateView<A, S> {
        StateView { transitions: self.transitions@, accepting: self.accepting }
    }
}

impl<A, S, Ctrl: Indices> Default for State<A, S, Ctrl> {
    /// A state with no transitions that does not accept.
    fn default() -> (r: Self)
        ensures
            !r@.accepting,
            r@.transitions.wildcard is None,
            r@.transitions.none is None,
            r@.transitions.some.len() == 0,
    {
        State { transitions: CurryOpt { wildcard: None, none: None, some: Vec::new() }, accepting: false }
    }
}

impl<A: Symbol, S: Symbol, Ctrl: Indices> State<A, S, Ctrl> {
    /// A copy of this state.
    pub fn duplicate(&self) -> (r: Self)
        ensures
            r@ == self@,
    {
        let wildcard = match &self.transitions.wildcard {
            Some(w) => Some(w.duplicate()),
            None => None,
        };
        let none = match &self.transitions.none {
            Some(n) => Some(n.duplicate()),
            None => None,
        };
        let mut some: Vec<(S, Layer<A, S, Ctrl>)> = Vec::new();
        let mut k: usize = 0;
        while k < self.transitions.some.len()
            invariant
                k <= self.transitions.some.len(),
                crate::curry_opt::keyed_view(some@) == crate::curry_opt::keyed_view(
                    self.transitions.some@,
                ).take(k as int),
            decreases self.transitions.some.len() - k,
        {
            let ghost before = some@;
            some.push((self.transitions.some[k].0, self.transitions.some[k].1.duplicate()));
            proof {
                crate::curry_opt::lemma_keyed_push(before, some@.last());
                assert(crate::curry_opt::keyed_view(some@) =~= crate::curry_opt::keyed_view(
                    self.transitions.some@,
                ).take(k + 1));
            }
            k = k + 1;
        }
        assert(crate::curry_opt::keyed_view(self.transitions.some@).take(k as int)
            =~= crate::curry_opt::keyed_view(self.transitions.some@));
        State { transitions: CurryOpt { wildcard, none, some }, accepting: self.accepting }
    }

    /// Fuse two states into one: transitions merge, and the result accepts
    /// where either does.
    pub fn merge(self, other: &Self) -> (r: Result<Self, IllFormed<A, S, Ctrl>>)
        ensures
            r is Ok <==> state_merge(self@, other@, Ctrl::single()) is Some,
            r matches Ok(m) ==> state_merge(self@, other@, Ctrl::single()) == Some(m@),
            r matches Err(e) ==> crate::curry_opt::table_merge_error(e, self@.transitions, other@.transitions),
            r matches Err(e) ==> match e {
                IllFormed::CurryOptMergeConflict(top, x) => crate::curry_opt::table_parts(
                    self@.transitions,
                    other@.transitions,
                    Ctrl::single(),
                ) matches Some(c) && crate::curry_opt::shadow_at(c, top, x),
                IllFormed::MapMergeConflict(k, l, x) => crate::wildcard::wild_merge(
                    l@,
                    x@,
                    Ctrl::single(),
                ) is None,
                _ => crate::curry_opt::opt_merge(
                    self@.transitions.wildcard,
                    other@.transitions.wildcard,
                    Ctrl::single(),
                ) is None || crate::curry_opt::opt_merge(
                    self@.transitions.none,
                    other@.transitions.none,
                    Ctrl::single(),
                ) is None,
            },
    {
        let accepting = self.accepting || other.accepting;
        match self.transitions.merge(&other.transitions) {
            Ok(transitions) => Ok(State { transitions, accepting }),
            Err(e) => Err(e),
        }
    }

    /// Check for structural errors.
    pub fn check(&self, size: usize) -> (r: Result<(), IllFormed<A, S, Ctrl>>)
        ensures
            r is Ok <==> table_wf(self@.transitions, size as int),
            r matches Err(e) ==> crate::curry_opt::table_fault(self@.transitions, size as int, e),
            r matches Err(e) ==> crate::curry_opt::table_error(self@.transitions, size as int, e),
    {
        self.transitions.check(size)
    }

}

impl<A: Alphabet, S: Symbol, Ctrl: Indices> State<A, S, Ctrl> {
    /// Eliminate absurd relations like transitions to non-existing states.
    pub fn deabsurdify(&mut self, size: usize)
        requires
            size > 0,
        ensures
            table_wf(final(self)@.transitions, size as int),
            crate::curry_opt::table_kinds_ok(final(self)@.transitions),
            final(self)@ == state_sanitized(old(self)@, size),
    {
        self.transitions.deabsurdify(size);
    }
}

} // verus!
