//! Edges: everything about a transition except its source state and trigger.

use crate::alphabet::{same, Kind, Symbol};
use crate::call::Call;
use crate::error::IllFormed;
use crate::indices::Indices;
use vstd::prelude::*;

verus! {

/// Edge in a visibly pushdown automaton.
#[derive(Clone, Debug, PartialEq, Eq, Hash, PartialOrd, Ord)]
pub enum Edge<S, Ctrl> {
    /// Transition that causes a stack push.
    Call {
        /// Index of the machine's state after this transition.
        dst: Ctrl,
        /// Action to run.
        call: Call,
        /// Symbol to push onto the stack.
        push: S,
    },
    /// Transition that causes a stack pop.
    Return {
        /// Index of the machine's state after this transition.
        dst: Ctrl,
        /// Action to run.
        call: Call,
    },
    /// Transition that causes neither a stack push nor a stack pop.
    Local {
        /// Index of the machine's state after this transition.
        dst: Ctrl,
        /// Action to run.
        call: Call,
    },
}

/// What an edge means: its kind, destination states, action and pushed symbol.
pub struct EdgeView<S> {
    /// Call, return or local.
    pub kind: Kind,
    /// The states after the transition.
    pub dst: Set<usize>,
    /// The source form of the action.
    pub call: Seq<char>,
    /// The symbol pushed, for a call.
    pub push: Option<S>,
}

/// The merge of two edges: defined when they agree on kind, action and pushed
/// symbol (and, for single destinations, on the destination).
pub open spec fn fuse_views<S>(a: EdgeView<S>, b: EdgeView<S>, single: bool) -> Option<EdgeView<S>> {
    if a.kind == b.kind && a.call == b.call && a.push == b.push && (!single || a.dst == b.dst) {
        Some(EdgeView { kind: a.kind, dst: a.dst + b.dst, call: a.call, push: a.push })
    } else {
        None
    }
}

/// The stack after taking an edge, or `None` where it pops an empty stack.
pub open spec fn stack_after<S>(e: EdgeView<S>, stack: Seq<S>) -> Option<Seq<S>> {
    match e.kind {
        Kind::Call => Some(stack.push(e.push.unwrap())),
        Kind::Return => if stack.len() == 0 {
            None
        } else {
            Some(stack.drop_last())
        },
        Kind::Local => Some(stack),
    }
}

/// Whether every destination is below `size`.
pub open spec fn in_bounds(dst: Set<usize>, size: int) -> bool {
    forall|i: usize| dst.contains(i) ==> i < size
}

/// `e` reports why the edges `a` and `b` do not merge: different kinds,
/// different single destinations, different actions, or different pushed
/// symbols, checked in that order.
pub open spec fn edge_conflict<A, S, Ctrl: Indices>(
    e: IllFormed<A, S, Ctrl>,
    a: EdgeView<S>,
    b: EdgeView<S>,
) -> bool {
    match e {
        IllFormed::EdgeMergeConflict(x, y) => x@ == a && y@ == b && a.kind != b.kind,
        IllFormed::IndexMergeConflict(i, j) => a.kind == b.kind && Ctrl::single() && a.dst == set![i]
            && b.dst == set![j] && i != j,
        IllFormed::CallMergeConflict(x, y) => a.kind == b.kind && (!Ctrl::single() || a.dst == b.dst)
            && x@ == a.call && y@ == b.call && x@ != y@,
        IllFormed::PushMergeConflict(p, q) => a.kind == Kind::Call && b.kind == Kind::Call && (
        !Ctrl::single() || a.dst == b.dst) && a.call == b.call && a.push == Some(p) && b.push == Some(
            q,
        ) && p != q,
        _ => false,
    }
}

impl<S, Ctrl: Indices> View for Edge<S, Ctrl> {
    type V = EdgeView<S>;

    open spec fn view(&self) -> EdgeView<S> {
        match self {
            Edge::Call { dst, call, push } => EdgeView {
                kind: Kind::Call,
                dst: dst.members(),
                call: call@,
                push: Some(*push),
            },
            Edge::Return { dst, call } => EdgeView {
                kind: Kind::Return,
                dst: dst.members(),
                call: call@,
                push: None,
            },
            Edge::Local { dst, call } => EdgeView {
                kind: Kind::Local,
                dst: dst.members(),
                call: call@,
                push: None,
            },
        }
    }
}

impl<S: Symbol, Ctrl: Indices> Edge<S, Ctrl> {
    /// The destination field.
    pub open spec fn target(&self) -> Ctrl {
        match self {
            Edge::Call { dst, .. } => *dst,
            Edge::Return { dst, .. } => *dst,
            Edge::Local { dst, .. } => *dst,
        }
    }

    /// The kind of this edge.
    pub fn kind(&self) -> (k: Kind)
        ensures
            k == self@.kind,
    {
        match self {
            Edge::Call { .. } => Kind::Call,
            Edge::Return { .. } => Kind::Return,
            Edge::Local { .. } => Kind::Local,
        }
    }

    /// Index of the machine's state after this transition.
    pub fn dst(&self) -> (r: &Ctrl)
        ensures
            *r == self.target(),
            r.members() == self@.dst,
    {
        match self {
            Edge::Call { dst, .. } => dst,
            Edge::Return { dst, .. } => dst,
            Edge::Local { dst, .. } => dst,
        }
    }

    /// Index of the machine's state after this transition, to change in place.
    pub fn dst_mut(&mut self) -> (r: &mut Ctrl)
        ensures
            *r == old(self).target(),
            final(self)@ == (EdgeView { dst: final(r).members(), ..old(self)@ }),
    {
        match self {
            Edge::Call { dst, .. } => dst,
            Edge::Return { dst, .. } => dst,
            Edge::Local { dst, .. } => dst,
        }
    }

    /// A copy of this edge.
    pub fn duplicate(&self) -> (r: Self)
        ensures
            r@ == self@,
    {
        match self {
            Edge::Call { dst, call, push } => Edge::Call {
                dst: dst.duplicate(),
                call: call.duplicate(),
                push: *push,
            },
            Edge::Return { dst, call } => Edge::Return { dst: dst.duplicate(), call: call.duplicate() },
            Edge::Local { dst, call } => Edge::Local { dst: dst.duplicate(), call: call.duplicate() },
        }
    }

    /// Fuse two edges into one equivalent edge, or report the conflict.
    pub fn merge<A>(self, other: &Self) -> (r: Result<Self, IllFormed<A, S, Ctrl>>)
        ensures
            r is Ok <==> fuse_views(self@, other@, Ctrl::single()) is Some,
            r matches Ok(m) ==> fuse_views(self@, other@, Ctrl::single()) == Some(m@),
            r matches Err(e) ==> edge_conflict(e, self@, other@),
    {
        let ghost a = self@;
        let ghost b = other@;
        match (self, other) {
            (Edge::Call { dst: ldst, call: lcall, push: lpush }, Edge::Call { dst: rdst, call: rcall, push: rpush }) => {
                let dst = match ldst.fuse(rdst) {
                    Ok(d) => d,
                    Err((i, j)) => return Err(IllFormed::IndexMergeConflict(i, j)),
                };
                if !lcall.same_as(rcall) {
                    return Err(IllFormed::CallMergeConflict(lcall, rcall.duplicate()));
                }
                if !same(&lpush, rpush) {
                    return Err(IllFormed::PushMergeConflict(lpush, *rpush));
                }
                Ok(Edge::Call { dst, call: lcall, push: lpush })
            },
            (Edge::Return { dst: ldst, call: lcall }, Edge::Return { dst: rdst, call: rcall }) => {
                let dst = match ldst.fuse(rdst) {
                    Ok(d) => d,
                    Err((i, j)) => return Err(IllFormed::IndexMergeConflict(i, j)),
                };
                if !lcall.same_as(rcall) {
                    return Err(IllFormed::CallMergeConflict(lcall, rcall.duplicate()));
                }
                Ok(Edge::Return { dst, call: lcall })
            },
            (Edge::Local { dst: ldst, call: lcall }, Edge::Local { dst: rdst, call: rcall }) => {
                let dst = match ldst.fuse(rdst) {
                    Ok(d) => d,
                    Err((i, j)) => return Err(IllFormed::IndexMergeConflict(i, j)),
                };
                if !lcall.same_as(rcall) {
                    return Err(IllFormed::CallMergeConflict(lcall, rcall.duplicate()));
                }
                Ok(Edge::Local { dst, call: lcall })
            },
            (lhs, rhs) => Err(IllFormed::EdgeMergeConflict(lhs, rhs.duplicate())),
        }
    }

    /// Take this edge in an execution: push, pop or neither, and return the
    /// machine's state after this transition; `Err(false)` where it pops an
    /// empty stack.
    pub fn invoke(self, stack: &mut Vec<S>) -> (r: Result<Ctrl, bool>)
        ensures
            r is Ok <==> stack_after(self@, old(stack)@) is Some,
            r matches Ok(c) ==> c == self.target() && Some(final(stack)@) == stack_after(
                self@,
                old(stack)@,
            ),
            r matches Err(b) ==> !b && final(stack)@ == old(stack)@,
    {
        match self {
            Edge::Call { dst, call: _, push } => {
                stack.push(push);
                Ok(dst)
            },
            Edge::Return { dst, call: _ } => {
                if stack.len() == 0 {
                    Err(false)
                } else {
                    let _ = stack.pop();
                    Ok(dst)
                }
            },
            Edge::Local { dst, call: _ } => Ok(dst),
        }
    }

    /// Check that every destination is the index of a state.
    pub fn check<A>(&self, size: usize) -> (r: Result<(), IllFormed<A, S, Ctrl>>)
        ensures
            r is Ok <==> in_bounds(self@.dst, size as int),
            r matches Err(e) ==> e == IllFormed::<A, S, Ctrl>::OutOfBounds,
    {
        let v = self.dst().to_vec();
        let mut k: usize = 0;
        while k < v.len()
            invariant
                k <= v.len(),
                v@.to_set() == self@.dst,
                forall|j: int| 0 <= j < k ==> v@[j] < size,
            decreases v.len() - k,
        {
            if v[k] >= size {
                assert(v@.to_set().contains(v@[k as int]));
                return Err(IllFormed::OutOfBounds);
            }
            k = k + 1;
        }
        assert forall|i: usize| self@.dst.contains(i) implies i < size by {
            assert(v@.to_set().contains(i));
        }
        Ok(())
    }

    /// Eliminate transitions to non-existing states: replace each destination
    /// by its remainder modulo `size`.
    pub fn deabsurdify(&mut self, size: usize)
        requires
            size > 0,
        ensures
            final(self)@ == (EdgeView {
                dst: old(self)@.dst.map(|i: usize| (i % size) as usize),
                ..old(self)@
            }),
    {
        match self {
            Edge::Call { dst, .. } => dst.wrap(size),
            Edge::Return { dst, .. } => dst.wrap(size),
            Edge::Local { dst, .. } => dst.wrap(size),
        }
    }
}

} // verus!
