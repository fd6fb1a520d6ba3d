//! Visibly pushdown automata and how they run on an input.

use crate::alphabet::{Alphabet, Symbol};
use crate::curry_opt::{table_clash, table_error, table_fault, table_kinds_ok, table_lookup, table_wf};
use crate::edge::{fuse_views, in_bounds, stack_after, Edge, EdgeView};
use crate::error::IllFormed;
use crate::indices::{increasing, Indices};
use crate::state::{state_sanitized, State, StateView};
use std::collections::BTreeSet;
use vstd::prelude::*;

verus! {

/// Visibly pushdown automaton containing all states.
#[derive(Clone, Debug, PartialEq, Eq, Hash, PartialOrd, Ord)]
pub struct Automaton<A, S, Ctrl> {
    /// Every state in the automaton.
    pub states: Vec<State<A, S, Ctrl>>,
    /// Index (or indices) of the state of the machine before parsing any input.
    pub initial: Ctrl,
}

/// Deterministic visibly pushdown automaton: each token causes exactly one transition.
pub type Deterministic<A, S> = Automaton<A, S, usize>;

/// Nondeterministic visibly pushdown automaton: the current control is a set
/// of states.
pub type Nondeterministic<A, S> = Automaton<A, S, BTreeSet<usize>>;

/// What an automaton means: its states and its initial states.
pub struct AutomatonView<A, S> {
    /// What each state means, by index.
    pub states: Seq<StateView<A, S>>,
    /// The initial states.
    pub initial: Set<usize>,
}

impl<A, S, Ctrl: Indices> View for Automaton<A, S, Ctrl> {
    type V = AutomatonView<A, S>;

    open spec fn view(&self) -> AutomatonView<A, S> {
        AutomatonView {
            states: self.states@.map_values(|s: State<A, S, Ctrl>| s@),
            initial: self.initial.members(),
        }
    }
}

/// Every edge of every state agrees with the kinds of the tokens that fire it.
pub open spec fn kinds_ok<A: Alphabet, S>(a: AutomatonView<A, S>) -> bool {
    forall|i: int| 0 <= i < a.states.len() ==> table_kinds_ok(#[trigger] a.states[i].transitions)
}

/// The first state, in order, whose table has an edge that disagrees with
/// the kind of a token that fires it.
pub open spec fn first_stray_state<A: Alphabet, S>(states: Seq<StateView<A, S>>) -> Option<int>
    decreases states.len(),
{
    if states.len() == 0 {
        None
    } else {
        match first_stray_state(states.drop_last()) {
            Some(i) => Some(i),
            None => if crate::curry_opt::table_stray(states.last().transitions) is Some {
                Some(states.len() - 1)
            } else {
                None
            },
        }
    }
}

/// A stray state found in a prefix is the first of the whole.
pub proof fn lemma_first_stray_state_extend<A: Alphabet, S>(states: Seq<StateView<A, S>>, n: int)
    requires
        0 <= n <= states.len(),
        first_stray_state(states.take(n)) is Some,
    ensures
        first_stray_state(states) == first_stray_state(states.take(n)),
    decreases states.len(),
{
    if n == states.len() {
        assert(states.take(n) =~= states);
    } else {
        assert(states.drop_last().take(n) =~= states.take(n));
        lemma_first_stray_state_extend(states.drop_last(), n);
    }
}

/// `e` reports the first state, in order, that has an edge disagreeing with
/// the kind of a token that fires it, with the token kind and edge kind that
/// its table's `stray` names.
pub open spec fn kinds_error<A: Alphabet, S, Ctrl: Indices>(a: AutomatonView<A, S>, e: IllFormed<A, S, Ctrl>) -> bool {
    match first_stray_state(a.states) {
        Some(i) => match e {
            IllFormed::InconsistentKind(c, tk, ek) => c.members() == set![i as usize]
                && crate::curry_opt::table_stray(a.states[i].transitions) == Some((tk, ek)),
            _ => false,
        },
        None => false,
    }
}

/// The first state, in order, whose table is not well-formed.
pub open spec fn first_bad_table<A: Symbol, S>(states: Seq<StateView<A, S>>, size: int) -> Option<int>
    decreases states.len(),
{
    if states.len() == 0 {
        None
    } else {
        match first_bad_table(states.drop_last(), size) {
            Some(i) => Some(i),
            None => if !table_wf(states.last().transitions, size) {
                Some(states.len() - 1)
            } else {
                None
            },
        }
    }
}

/// A bad table found in a prefix is the first of the whole.
pub proof fn lemma_first_bad_table_extend<A: Symbol, S>(states: Seq<StateView<A, S>>, size: int, n: int)
    requires
        0 <= n <= states.len(),
        first_bad_table(states.take(n), size) is Some,
    ensures
        first_bad_table(states, size) == first_bad_table(states.take(n), size),
    decreases states.len(),
{
    if n == states.len() {
        assert(states.take(n) =~= states);
    } else {
        assert(states.drop_last().take(n) =~= states.take(n));
        lemma_first_bad_table_extend(states.drop_last(), size, n);
    }
}

/// `e` is the error that checking the automaton `a` reports: `OutOfBounds`
/// for an initial index that names no state; else the error of the first
/// state whose table is not well-formed; else the first state with an edge
/// that disagrees with its tokens' kinds.
pub open spec fn check_error<A: Alphabet, S, Ctrl: Indices>(a: AutomatonView<A, S>, e: IllFormed<A, S, Ctrl>) -> bool {
    if !in_bounds(a.initial, a.states.len() as int) {
        e == IllFormed::<A, S, Ctrl>::OutOfBounds
    } else {
        match first_bad_table(a.states, a.states.len() as int) {
            Some(i) => table_error(a.states[i].transitions, a.states.len() as int, e),
            None => kinds_error(a, e),
        }
    }
}

/// `e` reports a fault that the automaton `a` has: an initial index that
/// names no state, a fault of some state's table, or an edge that disagrees
/// with the kind of a token that fires it (with the state's index).
pub open spec fn automaton_fault<A: Alphabet, S, Ctrl: Indices>(
    a: AutomatonView<A, S>,
    e: IllFormed<A, S, Ctrl>,
) -> bool {
    ||| (e is OutOfBounds && !in_bounds(a.initial, a.states.len() as int))
    ||| exists|i: int|
        0 <= i < a.states.len() && table_fault(#[trigger] a.states[i].transitions, a.states.len() as int, e)
    ||| match e {
        IllFormed::InconsistentKind(c, tk, ek) => exists|i: int|
            0 <= i < a.states.len() && c.members() == set![i as usize] && table_clash(
                #[trigger] a.states[i].transitions,
                tk,
                ek,
            ),
        _ => false,
    }
}

/// A well-formed automaton: every index names a state, every table is
/// well-formed, and every edge agrees with its tokens' kinds.
pub open spec fn automaton_wf<A: Alphabet, S>(a: AutomatonView<A, S>) -> bool {
    &&& in_bounds(a.initial, a.states.len() as int)
    &&& forall|i: int| 0 <= i < a.states.len() ==> table_wf(#[trigger] a.states[i].transitions, a.states.len() as int)
    &&& kinds_ok(a)
}

/// The indices of a finite set, in increasing order.
pub open spec fn ordered(m: Set<usize>) -> Seq<usize> {
    choose|s: Seq<usize>| s.to_set() == m && increasing(s)
}

/// The symbol on top of a stack.
pub open spec fn top_of<S>(stack: Seq<S>) -> Option<S> {
    if stack.len() == 0 {
        None
    } else {
        Some(stack.last())
    }
}

/// The edges that the states at `idx` give for a top of stack and a token, in
/// order; `None` where an index names no state.
pub open spec fn fired<A: Symbol, S>(
    states: Seq<StateView<A, S>>,
    idx: Seq<usize>,
    top: Option<S>,
    t: A,
) -> Option<Seq<EdgeView<S>>>
    decreases idx.len(),
{
    if idx.len() == 0 {
        Some(Seq::empty())
    } else {
        match fired(states, idx.drop_last(), top, t) {
            None => None,
            Some(es) => if idx.last() >= states.len() {
                None
            } else {
                match table_lookup(states[idx.last() as int].transitions, top, t) {
                    Some(e) => Some(es.push(e)),
                    None => Some(es),
                }
            },
        }
    }
}

/// Merge a non-empty sequence of edges from left to right.
pub open spec fn fold_fuse<S>(es: Seq<EdgeView<S>>, single: bool) -> Option<EdgeView<S>>
    decreases es.len(),
{
    if es.len() == 0 {
        None
    } else if es.len() == 1 {
        Some(es[0])
    } else {
        match fold_fuse(es.drop_last(), single) {
            Some(m) => fuse_views(m, es.last(), single),
            None => None,
        }
    }
}

/// The outcome of one step of a run.
pub enum Move<S> {
    /// Go on with these states and this stack.
    Next(Set<usize>, Seq<S>),
    /// The run has ended with this verdict.
    Done(bool),
    /// The automaton is ill-formed.
    Broken,
}

/// Merging the edges fired by the first `n` listed states fails at the last
/// of them, and `e` is the conflict that merge reports.
pub open spec fn fails_at<A: Symbol, S, Ctrl: Indices>(
    e: IllFormed<A, S, Ctrl>,
    states: Seq<StateView<A, S>>,
    idx: Seq<usize>,
    n: int,
    top: Option<S>,
    t: A,
) -> bool {
    match fired(states, idx.take(n), top, t) {
        Some(es) => es.len() >= 2 && match fold_fuse(es.drop_last(), Ctrl::single()) {
            Some(m) => fuse_views(m, es.last(), Ctrl::single()) is None && crate::edge::edge_conflict(
                e,
                m,
                es.last(),
            ),
            None => false,
        },
        None => false,
    }
}

/// The edge that the states `ctrl` fire together on `t`, where it exists.
pub open spec fn merged_edge<A: Symbol, S>(
    a: AutomatonView<A, S>,
    single: bool,
    ctrl: Set<usize>,
    stack: Seq<S>,
    t: A,
) -> Option<EdgeView<S>> {
    match fired(a.states, ordered(ctrl), top_of(stack), t) {
        Some(es) => fold_fuse(es, single),
        None => None,
    }
}

/// One step on token `t` from the states `ctrl` with `stack`.
pub open spec fn step_spec<A: Alphabet, S>(
    a: AutomatonView<A, S>,
    single: bool,
    ctrl: Set<usize>,
    stack: Seq<S>,
    t: A,
) -> Move<S> {
    match fired(a.states, ordered(ctrl), top_of(stack), t) {
        None => Move::Broken,
        Some(es) => if es.len() == 0 {
            Move::Done(false)
        } else {
            match fold_fuse(es, single) {
                None => Move::Broken,
                Some(e) => if e.kind != t.kind_of() {
                    Move::Broken
                } else {
                    match stack_after(e, stack) {
                        None => Move::Done(false),
                        Some(st) => Move::Next(e.dst, st),
                    }
                },
            }
        },
    }
}

/// The verdict at the end of the input: accept when the stack is empty and a
/// current state accepts; `None` where an index names no state.
pub open spec fn finish_spec<A, S>(a: AutomatonView<A, S>, ctrl: Set<usize>, stack: Seq<S>) -> Option<bool> {
    if !in_bounds(ctrl, a.states.len() as int) {
        None
    } else {
        Some(stack.len() == 0 && exists|i: usize| ctrl.contains(i) && a.states[i as int].accepting)
    }
}

/// The verdict of a run on `input` from the states `ctrl` with `stack`;
/// `None` where the automaton shows itself ill-formed.
pub open spec fn run_spec<A: Alphabet, S>(
    a: AutomatonView<A, S>,
    single: bool,
    ctrl: Set<usize>,
    stack: Seq<S>,
    input: Seq<A>,
) -> Option<bool>
    decreases input.len(),
{
    if input.len() == 0 {
        finish_spec(a, ctrl, stack)
    } else {
        match step_spec(a, single, ctrl, stack, input[0]) {
            Move::Broken => None,
            Move::Done(b) => Some(b),
            Move::Next(c, st) => run_spec(a, single, c, st, input.drop_first()),
        }
    }
}

/// Two increasing sequences with the same elements are equal.
pub proof fn lemma_increasing_unique(a: Seq<usize>, b: Seq<usize>)
    requires
        increasing(a),
        increasing(b),
        a.to_set() == b.to_set(),
    ensures
        a == b,
    decreases a.len(),
{
    if a.len() == 0 {
        if b.len() > 0 {
            assert(b.to_set().contains(b[0]));
        }
        assert(b.len() == 0);
    } else {
        if b.len() == 0 {
            assert(a.to_set().contains(a[0]));
        }
        assert(a.to_set().contains(a[0]));
        assert(b.to_set().contains(b[0]));
        let i = choose|i: int| 0 <= i < b.len() && b[i] == a[0];
        let j = choose|j: int| 0 <= j < a.len() && a[j] == b[0];
        if i > 0 {
            assert(b[0] < b[i]);
            if j > 0 {
                assert(a[0] < a[j]);
            }
        }
        assert(a[0] == b[0]);
        let a1 = a.drop_first();
        let b1 = b.drop_first();
        assert forall|x: usize| a1.to_set().contains(x) <==> b1.to_set().contains(x) by {
            if a1.to_set().contains(x) {
                let k = choose|k: int| 0 <= k < a1.len() && a1[k] == x;
                assert(a[k + 1] == x);
                assert(a.to_set().contains(x));
                let m = choose|m: int| 0 <= m < b.len() && b[m] == x;
                if m == 0 {
                    assert(a[0] < a[k + 1]);
                }
                assert(b1[m - 1] == x);
            }
            if b1.to_set().contains(x) {
                let k = choose|k: int| 0 <= k < b1.len() && b1[k] == x;
                assert(b[k + 1] == x);
                assert(b.to_set().contains(x));
                let m = choose|m: int| 0 <= m < a.len() && a[m] == x;
                if m == 0 {
                    assert(b[0] < b[k + 1]);
                }
                assert(a1[m - 1] == x);
            }
        }
        assert(a1.to_set() =~= b1.to_set());
        lemma_increasing_unique(a1, b1);
        assert(a =~= seq![a[0]] + a1);
        assert(b =~= seq![b[0]] + b1);
    }
}

/// The increasing listing of a set is the one `ordered` names.
pub proof fn lemma_ordered(v: Seq<usize>)
    requires
        increasing(v),
    ensures
        ordered(v.to_set()) == v,
{
    let o = ordered(v.to_set());
    assert(v.to_set() == v.to_set() && increasing(v));
    lemma_increasing_unique(o, v);
}

/// Once a prefix of the indices fails, the whole listing fails too.
pub proof fn lemma_fired_broken<A: Symbol, S>(
    states: Seq<StateView<A, S>>,
    idx: Seq<usize>,
    n: int,
    top: Option<S>,
    t: A,
    single: bool,
)
    requires
        0 < n <= idx.len(),
        fired(states, idx.take(n), top, t) is None || (fired(states, idx.take(n), top, t) matches Some(
            es,
        ) && es.len() > 0 && fold_fuse(es, single) is None),
    ensures
        fired(states, idx, top, t) is None || (fired(states, idx, top, t) matches Some(es) && es.len()
            > 0 && fold_fuse(es, single) is None),
    decreases idx.len(),
{
    if n == idx.len() {
        assert(idx.take(n) =~= idx);
    } else {
        assert(idx.drop_last().take(n) =~= idx.take(n));
        lemma_fired_broken(states, idx.drop_last(), n, top, t, single);
        match fired(states, idx.drop_last(), top, t) {
            None => {},
            Some(es) => {
                if idx.last() < states.len() {
                    match table_lookup(states[idx.last() as int].transitions, top, t) {
                        Some(e) => {
                            assert(es.push(e).drop_last() =~= es);
                        },
                        None => {},
                    }
                }
            },
        }
    }
}

impl<A: Alphabet, S: Symbol, Ctrl: Indices> Automaton<A, S, Ctrl> {
    /// The control value before any input.
    pub fn initial(&self) -> (r: Ctrl)
        ensures
            r.members() == self@.initial,
    {
        self.initial.duplicate()
    }

    /// Check that every edge agrees with the kinds of the tokens that fire it;
    /// the error names the state, a token kind and the edge kind.
    pub fn check_consistency(&self) -> (r: Result<(), IllFormed<A, S, Ctrl>>)
        ensures
            r is Ok <==> kinds_ok(self@),
            r matches Err(e) ==> e matches IllFormed::InconsistentKind(c, tk, ek) && exists|i: int|
                0 <= i < self@.states.len() && c.members() == set![i as usize] && table_clash(
                    #[trigger] self@.states[i].transitions,
                    tk,
                    ek,
                ),
            r matches Err(e) ==> kinds_error(self@, e),
    {
        let mut k: usize = 0;
        while k < self.states.len()
            invariant
                k <= self.states.len(),
                forall|j: int| 0 <= j < k ==> table_kinds_ok(#[trigger] self@.states[j].transitions),
                first_stray_state(self@.states.take(k as int)) is None,
            decreases self.states.len() - k,
        {
            assert(self@.states[k as int] == self.states@[k as int]@);
            proof {
                let w = self@.states.take(k + 1);
                assert(w.drop_last() =~= self@.states.take(k as int));
                assert(w.last() == self@.states[k as int]);
            }
            match self.states[k].transitions.stray() {
                Some((tk, ek)) => {
                    let mut one: Vec<usize> = Vec::new();
                    one.push(k);
                    assert(one@.to_set() =~= set![k]) by {
                        assert(one@[0] == k);
                    }
                    match Ctrl::collect(one) {
                        Ok(c) => {
                            proof {
                                assert(!table_kinds_ok(self@.states[k as int].transitions));
                                assert(c.members() == set![k]);
                                assert(0 <= k < self@.states.len() && c.members() == set![k as usize]
                                    && table_clash(self@.states[k as int].transitions, tk, ek));
                                lemma_first_stray_state_extend(self@.states, k + 1);
                                assert(kinds_error(self@, IllFormed::<A, S, Ctrl>::InconsistentKind(c, tk, ek)));
                            }
                            return Err(IllFormed::InconsistentKind(c, tk, ek));
                        },
                        Err(_) => {
                            return Err(IllFormed::OutOfBounds);
                        },
                    }
                },
                None => {},
            }
            k = k + 1;
        }
        Ok(())
    }

    /// Check for structural errors: indices that name no state, overlapping
    /// ranges, repeated stack symbols, shadowed entries.
    pub fn check(&self) -> (r: Result<(), IllFormed<A, S, Ctrl>>)
        ensures
            r is Ok <==> automaton_wf(self@),
            r matches Err(e) ==> automaton_fault(self@, e),
            r matches Err(e) ==> check_error(self@, e),
    {
        let size = self.states.len();
        assert(self@.states.len() == size);
        let init = self.initial.to_vec();
        let mut k: usize = 0;
        while k < init.len()
            invariant
                k <= init.len(),
                self@.states.len() == size,
                init@.to_set() == self@.initial,
                forall|j: int| 0 <= j < k ==> init@[j] < size,
            decreases init.len() - k,
        {
            if init[k] >= size {
                assert(init@.to_set().contains(init@[k as int]));
                return Err(IllFormed::OutOfBounds);
            }
            k = k + 1;
        }
        assert forall|i: usize| self@.initial.contains(i) implies i < size by {
            assert(init@.to_set().contains(i));
        }
        let mut k: usize = 0;
        while k < self.states.len()
            invariant
                k <= self.states.len(),
                size == self.states.len(),
                forall|j: int|
                    0 <= j < k ==> table_wf(#[trigger] self@.states[j].transitions, size as int),
                in_bounds(self@.initial, size as int),
                self@.states.len() == size,
                first_bad_table(self@.states.take(k as int), size as int) is None,
            decreases self.states.len() - k,
        {
            proof {
                let w = self@.states.take(k + 1);
                assert(w.drop_last() =~= self@.states.take(k as int));
                assert(w.last() == self@.states[k as int]);
            }
            match self.states[k].check(size) {
                Ok(()) => {},
                Err(e) => {
                    assert(self@.states[k as int] == self.states@[k as int]@);
                    proof {
                        lemma_first_bad_table_extend(self@.states, size as int, k + 1);
                    }
                    return Err(e);
                },
            }
            assert(self@.states[k as int] == self.states@[k as int]@);
            k = k + 1;
        }
        assert(self@.states.take(k as int) =~= self@.states);
        self.check_consistency()
    }

    /// Read a token, or the end of the input, and update the control and the
    /// stack: `Ok(Ok(next))` to go on, `Ok(Err(verdict))` when the run has
    /// ended, `Err` when the automaton turns out to be ill-formed.
    pub fn step(&self, ctrl: Ctrl, stack: &mut Vec<S>, token: Option<&A>) -> (r: Result<
        Result<Ctrl, bool>,
        IllFormed<A, S, Ctrl>,
    >)
        ensures
            token is None ==> final(stack)@ == old(stack)@ && match finish_spec(
                self@,
                ctrl.members(),
                old(stack)@,
            ) {
                None => r is Err,
                Some(b) => r matches Ok(Err(x)) && x == b,
            },
            token matches Some(t) ==> match step_spec(
                self@,
                Ctrl::single(),
                ctrl.members(),
                old(stack)@,
                *t,
            ) {
                Move::Broken => r is Err,
                Move::Done(b) => r matches Ok(Err(x)) && x == b,
                Move::Next(c, st) => r matches Ok(Ok(n)) && n.members() == c && final(stack)@ == st,
            },
            !(r matches Ok(Ok(_))) ==> final(stack)@ == old(stack)@,
            r matches Err(e) ==> match e {
                IllFormed::OutOfBounds => !in_bounds(ctrl.members(), self@.states.len() as int),
                IllFormed::InconsistentKind(c, tk, ek) => c.members() == ctrl.members() && (
                token matches Some(t) && tk == t.kind_of() && tk != ek && merged_edge(
                    self@,
                    Ctrl::single(),
                    ctrl.members(),
                    old(stack)@,
                    *t,
                ) == Some(EdgeView { kind: ek, ..merged_edge(self@, Ctrl::single(), ctrl.members(), old(stack)@, *t).unwrap() })),
                _ => token matches Some(t) && exists|n: int|
                    0 < n <= ordered(ctrl.members()).len() && #[trigger] fails_at(
                        e,
                        self@.states,
                        ordered(ctrl.members()),
                        n,
                        top_of(old(stack)@),
                        *t,
                    ),
            },
    {
        let idx = ctrl.to_vec();
        proof {
            lemma_ordered(idx@);
        }
        let size = self.states.len();
        assert(self@.states.len() == size);
        match token {
            None => {
                let mut any = false;
                let mut k: usize = 0;
                while k < idx.len()
                    invariant
                        k <= idx.len(),
                        token is None,
                        size == self.states.len(),
                        self@.states.len() == size,
                        idx@.to_set() == ctrl.members(),
                        forall|j: int| 0 <= j < k ==> idx@[j] < size,
                        any == exists|j: int|
                            0 <= j < k && (#[trigger] self@.states[idx@[j] as int]).accepting,
                    decreases idx.len() - k,
                {
                    if idx[k] >= size {
                        proof {
                            assert(idx@.to_set().contains(idx@[k as int]));
                        }
                        return Err(IllFormed::OutOfBounds);
                    }
                    assert(self@.states[idx@[k as int] as int] == self.states@[idx@[k as int] as int]@);
                    if self.states[idx[k]].accepting {
                        any = true;
                    }
                    k = k + 1;
                }
                proof {
                    assert forall|i: usize| ctrl.members().contains(i) implies i < size by {
                        assert(idx@.to_set().contains(i));
                    }
                    if any {
                        let j = choose|j: int|
                            0 <= j < k && (#[trigger] self@.states[idx@[j] as int]).accepting;
                        assert(idx@.to_set().contains(idx@[j]));
                    }
                    if exists|i: usize| ctrl.members().contains(i) && self@.states[i as int].accepting {
                        let i = choose|i: usize|
                            ctrl.members().contains(i) && self@.states[i as int].accepting;
                        assert(idx@.to_set().contains(i));
                        let j = choose|j: int| 0 <= j < idx@.len() && idx@[j] == i;
                        assert(self@.states[idx@[j] as int].accepting);
                    }
                }
                Ok(Err(stack.len() == 0 && any))
            },
            Some(t) => {
                let top: Option<S> = if stack.len() == 0 {
                    None
                } else {
                    Some(stack[stack.len() - 1])
                };
                let mut mega: Option<Edge<S, Ctrl>> = None;
                let ghost mut es: Seq<EdgeView<S>> = Seq::empty();
                let mut k: usize = 0;
                while k < idx.len()
                    invariant
                        k <= idx.len(),
                        token == Some(t),
                        size == self.states.len(),
                        self@.states.len() == size,
                        top == top_of(stack@),
                        ordered(ctrl.members()) == idx@,
                        idx@.to_set() == ctrl.members(),
                        fired(self@.states, idx@.take(k as int), top, *t) == Some(es),
                        mega is None <==> es.len() == 0,
                        mega matches Some(m) ==> fold_fuse(es, Ctrl::single()) == Some(m@),
                    decreases idx.len() - k,
                {
                    proof {
                        assert(idx@.take(k + 1).drop_last() =~= idx@.take(k as int));
                        assert(idx@.take(k + 1).last() == idx@[k as int]);
                    }
                    let i = idx[k];
                    if i >= size {
                        proof {
                            assert(idx@.to_set().contains(idx@[k as int]));
                            lemma_fired_broken(self@.states, idx@, k + 1, top, *t, Ctrl::single());
                        }
                        return Err(IllFormed::OutOfBounds);
                    }
                    assert(self@.states[i as int] == self.states@[i as int]@);
                    let top_ref: Option<&S> = match &top {
                        Some(s) => Some(s),
                        None => None,
                    };
                    match self.states[i].transitions.get(top_ref, t) {
                        Some(x) => {
                            let ghost prev = es;
                            proof {
                                es = es.push(x.0@);
                                assert(es.drop_last() =~= prev);
                            }
                            match mega {
                                None => {
                                    mega = Some(x.0.duplicate());
                                },
                                Some(m) => match m.merge(&x.0) {
                                    Ok(z) => {
                                        mega = Some(z);
                                    },
                                    Err(e) => {
                                        proof {
                                            lemma_fired_broken(
                                                self@.states,
                                                idx@,
                                                k + 1,
                                                top,
                                                *t,
                                                Ctrl::single(),
                                            );
                                            assert(fired(self@.states, idx@.take(k + 1), top, *t) == Some(es));
                                            assert(es.last() == x.0@);
                                            assert(fails_at(e, self@.states, idx@, k + 1, top, *t));
                                            assert(top == top_of(old(stack)@));
                                        }
                                        return Err(e);
                                    },
                                },
                            }
                        },
                        None => {},
                    }
                    k = k + 1;
                }
                assert(idx@.take(k as int) =~= idx@);
                match mega {
                    None => Ok(Err(false)),
                    Some(m) => {
                        let tk = t.kind();
                        let ek = m.kind();
                        if tk != ek {
                            return Err(IllFormed::InconsistentKind(ctrl, tk, ek));
                        }
                        match m.invoke(stack) {
                            Ok(c) => Ok(Ok(c)),
                            Err(_) => Ok(Err(false)),
                        }
                    },
                }
            },
        }
    }

    /// Run to completion and return whether or not the input was accepted.
    pub fn accept(&self, input: &[A]) -> (r: Result<bool, IllFormed<A, S, Ctrl>>)
        ensures
            !kinds_ok(self@) ==> (r matches Err(e) && kinds_error(self@, e)),
            kinds_ok(self@) ==> (r is Ok <==> run_spec(
                self@,
                Ctrl::single(),
                self@.initial,
                Seq::empty(),
                input@,
            ) is Some),
            r matches Ok(b) ==> run_spec(self@, Ctrl::single(), self@.initial, Seq::empty(), input@)
                == Some(b),
    {
        match self.check_consistency() {
            Ok(()) => {},
            Err(e) => {
                return Err(e);
            },
        }
        let ghost whole = run_spec(self@, Ctrl::single(), self@.initial, Seq::empty(), input@);
        let mut ctrl = self.initial();
        let mut stack: Vec<S> = Vec::new();
        let mut k: usize = 0;
        proof {
            assert(input@.subrange(0, input@.len() as int) =~= input@);
            assert(stack@ =~= Seq::<S>::empty());
        }
        while k < input.len()
            invariant
                k <= input.len(),
                kinds_ok(self@),
                whole == run_spec(self@, Ctrl::single(), self@.initial, Seq::empty(), input@),
                run_spec(
                    self@,
                    Ctrl::single(),
                    ctrl.members(),
                    stack@,
                    input@.subrange(k as int, input@.len() as int),
                ) == whole,
            decreases input.len() - k,
        {
            proof {
                let rest = input@.subrange(k as int, input@.len() as int);
                assert(rest[0] == input@[k as int]);
                assert(rest.drop_first() =~= input@.subrange(k + 1, input@.len() as int));
            }
            match self.step(ctrl, &mut stack, Some(&input[k])) {
                Ok(Ok(c)) => {
                    ctrl = c;
                },
                Ok(Err(b)) => {
                    return Ok(b);
                },
                Err(e) => {
                    return Err(e);
                },
            }
            k = k + 1;
        }
        proof {
            assert(input@.subrange(k as int, input@.len() as int).len() == 0);
        }
        match self.step(ctrl, &mut stack, None) {
            Ok(Err(b)) => Ok(b),
            Ok(Ok(_)) => {
                proof {
                    assert(false);
                }
                Ok(false)
            },
            Err(e) => Err(e),
        }
    }
}

/// Every remainder modulo `size` is below `size`.
pub proof fn lemma_wrapped_in_bounds(m: Set<usize>, size: usize)
    requires
        size > 0,
    ensures
        in_bounds(m.map(|i: usize| (i % size) as usize), size as int),
{
    let w = m.map(|i: usize| (i % size) as usize);
    assert forall|x: usize| #[trigger] w.contains(x) implies x < size by {
        let i = choose|i: usize| m.contains(i) && (i % size) as usize == x;
    }
}

impl<A: Alphabet, S: Symbol, Ctrl: Indices> Automaton<A, S, Ctrl> {
    /// Deabsurdify every state of a non-empty automaton.
    fn deabsurdify_states(&mut self)
        requires
            old(self).states.len() > 0,
        ensures
            final(self).states.len() == old(self).states.len(),
            final(self).initial == old(self).initial,
            kinds_ok(final(self)@),
            forall|j: int|
                0 <= j < final(self)@.states.len() ==> #[trigger] final(self)@.states[j]
                    == state_sanitized(old(self)@.states[j], old(self).states.len()),
            forall|j: int|
                0 <= j < final(self)@.states.len() ==> table_wf(
                    #[trigger] final(self)@.states[j].transitions,
                    final(self)@.states.len() as int,
                ),
    {
        let size = self.states.len();
        let mut k: usize = 0;
        while k < size
            invariant
                k <= size,
                size == self.states.len(),
                size > 0,
                self.initial == old(self).initial,
                forall|j: int|
                    0 <= j < size ==> #[trigger] self.states@[j]@ == if j < k {
                        state_sanitized(old(self).states@[j]@, size)
                    } else {
                        old(self).states@[j]@
                    },
                forall|j: int|
                    0 <= j < k ==> crate::curry_opt::table_kinds_ok(#[trigger] self.states@[j]@.transitions),
                forall|j: int|
                    0 <= j < k ==> table_wf(
                        #[trigger] self.states@[j]@.transitions,
                        size as int,
                    ),
            decreases size - k,
        {
            let mut st = self.states[k].duplicate();
            st.deabsurdify(size);
            self.states.set(k, st);
            k = k + 1;
        }
        assert forall|j: int| 0 <= j < self@.states.len() implies #[trigger] self@.states[j]
            == state_sanitized(old(self)@.states[j], old(self).states.len()) by {
            assert(self@.states[j] == self.states@[j]@);
            assert(old(self)@.states[j] == old(self).states@[j]@);
        }
        assert forall|j: int| 0 <= j < self@.states.len() implies table_kinds_ok(
            #[trigger] self@.states[j].transitions,
        ) by {
            assert(self@.states[j] == self.states@[j]@);
        }
        assert forall|j: int| 0 <= j < self@.states.len() implies table_wf(
            #[trigger] self@.states[j].transitions,
            self@.states.len() as int,
        ) by {
            assert(self@.states[j] == self.states@[j]@);
        }
    }

    /// Start a lazy run of this automaton on `input`, after checking that
    /// every edge agrees with its tokens' kinds.
    pub fn run(&self, input: Vec<A>) -> (r: Result<Execution<'_, A, S, Ctrl>, IllFormed<A, S, Ctrl>>)
        ensures
            r is Ok <==> kinds_ok(self@),
            r matches Err(e) ==> kinds_error(self@, e),
            r matches Ok(x) ==> x.graph == self && x.input@ == input@ && x.position == 0
                && x.ctrl is Ok && x.stack@.len() == 0 && x.pending() == run_spec(
                self@,
                Ctrl::single(),
                self@.initial,
                Seq::empty(),
                input@,
            ),
    {
        match self.check_consistency() {
            Ok(()) => {},
            Err(e) => {
                return Err(e);
            },
        }
        let r = Execution { graph: self, input, position: 0, ctrl: Ok(self.initial()), stack: Vec::new() };
        assert(r.input@.skip(0) =~= r.input@);
        assert(r.stack@ =~= Seq::<S>::empty());
        Ok(r)
    }
}

impl<A: Alphabet, S: Symbol> Automaton<A, S, BTreeSet<usize>> {
    /// Eliminate absurd relations: clamp indices modulo the number of states
    /// (dropping them all where there is no state), and drop overlapping,
    /// repeated and shadowed entries. Afterwards `check` succeeds.
    pub fn deabsurdify(&mut self) -> (r: bool)
        ensures
            r,
            automaton_wf(final(self)@),
            final(self).states.len() == old(self).states.len(),
            forall|j: int|
                0 <= j < final(self)@.states.len() ==> #[trigger] final(self)@.states[j]
                    == state_sanitized(old(self)@.states[j], old(self).states.len()),
            old(self).states.len() == 0 ==> final(self)@.initial.is_empty(),
            old(self).states.len() > 0 ==> final(self)@.initial == old(self)@.initial.map(
                |i: usize| (i % old(self).states.len()) as usize,
            ),
    {
        let size = self.states.len();
        if size == 0 {
            self.initial = BTreeSet::new();
            assert(in_bounds(self@.initial, 0));
            return true;
        }
        self.initial.wrap(size);
        proof {
            lemma_wrapped_in_bounds(old(self).initial@, size);
        }
        self.deabsurdify_states();
        true
    }
}

impl<A: Alphabet, S: Symbol> Automaton<A, S, usize> {
    /// Eliminate absurd relations: clamp indices modulo the number of states,
    /// and drop overlapping, repeated and shadowed entries. Fails, changing
    /// nothing, where there is no state to clamp the initial index to;
    /// otherwise `check` succeeds afterwards.
    pub fn deabsurdify(&mut self) -> (r: bool)
        ensures
            r == (old(self).states.len() > 0),
            r ==> automaton_wf(final(self)@),
            !r ==> *final(self) == *old(self),
            final(self).states.len() == old(self).states.len(),
            r ==> final(self).initial == old(self).initial % old(self).states.len(),
            r ==> forall|j: int|
                0 <= j < final(self)@.states.len() ==> #[trigger] final(self)@.states[j]
                    == state_sanitized(old(self)@.states[j], old(self).states.len()),
    {
        let size = self.states.len();
        if size == 0 {
            return false;
        }
        self.initial = self.initial % size;
        self.deabsurdify_states();
        true
    }
}

impl<A, S> Default for Automaton<A, S, usize> {
    /// One state, with no transitions and not accepting, which is initial.
    fn default() -> (r: Self)
        ensures
            r.states.len() == 1,
            !r@.states[0].accepting,
            r@.states[0].transitions.wildcard is None,
            r@.states[0].transitions.none is None,
            r@.states[0].transitions.some.len() == 0,
            r.initial == 0,
    {
        let st: State<A, S, usize> = State {
            transitions: crate::curry_opt::CurryOpt { wildcard: None, none: None, some: Vec::new() },
            accepting: false,
        };
        let mut states: Vec<State<A, S, usize>> = Vec::new();
        states.push(st);
        Automaton { states, initial: 0 }
    }
}

impl<A, S> Default for Automaton<A, S, BTreeSet<usize>> {
    /// No state, and no initial state.
    fn default() -> (r: Self)
        ensures
            r.states.len() == 0,
            r@.initial.is_empty(),
    {
        Automaton { states: Vec::new(), initial: BTreeSet::new() }
    }
}

/// Lazy run of an automaton on an input: each call of `next` reads one token
/// and hands it back.
pub struct Execution<'a, A, S, Ctrl> {
    /// The automaton being run.
    pub graph: &'a Automaton<A, S, Ctrl>,
    /// The whole input.
    pub input: Vec<A>,
    /// How many tokens have been read.
    pub position: usize,
    /// The current control, or the verdict once the run has ended.
    pub ctrl: Result<Ctrl, bool>,
    /// The current stack.
    pub stack: Vec<S>,
}

impl<'a, A: Alphabet, S: Symbol, Ctrl: Indices> Execution<'a, A, S, Ctrl> {
    /// The verdict that this run will reach, `None` where the automaton will
    /// show itself ill-formed.
    pub open spec fn pending(&self) -> Option<bool> {
        match self.ctrl {
            Ok(c) => run_spec(
                self.graph@,
                Ctrl::single(),
                c.members(),
                self.stack@,
                self.input@.skip(self.position as int),
            ),
            Err(b) => Some(b),
        }
    }

    /// Read the next token and hand it back; at the end of the input, settle
    /// the verdict and return `None`. A structural error is handed back
    /// instead of the token, and ends the run.
    pub fn next(&mut self) -> (r: Option<Result<A, IllFormed<A, S, Ctrl>>>)
        requires
            old(self).position <= old(self).input.len(),
        ensures
            final(self).graph == old(self).graph,
            final(self).input@ == old(self).input@,
            final(self).position <= final(self).input.len(),
            old(self).position < old(self).input.len() ==> final(self).position == old(self).position
                + 1 && r is Some,
            old(self).position < old(self).input.len() ==> (r matches Some(Ok(x)) ==> x == old(
                self,
            ).input@[old(self).position as int]),
            old(self).position == old(self).input.len() ==> final(self).position == old(
                self,
            ).position && !(r matches Some(Ok(_))),
            r matches Some(Err(_)) ==> old(self).pending() is None && final(self).ctrl == Err::<
                Ctrl,
                bool,
            >(false),
            !(r matches Some(Err(_))) ==> final(self).pending() == old(self).pending(),
            old(self).position == old(self).input.len() && r is None ==> final(self).ctrl is Err,
            old(self).position == old(self).input.len() ==> final(self).stack@ == old(self).stack@,
            old(self).ctrl is Err ==> final(self).ctrl == old(self).ctrl && final(self).stack@ == old(
                self,
            ).stack@ && !(r matches Some(Err(_))),
    {
        let at_end = self.position >= self.input.len();
        let token: Option<A> = if at_end {
            None
        } else {
            Some(self.input[self.position])
        };
        let ghost rest = self.input@.skip(self.position as int);
        proof {
            if !at_end {
                assert(rest[0] == self.input@[self.position as int]);
                assert(rest.drop_first() =~= self.input@.skip(self.position + 1));
            } else {
                assert(rest.len() == 0);
            }
        }
        let current = match &self.ctrl {
            Ok(c) => Some(c.duplicate()),
            Err(_) => None,
        };
        match current {
            None => {},
            Some(c) => {
                let tref: Option<&A> = match &token {
                    Some(x) => Some(x),
                    None => None,
                };
                match self.graph.step(c, &mut self.stack, tref) {
                    Ok(next) => {
                        self.ctrl = next;
                    },
                    Err(e) => {
                        self.ctrl = Err(false);
                        if !at_end {
                            self.position = self.position + 1;
                        }
                        return Some(Err(e));
                    },
                }
            },
        }
        if at_end {
            None
        } else {
            self.position = self.position + 1;
            match token {
                Some(x) => Some(Ok(x)),
                None => None,
            }
        }
    }

    /// Drive the run to its end, handing back every token read, in order;
    /// the run then holds its verdict. A structural error ends the run
    /// early and is returned instead.
    pub fn finish(&mut self) -> (r: Result<Vec<A>, IllFormed<A, S, Ctrl>>)
        requires
            old(self).position <= old(self).input.len(),
        ensures
            final(self).graph == old(self).graph,
            final(self).input@ == old(self).input@,
            r matches Ok(ts) ==> ts@ == old(self).input@.skip(old(self).position as int)
                && final(self).position == final(self).input.len() && (final(self).ctrl matches Err(
                b,
            ) && old(self).pending() == Some(b)),
            r is Err ==> old(self).pending() is None,
            old(self).pending() is Some ==> r is Ok,
    {
        let ghost start = self.position as int;
        let ghost whole = self.pending();
        let mut out: Vec<A> = Vec::new();
        while self.position < self.input.len()
            invariant
                start <= self.position <= self.input.len(),
                self.graph == old(self).graph,
                self.input@ == old(self).input@,
                start == old(self).position,
                whole == old(self).pending(),
                self.pending() == whole,
                out@ == self.input@.subrange(start, self.position as int),
            decreases self.input.len() - self.position,
        {
            match self.next() {
                Some(Ok(x)) => {
                    out.push(x);
                    assert(out@ =~= self.input@.subrange(start, self.position as int));
                },
                Some(Err(e)) => {
                    return Err(e);
                },
                None => {
                    assert(false);
                },
            }
        }
        match self.next() {
            None => {
                assert(out@ =~= old(self).input@.skip(start));
                Ok(out)
            },
            Some(Err(e)) => Err(e),
            Some(Ok(_)) => {
                assert(false);
                Ok(out)
            },
        }
    }
}

} // verus!
