//! Subset construction: determinize a nondeterministic automaton, and
//! generalize a deterministic one.

use crate::alphabet::{Alphabet, Symbol};
use crate::automaton::{automaton_wf, Automaton, Deterministic, Nondeterministic};
use crate::curry_opt::{keyed_view, CurryOpt, CurryOptView, Layer};
use crate::edge::{Edge, EdgeView};
use crate::error::IllFormed;
use crate::indices::{increasing, Indices};
use crate::lookup::Return;
use crate::range::Range;
use crate::state::{state_merge, State, StateView};
use crate::wildcard::{entries_view, Wildcard, WildcardView};
use std::collections::BTreeSet;
use vstd::prelude::*;

verus! {

broadcast use {vstd::std_specs::btree::group_btree_axioms, vstd::laws_cmp::group_laws_cmp};

/// The state that stands for the empty set of states: it has no transition
/// and does not accept, so it rejects everything, and no token's kind can
/// disagree with one of its edges.
pub open spec fn dead_view<A, S>() -> StateView<A, S> {
    StateView {
        transitions: CurryOptView { wildcard: None, none: None, some: Seq::empty() },
        accepting: false,
    }
}

/// The merge of the states at `idx`, from left to right; the dead state for
/// no index.
pub open spec fn merge_all<A: Symbol, S>(states: Seq<StateView<A, S>>, idx: Seq<usize>) -> Option<
    StateView<A, S>,
>
    decreases idx.len(),
{
    if idx.len() == 0 {
        Some(dead_view())
    } else if idx.len() == 1 {
        Some(states[idx[0] as int])
    } else {
        match merge_all(states, idx.drop_last()) {
            Some(m) => state_merge(m, states[idx.last() as int], false),
            None => None,
        }
    }
}

/// Where a set of states stands in a list of subsets.
pub open spec fn index_of(subsets: Seq<Set<usize>>, s: Set<usize>) -> int {
    choose|k: int| 0 <= k < subsets.len() && subsets[k] == s
}

/// Every subset appears once.
pub open spec fn distinct(subsets: Seq<Set<usize>>) -> bool {
    forall|i: int, j: int| 0 <= i < j < subsets.len() ==> subsets[i] != subsets[j]
}

/// An edge with its destination set replaced by that set's index.
pub open spec fn rename_edge<S>(e: EdgeView<S>, subsets: Seq<Set<usize>>) -> EdgeView<S> {
    EdgeView { dst: set![index_of(subsets, e.dst) as usize], ..e }
}

/// A token layer with every destination renamed.
pub open spec fn rename_layer<A, S>(w: WildcardView<A, S>, subsets: Seq<Set<usize>>) -> WildcardView<
    A,
    S,
> {
    match w {
        WildcardView::Any(e) => WildcardView::Any(rename_edge(e, subsets)),
        WildcardView::Specific(v) => WildcardView::Specific(
            v.map_values(|p: (Range<A>, EdgeView<S>)| (p.0, rename_edge(p.1, subsets))),
        ),
    }
}

/// An optional token layer with every destination renamed.
pub open spec fn rename_opt<A, S>(w: Option<WildcardView<A, S>>, subsets: Seq<Set<usize>>) -> Option<
    WildcardView<A, S>,
> {
    match w {
        Some(x) => Some(rename_layer(x, subsets)),
        None => None,
    }
}

/// A transition table with every destination renamed.
pub open spec fn rename_table<A, S>(c: CurryOptView<A, S>, subsets: Seq<Set<usize>>) -> CurryOptView<
    A,
    S,
> {
    CurryOptView {
        wildcard: rename_opt(c.wildcard, subsets),
        none: rename_opt(c.none, subsets),
        some: c.some.map_values(|p: (S, WildcardView<A, S>)| (p.0, rename_layer(p.1, subsets))),
    }
}

/// A state with every destination renamed.
pub open spec fn rename_state<A, S>(s: StateView<A, S>, subsets: Seq<Set<usize>>) -> StateView<A, S> {
    StateView { transitions: rename_table(s.transitions, subsets), accepting: s.accepting }
}

/// The set `s` is one of `subsets`.
pub open spec fn listed(subsets: Seq<Set<usize>>, s: Set<usize>) -> bool {
    exists|k: int| 0 <= k < subsets.len() && subsets[k] == s
}

/// Every destination of the layer `w` is one of `subsets`.
pub open spec fn layer_listed<A, S>(w: WildcardView<A, S>, subsets: Seq<Set<usize>>) -> bool {
    match w {
        WildcardView::Any(e) => listed(subsets, e.dst),
        WildcardView::Specific(v) => forall|i: int|
            0 <= i < v.len() ==> listed(subsets, #[trigger] v[i].1.dst),
    }
}

/// Every destination of every edge in `c` is one of `subsets`.
pub open spec fn dsts_listed<A, S>(c: CurryOptView<A, S>, subsets: Seq<Set<usize>>) -> bool {
    &&& (c.wildcard matches Some(w) ==> layer_listed(w, subsets))
    &&& (c.none matches Some(n) ==> layer_listed(n, subsets))
    &&& forall|i: int| 0 <= i < c.some.len() ==> layer_listed(#[trigger] c.some[i].1, subsets)
}

/// Some edge of the layer `w` leads to the set of states `s`.
pub open spec fn layer_leads<A, S>(w: WildcardView<A, S>, s: Set<usize>) -> bool {
    match w {
        WildcardView::Any(e) => e.dst == s,
        WildcardView::Specific(v) => exists|i: int| 0 <= i < v.len() && v[i].1.dst == s,
    }
}

/// Some edge of the table `c` leads to the set of states `s`.
pub open spec fn leads_to<A, S>(c: CurryOptView<A, S>, s: Set<usize>) -> bool {
    ||| (c.wildcard matches Some(w) && layer_leads(w, s))
    ||| (c.none matches Some(x) && layer_leads(x, s))
    ||| exists|i: int| 0 <= i < c.some.len() && layer_leads(#[trigger] c.some[i].1, s)
}

/// `path` is a run of subset construction from the initial states to `s`:
/// each set on it is led to by an edge of the merge of the set before.
pub open spec fn path_to<A: Symbol, S>(
    n: crate::automaton::AutomatonView<A, S>,
    path: Seq<Set<usize>>,
    s: Set<usize>,
) -> bool {
    &&& path.len() > 0
    &&& path[0] == n.initial
    &&& path.last() == s
    &&& forall|i: int| 0 <= i < path.len() - 1 ==> grows_to(n, #[trigger] path[i], path[i + 1])
}

/// Some run of subset construction from the initial states reaches `s`.
pub open spec fn reachable<A: Symbol, S>(n: crate::automaton::AutomatonView<A, S>, s: Set<usize>) -> bool {
    exists|path: Seq<Set<usize>>| path_to(n, path, s)
}

/// More than `count` distinct sets of states are reachable by subset
/// construction.
pub open spec fn many_reachable<A: Symbol, S>(
    n: crate::automaton::AutomatonView<A, S>,
    count: int,
) -> bool {
    exists|ss: Seq<Set<usize>>|
        ss.len() > count && distinct(ss) && forall|i: int|
            0 <= i < ss.len() ==> reachable(n, #[trigger] ss[i])
}

/// A run of subset construction goes on along a step it can take.
pub proof fn lemma_path_step<A: Symbol, S>(
    n: crate::automaton::AutomatonView<A, S>,
    path: Seq<Set<usize>>,
    p: Set<usize>,
    s: Set<usize>,
)
    requires
        path_to(n, path, p),
        grows_to(n, p, s),
    ensures
        path_to(n, path.push(s), s),
{
    let np = path.push(s);
    assert forall|i: int| 0 <= i < np.len() - 1 implies grows_to(n, #[trigger] np[i], np[i + 1]) by {
        if i < path.len() - 1 {
            assert(np[i] == path[i] && np[i + 1] == path[i + 1]);
        } else {
            assert(np[i] == path.last());
        }
    }
}

/// An edge of the merge of the states in `p` leads to `s`.
pub open spec fn grows_to<A: Symbol, S>(
    n: crate::automaton::AutomatonView<A, S>,
    p: Set<usize>,
    s: Set<usize>,
) -> bool {
    merge_all(n.states, crate::automaton::ordered(p)) matches Some(m) && leads_to(m.transitions, s)
}

/// `d` is the subset construction of `n` over the listed subsets: state `q`
/// of `d` is the merge of the states of `n` in subset `q`, with destinations
/// renamed to subset indices; the first subset is the initial one, and every
/// destination of a merged state is listed.
pub open spec fn determinized<A: Symbol, S>(
    n: crate::automaton::AutomatonView<A, S>,
    d: crate::automaton::AutomatonView<A, S>,
    subsets: Seq<Set<usize>>,
) -> bool {
    &&& subsets.len() == d.states.len()
    &&& 0 < subsets.len() <= usize::MAX
    &&& subsets[0] == n.initial
    &&& d.initial == set![0usize]
    &&& distinct(subsets)
    &&& forall|q: int|
        0 <= q < subsets.len() ==> {
            &&& crate::edge::in_bounds(#[trigger] subsets[q], n.states.len() as int)
            &&& increasing(crate::automaton::ordered(subsets[q]))
            &&& crate::automaton::ordered(subsets[q]).to_set() == subsets[q]
            &&& reachable(n, subsets[q])
            &&& merge_all(n.states, crate::automaton::ordered(subsets[q])) matches Some(m)
            &&& dsts_listed(m.transitions, subsets)
            &&& d.states[q] == rename_state(m, subsets)
        }
}

/// A set with one index.
fn singleton(i: usize) -> (r: BTreeSet<usize>)
    ensures
        r@ == set![i],
{
    let mut s: BTreeSet<usize> = BTreeSet::new();
    s.insert(i);
    assert(Set::<usize>::empty().insert(i) =~= set![i]);
    s
}

/// Generalize an edge: its destination becomes a singleton set.
fn generalize_edge<S: Symbol>(d: &Edge<S, usize>) -> (r: Edge<S, BTreeSet<usize>>)
    ensures
        r@ == d@,
{
    match d {
        Edge::Call { dst, call, push } => Edge::Call {
            dst: singleton(*dst),
            call: call.duplicate(),
            push: *push,
        },
        Edge::Return { dst, call } => Edge::Return { dst: singleton(*dst), call: call.duplicate() },
        Edge::Local { dst, call } => Edge::Local { dst: singleton(*dst), call: call.duplicate() },
    }
}

/// Generalize a token layer.
fn generalize_wildcard<A: Symbol, S: Symbol>(d: &Layer<A, S, usize>) -> (r: Layer<
    A,
    S,
    BTreeSet<usize>,
>)
    ensures
        r@ == d@,
{
    match d {
        Wildcard::Any(Return(edge)) => Wildcard::Any(Return(generalize_edge(edge))),
        Wildcard::Specific(v) => {
            let mut out: Vec<(Range<A>, Return<Edge<S, BTreeSet<usize>>>)> = Vec::new();
            let mut k: usize = 0;
            while k < v.len()
                invariant
                    k <= v.len(),
                    entries_view(out@) == entries_view(v@).take(k as int),
                decreases v.len() - k,
            {
                let ghost before = out@;
                out.push((v[k].0, Return(generalize_edge(&v[k].1.0))));
                proof {
                    crate::wildcard::lemma_entries_push(before, out@.last());
                    assert(entries_view(out@) =~= entries_view(v@).take(k + 1));
                }
                k = k + 1;
            }
            assert(entries_view(v@).take(k as int) =~= entries_view(v@));
            Wildcard::Specific(out)
        },
    }
}

/// Generalize a transition table.
fn generalize_curry_opt<A: Symbol, S: Symbol>(d: &CurryOpt<S, Layer<A, S, usize>>) -> (r: CurryOpt<
    S,
    Layer<A, S, BTreeSet<usize>>,
>)
    ensures
        r@ == d@,
{
    let wildcard = match &d.wildcard {
        Some(w) => Some(generalize_wildcard(w)),
        None => None,
    };
    let none = match &d.none {
        Some(n) => Some(generalize_wildcard(n)),
        None => None,
    };
    let mut some: Vec<(S, Layer<A, S, BTreeSet<usize>>)> = Vec::new();
    let mut k: usize = 0;
    while k < d.some.len()
        invariant
            k <= d.some.len(),
            keyed_view(some@) == keyed_view(d.some@).take(k as int),
        decreases d.some.len() - k,
    {
        let ghost before = some@;
        some.push((d.some[k].0, generalize_wildcard(&d.some[k].1)));
        proof {
            crate::curry_opt::lemma_keyed_push(before, some@.last());
            assert(keyed_view(some@) =~= keyed_view(d.some@).take(k + 1));
        }
        k = k + 1;
    }
    assert(keyed_view(d.some@).take(k as int) =~= keyed_view(d.some@));
    let r = CurryOpt { wildcard, none, some };
    assert(r@.some =~= d@.some);
    r
}

impl<A: Alphabet, S: Symbol> Automaton<A, S, usize> {
    /// Generalize a deterministic automaton to an identical but nominally
    /// nondeterministic one: each destination becomes a singleton set.
    pub fn generalize(self) -> (r: Nondeterministic<A, S>)
        ensures
            r@ == self@,
    {
        let mut states: Vec<State<A, S, BTreeSet<usize>>> = Vec::new();
        let mut k: usize = 0;
        while k < self.states.len()
            invariant
                k <= self.states.len(),
                states.len() == k,
                forall|j: int| 0 <= j < k ==> #[trigger] states@[j]@ == self.states@[j]@,
            decreases self.states.len() - k,
        {
            let st = State {
                transitions: generalize_curry_opt(&self.states[k].transitions),
                accepting: self.states[k].accepting,
            };
            states.push(st);
            k = k + 1;
        }
        let r = Automaton { states, initial: singleton(self.initial) };
        assert(r@.states =~= self@.states);
        r
    }
}

/// The sets of indices listed in `order`.
pub open spec fn subsets_of(order: Seq<Vec<usize>>) -> Seq<Set<usize>> {
    order.map_values(|v: Vec<usize>| v@.to_set())
}

/// Every listing is increasing.
pub open spec fn all_increasing(order: Seq<Vec<usize>>) -> bool {
    forall|k: int| 0 <= k < order.len() ==> increasing(#[trigger] order[k]@)
}

/// Whether two index lists are equal.
fn same_list(a: &Vec<usize>, b: &Vec<usize>) -> (r: bool)
    ensures
        r == (a@ == b@),
{
    if a.len() != b.len() {
        return false;
    }
    let mut k: usize = 0;
    while k < a.len()
        invariant
            k <= a.len(),
            a.len() == b.len(),
            forall|j: int| 0 <= j < k ==> a@[j] == b@[j],
        decreases a.len() - k,
    {
        if a[k] != b[k] {
            return false;
        }
        k = k + 1;
    }
    assert(a@ =~= b@);
    true
}

/// Where the listing `v` stands in `order`.
fn find_listing(order: &Vec<Vec<usize>>, v: &Vec<usize>) -> (r: Option<usize>)
    requires
        all_increasing(order@),
        increasing(v@),
    ensures
        r matches Some(k) ==> k < order.len() && order@[k as int]@ == v@,
        r is None ==> forall|k: int| 0 <= k < order.len() ==> #[trigger] subsets_of(order@)[k] != v@.to_set(),
{
    let mut k: usize = 0;
    while k < order.len()
        invariant
            k <= order.len(),
            all_increasing(order@),
            increasing(v@),
            forall|j: int| 0 <= j < k ==> #[trigger] subsets_of(order@)[j] != v@.to_set(),
        decreases order.len() - k,
    {
        if same_list(&order[k], v) {
            return Some(k);
        }
        proof {
            if subsets_of(order@)[k as int] == v@.to_set() {
                crate::automaton::lemma_increasing_unique(order@[k as int]@, v@);
            }
        }
        k = k + 1;
    }
    None
}

/// Make sure the listing `v` is in `order`, appending it where it is new;
/// fails where that would take `order` past `budget`.
fn note(order: &mut Vec<Vec<usize>>, v: Vec<usize>, budget: usize) -> (r: Result<(), ()>)
    requires
        all_increasing(old(order)@),
        distinct(subsets_of(old(order)@)),
        increasing(v@),
        old(order).len() <= budget,
    ensures
        all_increasing(final(order)@),
        distinct(subsets_of(final(order)@)),
        final(order).len() <= budget,
        final(order).len() >= old(order).len(),
        final(order)@.take(old(order).len() as int) == old(order)@,
        r is Ok ==> listed(subsets_of(final(order)@), v@.to_set()),
        r is Err ==> final(order).len() == budget && !listed(subsets_of(final(order)@), v@.to_set()),
        forall|k: int|
            old(order).len() <= k < final(order).len() ==> #[trigger] subsets_of(final(order)@)[k]
                == v@.to_set(),
{
    match find_listing(order, &v) {
        Some(k) => {
            assert(order@.take(order.len() as int) =~= order@);
            assert(subsets_of(order@)[k as int] == v@.to_set());
            Ok(())
        },
        None => {
            if order.len() >= budget {
                assert(order@.take(order.len() as int) =~= order@);
                assert(!listed(subsets_of(order@), v@.to_set())) by {
                    if listed(subsets_of(order@), v@.to_set()) {
                        let k = choose|k: int|
                            0 <= k < subsets_of(order@).len() && subsets_of(order@)[k] == v@.to_set();
                        assert(subsets_of(order@)[k] != v@.to_set());
                    }
                }
                return Err(());
            }
            let ghost before = order@;
            let ghost vs = v@.to_set();
            order.push(v);
            proof {
                assert(order@.take(before.len() as int) =~= before);
                assert(subsets_of(order@) =~= subsets_of(before).push(vs));
                assert(subsets_of(order@)[before.len() as int] == vs);
            }
            Ok(())
        },
    }
}

/// The listings of `order` only grow at the end.
pub open spec fn extends(later: Seq<Vec<usize>>, earlier: Seq<Vec<usize>>) -> bool {
    later.len() >= earlier.len() && later.take(earlier.len() as int) == earlier
}

/// A set listed in a list stays listed in any extension of it.
pub proof fn lemma_listed_extends(later: Seq<Vec<usize>>, earlier: Seq<Vec<usize>>, s: Set<usize>)
    requires
        extends(later, earlier),
        listed(subsets_of(earlier), s),
    ensures
        listed(subsets_of(later), s),
{
    let k = choose|k: int| 0 <= k < subsets_of(earlier).len() && subsets_of(earlier)[k] == s;
    assert(later[k] == later.take(earlier.len() as int)[k]);
    assert(subsets_of(later)[k] == s);
}

/// A layer listed in a list stays listed in any extension of it.
pub proof fn lemma_layer_listed_extends<A, S>(
    w: WildcardView<A, S>,
    later: Seq<Vec<usize>>,
    earlier: Seq<Vec<usize>>,
)
    requires
        extends(later, earlier),
        layer_listed(w, subsets_of(earlier)),
    ensures
        layer_listed(w, subsets_of(later)),
{
    match w {
        WildcardView::Any(e) => lemma_listed_extends(later, earlier, e.dst),
        WildcardView::Specific(v) => {
            assert forall|i: int| 0 <= i < v.len() implies listed(
                subsets_of(later),
                #[trigger] v[i].1.dst,
            ) by {
                lemma_listed_extends(later, earlier, v[i].1.dst);
            }
        },
    }
}

/// A table listed in a list stays listed in any extension of it.
pub proof fn lemma_table_listed_extends<A, S>(
    c: CurryOptView<A, S>,
    later: Seq<Vec<usize>>,
    earlier: Seq<Vec<usize>>,
)
    requires
        extends(later, earlier),
        dsts_listed(c, subsets_of(earlier)),
    ensures
        dsts_listed(c, subsets_of(later)),
{
    if let Some(w) = c.wildcard {
        lemma_layer_listed_extends(w, later, earlier);
    }
    if let Some(n) = c.none {
        lemma_layer_listed_extends(n, later, earlier);
    }
    assert forall|i: int| 0 <= i < c.some.len() implies layer_listed(
        #[trigger] c.some[i].1,
        subsets_of(later),
    ) by {
        lemma_layer_listed_extends(c.some[i].1, later, earlier);
    }
}

/// Extension is transitive.
pub proof fn lemma_extends_trans(a: Seq<Vec<usize>>, b: Seq<Vec<usize>>, c: Seq<Vec<usize>>)
    requires
        extends(a, b),
        extends(b, c),
    ensures
        extends(a, c),
{
    assert(a.take(c.len() as int) =~= b.take(c.len() as int));
}

/// Note the destinations of every edge of a layer.
fn note_layer<A: Symbol, S: Symbol>(
    w: &Layer<A, S, BTreeSet<usize>>,
    order: &mut Vec<Vec<usize>>,
    budget: usize,
) -> (r: Result<(), ()>)
    requires
        all_increasing(old(order)@),
        distinct(subsets_of(old(order)@)),
        old(order).len() <= budget,
    ensures
        all_increasing(final(order)@),
        distinct(subsets_of(final(order)@)),
        final(order).len() <= budget,
        extends(final(order)@, old(order)@),
        r is Ok ==> layer_listed(w@, subsets_of(final(order)@)),
        r is Err ==> final(order).len() == budget && exists|s: Set<usize>|
            layer_leads(w@, s) && !listed(subsets_of(final(order)@), s),
        forall|k: int|
            old(order).len() <= k < final(order).len() ==> layer_leads(
                w@,
                #[trigger] subsets_of(final(order)@)[k],
            ),
{
    match w {
        Wildcard::Any(Return(edge)) => {
            let v = edge.dst().to_vec();
            note(order, v, budget)
        },
        Wildcard::Specific(entries) => {
            let ghost start = order@;
            let ghost ev = entries_view(entries@);
            let mut k: usize = 0;
            assert(order@.take(order.len() as int) =~= order@);
            while k < entries.len()
                invariant
                    k <= entries.len(),
                    ev == entries_view(entries@),
                    w@ == WildcardView::<A, S>::Specific(ev),
                    all_increasing(order@),
                    distinct(subsets_of(order@)),
                    order.len() <= budget,
                    extends(order@, start),
                    start == old(order)@,
                    forall|i: int| 0 <= i < k ==> listed(subsets_of(order@), #[trigger] ev[i].1.dst),
                    forall|j: int|
                        start.len() <= j < order.len() ==> layer_leads(
                            w@,
                            #[trigger] subsets_of(order@)[j],
                        ),
                decreases entries.len() - k,
            {
                let ghost before = order@;
                let v = entries[k].1.0.dst().to_vec();
                let ghost vd = v@.to_set();
                proof {
                    assert(ev[k as int].1 == entries@[k as int].1.0@);
                    assert(vd == ev[k as int].1.dst);
                }
                let res = note(order, v, budget);
                proof {
                    lemma_extends_trans(order@, before, start);
                    assert forall|j: int| start.len() <= j < order.len() implies layer_leads(
                        w@,
                        #[trigger] subsets_of(order@)[j],
                    ) by {
                        if j < before.len() {
                            assert(order@[j] == order@.take(before.len() as int)[j]);
                            assert(subsets_of(order@)[j] == subsets_of(before)[j]);
                        } else {
                            assert(subsets_of(order@)[j] == vd);
                            assert(0 <= k < ev.len() && ev[k as int].1.dst == vd);
                        }
                    }
                }
                match res {
                    Ok(()) => {},
                    Err(()) => {
                        return Err(());
                    },
                }
                proof {
                    assert(ev[k as int].1 == entries@[k as int].1.0@);
                    assert forall|i: int| 0 <= i < k + 1 implies listed(
                        subsets_of(order@),
                        #[trigger] ev[i].1.dst,
                    ) by {
                        if i < k {
                            lemma_listed_extends(order@, before, ev[i].1.dst);
                        }
                    }
                }
                k = k + 1;
            }
            Ok(())
        },
    }
}

/// The subsets listed before an extension stay where they were.
pub proof fn lemma_subsets_prefix(later: Seq<Vec<usize>>, earlier: Seq<Vec<usize>>, k: int)
    requires
        extends(later, earlier),
        0 <= k < earlier.len(),
    ensures
        subsets_of(later)[k] == subsets_of(earlier)[k],
{
    assert(later[k] == later.take(earlier.len() as int)[k]);
}

/// Note the destinations of every edge of a table.
fn note_table<A: Symbol, S: Symbol>(
    c: &CurryOpt<S, Layer<A, S, BTreeSet<usize>>>,
    order: &mut Vec<Vec<usize>>,
    budget: usize,
) -> (r: Result<(), ()>)
    requires
        all_increasing(old(order)@),
        distinct(subsets_of(old(order)@)),
        old(order).len() <= budget,
    ensures
        all_increasing(final(order)@),
        distinct(subsets_of(final(order)@)),
        final(order).len() <= budget,
        extends(final(order)@, old(order)@),
        r is Ok ==> dsts_listed(c@, subsets_of(final(order)@)),
        r is Err ==> final(order).len() == budget && exists|s: Set<usize>|
            leads_to(c@, s) && !listed(subsets_of(final(order)@), s),
        forall|k: int|
            old(order).len() <= k < final(order).len() ==> leads_to(
                c@,
                #[trigger] subsets_of(final(order)@)[k],
            ),
{
    let ghost start = order@;
    assert(order@.take(order.len() as int) =~= order@);
    match &c.wildcard {
        Some(w) => {
            let res = note_layer(w, order, budget);
            proof {
                assert forall|k: int| start.len() <= k < order.len() implies leads_to(
                    c@,
                    #[trigger] subsets_of(order@)[k],
                ) by {
                    assert(layer_leads(w@, subsets_of(order@)[k]));
                }
            }
            match res {
                Ok(()) => {},
                Err(()) => {
                    return Err(());
                },
            }
        },
        None => {},
    }
    let ghost after_wild = order@;
    proof {
        assert(forall|k: int| start.len() <= k < order.len() ==> leads_to(
            c@,
            #[trigger] subsets_of(order@)[k],
        ));
    }
    match &c.none {
        Some(n) => {
            let res = note_layer(n, order, budget);
            proof {
                lemma_extends_trans(order@, after_wild, start);
                assert forall|k: int| start.len() <= k < order.len() implies leads_to(
                    c@,
                    #[trigger] subsets_of(order@)[k],
                ) by {
                    if k < after_wild.len() {
                        lemma_subsets_prefix(order@, after_wild, k);
                    } else {
                        assert(layer_leads(n@, subsets_of(order@)[k]));
                    }
                }
            }
            match res {
                Ok(()) => {},
                Err(()) => {
                    return Err(());
                },
            }
        },
        None => {},
    }
    let ghost after_none = order@;
    proof {
        assert(order@.take(after_wild.len() as int) =~= after_wild);
        assert(order@.take(after_none.len() as int) =~= after_none);
        lemma_extends_trans(order@, after_wild, start);
    }
    let mut i: usize = 0;
    while i < c.some.len()
        invariant
            i <= c.some.len(),
            all_increasing(order@),
            distinct(subsets_of(order@)),
            order.len() <= budget,
            extends(order@, start),
            extends(order@, after_wild),
            extends(order@, after_none),
            start == old(order)@,
            c.wildcard matches Some(w) ==> layer_listed(w@, subsets_of(after_wild)),
            c.none matches Some(n) ==> layer_listed(n@, subsets_of(after_none)),
            forall|j: int|
                0 <= j < i ==> layer_listed(#[trigger] c@.some[j].1, subsets_of(order@)),
            forall|k: int|
                start.len() <= k < order.len() ==> leads_to(c@, #[trigger] subsets_of(order@)[k]),
        decreases c.some.len() - i,
    {
        let ghost before = order@;
        let res = note_layer(&c.some[i].1, order, budget);
        proof {
            lemma_extends_trans(order@, before, start);
            lemma_extends_trans(order@, before, after_wild);
            lemma_extends_trans(order@, before, after_none);
            assert(c@.some[i as int].1 == c.some@[i as int].1@);
            assert forall|k: int| start.len() <= k < order.len() implies leads_to(
                c@,
                #[trigger] subsets_of(order@)[k],
            ) by {
                if k < before.len() {
                    lemma_subsets_prefix(order@, before, k);
                } else {
                    assert(layer_leads(c@.some[i as int].1, subsets_of(order@)[k]));
                }
            }
        }
        match res {
            Ok(()) => {},
            Err(()) => {
                return Err(());
            },
        }
        proof {
            assert forall|j: int| 0 <= j < i + 1 implies layer_listed(
                #[trigger] c@.some[j].1,
                subsets_of(order@),
            ) by {
                if j < i {
                    lemma_layer_listed_extends(c@.some[j].1, order@, before);
                }
            }
        }
        i = i + 1;
    }
    proof {
        if let Some(w) = c@.wildcard {
            lemma_layer_listed_extends(w, order@, after_wild);
        }
        if let Some(n) = c@.none {
            lemma_layer_listed_extends(n, order@, after_none);
        }
    }
    Ok(())
}

/// Replace a destination set by its index in `order`.
fn fix_indices_edge<S: Symbol>(nd: &Edge<S, BTreeSet<usize>>, order: &Vec<Vec<usize>>) -> (r: Edge<
    S,
    usize,
>)
    requires
        all_increasing(order@),
        distinct(subsets_of(order@)),
        listed(subsets_of(order@), nd@.dst),
    ensures
        r@ == rename_edge(nd@, subsets_of(order@)),
{
    let v = nd.dst().to_vec();
    let k = match find_listing(order, &v) {
        Some(k) => k,
        None => {
            proof {
                let j = choose|j: int|
                    0 <= j < subsets_of(order@).len() && subsets_of(order@)[j] == nd@.dst;
                assert(subsets_of(order@)[j] != v@.to_set());
            }
            0
        },
    };
    proof {
        let subs = subsets_of(order@);
        assert(subs[k as int] == nd@.dst);
        let j = index_of(subs, nd@.dst);
        if j != k as int {
            if j < k {
                assert(subs[j] != subs[k as int]);
            } else {
                assert(subs[k as int] != subs[j]);
            }
        }
    }
    match nd {
        Edge::Call { call, push, .. } => Edge::Call { dst: k, call: call.duplicate(), push: *push },
        Edge::Return { call, .. } => Edge::Return { dst: k, call: call.duplicate() },
        Edge::Local { call, .. } => Edge::Local { dst: k, call: call.duplicate() },
    }
}

/// Replace every destination set of a layer by its index in `order`.
fn fix_indices_wildcard<A: Symbol, S: Symbol>(
    nd: &Layer<A, S, BTreeSet<usize>>,
    order: &Vec<Vec<usize>>,
) -> (r: Layer<A, S, usize>)
    requires
        all_increasing(order@),
        distinct(subsets_of(order@)),
        layer_listed(nd@, subsets_of(order@)),
    ensures
        r@ == rename_layer(nd@, subsets_of(order@)),
{
    match nd {
        Wildcard::Any(Return(edge)) => Wildcard::Any(Return(fix_indices_edge(edge, order))),
        Wildcard::Specific(v) => {
            let ghost subs = subsets_of(order@);
            let ghost ev = entries_view(v@);
            let ghost target = ev.map_values(
                |p: (Range<A>, EdgeView<S>)| (p.0, rename_edge(p.1, subs)),
            );
            let mut out: Vec<(Range<A>, Return<Edge<S, usize>>)> = Vec::new();
            let mut k: usize = 0;
            while k < v.len()
                invariant
                    k <= v.len(),
                    subs == subsets_of(order@),
                    all_increasing(order@),
                    distinct(subs),
                    ev == entries_view(v@),
                    forall|i: int| 0 <= i < ev.len() ==> listed(subs, #[trigger] ev[i].1.dst),
                    target == ev.map_values(
                        |p: (Range<A>, EdgeView<S>)| (p.0, rename_edge(p.1, subs)),
                    ),
                    entries_view(out@) == target.take(k as int),
                decreases v.len() - k,
            {
                proof {
                    assert(ev[k as int].1 == v@[k as int].1.0@);
                    assert(listed(subs, ev[k as int].1.dst));
                }
                let e = fix_indices_edge(&v[k].1.0, order);
                let ghost before = out@;
                out.push((v[k].0, Return(e)));
                proof {
                    crate::wildcard::lemma_entries_push(before, out@.last());
                    assert(entries_view(out@) =~= target.take(k + 1));
                }
                k = k + 1;
            }
            assert(target.take(k as int) =~= target);
            Wildcard::Specific(out)
        },
    }
}

/// Replace every destination set of a table by its index in `order`.
fn fix_indices_curry_opt<A: Symbol, S: Symbol>(
    nd: &CurryOpt<S, Layer<A, S, BTreeSet<usize>>>,
    order: &Vec<Vec<usize>>,
) -> (r: CurryOpt<S, Layer<A, S, usize>>)
    requires
        all_increasing(order@),
        distinct(subsets_of(order@)),
        dsts_listed(nd@, subsets_of(order@)),
    ensures
        r@ == rename_table(nd@, subsets_of(order@)),
{
    let ghost subs = subsets_of(order@);
    let wildcard = match &nd.wildcard {
        Some(w) => Some(fix_indices_wildcard(w, order)),
        None => None,
    };
    let none = match &nd.none {
        Some(n) => Some(fix_indices_wildcard(n, order)),
        None => None,
    };
    let ghost target = nd@.some.map_values(
        |p: (S, WildcardView<A, S>)| (p.0, rename_layer(p.1, subs)),
    );
    let mut some: Vec<(S, Layer<A, S, usize>)> = Vec::new();
    let mut k: usize = 0;
    while k < nd.some.len()
        invariant
            k <= nd.some.len(),
            subs == subsets_of(order@),
            all_increasing(order@),
            distinct(subs),
            dsts_listed(nd@, subs),
            target == nd@.some.map_values(
                |p: (S, WildcardView<A, S>)| (p.0, rename_layer(p.1, subs)),
            ),
            keyed_view(some@) == target.take(k as int),
        decreases nd.some.len() - k,
    {
        proof {
            assert(nd@.some[k as int].1 == nd.some@[k as int].1@);
            assert(layer_listed(nd@.some[k as int].1, subs));
        }
        let layer = fix_indices_wildcard(&nd.some[k].1, order);
        let ghost before = some@;
        some.push((nd.some[k].0, layer));
        proof {
            crate::curry_opt::lemma_keyed_push(before, some@.last());
            assert(keyed_view(some@) =~= target.take(k + 1));
        }
        k = k + 1;
    }
    assert(target.take(k as int) =~= target);
    CurryOpt { wildcard, none, some }
}
impl<A: Alphabet, S: Symbol> Automaton<A, S, BTreeSet<usize>> {
    /// The state that stands for the empty set of states.
    fn dead_state() -> (r: State<A, S, BTreeSet<usize>>)
        ensures
            r@ == dead_view::<A, S>(),
    {
        let r = State {
            transitions: CurryOpt { wildcard: None, none: None, some: Vec::new() },
            accepting: false,
        };
        assert(r@.transitions.some =~= Seq::<(S, WildcardView<A, S>)>::empty());
        r
    }

    /// Merge the states at the listed indices into one state.
    fn merge_subset(&self, subset: &Vec<usize>) -> (r: Result<
        State<A, S, BTreeSet<usize>>,
        IllFormed<A, S, BTreeSet<usize>>,
    >)
        ensures
            r is Ok <==> (forall|k: int| 0 <= k < subset.len() ==> subset@[k] < self.states.len())
                && merge_all(self@.states, subset@) is Some,
            r matches Ok(m) ==> merge_all(self@.states, subset@) == Some(m@),
    {
        if subset.len() == 0 {
            return Ok(Self::dead_state());
        }
        let mut k: usize = 0;
        while k < subset.len()
            invariant
                k <= subset.len(),
                forall|j: int| 0 <= j < k ==> subset@[j] < self.states.len(),
            decreases subset.len() - k,
        {
            if subset[k] >= self.states.len() {
                return Err(IllFormed::OutOfBounds);
            }
            k = k + 1;
        }
        let mut acc = self.states[subset[0]].duplicate();
        proof {
            assert(self@.states[subset@[0] as int] == self.states@[subset@[0] as int]@);
            assert(subset@.take(1) =~= seq![subset@[0]]);
        }
        let mut k: usize = 1;
        while k < subset.len()
            invariant
                1 <= k <= subset.len(),
                forall|j: int| 0 <= j < subset.len() ==> subset@[j] < self.states.len(),
                merge_all(self@.states, subset@.take(k as int)) == Some(acc@),
            decreases subset.len() - k,
        {
            proof {
                assert(subset@.take(k + 1).drop_last() =~= subset@.take(k as int));
                assert(subset@.take(k + 1).last() == subset@[k as int]);
                assert(self@.states[subset@[k as int] as int] == self.states@[subset@[k as int] as int]@);
            }
            match acc.merge(&self.states[subset[k]]) {
                Ok(m) => {
                    acc = m;
                },
                Err(e) => {
                    proof {
                        lemma_merge_all_none(self@.states, subset@, k + 1);
                    }
                    return Err(e);
                },
            }
            k = k + 1;
        }
        assert(subset@.take(k as int) =~= subset@);
        Ok(acc)
    }

    /// Subset construction: a deterministic automaton that follows this one,
    /// each of its states standing for a set of this one's states.
    pub fn determinize(&self) -> (r: Result<Deterministic<A, S>, IllFormed<A, S, BTreeSet<usize>>>)
        ensures
            r is Ok ==> automaton_wf(self@),
            r matches Err(e) ==> !automaton_wf(self@) ==> crate::automaton::check_error(self@, e),
            r matches Err(e) ==> !automaton_wf(self@) || (e is Budget && many_reachable(
                self@,
                usize::MAX as int,
            )) || exists|s: Set<usize>, path: Seq<Set<usize>>|
                path_to(self@, path, s) && !(crate::edge::in_bounds(s, self@.states.len() as int)
                    && merge_all(self@.states, crate::automaton::ordered(s)) is Some),
            r matches Ok(d) ==> automaton_wf(d@),
            r matches Ok(d) ==> exists|subsets: Seq<Set<usize>>| determinized(self@, d@, subsets),
    {
        self.determinize_within(usize::MAX)
    }

    /// Subset construction that explores at most `budget` subsets of states,
    /// and fails with `Budget` where more are reachable.
    pub fn determinize_within(&self, budget: usize) -> (r: Result<
        Deterministic<A, S>,
        IllFormed<A, S, BTreeSet<usize>>,
    >)
        ensures
            r is Ok ==> automaton_wf(self@),
            r matches Err(e) ==> !automaton_wf(self@) ==> crate::automaton::check_error(self@, e),
            r matches Err(e) ==> !automaton_wf(self@) || (e is Budget && many_reachable(
                self@,
                budget as int,
            )) || exists|s: Set<usize>, path: Seq<Set<usize>>|
                path_to(self@, path, s) && !(crate::edge::in_bounds(s, self@.states.len() as int)
                    && merge_all(self@.states, crate::automaton::ordered(s)) is Some),
            r matches Ok(d) ==> automaton_wf(d@),
            r matches Ok(d) ==> d.states.len() <= budget && exists|subsets: Seq<Set<usize>>|
                determinized(self@, d@, subsets),
    {
        match self.check() {
            Ok(()) => {},
            Err(e) => {
                return Err(e);
            },
        }
        if budget == 0 {
            proof {
                let ss = seq![self@.initial];
                assert(path_to(self@, seq![self@.initial], self@.initial));
                assert(reachable(self@, ss[0]));
                assert(forall|i: int| 0 <= i < ss.len() ==> reachable(self@, #[trigger] ss[i]));
                assert(ss.len() > 0 && distinct(ss));
                assert(many_reachable(self@, 0));
            }
            return Err(IllFormed::Budget);
        }
        let mut order: Vec<Vec<usize>> = Vec::new();
        order.push(self.initial.to_vec());
        let mut merged: Vec<State<A, S, BTreeSet<usize>>> = Vec::new();
        let mut q: usize = 0;
        let ghost mut paths: Seq<Seq<Set<usize>>> = seq![seq![self@.initial]];
        proof {
            assert(subsets_of(order@)[0] == order@[0]@.to_set());
            assert(path_to(self@, paths[0], subsets_of(order@)[0]));
        }
        while q < order.len()
            invariant
                0 < order.len() <= budget,
                q <= order.len(),
                merged.len() == q,
                all_increasing(order@),
                distinct(subsets_of(order@)),
                order@[0]@.to_set() == self@.initial,
                automaton_wf(self@),
                paths.len() == order.len(),
                forall|p: int|
                    0 <= p < order.len() ==> path_to(self@, paths[p], #[trigger] subsets_of(order@)[p]),
                forall|p: int|
                    0 <= p < q ==> merge_all(self@.states, #[trigger] order@[p]@) == Some(merged@[p]@),
                forall|p: int|
                    0 <= p < q ==> crate::edge::in_bounds(#[trigger] subsets_of(order@)[p], self@.states.len() as int),
                forall|p: int|
                    0 <= p < q ==> dsts_listed(#[trigger] merged@[p]@.transitions, subsets_of(order@)),
            decreases budget - q,
        {
            proof {
                crate::automaton::lemma_ordered(order@[q as int]@);
                assert(subsets_of(order@)[q as int] == order@[q as int]@.to_set());
            }
            let mega = match self.merge_subset(&order[q]) {
                Ok(m) => m,
                Err(e) => {
                    proof {
                        let sq = subsets_of(order@)[q as int];
                        assert(path_to(self@, paths[q as int], sq));
                        if crate::edge::in_bounds(sq, self@.states.len() as int) {
                            assert forall|k: int| 0 <= k < order@[q as int]@.len() implies order@[q as int]@[k]
                                < self.states.len() by {
                                assert(sq.contains(order@[q as int]@[k]));
                            }
                        }
                    }
                    return Err(e);
                },
            };
            proof {
                assert(self@.states.len() == self.states.len());
                assert forall|i: usize| #[trigger] subsets_of(order@)[q as int].contains(i) implies i
                    < self@.states.len() by {
                    let j = choose|j: int| 0 <= j < order@[q as int]@.len() && order@[q as int]@[j] == i;
                }
            }
            let ghost before = order@;
            let ghost sq = subsets_of(order@)[q as int];
            let res = note_table(&mega.transitions, &mut order, budget);
            proof {
                let pq = paths[q as int];
                assert(path_to(self@, pq, sq));
                let added = (order@.len() - before.len()) as nat;
                let old_paths = paths;
                paths = paths + Seq::new(added, |j: int| pq.push(subsets_of(order@)[before.len() + j]));
                assert forall|p: int| 0 <= p < order.len() implies path_to(
                    self@,
                    paths[p],
                    #[trigger] subsets_of(order@)[p],
                ) by {
                    if p < before.len() {
                        lemma_subsets_prefix(order@, before, p);
                        assert(paths[p] == old_paths[p]);
                    } else {
                        let sp = subsets_of(order@)[p];
                        assert(paths[p] == pq.push(sp));
                        assert(leads_to(mega@.transitions, sp));
                        assert(grows_to(self@, sq, sp));
                        lemma_path_step(self@, pq, sq, sp);
                    }
                }
            }
            match res {
                Ok(()) => {},
                Err(()) => {
                    proof {
                        let pq = paths[q as int];
                        let s_new = choose|s: Set<usize>|
                            leads_to(mega@.transitions, s) && !listed(subsets_of(order@), s);
                        assert(grows_to(self@, sq, s_new));
                        lemma_path_step(self@, pq, sq, s_new);
                        let ss = subsets_of(order@).push(s_new);
                        assert forall|i: int, j: int| 0 <= i < j < ss.len() implies ss[i] != ss[j] by {
                            if j == ss.len() - 1 {
                                assert(ss[i] == subsets_of(order@)[i]);
                            } else {
                                assert(ss[i] == subsets_of(order@)[i] && ss[j] == subsets_of(order@)[j]);
                            }
                        }
                        assert forall|i: int| 0 <= i < ss.len() implies reachable(self@, #[trigger] ss[i]) by {
                            if i < order.len() {
                                assert(ss[i] == subsets_of(order@)[i]);
                                assert(path_to(self@, paths[i], subsets_of(order@)[i]));
                            } else {
                                assert(path_to(self@, pq.push(s_new), ss[i]));
                            }
                        }
                        assert(ss.len() == budget + 1);
                        assert(ss.len() > budget as int && distinct(ss) && forall|i: int|
                            0 <= i < ss.len() ==> reachable(self@, #[trigger] ss[i]));
                        assert(many_reachable(self@, budget as int));
                    }
                    return Err(IllFormed::Budget);
                },
            }
            proof {
                assert(order@[0] == order@.take(before.len() as int)[0]);
                assert forall|p: int| 0 <= p < q implies merge_all(self@.states, #[trigger] order@[p]@)
                    == Some(merged@[p]@) by {
                    assert(order@[p] == order@.take(before.len() as int)[p]);
                }
                assert forall|p: int| 0 <= p < q implies dsts_listed(
                    #[trigger] merged@[p]@.transitions,
                    subsets_of(order@),
                ) by {
                    lemma_table_listed_extends(merged@[p]@.transitions, order@, before);
                }
                assert(order@[q as int] == order@.take(before.len() as int)[q as int]);
                assert forall|p: int| 0 <= p <= q implies crate::edge::in_bounds(
                    #[trigger] subsets_of(order@)[p],
                    self@.states.len() as int,
                ) by {
                    assert(order@[p] == order@.take(before.len() as int)[p]);
                    assert(subsets_of(order@)[p] == subsets_of(before)[p]);
                }
            }
            merged.push(mega);
            q = q + 1;
        }
        let ghost subs = subsets_of(order@);
        let mut states: Vec<State<A, S, usize>> = Vec::new();
        let mut p: usize = 0;
        while p < merged.len()
            invariant
                p <= merged.len(),
                merged.len() == order.len(),
                order.len() <= budget,
                subs == subsets_of(order@),
                all_increasing(order@),
                distinct(subs),
                states.len() == p,
                automaton_wf(self@),
                forall|j: int| 0 <= j < merged.len() ==> crate::edge::in_bounds(#[trigger] subs[j], self@.states.len() as int),
                forall|j: int| 0 <= j < merged.len() ==> merge_all(self@.states, #[trigger] order@[j]@) == Some(merged@[j]@),
                forall|j: int| 0 <= j < merged.len() ==> dsts_listed(#[trigger] merged@[j]@.transitions, subs),
                forall|j: int| 0 <= j < p ==> #[trigger] states@[j]@ == rename_state(merged@[j]@, subs),
            decreases merged.len() - p,
        {
            assert(dsts_listed(merged@[p as int]@.transitions, subs));
            let transitions = fix_indices_curry_opt(&merged[p].transitions, &order);
            states.push(State { transitions, accepting: merged[p].accepting });
            p = p + 1;
        }
        let d = Automaton { states, initial: 0usize };
        proof {
            assert(d@.states.len() == subs.len());
            assert(subs[0] == self@.initial);
            assert forall|k: int| 0 <= k < subs.len() implies {
                &&& crate::edge::in_bounds(#[trigger] subs[k], self@.states.len() as int)
                &&& increasing(crate::automaton::ordered(subs[k]))
                &&& crate::automaton::ordered(subs[k]).to_set() == subs[k]
                &&& reachable(self@, subs[k])
                &&& merge_all(self@.states, crate::automaton::ordered(subs[k])) matches Some(m)
                &&& dsts_listed(m.transitions, subs)
                &&& d@.states[k] == rename_state(m, subs)
            } by {
                crate::automaton::lemma_ordered(order@[k]@);
                assert(subs[k] == order@[k]@.to_set());
                assert(d@.states[k] == states@[k]@);
            }
            assert(determinized(self@, d@, subs));
            crate::soundness::lemma_determinized_wf(self@, d@, subs);
            assert(automaton_wf(d@));
            assert(d.states.len() <= budget);
            assert(exists|subsets: Seq<Set<usize>>| determinized(self@, d@, subsets));
        }
        let r: Result<Deterministic<A, S>, IllFormed<A, S, BTreeSet<usize>>> = Ok(d);
        assert(r matches Ok(x) ==> x.states.len() <= budget && exists|subsets: Seq<Set<usize>>|
            determinized(self@, x@, subsets));
        r
    }
}

/// Once a prefix fails to merge, the whole listing fails to merge.
pub proof fn lemma_merge_all_none<A: Symbol, S>(states: Seq<StateView<A, S>>, idx: Seq<usize>, n: int)
    requires
        2 <= n <= idx.len(),
        merge_all(states, idx.take(n)) is None,
    ensures
        merge_all(states, idx) is None,
    decreases idx.len(),
{
    if n == idx.len() {
        assert(idx.take(n) =~= idx);
    } else {
        assert(idx.drop_last().take(n) =~= idx.take(n));
        lemma_merge_all_none(states, idx.drop_last(), n);
    }
}

} // verus!
