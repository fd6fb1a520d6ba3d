//! Why subset construction is sound: the deterministic automaton reaches the
//! verdict that the nondeterministic one reaches, and a deterministic
//! automaton survives generalizing and determinizing.

use crate::alphabet::{Alphabet, Symbol};
use crate::automaton::{
    automaton_wf, fired, fold_fuse, ordered, run_spec, top_of, AutomatonView,
    Deterministic, Nondeterministic,
};
use crate::curry_opt::{
    inner_for, key_index, keys_unique, layer_lookup, opt_merge, table_kinds_ok, table_lookup,
    table_merge, table_wf, CurryOptView, Layer,
};
use crate::edge::{fuse_views, in_bounds, stack_after, EdgeView};
use crate::range::Range;
use crate::state::StateView;
use crate::subc::{
    grows_to, layer_leads, leads_to, many_reachable, path_to, reachable,
    dead_view, determinized, distinct, dsts_listed, index_of, layer_listed, listed,
    merge_all, rename_edge, rename_layer, rename_opt, rename_state, rename_table,
};
use crate::wildcard::{
    entries_view, first_hit, keys_meet, layer_kinds_ok, lemma_first_hit, ranges_apart,
    wild_lookup, wild_merge, wild_wf, Wildcard, WildcardView,
};
use vstd::prelude::*;

verus! {

/// One side's edge, the other's, or their merge.
pub open spec fn opt_fuse<S>(x: Option<EdgeView<S>>, y: Option<EdgeView<S>>, single: bool) -> Option<
    EdgeView<S>,
> {
    match (x, y) {
        (None, _) => y,
        (_, None) => x,
        (Some(a), Some(b)) => fuse_views(a, b, single),
    }
}

/// The first hit in a concatenation is the first hit in the first part, or
/// else in the second.
pub proof fn lemma_first_hit_concat<A: Symbol, E>(u: Seq<(Range<A>, E)>, v: Seq<(Range<A>, E)>, t: A)
    ensures
        first_hit(u + v, t) == if first_hit(u, t) is Some {
            first_hit(u, t)
        } else {
            first_hit(v, t)
        },
    decreases v.len(),
{
    if v.len() == 0 {
        assert(u + v =~= u);
    } else {
        assert((u + v).drop_last() =~= u + v.drop_last());
        assert((u + v).last() == v.last());
        lemma_first_hit_concat(u, v.drop_last(), t);
    }
}

/// Looking a token up in merged layers gives the merge of the lookups.
pub proof fn lemma_wild_merge_lookup<A: Symbol, S>(
    a: WildcardView<A, S>,
    b: WildcardView<A, S>,
    single: bool,
    t: A,
)
    requires
        wild_merge(a, b, single) is Some,
    ensures
        wild_lookup(wild_merge(a, b, single).unwrap(), t) == opt_fuse(
            wild_lookup(a, t),
            wild_lookup(b, t),
            single,
        ),
        wild_lookup(a, t) is Some && wild_lookup(b, t) is Some ==> fuse_views(
            wild_lookup(a, t).unwrap(),
            wild_lookup(b, t).unwrap(),
            single,
        ) is Some,
{
    match (a, b) {
        (WildcardView::Any(x), WildcardView::Any(y)) => {},
        (WildcardView::Any(x), WildcardView::Specific(v)) => {
            assert(first_hit(v, t) is None);
        },
        (WildcardView::Specific(u), WildcardView::Any(y)) => {
            assert(first_hit(u, t) is None);
        },
        (WildcardView::Specific(u), WildcardView::Specific(v)) => {
            lemma_first_hit_concat(u, v, t);
            lemma_first_hit(u, t);
            lemma_first_hit(v, t);
            if first_hit(u, t) is Some && first_hit(v, t) is Some {
                let i = choose|i: int| 0 <= i < u.len() && u[i].0.has(t);
                let j = choose|j: int| 0 <= j < v.len() && v[j].0.has(t);
                assert(u[i].0.meets(&v[j].0));
                assert(!ranges_apart(u, v));
            }
        },
    }
}

/// Looking a token up in merged optional layers gives the merge of the lookups.
pub proof fn lemma_opt_merge_lookup<A: Symbol, S>(
    a: Option<WildcardView<A, S>>,
    b: Option<WildcardView<A, S>>,
    single: bool,
    t: A,
)
    requires
        opt_merge(a, b, single) is Some,
    ensures
        layer_lookup(opt_merge(a, b, single).unwrap(), t) == opt_fuse(
            layer_lookup(a, t),
            layer_lookup(b, t),
            single,
        ),
        layer_lookup(a, t) is Some && layer_lookup(b, t) is Some ==> fuse_views(
            layer_lookup(a, t).unwrap(),
            layer_lookup(b, t).unwrap(),
            single,
        ) is Some,
{
    match (a, b) {
        (Some(x), Some(y)) => lemma_wild_merge_lookup(x, y, single, t),
        _ => {},
    }
}

/// The layer stored under a key, if any.
pub open spec fn key_layer<A, S>(m: Seq<(S, WildcardView<A, S>)>, s: S) -> Option<WildcardView<A, S>> {
    match key_index(m, s) {
        Some(i) => Some(m[i].1),
        None => None,
    }
}

/// The key index depends on the keys alone.
pub proof fn lemma_key_index_same_keys<K, V, W>(m1: Seq<(K, V)>, m2: Seq<(K, W)>, k: K)
    requires
        m1.len() == m2.len(),
        forall|j: int| 0 <= j < m1.len() ==> m1[j].0 == m2[j].0,
    ensures
        key_index(m1, k) == key_index(m2, k),
    decreases m1.len(),
{
    if m1.len() > 0 {
        lemma_key_index_same_keys(m1.drop_last(), m2.drop_last(), k);
    }
}

/// Merging keyed maps merges the layers stored under each key.
pub proof fn lemma_keyed_merge_layers<A: Symbol, S>(
    a: Seq<(S, WildcardView<A, S>)>,
    b: Seq<(S, WildcardView<A, S>)>,
    single: bool,
    s: S,
)
    requires
        keys_unique(b),
        crate::curry_opt::keyed_merge(a, b, single) is Some,
    ensures
        opt_merge(key_layer(a, s), key_layer(b, s), single) == Some(
            key_layer(crate::curry_opt::keyed_merge(a, b, single).unwrap(), s),
        ),
    decreases b.len(),
{
    if b.len() == 0 {
        assert(key_layer(b, s) is None);
    } else {
        let b1 = b.drop_last();
        let k = b.last().0;
        let w = b.last().1;
        assert(keys_unique(b1)) by {
            assert forall|i: int, j: int| 0 <= i < j < b1.len() implies b1[i].0 != b1[j].0 by {
                assert(b1[i] == b[i] && b1[j] == b[j]);
            }
        }
        let m1 = crate::curry_opt::keyed_merge(a, b1, single).unwrap();
        let m = crate::curry_opt::keyed_merge(a, b, single).unwrap();
        lemma_keyed_merge_layers(a, b1, single, s);
        lemma_keyed_merge_layers(a, b1, single, k);
        crate::curry_opt::lemma_key_index(b1, k);
        crate::curry_opt::lemma_key_index(b1, s);
        assert(key_index(b1, k) is None) by {
            if key_index(b1, k) is Some {
                let j = key_index(b1, k).unwrap();
                assert(b[j].0 == b[b.len() - 1].0);
            }
        }
        assert forall|j: int| 0 <= j < b1.len() implies b1[j] == b[j] by {}
        crate::curry_opt::lemma_key_index(m1, k);
        crate::curry_opt::lemma_key_index(m1, s);
        match key_index(m1, k) {
            Some(i) => {
                let x = wild_merge(m1[i].1, w, single).unwrap();
                assert(m == m1.update(i, (k, x)));
                lemma_key_index_same_keys(m, m1, s);
                lemma_key_index_same_keys(m, m1, k);
            },
            None => {
                assert(m == m1.push((k, w)));
                assert(m.drop_last() =~= m1);
            },
        }
    }
}

/// Looking up in merged tables gives the merge of the lookups.
pub proof fn lemma_table_merge_lookup<A: Symbol, S>(
    a: CurryOptView<A, S>,
    b: CurryOptView<A, S>,
    single: bool,
    top: Option<S>,
    t: A,
)
    requires
        table_merge(a, b, single) is Some,
        keys_unique(b.some),
    ensures
        table_lookup(table_merge(a, b, single).unwrap(), top, t) == opt_fuse(
            table_lookup(a, top, t),
            table_lookup(b, top, t),
            single,
        ),
        table_lookup(a, top, t) is Some && table_lookup(b, top, t) is Some ==> fuse_views(
            table_lookup(a, top, t).unwrap(),
            table_lookup(b, top, t).unwrap(),
            single,
        ) is Some,
{
    let m = table_merge(a, b, single).unwrap();
    lemma_opt_merge_lookup(a.wildcard, b.wildcard, single, t);
    let ia = inner_for(a, top);
    let ib = inner_for(b, top);
    let im = inner_for(m, top);
    match top {
        None => {},
        Some(s) => {
            lemma_keyed_merge_layers(a.some, b.some, single, s);
        },
    }
    assert(opt_merge(ia, ib, single) == Some(im));
    lemma_opt_merge_lookup(ia, ib, single, t);
    let lw = layer_lookup(m.wildcard, t);
    if lw is Some {
        let wm = m.wildcard.unwrap();
        if im is Some {
            let inner = im.unwrap();
            match top {
                None => {},
                Some(s) => {
                    crate::curry_opt::lemma_key_index(m.some, s);
                    let i = key_index(m.some, s).unwrap();
                    assert(!keys_meet(wm, m.some[i].1));
                },
            }
            assert(!keys_meet(wm, inner));
            assert(!(wild_lookup(wm, t) is Some && wild_lookup(inner, t) is Some));
        }
    }
}

/// Every state's keyed layers have unique keys.
pub open spec fn unique_keys_everywhere<A, S>(states: Seq<StateView<A, S>>) -> bool {
    forall|i: int| 0 <= i < states.len() ==> keys_unique(#[trigger] states[i].transitions.some)
}

/// The merge of a non-empty set of states gives, for each key, the fold of
/// the edges that the states give one by one, and accepts where one of them
/// does.
pub proof fn lemma_merge_all_lookup<A: Symbol, S>(
    states: Seq<StateView<A, S>>,
    idx: Seq<usize>,
    top: Option<S>,
    t: A,
)
    requires
        idx.len() > 0,
        forall|j: int| 0 <= j < idx.len() ==> idx[j] < states.len(),
        unique_keys_everywhere(states),
        merge_all(states, idx) is Some,
    ensures
        fired(states, idx, top, t) matches Some(es) && (es.len() == 0 <==> table_lookup(
            merge_all(states, idx).unwrap().transitions,
            top,
            t,
        ) is None) && (es.len() > 0 ==> fold_fuse(es, false) == table_lookup(
            merge_all(states, idx).unwrap().transitions,
            top,
            t,
        )),
        merge_all(states, idx).unwrap().accepting == exists|j: int|
            0 <= j < idx.len() && (#[trigger] states[idx[j] as int]).accepting,
    decreases idx.len(),
{
    let m = merge_all(states, idx).unwrap();
    let w = idx.drop_last();
    let last = idx.last();
    assert(w.len() == 0 ==> fired(states, w, top, t) == Some(Seq::<EdgeView<S>>::empty()));
    if idx.len() == 1 {
        assert(last == idx[0]);
        match table_lookup(states[last as int].transitions, top, t) {
            Some(e) => {
                assert(Seq::<EdgeView<S>>::empty().push(e) =~= seq![e]);
            },
            None => {},
        }
        assert((exists|j: int| 0 <= j < idx.len() && (#[trigger] states[idx[j] as int]).accepting)
            == states[idx[0] as int].accepting);
    } else {
        assert forall|j: int| 0 <= j < w.len() implies w[j] < states.len() by {
            assert(w[j] == idx[j]);
        }
        lemma_merge_all_lookup(states, w, top, t);
        let m1 = merge_all(states, w).unwrap();
        let sl = states[last as int];
        assert(keys_unique(sl.transitions.some));
        lemma_table_merge_lookup(m1.transitions, sl.transitions, false, top, t);
        let es1 = fired(states, w, top, t).unwrap();
        match table_lookup(sl.transitions, top, t) {
            Some(e) => {
                let es = es1.push(e);
                assert(es.drop_last() =~= es1);
                if es1.len() == 0 {
                    assert(es =~= seq![e]);
                }
            },
            None => {},
        }
        assert((exists|j: int| 0 <= j < idx.len() && (#[trigger] states[idx[j] as int]).accepting)
            == ((exists|j: int| 0 <= j < w.len() && (#[trigger] states[w[j] as int]).accepting)
            || sl.accepting)) by {
            if exists|j: int| 0 <= j < idx.len() && (#[trigger] states[idx[j] as int]).accepting {
                let j = choose|j: int| 0 <= j < idx.len() && (#[trigger] states[idx[j] as int]).accepting;
                if j < w.len() {
                    assert(w[j] == idx[j]);
                }
            }
            if exists|j: int| 0 <= j < w.len() && (#[trigger] states[w[j] as int]).accepting {
                let j = choose|j: int| 0 <= j < w.len() && (#[trigger] states[w[j] as int]).accepting;
                assert(w[j] == idx[j]);
            }
        }
    }
}

/// The edge an optional edge becomes once renamed.
pub open spec fn rename_found<S>(e: Option<EdgeView<S>>, subsets: Seq<Set<usize>>) -> Option<EdgeView<S>> {
    match e {
        Some(x) => Some(rename_edge(x, subsets)),
        None => None,
    }
}

/// Renaming commutes with the first hit.
pub proof fn lemma_first_hit_rename<A: Symbol, S>(
    v: Seq<(Range<A>, EdgeView<S>)>,
    subsets: Seq<Set<usize>>,
    t: A,
)
    ensures
        first_hit(v.map_values(|p: (Range<A>, EdgeView<S>)| (p.0, rename_edge(p.1, subsets))), t)
            == rename_found(first_hit(v, t), subsets),
    decreases v.len(),
{
    let f = |p: (Range<A>, EdgeView<S>)| (p.0, rename_edge(p.1, subsets));
    if v.len() > 0 {
        assert(v.map_values(f).drop_last() =~= v.drop_last().map_values(f));
        lemma_first_hit_rename(v.drop_last(), subsets, t);
    }
}

/// Renaming commutes with looking up.
pub proof fn lemma_rename_lookup<A: Symbol, S>(
    c: CurryOptView<A, S>,
    subsets: Seq<Set<usize>>,
    top: Option<S>,
    t: A,
)
    ensures
        table_lookup(rename_table(c, subsets), top, t) == rename_found(table_lookup(c, top, t), subsets),
{
    let r = rename_table(c, subsets);
    if let Some(w) = c.wildcard {
        if let WildcardView::Specific(v) = w {
            lemma_first_hit_rename(v, subsets, t);
        }
    }
    let ic = inner_for(c, top);
    match top {
        None => {},
        Some(s) => {
            lemma_key_index_same_keys(r.some, c.some, s);
            crate::curry_opt::lemma_key_index(c.some, s);
            if let Some(i) = key_index(c.some, s) {
                assert(r.some[i] == (c.some[i].0, rename_layer(c.some[i].1, subsets)));
            }
        },
    }
    assert(inner_for(r, top) == rename_opt(ic, subsets));
    if let Some(w) = ic {
        if let WildcardView::Specific(v) = w {
            lemma_first_hit_rename(v, subsets, t);
        }
    }
}

/// An edge found in a table whose destinations are listed has a listed
/// destination.
pub proof fn lemma_found_listed<A: Symbol, S>(
    c: CurryOptView<A, S>,
    subsets: Seq<Set<usize>>,
    top: Option<S>,
    t: A,
)
    requires
        dsts_listed(c, subsets),
        table_lookup(c, top, t) is Some,
    ensures
        listed(subsets, table_lookup(c, top, t).unwrap().dst),
{
    let e = table_lookup(c, top, t).unwrap();
    if layer_lookup(c.wildcard, t) is Some {
        let w = c.wildcard.unwrap();
        if let WildcardView::Specific(v) = w {
            lemma_first_hit(v, t);
            let i = choose|i: int| 0 <= i < v.len() && v[i].0.has(t) && v[i].1 == e && forall|j: int|
                0 <= j < i ==> !v[j].0.has(t);
            assert(listed(subsets, v[i].1.dst));
        }
    } else {
        let inner = inner_for(c, top).unwrap();
        match top {
            None => {},
            Some(s) => {
                crate::curry_opt::lemma_key_index(c.some, s);
                let k = key_index(c.some, s).unwrap();
                assert(layer_listed(c.some[k].1, subsets));
            },
        }
        assert(layer_listed(inner, subsets));
        if let WildcardView::Specific(v) = inner {
            lemma_first_hit(v, t);
            let i = choose|i: int| 0 <= i < v.len() && v[i].0.has(t) && v[i].1 == e && forall|j: int|
                0 <= j < i ==> !v[j].0.has(t);
            assert(listed(subsets, v[i].1.dst));
        }
    }
}

/// The single index `q`, listed.
pub proof fn lemma_ordered_single(q: usize)
    ensures
        ordered(set![q]) == seq![q],
{
    assert(seq![q].to_set() =~= set![q]) by {
        assert(seq![q][0] == q);
    }
    crate::automaton::lemma_ordered(seq![q]);
}

/// A listing of the empty set is empty, and a listing of a non-empty set is not.
pub proof fn lemma_ordered_len(m: Set<usize>)
    requires
        ordered(m).to_set() == m,
    ensures
        m.is_empty() <==> ordered(m).len() == 0,
{
    if ordered(m).len() > 0 {
        assert(ordered(m).to_set().contains(ordered(m)[0]));
    }
    if !m.is_empty() {
        let x = choose|x: usize| m.contains(x);
        assert(ordered(m).to_set().contains(x));
    }
}

/// One step of the subset construction's simulation: from the subset listed
/// at `q`, the nondeterministic automaton and state `q` of the deterministic
/// one reach the same verdict.
pub proof fn lemma_simulation<A: Alphabet, S>(
    n: AutomatonView<A, S>,
    d: AutomatonView<A, S>,
    subsets: Seq<Set<usize>>,
    q: usize,
    stack: Seq<S>,
    w: Seq<A>,
)
    requires
        automaton_wf(n),
        determinized(n, d, subsets),
        q < subsets.len(),
    ensures
        run_spec(n, false, subsets[q as int], stack, w) == run_spec(d, true, set![q], stack, w),
    decreases w.len(),
{
    let sub = subsets[q as int];
    let idx = ordered(sub);
    let m = merge_all(n.states, idx).unwrap();
    let ctrl = set![q];
    assert(in_bounds(sub, n.states.len() as int));
    assert(d.states[q as int] == rename_state(m, subsets));
    assert(in_bounds(ctrl, d.states.len() as int));
    lemma_ordered_len(sub);
    lemma_ordered_single(q);
    assert(unique_keys_everywhere(n.states)) by {
        assert forall|i: int| 0 <= i < n.states.len() implies keys_unique(
            #[trigger] n.states[i].transitions.some,
        ) by {
            assert(table_wf(n.states[i].transitions, n.states.len() as int));
        }
    }
    assert forall|j: int| 0 <= j < idx.len() implies idx[j] < n.states.len() by {
        assert(idx.to_set().contains(idx[j]));
    }
    if sub.is_empty() {
        assert(idx =~= Seq::<usize>::empty());
        assert(m == dead_view::<A, S>());
        if w.len() == 0 {
            assert(!exists|i: usize| sub.contains(i) && n.states[i as int].accepting);
            assert(!exists|i: usize| ctrl.contains(i) && d.states[i as int].accepting);
        } else {
            let t = w[0];
            let top = top_of(stack);
            assert(fired(n.states, idx, top, t) == Some(Seq::<EdgeView<S>>::empty()));
            lemma_rename_lookup(m.transitions, subsets, top, t);
            assert(d.states[q as int].transitions == rename_table(m.transitions, subsets));
            assert(table_lookup(m.transitions, top, t) is None);
            assert(seq![q].drop_last() =~= Seq::<usize>::empty());
            assert(seq![q].last() == q);
            assert(fired(d.states, Seq::<usize>::empty(), top, t) == Some(Seq::<EdgeView<S>>::empty()));
            assert(fired(d.states, seq![q], top, t) == Some(Seq::<EdgeView<S>>::empty()));
        }
    } else if w.len() == 0 {
        lemma_merge_all_lookup(n.states, idx, None, arbitrary());
        assert((exists|i: usize| sub.contains(i) && n.states[i as int].accepting) == (exists|i: usize|
            ctrl.contains(i) && d.states[i as int].accepting)) by {
            if exists|i: usize| sub.contains(i) && n.states[i as int].accepting {
                let i = choose|i: usize| sub.contains(i) && n.states[i as int].accepting;
                assert(idx.to_set().contains(i));
                let j = choose|j: int| 0 <= j < idx.len() && idx[j] == i;
                assert(n.states[idx[j] as int].accepting);
                assert(ctrl.contains(q));
            }
            if exists|i: usize| ctrl.contains(i) && d.states[i as int].accepting {
                assert(d.states[q as int].accepting);
                let j = choose|j: int| 0 <= j < idx.len() && (#[trigger] n.states[idx[j] as int]).accepting;
                assert(idx.to_set().contains(idx[j]));
            }
        }
    } else {
        let t = w[0];
        let top = top_of(stack);
        lemma_merge_all_lookup(n.states, idx, top, t);
        lemma_rename_lookup(m.transitions, subsets, top, t);
        let es = fired(n.states, idx, top, t).unwrap();
        assert(seq![q].drop_last() =~= Seq::<usize>::empty());
        assert(seq![q].last() == q);
        assert(fired(d.states, Seq::<usize>::empty(), top, t) == Some(Seq::<EdgeView<S>>::empty()));
        assert(d.states[q as int].transitions == rename_table(m.transitions, subsets));
        match table_lookup(m.transitions, top, t) {
            None => {
                assert(fired(d.states, seq![q], top, t) == Some(Seq::<EdgeView<S>>::empty()));
            },
            Some(e) => {
                let e2 = rename_edge(e, subsets);
                assert(fired(d.states, seq![q], top, t) == Some(seq![e2])) by {
                    assert(Seq::<EdgeView<S>>::empty().push(e2) =~= seq![e2]);
                }
                assert(fold_fuse(seq![e2], true) == Some(e2));
                if e.kind == t.kind_of() {
                    match stack_after(e, stack) {
                        None => {},
                        Some(st2) => {
                            assert(stack_after(e2, stack) == Some(st2));
                            lemma_found_listed(m.transitions, subsets, top, t);
                            let q2 = index_of(subsets, e.dst);
                            assert(0 <= q2 < subsets.len() && subsets[q2] == e.dst);
                            assert(e2.dst == set![q2 as usize]);
                            lemma_simulation(n, d, subsets, q2 as usize, st2, w.drop_first());
                        },
                    }
                }
            },
        }
    }
}

/// Subset construction is sound: where `determinize` turned `n` into `d`,
/// both reach the same verdict on every input `w` (both accept, both reject,
/// or both find the automaton ill-formed).
pub proof fn lemma_subset_construction_sound<A: Alphabet, S: Symbol>(
    n: Nondeterministic<A, S>,
    d: Deterministic<A, S>,
    w: Seq<A>,
)
    requires
        automaton_wf(n@),
        exists|subsets: Seq<Set<usize>>| determinized(n@, d@, subsets),
    ensures
        run_spec(n@, false, n@.initial, Seq::empty(), w) == run_spec(
            d@,
            true,
            d@.initial,
            Seq::empty(),
            w,
        ),
{
    let subsets = choose|subsets: Seq<Set<usize>>| determinized(n@, d@, subsets);
    lemma_simulation(n@, d@, subsets, 0, Seq::empty(), w);
}

/// Every edge that a table gives has exactly one destination.
pub open spec fn single_dsts<A: Symbol, S>(a: AutomatonView<A, S>) -> bool {
    forall|i: int, top: Option<S>, t: A|
        0 <= i < a.states.len() ==> (#[trigger] table_lookup(a.states[i].transitions, top, t) matches Some(
            e,
        ) ==> exists|j: usize| e.dst == set![j])
}

/// A layer of a deterministic automaton gives edges with one destination.
pub proof fn lemma_layer_single<A: Symbol, S: Symbol>(w: Layer<A, S, usize>, t: A)
    ensures
        wild_lookup(w@, t) matches Some(e) ==> exists|j: usize| e.dst == set![j],
{
    match w {
        Wildcard::Any(x) => {
            assert(x.0@.dst == set![x.0.target()]);
        },
        Wildcard::Specific(v) => {
            let ev = entries_view(v@);
            lemma_first_hit(ev, t);
            if first_hit(ev, t) is Some {
                let i = choose|i: int|
                    0 <= i < ev.len() && ev[i].0.has(t) && ev[i].1 == first_hit(ev, t).unwrap()
                        && forall|j: int| 0 <= j < i ==> !ev[j].0.has(t);
                assert(ev[i].1 == v@[i].1.0@);
                assert(v@[i].1.0@.dst == set![v@[i].1.0.target()]);
            }
        },
    }
}

/// Every edge of a deterministic automaton has exactly one destination.
pub proof fn lemma_det_single_dsts<A: Symbol, S: Symbol>(d: Deterministic<A, S>)
    ensures
        single_dsts(d@),
{
    assert forall|i: int, top: Option<S>, t: A| 0 <= i < d@.states.len() implies (
    #[trigger] table_lookup(d@.states[i].transitions, top, t) matches Some(e) ==> exists|j: usize|
        e.dst == set![j]) by {
        let c = d.states@[i].transitions;
        assert(d@.states[i].transitions == c@);
        if let Some(w) = c.wildcard {
            lemma_layer_single(w, t);
        }
        match top {
            None => {
                if let Some(n) = c.none {
                    lemma_layer_single(n, t);
                }
            },
            Some(s) => {
                crate::curry_opt::lemma_key_index(c@.some, s);
                if let Some(k) = key_index(c@.some, s) {
                    assert(c@.some[k].1 == c.some@[k].1@);
                    lemma_layer_single(c.some@[k].1, t);
                }
            },
        }
    }
}

/// Where every edge has one destination, a run from one state does not
/// depend on whether controls are single or sets.
pub proof fn lemma_single_run<A: Alphabet, S>(a: AutomatonView<A, S>, i: usize, stack: Seq<S>, w: Seq<A>)
    requires
        single_dsts(a),
    ensures
        run_spec(a, true, set![i], stack, w) == run_spec(a, false, set![i], stack, w),
    decreases w.len(),
{
    assert(set![i].contains(i));
    if w.len() > 0 {
        let t = w[0];
        let top = top_of(stack);
        lemma_ordered_single(i);
        assert(seq![i].drop_last() =~= Seq::<usize>::empty());
        assert(seq![i].last() == i);
        assert(fired(a.states, Seq::<usize>::empty(), top, t) == Some(Seq::<EdgeView<S>>::empty()));
        if i < a.states.len() {
            match table_lookup(a.states[i as int].transitions, top, t) {
                None => {},
                Some(e) => {
                    assert(Seq::<EdgeView<S>>::empty().push(e) =~= seq![e]);
                    assert(fold_fuse(seq![e], true) == Some(e));
                    assert(fold_fuse(seq![e], false) == Some(e));
                    if e.kind == t.kind_of() {
                        match stack_after(e, stack) {
                            None => {},
                            Some(st2) => {
                                let j = choose|j: usize| e.dst == set![j];
                                lemma_single_run(a, j, st2, w.drop_first());
                            },
                        }
                    }
                },
            }
        }
    }
}

/// A deterministic automaton, generalized and then determinized, reaches the
/// same verdict as before on every input.
pub proof fn lemma_generalize_determinize<A: Alphabet, S: Symbol>(
    d: Deterministic<A, S>,
    g: Nondeterministic<A, S>,
    dd: Deterministic<A, S>,
    w: Seq<A>,
)
    requires
        g@ == d@,
        automaton_wf(g@),
        exists|subsets: Seq<Set<usize>>| determinized(g@, dd@, subsets),
    ensures
        run_spec(d@, true, d@.initial, Seq::empty(), w) == run_spec(
            dd@,
            true,
            dd@.initial,
            Seq::empty(),
            w,
        ),
{
    lemma_det_single_dsts(d);
    assert(d@.initial == set![d.initial]);
    lemma_single_run(d@, d.initial, Seq::empty(), w);
    lemma_subset_construction_sound(g, dd, w);
}

/// Merging well-formed layers gives a well-formed layer.
pub proof fn lemma_wild_merge_wf<A: Symbol, S>(
    a: WildcardView<A, S>,
    b: WildcardView<A, S>,
    single: bool,
    size: int,
)
    requires
        wild_merge(a, b, single) is Some,
        wild_wf(a, size),
        wild_wf(b, size),
    ensures
        wild_wf(wild_merge(a, b, single).unwrap(), size),
{
    match (a, b) {
        (WildcardView::Specific(u), WildcardView::Specific(v)) => {
            let w = u + v;
            assert forall|i: int, j: int| 0 <= i < j < w.len() implies !w[i].0.meets(&w[j].0) by {
                if j < u.len() {
                } else if i < u.len() {
                    assert(w[j] == v[j - u.len()]);
                } else {
                    assert(w[i] == v[i - u.len()]);
                    assert(w[j] == v[j - u.len()]);
                }
            }
            assert forall|i: int| 0 <= i < w.len() implies in_bounds(#[trigger] w[i].1.dst, size) by {
                if i >= u.len() {
                    assert(w[i] == v[i - u.len()]);
                }
            }
        },
        _ => {},
    }
}

/// Merging keyed maps with unique keys and well-formed layers keeps both.
pub proof fn lemma_keyed_merge_wf<A: Symbol, S>(
    a: Seq<(S, WildcardView<A, S>)>,
    b: Seq<(S, WildcardView<A, S>)>,
    single: bool,
    size: int,
)
    requires
        crate::curry_opt::keyed_merge(a, b, single) is Some,
        keys_unique(a),
        forall|i: int| 0 <= i < a.len() ==> wild_wf(#[trigger] a[i].1, size),
        forall|i: int| 0 <= i < b.len() ==> wild_wf(#[trigger] b[i].1, size),
    ensures
        keys_unique(crate::curry_opt::keyed_merge(a, b, single).unwrap()),
        forall|i: int|
            0 <= i < crate::curry_opt::keyed_merge(a, b, single).unwrap().len() ==> wild_wf(
                #[trigger] crate::curry_opt::keyed_merge(a, b, single).unwrap()[i].1,
                size,
            ),
    decreases b.len(),
{
    if b.len() > 0 {
        let b1 = b.drop_last();
        assert forall|i: int| 0 <= i < b1.len() implies wild_wf(#[trigger] b1[i].1, size) by {
            assert(b1[i] == b[i]);
        }
        lemma_keyed_merge_wf(a, b1, single, size);
        let m1 = crate::curry_opt::keyed_merge(a, b1, single).unwrap();
        let m = crate::curry_opt::keyed_merge(a, b, single).unwrap();
        let e = b.last();
        assert(wild_wf(b[b.len() - 1].1, size));
        crate::curry_opt::lemma_key_index(m1, e.0);
        match key_index(m1, e.0) {
            Some(i) => {
                let x = wild_merge(m1[i].1, e.1, single).unwrap();
                lemma_wild_merge_wf(m1[i].1, e.1, single, size);
                assert(m == m1.update(i, (e.0, x)));
            },
            None => {
                assert(m == m1.push(e));
            },
        }
    }
}

/// Merging well-formed tables gives a well-formed table.
pub proof fn lemma_table_merge_wf<A: Symbol, S>(
    a: CurryOptView<A, S>,
    b: CurryOptView<A, S>,
    single: bool,
    size: int,
)
    requires
        table_merge(a, b, single) is Some,
        table_wf(a, size),
        table_wf(b, size),
    ensures
        table_wf(table_merge(a, b, single).unwrap(), size),
{
    if let (Some(x), Some(y)) = (a.wildcard, b.wildcard) {
        lemma_wild_merge_wf(x, y, single, size);
    }
    if let (Some(x), Some(y)) = (a.none, b.none) {
        lemma_wild_merge_wf(x, y, single, size);
    }
    lemma_keyed_merge_wf(a.some, b.some, single, size);
}

/// The merge of well-formed states is well-formed.
pub proof fn lemma_merge_all_wf<A: Symbol, S>(states: Seq<StateView<A, S>>, idx: Seq<usize>, size: int)
    requires
        merge_all(states, idx) is Some,
        forall|j: int| 0 <= j < idx.len() ==> idx[j] < states.len(),
        forall|i: int| 0 <= i < states.len() ==> table_wf(#[trigger] states[i].transitions, size),
    ensures
        table_wf(merge_all(states, idx).unwrap().transitions, size),
    decreases idx.len(),
{
    if idx.len() == 0 {
        let d = dead_view::<A, S>().transitions;
        assert(d.some =~= Seq::<(S, WildcardView<A, S>)>::empty());
    } else if idx.len() > 1 {
        let w = idx.drop_last();
        assert forall|j: int| 0 <= j < w.len() implies w[j] < states.len() by {
            assert(w[j] == idx[j]);
        }
        lemma_merge_all_wf(states, w, size);
        assert(table_wf(states[idx.last() as int].transitions, size));
        lemma_table_merge_wf(
            merge_all(states, w).unwrap().transitions,
            states[idx.last() as int].transitions,
            false,
            size,
        );
    } else {
        assert(table_wf(states[idx[0] as int].transitions, size));
    }
}

/// Renaming keeps a layer well-formed, with subset indices as destinations.
pub proof fn lemma_rename_layer_wf<A: Symbol, S>(
    w: WildcardView<A, S>,
    subsets: Seq<Set<usize>>,
    size: int,
)
    requires
        wild_wf(w, size),
        layer_listed(w, subsets),
    ensures
        wild_wf(rename_layer(w, subsets), subsets.len() as int),
{
    match w {
        WildcardView::Any(e) => {
            let k = index_of(subsets, e.dst);
            assert(0 <= k < subsets.len());
        },
        WildcardView::Specific(v) => {
            let r = v.map_values(|p: (Range<A>, EdgeView<S>)| (p.0, rename_edge(p.1, subsets)));
            assert forall|i: int, j: int| 0 <= i < j < r.len() implies !r[i].0.meets(&r[j].0) by {
                assert(r[i].0 == v[i].0 && r[j].0 == v[j].0);
            }
            assert forall|i: int| 0 <= i < r.len() implies in_bounds(
                #[trigger] r[i].1.dst,
                subsets.len() as int,
            ) by {
                assert(listed(subsets, v[i].1.dst));
                let k = index_of(subsets, v[i].1.dst);
                assert(0 <= k < subsets.len());
            }
        },
    }
}

/// Renaming keeps which tokens a layer matches.
pub proof fn lemma_rename_keys<A: Symbol, S>(w: WildcardView<A, S>, subsets: Seq<Set<usize>>, t: A)
    ensures
        (wild_lookup(rename_layer(w, subsets), t) is Some) == (wild_lookup(w, t) is Some),
{
    if let WildcardView::Specific(v) = w {
        lemma_first_hit_rename(v, subsets, t);
    }
}

/// Renaming keeps a table well-formed, with subset indices as destinations.
pub proof fn lemma_rename_table_wf<A: Symbol, S>(
    c: CurryOptView<A, S>,
    subsets: Seq<Set<usize>>,
    size: int,
)
    requires
        table_wf(c, size),
        dsts_listed(c, subsets),
    ensures
        table_wf(rename_table(c, subsets), subsets.len() as int),
{
    let r = rename_table(c, subsets);
    let n = subsets.len() as int;
    if let Some(w) = c.wildcard {
        lemma_rename_layer_wf(w, subsets, size);
    }
    if let Some(x) = c.none {
        lemma_rename_layer_wf(x, subsets, size);
    }
    assert forall|i: int| 0 <= i < r.some.len() implies wild_wf(#[trigger] r.some[i].1, n) by {
        assert(r.some[i].1 == rename_layer(c.some[i].1, subsets));
        lemma_rename_layer_wf(c.some[i].1, subsets, size);
    }
    assert forall|i: int, j: int| 0 <= i < j < r.some.len() implies r.some[i].0 != r.some[j].0 by {
        assert(r.some[i].0 == c.some[i].0 && r.some[j].0 == c.some[j].0);
    }
    if let Some(w) = c.wildcard {
        let rw = rename_layer(w, subsets);
        if let Some(x) = c.none {
            assert forall|t: A| !(wild_lookup(rw, t) is Some && wild_lookup(rename_layer(x, subsets), t) is Some) by {
                lemma_rename_keys(w, subsets, t);
                lemma_rename_keys(x, subsets, t);
            }
        }
        assert forall|i: int| 0 <= i < r.some.len() implies !keys_meet(rw, #[trigger] r.some[i].1) by {
            assert(r.some[i].1 == rename_layer(c.some[i].1, subsets));
            assert(!keys_meet(w, c.some[i].1));
            assert forall|t: A| !(wild_lookup(rw, t) is Some && wild_lookup(r.some[i].1, t) is Some) by {
                lemma_rename_keys(w, subsets, t);
                lemma_rename_keys(c.some[i].1, subsets, t);
            }
        }
    }
}

/// Merging layers that agree with their tokens' kinds gives such a layer.
pub proof fn lemma_wild_merge_kinds<A: Alphabet, S>(
    a: WildcardView<A, S>,
    b: WildcardView<A, S>,
    single: bool,
)
    requires
        wild_merge(a, b, single) is Some,
        layer_kinds_ok(a),
        layer_kinds_ok(b),
    ensures
        layer_kinds_ok(wild_merge(a, b, single).unwrap()),
{
    if let (WildcardView::Specific(u), WildcardView::Specific(v)) = (a, b) {
        let w = u + v;
        assert forall|i: int, t: A|
            #![trigger w[i], t.kind_of()]
            0 <= i < w.len() && w[i].0.has(t) implies t.kind_of() == w[i].1.kind by {
            if i < u.len() {
                assert(w[i] == u[i]);
            } else {
                assert(w[i] == v[i - u.len()]);
            }
        }
    }
}

/// Merging keyed maps whose layers agree with kinds gives such a map.
pub proof fn lemma_keyed_merge_kinds<A: Alphabet, S>(
    a: Seq<(S, WildcardView<A, S>)>,
    b: Seq<(S, WildcardView<A, S>)>,
    single: bool,
)
    requires
        crate::curry_opt::keyed_merge(a, b, single) is Some,
        forall|i: int| 0 <= i < a.len() ==> layer_kinds_ok(#[trigger] a[i].1),
        forall|i: int| 0 <= i < b.len() ==> layer_kinds_ok(#[trigger] b[i].1),
    ensures
        forall|i: int|
            0 <= i < crate::curry_opt::keyed_merge(a, b, single).unwrap().len() ==> layer_kinds_ok(
                #[trigger] crate::curry_opt::keyed_merge(a, b, single).unwrap()[i].1,
            ),
    decreases b.len(),
{
    if b.len() > 0 {
        let b1 = b.drop_last();
        assert forall|i: int| 0 <= i < b1.len() implies layer_kinds_ok(#[trigger] b1[i].1) by {
            assert(b1[i] == b[i]);
        }
        lemma_keyed_merge_kinds(a, b1, single);
        let m1 = crate::curry_opt::keyed_merge(a, b1, single).unwrap();
        let m = crate::curry_opt::keyed_merge(a, b, single).unwrap();
        let e = b.last();
        assert(layer_kinds_ok(b[b.len() - 1].1));
        match key_index(m1, e.0) {
            Some(i) => {
                crate::curry_opt::lemma_key_index(m1, e.0);
                let x = wild_merge(m1[i].1, e.1, single).unwrap();
                lemma_wild_merge_kinds(m1[i].1, e.1, single);
                assert(m == m1.update(i, (e.0, x)));
            },
            None => {
                assert(m == m1.push(e));
            },
        }
    }
}

/// Merging tables that agree with kinds gives such a table.
pub proof fn lemma_table_merge_kinds<A: Alphabet, S>(
    a: CurryOptView<A, S>,
    b: CurryOptView<A, S>,
    single: bool,
)
    requires
        table_merge(a, b, single) is Some,
        table_kinds_ok(a),
        table_kinds_ok(b),
    ensures
        table_kinds_ok(table_merge(a, b, single).unwrap()),
{
    if let (Some(x), Some(y)) = (a.wildcard, b.wildcard) {
        lemma_wild_merge_kinds(x, y, single);
    }
    if let (Some(x), Some(y)) = (a.none, b.none) {
        lemma_wild_merge_kinds(x, y, single);
    }
    lemma_keyed_merge_kinds(a.some, b.some, single);
}

/// The merge of states that agree with kinds agrees with kinds.
pub proof fn lemma_merge_all_kinds<A: Alphabet, S>(states: Seq<StateView<A, S>>, idx: Seq<usize>)
    requires
        merge_all(states, idx) is Some,
        forall|j: int| 0 <= j < idx.len() ==> idx[j] < states.len(),
        forall|i: int| 0 <= i < states.len() ==> table_kinds_ok(#[trigger] states[i].transitions),
    ensures
        table_kinds_ok(merge_all(states, idx).unwrap().transitions),
    decreases idx.len(),
{
    if idx.len() > 1 {
        let w = idx.drop_last();
        assert forall|j: int| 0 <= j < w.len() implies w[j] < states.len() by {
            assert(w[j] == idx[j]);
        }
        lemma_merge_all_kinds(states, w);
        assert(table_kinds_ok(states[idx.last() as int].transitions));
        lemma_table_merge_kinds(
            merge_all(states, w).unwrap().transitions,
            states[idx.last() as int].transitions,
            false,
        );
    } else if idx.len() == 1 {
        assert(table_kinds_ok(states[idx[0] as int].transitions));
    }
}

/// Renaming keeps a layer's agreement with kinds.
pub proof fn lemma_rename_layer_kinds<A: Alphabet, S>(w: WildcardView<A, S>, subsets: Seq<Set<usize>>)
    requires
        layer_kinds_ok(w),
    ensures
        layer_kinds_ok(rename_layer(w, subsets)),
{
    if let WildcardView::Specific(v) = w {
        let r = v.map_values(|p: (Range<A>, EdgeView<S>)| (p.0, rename_edge(p.1, subsets)));
        assert forall|i: int, t: A|
            #![trigger r[i], t.kind_of()]
            0 <= i < r.len() && r[i].0.has(t) implies t.kind_of() == r[i].1.kind by {
            assert(r[i].0 == v[i].0 && r[i].1.kind == v[i].1.kind);
        }
    }
}

/// The subset construction of a well-formed automaton is well-formed.
pub proof fn lemma_determinized_wf<A: Alphabet, S>(
    n: AutomatonView<A, S>,
    d: AutomatonView<A, S>,
    subsets: Seq<Set<usize>>,
)
    requires
        automaton_wf(n),
        determinized(n, d, subsets),
    ensures
        automaton_wf(d),
{
    assert forall|k: int| 0 <= k < d.states.len() implies table_wf(
        #[trigger] d.states[k].transitions,
        d.states.len() as int,
    ) && table_kinds_ok(d.states[k].transitions) by {
        let idx = ordered(subsets[k]);
        assert forall|j: int| 0 <= j < idx.len() implies idx[j] < n.states.len() by {
            assert(idx.to_set().contains(idx[j]));
        }
        assert forall|i: int| 0 <= i < n.states.len() implies table_wf(
            #[trigger] n.states[i].transitions,
            n.states.len() as int,
        ) by {}
        assert forall|i: int| 0 <= i < n.states.len() implies table_kinds_ok(
            #[trigger] n.states[i].transitions,
        ) by {}
        lemma_merge_all_wf(n.states, idx, n.states.len() as int);
        lemma_merge_all_kinds(n.states, idx);
        let m = merge_all(n.states, idx).unwrap();
        lemma_rename_table_wf(m.transitions, subsets, n.states.len() as int);
        let c = m.transitions;
        let r = rename_table(c, subsets);
        if let Some(w) = c.wildcard {
            lemma_rename_layer_kinds(w, subsets);
        }
        if let Some(x) = c.none {
            lemma_rename_layer_kinds(x, subsets);
        }
        assert forall|i: int| 0 <= i < r.some.len() implies layer_kinds_ok(#[trigger] r.some[i].1) by {
            assert(r.some[i].1 == rename_layer(c.some[i].1, subsets));
            lemma_rename_layer_kinds(c.some[i].1, subsets);
        }
    }
}

/// The edge a layer gives for a token agrees with the token's kind and has
/// its destinations below `size`.
pub proof fn lemma_layer_found_sound<A: Alphabet, S>(w: WildcardView<A, S>, size: int, t: A)
    requires
        wild_wf(w, size),
        layer_kinds_ok(w),
        wild_lookup(w, t) is Some,
    ensures
        wild_lookup(w, t).unwrap().kind == t.kind_of(),
        in_bounds(wild_lookup(w, t).unwrap().dst, size),
{
    if let WildcardView::Specific(v) = w {
        lemma_first_hit(v, t);
        let i = choose|i: int|
            0 <= i < v.len() && v[i].0.has(t) && v[i].1 == first_hit(v, t).unwrap() && forall|j: int|
                0 <= j < i ==> !v[j].0.has(t);
        assert(v[i].0.has(t) ==> t.kind_of() == v[i].1.kind);
        assert(in_bounds(v[i].1.dst, size));
    }
}

/// The edge a well-formed table gives for a token agrees with the token's
/// kind and has its destinations below `size`.
pub proof fn lemma_found_sound<A: Alphabet, S>(c: CurryOptView<A, S>, size: int, top: Option<S>, t: A)
    requires
        table_wf(c, size),
        table_kinds_ok(c),
        table_lookup(c, top, t) is Some,
    ensures
        table_lookup(c, top, t).unwrap().kind == t.kind_of(),
        in_bounds(table_lookup(c, top, t).unwrap().dst, size),
{
    if layer_lookup(c.wildcard, t) is Some {
        lemma_layer_found_sound(c.wildcard.unwrap(), size, t);
    } else {
        match top {
            None => {
                lemma_layer_found_sound(c.none.unwrap(), size, t);
            },
            Some(s) => {
                crate::curry_opt::lemma_key_index(c.some, s);
                let k = key_index(c.some, s).unwrap();
                assert(wild_wf(c.some[k].1, size));
                assert(layer_kinds_ok(c.some[k].1));
                lemma_layer_found_sound(c.some[k].1, size, t);
            },
        }
    }
}

/// A well-formed deterministic automaton never finds itself ill-formed
/// while running.
pub proof fn lemma_det_run_total<A: Alphabet, S>(a: AutomatonView<A, S>, i: usize, stack: Seq<S>, w: Seq<A>)
    requires
        automaton_wf(a),
        single_dsts(a),
        i < a.states.len(),
    ensures
        run_spec(a, true, set![i], stack, w) is Some,
    decreases w.len(),
{
    assert(set![i].contains(i));
    assert(in_bounds(set![i], a.states.len() as int));
    if w.len() > 0 {
        let t = w[0];
        let top = top_of(stack);
        lemma_ordered_single(i);
        assert(seq![i].drop_last() =~= Seq::<usize>::empty());
        assert(seq![i].last() == i);
        assert(fired(a.states, Seq::<usize>::empty(), top, t) == Some(Seq::<EdgeView<S>>::empty()));
        match table_lookup(a.states[i as int].transitions, top, t) {
            None => {},
            Some(e) => {
                assert(table_wf(a.states[i as int].transitions, a.states.len() as int));
                assert(table_kinds_ok(a.states[i as int].transitions));
                lemma_found_sound(a.states[i as int].transitions, a.states.len() as int, top, t);
                assert(Seq::<EdgeView<S>>::empty().push(e) =~= seq![e]);
                assert(fold_fuse(seq![e], true) == Some(e));
                match stack_after(e, stack) {
                    None => {},
                    Some(st2) => {
                        let j = choose|j: usize| e.dst == set![j];
                        assert(e.dst.contains(j));
                        lemma_det_run_total(a, j, st2, w.drop_first());
                    },
                }
            },
        }
    }
}

/// A nondeterministic automaton that determinizes never finds itself
/// ill-formed while running, on any input.
pub proof fn lemma_determinized_runs_clean<A: Alphabet, S: Symbol>(
    n: Nondeterministic<A, S>,
    d: Deterministic<A, S>,
    w: Seq<A>,
)
    requires
        automaton_wf(n@),
        exists|subsets: Seq<Set<usize>>| determinized(n@, d@, subsets),
    ensures
        run_spec(n@, false, n@.initial, Seq::empty(), w) is Some,
{
    let subsets = choose|subsets: Seq<Set<usize>>| determinized(n@, d@, subsets);
    lemma_determinized_wf(n@, d@, subsets);
    lemma_det_single_dsts(d);
    lemma_subset_construction_sound(n, d, w);
    assert(d@.initial == set![d.initial]);
    assert(d@.initial == set![0usize]);
    lemma_det_run_total(d@, 0, Seq::empty(), w);
}

/// An edge of a deterministic layer leads to a single state.
pub proof fn lemma_layer_leads_single<A: Symbol, S: Symbol>(w: Layer<A, S, usize>, s: Set<usize>)
    requires
        layer_leads(w@, s),
    ensures
        exists|j: usize| s == set![j],
{
    match w {
        Wildcard::Any(x) => {
            assert(x.0@.dst == set![x.0.target()]);
        },
        Wildcard::Specific(v) => {
            let ev = entries_view(v@);
            let i = choose|i: int| 0 <= i < ev.len() && ev[i].1.dst == s;
            assert(ev[i].1 == v@[i].1.0@);
            assert(v@[i].1.0@.dst == set![v@[i].1.0.target()]);
        },
    }
}

/// An edge of a well-formed deterministic table leads to a single state
/// below `size`.
pub proof fn lemma_table_leads_single<A: Symbol, S: Symbol>(
    c: crate::curry_opt::CurryOpt<S, Layer<A, S, usize>>,
    size: int,
    s: Set<usize>,
)
    requires
        table_wf(c@, size),
        leads_to(c@, s),
    ensures
        exists|j: usize| j < size && s == set![j],
{
    if c@.wildcard is Some && layer_leads(c@.wildcard.unwrap(), s) {
        lemma_layer_leads_single(c.wildcard.unwrap(), s);
        lemma_layer_leads_in_bounds(c@.wildcard.unwrap(), size, s);
    } else if c@.none is Some && layer_leads(c@.none.unwrap(), s) {
        lemma_layer_leads_single(c.none.unwrap(), s);
        lemma_layer_leads_in_bounds(c@.none.unwrap(), size, s);
    } else {
        let i = choose|i: int| 0 <= i < c@.some.len() && layer_leads(#[trigger] c@.some[i].1, s);
        assert(c@.some[i].1 == c.some@[i].1@);
        lemma_layer_leads_single(c.some@[i].1, s);
        assert(wild_wf(c@.some[i].1, size));
        lemma_layer_leads_in_bounds(c@.some[i].1, size, s);
    }
    let j = choose|j: usize| s == set![j];
    assert(s.contains(j));
}

/// An edge of a well-formed layer leads to states below `size`.
pub proof fn lemma_layer_leads_in_bounds<A: Symbol, S>(w: WildcardView<A, S>, size: int, s: Set<usize>)
    requires
        wild_wf(w, size),
        layer_leads(w, s),
    ensures
        in_bounds(s, size),
{
    if let WildcardView::Specific(v) = w {
        let i = choose|i: int| 0 <= i < v.len() && v[i].1.dst == s;
        assert(in_bounds(v[i].1.dst, size));
    }
}

/// Every set that subset construction reaches in a well-formed deterministic
/// automaton is a single state.
pub proof fn lemma_path_single<A: Alphabet, S: Symbol>(d: Deterministic<A, S>, path: Seq<Set<usize>>, s: Set<usize>)
    requires
        automaton_wf(d@),
        path_to(d@, path, s),
    ensures
        exists|j: usize| j < d@.states.len() && s == set![j],
    decreases path.len(),
{
    if path.len() == 1 {
        assert(d@.initial == set![d.initial]);
        assert(d@.initial.contains(d.initial));
    } else {
        let prefix = path.drop_last();
        let p = prefix.last();
        assert forall|i: int| 0 <= i < prefix.len() - 1 implies grows_to(d@, #[trigger] prefix[i], prefix[i + 1]) by {
            assert(prefix[i] == path[i] && prefix[i + 1] == path[i + 1]);
        }
        assert(path_to(d@, prefix, p));
        lemma_path_single(d, prefix, p);
        let i = choose|i: usize| i < d@.states.len() && p == set![i];
        assert(grows_to(d@, path[path.len() - 2], path[path.len() - 1]));
        lemma_ordered_single(i);
        assert(seq![i].len() == 1);
        let st = d.states@[i as int];
        assert(d@.states[i as int] == st@);
        assert(table_wf(d@.states[i as int].transitions, d@.states.len() as int));
        lemma_table_leads_single(st.transitions, d@.states.len() as int, s);
    }
}

/// `x` holds exactly one state, below `n`.
pub open spec fn single_below(x: Set<usize>, n: int) -> bool {
    exists|j: usize| j < n && x == set![j]
}

/// Distinct single-state sets below `n` number at most `n`.
pub proof fn lemma_few_singletons(ss: Seq<Set<usize>>, n: int)
    requires
        0 <= n,
        distinct(ss),
        forall|k: int| 0 <= k < ss.len() ==> single_below(#[trigger] ss[k], n),
    ensures
        ss.len() <= n,
{
    let f = |j: int| set![j as usize];
    let dom = vstd::set_lib::set_int_range(0, n);
    let u = dom.map(f);
    vstd::set_lib::lemma_int_range(0, n);
    vstd::set_lib::lemma_map_size_bound(dom, u, f);
    assert(ss.no_duplicates()) by {
        assert forall|i: int, j: int| 0 <= i < ss.len() && 0 <= j < ss.len() && i != j implies ss[i]
            != ss[j] by {
            if i > j {
                assert(ss[j] != ss[i]);
            }
        }
    }
    ss.unique_seq_to_set();
    assert forall|x: Set<usize>| ss.to_set().contains(x) implies u.contains(x) by {
        let k = choose|k: int| 0 <= k < ss.len() && ss[k] == x;
        let j = choose|j: usize| j < n && ss[k] == set![j];
        assert(dom.contains(j as int));
        assert(f(j as int) == x);
    }
    vstd::set_lib::lemma_len_subset(ss.to_set(), u);
}

/// A well-formed deterministic automaton, once generalized, meets every
/// condition under which `determinize` succeeds: it is well-formed, every set
/// that subset construction reaches is a single state (so its merge exists),
/// and there are no more such sets than states.
pub proof fn lemma_generalize_determinize_succeeds<A: Alphabet, S: Symbol>(
    d: Deterministic<A, S>,
    g: Nondeterministic<A, S>,
)
    requires
        g@ == d@,
        automaton_wf(d@),
    ensures
        automaton_wf(g@),
        forall|s: Set<usize>, path: Seq<Set<usize>>|
            path_to(g@, path, s) ==> in_bounds(s, g@.states.len() as int) && merge_all(
                g@.states,
                ordered(s),
            ) is Some,
        !many_reachable(g@, usize::MAX as int),
{
    assert forall|s: Set<usize>, path: Seq<Set<usize>>| path_to(g@, path, s) implies in_bounds(
        s,
        g@.states.len() as int,
    ) && merge_all(g@.states, ordered(s)) is Some by {
        lemma_path_single(d, path, s);
        let j = choose|j: usize| j < d@.states.len() && s == set![j];
        lemma_ordered_single(j);
        assert(s.contains(j));
    }
    assert(d@.states.len() == d.states.len());
    if many_reachable(g@, usize::MAX as int) {
        let ss = choose|ss: Seq<Set<usize>>|
            ss.len() > usize::MAX as int && distinct(ss) && forall|i: int|
                0 <= i < ss.len() ==> reachable(g@, #[trigger] ss[i]);
        assert forall|k: int| 0 <= k < ss.len() implies single_below(
            #[trigger] ss[k],
            d@.states.len() as int,
        ) by {
            assert(reachable(g@, ss[k]));
            let path = choose|path: Seq<Set<usize>>| path_to(g@, path, ss[k]);
            lemma_path_single(d, path, ss[k]);
        }
        lemma_few_singletons(ss, d@.states.len() as int);
    }
}

/// A first shadowed entry found in a prefix is the first of the whole.
pub proof fn lemma_first_shadowed_extend<A: Symbol, S>(
    w: WildcardView<A, S>,
    s: Seq<(S, WildcardView<A, S>)>,
    n: int,
)
    requires
        0 <= n <= s.len(),
        crate::curry_opt::first_shadowed(w, s.take(n)) is Some,
    ensures
        crate::curry_opt::first_shadowed(w, s) == crate::curry_opt::first_shadowed(w, s.take(n)),
    decreases s.len(),
{
    if n == s.len() {
        assert(s.take(n) =~= s);
    } else {
        assert(s.drop_last().take(n) =~= s.take(n));
        lemma_first_shadowed_extend(w, s.drop_last(), n);
    }
}

/// A stray keyed layer found in a prefix is the first of the whole.
pub proof fn lemma_keyed_stray_extend<A: Alphabet, S>(m: Seq<(S, WildcardView<A, S>)>, n: int)
    requires
        0 <= n <= m.len(),
        crate::curry_opt::keyed_stray(m.take(n)) is Some,
    ensures
        crate::curry_opt::keyed_stray(m) == crate::curry_opt::keyed_stray(m.take(n)),
    decreases m.len(),
{
    if n == m.len() {
        assert(m.take(n) =~= m);
    } else {
        assert(m.drop_last().take(n) =~= m.take(n));
        lemma_keyed_stray_extend(m.drop_last(), n);
    }
}

} // verus!
