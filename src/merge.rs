//! Merging many edges into one, and why the order does not matter.

use crate::alphabet::Symbol;
use crate::automaton::fold_fuse;
use crate::edge::{fuse_views, Edge, EdgeView};
use crate::error::IllFormed;
use crate::indices::Indices;
use vstd::prelude::*;

verus! {

/// The meanings of a sequence of edges.
pub open spec fn edge_views<S, Ctrl: Indices>(edges: Seq<Edge<S, Ctrl>>) -> Seq<EdgeView<S>> {
    edges.map_values(|e: Edge<S, Ctrl>| e@)
}

/// All destinations of a sequence of edges.
pub open spec fn all_dst<S>(es: Seq<EdgeView<S>>) -> Set<usize>
    decreases es.len(),
{
    if es.len() == 0 {
        Set::empty()
    } else {
        all_dst(es.drop_last()) + es.last().dst
    }
}

/// Any two of the edges merge.
pub open spec fn pairwise_fusable<S>(es: Seq<EdgeView<S>>, single: bool) -> bool {
    forall|i: int, j: int|
        0 <= i < es.len() && 0 <= j < es.len() ==> (#[trigger] fuse_views(es[i], es[j], single)) is Some
}

/// Merge an entire sequence of edges into one, from left to right; `None`
/// where there is no edge.
pub fn merge<A, S: Symbol, Ctrl: Indices>(edges: &Vec<Edge<S, Ctrl>>) -> (r: Option<
    Result<Edge<S, Ctrl>, IllFormed<A, S, Ctrl>>,
>)
    ensures
        r is None <==> edges.len() == 0,
        r matches Some(Ok(m)) ==> fold_fuse(edge_views(edges@), Ctrl::single()) == Some(m@),
        r matches Some(Err(_)) ==> fold_fuse(edge_views(edges@), Ctrl::single()) is None,
{
    if edges.len() == 0 {
        return None;
    }
    let ghost es = edge_views(edges@);
    let mut acc = edges[0].duplicate();
    proof {
        assert(es.take(1).len() == 1);
    }
    let mut k: usize = 1;
    while k < edges.len()
        invariant
            1 <= k <= edges.len(),
            es == edge_views(edges@),
            fold_fuse(es.take(k as int), Ctrl::single()) == Some(acc@),
        decreases edges.len() - k,
    {
        proof {
            assert(es.take(k + 1).drop_last() =~= es.take(k as int));
            assert(es.take(k + 1).last() == edges@[k as int]@);
        }
        match acc.merge(&edges[k]) {
            Ok(m) => {
                acc = m;
            },
            Err(e) => {
                proof {
                    lemma_fold_fuse_none(es, k + 1, Ctrl::single());
                }
                return Some(Err(e));
            },
        }
        k = k + 1;
    }
    assert(es.take(k as int) =~= es);
    Some(Ok(acc))
}

/// Once a prefix fails to merge, the whole sequence fails to merge.
pub proof fn lemma_fold_fuse_none<S>(es: Seq<EdgeView<S>>, n: int, single: bool)
    requires
        2 <= n <= es.len(),
        fold_fuse(es.take(n), single) is None,
    ensures
        fold_fuse(es, single) is None,
    decreases es.len(),
{
    if n == es.len() {
        assert(es.take(n) =~= es);
    } else {
        assert(es.drop_last().take(n) =~= es.take(n));
        lemma_fold_fuse_none(es.drop_last(), n, single);
    }
}

/// A destination lies in the union exactly when it lies in some edge's
/// destination.
pub proof fn lemma_all_dst<S>(es: Seq<EdgeView<S>>)
    ensures
        forall|x: usize|
            #[trigger] all_dst(es).contains(x) <==> exists|i: int|
                0 <= i < es.len() && es[i].dst.contains(x),
    decreases es.len(),
{
    if es.len() > 0 {
        let w = es.drop_last();
        lemma_all_dst(w);
        assert forall|x: usize| #[trigger] all_dst(es).contains(x) <==> exists|i: int|
            0 <= i < es.len() && es[i].dst.contains(x) by {
            let in_w = all_dst(w).contains(x);
            assert(in_w <==> exists|i: int| 0 <= i < w.len() && w[i].dst.contains(x));
            if all_dst(es).contains(x) {
                if in_w {
                    let i = choose|i: int| 0 <= i < w.len() && w[i].dst.contains(x);
                    assert(es[i] == w[i]);
                } else {
                    assert(es[es.len() - 1].dst.contains(x));
                }
            }
            if exists|i: int| 0 <= i < es.len() && es[i].dst.contains(x) {
                let i = choose|i: int| 0 <= i < es.len() && es[i].dst.contains(x);
                if i < es.len() - 1 {
                    assert(w[i] == es[i]);
                    assert(w[i].dst.contains(x));
                    assert(in_w);
                }
            }
        }
    }
}

/// Folding pairwise-mergeable edges gives their common kind, action and
/// pushed symbol, with the union of their destinations.
pub proof fn lemma_fold_fuse_closed_form<S>(es: Seq<EdgeView<S>>, single: bool)
    requires
        es.len() > 0,
        pairwise_fusable(es, single),
    ensures
        fold_fuse(es, single) == Some(
            EdgeView { kind: es[0].kind, dst: all_dst(es), call: es[0].call, push: es[0].push },
        ),
        single ==> all_dst(es) == es[0].dst,
    decreases es.len(),
{
    if es.len() == 1 {
        assert(es.drop_last().len() == 0);
        assert(all_dst(es) =~= es[0].dst);
    } else {
        let w = es.drop_last();
        assert forall|i: int, j: int| 0 <= i < w.len() && 0 <= j < w.len() implies (
        #[trigger] fuse_views(w[i], w[j], single)) is Some by {
            assert(w[i] == es[i] && w[j] == es[j]);
        }
        lemma_fold_fuse_closed_form(w, single);
        assert(w[0] == es[0]);
        assert(fuse_views(es[0], es[es.len() - 1], single) is Some);
        if single {
            assert(all_dst(es) =~= es[0].dst);
        }
    }
}

/// Folds of the same pairwise-mergeable edges, in any order, are equal.
pub proof fn lemma_fold_order_free<S>(es1: Seq<EdgeView<S>>, es2: Seq<EdgeView<S>>, single: bool)
    requires
        es1.len() > 0,
        es1.to_set() == es2.to_set(),
        pairwise_fusable(es1, single),
    ensures
        fold_fuse(es1, single) == fold_fuse(es2, single),
        fold_fuse(es1, single) is Some,
{
    assert(es1.to_set().contains(es1[0]));
    assert(es2.to_set().contains(es1[0]));
    assert(es2.len() > 0);
    assert forall|i: int, j: int| 0 <= i < es2.len() && 0 <= j < es2.len() implies (
    #[trigger] fuse_views(es2[i], es2[j], single)) is Some by {
        assert(es2.to_set().contains(es2[i]));
        assert(es2.to_set().contains(es2[j]));
        let a = choose|a: int| 0 <= a < es1.len() && es1[a] == es2[i];
        let b = choose|b: int| 0 <= b < es1.len() && es1[b] == es2[j];
        assert(fuse_views(es1[a], es1[b], single) is Some);
    }
    lemma_fold_fuse_closed_form(es1, single);
    lemma_fold_fuse_closed_form(es2, single);
    lemma_all_dst(es1);
    lemma_all_dst(es2);
    assert(es1.to_set().contains(es2[0]));
    let j = choose|j: int| 0 <= j < es1.len() && es1[j] == es2[0];
    assert(fuse_views(es1[0], es1[j], single) is Some);
    assert forall|x: usize| all_dst(es1).contains(x) <==> all_dst(es2).contains(x) by {
        if all_dst(es1).contains(x) {
            let i = choose|i: int| 0 <= i < es1.len() && es1[i].dst.contains(x);
            assert(es2.to_set().contains(es1[i]));
            let k = choose|k: int| 0 <= k < es2.len() && es2[k] == es1[i];
            assert(es2[k].dst.contains(x));
        }
        if all_dst(es2).contains(x) {
            let i = choose|i: int| 0 <= i < es2.len() && es2[i].dst.contains(x);
            assert(es1.to_set().contains(es2[i]));
            let k = choose|k: int| 0 <= k < es1.len() && es1[k] == es2[i];
            assert(es1[k].dst.contains(x));
        }
    }
    assert(all_dst(es1) =~= all_dst(es2));
}

} // verus!
