//! Map from an optional top-of-stack symbol to a token layer, with a layer
//! tried first whatever the stack holds.

use crate::alphabet::{at_most, same, Alphabet, Kind, Symbol};
use crate::edge::{in_bounds, Edge, EdgeView};
use crate::error::IllFormed;
use crate::indices::Indices;
use crate::lookup::Return;
use crate::range::Range;
use crate::wildcard::{
    layer_stray, layer_scan, scan_error, shared_keys, wild_conflict, entries_view, first_hit, keys_meet, kind_clash, layer_fault, layer_kinds_ok, lemma_first_hit, sanitized,
    wild_lookup, wild_merge, wild_wf, Wildcard, WildcardView,
};
use vstd::prelude::*;

verus! {

/// Token layer of a transition table.
pub type Layer<A, S, Ctrl> = Wildcard<A, Return<Edge<S, Ctrl>>>;

/// Map from an optional top-of-stack symbol (optional because the stack might
/// be empty) to a map that matches input tokens.
#[derive(Clone, Debug, PartialEq, Eq, Hash, PartialOrd, Ord)]
pub struct CurryOpt<Arg, Etc> {
    /// First, try to match this, no matter what the stack holds.
    pub wildcard: Option<Etc>,
    /// If the wildcard match didn't work, try this if the stack is empty.
    pub none: Option<Etc>,
    /// If the wildcard match didn't work, try the entry for the top of the stack.
    pub some: Vec<(Arg, Etc)>,
}

/// What a transition table means.
pub struct CurryOptView<A, S> {
    /// The layer tried first, whatever the stack holds.
    pub wildcard: Option<WildcardView<A, S>>,
    /// The layer for an empty stack.
    pub none: Option<WildcardView<A, S>>,
    /// The layers for each symbol on top of the stack.
    pub some: Seq<(S, WildcardView<A, S>)>,
}

/// The index of the first entry with key `k`.
pub open spec fn key_index<K, V>(m: Seq<(K, V)>, k: K) -> Option<int>
    decreases m.len(),
{
    if m.len() == 0 {
        None
    } else {
        let r = key_index(m.drop_last(), k);
        if r is Some {
            r
        } else if m.last().0 == k {
            Some(m.len() - 1)
        } else {
            None
        }
    }
}

/// The layer tried for a given top of stack, after the wildcard.
pub open spec fn inner_for<A, S>(c: CurryOptView<A, S>, top: Option<S>) -> Option<WildcardView<A, S>> {
    match top {
        None => c.none,
        Some(s) => match key_index(c.some, s) {
            Some(i) => Some(c.some[i].1),
            None => None,
        },
    }
}

/// A layer's edge for a token, where the layer is present.
pub open spec fn layer_lookup<A: Symbol, S>(w: Option<WildcardView<A, S>>, t: A) -> Option<EdgeView<S>> {
    match w {
        Some(w) => wild_lookup(w, t),
        None => None,
    }
}

/// The edge a table gives for a top of stack and a token.
pub open spec fn table_lookup<A: Symbol, S>(c: CurryOptView<A, S>, top: Option<S>, t: A) -> Option<
    EdgeView<S>,
> {
    let w = layer_lookup(c.wildcard, t);
    if w is Some {
        w
    } else {
        layer_lookup(inner_for(c, top), t)
    }
}

/// Merge of two optional layers; `None` on conflict.
pub open spec fn opt_merge<A: Symbol, S>(
    a: Option<WildcardView<A, S>>,
    b: Option<WildcardView<A, S>>,
    single: bool,
) -> Option<Option<WildcardView<A, S>>> {
    match (a, b) {
        (None, None) => Some(None),
        (Some(x), None) => Some(Some(x)),
        (None, Some(y)) => Some(Some(y)),
        (Some(x), Some(y)) => match wild_merge(x, y, single) {
            Some(z) => Some(Some(z)),
            None => None,
        },
    }
}

/// Add one keyed layer to a map: merge with the entry of the same key, or append.
pub open spec fn insert_merge<A: Symbol, S>(
    m: Seq<(S, WildcardView<A, S>)>,
    e: (S, WildcardView<A, S>),
    single: bool,
) -> Option<Seq<(S, WildcardView<A, S>)>> {
    match key_index(m, e.0) {
        Some(i) => match wild_merge(m[i].1, e.1, single) {
            Some(x) => Some(m.update(i, (e.0, x))),
            None => None,
        },
        None => Some(m.push(e)),
    }
}

/// Merge of two keyed maps, entry by entry of the second.
pub open spec fn keyed_merge<A: Symbol, S>(
    a: Seq<(S, WildcardView<A, S>)>,
    b: Seq<(S, WildcardView<A, S>)>,
    single: bool,
) -> Option<Seq<(S, WildcardView<A, S>)>>
    decreases b.len(),
{
    if b.len() == 0 {
        Some(a)
    } else {
        match keyed_merge(a, b.drop_last(), single) {
            Some(m) => insert_merge(m, b.last(), single),
            None => None,
        }
    }
}

/// The wildcard layer shares no key with the other layers.
pub open spec fn unshadowed<A: Symbol, S>(c: CurryOptView<A, S>) -> bool {
    match c.wildcard {
        None => true,
        Some(w) => (c.none matches Some(n) ==> !keys_meet(w, n)) && forall|i: int|
            0 <= i < c.some.len() ==> !keys_meet(w, #[trigger] c.some[i].1),
    }
}

/// The merge of two tables, where it is defined.
pub open spec fn table_merge<A: Symbol, S>(
    a: CurryOptView<A, S>,
    b: CurryOptView<A, S>,
    single: bool,
) -> Option<CurryOptView<A, S>> {
    match (
        opt_merge(a.wildcard, b.wildcard, single),
        opt_merge(a.none, b.none, single),
        keyed_merge(a.some, b.some, single),
    ) {
        (Some(w), Some(n), Some(s)) => {
            let c = CurryOptView { wildcard: w, none: n, some: s };
            if unshadowed(c) {
                Some(c)
            } else {
                None
            }
        },
        _ => None,
    }
}

/// The components of two tables merged, before the shadowing test.
pub open spec fn table_parts<A: Symbol, S>(
    a: CurryOptView<A, S>,
    b: CurryOptView<A, S>,
    single: bool,
) -> Option<CurryOptView<A, S>> {
    match (
        opt_merge(a.wildcard, b.wildcard, single),
        opt_merge(a.none, b.none, single),
        keyed_merge(a.some, b.some, single),
    ) {
        (Some(w), Some(n), Some(s)) => Some(CurryOptView { wildcard: w, none: n, some: s }),
        _ => None,
    }
}

/// `w` and `inner` share a key; `x`, where given, is a non-empty range of
/// shared keys, and where not, both match every token.
pub open spec fn meet_witness<A: Symbol, S>(
    w: WildcardView<A, S>,
    inner: WildcardView<A, S>,
    x: Option<Range<A>>,
) -> bool {
    &&& keys_meet(w, inner)
    &&& match x {
        Some(rg) => (exists|t: A| rg.has(t)) && forall|t: A|
            rg.has(t) ==> wild_lookup(w, t) is Some && wild_lookup(inner, t) is Some,
        None => w is Any && inner is Any,
    }
}

/// The wildcard layer of `c` shares keys with the layer for the stack top
/// `top` (for a stack symbol, with some layer stored under it).
pub open spec fn shadow_at<A: Symbol, S>(c: CurryOptView<A, S>, top: Option<S>, x: Option<Range<A>>) -> bool {
    match c.wildcard {
        None => false,
        Some(w) => match top {
            None => match c.none {
                Some(n) => meet_witness(w, n, x),
                None => false,
            },
            Some(k) => exists|i: int|
                0 <= i < c.some.len() && c.some[i].0 == k && meet_witness(w, #[trigger] c.some[i].1, x),
        },
    }
}

/// `e` reports a fault that the table `c` has: a fault of one of its layers,
/// a stack symbol stored twice, or a wildcard layer that shadows another.
pub open spec fn table_fault<A: Symbol, S, Ctrl: Indices>(
    c: CurryOptView<A, S>,
    size: int,
    e: IllFormed<A, S, Ctrl>,
) -> bool {
    ||| match c.wildcard {
        Some(w) => layer_fault(w, size, e),
        None => false,
    }
    ||| match c.none {
        Some(n) => layer_fault(n, size, e),
        None => false,
    }
    ||| exists|i: int| 0 <= i < c.some.len() && layer_fault(#[trigger] c.some[i].1, size, e)
    ||| match e {
        IllFormed::MapMergeConflict(k, l, x) => exists|i: int, j: int|
            #![trigger c.some[i], c.some[j]]
            0 <= i < j < c.some.len() && c.some[i].0 == k && c.some[j].0 == k && l@ == c.some[i].1
                && x@ == c.some[j].1,
        IllFormed::CurryOptMergeConflict(top, x) => shadow_at(c, top, x),
        _ => false,
    }
}

/// The index of the first entry of `s` whose layer shares a key with `w`.
pub open spec fn first_shadowed<A: Symbol, S>(w: WildcardView<A, S>, s: Seq<(S, WildcardView<A, S>)>) -> Option<int>
    decreases s.len(),
{
    if s.len() == 0 {
        None
    } else {
        match first_shadowed(w, s.drop_last()) {
            Some(i) => Some(i),
            None => if keys_meet(w, s.last().1) {
                Some(s.len() - 1)
            } else {
                None
            },
        }
    }
}

/// The first shadowing in a table, as its wildcard layer is tested against
/// the empty-stack layer and then each keyed layer in order: the stack top,
/// and the shared keys as `disjoint` reports them.
pub open spec fn first_shadow<A: Symbol, S>(c: CurryOptView<A, S>) -> Option<(Option<S>, Option<Range<A>>)> {
    match c.wildcard {
        None => None,
        Some(w) => {
            let from_none = match c.none {
                Some(n) => if keys_meet(w, n) {
                    Some((None::<S>, shared_keys(w, n).unwrap()))
                } else {
                    None
                },
                None => None,
            };
            if from_none is Some {
                from_none
            } else {
                match first_shadowed(w, c.some) {
                    Some(i) => Some((Some(c.some[i].0), shared_keys(w, c.some[i].1).unwrap())),
                    None => None,
                }
            }
        },
    }
}

/// Entry `j` of `b` is the first whose layer fails to merge into the keyed map
/// built from `a` and the entries before it: `k` is its key, `l` the layer
/// already stored under it, `x` its own layer.
pub open spec fn stuck_at<A: Symbol, S>(
    a: Seq<(S, WildcardView<A, S>)>,
    b: Seq<(S, WildcardView<A, S>)>,
    j: int,
    k: S,
    l: WildcardView<A, S>,
    x: WildcardView<A, S>,
    single: bool,
) -> bool {
    match keyed_merge(a, b.take(j), single) {
        Some(m) => match key_index(m, b[j].0) {
            Some(i) => wild_merge(m[i].1, b[j].1, single) is None && k == b[j].0 && l == m[i].1 && x
                == b[j].1,
            None => false,
        },
        None => false,
    }
}

/// `e` reports the first entry of `b` whose layer fails to merge into the
/// keyed map built so far: its key, the layer already there, and its own.
pub open spec fn keyed_conflict<A: Symbol, S, Ctrl: Indices>(
    e: IllFormed<A, S, Ctrl>,
    a: Seq<(S, WildcardView<A, S>)>,
    b: Seq<(S, WildcardView<A, S>)>,
) -> bool {
    match e {
        IllFormed::MapMergeConflict(k, l, x) => exists|j: int|
            0 <= j < b.len() && #[trigger] stuck_at(a, b, j, k, l@, x@, Ctrl::single()),
        _ => false,
    }
}

/// `e` is the error that merging the tables `a` and `b` reports: the
/// wildcard layers' conflict, else the empty-stack layers', else the keyed
/// maps', else the first shadowing in the merged table.
pub open spec fn table_merge_error<A: Symbol, S, Ctrl: Indices>(
    e: IllFormed<A, S, Ctrl>,
    a: CurryOptView<A, S>,
    b: CurryOptView<A, S>,
) -> bool {
    if opt_merge(a.wildcard, b.wildcard, Ctrl::single()) is None {
        wild_conflict(e, a.wildcard.unwrap(), b.wildcard.unwrap())
    } else if opt_merge(a.none, b.none, Ctrl::single()) is None {
        wild_conflict(e, a.none.unwrap(), b.none.unwrap())
    } else if keyed_merge(a.some, b.some, Ctrl::single()) is None {
        keyed_conflict(e, a.some, b.some)
    } else {
        match first_shadow(table_parts(a, b, Ctrl::single()).unwrap()) {
            Some(p) => e == IllFormed::<A, S, Ctrl>::CurryOptMergeConflict(p.0, p.1),
            None => false,
        }
    }
}

/// The first fault of an optional layer, as `check` meets it.
pub open spec fn opt_scan<A: Symbol, S>(w: Option<WildcardView<A, S>>, size: int) -> Option<Option<Range<A>>> {
    match w {
        Some(x) => layer_scan(x, size),
        None => None,
    }
}

/// The first fault among keyed layers, scanning them in order: for each
/// entry, a fault of its layer (`(i, None)`), else the first earlier entry
/// with the same key (`(i, Some(j))`).
pub open spec fn keyed_scan<A: Symbol, S>(m: Seq<(S, WildcardView<A, S>)>, size: int) -> Option<(int, Option<int>)>
    decreases m.len(),
{
    if m.len() == 0 {
        None
    } else {
        match keyed_scan(m.drop_last(), size) {
            Some(p) => Some(p),
            None => if layer_scan(m.last().1, size) is Some {
                Some((m.len() - 1, None))
            } else {
                match key_index(m.drop_last(), m.last().0) {
                    Some(j) => Some((m.len() - 1, Some(j))),
                    None => None,
                }
            },
        }
    }
}

/// `e` is the error that checking the table `c` reports: the first fault of
/// the wildcard layer, else of the empty-stack layer, else the first fault
/// among the keyed layers, else the first shadowing.
pub open spec fn table_error<A: Symbol, S, Ctrl: Indices>(
    c: CurryOptView<A, S>,
    size: int,
    e: IllFormed<A, S, Ctrl>,
) -> bool {
    if opt_scan(c.wildcard, size) is Some {
        e == scan_error::<A, S, Ctrl>(opt_scan(c.wildcard, size).unwrap())
    } else if opt_scan(c.none, size) is Some {
        e == scan_error::<A, S, Ctrl>(opt_scan(c.none, size).unwrap())
    } else {
        match keyed_scan(c.some, size) {
            Some(p) => match p.1 {
                None => e == scan_error::<A, S, Ctrl>(layer_scan(c.some[p.0].1, size).unwrap()),
                Some(j) => match e {
                    IllFormed::MapMergeConflict(k, l, x) => k == c.some[p.0].0 && l@ == c.some[j].1 && x@
                        == c.some[p.0].1,
                    _ => false,
                },
            },
            None => match first_shadow(c) {
                Some(q) => e == IllFormed::<A, S, Ctrl>::CurryOptMergeConflict(q.0, q.1),
                None => false,
            },
        }
    }
}

/// A fault found scanning a prefix of keyed layers is the first of the whole.
pub proof fn lemma_keyed_scan_extend<A: Symbol, S>(m: Seq<(S, WildcardView<A, S>)>, size: int, n: int)
    requires
        0 <= n <= m.len(),
        keyed_scan(m.take(n), size) is Some,
    ensures
        keyed_scan(m, size) == keyed_scan(m.take(n), size),
    decreases m.len(),
{
    if n == m.len() {
        assert(m.take(n) =~= m);
    } else {
        assert(m.drop_last().take(n) =~= m.take(n));
        lemma_keyed_scan_extend(m.drop_last(), size, n);
    }
}

/// Each key appears at most once.
pub open spec fn keys_unique<K, V>(m: Seq<(K, V)>) -> bool {
    forall|i: int, j: int| 0 <= i < j < m.len() ==> m[i].0 != m[j].0
}

/// A well-formed table: well-formed layers, unique keys, no shadowing.
pub open spec fn table_wf<A: Symbol, S>(c: CurryOptView<A, S>, size: int) -> bool {
    &&& (c.wildcard matches Some(w) ==> wild_wf(w, size))
    &&& (c.none matches Some(n) ==> wild_wf(n, size))
    &&& forall|i: int| 0 <= i < c.some.len() ==> wild_wf(#[trigger] c.some[i].1, size)
    &&& keys_unique(c.some)
    &&& unshadowed(c)
}

/// The view of a keyed map of layers.
pub open spec fn keyed_view<A, S, Ctrl: Indices>(m: Seq<(S, Layer<A, S, Ctrl>)>) -> Seq<
    (S, WildcardView<A, S>),
> {
    m.map_values(|p: (S, Layer<A, S, Ctrl>)| (p.0, p.1@))
}

/// The value behind an optional reference.
pub open spec fn unref<T>(o: Option<&T>) -> Option<T> {
    match o {
        Some(x) => Some(*x),
        None => None,
    }
}

/// The view of an optional layer.
pub open spec fn opt_view<A, S, Ctrl: Indices>(w: Option<Layer<A, S, Ctrl>>) -> Option<
    WildcardView<A, S>,
> {
    match w {
        Some(x) => Some(x@),
        None => None,
    }
}

/// No key of `wild` lies in the range `r`.
pub open spec fn clear_of<A: Symbol, S>(wild: WildcardView<A, S>, r: Range<A>) -> bool {
    forall|t: A| r.has(t) ==> wild_lookup(wild, t) is None
}

/// The entries whose ranges are clear of every key of `wild`.
pub open spec fn clear_entries<A: Symbol, S>(
    v: Seq<(Range<A>, EdgeView<S>)>,
    wild: WildcardView<A, S>,
) -> Seq<(Range<A>, EdgeView<S>)>
    decreases v.len(),
{
    if v.len() == 0 {
        Seq::empty()
    } else {
        let c = clear_entries(v.drop_last(), wild);
        if clear_of(wild, v.last().0) {
            c.push(v.last())
        } else {
            c
        }
    }
}

/// `inner` without what shares a key with `wild`.
pub open spec fn pruned<A: Symbol, S>(inner: WildcardView<A, S>, wild: WildcardView<A, S>) -> WildcardView<
    A,
    S,
> {
    match inner {
        WildcardView::Any(_) => if keys_meet(wild, inner) {
            WildcardView::Specific(Seq::empty())
        } else {
            inner
        },
        WildcardView::Specific(v) => WildcardView::Specific(clear_entries(v, wild)),
    }
}

/// A layer after clamping, and pruning against the wildcard layer if there is one.
pub open spec fn tidy<A: Alphabet, S>(
    w: WildcardView<A, S>,
    wild: Option<WildcardView<A, S>>,
    size: usize,
) -> WildcardView<A, S> {
    match wild {
        Some(x) => pruned(sanitized(w, size), x),
        None => sanitized(w, size),
    }
}

/// The entries of a keyed map, keeping only the first entry for each key.
pub open spec fn first_keys<K, V>(m: Seq<(K, V)>) -> Seq<(K, V)>
    decreases m.len(),
{
    if m.len() == 0 {
        Seq::empty()
    } else {
        let d = first_keys(m.drop_last());
        if key_index(d, m.last().0) is Some {
            d
        } else {
            d.push(m.last())
        }
    }
}

/// Every layer of a keyed map tidied.
pub open spec fn tidy_entries<A: Alphabet, S>(
    m: Seq<(S, WildcardView<A, S>)>,
    wild: Option<WildcardView<A, S>>,
    size: usize,
) -> Seq<(S, WildcardView<A, S>)>
    decreases m.len(),
{
    if m.len() == 0 {
        Seq::empty()
    } else {
        tidy_entries(m.drop_last(), wild, size).push((m.last().0, tidy(m.last().1, wild, size)))
    }
}

/// A table after clamping: every layer clamped, repeated stack symbols
/// dropped, and entries shadowed by the wildcard layer dropped.
pub open spec fn table_sanitized<A: Alphabet, S>(c: CurryOptView<A, S>, size: usize) -> CurryOptView<
    A,
    S,
> {
    let w = match c.wildcard {
        Some(x) => Some(sanitized(x, size)),
        None => None,
    };
    CurryOptView {
        wildcard: w,
        none: match c.none {
            Some(n) => Some(tidy(n, w, size)),
            None => None,
        },
        some: tidy_entries(first_keys(c.some), w, size),
    }
}

/// Tidying keeps the keys.
pub proof fn lemma_tidy_entries_keys<A: Alphabet, S>(
    m: Seq<(S, WildcardView<A, S>)>,
    wild: Option<WildcardView<A, S>>,
    size: usize,
)
    ensures
        tidy_entries(m, wild, size).len() == m.len(),
        forall|j: int| 0 <= j < m.len() ==> (#[trigger] tidy_entries(m, wild, size)[j]).0 == m[j].0,
    decreases m.len(),
{
    if m.len() > 0 {
        lemma_tidy_entries_keys(m.drop_last(), wild, size);
        let t = tidy_entries(m, wild, size);
        assert forall|j: int| 0 <= j < m.len() implies (#[trigger] t[j]).0 == m[j].0 by {
            if j < m.len() - 1 {
                assert(t[j] == tidy_entries(m.drop_last(), wild, size)[j]);
                assert(m.drop_last()[j] == m[j]);
            }
        }
    }
}

impl<A, S, Ctrl: Indices> View for CurryOpt<S, Layer<A, S, Ctrl>> {
    type V = CurryOptView<A, S>;

    open spec fn view(&self) -> CurryOptView<A, S> {
        CurryOptView {
            wildcard: opt_view(self.wildcard),
            none: opt_view(self.none),
            some: keyed_view(self.some@),
        }
    }
}

/// The key index of a map is found by a scan that stops at the first match.
pub proof fn lemma_key_index_extend<K, V>(m: Seq<(K, V)>, n: int, k: K)
    requires
        0 <= n <= m.len(),
        key_index(m.take(n), k) is Some,
    ensures
        key_index(m, k) == key_index(m.take(n), k),
    decreases m.len(),
{
    if n == m.len() {
        assert(m.take(n) =~= m);
    } else {
        assert(m.drop_last().take(n) =~= m.take(n));
        lemma_key_index_extend(m.drop_last(), n, k);
    }
}

/// The key index, where there is one, points at an entry with that key, and
/// there is one exactly when the key occurs.
pub proof fn lemma_key_index<K, V>(m: Seq<(K, V)>, k: K)
    ensures
        key_index(m, k) is Some <==> exists|i: int| 0 <= i < m.len() && m[i].0 == k,
        key_index(m, k) matches Some(i) ==> 0 <= i < m.len() && m[i].0 == k && forall|j: int|
            0 <= j < i ==> m[j].0 != k,
    decreases m.len(),
{
    if m.len() > 0 {
        let w = m.drop_last();
        lemma_key_index(w, k);
        assert forall|j: int| 0 <= j < w.len() implies m[j] == w[j] by {
        }
        if key_index(w, k) is None && m.last().0 != k {
            assert forall|i: int| 0 <= i < m.len() implies m[i].0 != k by {
                if i < m.len() - 1 {
                    assert(m[i] == w[i]);
                }
            }
        }
    }
}

/// Viewing the layers of a keyed map keeps its keys.
pub proof fn lemma_key_index_view<A, S, Ctrl: Indices>(m: Seq<(S, Layer<A, S, Ctrl>)>, k: S)
    ensures
        key_index(keyed_view(m), k) == key_index(m, k),
    decreases m.len(),
{
    if m.len() > 0 {
        assert(keyed_view(m).drop_last() =~= keyed_view(m.drop_last()));
        lemma_key_index_view(m.drop_last(), k);
    }
}

/// Viewing a keyed map after appending an entry.
pub proof fn lemma_keyed_push<A, S, Ctrl: Indices>(
    m: Seq<(S, Layer<A, S, Ctrl>)>,
    e: (S, Layer<A, S, Ctrl>),
)
    ensures
        keyed_view(m.push(e)) == keyed_view(m).push((e.0, e.1@)),
{
    assert(keyed_view(m.push(e)) =~= keyed_view(m).push((e.0, e.1@)));
}

/// Viewing a keyed map after replacing an entry.
pub proof fn lemma_keyed_update<A, S, Ctrl: Indices>(
    m: Seq<(S, Layer<A, S, Ctrl>)>,
    i: int,
    e: (S, Layer<A, S, Ctrl>),
)
    requires
        0 <= i < m.len(),
    ensures
        keyed_view(m.update(i, e)) == keyed_view(m).update(i, (e.0, e.1@)),
{
    assert(keyed_view(m.update(i, e)) =~= keyed_view(m).update(i, (e.0, e.1@)));
}

impl<A, S, Ctrl: Indices> Default for CurryOpt<S, Layer<A, S, Ctrl>> {
    /// An empty table.
    fn default() -> (r: Self)
        ensures
            r@.wildcard is None,
            r@.none is None,
            r@.some.len() == 0,
    {
        CurryOpt { wildcard: None, none: None, some: Vec::new() }
    }
}

impl<A: Symbol, S: Symbol, Ctrl: Indices> CurryOpt<S, Layer<A, S, Ctrl>> {
    /// Merge two optional layers.
    fn merge_layers(
        a: Option<Layer<A, S, Ctrl>>,
        b: &Option<Layer<A, S, Ctrl>>,
    ) -> (r: Result<Option<Layer<A, S, Ctrl>>, IllFormed<A, S, Ctrl>>)
        ensures
            r is Ok <==> opt_merge(opt_view(a), opt_view(*b), Ctrl::single()) is Some,
            r matches Ok(m) ==> opt_merge(opt_view(a), opt_view(*b), Ctrl::single()) == Some(
                opt_view(m),
            ),
            r matches Err(e) ==> !(e is CurryOptMergeConflict) && !(e is MapMergeConflict),
            r matches Err(e) ==> (a matches Some(x) && *b matches Some(y) && wild_conflict(e, x@, y@)),
    {
        match (a, b) {
            (None, None) => Ok(None),
            (Some(x), None) => Ok(Some(x)),
            (None, Some(y)) => Ok(Some(y.duplicate())),
            (Some(x), Some(y)) => match x.merge(y) {
                Ok(z) => Ok(Some(z)),
                Err(e) => Err(e),
            },
        }
    }

    /// The position of the first entry with key `k`.
    fn find_key(m: &Vec<(S, Layer<A, S, Ctrl>)>, k: &S) -> (r: Option<usize>)
        ensures
            r matches Some(i) ==> key_index(m@, *k) == Some(i as int),
            r is None ==> key_index(m@, *k) is None,
            r matches Some(i) ==> i < m.len(),
    {
        let mut i: usize = 0;
        while i < m.len()
            invariant
                i <= m.len(),
                key_index(m@.take(i as int), *k) is None,
            decreases m.len() - i,
        {
            proof {
                assert(m@.take(i + 1).drop_last() =~= m@.take(i as int));
            }
            if same(&m[i].0, k) {
                proof {
                    lemma_key_index_extend(m@, i + 1, *k);
                }
                return Some(i);
            }
            i = i + 1;
        }
        assert(m@.take(i as int) =~= m@);
        None
    }

    /// Merge two keyed maps of layers.
    fn merge_keyed(
        a: Vec<(S, Layer<A, S, Ctrl>)>,
        b: &Vec<(S, Layer<A, S, Ctrl>)>,
    ) -> (r: Result<Vec<(S, Layer<A, S, Ctrl>)>, IllFormed<A, S, Ctrl>>)
        ensures
            r is Ok <==> keyed_merge(keyed_view(a@), keyed_view(b@), Ctrl::single()) is Some,
            r matches Ok(m) ==> keyed_merge(keyed_view(a@), keyed_view(b@), Ctrl::single()) == Some(
                keyed_view(m@),
            ),
            r matches Err(e) ==> e matches IllFormed::MapMergeConflict(k, l, x) && wild_merge(
                l@,
                x@,
                Ctrl::single(),
            ) is None,
            r matches Err(e) ==> keyed_conflict(e, keyed_view(a@), keyed_view(b@)),
    {
        let ghost av = keyed_view(a@);
        let ghost bv = keyed_view(b@);
        let mut out = a;
        let mut j: usize = 0;
        while j < b.len()
            invariant
                j <= b.len(),
                bv == keyed_view(b@),
                av == keyed_view(a@),
                keyed_merge(av, bv.take(j as int), Ctrl::single()) == Some(keyed_view(out@)),
            decreases b.len() - j,
        {
            proof {
                assert(bv.take(j + 1).drop_last() =~= bv.take(j as int));
                assert(bv.take(j + 1).last() == bv[j as int]);
                assert(bv[j as int] == (b@[j as int].0, b@[j as int].1@));
            }
            let k = b[j].0;
            proof {
                lemma_key_index_view(out@, k);
            }
            match Self::find_key(&out, &k) {
                Some(i) => {
                    let ghost before = out@;
                    let left = out[i].1.duplicate();
                    assert(keyed_view(before)[i as int].1 == before[i as int].1@);
                    match left.merge(&b[j].1) {
                        Ok(m) => {
                            out.set(i, (k, m));
                            proof {
                                lemma_keyed_update(before, i as int, (k, m));
                            }
                        },
                        Err(_) => {
                            proof {
                                assert(keyed_view(before)[i as int].1 == before[i as int].1@);
                                lemma_keyed_merge_none(av, bv, j as int + 1, Ctrl::single());
                            }
                            let l = out[i].1.duplicate();
                            let x = b[j].1.duplicate();
                            proof {
                                assert(stuck_at(av, bv, j as int, k, l@, x@, Ctrl::single()));
                                assert(exists|jj: int|
                                    0 <= jj < bv.len() && #[trigger] stuck_at(
                                        av,
                                        bv,
                                        jj,
                                        k,
                                        l@,
                                        x@,
                                        Ctrl::single(),
                                    ));
                            }
                            let ghost lv = l@;
                            let ghost xv = x@;
                            let e = IllFormed::MapMergeConflict(k, l, x);
                            proof {
                                assert(e matches IllFormed::MapMergeConflict(k2, l2, x2) && k2 == k && l2@ == lv
                                    && x2@ == xv);
                                assert(keyed_conflict(e, av, bv));
                            }
                            return Err(e);
                        },
                    }
                },
                None => {
                    let ghost before = out@;
                    out.push((k, b[j].1.duplicate()));
                    proof {
                        lemma_keyed_push(before, out@.last());
                    }
                },
            }
            j = j + 1;
        }
        assert(bv.take(j as int) =~= bv);
        Ok(out)
    }

    /// Whether no key of `wild` lies in `inner`.
    fn apart(
        wild: &Layer<A, S, Ctrl>,
        inner: &Layer<A, S, Ctrl>,
        top: Option<S>,
    ) -> (r: Result<(), IllFormed<A, S, Ctrl>>)
        ensures
            r is Ok <==> !keys_meet(wild@, inner@),
            r matches Err(e) ==> e matches IllFormed::CurryOptMergeConflict(k, x) && k == top
                && meet_witness(wild@, inner@, x),
            r matches Err(e) ==> e == IllFormed::<A, S, Ctrl>::CurryOptMergeConflict(
                top,
                shared_keys(wild@, inner@).unwrap(),
            ),
    {
        match wild.disjoint(inner) {
            Some(overlap) => Err(IllFormed::CurryOptMergeConflict(top, overlap)),
            None => Ok(()),
        }
    }

    /// Check that the wildcard layer shares no key with the others.
    fn check_unshadowed(&self) -> (r: Result<(), IllFormed<A, S, Ctrl>>)
        ensures
            r is Ok <==> unshadowed(self@),
            r matches Err(e) ==> e matches IllFormed::CurryOptMergeConflict(top, x) && shadow_at(
                self@,
                top,
                x,
            ),
            match first_shadow(self@) {
                None => r is Ok,
                Some(p) => r == Err::<(), IllFormed<A, S, Ctrl>>(
                    IllFormed::CurryOptMergeConflict(p.0, p.1),
                ),
            },
    {
        match &self.wildcard {
            None => Ok(()),
            Some(wild) => {
                match &self.none {
                    Some(n) => {
                        assert(self@.wildcard == Some(wild@) && self@.none == Some(n@));
                        match Self::apart(wild, n, None) {
                            Ok(()) => {},
                            Err(e) => {
                                return Err(e);
                            },
                        }
                    },
                    None => {},
                }
                let mut i: usize = 0;
                while i < self.some.len()
                    invariant
                        i <= self.some.len(),
                        self.wildcard == Some(*wild),
                        self@.none matches Some(n) ==> !keys_meet(wild@, n),
                        forall|j: int| 0 <= j < i ==> !keys_meet(wild@, #[trigger] self@.some[j].1),
                        first_shadowed(wild@, self@.some.take(i as int)) is None,
                        first_shadow(self@) == match first_shadowed(wild@, self@.some) {
                            Some(k) => Some((Some(self@.some[k].0), shared_keys(wild@, self@.some[k].1).unwrap())),
                            None => None::<(Option<S>, Option<Range<A>>)>,
                        },
                    decreases self.some.len() - i,
                {
                    proof {
                        let w = self@.some.take(i + 1);
                        assert(w.drop_last() =~= self@.some.take(i as int));
                        assert(w.last() == self@.some[i as int]);
                    }
                    assert(self@.some[i as int].1 == self.some@[i as int].1@);
                    assert(self@.wildcard == Some(wild@));
                    match Self::apart(wild, &self.some[i].1, Some(self.some[i].0)) {
                        Ok(()) => {},
                        Err(e) => {
                            proof {
                                crate::soundness::lemma_first_shadowed_extend(wild@, self@.some, i + 1);
                            }
                            return Err(e);
                        },
                    }
                    i = i + 1;
                }
                assert(self@.some.take(i as int) =~= self@.some);
                Ok(())
            },
        }
    }

    /// Fuse two tables into one, or report the conflict.
    pub fn merge(self, other: &Self) -> (r: Result<Self, IllFormed<A, S, Ctrl>>)
        ensures
            r is Ok <==> table_merge(self@, other@, Ctrl::single()) is Some,
            r matches Ok(m) ==> table_merge(self@, other@, Ctrl::single()) == Some(m@),
            r matches Err(e) ==> match e {
                IllFormed::CurryOptMergeConflict(top, x) => table_parts(
                    self@,
                    other@,
                    Ctrl::single(),
                ) matches Some(c) && shadow_at(c, top, x),
                IllFormed::MapMergeConflict(k, l, x) => wild_merge(l@, x@, Ctrl::single()) is None,
                _ => opt_merge(self@.wildcard, other@.wildcard, Ctrl::single()) is None || opt_merge(
                    self@.none,
                    other@.none,
                    Ctrl::single(),
                ) is None,
            },
            r matches Err(e) ==> table_merge_error(e, self@, other@),
    {
        let ghost a = self@;
        let wildcard = match Self::merge_layers(self.wildcard, &other.wildcard) {
            Ok(w) => w,
            Err(e) => {
                return Err(e);
            },
        };
        let none = match Self::merge_layers(self.none, &other.none) {
            Ok(n) => n,
            Err(e) => {
                return Err(e);
            },
        };
        let some = match Self::merge_keyed(self.some, &other.some) {
            Ok(s) => s,
            Err(e) => {
                return Err(e);
            },
        };
        let merged = CurryOpt { wildcard, none, some };
        match merged.check_unshadowed() {
            Ok(()) => Ok(merged),
            Err(e) => Err(e),
        }
    }

    /// The layer tried after the wildcard, for a given top of stack.
    pub fn get_if_no_wildcard(&self, top: Option<&S>) -> (r: Option<&Layer<A, S, Ctrl>>)
        ensures
            opt_view(unref(r)) == inner_for(self@, unref(top)),
    {
        match top {
            None => {
                let r: Option<&Layer<A, S, Ctrl>> = match &self.none {
                    Some(n) => Some(n),
                    None => None,
                };
                assert(opt_view(unref(r)) == opt_view(self.none));
                assert(inner_for(self@, unref(top)) == self@.none);
                r
            },
            Some(s) => {
                proof {
                    lemma_key_index_view(self.some@, *s);
                }
                match Self::find_key(&self.some, s) {
                    Some(i) => {
                        proof {
                            assert(self@.some[i as int] == (
                                self.some@[i as int].0,
                                self.some@[i as int].1@,
                            ));
                        }
                        Some(&self.some[i].1)
                    },
                    None => None,
                }
            },
        }
    }

    /// Look up the edge for a top of stack and a token.
    pub fn get(&self, top: Option<&S>, t: &A) -> (r: Option<&Return<Edge<S, Ctrl>>>)
        ensures
            r is Some == table_lookup(self@, unref(top), *t) is Some,
            r matches Some(x) ==> table_lookup(self@, unref(top), *t) == Some(x.0@),
    {
        match &self.wildcard {
            Some(w) => match w.get(t) {
                Some(x) => {
                    return Some(x);
                },
                None => {},
            },
            None => {},
        }
        match self.get_if_no_wildcard(top) {
            Some(inner) => inner.get(t),
            None => None,
        }
    }

    /// Check for structural errors.
    pub fn check(&self, size: usize) -> (r: Result<(), IllFormed<A, S, Ctrl>>)
        ensures
            r is Ok <==> table_wf(self@, size as int),
            r matches Err(e) ==> table_fault(self@, size as int, e),
            r matches Err(e) ==> table_error(self@, size as int, e),
    {
        match &self.wildcard {
            Some(w) => match w.check(size) {
                Ok(()) => {},
                Err(e) => {
                    return Err(e);
                },
            },
            None => {},
        }
        match &self.none {
            Some(n) => match n.check(size) {
                Ok(()) => {},
                Err(e) => {
                    return Err(e);
                },
            },
            None => {},
        }
        let ghost sv = self@.some;
        let mut i: usize = 0;
        while i < self.some.len()
            invariant
                i <= self.some.len(),
                sv == self@.some,
                forall|a: int| 0 <= a < i ==> wild_wf(#[trigger] sv[a].1, size as int),
                forall|a: int, b: int| 0 <= a < b < i ==> sv[a].0 != sv[b].0,
                keyed_scan(sv.take(i as int), size as int) is None,
                opt_scan(self@.wildcard, size as int) is None,
                opt_scan(self@.none, size as int) is None,
            decreases self.some.len() - i,
        {
            assert(sv[i as int].1 == self.some@[i as int].1@);
            proof {
                let w = sv.take(i + 1);
                assert(w.drop_last() =~= sv.take(i as int));
                assert(w.last() == sv[i as int]);
            }
            match self.some[i].1.check(size) {
                Ok(()) => {},
                Err(e) => {
                    proof {
                        lemma_keyed_scan_extend(sv, size as int, i + 1);
                    }
                    return Err(e);
                },
            }
            let mut j: usize = 0;
            while j < i
                invariant
                    j <= i < self.some.len(),
                    sv == self@.some,
                    forall|a: int| 0 <= a < j ==> sv[a].0 != sv[i as int].0,
                    keyed_scan(sv.take(i as int), size as int) is None,
                    layer_scan(sv[i as int].1, size as int) is None,
                    sv.take(i + 1).drop_last() == sv.take(i as int),
                    sv.take(i + 1).last() == sv[i as int],
                    opt_scan(self@.wildcard, size as int) is None,
                    opt_scan(self@.none, size as int) is None,
                decreases i - j,
            {
                if same(&self.some[j].0, &self.some[i].0) {
                    assert(sv[j as int].0 == self.some@[j as int].0);
                    assert(sv[i as int].0 == self.some@[i as int].0);
                    assert(!keys_unique(sv));
                    proof {
                        lemma_key_index(sv.take(i as int), sv[i as int].0);
                        assert(sv.take(i as int)[j as int] == sv[j as int]);
                        let jj = key_index(sv.take(i as int), sv[i as int].0).unwrap();
                        assert(sv.take(i as int)[jj] == sv[jj]);
                        assert(jj == j);
                        lemma_keyed_scan_extend(sv, size as int, i + 1);
                        assert(sv[j as int].1 == self.some@[j as int].1@);
                    }
                    return Err(
                        IllFormed::MapMergeConflict(
                            self.some[i].0,
                            self.some[j].1.duplicate(),
                            self.some[i].1.duplicate(),
                        ),
                    );
                }
                j = j + 1;
            }
            proof {
                lemma_key_index(sv.take(i as int), sv[i as int].0);
                if key_index(sv.take(i as int), sv[i as int].0) is Some {
                    let jj = key_index(sv.take(i as int), sv[i as int].0).unwrap();
                    assert(sv.take(i as int)[jj] == sv[jj]);
                }
            }
            i = i + 1;
        }
        assert(sv.take(i as int) =~= sv);
        self.check_unshadowed()
    }
}

/// A failed entry makes the whole keyed merge fail.
pub proof fn lemma_keyed_merge_none<A: Symbol, S>(
    a: Seq<(S, WildcardView<A, S>)>,
    b: Seq<(S, WildcardView<A, S>)>,
    n: int,
    single: bool,
)
    requires
        0 < n <= b.len(),
        keyed_merge(a, b.take(n), single) is None,
    ensures
        keyed_merge(a, b, single) is None,
    decreases b.len(),
{
    if n == b.len() {
        assert(b.take(n) =~= b);
    } else {
        assert(b.drop_last().take(n) =~= b.take(n));
        lemma_keyed_merge_none(a, b.drop_last(), n, single);
    }
}

impl<A: Alphabet, S: Symbol, Ctrl: Indices> CurryOpt<S, Layer<A, S, Ctrl>> {
    /// Whether no key of `wild` lies in the range `r`.
    fn range_clear(wild: &Layer<A, S, Ctrl>, r: &Range<A>) -> (b: bool)
        ensures
            b == forall|t: A| r.has(t) ==> wild_lookup(wild@, t) is None,
    {
        match wild {
            Wildcard::Any(_) => {
                let solid = at_most(&r.first, &r.last);
                proof {
                    if solid {
                        assert(r.has(r.first));
                    }
                }
                !solid
            },
            Wildcard::Specific(u) => {
                let ghost uv = entries_view(u@);
                let mut i: usize = 0;
                while i < u.len()
                    invariant
                        i <= u.len(),
                        uv == entries_view(u@),
                        wild@ == WildcardView::<A, S>::Specific(uv),
                        forall|a: int| 0 <= a < i ==> !(#[trigger] uv[a]).0.meets(r),
                    decreases u.len() - i,
                {
                    assert(uv[i as int].0 == u@[i as int].0);
                    if u[i].0.overlap(r) {
                        proof {
                            let t = choose|t: A| uv[i as int].0.has(t) && r.has(t);
                            lemma_first_hit(uv, t);
                        }
                        return false;
                    }
                    i = i + 1;
                }
                proof {
                    assert forall|t: A| r.has(t) implies wild_lookup(wild@, t) is None by {
                        lemma_first_hit(uv, t);
                        if first_hit(uv, t) is Some {
                            let a = choose|a: int| 0 <= a < uv.len() && uv[a].0.has(t);
                            assert(uv[a].0.meets(r));
                        }
                    }
                }
                true
            },
        }
    }

    /// Drop from `inner` every entry that shares a key with `wild`.
    fn prune(inner: Layer<A, S, Ctrl>, wild: &Layer<A, S, Ctrl>, size: usize) -> (r: Layer<
        A,
        S,
        Ctrl,
    >)
        requires
            wild_wf(inner@, size as int),
        ensures
            wild_wf(r@, size as int),
            !keys_meet(wild@, r@),
            r@ == pruned(inner@, wild@),
            layer_kinds_ok(inner@) ==> layer_kinds_ok(r@),
    {
        match inner {
            Wildcard::Any(e) => {
                let inner = Wildcard::Any(e);
                match wild.disjoint(&inner) {
                    Some(_) => {
                        let none_kept: Vec<(Range<A>, Return<Edge<S, Ctrl>>)> = Vec::new();
                        assert(entries_view(none_kept@) =~= Seq::<(Range<A>, EdgeView<S>)>::empty());
                        let r: Layer<A, S, Ctrl> = Wildcard::Specific(none_kept);
                        proof {
                            assert forall|t: A| !(wild_lookup(wild@, t) is Some && wild_lookup(r@, t) is Some) by {
                                assert(entries_view(Seq::<(Range<A>, Return<Edge<S, Ctrl>>)>::empty())
                                    =~= Seq::empty());
                            }
                            assert(r@ == pruned(inner@, wild@));
                        }
                        r
                    },
                    None => {
                        assert(inner@ == pruned(inner@, wild@));
                        inner
                    },
                }
            },
            Wildcard::Specific(v) => {
                let ghost vs = entries_view(v@);
                let ghost mut idx: Seq<int> = Seq::empty();
                let mut kept: Vec<(Range<A>, Return<Edge<S, Ctrl>>)> = Vec::new();
                let mut k: usize = 0;
                while k < v.len()
                    invariant
                        k <= v.len(),
                        vs == entries_view(v@),
                        wild_wf(WildcardView::<A, S>::Specific(vs), size as int),
                        idx.len() == kept.len(),
                        entries_view(kept@) == clear_entries(vs.take(k as int), wild@),
                        forall|a: int| 0 <= a < idx.len() ==> 0 <= #[trigger] idx[a] < k,
                        forall|a: int, b: int| 0 <= a < b < idx.len() ==> idx[a] < idx[b],
                        forall|a: int|
                            0 <= a < idx.len() ==> #[trigger] entries_view(kept@)[a] == vs[idx[a]],
                        forall|a: int|
                            0 <= a < kept.len() ==> forall|t: A|
                                (#[trigger] entries_view(kept@)[a]).0.has(t) ==> wild_lookup(
                                    wild@,
                                    t,
                                ) is None,
                    decreases v.len() - k,
                {
                    proof {
                        let w = vs.take(k + 1);
                        assert(w.drop_last() =~= vs.take(k as int));
                        assert(w.last() == vs[k as int]);
                        assert(vs[k as int] == (v@[k as int].0, v@[k as int].1.0@));
                    }
                    if Self::range_clear(wild, &v[k].0) {
                        let ghost before = kept@;
                        kept.push((v[k].0, Return(v[k].1.0.duplicate())));
                        proof {
                            crate::wildcard::lemma_entries_push(before, kept@.last());
                            assert(vs[k as int] == (v@[k as int].0, v@[k as int].1.0@));
                            idx = idx.push(k as int);
                        }
                    }
                    k = k + 1;
                }
                assert(vs.take(k as int) =~= vs);
                let r: Layer<A, S, Ctrl> = Wildcard::Specific(kept);
                proof {
                    let kv = entries_view(kept@);
                    assert forall|a: int, b: int| 0 <= a < b < kv.len() implies !kv[a].0.meets(
                        &kv[b].0,
                    ) by {
                        assert(kv[a] == vs[idx[a]]);
                        assert(kv[b] == vs[idx[b]]);
                    }
                    assert forall|a: int| 0 <= a < kv.len() implies in_bounds(
                        #[trigger] kv[a].1.dst,
                        size as int,
                    ) by {
                        assert(kv[a] == vs[idx[a]]);
                    }
                    assert forall|t: A| !(wild_lookup(wild@, t) is Some && wild_lookup(r@, t) is Some) by {
                        lemma_first_hit(kv, t);
                        if first_hit(kv, t) is Some {
                            let a = choose|a: int| 0 <= a < kv.len() && kv[a].0.has(t);
                            assert(entries_view(kept@)[a].0.has(t));
                        }
                    }
                    assert(r@ == pruned(inner@, wild@));
                }
                r
            },
        }
    }

    /// Eliminate absurd relations: clamp destinations modulo `size`, drop
    /// overlapping ranges, repeated stack symbols, and entries shadowed by the
    /// wildcard layer.
    pub fn deabsurdify(&mut self, size: usize)
        requires
            size > 0,
        ensures
            table_wf(final(self)@, size as int),
            table_kinds_ok(final(self)@),
            final(self)@ == table_sanitized(old(self)@, size),
    {
        let wildcard = match &self.wildcard {
            Some(w) => {
                let mut w2 = w.duplicate();
                w2.deabsurdify(size);
                Some(w2)
            },
            None => None,
        };
        let none = match &self.none {
            Some(n) => {
                let mut n2 = n.duplicate();
                n2.deabsurdify(size);
                match &wildcard {
                    Some(w) => Some(Self::prune(n2, w, size)),
                    None => Some(n2),
                }
            },
            None => None,
        };
        let ghost wv = opt_view(wildcard);
        let ghost ov = keyed_view(self.some@);
        assert(wv == table_sanitized(self@, size).wildcard);
        assert(opt_view(none) == table_sanitized(self@, size).none);
        let mut some: Vec<(S, Layer<A, S, Ctrl>)> = Vec::new();
        let old_some = &self.some;
        let mut k: usize = 0;
        while k < old_some.len()
            invariant
                k <= old_some.len(),
                size > 0,
                wv == opt_view(wildcard),
                ov == keyed_view(old_some@),
                ov == old(self)@.some,
                wv == table_sanitized(old(self)@, size).wildcard,
                opt_view(none) == table_sanitized(old(self)@, size).none,
                keyed_view(some@) == tidy_entries(first_keys(ov.take(k as int)), wv, size),
                wildcard matches Some(w) ==> layer_kinds_ok(w@),
                none matches Some(n) ==> layer_kinds_ok(n@),
                forall|i: int|
                    0 <= i < some.len() ==> layer_kinds_ok(#[trigger] keyed_view(some@)[i].1),
                keys_unique(keyed_view(some@)),
                forall|i: int|
                    0 <= i < some.len() ==> wild_wf(#[trigger] keyed_view(some@)[i].1, size as int),
                wildcard matches Some(w) ==> forall|i: int|
                    0 <= i < some.len() ==> !keys_meet(w@, #[trigger] keyed_view(some@)[i].1),
            decreases old_some.len() - k,
        {
            let key = old_some[k].0;
            let ghost d = first_keys(ov.take(k as int));
            proof {
                lemma_key_index_view(some@, key);
                lemma_key_index(keyed_view(some@), key);
                lemma_tidy_entries_keys(d, wv, size);
                crate::soundness::lemma_key_index_same_keys(keyed_view(some@), d, key);
                let w = ov.take(k + 1);
                assert(w.drop_last() =~= ov.take(k as int));
                assert(w.last() == ov[k as int]);
                assert(ov[k as int] == (old_some@[k as int].0, old_some@[k as int].1@));
                assert(d.push(ov[k as int]).drop_last() =~= d);
            }
            match Self::find_key(&some, &key) {
                Some(_) => {},
                None => {
                    let mut layer = old_some[k].1.duplicate();
                    layer.deabsurdify(size);
                    let layer = match &wildcard {
                        Some(w) => Self::prune(layer, w, size),
                        None => layer,
                    };
                    let ghost before = some@;
                    some.push((key, layer));
                    proof {
                        lemma_keyed_push(before, some@.last());
                    }
                },
            }
            k = k + 1;
        }
        assert(ov.take(k as int) =~= ov);
        self.wildcard = wildcard;
        self.none = none;
        self.some = some;
    }

    /// The layers of this table: wildcard, then empty stack, then each stack symbol.
    pub fn values(&self) -> (r: Vec<&Layer<A, S, Ctrl>>)
        ensures
            r@.len() == (if self.wildcard is Some { 1int } else { 0 }) + (if self.none is Some {
                1int
            } else {
                0
            }) + self.some.len(),
            forall|i: int| 0 <= i < r.len() ==> table_layer(*self, i) == Some(*(#[trigger] r@[i])),
    {
        let mut r: Vec<&Layer<A, S, Ctrl>> = Vec::new();
        match &self.wildcard {
            Some(w) => r.push(w),
            None => {},
        }
        let rest = self.values_without_wildcard();
        let ghost base = r@;
        let mut k: usize = 0;
        while k < rest.len()
            invariant
                k <= rest.len(),
                r@ == base + rest@.take(k as int),
                base.len() == if self.wildcard is Some { 1int } else { 0 },
                self.wildcard matches Some(w) ==> *base[0] == w,
            decreases rest.len() - k,
        {
            r.push(rest[k]);
            proof {
                assert(r@ =~= base + rest@.take(k + 1));
            }
            k = k + 1;
        }
        assert(rest@.take(k as int) =~= rest@);
        r
    }

    /// The layers of this table other than the wildcard: empty stack, then
    /// each stack symbol.
    pub fn values_without_wildcard(&self) -> (r: Vec<&Layer<A, S, Ctrl>>)
        ensures
            r@.len() == (if self.none is Some { 1int } else { 0 }) + self.some.len(),
            self.none matches Some(n) ==> *r@[0] == n,
            forall|i: int|
                0 <= i < self.some.len() ==> *r@[i + if self.none is Some { 1int } else { 0 }]
                    == self.some@[i].1,
    {
        let mut r: Vec<&Layer<A, S, Ctrl>> = Vec::new();
        match &self.none {
            Some(n) => r.push(n),
            None => {},
        }
        let ghost off: int = if self.none is Some { 1int } else { 0 };
        let mut k: usize = 0;
        while k < self.some.len()
            invariant
                k <= self.some.len(),
                r.len() == off + k,
                off == if self.none is Some { 1int } else { 0 },
                self.none matches Some(n) ==> *r@[0] == n,
                forall|i: int| 0 <= i < k ==> *r@[i + off] == self.some@[i].1,
            decreases self.some.len() - k,
        {
            r.push(&self.some[k].1);
            k = k + 1;
        }
        r
    }

    /// The stack-top keys of this table other than the wildcard: `None` for
    /// the empty stack, then each stack symbol.
    pub fn keys_without_wildcard(&self) -> (r: Vec<Option<S>>)
        ensures
            r@ == (if self.none is Some { seq![None] } else { Seq::empty() }) + self.some@.map_values(
                |p: (S, Layer<A, S, Ctrl>)| Some(p.0),
            ),
    {
        let mut r: Vec<Option<S>> = Vec::new();
        if self.none.is_some() {
            r.push(None);
        }
        let ghost base = r@;
        let mut k: usize = 0;
        while k < self.some.len()
            invariant
                k <= self.some.len(),
                base == (if self.none is Some { seq![None] } else { Seq::<Option<S>>::empty() }),
                r@ == base + self.some@.take(k as int).map_values(
                    |p: (S, Layer<A, S, Ctrl>)| Some(p.0),
                ),
            decreases self.some.len() - k,
        {
            r.push(Some(self.some[k].0));
            proof {
                assert(self.some@.take(k + 1).map_values(|p: (S, Layer<A, S, Ctrl>)| Some(p.0))
                    =~= self.some@.take(k as int).map_values(|p: (S, Layer<A, S, Ctrl>)| Some(p.0)).push(
                    Some(self.some@[k as int].0),
                ));
                assert(r@ =~= base + self.some@.take(k + 1).map_values(
                    |p: (S, Layer<A, S, Ctrl>)| Some(p.0),
                ));
            }
            k = k + 1;
        }
        assert(self.some@.take(k as int) =~= self.some@);
        r
    }
}

/// The `i`-th layer of a table, counting the wildcard, then the empty-stack
/// layer, then the keyed layers.
pub open spec fn table_layer<A, S, Ctrl>(c: CurryOpt<S, Layer<A, S, Ctrl>>, i: int) -> Option<
    Layer<A, S, Ctrl>,
> {
    let w: int = if c.wildcard is Some { 1 } else { 0 };
    let n: int = if c.none is Some { 1 } else { 0 };
    if i < 0 {
        None
    } else if i < w {
        c.wildcard
    } else if i < w + n {
        c.none
    } else if i < w + n + c.some.len() {
        Some(c.some@[i - w - n].1)
    } else {
        None
    }
}

/// Every layer of the table agrees with the kinds of the tokens it matches.
pub open spec fn table_kinds_ok<A: Alphabet, S>(c: CurryOptView<A, S>) -> bool {
    &&& (c.wildcard matches Some(w) ==> layer_kinds_ok(w))
    &&& (c.none matches Some(n) ==> layer_kinds_ok(n))
    &&& forall|i: int| 0 <= i < c.some.len() ==> layer_kinds_ok(#[trigger] c.some[i].1)
}

/// The first keyed layer, in order, whose tokens disagree with an edge's kind.
pub open spec fn keyed_stray<A: Alphabet, S>(m: Seq<(S, WildcardView<A, S>)>) -> Option<(Kind, Kind)>
    decreases m.len(),
{
    if m.len() == 0 {
        None
    } else {
        match keyed_stray(m.drop_last()) {
            Some(p) => Some(p),
            None => layer_stray(m.last().1),
        }
    }
}

/// The kinds that `stray` reports for a table: from the wildcard layer, else
/// the empty-stack layer, else the first keyed layer.
pub open spec fn table_stray<A: Alphabet, S>(c: CurryOptView<A, S>) -> Option<(Kind, Kind)> {
    let w = match c.wildcard {
        Some(x) => layer_stray(x),
        None => None,
    };
    let n = match c.none {
        Some(x) => layer_stray(x),
        None => None,
    };
    if w is Some {
        w
    } else if n is Some {
        n
    } else {
        keyed_stray(c.some)
    }
}

/// In some layer of the table, a token of kind `tk` fires an edge of kind `ek`.
pub open spec fn table_clash<A: Alphabet, S>(c: CurryOptView<A, S>, tk: Kind, ek: Kind) -> bool {
    ||| (c.wildcard matches Some(w) && kind_clash(w, tk, ek))
    ||| (c.none matches Some(n) && kind_clash(n, tk, ek))
    ||| exists|i: int| 0 <= i < c.some.len() && kind_clash(#[trigger] c.some[i].1, tk, ek)
}

impl<A: Alphabet, S: Symbol, Ctrl: Indices> CurryOpt<S, Layer<A, S, Ctrl>> {
    /// A token kind and an edge kind that disagree in this table, if any.
    pub fn stray(&self) -> (r: Option<(Kind, Kind)>)
        ensures
            r is None <==> table_kinds_ok(self@),
            r matches Some(p) ==> table_clash(self@, p.0, p.1),
            r == table_stray(self@),
    {
        match &self.wildcard {
            Some(w) => match w.stray() {
                Some(p) => {
                    return Some(p);
                },
                None => {},
            },
            None => {},
        }
        match &self.none {
            Some(n) => match n.stray() {
                Some(p) => {
                    return Some(p);
                },
                None => {},
            },
            None => {},
        }
        let mut i: usize = 0;
        while i < self.some.len()
            invariant
                i <= self.some.len(),
                self@.wildcard matches Some(w) ==> layer_kinds_ok(w),
                self@.none matches Some(n) ==> layer_kinds_ok(n),
                forall|j: int| 0 <= j < i ==> layer_kinds_ok(#[trigger] self@.some[j].1),
                keyed_stray(self@.some.take(i as int)) is None,
                table_stray(self@) == keyed_stray(self@.some),
            decreases self.some.len() - i,
        {
            assert(self@.some[i as int].1 == self.some@[i as int].1@);
            proof {
                let w = self@.some.take(i + 1);
                assert(w.drop_last() =~= self@.some.take(i as int));
                assert(w.last() == self@.some[i as int]);
            }
            match self.some[i].1.stray() {
                Some(p) => {
                    proof {
                        crate::soundness::lemma_keyed_stray_extend(self@.some, i + 1);
                    }
                    return Some(p);
                },
                None => {},
            }
            i = i + 1;
        }
        assert(self@.some.take(i as int) =~= self@.some);
        None
    }
}

} // verus!
