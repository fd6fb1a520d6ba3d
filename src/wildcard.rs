//! Map layer keyed by input tokens: either every token, or specific ranges.

use crate::alphabet::{at_most, Alphabet, Kind, Symbol};
use crate::edge::{edge_conflict, fuse_views, in_bounds, Edge, EdgeView};
use crate::error::IllFormed;
use crate::indices::Indices;
use crate::lookup::Return;
use crate::range::{overlap_of, Range};
use core::cmp::Ordering;
use vstd::prelude::*;

verus! {

/// Match either (a) literally anything or (b) certain ranges of values.
#[derive(Clone, Debug, PartialEq, Eq, Hash, PartialOrd, Ord)]
pub enum Wildcard<Arg, Etc> {
    /// Match literally anything.
    Any(Etc),
    /// Match specific ranges of values.
    Specific(Vec<(Range<Arg>, Etc)>),
}

/// What a token layer means: one edge for every token, or edges on ranges.
pub enum WildcardView<A, S> {
    /// One edge for every token.
    Any(EdgeView<S>),
    /// Edges on ranges of tokens, tried in order.
    Specific(Seq<(Range<A>, EdgeView<S>)>),
}

/// The value of the first entry whose range holds `t`.
pub open spec fn first_hit<A: Symbol, E>(v: Seq<(Range<A>, E)>, t: A) -> Option<E>
    decreases v.len(),
{
    if v.len() == 0 {
        None
    } else {
        let r = first_hit(v.drop_last(), t);
        if r is Some {
            r
        } else if v.last().0.has(t) {
            Some(v.last().1)
        } else {
            None
        }
    }
}

/// The edge that a token layer gives for `t`, if any.
pub open spec fn wild_lookup<A: Symbol, S>(w: WildcardView<A, S>, t: A) -> Option<EdgeView<S>> {
    match w {
        WildcardView::Any(e) => Some(e),
        WildcardView::Specific(v) => first_hit(v, t),
    }
}

/// No range of `u` meets a range of `v`.
pub open spec fn ranges_apart<A: Symbol, E, F>(u: Seq<(Range<A>, E)>, v: Seq<(Range<A>, F)>) -> bool {
    forall|i: int, j: int| 0 <= i < u.len() && 0 <= j < v.len() ==> !u[i].0.meets(&v[j].0)
}

/// The ranges of `v` are pairwise disjoint.
pub open spec fn spread_apart<A: Symbol, E>(v: Seq<(Range<A>, E)>) -> bool {
    forall|i: int, j: int| 0 <= i < j < v.len() ==> !v[i].0.meets(&v[j].0)
}

/// The merge of two token layers, where it is defined.
pub open spec fn wild_merge<A: Symbol, S>(
    a: WildcardView<A, S>,
    b: WildcardView<A, S>,
    single: bool,
) -> Option<WildcardView<A, S>> {
    match (a, b) {
        (WildcardView::Any(x), WildcardView::Any(y)) => match fuse_views(x, y, single) {
            Some(z) => Some(WildcardView::Any(z)),
            None => None,
        },
        (WildcardView::Any(x), WildcardView::Specific(v)) => if v.len() == 0 {
            Some(WildcardView::Any(x))
        } else {
            None
        },
        (WildcardView::Specific(u), WildcardView::Any(y)) => if u.len() == 0 {
            Some(WildcardView::Any(y))
        } else {
            None
        },
        (WildcardView::Specific(u), WildcardView::Specific(v)) => if ranges_apart(u, v) {
            Some(WildcardView::Specific(u + v))
        } else {
            None
        },
    }
}

/// A well-formed token layer: disjoint ranges, destinations below `size`.
pub open spec fn wild_wf<A: Symbol, S>(w: WildcardView<A, S>, size: int) -> bool {
    match w {
        WildcardView::Any(e) => in_bounds(e.dst, size),
        WildcardView::Specific(v) => spread_apart(v) && forall|i: int|
            0 <= i < v.len() ==> in_bounds(#[trigger] v[i].1.dst, size),
    }
}

/// Some token is matched by both layers.
pub open spec fn keys_meet<A: Symbol, S>(a: WildcardView<A, S>, b: WildcardView<A, S>) -> bool {
    exists|t: A| wild_lookup(a, t) is Some && wild_lookup(b, t) is Some
}

/// Where a range holds no value.
pub open spec fn hollow<A: Symbol>(r: Range<A>) -> bool {
    r.first.rank() > r.last.rank()
}

/// An edge with each destination replaced by its remainder modulo `size`.
pub open spec fn wrap_edge<S>(e: EdgeView<S>, size: usize) -> EdgeView<S> {
    EdgeView { dst: e.dst.map(|i: usize| (i % size) as usize), ..e }
}

/// Entries with each destination replaced by its remainder modulo `size`.
pub open spec fn wrap_entries<A, S>(v: Seq<(Range<A>, EdgeView<S>)>, size: usize) -> Seq<
    (Range<A>, EdgeView<S>),
> {
    v.map_values(|p: (Range<A>, EdgeView<S>)| (p.0, wrap_edge(p.1, size)))
}

/// Every token of the range `r` has the kind `k`.
pub open spec fn uniform<A: Alphabet>(r: Range<A>, k: Kind) -> bool {
    forall|t: A| #![trigger t.kind_of()] r.has(t) ==> t.kind_of() == k
}

/// The entries kept when clamping a specific layer: each entry whose tokens
/// all have its edge's kind and whose range meets no range kept before it,
/// with its destinations wrapped.
pub open spec fn kept_entries<A: Alphabet, S>(v: Seq<(Range<A>, EdgeView<S>)>, size: usize) -> Seq<
    (Range<A>, EdgeView<S>),
>
    decreases v.len(),
{
    if v.len() == 0 {
        Seq::empty()
    } else {
        let kp = kept_entries(v.drop_last(), size);
        if (exists|a: int| 0 <= a < kp.len() && kp[a].0.meets(&v.last().0)) || !uniform(
            v.last().0,
            v.last().1.kind,
        ) {
            kp
        } else {
            kp.push((v.last().0, wrap_edge(v.last().1, size)))
        }
    }
}

/// A layer after clamping: destinations wrapped, entries that overlap an
/// earlier one or disagree with their tokens' kinds dropped.
pub open spec fn sanitized<A: Alphabet, S>(w: WildcardView<A, S>, size: usize) -> WildcardView<A, S> {
    match w {
        WildcardView::Any(e) => if forall|t: A| #[trigger] t.kind_of() == e.kind {
            WildcardView::Any(wrap_edge(e, size))
        } else {
            WildcardView::Specific(Seq::empty())
        },
        WildcardView::Specific(v) => WildcardView::Specific(kept_entries(v, size)),
    }
}

/// The entries of a table with each edge replaced by its meaning.
pub open spec fn entries_view<A, S, Ctrl: Indices>(v: Seq<(Range<A>, Return<Edge<S, Ctrl>>)>) -> Seq<
    (Range<A>, EdgeView<S>),
> {
    v.map_values(|p: (Range<A>, Return<Edge<S, Ctrl>>)| (p.0, p.1.0@))
}

/// Appending an entry appends its meaning.
pub proof fn lemma_entries_push<A, S, Ctrl: Indices>(
    v: Seq<(Range<A>, Return<Edge<S, Ctrl>>)>,
    x: (Range<A>, Return<Edge<S, Ctrl>>),
)
    ensures
        entries_view(v.push(x)) == entries_view(v).push((x.0, x.1.0@)),
{
    assert(entries_view(v.push(x)) =~= entries_view(v).push((x.0, x.1.0@)));
}

/// The ranges of a table's entries.
pub open spec fn entry_ranges<A, E>(v: Seq<(Range<A>, E)>) -> Seq<Range<A>> {
    v.map_values(|p: (Range<A>, E)| p.0)
}

/// `a` matches every token, `b` has entries, and `rs` are their ranges.
pub open spec fn any_meets_specific<A, S>(a: WildcardView<A, S>, b: WildcardView<A, S>, rs: Seq<Range<A>>) -> bool {
    &&& a is Any
    &&& match b {
        WildcardView::Specific(v) => v.len() > 0 && rs == entry_ranges(v),
        WildcardView::Any(_) => false,
    }
}

/// Some destination of the layer names no state.
pub open spec fn layer_out_of_bounds<A, S>(w: WildcardView<A, S>, size: int) -> bool {
    match w {
        WildcardView::Any(e) => !in_bounds(e.dst, size),
        WildcardView::Specific(v) => exists|i: int| 0 <= i < v.len() && !in_bounds(#[trigger] v[i].1.dst, size),
    }
}

/// `e` reports a fault that the layer `w` has: a destination out of bounds,
/// or two overlapping ranges with their overlap.
pub open spec fn layer_fault<A: Symbol, S, Ctrl>(w: WildcardView<A, S>, size: int, e: IllFormed<A, S, Ctrl>) -> bool {
    match e {
        IllFormed::OutOfBounds => layer_out_of_bounds(w, size),
        IllFormed::VecMergeConflict(x) => match w {
            WildcardView::Specific(v) => exists|i: int, j: int|
                #![trigger v[i], v[j]]
                0 <= i < j < v.len() && v[i].0.meets(&v[j].0) && x == overlap_of(v[i].0, v[j].0),
            WildcardView::Any(_) => false,
        },
        _ => false,
    }
}

/// The index of the first entry whose range holds a value.
pub open spec fn first_solid_index<A: Symbol, E>(v: Seq<(Range<A>, E)>) -> Option<int>
    decreases v.len(),
{
    if v.len() == 0 {
        None
    } else {
        match first_solid_index(v.drop_last()) {
            Some(k) => Some(k),
            None => if !hollow(v.last().0) {
                Some(v.len() - 1)
            } else {
                None
            },
        }
    }
}

/// The index of the first entry whose range meets `r`.
pub open spec fn first_meeting<A: Symbol, E>(v: Seq<(Range<A>, E)>, r: Range<A>) -> Option<int>
    decreases v.len(),
{
    if v.len() == 0 {
        None
    } else {
        match first_meeting(v.drop_last(), r) {
            Some(k) => Some(k),
            None => if v.last().0.meets(&r) {
                Some(v.len() - 1)
            } else {
                None
            },
        }
    }
}

/// The first pair of entries, in the order of `u` and then of `v`, whose
/// ranges meet.
pub open spec fn first_pair<A: Symbol, E, F>(u: Seq<(Range<A>, E)>, v: Seq<(Range<A>, F)>) -> Option<
    (int, int),
>
    decreases u.len(),
{
    if u.len() == 0 {
        None
    } else {
        match first_pair(u.drop_last(), v) {
            Some(p) => Some(p),
            None => match first_meeting(v, u.last().0) {
                Some(j) => Some((u.len() - 1, j)),
                None => None,
            },
        }
    }
}

/// The keys two layers share, as `disjoint` reports them: nothing where
/// they share none; for two match-anything layers, no range; against a
/// match-anything layer, the first range that holds a value; for two specific
/// layers, the overlap of the first pair of ranges that meet.
pub open spec fn shared_keys<A: Symbol, S>(a: WildcardView<A, S>, b: WildcardView<A, S>) -> Option<
    Option<Range<A>>,
> {
    match (a, b) {
        (WildcardView::Any(_), WildcardView::Any(_)) => Some(None),
        (WildcardView::Any(_), WildcardView::Specific(v)) => match first_solid_index(v) {
            Some(k) => Some(Some(v[k].0)),
            None => None,
        },
        (WildcardView::Specific(v), WildcardView::Any(_)) => match first_solid_index(v) {
            Some(k) => Some(Some(v[k].0)),
            None => None,
        },
        (WildcardView::Specific(u), WildcardView::Specific(v)) => match first_pair(u, v) {
            Some(p) => Some(Some(overlap_of(u[p.0].0, v[p.1].0))),
            None => None,
        },
    }
}

/// A stray entry found in a prefix is the first of the whole.
pub proof fn lemma_entries_stray_extend<A: Alphabet, S>(v: Seq<(Range<A>, EdgeView<S>)>, n: int)
    requires
        0 <= n <= v.len(),
        entries_stray(v.take(n)) is Some,
    ensures
        entries_stray(v) == entries_stray(v.take(n)),
    decreases v.len(),
{
    if n == v.len() {
        assert(v.take(n) =~= v);
    } else {
        assert(v.drop_last().take(n) =~= v.take(n));
        lemma_entries_stray_extend(v.drop_last(), n);
    }
}

/// A fault found scanning a prefix is the first fault of the whole.
pub proof fn lemma_entries_scan_extend<A: Symbol, S>(v: Seq<(Range<A>, EdgeView<S>)>, size: int, n: int)
    requires
        0 <= n <= v.len(),
        entries_scan(v.take(n), size) is Some,
    ensures
        entries_scan(v, size) == entries_scan(v.take(n), size),
    decreases v.len(),
{
    if n == v.len() {
        assert(v.take(n) =~= v);
    } else {
        assert(v.drop_last().take(n) =~= v.take(n));
        lemma_entries_scan_extend(v.drop_last(), size, n);
    }
}

/// A first solid entry found in a prefix is the first of the whole.
pub proof fn lemma_first_solid_extend<A: Symbol, E>(v: Seq<(Range<A>, E)>, n: int)
    requires
        0 <= n <= v.len(),
        first_solid_index(v.take(n)) is Some,
    ensures
        first_solid_index(v) == first_solid_index(v.take(n)),
    decreases v.len(),
{
    if n == v.len() {
        assert(v.take(n) =~= v);
    } else {
        assert(v.drop_last().take(n) =~= v.take(n));
        lemma_first_solid_extend(v.drop_last(), n);
    }
}

/// A first meeting entry found in a prefix is the first of the whole.
pub proof fn lemma_first_meeting_extend<A: Symbol, E>(v: Seq<(Range<A>, E)>, r: Range<A>, n: int)
    requires
        0 <= n <= v.len(),
        first_meeting(v.take(n), r) is Some,
    ensures
        first_meeting(v, r) == first_meeting(v.take(n), r),
    decreases v.len(),
{
    if n == v.len() {
        assert(v.take(n) =~= v);
    } else {
        assert(v.drop_last().take(n) =~= v.take(n));
        lemma_first_meeting_extend(v.drop_last(), r, n);
    }
}

/// A first meeting pair found in a prefix is the first of the whole.
pub proof fn lemma_first_pair_extend<A: Symbol, E, F>(u: Seq<(Range<A>, E)>, v: Seq<(Range<A>, F)>, n: int)
    requires
        0 <= n <= u.len(),
        first_pair(u.take(n), v) is Some,
    ensures
        first_pair(u, v) == first_pair(u.take(n), v),
    decreases u.len(),
{
    if n == u.len() {
        assert(u.take(n) =~= u);
    } else {
        assert(u.drop_last().take(n) =~= u.take(n));
        lemma_first_pair_extend(u.drop_last(), v, n);
    }
}

/// The first fault met scanning the entries in order: for each entry, an
/// earlier entry whose range meets it (`Some(Some(overlap))`, with the first
/// such earlier entry), else a destination out of bounds (`Some(None)`).
pub open spec fn entries_scan<A: Symbol, S>(v: Seq<(Range<A>, EdgeView<S>)>, size: int) -> Option<
    Option<Range<A>>,
>
    decreases v.len(),
{
    if v.len() == 0 {
        None
    } else {
        match entries_scan(v.drop_last(), size) {
            Some(f) => Some(f),
            None => match first_meeting(v.drop_last(), v.last().0) {
                Some(j) => Some(Some(overlap_of(v[j].0, v.last().0))),
                None => if !in_bounds(v.last().1.dst, size) {
                    Some(None)
                } else {
                    None
                },
            },
        }
    }
}

/// The first fault of a layer, as `check` meets it.
pub open spec fn layer_scan<A: Symbol, S>(w: WildcardView<A, S>, size: int) -> Option<Option<Range<A>>> {
    match w {
        WildcardView::Any(e) => if !in_bounds(e.dst, size) {
            Some(None)
        } else {
            None
        },
        WildcardView::Specific(v) => entries_scan(v, size),
    }
}

/// The error that reports a fault found by a scan.
pub open spec fn scan_error<A, S, Ctrl>(f: Option<Range<A>>) -> IllFormed<A, S, Ctrl> {
    match f {
        Some(x) => IllFormed::VecMergeConflict(x),
        None => IllFormed::OutOfBounds,
    }
}

/// `e` reports why the layers `a` and `b` do not merge: the edges' conflict
/// for two match-anything layers; the ranges of the specific side against a
/// match-anything one; the overlap of the first pair of ranges that meet for
/// two specific layers.
pub open spec fn wild_conflict<A: Symbol, S, Ctrl: Indices>(
    e: IllFormed<A, S, Ctrl>,
    a: WildcardView<A, S>,
    b: WildcardView<A, S>,
) -> bool {
    match e {
        IllFormed::WildcardMergeConflict(rs) => any_meets_specific(a, b, rs@) || any_meets_specific(
            b,
            a,
            rs@,
        ),
        IllFormed::VecMergeConflict(x) => match (a, b) {
            (WildcardView::Specific(u), WildcardView::Specific(v)) => first_pair(u, v) matches Some(p)
                && x == overlap_of(u[p.0].0, v[p.1].0),
            _ => false,
        },
        _ => match (a, b) {
            (WildcardView::Any(x), WildcardView::Any(y)) => edge_conflict(e, x, y),
            _ => false,
        },
    }
}

/// Whether `x` is exactly the overlap of `a` and `b`.
pub open spec fn is_overlap<A: Symbol>(x: Range<A>, a: Range<A>, b: Range<A>) -> bool {
    forall|v: A| x.has(v) <==> (a.has(v) && b.has(v))
}

/// A first hit in a prefix is the first hit of the whole sequence.
pub proof fn lemma_first_hit_extend<A: Symbol, E>(v: Seq<(Range<A>, E)>, k: int, t: A)
    requires
        0 <= k <= v.len(),
        first_hit(v.take(k), t) is Some,
    ensures
        first_hit(v, t) == first_hit(v.take(k), t),
    decreases v.len(),
{
    if k == v.len() {
        assert(v.take(k) =~= v);
    } else {
        assert(v.drop_last().take(k) =~= v.take(k));
        lemma_first_hit_extend(v.drop_last(), k, t);
    }
}

/// A hit exists exactly when some range holds the token; it is the value of
/// the first such entry.
pub proof fn lemma_first_hit<A: Symbol, E>(v: Seq<(Range<A>, E)>, t: A)
    ensures
        first_hit(v, t) is Some <==> exists|i: int| 0 <= i < v.len() && v[i].0.has(t),
        first_hit(v, t) matches Some(e) ==> exists|i: int|
            0 <= i < v.len() && v[i].0.has(t) && v[i].1 == e && forall|j: int|
                0 <= j < i ==> !v[j].0.has(t),
    decreases v.len(),
{
    if v.len() > 0 {
        let w = v.drop_last();
        lemma_first_hit(w, t);
        assert forall|j: int| 0 <= j < w.len() implies v[j] == w[j] by {
        }
        if first_hit(w, t) is Some {
            let i = choose|i: int|
                0 <= i < w.len() && w[i].0.has(t) && w[i].1 == first_hit(w, t).unwrap() && forall|
                    j: int,
                | 0 <= j < i ==> !w[j].0.has(t);
            assert(v[i] == w[i]);
            assert(first_hit(v, t) == first_hit(w, t));
            assert(0 <= i < v.len() && v[i].0.has(t) && v[i].1 == first_hit(v, t).unwrap()
                && forall|j: int| 0 <= j < i ==> !v[j].0.has(t));
        } else {
            if v.last().0.has(t) {
                let i = v.len() - 1;
                assert(v[i].0.has(t));
                assert forall|j: int| 0 <= j < i implies !v[j].0.has(t) by {
                    assert(v[j] == w[j]);
                }
                assert(first_hit(v, t) == Some(v[i].1));
                assert(0 <= i < v.len() && v[i].0.has(t) && v[i].1 == first_hit(v, t).unwrap()
                    && forall|j: int| 0 <= j < i ==> !v[j].0.has(t));
            } else {
                assert forall|i: int| 0 <= i < v.len() implies !v[i].0.has(t) by {
                    if i < v.len() - 1 {
                        assert(v[i] == w[i]);
                    }
                }
            }
        }
    }
}

impl<A, S, Ctrl: Indices> View for Wildcard<A, Return<Edge<S, Ctrl>>> {
    type V = WildcardView<A, S>;

    open spec fn view(&self) -> WildcardView<A, S> {
        match self {
            Wildcard::Any(e) => WildcardView::Any(e.0@),
            Wildcard::Specific(v) => WildcardView::Specific(entries_view(v@)),
        }
    }
}

impl<A: Symbol, S: Symbol, Ctrl: Indices> Wildcard<A, Return<Edge<S, Ctrl>>> {
    /// Look up the edge for a token.
    pub fn get(&self, t: &A) -> (r: Option<&Return<Edge<S, Ctrl>>>)
        ensures
            r is Some == wild_lookup(self@, *t) is Some,
            r matches Some(x) ==> wild_lookup(self@, *t) == Some(x.0@),
    {
        match self {
            Wildcard::Any(x) => Some(x),
            Wildcard::Specific(v) => {
                let ghost vs = entries_view(v@);
                assert(self@ == WildcardView::<A, S>::Specific(vs));
                let mut k: usize = 0;
                while k < v.len()
                    invariant
                        k <= v.len(),
                        vs == entries_view(v@),
                        self@ == WildcardView::<A, S>::Specific(vs),
                        first_hit(vs.take(k as int), *t) is None,
                    decreases v.len() - k,
                {
                    proof {
                        assert(vs.take(k + 1).drop_last() =~= vs.take(k as int));
                    }
                    match v[k].0.contains(t) {
                        Ordering::Equal => {
                            proof {
                                let w = vs.take(k + 1);
                                assert(w.last() == vs[k as int]);
                                assert(vs[k as int] == (v@[k as int].0, v@[k as int].1.0@));
                                assert(first_hit(w, *t) == Some(vs[k as int].1));
                                lemma_first_hit_extend(vs, k + 1, *t);
                            }
                            return Some(&v[k].1);
                        },
                        _ => {},
                    }
                    k = k + 1;
                }
                assert(vs.take(k as int) =~= vs);
                None
            },
        }
    }

    /// A copy of this layer.
    pub fn duplicate(&self) -> (r: Self)
        ensures
            r@ == self@,
    {
        match self {
            Wildcard::Any(x) => Wildcard::Any(Return(x.0.duplicate())),
            Wildcard::Specific(v) => {
                let mut out: Vec<(Range<A>, Return<Edge<S, Ctrl>>)> = Vec::new();
                let mut k: usize = 0;
                while k < v.len()
                    invariant
                        k <= v.len(),
                        entries_view(out@) == entries_view(v@).take(k as int),
                    decreases v.len() - k,
                {
                    let ghost before = out@;
                    out.push((v[k].0, Return(v[k].1.0.duplicate())));
                    proof {
                        lemma_entries_push(before, out@.last());
                        assert(entries_view(out@) =~= entries_view(v@).take(k + 1));
                    }
                    k = k + 1;
                }
                assert(entries_view(v@).take(k as int) =~= entries_view(v@));
                Wildcard::Specific(out)
            },
        }
    }

    /// The ranges of a specific layer, in order.
    fn ranges(v: &Vec<(Range<A>, Return<Edge<S, Ctrl>>)>) -> (r: Vec<Range<A>>)
        ensures
            r@ == entry_ranges(v@),
    {
        let mut out: Vec<Range<A>> = Vec::new();
        let mut k: usize = 0;
        while k < v.len()
            invariant
                k <= v.len(),
                out@ == entry_ranges(v@).take(k as int),
            decreases v.len() - k,
        {
            out.push(v[k].0);
            proof {
                assert(out@ =~= entry_ranges(v@).take(k + 1));
            }
            k = k + 1;
        }
        assert(entry_ranges(v@).take(k as int) =~= entry_ranges(v@));
        out
    }

    /// Fuse two layers into one, or report the conflict.
    pub fn merge(self, other: &Self) -> (r: Result<Self, IllFormed<A, S, Ctrl>>)
        ensures
            r is Ok <==> wild_merge(self@, other@, Ctrl::single()) is Some,
            r matches Ok(m) ==> wild_merge(self@, other@, Ctrl::single()) == Some(m@),
            r matches Err(e) ==> wild_conflict(e, self@, other@),
    {
        match (self, other) {
            (Wildcard::Any(Return(lhs)), Wildcard::Any(Return(rhs))) => {
                match lhs.merge(rhs) {
                    Ok(m) => Ok(Wildcard::Any(Return(m))),
                    Err(e) => Err(e),
                }
            },
            (Wildcard::Any(lhs), Wildcard::Specific(rhs)) => {
                if rhs.len() == 0 {
                    Ok(Wildcard::Any(lhs))
                } else {
                    let rs = Self::ranges(rhs);
                    assert(entry_ranges(rhs@) =~= entry_ranges(entries_view(rhs@)));
                    Err(IllFormed::WildcardMergeConflict(rs))
                }
            },
            (Wildcard::Specific(lhs), Wildcard::Any(Return(rhs))) => {
                if lhs.len() == 0 {
                    Ok(Wildcard::Any(Return(rhs.duplicate())))
                } else {
                    let rs = Self::ranges(&lhs);
                    assert(entry_ranges(lhs@) =~= entry_ranges(entries_view(lhs@)));
                    Err(IllFormed::WildcardMergeConflict(rs))
                }
            },
            (Wildcard::Specific(lhs), Wildcard::Specific(rhs)) => {
                let ghost u = entries_view(lhs@);
                let ghost v = entries_view(rhs@);
                let mut i: usize = 0;
                while i < lhs.len()
                    invariant
                        i <= lhs.len(),
                        u == entries_view(lhs@),
                        v == entries_view(rhs@),
                        self@ == WildcardView::<A, S>::Specific(u),
                        other@ == WildcardView::<A, S>::Specific(v),
                        forall|a: int, b: int|
                            0 <= a < i && 0 <= b < v.len() ==> !u[a].0.meets(&v[b].0),
                        first_pair(u.take(i as int), v) is None,
                    decreases lhs.len() - i,
                {
                    let mut j: usize = 0;
                    while j < rhs.len()
                        invariant
                            i < lhs.len(),
                            j <= rhs.len(),
                            u == entries_view(lhs@),
                            v == entries_view(rhs@),
                            self@ == WildcardView::<A, S>::Specific(u),
                            other@ == WildcardView::<A, S>::Specific(v),
                            forall|a: int, b: int|
                                0 <= a < i && 0 <= b < v.len() ==> !u[a].0.meets(&v[b].0),
                            forall|b: int| 0 <= b < j ==> !u[i as int].0.meets(&v[b].0),
                            first_pair(u.take(i as int), v) is None,
                            first_meeting(v.take(j as int), u[i as int].0) is None,
                        decreases rhs.len() - j,
                    {
                        proof {
                            crate::range::lemma_overlap_symmetric(u[i as int].0, v[j as int].0);
                            assert(v.take(j + 1).drop_last() =~= v.take(j as int));
                            assert(v.take(j + 1).last() == v[j as int]);
                            assert(u[i as int].0 == lhs@[i as int].0);
                            assert(v[j as int].0 == rhs@[j as int].0);
                        }
                        match lhs[i].0.intersection(&rhs[j].0) {
                            Some(x) => {
                                proof {
                                    lemma_first_meeting_extend(v, u[i as int].0, j + 1);
                                    assert(u.take(i + 1).drop_last() =~= u.take(i as int));
                                    assert(u.take(i + 1).last() == u[i as int]);
                                    lemma_first_pair_extend(u, v, i + 1);
                                    assert(u[i as int].0 == lhs@[i as int].0);
                                    assert(v[j as int].0 == rhs@[j as int].0);
                                    assert(is_overlap(x, u[i as int].0, v[j as int].0));
                                    assert(!ranges_apart(u, v));
                                    assert(exists|a: int, b: int|
                                        0 <= a < u.len() && 0 <= b < v.len() && is_overlap(
                                            x,
                                            u[a].0,
                                            v[b].0,
                                        ));
                                    assert(self@ matches WildcardView::Specific(w) && w == u);
                                    assert(other@ matches WildcardView::Specific(w) && w == v);
                                }
                                return Err(IllFormed::VecMergeConflict(x));
                            },
                            None => {},
                        }
                        j = j + 1;
                    }
                    proof {
                        assert(v.take(j as int) =~= v);
                        assert(u.take(i + 1).drop_last() =~= u.take(i as int));
                        assert(u.take(i + 1).last() == u[i as int]);
                    }
                    i = i + 1;
                }
                let mut out = lhs;
                let ghost base = out@;
                let mut j: usize = 0;
                while j < rhs.len()
                    invariant
                        j <= rhs.len(),
                        u == entries_view(base),
                        v == entries_view(rhs@),
                        self@ == WildcardView::<A, S>::Specific(u),
                        other@ == WildcardView::<A, S>::Specific(v),
                        ranges_apart(u, v),
                        entries_view(out@) == u + v.take(j as int),
                    decreases rhs.len() - j,
                {
                    let ghost before = out@;
                    out.push((rhs[j].0, Return(rhs[j].1.0.duplicate())));
                    proof {
                        lemma_entries_push(before, out@.last());
                        assert(v[j as int] == (rhs@[j as int].0, rhs@[j as int].1.0@));
                        assert(entries_view(out@) =~= u + v.take(j + 1));
                    }
                    j = j + 1;
                }
                assert(v.take(j as int) =~= v);
                Ok(Wildcard::Specific(out))
            },
        }
    }

    /// Check for structural errors: overlapping ranges, destinations out of
    /// bounds.
    pub fn check(&self, size: usize) -> (r: Result<(), IllFormed<A, S, Ctrl>>)
        ensures
            r is Ok <==> wild_wf(self@, size as int),
            r matches Err(e) ==> layer_fault(self@, size as int, e),
            match layer_scan(self@, size as int) {
                None => r is Ok,
                Some(f) => r == Err::<(), IllFormed<A, S, Ctrl>>(scan_error(f)),
            },
    {
        match self {
            Wildcard::Any(Return(edge)) => edge.check(size),
            Wildcard::Specific(v) => {
                let ghost vs = entries_view(v@);
                let mut k: usize = 0;
                while k < v.len()
                    invariant
                        k <= v.len(),
                        vs == entries_view(v@),
                        self@ == WildcardView::<A, S>::Specific(vs),
                        forall|i: int, j: int| 0 <= i < j < k ==> !vs[i].0.meets(&vs[j].0),
                        forall|i: int| 0 <= i < k ==> in_bounds(#[trigger] vs[i].1.dst, size as int),
                        entries_scan(vs.take(k as int), size as int) is None,
                    decreases v.len() - k,
                {
                    proof {
                        let w = vs.take(k + 1);
                        assert(w.drop_last() =~= vs.take(k as int));
                        assert(w.last() == vs[k as int]);
                    }
                    let mut j: usize = 0;
                    while j < k
                        invariant
                            j <= k < v.len(),
                            vs == entries_view(v@),
                            self@ == WildcardView::<A, S>::Specific(vs),
                            forall|a: int| 0 <= a < j ==> !vs[a].0.meets(&vs[k as int].0),
                            entries_scan(vs.take(k as int), size as int) is None,
                            first_meeting(vs.take(k as int).take(j as int), vs[k as int].0) is None,
                        decreases k - j,
                    {
                        proof {
                            let p = vs.take(k as int);
                            assert(p.take(j + 1).drop_last() =~= p.take(j as int));
                            assert(p.take(j + 1).last() == vs[j as int]);
                        }
                        match v[j].0.intersection(&v[k].0) {
                            Some(x) => {
                                proof {
                                    assert(vs[j as int].0 == v@[j as int].0);
                                    assert(vs[k as int].0 == v@[k as int].0);
                                    assert(x == overlap_of(vs[j as int].0, vs[k as int].0));
                                    assert(vs[j as int].0.meets(&vs[k as int].0));
                                    assert(exists|a: int, b: int|
                                        #![trigger vs[a], vs[b]]
                                        0 <= a < b < vs.len() && vs[a].0.meets(&vs[b].0) && x == overlap_of(vs[a].0, vs[b].0));
                                    assert(self@ matches WildcardView::Specific(w) && w == vs);
                                    lemma_first_meeting_extend(vs.take(k as int), vs[k as int].0, j + 1);
                                    assert(vs.take(k + 1).drop_last() =~= vs.take(k as int));
                                    lemma_entries_scan_extend(vs, size as int, k + 1);
                                }
                                return Err(IllFormed::VecMergeConflict(x));
                            },
                            None => {},
                        }
                        j = j + 1;
                    }
                    proof {
                        assert(vs.take(k as int).take(j as int) =~= vs.take(k as int));
                        assert(vs.take(k + 1).drop_last() =~= vs.take(k as int));
                    }
                    match v[k].1.0.check(size) {
                        Ok(()) => {},
                        Err(e) => {
                            proof {
                                lemma_entries_scan_extend(vs, size as int, k + 1);
                            }
                            assert(vs[k as int].1 == v@[k as int].1.0@);
                            assert(!in_bounds(vs[k as int].1.dst, size as int));
                            assert(layer_out_of_bounds(self@, size as int));
                            return Err(e);
                        },
                    }
                    assert(vs[k as int].1 == v@[k as int].1.0@);
                    k = k + 1;
                }
                assert(vs.take(k as int) =~= vs);
                Ok(())
            },
        }
    }

    /// Remove the first entry whose range has the given bounds.
    pub fn remove(&mut self, key: &Range<A>)
        requires
            old(self)@ is Specific,
        ensures
            final(self)@ is Specific,
            (exists|i: int|
                0 <= i < old(self).specific_entries().len() && old(self).specific_entries()[i].0
                    == *key) ==> exists|i: int|
                0 <= i < old(self).specific_entries().len() && old(self).specific_entries()[i].0
                    == *key && final(self).specific_entries() == old(self).specific_entries().remove(i)
                    && forall|j: int| 0 <= j < i ==> old(self).specific_entries()[j].0 != *key,
            !(exists|i: int|
                0 <= i < old(self).specific_entries().len() && old(self).specific_entries()[i].0
                    == *key) ==> final(self).specific_entries() == old(self).specific_entries(),
    {
        let found = self.position_of(key);
        match self {
            Wildcard::Any(_) => {},
            Wildcard::Specific(v) => {
                match found {
                    Some(k) => {
                        let _ = v.remove(k);
                    },
                    None => {},
                }
            },
        }
    }

    /// The index of the first entry whose range has the given bounds.
    fn position_of(&self, key: &Range<A>) -> (r: Option<usize>)
        ensures
            r matches Some(k) ==> k < self.specific_entries().len()
                && self.specific_entries()[k as int].0 == *key && forall|j: int|
                0 <= j < k ==> self.specific_entries()[j].0 != *key,
            r is None ==> !(exists|i: int|
                0 <= i < self.specific_entries().len() && self.specific_entries()[i].0 == *key),
    {
        match self {
            Wildcard::Any(_) => None,
            Wildcard::Specific(v) => {
                let mut k: usize = 0;
                while k < v.len()
                    invariant
                        k <= v.len(),
                        v@ == self.specific_entries(),
                        forall|j: int| 0 <= j < k ==> v@[j].0 != *key,
                    decreases v.len() - k,
                {
                    if v[k].0.same_bounds(key) {
                        return Some(k);
                    }
                    k = k + 1;
                }
                None
            },
        }
    }

    /// The entries of a specific layer; empty for a match-anything one.
    pub open spec fn specific_entries(&self) -> Seq<(Range<A>, Return<Edge<S, Ctrl>>)> {
        match self {
            Wildcard::Any(_) => Seq::empty(),
            Wildcard::Specific(v) => v@,
        }
    }

    /// The edges of this layer, in order.
    pub fn values(&self) -> (r: Vec<&Edge<S, Ctrl>>)
        ensures
            self@ matches WildcardView::Any(e) ==> r.len() == 1 && r@[0]@ == e,
            self@ matches WildcardView::Specific(v) ==> r.len() == v.len() && forall|i: int|
                0 <= i < v.len() ==> (#[trigger] r@[i])@ == v[i].1,
    {
        match self {
            Wildcard::Any(Return(e)) => {
                let mut r: Vec<&Edge<S, Ctrl>> = Vec::new();
                r.push(e);
                r
            },
            Wildcard::Specific(v) => {
                let mut r: Vec<&Edge<S, Ctrl>> = Vec::new();
                let mut k: usize = 0;
                while k < v.len()
                    invariant
                        k <= v.len(),
                        r.len() == k,
                        forall|i: int| 0 <= i < k ==> (#[trigger] r@[i])@ == v@[i].1.0@,
                    decreases v.len() - k,
                {
                    r.push(&v[k].1.0);
                    k = k + 1;
                }
                r
            },
        }
    }

    /// Find a key matched by both layers, if any: `Some(None)` where both
    /// match everything, else a range of keys that both match.
    pub fn disjoint(&self, other: &Self) -> (r: Option<Option<Range<A>>>)
        ensures
            r is Some == keys_meet(self@, other@),
            r matches Some(Some(x)) ==> (exists|t: A| x.has(t)) && forall|t: A|
                x.has(t) ==> wild_lookup(self@, t) is Some && wild_lookup(other@, t) is Some,
            r matches Some(None) ==> self@ is Any && other@ is Any,
            r == shared_keys(self@, other@),
    {
        match (self, other) {
            (Wildcard::Any(_), Wildcard::Any(_)) => {
                proof {
                    let t: A = arbitrary();
                    assert(wild_lookup(self@, t) is Some && wild_lookup(other@, t) is Some);
                }
                Some(None)
            },
            (Wildcard::Any(_), Wildcard::Specific(v)) => {
                let r = Self::first_solid(v);
                proof {
                    assert(other@ == WildcardView::<A, S>::Specific(entries_view(v@)));
                    if r is Some {
                        let t = choose|t: A| first_hit(entries_view(v@), t) is Some;
                        assert(wild_lookup(self@, t) is Some && wild_lookup(other@, t) is Some);
                    } else {
                        assert forall|t: A| !(wild_lookup(self@, t) is Some && wild_lookup(other@, t) is Some) by {
                            assert(first_hit(entries_view(v@), t) is None);
                        }
                    }
                }
                r
            },
            (Wildcard::Specific(v), Wildcard::Any(_)) => {
                let r = Self::first_solid(v);
                proof {
                    assert(self@ == WildcardView::<A, S>::Specific(entries_view(v@)));
                    if r is Some {
                        let t = choose|t: A| first_hit(entries_view(v@), t) is Some;
                        assert(wild_lookup(self@, t) is Some && wild_lookup(other@, t) is Some);
                    } else {
                        assert forall|t: A| !(wild_lookup(self@, t) is Some && wild_lookup(other@, t) is Some) by {
                            assert(first_hit(entries_view(v@), t) is None);
                        }
                    }
                }
                r
            },
            (Wildcard::Specific(u), Wildcard::Specific(v)) => {
                let ghost uv = entries_view(u@);
                let ghost vv = entries_view(v@);
                let mut i: usize = 0;
                while i < u.len()
                    invariant
                        i <= u.len(),
                        uv == entries_view(u@),
                        vv == entries_view(v@),
                        self@ == WildcardView::<A, S>::Specific(uv),
                        other@ == WildcardView::<A, S>::Specific(vv),
                        forall|a: int, b: int|
                            0 <= a < i && 0 <= b < v.len() ==> !uv[a].0.meets(&vv[b].0),
                        first_pair(uv.take(i as int), vv) is None,
                    decreases u.len() - i,
                {
                    let mut j: usize = 0;
                    while j < v.len()
                        invariant
                            i < u.len(),
                            j <= v.len(),
                            uv == entries_view(u@),
                            vv == entries_view(v@),
                            self@ == WildcardView::<A, S>::Specific(uv),
                            other@ == WildcardView::<A, S>::Specific(vv),
                            forall|b: int| 0 <= b < j ==> !uv[i as int].0.meets(&vv[b].0),
                            first_pair(uv.take(i as int), vv) is None,
                            first_meeting(vv.take(j as int), uv[i as int].0) is None,
                        decreases v.len() - j,
                    {
                        proof {
                            crate::range::lemma_overlap_symmetric(uv[i as int].0, vv[j as int].0);
                            assert(vv.take(j + 1).drop_last() =~= vv.take(j as int));
                            assert(vv.take(j + 1).last() == vv[j as int]);
                            assert(uv[i as int].0 == u@[i as int].0);
                            assert(vv[j as int].0 == v@[j as int].0);
                        }
                        match u[i].0.intersection(&v[j].0) {
                            Some(x) => {
                                proof {
                                    lemma_first_meeting_extend(vv, uv[i as int].0, j + 1);
                                    assert(uv.take(i + 1).drop_last() =~= uv.take(i as int));
                                    assert(uv.take(i + 1).last() == uv[i as int]);
                                    lemma_first_pair_extend(uv, vv, i + 1);
                                    assert(uv[i as int].0 == u@[i as int].0);
                                    assert(vv[j as int].0 == v@[j as int].0);
                                    let t = choose|t: A| uv[i as int].0.has(t) && vv[j as int].0.has(t);
                                    assert(x.has(t));
                                    lemma_first_hit(uv, t);
                                    lemma_first_hit(vv, t);
                                    assert(first_hit(uv, t) is Some && first_hit(vv, t) is Some);
                                    assert forall|t2: A| x.has(t2) implies wild_lookup(self@, t2) is Some
                                        && wild_lookup(other@, t2) is Some by {
                                        assert(uv[i as int].0.has(t2) && vv[j as int].0.has(t2));
                                        lemma_first_hit(uv, t2);
                                        lemma_first_hit(vv, t2);
                                    }
                                    assert(wild_lookup(self@, t) is Some && wild_lookup(other@, t) is Some);
                                }
                                return Some(Some(x));
                            },
                            None => {},
                        }
                        j = j + 1;
                    }
                    proof {
                        assert(vv.take(j as int) =~= vv);
                        assert(uv.take(i + 1).drop_last() =~= uv.take(i as int));
                        assert(uv.take(i + 1).last() == uv[i as int]);
                    }
                    i = i + 1;
                }
                assert(uv.take(i as int) =~= uv);
                proof {
                    assert forall|t: A| !(wild_lookup(self@, t) is Some && wild_lookup(other@, t) is Some) by {
                        lemma_first_hit(uv, t);
                        lemma_first_hit(vv, t);
                        if wild_lookup(self@, t) is Some && wild_lookup(other@, t) is Some {
                            let a = choose|a: int| 0 <= a < uv.len() && uv[a].0.has(t);
                            let b = choose|b: int| 0 <= b < vv.len() && vv[b].0.has(t);
                            assert(uv[a].0.meets(&vv[b].0));
                        }
                    }
                }
                None
            },
        }
    }

    /// The first range of a specific layer that holds a value, if any.
    fn first_solid(v: &Vec<(Range<A>, Return<Edge<S, Ctrl>>)>) -> (r: Option<Option<Range<A>>>)
        ensures
            r is Some == exists|t: A| first_hit(entries_view(v@), t) is Some,
            r matches Some(Some(x)) ==> exists|t: A|
                x.has(t) && (#[trigger] first_hit(entries_view(v@), t)) is Some,
            r matches Some(Some(x)) ==> forall|t: A|
                x.has(t) ==> (#[trigger] first_hit(entries_view(v@), t)) is Some,
            r is Some ==> r.unwrap() is Some,
            r matches Some(Some(x)) ==> first_solid_index(entries_view(v@)) matches Some(k) && x
                == entries_view(v@)[k].0,
            r is None ==> first_solid_index(entries_view(v@)) is None,
    {
        let ghost vs = entries_view(v@);
        let mut k: usize = 0;
        while k < v.len()
            invariant
                k <= v.len(),
                vs == entries_view(v@),
                forall|i: int| 0 <= i < k ==> hollow(#[trigger] vs[i].0),
                first_solid_index(vs.take(k as int)) is None,
            decreases v.len() - k,
        {
            proof {
                assert(vs.take(k + 1).drop_last() =~= vs.take(k as int));
                assert(vs.take(k + 1).last() == vs[k as int]);
                assert(vs[k as int].0 == v@[k as int].0);
            }
            if at_most(&v[k].0.first, &v[k].0.last) {
                proof {
                    lemma_first_solid_extend(vs, k + 1);
                }
                let x = v[k].0;
                let ghost t = x.first;
                proof {
                    assert(vs[k as int].0 == x);
                    assert(vs[k as int].0.has(t));
                    lemma_first_hit(vs, t);
                    assert(x.has(t) && first_hit(entries_view(v@), t) is Some);
                    assert forall|t2: A| x.has(t2) implies (#[trigger] first_hit(entries_view(v@), t2)) is Some by {
                        assert(vs[k as int].0.has(t2));
                        lemma_first_hit(vs, t2);
                    }
                }
                return Some(Some(x));
            }
            k = k + 1;
        }
        proof {
            assert forall|t: A| first_hit(vs, t) is None by {
                lemma_first_hit(vs, t);
                if first_hit(vs, t) is Some {
                    let i = choose|i: int| 0 <= i < vs.len() && vs[i].0.has(t);
                    assert(hollow(vs[i].0));
                }
            }
            assert(vs.take(k as int) =~= vs);
        }
        None
    }
}

/// Every token that a layer matches has the kind of the edge it fires.
pub open spec fn layer_kinds_ok<A: Alphabet, S>(w: WildcardView<A, S>) -> bool {
    match w {
        WildcardView::Any(e) => forall|t: A| #[trigger] t.kind_of() == e.kind,
        WildcardView::Specific(v) => forall|i: int, t: A|
            #![trigger v[i], t.kind_of()]
            0 <= i < v.len() && v[i].0.has(t) ==> t.kind_of() == v[i].1.kind,
    }
}

/// The first entry, in order, whose tokens disagree with its edge's kind:
/// the token kind `stray_kind` names, and the edge kind.
pub open spec fn entries_stray<A: Alphabet, S>(v: Seq<(Range<A>, EdgeView<S>)>) -> Option<(Kind, Kind)>
    decreases v.len(),
{
    if v.len() == 0 {
        None
    } else {
        match entries_stray(v.drop_last()) {
            Some(p) => Some(p),
            None => match A::stray_of(v.last().0.first, v.last().0.last, v.last().1.kind) {
                Some(tk) => Some((tk, v.last().1.kind)),
                None => None,
            },
        }
    }
}

/// The kinds that `stray` reports for a layer.
pub open spec fn layer_stray<A: Alphabet, S>(w: WildcardView<A, S>) -> Option<(Kind, Kind)> {
    match w {
        WildcardView::Any(e) => match A::stray_anywhere_of(e.kind) {
            Some(tk) => Some((tk, e.kind)),
            None => None,
        },
        WildcardView::Specific(v) => entries_stray(v),
    }
}

/// A token of kind `tk` fires an edge of kind `ek` in the layer `w`.
pub open spec fn kind_clash<A: Alphabet, S>(w: WildcardView<A, S>, tk: Kind, ek: Kind) -> bool {
    &&& tk != ek
    &&& match w {
        WildcardView::Any(e) => e.kind == ek && exists|t: A| #[trigger] t.kind_of() == tk,
        WildcardView::Specific(v) => exists|i: int, t: A|
            #![trigger v[i], t.kind_of()]
            0 <= i < v.len() && v[i].0.has(t) && t.kind_of() == tk && v[i].1.kind == ek,
    }
}

impl<A: Alphabet, S: Symbol, Ctrl: Indices> Wildcard<A, Return<Edge<S, Ctrl>>> {
    /// Eliminate absurd relations: drop every entry that disagrees with its
    /// tokens' kinds or whose range meets an earlier kept one, and replace each
    /// destination by its remainder modulo `size`.
    pub fn deabsurdify(&mut self, size: usize)
        requires
            size > 0,
        ensures
            wild_wf(final(self)@, size as int),
            layer_kinds_ok(final(self)@),
            final(self)@ == sanitized(old(self)@, size),
            old(self)@ matches WildcardView::Specific(v) ==> (spread_apart(v) && layer_kinds_ok(
                old(self)@,
            ) ==> final(self)@ == WildcardView::<A, S>::Specific(wrap_entries(v, size))),
    {
        let drop_any = match &*self {
            Wildcard::Any(Return(edge)) => A::stray_kind_anywhere(edge.kind()).is_some(),
            Wildcard::Specific(_) => false,
        };
        if drop_any {
            let none_kept: Vec<(Range<A>, Return<Edge<S, Ctrl>>)> = Vec::new();
            assert(entries_view(none_kept@) =~= Seq::<(Range<A>, EdgeView<S>)>::empty());
            *self = Wildcard::Specific(none_kept);
            return;
        }
        match self {
            Wildcard::Any(Return(edge)) => {
                edge.deabsurdify(size);
                proof {
                    assert forall|i: usize| edge@.dst.contains(i) implies i < size by {
                    }
                }
            },
            Wildcard::Specific(v) => {
                let ghost vs = entries_view(v@);
                let ghost apart = spread_apart(vs) && layer_kinds_ok(WildcardView::<A, S>::Specific(vs));
                let mut kept: Vec<(Range<A>, Return<Edge<S, Ctrl>>)> = Vec::new();
                let mut k: usize = 0;
                while k < v.len()
                    invariant
                        k <= v.len(),
                        size > 0,
                        vs == entries_view(v@),
                        apart == (spread_apart(vs) && layer_kinds_ok(WildcardView::<A, S>::Specific(vs))),
                        entries_view(kept@) == kept_entries(vs.take(k as int), size),
                        apart ==> entries_view(kept@) == wrap_entries(vs.take(k as int), size),
                        spread_apart(entries_view(kept@)),
                        layer_kinds_ok(WildcardView::<A, S>::Specific(entries_view(kept@))),
                        forall|i: int|
                            0 <= i < kept.len() ==> in_bounds(
                                #[trigger] entries_view(kept@)[i].1.dst,
                                size as int,
                            ),
                    decreases v.len() - k,
                {
                    let mut clash = false;
                    let mut j: usize = 0;
                    while j < kept.len()
                        invariant
                            j <= kept.len(),
                            k < v.len(),
                            vs == entries_view(v@),
                            apart == (spread_apart(vs) && layer_kinds_ok(WildcardView::<A, S>::Specific(vs))),
                            apart ==> entries_view(kept@) == wrap_entries(vs.take(k as int), size),
                            apart ==> !clash,
                            clash == exists|a: int|
                                0 <= a < j && (#[trigger] entries_view(kept@)[a]).0.meets(&vs[k as int].0),
                        decreases kept.len() - j,
                    {
                        proof {
                            assert(entries_view(kept@)[j as int].0 == kept@[j as int].0);
                            assert(vs[k as int].0 == v@[k as int].0);
                        }
                        if kept[j].0.overlap(&v[k].0) {
                            proof {
                                if apart {
                                    assert(wrap_entries(vs.take(k as int), size)[j as int].0 == vs[j as int].0);
                                    assert(!vs[j as int].0.meets(&vs[k as int].0));
                                }
                            }
                            clash = true;
                        }
                        j = j + 1;
                    }
                    let ek = v[k].1.0.kind();
                    let kinded = match A::stray_kind(&v[k].0.first, &v[k].0.last, ek) {
                        None => true,
                        Some(_) => false,
                    };
                    proof {
                        let w = vs.take(k + 1);
                        assert(w.drop_last() =~= vs.take(k as int));
                        assert(w.last() == vs[k as int]);
                        assert(vs[k as int] == (v@[k as int].0, v@[k as int].1.0@));
                        assert(kinded == uniform(vs[k as int].0, vs[k as int].1.kind)) by {
                            if !kinded {
                                let t = choose|t: A|
                                    v@[k as int].0.first.rank() <= #[trigger] t.rank()
                                        <= v@[k as int].0.last.rank() && t.kind_of() != ek;
                                assert(vs[k as int].0.has(t));
                            }
                        }
                        if apart {
                            assert forall|t: A| #![trigger t.kind_of()] vs[k as int].0.has(t) implies t.kind_of()
                                == vs[k as int].1.kind by {
                                assert(vs[k as int] == vs[k as int]);
                            }
                        }
                    }
                    if !clash && kinded {
                        let mut e = v[k].1.0.duplicate();
                        e.deabsurdify(size);
                        let ghost before = entries_view(kept@);
                        kept.push((v[k].0, Return(e)));
                        proof {
                            let now = entries_view(kept@);
                            assert(now =~= before.push((v@[k as int].0, e@)));
                            if apart {
                                assert(now =~= wrap_entries(vs.take(k + 1), size));
                            }
                            assert forall|a: int, b: int| 0 <= a < b < now.len() implies !now[a].0.meets(
                                &now[b].0,
                            ) by {
                                if b == now.len() - 1 {
                                    assert(now[a].0 == kept@[a].0);
                                }
                            }
                            assert forall|i: int, t: A|
                                #![trigger now[i], t.kind_of()]
                                0 <= i < now.len() && now[i].0.has(t) implies t.kind_of() == now[i].1.kind by {
                                if i < now.len() - 1 {
                                    assert(now[i] == before[i]);
                                }
                            }
                        }
                    }
                    k = k + 1;
                }
                assert(vs.take(k as int) =~= vs);
                *v = kept;
            },
        }
    }

    /// A token kind and an edge kind that disagree in this layer, if any.
    pub fn stray(&self) -> (r: Option<(Kind, Kind)>)
        ensures
            r is None <==> layer_kinds_ok(self@),
            r matches Some(p) ==> kind_clash(self@, p.0, p.1),
            r == layer_stray(self@),
    {
        match self {
            Wildcard::Any(Return(e)) => {
                let ek = e.kind();
                match A::stray_kind_anywhere(ek) {
                    Some(tk) => Some((tk, ek)),
                    None => None,
                }
            },
            Wildcard::Specific(v) => {
                let ghost vs = entries_view(v@);
                let mut k: usize = 0;
                while k < v.len()
                    invariant
                        k <= v.len(),
                        vs == entries_view(v@),
                        self@ == WildcardView::<A, S>::Specific(vs),
                        forall|i: int, t: A|
                            #![trigger vs[i], t.kind_of()]
                            0 <= i < k && vs[i].0.has(t) ==> t.kind_of() == vs[i].1.kind,
                        entries_stray(vs.take(k as int)) is None,
                    decreases v.len() - k,
                {
                    proof {
                        let w = vs.take(k + 1);
                        assert(w.drop_last() =~= vs.take(k as int));
                        assert(w.last() == vs[k as int]);
                    }
                    let ek = v[k].1.0.kind();
                    assert(vs[k as int] == (v@[k as int].0, v@[k as int].1.0@));
                    match A::stray_kind(&v[k].0.first, &v[k].0.last, ek) {
                        Some(tk) => {
                            proof {
                                let t = choose|t: A|
                                    v@[k as int].0.first.rank() <= #[trigger] t.rank()
                                        <= v@[k as int].0.last.rank() && t.kind_of() == tk;
                                assert(vs[k as int].0.has(t));
                                lemma_entries_stray_extend(vs, k + 1);
                            }
                            return Some((tk, ek));
                        },
                        None => {},
                    }
                    proof {
                        assert forall|i: int, t: A|
                            #![trigger vs[i], t.kind_of()]
                            0 <= i < k + 1 && vs[i].0.has(t) implies t.kind_of() == vs[i].1.kind by {
                            if i == k {
                                assert(v@[k as int].0.first.rank() <= t.rank() <= v@[k as int].0.last.rank());
                            }
                        }
                    }
                    k = k + 1;
                }
                assert(vs.take(k as int) =~= vs);
                None
            },
        }
    }
}

} // verus!
