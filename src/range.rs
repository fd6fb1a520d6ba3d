//! Closed intervals over a totally ordered type.

use crate::alphabet::{at_most, same, Symbol};
use core::cmp::Ordering;
use vstd::prelude::*;

verus! {

/// Closed interval `[first, last]` of values.
#[derive(Clone, Copy, Debug, PartialEq, Eq, Hash, PartialOrd, Ord)]
pub struct Range<T> {
    /// First value (inclusive).
    pub first: T,
    /// Last value (inclusive).
    pub last: T,
}

/// The bounds of the overlap of two ranges: the larger first, the smaller last.
pub open spec fn overlap_of<T: Symbol>(a: Range<T>, b: Range<T>) -> Range<T> {
    Range {
        first: if a.first.rank() <= b.first.rank() {
            b.first
        } else {
            a.first
        },
        last: if a.last.rank() <= b.last.rank() {
            a.last
        } else {
            b.last
        },
    }
}

impl<T: Symbol> Range<T> {
    /// Whether `v` lies within this range.
    pub open spec fn has(&self, v: T) -> bool {
        self.first.rank() <= v.rank() <= self.last.rank()
    }

    /// Whether some value lies in both ranges.
    pub open spec fn meets(&self, other: &Self) -> bool {
        exists|v: T| self.has(v) && other.has(v)
    }

    /// Where `v` stands relative to this range: below it, in it, or above it.
    pub open spec fn position(&self, v: T) -> Ordering {
        if v.rank() < self.first.rank() {
            Ordering::Less
        } else if v.rank() > self.last.rank() {
            Ordering::Greater
        } else {
            Ordering::Equal
        }
    }

    /// Check where a value lies relative to this range.
    pub fn contains(&self, value: &T) -> (r: Ordering)
        ensures
            r == self.position(*value),
            (r == Ordering::Equal) == self.has(*value),
    {
        match value.compare(&self.first) {
            Ordering::Less => Ordering::Less,
            _ => match value.compare(&self.last) {
                Ordering::Greater => Ordering::Greater,
                _ => Ordering::Equal,
            },
        }
    }

    /// Check if any value lies in both of these ranges simultaneously.
    pub fn overlap(&self, other: &Self) -> (r: bool)
        ensures
            r == self.meets(other),
    {
        let r = at_most(&self.first, &self.last) && at_most(&other.first, &other.last) && at_most(
            &self.first,
            &other.last,
        ) && at_most(&other.first, &self.last);
        proof {
            if r {
                if self.first.rank() <= other.first.rank() {
                    assert(self.has(other.first) && other.has(other.first));
                } else {
                    assert(self.has(self.first) && other.has(self.first));
                }
            }
        }
        r
    }

    /// The values that lie in both ranges, as a range, if there are any.
    pub fn intersection(&self, other: &Self) -> (r: Option<Self>)
        ensures
            r is Some == self.meets(other),
            r matches Some(x) ==> forall|v: T| x.has(v) <==> (self.has(v) && other.has(v)),
            r matches Some(x) ==> x == overlap_of(*self, *other),
    {
        if self.overlap(other) {
            let first = if at_most(&self.first, &other.first) {
                other.first
            } else {
                self.first
            };
            let last = if at_most(&self.last, &other.last) {
                self.last
            } else {
                other.last
            };
            Some(Range { first, last })
        } else {
            None
        }
    }

    /// The values that lie in either range, as a range: there is one exactly
    /// when the two ranges overlap.
    pub fn union(&self, other: &Self) -> (r: Option<Self>)
        ensures
            r is Some == self.meets(other),
            r matches Some(x) ==> forall|v: T| x.has(v) <==> (self.has(v) || other.has(v)),
    {
        if self.overlap(other) {
            let first = if at_most(&self.first, &other.first) {
                self.first
            } else {
                other.first
            };
            let last = if at_most(&self.last, &other.last) {
                other.last
            } else {
                self.last
            };
            Some(Range { first, last })
        } else {
            None
        }
    }

    /// Construct a range with only one element.
    pub fn unit(first_and_last: T) -> (r: Self)
        ensures
            r.first == first_and_last,
            r.last == first_and_last,
            forall|v: T| r.has(v) <==> v == first_and_last,
    {
        proof {
            assert forall|v: T| (Range { first: first_and_last, last: first_and_last }).has(v) <==> v
                == first_and_last by {
                T::lemma_rank_injective(v, first_and_last);
            }
        }
        Range { first: first_and_last, last: first_and_last }
    }

    /// Whether two ranges have the same bounds.
    pub fn same_bounds(&self, other: &Self) -> (r: bool)
        ensures
            r == (*self == *other),
    {
        same(&self.first, &other.first) && same(&self.last, &other.last)
    }
}

/// Overlap does not depend on the order of its arguments.
pub proof fn lemma_overlap_symmetric<T: Symbol>(a: Range<T>, b: Range<T>)
    ensures
        a.meets(&b) == b.meets(&a),
{
    if a.meets(&b) {
        let v = choose|v: T| a.has(v) && b.has(v);
        assert(b.has(v) && a.has(v));
    }
    if b.meets(&a) {
        let v = choose|v: T| b.has(v) && a.has(v);
        assert(a.has(v) && b.has(v));
    }
}

/// A range contains a value, in the sense of `contains`, exactly when the value
/// lies between its bounds.
pub proof fn lemma_contains_equal<T: Symbol>(r: Range<T>, v: T)
    ensures
        (r.position(v) == Ordering::Equal) <==> (r.first.rank() <= v.rank() <= r.last.rank()),
{
}

/// A unit range contains its value and no other.
pub proof fn lemma_unit_range<T: Symbol>(v: T, u: T)
    ensures
        (Range { first: v, last: v }).position(v) == Ordering::Equal,
        u != v ==> (Range { first: v, last: v }).position(u) != Ordering::Equal,
{
    T::lemma_rank_injective(u, v);
}

} // verus!
