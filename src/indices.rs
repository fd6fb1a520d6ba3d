//! Control values: one state index (deterministic) or a set of state indices
//! (nondeterministic), behind one set of operations.

use std::collections::BTreeSet;
use vstd::std_specs::cmp::OrdSpec;
use vstd::std_specs::iter::IteratorSpec;
use vstd::prelude::*;

verus! {

broadcast use {vstd::std_specs::btree::group_btree_axioms, vstd::laws_cmp::group_laws_cmp};

/// Whether a sequence of indices is strictly increasing.
pub open spec fn increasing(s: Seq<usize>) -> bool {
    forall|i: int, j: int| 0 <= i < j < s.len() ==> s[i] < s[j]
}

/// Anything that can act as one or more state indices for an automaton.
pub trait Indices: Sized {
    /// The state indices this value stands for.
    spec fn members(&self) -> Set<usize>;

    /// Whether this form always stands for exactly one index; two such values
    /// merge only when equal.
    spec fn single() -> bool;

    /// A copy with the same indices.
    fn duplicate(&self) -> (r: Self)
        ensures
            r.members() == self.members(),
    ;

    /// The indices in increasing order.
    fn to_vec(&self) -> (r: Vec<usize>)
        ensures
            r@.to_set() == self.members(),
            increasing(r@),
    ;

    /// Collect indices into this form.
    /// Fails with `false` on no index, and with `true` where a single form is
    /// given more than one.
    fn collect(v: Vec<usize>) -> (r: Result<Self, bool>)
        ensures
            r is Ok <==> (v.len() > 0 && (Self::single() ==> v.len() == 1)),
            r matches Ok(c) ==> c.members() == v@.to_set(),
            r matches Err(b) ==> b == (v.len() > 0),
    ;

    /// Fuse two control values into one.
    fn fuse(self, other: &Self) -> (r: Result<Self, (usize, usize)>)
        ensures
            r is Ok <==> (!Self::single() || self.members() == other.members()),
            r matches Ok(m) ==> m.members() == self.members() + other.members(),
            r matches Err(p) ==> self.members() == set![p.0] && other.members() == set![p.1]
                && p.0 != p.1,
    ;

    /// Replace each index by its remainder modulo `size`.
    fn wrap(&mut self, size: usize)
        requires
            size > 0,
        ensures
            final(self).members() == old(self).members().map(|i: usize| (i % size) as usize),
    ;
}

impl Indices for usize {
    open spec fn members(&self) -> Set<usize> {
        set![*self]
    }

    open spec fn single() -> bool {
        true
    }

    fn duplicate(&self) -> (r: Self) {
        *self
    }

    fn to_vec(&self) -> (r: Vec<usize>) {
        let r = vec![*self];
        assert(r@ =~= seq![*self]);
        assert(r@.to_set() =~= set![*self]) by {
            assert(r@.contains(*self));
        }
        r
    }

    fn collect(v: Vec<usize>) -> (r: Result<Self, bool>) {
        if v.len() == 1 {
            let i = v[0];
            assert(v@.to_set() =~= set![i]) by {
                assert(v@.contains(i));
            }
            Ok(i)
        } else {
            Err(v.len() > 0)
        }
    }

    fn fuse(self, other: &Self) -> (r: Result<Self, (usize, usize)>) {
        if self == *other {
            assert(set![self] + set![self] =~= set![self]);
            Ok(self)
        } else {
            assert(set![self] != set![*other]) by {
                assert(set![self].contains(self));
            }
            Err((self, *other))
        }
    }

    fn wrap(&mut self, size: usize) {
        let ghost before = *self;
        *self = *self % size;
        assert(set![before].map(|i: usize| (i % size) as usize) =~= set![*self]) by {
            assert(set![before].contains(before));
        }
    }
}

/// Appending to a sequence adds the element to its set.
pub proof fn lemma_to_set_push(s: Seq<usize>, x: usize)
    ensures
        s.push(x).to_set() == s.to_set().insert(x),
{
    let t = s.push(x);
    assert forall|a: usize| s.to_set().insert(x).contains(a) implies t.to_set().contains(a) by {
        if a == x {
            assert(t[s.len() as int] == x);
        } else {
            let i = choose|i: int| 0 <= i < s.len() && s[i] == a;
            assert(t[i] == a);
        }
    }
    assert forall|a: usize| t.to_set().contains(a) implies s.to_set().insert(x).contains(a) by {
        if a != x {
            let i = choose|i: int| 0 <= i < t.len() && t[i] == a;
            assert(s[i] == a);
        }
    }
    assert(t.to_set() =~= s.to_set().insert(x));
}

/// Mapping a set with one more element adds the element's image.
pub proof fn lemma_map_insert(s: Set<usize>, x: usize, size: usize)
    requires
        size > 0,
    ensures
        s.insert(x).map(|i: usize| (i % size) as usize) == s.map(|i: usize| (i % size) as usize).insert(
            (x % size) as usize,
        ),
{
    let f = |i: usize| (i % size) as usize;
    assert forall|a: usize| s.insert(x).map(f).contains(a) implies s.map(f).insert(f(x)).contains(a) by {
        let b = choose|b: usize| s.insert(x).contains(b) && f(b) == a;
        if b != x {
            assert(s.contains(b));
        }
    }
    assert forall|a: usize| s.map(f).insert(f(x)).contains(a) implies s.insert(x).map(f).contains(a) by {
        if a == f(x) {
            assert(s.insert(x).contains(x));
        } else {
            let b = choose|b: usize| s.contains(b) && f(b) == a;
            assert(s.insert(x).contains(b));
        }
    }
    assert(s.insert(x).map(f) =~= s.map(f).insert(f(x)));
}

/// The elements of a set, in increasing order.
fn set_to_vec(s: &BTreeSet<usize>) -> (r: Vec<usize>)
    ensures
        r@.to_set() == s@,
        increasing(r@),
{
    let ghost keys = vstd::std_specs::btree::spec_btree_keys_iter(s).remaining();
    let mut r: Vec<usize> = Vec::new();
    for x in it: s.iter()
        invariant
            it.seq() == keys,
            r@.len() == it.index(),
            forall|k: int| 0 <= k < it.index() ==> r@[k] == *keys[k],
    {
        r.push(*x);
    }
    proof {
        assert(r@ =~= keys.map_values(|p: &usize| *p));
        assert(keys.unref() =~= r@);
        assert(vstd::laws_cmp::obeys_cmp::<usize>());
        assert(vstd::laws_cmp::obeys_cmp::<&usize>());
        assert(vstd::std_specs::btree::increasing_seq(keys));
        assert forall|i: int, j: int| 0 <= i < j < r@.len() implies r@[i] < r@[j] by {
            assert(<&usize as OrdSpec>::cmp_spec(&keys[i], &keys[j]) is Less);
        }
    }
    r
}

impl Indices for BTreeSet<usize> {
    open spec fn members(&self) -> Set<usize> {
        self@
    }

    open spec fn single() -> bool {
        false
    }

    fn duplicate(&self) -> (r: Self) {
        self.clone()
    }

    fn to_vec(&self) -> (r: Vec<usize>) {
        set_to_vec(self)
    }

    fn collect(v: Vec<usize>) -> (r: Result<Self, bool>) {
        if v.len() == 0 {
            return Err(false);
        }
        let mut s: BTreeSet<usize> = BTreeSet::new();
        let mut k: usize = 0;
        while k < v.len()
            invariant
                k <= v.len(),
                s@ == v@.take(k as int).to_set(),
            decreases v.len() - k,
        {
            proof {
                assert(v@.take(k + 1) =~= v@.take(k as int).push(v@[k as int]));
                lemma_to_set_push(v@.take(k as int), v@[k as int]);
            }
            s.insert(v[k]);
            k = k + 1;
        }
        assert(v@.take(k as int) =~= v@);
        Ok(s)
    }

    fn fuse(self, other: &Self) -> (r: Result<Self, (usize, usize)>) {
        let mut s = self;
        let items = set_to_vec(other);
        let mut k: usize = 0;
        while k < items.len()
            invariant
                k <= items.len(),
                s@ == self@ + items@.take(k as int).to_set(),
            decreases items.len() - k,
        {
            proof {
                assert(items@.take(k + 1) =~= items@.take(k as int).push(items@[k as int]));
                lemma_to_set_push(items@.take(k as int), items@[k as int]);
            }
            s.insert(items[k]);
            k = k + 1;
        }
        assert(items@.take(k as int) =~= items@);
        Ok(s)
    }

    fn wrap(&mut self, size: usize) {
        let items = set_to_vec(self);
        let mut s: BTreeSet<usize> = BTreeSet::new();
        let mut k: usize = 0;
        while k < items.len()
            invariant
                k <= items.len(),
                s@ == items@.take(k as int).to_set().map(|i: usize| (i % size) as usize),
                size > 0,
            decreases items.len() - k,
        {
            proof {
                assert(items@.take(k + 1) =~= items@.take(k as int).push(items@[k as int]));
                lemma_to_set_push(items@.take(k as int), items@[k as int]);
                lemma_map_insert(items@.take(k as int).to_set(), items@[k as int], size);
            }
            s.insert(items[k] % size);
            k = k + 1;
        }
        assert(items@.take(k as int) =~= items@);
        *self = s;
    }
}

} // verus!
