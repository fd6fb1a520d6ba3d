//! Tokens and stack symbols: totally ordered values, tokens classified into
//! calls, returns and locals.

use core::cmp::Ordering;
use vstd::prelude::*;

verus! {

/// What kind of symbol something is: call, return, or local.
#[derive(Clone, Copy, Debug, PartialEq, Eq, Structural, Hash, PartialOrd, Ord)]
pub enum Kind {
    /// Token that causes a stack push.
    Call,
    /// Token that causes a stack pop.
    Return,
    /// Token that causes neither a stack push nor a stack pop.
    Local,
}

impl Kind {
    /// Lower-case name of this kind.
    pub fn name(&self) -> (r: &'static str)
        ensures
            *self == Kind::Call ==> r@ == "call"@,
            *self == Kind::Return ==> r@ == "return"@,
            *self == Kind::Local ==> r@ == "local"@,
    {
        match self {
            Kind::Call => "call",
            Kind::Return => "return",
            Kind::Local => "local",
        }
    }
}

/// Three-way comparison of two mathematical integers.
pub open spec fn order_of(a: int, b: int) -> Ordering {
    if a < b {
        Ordering::Less
    } else if a > b {
        Ordering::Greater
    } else {
        Ordering::Equal
    }
}

/// A totally ordered, copyable value: the order is that of `rank`, which is
/// injective.
pub trait Symbol: Copy + Sized {
    /// Position of this value in the total order.
    spec fn rank(&self) -> int;

    /// Distinct values have distinct ranks.
    proof fn lemma_rank_injective(a: Self, b: Self)
        ensures
            a.rank() == b.rank() <==> a == b,
    ;

    /// Compare two values by their ranks.
    fn compare(&self, other: &Self) -> (r: Ordering)
        ensures
            r == order_of(self.rank(), other.rank()),
    ;
}

/// Alphabet partitioned into three disjoint sets: calls, returns, and locals.
pub trait Alphabet: Symbol {
    /// The kind of this token, as a function of the token alone.
    spec fn kind_of(&self) -> Kind;

    /// What kind of symbol this is: call, return, or local.
    fn kind(&self) -> (k: Kind)
        ensures
            k == self.kind_of(),
    ;

    /// The answer `stray_kind` gives.
    spec fn stray_of(first: Self, last: Self, k: Kind) -> Option<Kind>;

    /// The answer `stray_kind_anywhere` gives.
    spec fn stray_anywhere_of(k: Kind) -> Option<Kind>;

    /// A kind other than `k` that some token from `first` to `last`
    /// (inclusive) has, if any.
    fn stray_kind(first: &Self, last: &Self, k: Kind) -> (r: Option<Kind>)
        ensures
            r == Self::stray_of(*first, *last, k),
            r is None <==> forall|t: Self|
                first.rank() <= #[trigger] t.rank() <= last.rank() ==> t.kind_of() == k,
            r matches Some(j) ==> j != k && exists|t: Self|
                first.rank() <= #[trigger] t.rank() <= last.rank() && t.kind_of() == j,
    ;

    /// A kind other than `k` that some token has, if any.
    fn stray_kind_anywhere(k: Kind) -> (r: Option<Kind>)
        ensures
            r == Self::stray_anywhere_of(k),
            r is None <==> forall|t: Self| #[trigger] t.kind_of() == k,
            r matches Some(j) ==> j != k && exists|t: Self| #[trigger] t.kind_of() == j,
    ;
}

/// `a <= b` in the order of ranks.
pub fn at_most<T: Symbol>(a: &T, b: &T) -> (r: bool)
    ensures
        r == (a.rank() <= b.rank()),
{
    match a.compare(b) {
        Ordering::Greater => false,
        _ => true,
    }
}

/// `a == b`, decided through ranks.
pub fn same<T: Symbol>(a: &T, b: &T) -> (r: bool)
    ensures
        r == (*a == *b),
{
    proof {
        T::lemma_rank_injective(*a, *b);
    }
    match a.compare(b) {
        Ordering::Equal => true,
        _ => false,
    }
}

impl Symbol for bool {
    open spec fn rank(&self) -> int {
        if *self {
            1
        } else {
            0
        }
    }

    proof fn lemma_rank_injective(a: Self, b: Self) {
    }

    fn compare(&self, other: &Self) -> (r: Ordering) {
        if !*self && *other {
            Ordering::Less
        } else if *self && !*other {
            Ordering::Greater
        } else {
            Ordering::Equal
        }
    }
}

impl Symbol for u8 {
    open spec fn rank(&self) -> int {
        *self as int
    }

    proof fn lemma_rank_injective(a: Self, b: Self) {
    }

    fn compare(&self, other: &Self) -> (r: Ordering) {
        if *self < *other {
            Ordering::Less
        } else if *self > *other {
            Ordering::Greater
        } else {
            Ordering::Equal
        }
    }
}

impl Symbol for u32 {
    open spec fn rank(&self) -> int {
        *self as int
    }

    proof fn lemma_rank_injective(a: Self, b: Self) {
    }

    fn compare(&self, other: &Self) -> (r: Ordering) {
        if *self < *other {
            Ordering::Less
        } else if *self > *other {
            Ordering::Greater
        } else {
            Ordering::Equal
        }
    }
}

impl Symbol for u64 {
    open spec fn rank(&self) -> int {
        *self as int
    }

    proof fn lemma_rank_injective(a: Self, b: Self) {
    }

    fn compare(&self, other: &Self) -> (r: Ordering) {
        if *self < *other {
            Ordering::Less
        } else if *self > *other {
            Ordering::Greater
        } else {
            Ordering::Equal
        }
    }
}

impl Symbol for usize {
    open spec fn rank(&self) -> int {
        *self as int
    }

    proof fn lemma_rank_injective(a: Self, b: Self) {
    }

    fn compare(&self, other: &Self) -> (r: Ordering) {
        if *self < *other {
            Ordering::Less
        } else if *self > *other {
            Ordering::Greater
        } else {
            Ordering::Equal
        }
    }
}

impl Symbol for char {
    open spec fn rank(&self) -> int {
        *self as u32 as int
    }

    proof fn lemma_rank_injective(a: Self, b: Self) {
        vstd::utf8::char_u32_cast(a, a as u32);
        vstd::utf8::char_u32_cast(b, b as u32);
    }

    fn compare(&self, other: &Self) -> (r: Ordering) {
        let x = *self as u32;
        let y = *other as u32;
        if x < y {
            Ordering::Less
        } else if x > y {
            Ordering::Greater
        } else {
            Ordering::Equal
        }
    }
}

/// Every `bool` is a local token.
impl Alphabet for bool {
    open spec fn kind_of(&self) -> Kind {
        Kind::Local
    }

    open spec fn stray_of(first: Self, last: Self, k: Kind) -> Option<Kind> {
        if k == Kind::Local || first.rank() > last.rank() {
            None
        } else {
            Some(Kind::Local)
        }
    }

    open spec fn stray_anywhere_of(k: Kind) -> Option<Kind> {
        if k == Kind::Local {
            None
        } else {
            Some(Kind::Local)
        }
    }

    fn kind(&self) -> (k: Kind) {
        Kind::Local
    }

    fn stray_kind(first: &Self, last: &Self, k: Kind) -> (r: Option<Kind>) {
        if k == Kind::Local || !at_most(first, last) {
            None
        } else {
            assert(first.rank() <= first.rank() <= last.rank());
            Some(Kind::Local)
        }
    }

    fn stray_kind_anywhere(k: Kind) -> (r: Option<Kind>) {
        if k == Kind::Local {
            None
        } else {
            assert(false.kind_of() == Kind::Local);
            Some(Kind::Local)
        }
    }
}

/// Every `u8` is a local token.
impl Alphabet for u8 {
    open spec fn kind_of(&self) -> Kind {
        Kind::Local
    }

    open spec fn stray_of(first: Self, last: Self, k: Kind) -> Option<Kind> {
        if k == Kind::Local || first.rank() > last.rank() {
            None
        } else {
            Some(Kind::Local)
        }
    }

    open spec fn stray_anywhere_of(k: Kind) -> Option<Kind> {
        if k == Kind::Local {
            None
        } else {
            Some(Kind::Local)
        }
    }

    fn kind(&self) -> (k: Kind) {
        Kind::Local
    }

    fn stray_kind(first: &Self, last: &Self, k: Kind) -> (r: Option<Kind>) {
        if k == Kind::Local || !at_most(first, last) {
            None
        } else {
            assert(first.rank() <= first.rank() <= last.rank());
            Some(Kind::Local)
        }
    }

    fn stray_kind_anywhere(k: Kind) -> (r: Option<Kind>) {
        if k == Kind::Local {
            None
        } else {
            assert(0u8.kind_of() == Kind::Local);
            Some(Kind::Local)
        }
    }
}

/// Every `u32` is a local token.
impl Alphabet for u32 {
    open spec fn kind_of(&self) -> Kind {
        Kind::Local
    }

    open spec fn stray_of(first: Self, last: Self, k: Kind) -> Option<Kind> {
        if k == Kind::Local || first.rank() > last.rank() {
            None
        } else {
            Some(Kind::Local)
        }
    }

    open spec fn stray_anywhere_of(k: Kind) -> Option<Kind> {
        if k == Kind::Local {
            None
        } else {
            Some(Kind::Local)
        }
    }

    fn kind(&self) -> (k: Kind) {
        Kind::Local
    }

    fn stray_kind(first: &Self, last: &Self, k: Kind) -> (r: Option<Kind>) {
        if k == Kind::Local || !at_most(first, last) {
            None
        } else {
            assert(first.rank() <= first.rank() <= last.rank());
            Some(Kind::Local)
        }
    }

    fn stray_kind_anywhere(k: Kind) -> (r: Option<Kind>) {
        if k == Kind::Local {
            None
        } else {
            assert(0u32.kind_of() == Kind::Local);
            Some(Kind::Local)
        }
    }
}

/// Every `u64` is a local token.
impl Alphabet for u64 {
    open spec fn kind_of(&self) -> Kind {
        Kind::Local
    }

    open spec fn stray_of(first: Self, last: Self, k: Kind) -> Option<Kind> {
        if k == Kind::Local || first.rank() > last.rank() {
            None
        } else {
            Some(Kind::Local)
        }
    }

    open spec fn stray_anywhere_of(k: Kind) -> Option<Kind> {
        if k == Kind::Local {
            None
        } else {
            Some(Kind::Local)
        }
    }

    fn kind(&self) -> (k: Kind) {
        Kind::Local
    }

    fn stray_kind(first: &Self, last: &Self, k: Kind) -> (r: Option<Kind>) {
        if k == Kind::Local || !at_most(first, last) {
            None
        } else {
            assert(first.rank() <= first.rank() <= last.rank());
            Some(Kind::Local)
        }
    }

    fn stray_kind_anywhere(k: Kind) -> (r: Option<Kind>) {
        if k == Kind::Local {
            None
        } else {
            assert(0u64.kind_of() == Kind::Local);
            Some(Kind::Local)
        }
    }
}

/// Characters as a bracket language: opening brackets are calls, closing
/// brackets are returns, every other character is local.
/// The character after a bracket, whose kind differs from the bracket's.
pub open spec fn char_after(c: char) -> char {
    if c == '(' {
        ')'
    } else if c == '[' {
        '\\'
    } else if c == '{' {
        '|'
    } else if c == ')' {
        '*'
    } else if c == ']' {
        '^'
    } else {
        '~'
    }
}

impl Alphabet for char {
    open spec fn stray_of(first: char, last: char, k: Kind) -> Option<Kind> {
        let f = first as u32;
        let l = last as u32;
        if f > l {
            None
        } else if k == Kind::Local {
            if f <= 40 <= l {
                Some(Kind::Call)
            } else if f <= 91 <= l {
                Some(Kind::Call)
            } else if f <= 123 <= l {
                Some(Kind::Call)
            } else if f <= 41 <= l {
                Some(Kind::Return)
            } else if f <= 93 <= l {
                Some(Kind::Return)
            } else if f <= 125 <= l {
                Some(Kind::Return)
            } else {
                None
            }
        } else if f == l {
            if first.kind_of() == k {
                None
            } else {
                Some(first.kind_of())
            }
        } else if first.kind_of() != k {
            Some(first.kind_of())
        } else {
            Some(char_after(first).kind_of())
        }
    }

    open spec fn stray_anywhere_of(k: Kind) -> Option<Kind> {
        if k == Kind::Local {
            Some(Kind::Call)
        } else {
            Some(Kind::Local)
        }
    }

    open spec fn kind_of(&self) -> Kind {
        if *self == '(' || *self == '[' || *self == '{' {
            Kind::Call
        } else if *self == ')' || *self == ']' || *self == '}' {
            Kind::Return
        } else {
            Kind::Local
        }
    }

    fn kind(&self) -> (k: Kind) {
        let c = *self;
        if c == '(' || c == '[' || c == '{' {
            Kind::Call
        } else if c == ')' || c == ']' || c == '}' {
            Kind::Return
        } else {
            Kind::Local
        }
    }

    fn stray_kind(first: &Self, last: &Self, k: Kind) -> (r: Option<Kind>) {
        let f = *first as u32;
        let l = *last as u32;
        if f > l {
            return None;
        }
        if k == Kind::Local {
            let hit: Option<char> = if f <= 40 && 40 <= l {
                Some('(')
            } else if f <= 91 && 91 <= l {
                Some('[')
            } else if f <= 123 && 123 <= l {
                Some('{')
            } else if f <= 41 && 41 <= l {
                Some(')')
            } else if f <= 93 && 93 <= l {
                Some(']')
            } else if f <= 125 && 125 <= l {
                Some('}')
            } else {
                None
            };
            match hit {
                Some(c) => {
                    assert(first.rank() <= c.rank() <= last.rank());
                    return Some(c.kind());
                },
                None => {
                    proof {
                        assert forall|t: char| first.rank() <= #[trigger] t.rank() <= last.rank() implies t.kind_of()
                            == k by {
                            assert('(' as u32 == 40 && '[' as u32 == 91 && '{' as u32 == 123);
                            assert(')' as u32 == 41 && ']' as u32 == 93 && '}' as u32 == 125);
                        }
                    }
                    return None;
                },
            }
        }
        let fk = first.kind();
        if f == l {
            proof {
                assert forall|t: char| first.rank() <= #[trigger] t.rank() <= last.rank() implies t
                    == *first by {
                    char::lemma_rank_injective(t, *first);
                }
            }
            if fk == k {
                return None;
            } else {
                assert(first.rank() <= first.rank() <= last.rank());
                return Some(fk);
            }
        }
        if fk != k {
            assert(first.rank() <= first.rank() <= last.rank());
            return Some(fk);
        }
        let next: char = if *first == '(' {
            ')'
        } else if *first == '[' {
            '\\'
        } else if *first == '{' {
            '|'
        } else if *first == ')' {
            '*'
        } else if *first == ']' {
            '^'
        } else {
            '~'
        };
        assert(next as u32 == f + 1);
        assert(first.rank() <= next.rank() <= last.rank());
        Some(next.kind())
    }

    fn stray_kind_anywhere(k: Kind) -> (r: Option<Kind>) {
        if k == Kind::Local {
            assert('('.kind_of() == Kind::Call);
            Some(Kind::Call)
        } else {
            assert('a'.kind_of() == Kind::Local);
            Some(Kind::Local)
        }
    }
}

} // verus!
