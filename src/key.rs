use vstd::prelude::*;

verus! {

/// A copyable value ordered through an integer key.
///
/// Comparisons in this crate go through `key_lt` and `key_eq`; their
/// contracts tie them to the mathematical integer `key()`, so that orderings
/// in specifications are ordinary integer orderings.
pub trait OrdKey: Copy {
    spec fn key(&self) -> int;

    fn key_lt(&self, other: &Self) -> (r: bool)
        ensures
            r == (self.key() < other.key()),
    ;

    fn key_eq(&self, other: &Self) -> (r: bool)
        ensures
            r == (self.key() == other.key()),
    ;
}

impl OrdKey for i32 {
    open spec fn key(&self) -> int {
        *self as int
    }

    fn key_lt(&self, other: &Self) -> (r: bool) {
        *self < *other
    }

    fn key_eq(&self, other: &Self) -> (r: bool) {
        *self == *other
    }
}

impl OrdKey for i64 {
    open spec fn key(&self) -> int {
        *self as int
    }

    fn key_lt(&self, other: &Self) -> (r: bool) {
        *self < *other
    }

    fn key_eq(&self, other: &Self) -> (r: bool) {
        *self == *other
    }
}

impl OrdKey for u32 {
    open spec fn key(&self) -> int {
        *self as int
    }

    fn key_lt(&self, other: &Self) -> (r: bool) {
        *self < *other
    }

    fn key_eq(&self, other: &Self) -> (r: bool) {
        *self == *other
    }
}

impl OrdKey for u64 {
    open spec fn key(&self) -> int {
        *self as int
    }

    fn key_lt(&self, other: &Self) -> (r: bool) {
        *self < *other
    }

    fn key_eq(&self, other: &Self) -> (r: bool) {
        *self == *other
    }
}

impl OrdKey for usize {
    open spec fn key(&self) -> int {
        *self as int
    }

    fn key_lt(&self, other: &Self) -> (r: bool) {
        *self < *other
    }

    fn key_eq(&self, other: &Self) -> (r: bool) {
        *self == *other
    }
}

} // verus!
