//! What tells the keys of keyed limiters apart.

use vstd::prelude::*;

verus! {

/// A key: two keys are the same when their views are.
pub trait Key: View + Sized {
    /// Whether the two keys are the same.
    fn same(&self, other: &Self) -> (yes: bool)
        ensures
            yes == (self@ == other@),
    ;

    /// A key that is the same as this one.
    fn copied(&self) -> (key: Self)
        ensures
            key@ == self@,
    ;
}

impl Key for () {
    fn same(&self, other: &Self) -> (yes: bool) {
        true
    }

    fn copied(&self) -> (key: Self) {
        ()
    }
}

impl Key for u32 {
    fn same(&self, other: &Self) -> (yes: bool) {
        *self == *other
    }

    fn copied(&self) -> (key: Self) {
        *self
    }
}

impl Key for u64 {
    fn same(&self, other: &Self) -> (yes: bool) {
        *self == *other
    }

    fn copied(&self) -> (key: Self) {
        *self
    }
}

impl Key for usize {
    fn same(&self, other: &Self) -> (yes: bool) {
        *self == *other
    }

    fn copied(&self) -> (key: Self) {
        *self
    }
}

impl Key for String {
    fn same(&self, other: &Self) -> (yes: bool) {
        *self == *other
    }

    fn copied(&self) -> (key: Self) {
        self.clone()
    }
}

impl Key for &'static str {
    fn same(&self, other: &Self) -> (yes: bool) {
        crate::text::same_text(*self, *other)
    }

    fn copied(&self) -> (key: Self) {
        *self
    }
}

impl Key for u8 {
    fn same(&self, other: &Self) -> (yes: bool) {
        *self == *other
    }

    fn copied(&self) -> (key: Self) {
        *self
    }
}

impl Key for u16 {
    fn same(&self, other: &Self) -> (yes: bool) {
        *self == *other
    }

    fn copied(&self) -> (key: Self) {
        *self
    }
}

impl Key for u128 {
    fn same(&self, other: &Self) -> (yes: bool) {
        *self == *other
    }

    fn copied(&self) -> (key: Self) {
        *self
    }
}

impl Key for i32 {
    fn same(&self, other: &Self) -> (yes: bool) {
        *self == *other
    }

    fn copied(&self) -> (key: Self) {
        *self
    }
}

impl Key for i64 {
    fn same(&self, other: &Self) -> (yes: bool) {
        *self == *other
    }

    fn copied(&self) -> (key: Self) {
        *self
    }
}

impl Key for bool {
    fn same(&self, other: &Self) -> (yes: bool) {
        *self == *other
    }

    fn copied(&self) -> (key: Self) {
        *self
    }
}

impl Key for char {
    fn same(&self, other: &Self) -> (yes: bool) {
        *self == *other
    }

    fn copied(&self) -> (key: Self) {
        *self
    }
}

impl<A: Key, B: Key> Key for (A, B) {
    fn same(&self, other: &Self) -> (yes: bool) {
        self.0.same(&other.0) && self.1.same(&other.1)
    }

    fn copied(&self) -> (key: Self) {
        (self.0.copied(), self.1.copied())
    }
}

} // verus!
