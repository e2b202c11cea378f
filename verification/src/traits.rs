//! The element types a vector-based union-find can be indexed by.

use vstd::prelude::*;

verus! {

/// A type that can be used as a union-find element.
///
/// It must be safely convertible to and from `usize`: the conversions set up
/// a bijection between the first `count_spec()` values of `usize` and the
/// values of the type.  `idx_spec` is the mathematical value of an element,
/// and the two executable conversions are exact with respect to it:
///
/// - `from_usize(n)` is `Some` exactly when `n < count_spec()`, and the
///   element it returns has value `n`;
/// - `to_usize` returns the element's value, which always lies below
///   `count_spec()`.
pub trait ElementType: Copy + PartialEq + Eq + core::fmt::Debug + Sized {
    /// The mathematical value of this element.
    spec fn idx_spec(self) -> int;

    /// How many distinct `usize` values fit in this type.
    spec fn count_spec() -> int;

    /// The capacity is never negative, so an empty structure is always
    /// representable.
    proof fn lemma_count_nonneg()
        ensures
            0 <= Self::count_spec(),
    ;

    /// Converts from `usize` to the element type.
    ///
    /// Returns `None` if the argument won't fit in `Self`.
    fn from_usize(n: usize) -> (r: Option<Self>)
        ensures
            r is Some <==> n < Self::count_spec(),
            r is Some ==> r->0.idx_spec() == n,
    ;

    /// Converts from the element type to `usize`.
    fn to_usize(self) -> (r: usize)
        ensures
            r == self.idx_spec(),
            0 <= self.idx_spec() < Self::count_spec(),
    ;
}

impl ElementType for usize {
    open spec fn idx_spec(self) -> int {
        self as int
    }

    open spec fn count_spec() -> int {
        usize::MAX as int + 1
    }

    proof fn lemma_count_nonneg() {
    }

    fn from_usize(n: usize) -> (r: Option<usize>) {
        Some(n)
    }

    fn to_usize(self) -> (r: usize) {
        self
    }
}

impl ElementType for u8 {
    open spec fn idx_spec(self) -> int {
        self as int
    }

    open spec fn count_spec() -> int {
        u8::MAX as int + 1
    }

    proof fn lemma_count_nonneg() {
    }

    fn from_usize(n: usize) -> (r: Option<u8>) {
        if n <= u8::MAX as usize {
            Some(n as u8)
        } else {
            None
        }
    }

    fn to_usize(self) -> (r: usize) {
        self as usize
    }
}

impl ElementType for u16 {
    open spec fn idx_spec(self) -> int {
        self as int
    }

    open spec fn count_spec() -> int {
        u16::MAX as int + 1
    }

    proof fn lemma_count_nonneg() {
    }

    fn from_usize(n: usize) -> (r: Option<u16>) {
        if n <= u16::MAX as usize {
            Some(n as u16)
        } else {
            None
        }
    }

    fn to_usize(self) -> (r: usize) {
        self as usize
    }
}

impl ElementType for u32 {
    open spec fn idx_spec(self) -> int {
        self as int
    }

    open spec fn count_spec() -> int {
        u32::MAX as int + 1
    }

    proof fn lemma_count_nonneg() {
    }

    fn from_usize(n: usize) -> (r: Option<u32>) {
        if n <= u32::MAX as usize {
            Some(n as u32)
        } else {
            None
        }
    }

    fn to_usize(self) -> (r: usize) {
        self as usize
    }
}

} // verus!
