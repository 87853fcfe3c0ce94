//! The widths a field may have, and types that name a width.

use vstd::prelude::*;

verus! {

/// The narrowest width a declared field may have.
pub const MIN_WIDTH: usize = 1;

/// The widest width a declared field may have: a field's value is carried in
/// a `u64`.
pub const MAX_WIDTH: usize = 64;

/// Whether a declared field may have this width.
pub open spec fn legal_width(width: int) -> bool {
    MIN_WIDTH <= width <= MAX_WIDTH
}

/// Tells whether a declared field may have `width` bits.
pub fn is_legal_width(width: usize) -> (r: bool)
    ensures
        r == legal_width(width as int),
{
    MIN_WIDTH <= width && width <= MAX_WIDTH
}

/// A type that stands for a fixed number of bits.
pub trait Specifier {
    /// The number of bits.
    spec fn spec_bits() -> nat;

    /// The number of bits.
    fn bits() -> (r: usize)
        ensures
            r == Self::spec_bits(),
    ;
}

/// The width of nothing: a field of no bits, which occupies no storage.
pub enum Zero {
    Empty,
}

impl Specifier for Zero {
    open spec fn spec_bits() -> nat {
        0
    }

    fn bits() -> (r: usize) {
        0
    }
}

/// A width of `N` bits.
pub struct Bits<const N: usize>;

impl<const N: usize> Specifier for Bits<N> {
    open spec fn spec_bits() -> nat {
        N as nat
    }

    fn bits() -> (r: usize) {
        N
    }
}

} // verus!
