//! Interfaces for select queries, the inverse of rank.
//!
//! A select structure finds the position of the `index`th occurrence of a
//! value, counting from 0, or `None` where there are not that many.

use vstd::prelude::*;

verus! {

/// Types that can find the `index`th 1 bit.
pub trait SelectSupport1 {
    /// Returns the position of the `index`th 1 bit.
    fn select1(&self, index: u64) -> Option<u64>;
}

/// Types that can find the `index`th 0 bit.
pub trait SelectSupport0 {
    /// Returns the position of the `index`th 0 bit.
    fn select0(&self, index: u64) -> Option<u64>;
}

/// Types that can find the `index`th occurrence of a value of type `Over`.
pub trait SelectSupport {
    /// The type of value searched for.
    type Over: Copy;

    /// Returns the position of the `index`th occurrence of `value`.
    fn select(&self, index: u64, value: Self::Over) -> Option<u64>;
}

} // verus!
