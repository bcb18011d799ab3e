//! The storage words that packed vectors are made of.

use vstd::prelude::*;

verus! {

/// An unsigned machine word used as the unit of packed storage.
///
/// Bit manipulation is carried out on the word's value widened to `u64`;
/// a word type only says how wide it is and how to convert.
pub trait BlockType: Sized {
    /// The number of bits in the word.
    spec fn width() -> u64;

    /// The word's value.
    spec fn value(&self) -> u64;

    /// The number of bytes in the word.
    fn nbytes() -> (r: usize)
        ensures
            8 * r == Self::width(),
    ;

    /// The word's value, widened to `u64`.
    fn to_u64(&self) -> (r: u64)
        ensures
            r == self.value(),
    ;

    /// The word whose value is `x`.
    fn from_u64(x: u64) -> (r: Self)
        requires
            x >> Self::width() == 0,
        ensures
            r.value() == x,
    ;

    /// Every word type is 8 to 64 bits wide.
    proof fn lemma_width()
        ensures
            8 <= Self::width() <= 64,
    ;

    /// A word's value fits in its width.
    proof fn lemma_block(&self)
        ensures
            self.value() >> Self::width() == 0,
    ;
}

impl BlockType for u8 {
    open spec fn width() -> u64 {
        8
    }

    open spec fn value(&self) -> u64 {
        *self as u64
    }

    fn nbytes() -> (r: usize) {
        1
    }

    fn to_u64(&self) -> (r: u64) {
        *self as u64
    }

    fn from_u64(x: u64) -> (r: Self) {
        assert(x >> 8u64 == 0 ==> (x as u8) as u64 == x) by (bit_vector);
        x as u8
    }

    proof fn lemma_width() {
    }

    proof fn lemma_block(&self) {
        let x = *self;
        assert((x as u64) >> 8u64 == 0) by (bit_vector);
    }
}

impl BlockType for u16 {
    open spec fn width() -> u64 {
        16
    }

    open spec fn value(&self) -> u64 {
        *self as u64
    }

    fn nbytes() -> (r: usize) {
        2
    }

    fn to_u64(&self) -> (r: u64) {
        *self as u64
    }

    fn from_u64(x: u64) -> (r: Self) {
        assert(x >> 16u64 == 0 ==> (x as u16) as u64 == x) by (bit_vector);
        x as u16
    }

    proof fn lemma_width() {
    }

    proof fn lemma_block(&self) {
        let x = *self;
        assert((x as u64) >> 16u64 == 0) by (bit_vector);
    }
}

impl BlockType for u32 {
    open spec fn width() -> u64 {
        32
    }

    open spec fn value(&self) -> u64 {
        *self as u64
    }

    fn nbytes() -> (r: usize) {
        4
    }

    fn to_u64(&self) -> (r: u64) {
        *self as u64
    }

    fn from_u64(x: u64) -> (r: Self) {
        assert(x >> 32u64 == 0 ==> (x as u32) as u64 == x) by (bit_vector);
        x as u32
    }

    proof fn lemma_width() {
    }

    proof fn lemma_block(&self) {
        let x = *self;
        assert((x as u64) >> 32u64 == 0) by (bit_vector);
    }
}

impl BlockType for u64 {
    open spec fn width() -> u64 {
        64
    }

    open spec fn value(&self) -> u64 {
        *self
    }

    fn nbytes() -> (r: usize) {
        8
    }

    fn to_u64(&self) -> (r: u64) {
        *self
    }

    fn from_u64(x: u64) -> (r: Self) {
        x
    }

    proof fn lemma_width() {
    }

    proof fn lemma_block(&self) {
        let x = *self;
        assert(x >> 64u64 == 0) by (bit_vector);
    }
}

} // verus!
