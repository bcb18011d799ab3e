//! Bit-packed vectors of `k`-bit unsigned integers.

use crate::bits::{
    get_bits, get_bits_exec, lemma_fits_pow2, lemma_get_fits, lemma_get_set_disjoint,
    lemma_get_set_same, lemma_join_fits, lemma_set_fits, lemma_split_join, mask, set_bits,
    set_bits_exec,
};
use crate::block_type::BlockType;
use num::ToPrimitive;
use vstd::arithmetic::div_mod::lemma_fundamental_div_mod;
use vstd::arithmetic::power2::pow2;
use vstd::prelude::*;

verus! {

/// `x / w`, rounded up.
pub open spec fn ceil_div(x: int, w: int) -> int {
    if x % w == 0 {
        x / w
    } else {
        x / w + 1
    }
}

/// The value of element `i` of a vector of `k`-bit elements stored in the
/// `w`-bit words `s`.
///
/// Element `i` occupies the bits `i * k .. i * k + k` of the flat bit space,
/// in which bit `p` is bit `p % w` of word `p / w`. An element that lies in
/// one word is that word's bits from its offset on. An element that straddles
/// two words has the top bits of the first word as its high part and the
/// bottom bits of the second word as its low part.
pub open spec fn elem_at(s: Seq<u64>, w: u64, k: u64, i: int) -> u64 {
    if k == w {
        s[i]
    } else {
        let p = i * k;
        let b = p / (w as int);
        let off = (p % (w as int)) as u64;
        if off + k <= w {
            get_bits(s[b], off, k)
        } else {
            let margin = (w - off) as u64;
            let extra = (k - margin) as u64;
            (get_bits(s[b], off, margin) << extra) | get_bits(s[b + 1], 0, extra)
        }
    }
}

/// Bit `pos` of the flat bit space over the `w`-bit words `s`.
pub open spec fn bit_at(s: Seq<u64>, w: u64, pos: int) -> bool {
    get_bits(s[pos / (w as int)], (pos % (w as int)) as u64, 1) == 1
}

/// Every bit range of `s2` that lies outside the flat range `lo .. hi` is
/// as in `s`.
pub open spec fn pieces_kept(s: Seq<u64>, s2: Seq<u64>, w: u64, lo: int, hi: int) -> bool {
    &&& s.len() == s2.len()
    &&& forall|c: int, off: u64, len: u64|
        0 <= c < s.len() && len < 64 && off + len <= w && (c * w + off + len <= lo || hi <= c * w
            + off) ==> #[trigger] get_bits(s2[c], off, len) == get_bits(s[c], off, len)
}

/// The elements after the writes `(index, value)` are applied in order, each
/// as by `IntVec::set`.
pub open spec fn apply_writes(v: Seq<u64>, writes: Seq<(int, u64)>) -> Seq<u64>
    decreases writes.len(),
{
    if writes.len() == 0 {
        v
    } else {
        apply_writes(v, writes.drop_last()).update(writes.last().0, writes.last().1)
    }
}

/// The value last written at index `i`, or the element it had before.
pub open spec fn last_written(v: Seq<u64>, writes: Seq<(int, u64)>, i: int) -> u64
    decreases writes.len(),
{
    if writes.len() == 0 {
        v[i]
    } else if writes.last().0 == i {
        writes.last().1
    } else {
        last_written(v, writes.drop_last(), i)
    }
}

/// After any sequence of in-range writes, reading an index gives the value
/// last written there, or the value it had before if none was; the length
/// does not change.
pub proof fn lemma_round_trip(v: Seq<u64>, writes: Seq<(int, u64)>, i: int)
    requires
        0 <= i < v.len(),
        forall|j: int| 0 <= j < writes.len() ==> 0 <= #[trigger] writes[j].0 < v.len(),
    ensures
        apply_writes(v, writes).len() == v.len(),
        apply_writes(v, writes)[i] == last_written(v, writes, i),
    decreases writes.len(),
{
    if writes.len() > 0 {
        let rest = writes.drop_last();
        assert forall|j: int| 0 <= j < rest.len() implies 0 <= #[trigger] rest[j].0 < v.len() by {
            assert(rest[j] == writes[j]);
        }
        lemma_round_trip(v, rest, i);
        assert(writes[writes.len() - 1] == writes.last());
    }
}

/// A vector of `k`-bit unsigned integers, where `k` is chosen at run time.
///
/// `Block` is the storage word; `k` never exceeds its width.
pub struct IntVec<Block: BlockType = u64> {
    blocks: Vec<Block>,
    n_elements: usize,
    element_bits: usize,
}

/// An iterator over the elements of an `IntVec`, from both ends.
pub struct Iter<'a, Block: BlockType = u64> {
    vec: &'a IntVec<Block>,
    start: usize,
    limit: usize,
}

/// The address of a bit: the index of a block and the index of a bit in it.
#[derive(Clone, Copy, Debug)]
struct Address {
    block_index: usize,
    bit_offset: usize,
}

/// Relies on num's `ToPrimitive::to_usize` for `u64`: `Some` of the same
/// value exactly when it fits in a `usize`.
#[verifier::external_body]
fn u64_to_usize(x: u64) -> (r: Option<usize>)
    ensures
        r == (if x <= usize::MAX {
            Some(x as usize)
        } else {
            None::<usize>
        }),
{
    x.to_usize()
}

pub proof fn lemma_ceil_div(x: int, w: int)
    requires
        x >= 0,
        w > 0,
    ensures
        ceil_div(x, w) * w >= x,
        ceil_div(x, w) * w < x + w,
        ceil_div(x, w) >= 0,
{
    lemma_fundamental_div_mod(x, w);
    assert(ceil_div(x, w) * w >= x && ceil_div(x, w) * w < x + w) by (nonlinear_arith)
        requires
            x == w * (x / w) + x % w,
            0 <= x % w < w,
            ceil_div(x, w) == (if x % w == 0 {
                x / w
            } else {
                x / w + 1
            }),
    ;
    assert(x / w >= 0) by (nonlinear_arith)
        requires
            x >= 0,
            w > 0,
    ;
}

/// Elements whose bit ranges lie outside `lo .. hi` are unchanged where
/// the bit ranges outside `lo .. hi` are.
proof fn lemma_elem_kept(s: Seq<u64>, s2: Seq<u64>, w: u64, k: u64, j: int, lo: int, hi: int)
    requires
        pieces_kept(s, s2, w, lo, hi),
        8 <= w <= 64,
        k < w,
        0 <= j,
        j * k + k <= s.len() * w,
        j * k + k <= lo || hi <= j * k,
    ensures
        elem_at(s2, w, k, j) == elem_at(s, w, k, j),
{
    let p = j * k;
    let b = p / (w as int);
    let off = (p % (w as int)) as u64;
    vstd::arithmetic::mul::lemma_mul_nonnegative(j, k as int);
    lemma_fundamental_div_mod(p, w as int);
    if k == 0 {
        let x = s[b];
        let y = s2[b];
        assert(get_bits(x, off, 0) == 0 && get_bits(y, off, 0) == 0) by (bit_vector);
    } else if off + k <= w {
        assert(b < s.len()) by (nonlinear_arith)
            requires
                p == w * b + off,
                p + k <= s.len() * w,
                k > 0,
                w > 0,
        ;
        assert(b * w == w * b) by (nonlinear_arith);
        assert(get_bits(s2[b], off, k) == get_bits(s[b], off, k));
    } else {
        let margin = (w - off) as u64;
        let extra = (k - margin) as u64;
        assert(b + 1 < s.len()) by (nonlinear_arith)
            requires
                p == w * b + off,
                p + k <= s.len() * w,
                off + k > w,
                w > 0,
        ;
        assert(b * w == w * b) by (nonlinear_arith);
        assert((b + 1) * w == w * b + w) by (nonlinear_arith);
        assert(get_bits(s2[b], off, margin) == get_bits(s[b], off, margin));
        assert(get_bits(s2[b + 1], 0, extra) == get_bits(s[b + 1], 0, extra));
    }
}


/// Zero words hold zero elements.
proof fn lemma_elem_zero(s: Seq<u64>, w: u64, k: u64, j: int)
    requires
        forall|c: int| 0 <= c < s.len() ==> s[c] == 0,
        8 <= w <= 64,
        k <= w,
        0 <= j,
        j * k + k <= s.len() * w,
    ensures
        elem_at(s, w, k, j) == 0,
{
    let p = j * k;
    let b = p / (w as int);
    let off = (p % (w as int)) as u64;
    vstd::arithmetic::mul::lemma_mul_nonnegative(j, k as int);
    lemma_fundamental_div_mod(p, w as int);
    assert(forall|x: u64, off: u64, len: u64| #[trigger] get_bits(x, off, len) == 0 <== (x == 0
        || len == 0)) by (bit_vector);
    assert(forall|x: u64, e: u64| x == 0 ==> #[trigger] (x << e) | 0 == 0) by (bit_vector);
    if k == w {
        assert(j < s.len()) by (nonlinear_arith)
            requires
                j * k + k <= s.len() * w,
                k == w,
                w > 0,
        ;
    } else if k == 0 {
    } else if off + k <= w {
        assert(b < s.len()) by (nonlinear_arith)
            requires
                p == w * b + off,
                p + k <= s.len() * w,
                k > 0,
                w > 0,
        ;
    } else {
        assert(b + 1 < s.len()) by (nonlinear_arith)
            requires
                p == w * b + off,
                p + k <= s.len() * w,
                off + k > w,
                w > 0,
        ;
    }
}

/// All other elements keep their values when only bits of element `i` change.
proof fn lemma_others_kept(s: Seq<u64>, s2: Seq<u64>, w: u64, k: u64, n: int, i: int)
    requires
        pieces_kept(s, s2, w, i * k, i * k + k),
        8 <= w <= 64,
        k < w,
        0 <= i < n,
        n * k <= s.len() * w,
    ensures
        forall|j: int|
            0 <= j < n && j != i ==> elem_at(s2, w, k, j) == elem_at(s, w, k, j),
{
    assert forall|j: int| 0 <= j < n && j != i implies elem_at(s2, w, k, j) == elem_at(
        s,
        w,
        k,
        j,
    ) by {
        assert(j * k + k <= s.len() * w && (j * k + k <= i * k || i * k + k <= j * k))
            by (nonlinear_arith)
            requires
                0 <= j < n,
                j != i,
                0 <= i < n,
                n * k <= s.len() * w,
                k >= 0,
        ;
        lemma_elem_kept(s, s2, w, k, j, i * k, i * k + k);
    }
}


/// Writing an element that lies within one word changes that element alone.
proof fn lemma_write_within(
    s: Seq<u64>,
    s2: Seq<u64>,
    w: u64,
    k: u64,
    n: int,
    i: int,
    b: int,
    off: u64,
    v: u64,
)
    requires
        8 <= w <= 64,
        0 < k < w,
        0 <= i < n,
        n * k <= s.len() * w,
        b == (i * k) / (w as int),
        off == (i * k) % (w as int),
        off + k <= w,
        0 <= b < s.len(),
        v >> k == 0,
        s2 == s.update(b, set_bits(s[b], off, k, v)),
    ensures
        forall|j: int|
            0 <= j < n ==> elem_at(s2, w, k, j) == if j == i {
                v
            } else {
                elem_at(s, w, k, j)
            },
{
    let p = i * k;
    lemma_fundamental_div_mod(p, w as int);
    assert(b * w == w * b) by (nonlinear_arith);
    assert forall|c: int, off2: u64, len2: u64|
        0 <= c < s.len() && len2 < 64 && off2 + len2 <= w && (c * w + off2 + len2 <= p || p + k
            <= c * w + off2) implies #[trigger] get_bits(s2[c], off2, len2) == get_bits(
        s[c],
        off2,
        len2,
    ) by {
        if c == b {
            lemma_get_set_disjoint(s[b], off, k, v, off2, len2);
        }
    }
    lemma_others_kept(s, s2, w, k, n, i);
    lemma_get_set_same(s[b], off, k, v);
    assert(k < 64 && v >> k == 0 ==> v & mask(k) == v) by (bit_vector);
}

/// Writing an element that straddles two words changes that element alone.
proof fn lemma_write_straddle(
    s: Seq<u64>,
    s2: Seq<u64>,
    w: u64,
    k: u64,
    n: int,
    i: int,
    b: int,
    off: u64,
    v: u64,
)
    requires
        8 <= w <= 64,
        0 < k < w,
        0 <= i < n,
        n * k <= s.len() * w,
        b == (i * k) / (w as int),
        off == (i * k) % (w as int),
        off + k > w,
        0 <= b,
        b + 1 < s.len(),
        v >> k == 0,
        s2 == s.update(b, set_bits(s[b], off, (w - off) as u64, v >> ((k - (w - off)) as u64))).update(
            b + 1,
            set_bits(s[b + 1], 0, (k - (w - off)) as u64, v),
        ),
    ensures
        forall|j: int|
            0 <= j < n ==> elem_at(s2, w, k, j) == if j == i {
                v
            } else {
                elem_at(s, w, k, j)
            },
{
    let p = i * k;
    let margin = (w - off) as u64;
    let extra = (k - margin) as u64;
    lemma_fundamental_div_mod(p, w as int);
    assert(b * w == w * b) by (nonlinear_arith);
    assert((b + 1) * w == w * b + w) by (nonlinear_arith);
    assert forall|c: int, off2: u64, len2: u64|
        0 <= c < s.len() && len2 < 64 && off2 + len2 <= w && (c * w + off2 + len2 <= p || p + k
            <= c * w + off2) implies #[trigger] get_bits(s2[c], off2, len2) == get_bits(
        s[c],
        off2,
        len2,
    ) by {
        if c == b {
            lemma_get_set_disjoint(s[b], off, margin, v >> extra, off2, len2);
        } else if c == b + 1 {
            assert(c * w == w * b + w) by (nonlinear_arith)
                requires
                    c == b + 1,
            ;
            lemma_get_set_disjoint(s[b + 1], 0, extra, v, off2, len2);
        }
    }
    lemma_others_kept(s, s2, w, k, n, i);
    lemma_get_set_same(s[b], off, margin, v >> extra);
    lemma_get_set_same(s[b + 1], 0, extra, v);
    lemma_split_join(v, k, extra);
    assert(get_bits(v, 0, extra) == v & mask(extra)) by (bit_vector);
}

impl<Block: BlockType> IntVec<Block> {
    /// The values of the storage words.
    pub closed spec fn words(&self) -> Seq<u64> {
        self.blocks@.map_values(|b: Block| b.value())
    }

    /// The number of bits per element.
    pub closed spec fn spec_element_bits(&self) -> nat {
        self.element_bits as nat
    }

    /// The number of storage words.
    pub closed spec fn spec_block_count(&self) -> nat {
        self.blocks@.len()
    }

    /// The element width fits the word, the element bits fit in a `u64`,
    /// and the words hold exactly the element bits, rounded up to a word.
    pub closed spec fn wf(&self) -> bool {
        &&& self.element_bits <= Block::width()
        &&& self.n_elements * self.element_bits <= u64::MAX
        &&& self.blocks@.len() == ceil_div(
            self.n_elements * self.element_bits,
            Block::width() as int,
        )
    }

    /// The elements, in index order.
    pub closed spec fn view(&self) -> Seq<u64> {
        Seq::new(
            self.n_elements as nat,
            |i: int| elem_at(self.words(), Block::width(), self.element_bits as u64, i),
        )
    }

    /// Bit `pos` of the flat bit space of the vector's storage.
    pub closed spec fn spec_bit(&self, pos: int) -> bool {
        bit_at(self.words(), Block::width(), pos)
    }

    proof fn lemma_wf(&self)
        requires
            self.wf(),
        ensures
            self.blocks@.len() * Block::width() >= self.n_elements * self.element_bits,
            8 <= Block::width() <= 64,
            self.words().len() == self.blocks@.len(),
    {
        Block::lemma_width();
        lemma_ceil_div(self.n_elements * self.element_bits, Block::width() as int);
    }

    fn block_bytes() -> (r: usize)
        ensures
            8 * r == Block::width(),
    {
        Block::nbytes()
    }

    /// The number of bits per block of storage.
    pub fn block_bits() -> (r: usize)
        ensures
            r == Block::width(),
    {
        proof {
            Block::lemma_width();
        }
        8 * Self::block_bytes()
    }

    /// The number of bits per element.
    pub fn element_bits(&self) -> (r: usize)
        ensures
            r == self.spec_element_bits(),
    {
        self.element_bits
    }

    /// True if elements are packed one per block.
    pub fn is_packed(&self) -> (r: bool)
        ensures
            r == (self.spec_element_bits() == Block::width()),
    {
        self.element_bits() == Self::block_bits()
    }

    /// True if elements are aligned within blocks.
    pub fn is_aligned(&self) -> (r: bool)
        requires
            self.spec_element_bits() > 0,
        ensures
            r == (Block::width() as nat % self.spec_element_bits() == 0),
    {
        Self::block_bits() % self.element_bits() == 0
    }

    // The size is computed once, in 64 bits, with every overflow check,
    // so that indexing never has to repeat them.
    fn compute_block_size(element_bits: usize, n_elements: usize) -> (r: Option<usize>)
        requires
            element_bits <= Block::width(),
        ensures
            r == (if n_elements * element_bits <= u64::MAX && ceil_div(
                n_elements * element_bits,
                Block::width() as int,
            ) <= usize::MAX {
                Some(ceil_div(n_elements * element_bits, Block::width() as int) as usize)
            } else {
                None::<usize>
            }),
    {
        let n_elements = n_elements as u64;
        let element_bits = element_bits as u64;
        let block_bits = Self::block_bits() as u64;
        proof {
            Block::lemma_width();
        }
        match n_elements.checked_mul(element_bits) {
            Some(n_bits) => {
                assert((n_bits as int) / (block_bits as int) < u64::MAX) by (nonlinear_arith)
                    requires
                        block_bits >= 8,
                        n_bits <= u64::MAX,
                ;
                let mut result = n_bits / block_bits;
                if n_bits % block_bits > 0 {
                    result += 1;
                }
                u64_to_usize(result)
            },
            None => None,
        }
    }

    fn element_address(&self, element_index: usize) -> (r: Address)
        requires
            self.wf(),
            element_index < self.n_elements,
        ensures
            r.block_index == (element_index * self.element_bits) / (Block::width() as int),
            r.bit_offset == (element_index * self.element_bits) % (Block::width() as int),
            self.element_bits > 0 ==> r.block_index < self.blocks@.len(),
    {
        proof {
            self.lemma_wf();
            assert(element_index * self.element_bits + self.element_bits <= self.n_elements
                * self.element_bits) by (nonlinear_arith)
                requires
                    element_index < self.n_elements,
            ;
        }
        let ghost p = element_index * self.element_bits;
        let ghost w = Block::width() as int;
        proof {
            lemma_fundamental_div_mod(p, w);
            if self.element_bits == 0 {
                assert(p == 0);
            } else {
                assert(p / w < self.blocks@.len()) by (nonlinear_arith)
                    requires
                        p == w * (p / w) + p % w,
                        0 <= p % w,
                        w > 0,
                        p + self.element_bits <= self.blocks@.len() * w,
                        self.element_bits > 0,
                ;
            }
        }
        if self.is_packed() {
            proof {
                vstd::arithmetic::div_mod::lemma_div_multiples_vanish(element_index as int, w);
                vstd::arithmetic::div_mod::lemma_mod_multiples_basic(element_index as int, w);
                assert(p == w * element_index && p == element_index * w) by (nonlinear_arith)
                    requires
                        self.element_bits == w,
                        p == element_index * self.element_bits,
                ;
            }
            Address { block_index: element_index, bit_offset: 0 }
        } else {
            let element_index = element_index as u64;
            let element_bits = self.element_bits() as u64;
            let block_bits = Self::block_bits() as u64;
            let bit_index = element_index * element_bits;
            assert(bit_index == p);
            assert(self.blocks@.len() == self.blocks.len());
            assert(bit_index / block_bits <= self.blocks.len());
            Address {
                block_index: (bit_index / block_bits) as usize,
                bit_offset: (bit_index % block_bits) as usize,
            }
        }
    }

    fn bit_address(&self, bit_index: usize) -> (r: Address)
        ensures
            r.block_index == bit_index as int / (Block::width() as int),
            r.bit_offset == bit_index as int % (Block::width() as int),
    {
        proof {
            Block::lemma_width();
        }
        Address {
            block_index: bit_index / Self::block_bits(),
            bit_offset: bit_index % Self::block_bits(),
        }
    }

    /// Creates a vector of `n_elements` elements of `element_bits` bits,
    /// all zero.
    ///
    /// The element width must not exceed the word's, the total number of
    /// bits must fit in a `u64`, and the number of words in a `usize`.
    pub fn new(element_bits: usize, n_elements: usize) -> (r: Self)
        requires
            element_bits <= Block::width(),
            n_elements * element_bits <= u64::MAX,
            ceil_div(n_elements * element_bits, Block::width() as int) <= usize::MAX,
        ensures
            r.wf(),
            r@ == Seq::new(n_elements as nat, |i: int| 0u64),
            r.spec_element_bits() == element_bits,
    {
        let block_size = Self::compute_block_size(element_bits, n_elements).unwrap();
        let mut vec: Vec<Block> = Vec::new();
        while vec.len() < block_size
            invariant
                vec.len() <= block_size,
                forall|c: int| 0 <= c < vec.len() ==> (#[trigger] vec@[c]).value() == 0,
            decreases block_size - vec.len(),
        {
            proof {
                Block::lemma_width();
                let wd = Block::width();
                assert(0u64 >> wd == 0) by (bit_vector);
            }
            vec.push(Block::from_u64(0));
        }
        let r = IntVec { blocks: vec, n_elements: n_elements, element_bits: element_bits };
        proof {
            Block::lemma_width();
            assert(forall|x: u64, off: u64, len: u64| x == 0 ==> #[trigger] get_bits(x, off, len) == 0)
                by (bit_vector);
            assert(forall|x: u64, e: u64| x == 0 ==> #[trigger] (x << e) | 0 == 0) by (bit_vector);
            r.lemma_wf();
            assert forall|i: int| 0 <= i < n_elements implies #[trigger] elem_at(
                r.words(),
                Block::width(),
                element_bits as u64,
                i,
            ) == 0 by {
                assert(i * element_bits + element_bits <= n_elements * element_bits)
                    by (nonlinear_arith)
                    requires
                        0 <= i < n_elements,
                ;
                lemma_elem_zero(r.words(), Block::width(), element_bits as u64, i);
            }
            assert(r@ =~= Seq::new(n_elements as nat, |i: int| 0u64));
        }
        r
    }

    /// Returns the number of elements in the vector.
    pub fn len(&self) -> (r: usize)
        ensures
            r == self@.len(),
    {
        self.n_elements
    }

    /// Is the vector empty?
    pub fn is_empty(&self) -> (r: bool)
        ensures
            r == (self@.len() == 0),
    {
        self.len() == 0
    }

    /// Gets the bit at the given position of the storage's flat bit space.
    ///
    /// The position is not checked against the length: it must lie within
    /// the storage words.
    pub fn get_bit(&self, bit_index: usize) -> (r: bool)
        requires
            self.wf(),
            bit_index < self.spec_block_count() * Block::width(),
        ensures
            r == self.spec_bit(bit_index as int),
            self.spec_element_bits() == 1 && bit_index < self@.len() ==> r == (self@[bit_index as int]
                == 1),
    {
        let address = self.bit_address(bit_index);
        proof {
            Block::lemma_width();
            vstd::arithmetic::div_mod::lemma_div_is_ordered(
                bit_index as int,
                (self.blocks@.len() * Block::width()) as int,
                Block::width() as int,
            );
            vstd::arithmetic::div_mod::lemma_div_multiples_vanish(
                self.blocks@.len() as int,
                Block::width() as int,
            );
            assert(self.blocks@.len() * Block::width() == Block::width() * self.blocks@.len())
                by (nonlinear_arith);
            assert(address.block_index < self.blocks@.len()) by (nonlinear_arith)
                requires
                    address.block_index == bit_index as int / (Block::width() as int),
                    bit_index < self.blocks@.len() * Block::width(),
                    Block::width() > 0,
            ;
        }
        let block = self.blocks[address.block_index].to_u64();
        proof {
            assert(bit_index * 1 == bit_index);
        }
        get_bits_exec(block, address.bit_offset as u64, 1) == 1
    }

    /// Sets the bit at the given position of the storage's flat bit space.
    ///
    /// The position is not checked against the length: it must lie within
    /// the storage words. The word that holds the bit has that bit replaced
    /// and keeps all others; every other word is unchanged.
    pub fn set_bit(&mut self, bit_index: usize, bit_value: bool)
        requires
            old(self).wf(),
            bit_index < old(self).spec_block_count() * Block::width(),
        ensures
            final(self).wf(),
            final(self)@.len() == old(self)@.len(),
            final(self).spec_element_bits() == old(self).spec_element_bits(),
            final(self).spec_block_count() == old(self).spec_block_count(),
            final(self).words() == old(self).words().update(
                bit_index as int / (Block::width() as int),
                set_bits(
                    old(self).words()[bit_index as int / (Block::width() as int)],
                    (bit_index as int % (Block::width() as int)) as u64,
                    1,
                    if bit_value {
                        1
                    } else {
                        0
                    },
                ),
            ),
            final(self).spec_bit(bit_index as int) == bit_value,
            forall|q: int|
                0 <= q < old(self).spec_block_count() * Block::width() && q != bit_index ==> (
                #[trigger] final(self).spec_bit(q)) == old(self).spec_bit(q),
            old(self).spec_element_bits() == 1 && bit_index < old(self)@.len() ==> final(self)@
                == old(self)@.update(
                bit_index as int,
                if bit_value {
                    1u64
                } else {
                    0u64
                },
            ),
    {
        let address = self.bit_address(bit_index);
        let ghost w = Block::width() as int;
        proof {
            Block::lemma_width();
            assert(address.block_index < self.blocks@.len()) by (nonlinear_arith)
                requires
                    address.block_index == bit_index as int / w,
                    bit_index < self.blocks@.len() * w,
                    w > 0,
            ;
        }
        let old_block = self.blocks[address.block_index].to_u64();
        let bv: u64 = if bit_value {
            1
        } else {
            0
        };
        let new_block = set_bits_exec(old_block, address.bit_offset as u64, 1, bv);
        proof {
            self.blocks@[address.block_index as int].lemma_block();
            lemma_set_fits(old_block, address.bit_offset as u64, 1, bv, Block::width());
        }
        let ghost s = self.words();
        self.blocks.set(address.block_index, Block::from_u64(new_block));
        proof {
            assert(self.words() =~= s.update(address.block_index as int, new_block));
            lemma_get_set_same(old_block, address.bit_offset as u64, 1, bv);
            assert(bv & mask(1) == bv) by (bit_vector)
                requires
                    bv == 0 || bv == 1,
            ;
            assert forall|q: int|
                0 <= q < s.len() * w && q != bit_index implies (#[trigger] self.spec_bit(q))
                == bit_at(s, Block::width(), q) by {
                lemma_fundamental_div_mod(q, w);
                lemma_fundamental_div_mod(bit_index as int, w);
                if q / w == bit_index as int / w {
                    assert(q % w != bit_index as int % w);
                    lemma_get_set_disjoint(
                        old_block,
                        address.bit_offset as u64,
                        1,
                        bv,
                        (q % w) as u64,
                        1,
                    );
                    assert(self.words()[q / w] == new_block);
                } else {
                    assert(0 <= q / w < s.len()) by (nonlinear_arith)
                        requires
                            q == w * (q / w) + q % w,
                            0 <= q % w < w,
                            0 <= q < s.len() * w,
                    ;
                    assert(self.words()[q / w] == s[q / w]);
                }
            }
            if self.element_bits == 1 && bit_index < self.n_elements {
                let ghost old_view = Seq::new(
                    self.n_elements as nat,
                    |i: int| elem_at(s, Block::width(), 1, i),
                );
                assert(old_view == old(self)@);
                assert(bit_index * 1 == bit_index);
                assert(bv >> 1u64 == 0) by (bit_vector)
                    requires
                        bv == 0 || bv == 1,
                ;
                self.lemma_wf();
                lemma_fundamental_div_mod(bit_index as int, w);
                lemma_write_within(
                    s,
                    self.words(),
                    w as u64,
                    1,
                    self.n_elements as int,
                    bit_index as int,
                    bit_index as int / w,
                    (bit_index as int % w) as u64,
                    bv,
                );
                assert(self@ =~= old_view.update(bit_index as int, bv));
            }
        }
    }

    /// Returns the element at the given index.
    pub fn get(&self, element_index: usize) -> (r: Block)
        requires
            self.wf(),
            element_index < self@.len(),
        ensures
            r.value() == self@[element_index as int],
    {
        let ghost s = self.words();
        let ghost w = Block::width() as int;
        proof {
            self.lemma_wf();
            assert(element_index * self.element_bits + self.element_bits <= self.blocks@.len() * w)
                by (nonlinear_arith)
                requires
                    element_index < self.n_elements,
                    self.n_elements * self.element_bits <= self.blocks@.len() * w,
            ;
        }
        if self.is_packed() {
            proof {
                assert(element_index < self.blocks@.len()) by (nonlinear_arith)
                    requires
                        element_index * w + w <= self.blocks@.len() * w,
                        w > 0,
                ;
                self.blocks@[element_index as int].lemma_block();
            }
            return Block::from_u64(self.blocks[element_index].to_u64());
        }
        let element_bits = self.element_bits();
        if element_bits == 0 {
            proof {
                let p = element_index * 0;
                let x = s[p / w];
                let off = (p % w) as u64;
                assert(get_bits(x, off, 0) == 0) by (bit_vector);
                let wd = Block::width();
                assert(0u64 >> wd == 0) by (bit_vector);
            }
            return Block::from_u64(0);
        }
        if element_bits == 1 {
            let bit = self.get_bit(element_index);
            proof {
                assert(element_index * 1 == element_index);
                let x = s[element_index as int / w];
                let off = (element_index as int % w) as u64;
                lemma_get_fits(x, off, 1);
                let y = get_bits(x, off, 1);
                assert(y >> 1 == 0 ==> y == 0 || y == 1) by (bit_vector);
                let wd = Block::width();
                assert(0u64 >> wd == 0 && 1u64 >> wd == 0) by (bit_vector)
                    requires
                        8 <= wd <= 64,
                ;
            }
            if bit {
                return Block::from_u64(1);
            } else {
                return Block::from_u64(0);
            }
        }
        let block_bits = Self::block_bits();
        let address = self.element_address(element_index);
        let margin = block_bits - address.bit_offset;
        let ghost p = element_index * element_bits;
        proof {
            lemma_fundamental_div_mod(p, w);
        }
        if margin >= element_bits {
            let block = self.blocks[address.block_index].to_u64();
            let v = get_bits_exec(block, address.bit_offset as u64, element_bits as u64);
            proof {
                lemma_get_fits(block, address.bit_offset as u64, element_bits as u64);
                let k = element_bits as u64;
                let wd = w as u64;
                assert(v >> k == 0 && k <= wd ==> v >> wd == 0) by (bit_vector);
            }
            return Block::from_u64(v);
        }
        let extra = element_bits - margin;
        proof {
            assert(address.block_index + 1 < self.blocks@.len()) by (nonlinear_arith)
                requires
                    p == w * address.block_index + address.bit_offset,
                    p + element_bits <= self.blocks@.len() * w,
                    address.bit_offset + element_bits > w,
                    w > 0,
            ;
        }
        assert(self.blocks@.len() == self.blocks.len());
        let block1 = self.blocks[address.block_index].to_u64();
        let block2 = self.blocks[address.block_index + 1].to_u64();
        let high_bits = get_bits_exec(block1, address.bit_offset as u64, margin as u64);
        let low_bits = get_bits_exec(block2, 0, extra as u64);
        let v = (high_bits << (extra as u64)) | low_bits;
        proof {
            let k = element_bits as u64;
            let wd = w as u64;
            lemma_get_fits(block1, address.bit_offset as u64, margin as u64);
            lemma_get_fits(block2, 0, extra as u64);
            lemma_join_fits(high_bits, low_bits, k, extra as u64);
            assert(v >> k == 0 && k <= wd ==> v >> wd == 0) by (bit_vector);
        }
        Block::from_u64(v)
    }

    /// Sets the element at the given index; the value must fit in the
    /// element width.
    pub fn set(&mut self, element_index: usize, element_value: Block)
        requires
            old(self).wf(),
            element_index < old(self)@.len(),
            element_value.value() < pow2(old(self).spec_element_bits()),
        ensures
            final(self).wf(),
            final(self)@ == old(self)@.update(element_index as int, element_value.value()),
            final(self).spec_element_bits() == old(self).spec_element_bits(),
            final(self).spec_block_count() == old(self).spec_block_count(),
    {
        let ghost s = self.words();
        let ghost w = Block::width() as int;
        let ghost n = self.n_elements as int;
        let ghost old_view = self@;
        let v = element_value.to_u64();
        proof {
            self.lemma_wf();
            assert(element_index * self.element_bits + self.element_bits <= self.blocks@.len() * w)
                by (nonlinear_arith)
                requires
                    element_index < self.n_elements,
                    self.n_elements * self.element_bits <= self.blocks@.len() * w,
            ;
        }
        if self.is_packed() {
            proof {
                assert(element_index < self.blocks@.len()) by (nonlinear_arith)
                    requires
                        element_index * w + w <= self.blocks@.len() * w,
                        w > 0,
                ;
            }
            self.blocks.set(element_index, element_value);
            proof {
                assert(self.words() =~= s.update(element_index as int, v));
                assert(self.element_bits as u64 == Block::width());
                assert(n <= s.len()) by (nonlinear_arith)
                    requires
                        n * w <= s.len() * w,
                        w > 0,
                ;
                assert forall|j: int| 0 <= j < n implies #[trigger] self@[j] == old_view.update(
                    element_index as int,
                    v,
                )[j] by {
                    assert(self@[j] == self.words()[j]);
                    assert(old_view[j] == s[j]);
                }
                assert(self@ =~= old_view.update(element_index as int, v));
            }
            return;
        }
        let element_bits = self.element_bits();
        let ghost k = element_bits as u64;
        proof {
            lemma_fits_pow2(v, k);
        }
        if element_bits == 0 {
            proof {
                assert(v >> 0u64 == 0 ==> v == 0) by (bit_vector);
                assert forall|j: int| 0 <= j < n implies #[trigger] elem_at(
                    s,
                    Block::width(),
                    self.element_bits as u64,
                    j,
                ) == 0 by {
                    let x = s[(j * 0) / w];
                    let off = ((j * 0) % w) as u64;
                    assert(get_bits(x, off, 0) == 0) by (bit_vector);
                }
                assert(self@ =~= old_view.update(element_index as int, v));
            }
            return;
        }
        if element_bits == 1 {
            self.set_bit(element_index, v == 1);
            proof {
                assert(element_index * 1 == element_index);
                assert(v >> 1u64 == 0 ==> (v == 0 || v == 1)) by (bit_vector);
                lemma_fundamental_div_mod(element_index as int, w);
                assert(element_index as int / w < s.len()) by (nonlinear_arith)
                    requires
                        element_index as int == w * (element_index as int / w) + element_index as int % w,
                        0 <= element_index as int % w,
                        element_index + 1 <= s.len() * w,
                ;
                lemma_write_within(
                    s,
                    self.words(),
                    w as u64,
                    1,
                    n,
                    element_index as int,
                    element_index as int / w,
                    (element_index as int % w) as u64,
                    v,
                );
                assert(self@ =~= old_view.update(element_index as int, v));
            }
            return;
        }
        let block_bits = Self::block_bits();
        let address = self.element_address(element_index);
        let margin = block_bits - address.bit_offset;
        let ghost p = element_index * element_bits;
        proof {
            lemma_fundamental_div_mod(p, w);
        }
        if margin >= element_bits {
            let old_block = self.blocks[address.block_index].to_u64();
            let new_block = set_bits_exec(
                old_block,
                address.bit_offset as u64,
                element_bits as u64,
                v,
            );
            proof {
                self.blocks@[address.block_index as int].lemma_block();
                lemma_set_fits(old_block, address.bit_offset as u64, k, v, w as u64);
            }
            self.blocks.set(address.block_index, Block::from_u64(new_block));
            proof {
                assert(self.words() =~= s.update(address.block_index as int, new_block));
                lemma_write_within(
                    s,
                    self.words(),
                    w as u64,
                    k,
                    n,
                    element_index as int,
                    address.block_index as int,
                    address.bit_offset as u64,
                    v,
                );
                assert(self@ =~= old_view.update(element_index as int, v));
            }
            return;
        }
        let extra = element_bits - margin;
        proof {
            assert(address.block_index + 1 < self.blocks@.len()) by (nonlinear_arith)
                requires
                    p == w * address.block_index + address.bit_offset,
                    p + element_bits <= self.blocks@.len() * w,
                    address.bit_offset + element_bits > w,
                    w > 0,
            ;
        }
        assert(self.blocks@.len() == self.blocks.len());
        let old_block1 = self.blocks[address.block_index].to_u64();
        let old_block2 = self.blocks[address.block_index + 1].to_u64();
        let high_bits = v >> (extra as u64);
        let new_block1 = set_bits_exec(old_block1, address.bit_offset as u64, margin as u64, high_bits);
        let new_block2 = set_bits_exec(old_block2, 0, extra as u64, v);
        proof {
            self.blocks@[address.block_index as int].lemma_block();
            self.blocks@[address.block_index + 1].lemma_block();
            lemma_set_fits(old_block1, address.bit_offset as u64, margin as u64, high_bits, w as u64);
            lemma_set_fits(old_block2, 0, extra as u64, v, w as u64);
        }
        self.blocks.set(address.block_index, Block::from_u64(new_block1));
        self.blocks.set(address.block_index + 1, Block::from_u64(new_block2));
        proof {
            assert(self.words() =~= s.update(address.block_index as int, new_block1).update(
                address.block_index + 1,
                new_block2,
            ));
            lemma_write_straddle(
                s,
                self.words(),
                w as u64,
                k,
                n,
                element_index as int,
                address.block_index as int,
                address.bit_offset as u64,
                v,
            );
            assert(self@ =~= old_view.update(element_index as int, v));
        }
    }

    /// Gets an iterator over the elements of the vector.
    pub fn iter(&self) -> (r: Iter<'_, Block>)
        requires
            self.wf(),
        ensures
            r.wf(),
            r@ == self@,
    {
        Iter { vec: self, start: 0, limit: self.len() }
    }
}

impl<'a, Block: BlockType> Iter<'a, Block> {
    /// The elements not yet handed out, in index order.
    pub closed spec fn view(&self) -> Seq<u64> {
        self.vec@.subrange(self.start as int, self.limit as int)
    }

    /// The underlying vector is well formed and the window lies within it.
    pub closed spec fn wf(&self) -> bool {
        &&& self.vec.wf()
        &&& self.start <= self.limit <= self.vec@.len()
    }

    /// Hands out the first element left, if any.
    pub fn next(&mut self) -> (r: Option<Block>)
        requires
            old(self).wf(),
        ensures
            final(self).wf(),
            old(self)@.len() == 0 ==> r is None && final(self)@ == old(self)@,
            old(self)@.len() > 0 ==> r is Some && r->0.value() == old(self)@[0] && final(self)@
                == old(self)@.drop_first(),
    {
        if self.start < self.limit {
            let result = self.vec.get(self.start);
            self.start += 1;
            proof {
                assert(self@ =~= old(self)@.drop_first());
            }
            Some(result)
        } else {
            None
        }
    }

    /// Hands out the last element left, if any.
    pub fn next_back(&mut self) -> (r: Option<Block>)
        requires
            old(self).wf(),
        ensures
            final(self).wf(),
            old(self)@.len() == 0 ==> r is None && final(self)@ == old(self)@,
            old(self)@.len() > 0 ==> r is Some && r->0.value() == old(self)@.last() && final(self)@ == old(self)@.drop_last(),
    {
        if self.start < self.limit {
            self.limit -= 1;
            proof {
                assert(self@ =~= old(self)@.drop_last());
            }
            Some(self.vec.get(self.limit))
        } else {
            None
        }
    }

    /// The number of elements left.
    pub fn len(&self) -> (r: usize)
        requires
            self.wf(),
        ensures
            r == self@.len(),
    {
        self.limit - self.start
    }

    /// The number of elements left, as lower and upper bound.
    pub fn size_hint(&self) -> (r: (usize, Option<usize>))
        requires
            self.wf(),
        ensures
            r.0 == self@.len(),
            r.1 == Some(self@.len() as usize),
    {
        let len = self.len();
        (len, Some(len))
    }

    /// The number of elements left, consuming the iterator.
    pub fn count(self) -> (r: usize)
        requires
            self.wf(),
        ensures
            r == self@.len(),
    {
        self.len()
    }

    /// The last element left, if any, consuming the iterator.
    pub fn last(self) -> (r: Option<Block>)
        requires
            self.wf(),
        ensures
            self@.len() == 0 ==> r is None,
            self@.len() > 0 ==> r is Some && r->0.value() == self@.last(),
    {
        let mut it = self;
        it.next_back()
    }

    /// Skips `n` elements and hands out the next one, if any; skipping past
    /// the end leaves nothing.
    pub fn nth(&mut self, n: usize) -> (r: Option<Block>)
        requires
            old(self).wf(),
        ensures
            final(self).wf(),
            n < old(self)@.len() ==> r is Some && r->0.value() == old(self)@[n as int] && final(self)@ == old(self)@.subrange(n + 1, old(self)@.len() as int),
            n >= old(self)@.len() ==> r is None && final(self)@.len() == 0,
    {
        if n >= self.limit - self.start {
            self.start = self.limit;
        } else {
            self.start = self.start + n;
        }
        proof {
            if n < old(self)@.len() {
                assert(self@ =~= old(self)@.subrange(n as int, old(self)@.len() as int));
            }
        }
        let r = self.next();
        proof {
            if n < old(self)@.len() {
                assert(self@ =~= old(self)@.subrange(n + 1, old(self)@.len() as int));
            }
        }
        r
    }
}

} // verus!
