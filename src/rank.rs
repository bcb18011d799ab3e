//! An index over a sequence of words that answers rank queries in constant
//! time.
//!
//! Within a word of the indexed store, bits are numbered from the most
//! significant one: position `p` is bit `w - 1 - p % w` (by weight) of word
//! `p / w`.

use crate::bits::{get_bits, mask, mask_exec};
use crate::block_type::BlockType;
use crate::int_vec::{ceil_div, lemma_ceil_div, IntVec};
use num::PrimInt;
use vstd::arithmetic::div_mod::{
    lemma_div_denominator, lemma_fundamental_div_mod, lemma_fundamental_div_mod_converse,
};
use vstd::arithmetic::power2::{lemma2_to64, lemma_pow2_adds, pow2};
use vstd::prelude::*;

verus! {

/// The number of set bits of `x`.
pub open spec fn popcount(x: u64) -> nat
    decreases x,
{
    if x == 0 {
        0
    } else {
        (x % 2) as nat + popcount(x / 2)
    }
}

/// The number of binary digits of `x`, without leading zeros.
pub open spec fn bit_length(x: u64) -> nat
    decreases x,
{
    if x == 0 {
        0
    } else {
        1 + bit_length(x / 2)
    }
}

/// `log2(n)`, rounded up; 0 for `n <= 1`.
pub open spec fn clog2(n: u64) -> nat {
    if n <= 1 {
        0
    } else {
        bit_length((n - 1) as u64)
    }
}

/// Relies on num's `PrimInt::count_ones` for `u64`: the number of ones in
/// the binary representation.
#[verifier::external_body]
fn count_ones(x: u64) -> (r: u32)
    ensures
        r == popcount(x),
{
    PrimInt::count_ones(x)
}

/// Relies on num's `PrimInt::leading_zeros` for `u64`: the number of zeros
/// above the highest set bit, 64 for zero.
#[verifier::external_body]
fn leading_zeros(x: u64) -> (r: u32)
    ensures
        r == 64 - bit_length(x),
{
    PrimInt::leading_zeros(x)
}

proof fn lemma_bit_length(x: u64)
    ensures
        x < pow2(bit_length(x)),
    decreases x,
{
    lemma2_to64();
    if x > 0 {
        lemma_bit_length(x / 2);
        lemma_pow2_adds(bit_length(x / 2), 1);
    }
}

/// `n` is at most `2^clog2(n)`, and `clog2` of 2 or more is positive.
pub proof fn lemma_clog2(n: u64)
    ensures
        n <= pow2(clog2(n)),
        n >= 2 ==> clog2(n) >= 1,
{
    lemma2_to64();
    if n >= 2 {
        lemma_bit_length((n - 1) as u64);
    }
}

fn ceil_log2(n: u64) -> (r: usize)
    ensures
        r == clog2(n),
        r <= 64,
{
    if n <= 1 {
        return 0;
    }
    64 - leading_zeros(n - 1) as usize
}


/// Bit `q` of the store `s` of `w`-bit words, counting from the most
/// significant bit of each word.
pub open spec fn store_bit(s: Seq<u64>, w: u64, q: int) -> bool {
    get_bits(s[q / (w as int)], (w - 1 - q % (w as int)) as u64, 1) == 1
}

/// The number of set bits among the first `p` bits of the store.
pub open spec fn ones_before(s: Seq<u64>, w: u64, p: int) -> nat
    decreases p,
{
    if p <= 0 {
        0
    } else {
        ones_before(s, w, p - 1) + if store_bit(s, w, p - 1) {
            1nat
        } else {
            0nat
        }
    }
}

/// The number of set bits in the first `i` words of the store.
pub open spec fn words_ones(s: Seq<u64>, i: int) -> nat
    decreases i,
{
    if i <= 0 {
        0
    } else {
        words_ones(s, i - 1) + popcount(s[i - 1])
    }
}

proof fn lemma_shr_step(x: u64, sh: u64)
    requires
        sh < 64,
    ensures
        (x >> sh) / 2 == x >> ((sh + 1) as u64),
        (x >> sh) % 2 == get_bits(x, sh, 1),
        get_bits(x, sh, 1) <= 1,
        x >> 0u64 == x,
{
    assert(sh < 64 ==> (x >> sh) / 2 == x >> ((sh + 1) as u64) && (x >> sh) % 2 == (x >> sh) & ((
    (1u64 << 1u64) - 1) as u64) && (x >> sh) & (((1u64 << 1u64) - 1) as u64) <= 1 && x >> 0u64 == x)
        by (bit_vector);
}

/// The first `c * w + m` bits of the store hold the set bits of the first
/// `c` words and those of the top `m` bits of word `c`.
proof fn lemma_prefix(s: Seq<u64>, w: u64, c: int, m: int)
    requires
        8 <= w <= 64,
        0 <= c < s.len(),
        0 <= m <= w,
        forall|d: int| 0 <= d < s.len() ==> #[trigger] s[d] >> w == 0,
    ensures
        ones_before(s, w, c * w + m) == words_ones(s, c) + if m == 0 {
            0nat
        } else {
            popcount(s[c] >> ((w - m) as u64))
        },
    decreases c, m,
{
    if m == 0 {
        if c > 0 {
            lemma_prefix(s, w, c - 1, w as int);
            assert((c - 1) * w + w == c * w) by (nonlinear_arith);
            lemma_shr_step(s[c - 1], 0);
            assert(((w - w) as u64) == 0u64);
            assert(words_ones(s, c) == words_ones(s, c - 1) + popcount(s[c - 1]));
        } else {
            assert(c * w == 0) by (nonlinear_arith)
                requires
                    c == 0,
            ;
        }
    } else {
        lemma_prefix(s, w, c, m - 1);
        let x = s[c];
        let q = c * w + m - 1;
        lemma_fundamental_div_mod_converse(q, w as int, c, m - 1);
        lemma_shr_step(x, (w - m) as u64);
        let y = x >> ((w - m) as u64);
        assert(popcount(y) == y % 2 + popcount(y / 2));
        assert(q / (w as int) == c && q % (w as int) == m - 1);
        assert(store_bit(s, w, q) == (get_bits(x, (w - m) as u64, 1) == 1));
        assert(ones_before(s, w, q + 1) == ones_before(s, w, q) + if store_bit(s, w, q) {
            1nat
        } else {
            0nat
        });
        if m == 1 {
            assert(x >> w == 0);
            assert(((w - m) as u64 + 1) as u64 == w);
            assert(y / 2 == 0);
            assert(popcount(0) == 0);
        } else {
            assert(((w - m) as u64 + 1) as u64 == (w - (m - 1)) as u64);
        }
        assert((if store_bit(s, w, q) {
            1nat
        } else {
            0nat
        }) == y % 2);
        assert(ones_before(s, w, q) == words_ones(s, c) + popcount(y / 2));
        assert(q + 1 == c * w + m);
    }
}

/// Counting over more bits never counts fewer, and at most one more for
/// each further bit.
pub proof fn lemma_ones_between(s: Seq<u64>, w: u64, lo: int, hi: int)
    requires
        lo <= hi,
    ensures
        ones_before(s, w, lo) <= ones_before(s, w, hi) <= ones_before(s, w, lo) + (hi - lo),
    decreases hi - lo,
{
    if lo < hi {
        lemma_ones_between(s, w, lo, hi - 1);
    }
}


/// Rank never decreases: over any store, counting the set bits up to a
/// later position gives at least as many as up to an earlier one.
pub proof fn lemma_rank_monotone(s: Seq<u64>, w: u64, lo: int, hi: int)
    requires
        0 <= lo < hi,
    ensures
        ones_before(s, w, lo + 1) <= ones_before(s, w, hi + 1),
{
    lemma_ones_between(s, w, lo + 1, hi + 1);
}

/// The set bits of the first `i` words are those of their first `i * w` bits.
proof fn lemma_words_ones(s: Seq<u64>, w: u64, i: int)
    requires
        8 <= w <= 64,
        0 <= i <= s.len(),
        forall|d: int| 0 <= d < s.len() ==> #[trigger] s[d] >> w == 0,
    ensures
        words_ones(s, i) == ones_before(s, w, i * w),
        words_ones(s, i) <= i * w,
{
    if i < s.len() {
        lemma_prefix(s, w, i, 0);
    } else if i > 0 {
        lemma_prefix(s, w, i - 1, w as int);
        assert((i - 1) * w + w == i * w) by (nonlinear_arith);
        lemma_shr_step(s[i - 1], 0);
        assert(((w - w) as u64) == 0u64);
    } else {
        assert(i * w == 0) by (nonlinear_arith)
            requires
                i == 0,
        ;
    }
    lemma_ones_between(s, w, 0, i * w);
}

/// `ceil(log2(n))` for the `n` bits of the store: the width of a large-block slot.
pub open spec fn layout_lg(nw: nat, w: u64) -> nat {
    clog2((nw * w) as u64)
}

/// The number of words per large block: `ceil(lg^2 / w)`.
pub open spec fn layout_spl(nw: nat, w: u64) -> nat {
    ((layout_lg(nw, w) * layout_lg(nw, w) + w - 1) / (w as int)) as nat
}

/// The number of large blocks, the last one possibly partial.
pub open spec fn layout_large_count(nw: nat, w: u64) -> nat {
    if layout_spl(nw, w) == 0 {
        0
    } else {
        ceil_div(nw as int, layout_spl(nw, w) as int) as nat
    }
}

/// The width of a small-block slot: `ceil(log2(large block size))`.
pub open spec fn layout_small_width(nw: nat, w: u64) -> nat {
    clog2((w * layout_spl(nw, w)) as u64)
}

/// A store of `nw` words is small enough to index: every table size, in
/// bits and in words, is representable (fewer than `2^58` words).
pub open spec fn store_fits(nw: nat) -> bool {
    &&& (nw + 1) * 64 <= u64::MAX
    &&& nw + 1 <= usize::MAX
}

/// `x`, or the largest value of `bits` bits where `x` does not fit.
fn saturate(x: u64, bits: usize) -> (r: u64)
    requires
        bits <= 64,
    ensures
        r < pow2(bits as nat),
        x < pow2(bits as nat) ==> r == x,
{
    proof {
        lemma2_to64();
    }
    if bits >= 64 {
        return x;
    }
    let cap = mask_exec(bits as u64);
    let b = bits as u64;
    assert(cap >> b == 0 && cap < u64::MAX && cap + 1 == 1u64 << b) by (bit_vector)
        requires
            b < 64,
            cap == mask(b),
    ;
    proof {
        crate::bits::lemma_fits_pow2(cap, b);
        vstd::arithmetic::power2::lemma_pow2_strictly_increases(b as nat, 64);
        vstd::bits::lemma_u64_shl_is_mul(1, b);
    }
    if x > cap {
        cap
    } else {
        x
    }
}

/// A rank index over a borrowed store of words.
///
/// It answers `rank(p)`, the number of set bits among positions `0 ..= p`,
/// with two table lookups and one word's population count. Large blocks of
/// `w * ceil(lg^2 / w)` bits, where `lg = ceil(log2(n))` for the store's `n`
/// bits, record the number of set bits before them; each word records the
/// number of set bits before it since the start of its large block. Each
/// table ends with a sentinel that holds the final total, saturated at the
/// slot width. The store must not change while the index lives.
pub struct RankSupport<'a, Block: BlockType> {
    bit_store: &'a [Block],
    large_block_size: usize,
    large_block_ranks: IntVec<u64>,
    small_block_ranks: IntVec<u64>,
}

impl<'a, Block: BlockType> RankSupport<'a, Block> {
    /// The values of the store's words.
    pub closed spec fn store(&self) -> Seq<u64> {
        self.bit_store@.map_values(|b: Block| b.value())
    }

    /// The number of bits in the store.
    pub closed spec fn spec_bit_len(&self) -> nat {
        self.bit_store@.len() * (Block::width() as nat)
    }

    /// The number of bits per large block.
    pub closed spec fn spec_large_block_size(&self) -> nat {
        self.large_block_size as nat
    }

    /// The tables are laid out by the formulas of `layout_*` and record the
    /// set bits before each large block and, within its large block, before
    /// each word.
    pub closed spec fn wf(&self) -> bool {
        let w = Block::width();
        let nw = self.bit_store@.len();
        let spl = layout_spl(nw, w);
        let s = self.store();
        &&& 8 <= w <= 64
        &&& store_fits(nw)
        &&& self.large_block_size == w * spl
        &&& self.large_block_ranks.wf()
        &&& self.small_block_ranks.wf()
        &&& self.large_block_ranks.spec_element_bits() == layout_lg(nw, w)
        &&& self.small_block_ranks.spec_element_bits() == layout_small_width(nw, w)
        &&& self.large_block_ranks@.len() == layout_large_count(nw, w) + 1
        &&& self.small_block_ranks@.len() == nw + 1
        &&& nw > 0 ==> spl > 0
        &&& forall|b: int|
            0 <= b < layout_large_count(nw, w) ==> #[trigger] self.large_block_ranks@[b]
                == words_ones(s, b * spl)
        &&& forall|c: int|
            0 <= c < nw ==> #[trigger] self.small_block_ranks@[c] == words_ones(s, c)
                - words_ones(s, (c / (spl as int)) * spl)
    }

    /// Builds the rank index over the given store, in one pass.
    ///
    /// The store must be small enough for the index's sizes to be
    /// representable (`store_fits`).
    pub fn new(bits: &'a [Block]) -> (r: Self)
        requires
            store_fits(bits@.len()),
        ensures
            r.wf(),
            r.store() == bits@.map_values(|b: Block| b.value()),
            r.spec_bit_len() == bits@.len() * Block::width(),
            r.spec_large_block_size() == Block::width() * layout_spl(bits@.len(), Block::width()),
    {
        let ghost s = bits@.map_values(|b: Block| b.value());
        let ghost wd = Block::width();
        let nw = bits.len();
        let w = IntVec::<Block>::block_bits();
        proof {
            Block::lemma_width();
            assert forall|d: int| 0 <= d < s.len() implies #[trigger] s[d] >> wd == 0 by {
                bits@[d].lemma_block();
            }
        }
        assert(nw * w <= (nw + 1) * 64) by (nonlinear_arith)
            requires
                w <= 64,
        ;
        let n: u64 = (nw as u64) * (w as u64);
        let lg_n = ceil_log2(n);
        assert(lg_n * lg_n <= 4096) by (nonlinear_arith)
            requires
                lg_n <= 64,
        ;
        let lg2_n = lg_n * lg_n;
        let small_block_size: usize = w;
        let small_per_large = (lg2_n + small_block_size - 1) / small_block_size;
        assert(small_per_large <= 4159 && (lg_n >= 1 ==> small_per_large >= 1)) by (nonlinear_arith)
            requires
                small_per_large == (lg2_n + small_block_size - 1) / small_block_size as int,
                small_block_size >= 8,
                lg2_n <= 4096,
                lg2_n == lg_n * lg_n,
        ;
        assert(small_block_size * small_per_large <= 64 * 4159) by (nonlinear_arith)
            requires
                small_block_size <= 64,
                small_per_large <= 4159,
        ;
        let large_block_size = small_block_size * small_per_large;
        let large_block_count: usize = if small_per_large == 0 {
            0
        } else if nw % small_per_large > 0 {
            nw / small_per_large + 1
        } else {
            nw / small_per_large
        };
        proof {
            assert(layout_lg(nw as nat, wd) == lg_n);
            assert(layout_spl(nw as nat, wd) == small_per_large);
            if small_per_large > 0 {
                lemma_fundamental_div_mod(nw as int, small_per_large as int);
                assert(large_block_count <= nw) by (nonlinear_arith)
                    requires
                        small_per_large >= 1,
                        large_block_count <= nw / small_per_large + 1,
                        nw % small_per_large == 0 ==> large_block_count == nw / small_per_large,
                        nw == small_per_large * (nw / small_per_large) + nw % small_per_large,
                ;
            }
        }
        let large_meta_size = lg_n;
        let small_meta_size = ceil_log2(large_block_size as u64);
        proof {
            lemma_clog2(n);
            lemma_clog2(large_block_size as u64);
            if nw > 0 {
                assert(n >= 8) by (nonlinear_arith)
                    requires
                        n == nw * w,
                        nw > 0,
                        w >= 8,
                ;
                assert(small_per_large > 0);
            }
        }
        proof {
            let lc = large_block_count as int;
            assert(lc <= nw);
            assert((lc + 1) * lg_n <= (nw + 1) * 64 && (nw + 1) * small_meta_size <= (nw + 1) * 64)
                by (nonlinear_arith)
                requires
                    0 <= lc <= nw,
                    lg_n <= 64,
                    small_meta_size <= 64,
            ;
            lemma_ceil_div((lc + 1) * lg_n, 64);
            lemma_ceil_div((nw + 1) * small_meta_size, 64);
            assert(ceil_div((lc + 1) * lg_n, 64) <= lc + 1) by (nonlinear_arith)
                requires
                    ceil_div((lc + 1) * lg_n, 64) * 64 < (lc + 1) * lg_n + 64,
                    lg_n <= 64,
                    lc >= 0,
            ;
            assert(ceil_div((nw + 1) * small_meta_size, 64) <= nw + 1) by (nonlinear_arith)
                requires
                    ceil_div((nw + 1) * small_meta_size, 64) * 64 < (nw + 1) * small_meta_size + 64,
                    small_meta_size <= 64,
                    nw >= 0,
            ;
        }
        let mut large_block_ranks: IntVec<u64> = IntVec::new(large_meta_size, large_block_count + 1);
        let mut small_block_ranks: IntVec<u64> = IntVec::new(small_meta_size, nw + 1);
        let mut current_rank: u64 = 0;
        let mut last_large_rank: u64 = 0;
        let mut small_block_index: usize = 0;
        let mut large_index: usize = 0;
        let mut i: usize = 0;
        while i < nw
            invariant
                nw == bits@.len(),
                s == bits@.map_values(|b: Block| b.value()),
                wd == Block::width(),
                w == wd,
                8 <= wd <= 64,
                n == nw * w,
                forall|d: int| 0 <= d < s.len() ==> #[trigger] s[d] >> wd == 0,
                nw > 0 ==> small_per_large > 0,
                n <= pow2(lg_n as nat),
                large_block_size == w * small_per_large,
                large_block_size <= pow2(small_meta_size as nat),
                large_block_count == layout_large_count(nw as nat, wd),
                small_per_large == layout_spl(nw as nat, wd),
                i <= nw,
                small_per_large > 0 ==> small_block_index == i % small_per_large,
                small_per_large > 0 ==> large_index == ceil_div(i as int, small_per_large as int),
                small_per_large == 0 ==> large_index == 0 && nw == 0,
                current_rank == words_ones(s, i as int),
                small_per_large > 0 && i % small_per_large != 0 ==> last_large_rank == words_ones(
                    s,
                    (i / small_per_large) * small_per_large,
                ),
                large_block_ranks.wf(),
                small_block_ranks.wf(),
                large_block_ranks.spec_element_bits() == lg_n,
                small_block_ranks.spec_element_bits() == small_meta_size,
                large_block_ranks@.len() == large_block_count + 1,
                small_block_ranks@.len() == nw + 1,
                forall|b: int|
                    0 <= b < large_index ==> #[trigger] large_block_ranks@[b] == words_ones(
                        s,
                        b * small_per_large,
                    ),
                forall|c: int|
                    0 <= c < i ==> #[trigger] small_block_ranks@[c] == words_ones(s, c)
                        - words_ones(s, (c / (small_per_large as int)) * small_per_large),
            decreases nw - i,
        {
            let ghost spl = small_per_large as int;
            proof {
                lemma_fundamental_div_mod(i as int, spl);
                lemma_words_ones(s, wd, i as int);
                assert(i * wd < n) by (nonlinear_arith)
                    requires
                        i < nw,
                        n == nw * wd,
                        wd > 0,
                ;
            }
            if small_block_index == 0 {
                proof {
                    assert(large_index == i / small_per_large) by {
                        vstd::arithmetic::div_mod::lemma_div_multiples_vanish(
                            (i / small_per_large) as int,
                            spl,
                        );
                    }
                    lemma_ceil_div(nw as int, spl);
                    assert(large_index < large_block_count) by (nonlinear_arith)
                        requires
                            large_index * spl == i,
                            i < nw,
                            large_block_count * spl >= nw,
                            spl > 0,
                    ;
                }
                large_block_ranks.set(large_index, current_rank);
                last_large_rank = current_rank;
                large_index += 1;
            }
            let ghost start = (i / small_per_large) * small_per_large;
            proof {
                lemma_words_ones(s, wd, start);
                assert(start * wd <= i * wd) by (nonlinear_arith)
                    requires
                        start == (i as int / spl) * spl,
                        i as int == spl * (i as int / spl) + i as int % spl,
                        0 <= i as int % spl,
                        wd > 0,
                ;
                lemma_ones_between(s, wd, start * wd, i * wd);
                assert(i * wd - start * wd == (i - start) * wd) by (nonlinear_arith);
                assert((i - start) * wd < large_block_size) by (nonlinear_arith)
                    requires
                        i - start < spl,
                        large_block_size == wd * spl,
                        wd > 0,
                ;
            }
            let excess_rank = current_rank - last_large_rank;
            small_block_ranks.set(i, excess_rank);
            let ghost x = s[i as int];
            proof {
                lemma_words_ones(s, wd, i + 1);
                assert((i + 1) * wd <= n) by (nonlinear_arith)
                    requires
                        i < nw,
                        n == nw * wd,
                ;
            }
            current_rank += count_ones(bits[i].to_u64()) as u64;
            small_block_index += 1;
            if small_block_index == small_per_large {
                small_block_index = 0;
            }
            i += 1;
            proof {
                lemma_fundamental_div_mod(i as int, spl);
                lemma_fundamental_div_mod((i - 1) as int, spl);
                if small_block_index != 0 {
                    lemma_fundamental_div_mod_converse(i as int, spl, (i - 1) / spl, (i - 1) % spl + 1);
                    lemma_fundamental_div_mod_converse(
                        (i - 1) as int,
                        spl,
                        (i - 1) / spl,
                        (i - 1) % spl,
                    );
                    lemma_ceil_div(i as int, spl);
                } else {
                    assert(((i - 1) / spl + 1) * spl == i) by (nonlinear_arith)
                        requires
                            (i - 1) == spl * ((i - 1) / spl) + (i - 1) % spl,
                            (i - 1) % spl + 1 == spl,
                    ;
                    lemma_fundamental_div_mod_converse(i as int, spl, (i - 1) / spl + 1, 0);
                }
            }
        }
        let ghost spl = small_per_large as int;
        proof {
            lemma_words_ones(s, wd, nw as int);
            if nw > 0 {
                lemma_ceil_div(nw as int, spl);
            }
        }
        large_block_ranks.set(large_index, saturate(current_rank, large_meta_size));
        let excess_rank = if current_rank >= last_large_rank {
            current_rank - last_large_rank
        } else {
            0
        };
        small_block_ranks.set(nw, saturate(excess_rank, small_meta_size));
        let r = RankSupport {
            bit_store: bits,
            large_block_size: large_block_size,
            large_block_ranks: large_block_ranks,
            small_block_ranks: small_block_ranks,
        };
        proof {
            assert(r.store() == s);
            assert(r.large_block_size == wd * layout_spl(nw as nat, wd));
            assert(r.large_block_ranks@.len() == layout_large_count(nw as nat, wd) + 1);
            assert(r.small_block_ranks.spec_element_bits() == layout_small_width(nw as nat, wd));
        }
        r
    }

    /// The number of set bits among positions `0 ..= position` of the store.
    ///
    /// The position is not checked: it must lie within the store.
    pub fn rank(&self, position: u64) -> (r: u64)
        requires
            self.wf(),
            position < self.spec_bit_len(),
        ensures
            r == ones_before(self.store(), Block::width(), position + 1),
    {
        let ghost s = self.store();
        let ghost wd = Block::width();
        let ghost nw = self.bit_store@.len();
        let ghost spl = layout_spl(nw, wd) as int;
        let small_block_size = IntVec::<Block>::block_bits() as u64;
        proof {
            assert forall|d: int| 0 <= d < s.len() implies #[trigger] s[d] >> wd == 0 by {
                self.bit_store@[d].lemma_block();
            }
            assert(nw > 0) by (nonlinear_arith)
                requires
                    position < nw * wd,
                    position >= 0,
            ;
        }
        proof {
            assert(self.large_block_size > 0) by (nonlinear_arith)
                requires
                    self.large_block_size == wd * spl,
                    wd > 0,
                    spl > 0,
            ;
        }
        let large_block = position / (self.large_block_size as u64);
        let small_block = position / small_block_size;
        let bit_offset = position % small_block_size;
        let ghost sb = small_block as int;
        let ghost lb = large_block as int;
        let ghost off = bit_offset as int;
        let ghost pos = position as int;
        proof {
            lemma_div_denominator(pos, wd as int, spl);
            lemma_fundamental_div_mod(pos, wd as int);
            lemma_fundamental_div_mod(sb, spl);
            assert(sb < nw) by (nonlinear_arith)
                requires
                    pos == wd * sb + off,
                    0 <= off,
                    pos < nw * wd,
                    wd > 0,
            ;
            lemma_ceil_div(nw as int, spl);
            assert(lb < layout_large_count(nw, wd)) by (nonlinear_arith)
                requires
                    lb == sb / spl,
                    sb == spl * (sb / spl) + sb % spl,
                    0 <= sb % spl,
                    sb < nw,
                    layout_large_count(nw, wd) * spl >= nw,
                    spl > 0,
            ;
            assert(self.bit_store@.len() == self.bit_store.len());
        }
        let large_rank = self.large_block_ranks.get(large_block as usize);
        let small_rank = self.small_block_ranks.get(small_block as usize);
        let word = self.bit_store[small_block as usize].to_u64();
        proof {
            lemma_prefix(s, wd, sb, off + 1);
            lemma_words_ones(s, wd, sb);
            assert(0 <= lb * spl <= sb) by (nonlinear_arith)
                requires
                    lb == sb / spl,
                    sb == spl * (sb / spl) + sb % spl,
                    0 <= sb % spl,
                    0 <= lb,
                    spl > 0,
            ;
            lemma_words_ones(s, wd, lb * spl);
            assert((lb * spl) * wd <= sb * wd) by (nonlinear_arith)
                requires
                    lb == sb / spl,
                    sb == spl * (sb / spl) + sb % spl,
                    0 <= sb % spl,
                    wd > 0,
            ;
            lemma_ones_between(s, wd, (lb * spl) * wd, sb * wd);
            lemma_ones_between(s, wd, 0, pos + 1);
            assert(sb * wd == wd * sb) by (nonlinear_arith);
            assert(sb * wd + off + 1 == pos + 1);
            assert(nw * wd <= (nw + 1) * 64) by (nonlinear_arith)
                requires
                    wd <= 64,
            ;
        }
        let bits_rank = count_ones(word >> (small_block_size - bit_offset - 1)) as u64;
        large_rank + small_rank + bits_rank
    }
}

} // verus!
