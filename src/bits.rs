//! Bit-range operations on a single word, widened to `u64`.
//!
//! Bit `i` of a word is the bit of weight `2^i`.

use vstd::prelude::*;

verus! {

/// The word whose low `len` bits are set.
pub open spec fn mask(len: u64) -> u64 {
    ((1u64 << len) - 1) as u64
}

/// The `len` bits of `x` that start at bit `off`, moved down to bit 0.
pub open spec fn get_bits(x: u64, off: u64, len: u64) -> u64 {
    (x >> off) & mask(len)
}

/// `x` with its `len` bits from bit `off` on replaced by the low `len` bits of `v`.
pub open spec fn set_bits(x: u64, off: u64, len: u64, v: u64) -> u64 {
    (x & !(mask(len) << off)) | ((v & mask(len)) << off)
}

pub fn mask_exec(len: u64) -> (r: u64)
    requires
        len < 64,
    ensures
        r == mask(len),
{
    assert(len < 64 ==> 1u64 << len >= 1) by (bit_vector);
    (1u64 << len) - 1
}

pub fn get_bits_exec(x: u64, off: u64, len: u64) -> (r: u64)
    requires
        off < 64,
        len < 64,
    ensures
        r == get_bits(x, off, len),
{
    (x >> off) & mask_exec(len)
}

pub fn set_bits_exec(x: u64, off: u64, len: u64, v: u64) -> (r: u64)
    requires
        off < 64,
        len < 64,
    ensures
        r == set_bits(x, off, len, v),
{
    let m = mask_exec(len);
    (x & !(m << off)) | ((v & m) << off)
}

pub proof fn lemma_get_set_same(x: u64, off: u64, len: u64, v: u64)
    requires
        len < 64,
        off + len <= 64,
    ensures
        get_bits(set_bits(x, off, len, v), off, len) == v & mask(len),
{
    assert(len < 64 && off + len <= 64 ==> ((((x & !((((1u64 << len) - 1) as u64) << off)) | ((v
        & (((1u64 << len) - 1) as u64)) << off)) >> off) & (((1u64 << len) - 1) as u64)) == v & (((
    1u64 << len) - 1) as u64)) by (bit_vector);
}

pub proof fn lemma_get_set_disjoint(x: u64, off: u64, len: u64, v: u64, off2: u64, len2: u64)
    requires
        len < 64,
        len2 < 64,
        off + len <= 64,
        off2 + len2 <= 64,
        off + len <= off2 || off2 + len2 <= off,
    ensures
        get_bits(set_bits(x, off, len, v), off2, len2) == get_bits(x, off2, len2),
{
    assert(len < 64 && len2 < 64 && off + len <= 64 && off2 + len2 <= 64 && (off + len <= off2
        || off2 + len2 <= off) ==> ((((x & !((((1u64 << len) - 1) as u64) << off)) | ((v & (((1u64
        << len) - 1) as u64)) << off)) >> off2) & (((1u64 << len2) - 1) as u64)) == ((x >> off2)
        & (((1u64 << len2) - 1) as u64))) by (bit_vector);
}

pub proof fn lemma_set_fits(x: u64, off: u64, len: u64, v: u64, w: u64)
    requires
        len < 64,
        w <= 64,
        off + len <= w,
        x >> w == 0,
    ensures
        set_bits(x, off, len, v) >> w == 0,
{
    assert(len < 64 && w <= 64 && off + len <= w && x >> w == 0 ==> ((x & !((((1u64 << len)
        - 1) as u64) << off)) | ((v & (((1u64 << len) - 1) as u64)) << off)) >> w == 0)
        by (bit_vector);
}

pub proof fn lemma_get_fits(x: u64, off: u64, len: u64)
    requires
        len < 64,
    ensures
        get_bits(x, off, len) >> len == 0,
{
    assert(len < 64 ==> ((x >> off) & (((1u64 << len) - 1) as u64)) >> len == 0) by (bit_vector);
}

/// A value of `k` bits is restored from its high `k - extra` bits and its
/// low `extra` bits.
pub proof fn lemma_split_join(v: u64, k: u64, extra: u64)
    requires
        k < 64,
        extra < k,
        v >> k == 0,
    ensures
        (get_bits(v, extra, (k - extra) as u64) << extra) | get_bits(v, 0, extra) == v,
        ((v >> extra) & mask((k - extra) as u64)) == get_bits(v, extra, (k - extra) as u64),
{
    assert(k < 64 && extra < k && v >> k == 0 ==> ((((v >> extra) & (((1u64 << ((k - extra) as u64))
        - 1) as u64)) << extra) | ((v >> 0u64) & (((1u64 << extra) - 1) as u64))) == v)
        by (bit_vector);
}

/// Joining a high part of `k - extra` bits and a low part of `extra` bits
/// gives a value of `k` bits.
pub proof fn lemma_join_fits(hi: u64, lo: u64, k: u64, extra: u64)
    requires
        k < 64,
        extra < k,
        hi >> ((k - extra) as u64) == 0,
        lo >> extra == 0,
    ensures
        ((hi << extra) | lo) >> k == 0,
{
    assert(k < 64 && extra < k && hi >> ((k - extra) as u64) == 0 && lo >> extra == 0 ==> ((hi
        << extra) | lo) >> k == 0) by (bit_vector);
}

/// A value fits in `k` bits exactly when it is below `2^k`.
pub proof fn lemma_fits_pow2(v: u64, k: u64)
    requires
        k < 64,
    ensures
        (v >> k == 0) == (v < vstd::arithmetic::power2::pow2(k as nat)),
{
    vstd::bits::lemma_u64_shr_is_div(v, k);
    vstd::arithmetic::power2::lemma_pow2_pos(k as nat);
    if v < vstd::arithmetic::power2::pow2(k as nat) {
        vstd::arithmetic::div_mod::lemma_basic_div(v as int, vstd::arithmetic::power2::pow2(k as nat) as int);
    } else {
        vstd::arithmetic::div_mod::lemma_div_non_zero(v as int, vstd::arithmetic::power2::pow2(k as nat) as int);
    }
}

} // verus!
