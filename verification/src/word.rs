//! Stamped words and tagged addresses.
//!
//! A stamped word packs a 64-bit stamp above a pointer-sized word. A tagged
//! address keeps a small tag in the bits that the alignment of the pointee
//! leaves free.

use vstd::prelude::*;
use vstd::arithmetic::power2::{is_pow2, is_pow2_exists, pow2};
use vstd::bits::low_bits_mask;
use vstd::layout::align_of;

verus! {

/// Two to the power 64: the weight of the stamp in a stamped word.
pub const STAMP_UNIT: u128 = 0x1_0000_0000_0000_0000;

/// The stamped word that holds `meta` above `ptr`.
pub open spec fn pack(meta: u64, ptr: usize) -> u128 {
    (meta * STAMP_UNIT + ptr) as u128
}

/// The stamp of a stamped word.
pub open spec fn stamp_of(word: u128) -> u64 {
    (word / STAMP_UNIT) as u64
}

/// The pointer-sized part of a stamped word, cut to the width of `usize`.
pub open spec fn ptr_of(word: u128) -> usize {
    ((word % STAMP_UNIT) as u64) as usize
}

/// Packing loses nothing: both parts come back out of the word.
pub proof fn lemma_pack_unpack(meta: u64, ptr: usize)
    ensures
        meta * STAMP_UNIT + ptr <= u128::MAX,
        stamp_of(pack(meta, ptr)) == meta,
        ptr_of(pack(meta, ptr)) == ptr,
{
    let w = pack(meta, ptr);
    assert(meta * STAMP_UNIT + ptr <= u128::MAX) by (nonlinear_arith)
        requires
            meta <= u64::MAX,
            ptr <= u64::MAX,
            STAMP_UNIT == 0x1_0000_0000_0000_0000,
    ;
    assert(w / STAMP_UNIT == meta && w % STAMP_UNIT == ptr) by (nonlinear_arith)
        requires
            w == meta * STAMP_UNIT + ptr,
            0 <= ptr < STAMP_UNIT,
            STAMP_UNIT == 0x1_0000_0000_0000_0000,
    ;
}

/// A null pointer under stamp zero is the zero word.
pub proof fn lemma_pack_zero()
    ensures
        pack(0, 0) == 0,
        stamp_of(0) == 0,
        ptr_of(0) == 0,
{
}

/// Packs `meta` into the upper half and `ptr` into the lower half of a word.
pub fn compose_u128(meta: u64, ptr: usize) -> (word: u128)
    ensures
        word == pack(meta, ptr),
{
    let hi: u128 = meta as u128;
    let lo: u128 = ptr as u128;
    assert((hi << 64) | lo == hi * 0x1_0000_0000_0000_0000 + lo) by (bit_vector)
        requires
            hi <= 0xffff_ffff_ffff_ffff,
            lo <= 0xffff_ffff_ffff_ffff,
    ;
    (hi << 64) | lo
}

/// Splits a word into its stamp and its pointer-sized part.
pub fn decompose_u128(value: u128) -> (parts: (u64, usize))
    ensures
        parts.0 == stamp_of(value),
        parts.1 == ptr_of(value),
{
    let hi: u128 = value >> 64;
    let lo: u128 = value & 0xffff_ffff_ffff_ffff;
    assert(hi == value / 0x1_0000_0000_0000_0000 && hi <= 0xffff_ffff_ffff_ffff) by (bit_vector)
        requires
            hi == value >> 64,
    ;
    assert(lo == value % 0x1_0000_0000_0000_0000) by (bit_vector)
        requires
            lo == value & 0xffff_ffff_ffff_ffff,
    ;
    let meta: u64 = hi as u64;
    let low: u64 = lo as u64;
    (meta, #[verifier::truncate] (low as usize))
}

/// Replaces the word in `cell` by `new` if it is `current`, and returns the
/// word that was found: as `Ok` if it was replaced, as `Err` if it was left
/// alone because it was another.
pub fn compare_exchange(cell: &mut u128, current: u128, new: u128) -> (res: Result<u128, u128>)
    ensures
        *old(cell) == current ==> res == Ok::<u128, u128>(current) && *final(cell) == new,
        *old(cell) != current ==> res == Err::<u128, u128>(*old(cell)) && *final(cell) == *old(cell),
    no_unwind
{
    let found: u128 = *cell;
    if found == current {
        *cell = new;
        Ok(found)
    } else {
        Err(found)
    }
}

/// The alignment of `T`.
pub open spec fn align<T>() -> int {
    align_of::<T>() as int
}

/// The mask of the bits that an aligned address of a `T` leaves free.
pub open spec fn low_mask<T>() -> usize {
    (align_of::<T>() - 1) as usize
}

/// The address `ptr` with its tag bits cleared.
pub open spec fn untagged<T>(ptr: usize) -> usize {
    (ptr - ptr as int % align::<T>()) as usize
}

/// The tag that `ptr` carries.
pub open spec fn tag_of<T>(ptr: usize) -> usize {
    (ptr as int % align::<T>()) as usize
}

/// The address of `ptr` under the tag `tag`, cut to the free bits.
pub open spec fn tagged<T>(ptr: usize, tag: usize) -> usize {
    (untagged::<T>(ptr) + tag as int % align::<T>()) as usize
}

/// Returns a bitmask containing the unused least significant bits of an
/// aligned address of a `T`.
#[verifier::when_used_as_spec(low_mask)]
pub fn low_bits<T>() -> (mask: usize)
    ensures
        mask == low_mask::<T>(),
        mask + 1 == align_of::<T>(),
        0 < align_of::<T>() <= usize::MAX,
{
    proof {
        broadcast use vstd::layout::align_nonzero;

    }
    core::mem::align_of::<T>() - 1
}

/// Clearing and keeping the low bits under the mask of `T` is division with
/// remainder by the alignment of `T`.
pub proof fn lemma_mask_is_mod<T>(x: usize)
    requires
        align_of::<T>() <= usize::MAX,
    ensures
        x & low_mask::<T>() == x as int % align::<T>(),
        x & !low_mask::<T>() == x - x as int % align::<T>(),
        x & low_mask::<T>() == tag_of::<T>(x),
        x & !low_mask::<T>() == untagged::<T>(x),
        align::<T>() > 0,
{
    broadcast use vstd::layout::align_properties;
    broadcast use vstd::arithmetic::power2::is_pow2_equiv;

    let a = align_of::<T>();
    assert(is_pow2(a as int));
    assert(is_pow2_exists(a as int));
    let k = choose|i: nat| vstd::arithmetic::power::pow(2, i) == a as int;
    assert(pow2(k) == a);
    if k >= usize::BITS {
        vstd::arithmetic::power2::lemma2_to64();
        vstd::arithmetic::power2::lemma2_to64_rest();
        if k > usize::BITS {
            vstd::arithmetic::power2::lemma_pow2_strictly_increases(usize::BITS as nat, k);
        }
        assert(false);
    }
    let m = low_mask::<T>();
    assert(m == low_bits_mask(k) as usize);
    vstd::bits::lemma_usize_low_bits_mask_is_mod(x, k);
    assert(x & !m == x - (x & m)) by (bit_vector);
}

/// A tag that fits under the mask of `T` and an address that is a multiple of
/// the alignment of `T` do not overlap: joining them is addition.
proof fn lemma_join_is_add(ptr: usize, tag: usize, m: usize)
    ensures
        (ptr & !m) | (tag & m) == (ptr & !m) + (tag & m),
{
    assert((ptr & !m) | (tag & m) == (ptr & !m) + (tag & m)) by (bit_vector);
}

/// Given a tagged address `ptr`, returns the same address, but tagged with
/// `tag`. The tag is cut to fit into the unused bits of an address of a `T`.
pub fn ptr_with_tag<T>(ptr: usize, tag: usize) -> (out: usize)
    ensures
        out == tagged::<T>(ptr, tag),
        untagged::<T>(out) == untagged::<T>(ptr),
        tag_of::<T>(out) == tag as int % align::<T>(),
        tag == 0 ==> out == untagged::<T>(ptr),
{
    let mask: usize = low_bits::<T>();
    proof {
        lemma_mask_is_mod::<T>(ptr);
        lemma_mask_is_mod::<T>(tag);
        lemma_join_is_add(ptr, tag, mask);
        lemma_tagged_parts::<T>(ptr, tag);
    }
    (ptr & !mask) | (tag & mask)
}

/// Decomposes a tagged address into the address and the tag.
pub fn decompose_ptr<T>(ptr: usize) -> (parts: (usize, usize))
    ensures
        parts.0 == untagged::<T>(ptr),
        parts.1 == tag_of::<T>(ptr),
{
    let mask: usize = low_bits::<T>();
    proof {
        lemma_mask_is_mod::<T>(ptr);
    }
    (ptr & !mask, ptr & mask)
}

/// What tagging does to the two parts of an address: the address part stays,
/// the tag part is replaced.
pub proof fn lemma_tagged_parts<T>(ptr: usize, tag: usize)
    requires
        align_of::<T>() <= usize::MAX,
    ensures
        untagged::<T>(ptr) + tag as int % align::<T>() <= usize::MAX,
        untagged::<T>(tagged::<T>(ptr, tag)) == untagged::<T>(ptr),
        tag_of::<T>(tagged::<T>(ptr, tag)) == tag as int % align::<T>(),
        untagged::<T>(ptr) as int % align::<T>() == 0,
{
    broadcast use vstd::layout::align_nonzero;

    let a = align::<T>();
    let base = untagged::<T>(ptr) as int;
    let t = tag as int % align::<T>();
    let q = ptr as int / a;
    vstd::arithmetic::div_mod::lemma_fundamental_div_mod(ptr as int, a);
    assert(base == a * q);
    assert(base + a <= usize::MAX + 1) by {
        // filling in every tag bit of an address stays within `usize`
        lemma_mask_is_mod::<T>(ptr);
        let m = low_mask::<T>();
        assert((ptr & !m) | m == (ptr & !m) + m) by (bit_vector);
    }
    vstd::arithmetic::div_mod::lemma_fundamental_div_mod_converse(base + t, a, q, t);
    vstd::arithmetic::div_mod::lemma_fundamental_div_mod_converse(base, a, q, 0);
}

} // verus!
