//! Addresses of the cells of an arena.
//!
//! An arena is a vector of cells of one type. The cell at index `i` is known
//! by the address `(i + 1) * align`, where `align` is the alignment of the
//! cell type: every address is a multiple of the alignment, so its low bits are
//! free for a tag, and no cell has the address zero, which stands for null.

use vstd::prelude::*;
use vstd::layout::align_of;
use crate::word::{align, low_bits};

verus! {

/// The address of the cell at `index`.
pub open spec fn addr_of<T>(index: int) -> int {
    (index + 1) * align_of::<T>()
}

/// The index of the cell at `addr`.
pub open spec fn index_of<T>(addr: int) -> int {
    addr / (align_of::<T>() as int) - 1
}

/// Whether `addr` is the address of a cell of an arena of `len` cells.
pub open spec fn is_addr<T>(addr: int, len: int) -> bool {
    &&& addr % (align_of::<T>() as int) == 0
    &&& 1 <= addr / (align_of::<T>() as int) <= len
}

/// Whether every cell of an arena of `len` cells has an address that fits a
/// `usize`.
pub open spec fn addressable<T>(len: int) -> bool {
    len * align_of::<T>() <= usize::MAX
}

/// The address of a cell is an address of the arena, is not null, and leads
/// back to the index.
pub proof fn lemma_addr_of_index<T>(index: int, len: int)
    requires
        0 <= index < len,
    ensures
        is_addr::<T>(addr_of::<T>(index), len),
        index_of::<T>(addr_of::<T>(index)) == index,
        addr_of::<T>(index) > 0,
        addressable::<T>(len) ==> addr_of::<T>(index) <= usize::MAX,
{
    broadcast use vstd::layout::align_nonzero;

    let a = align_of::<T>() as int;
    let q = index + 1;
    vstd::arithmetic::div_mod::lemma_fundamental_div_mod_converse(q * a, a, q, 0);
    assert(q * a > 0) by (nonlinear_arith)
        requires
            q > 0,
            a > 0,
    ;
    assert(q * a <= len * a) by (nonlinear_arith)
        requires
            q <= len,
            a > 0,
    ;
}

/// An address of the arena belongs to exactly one cell.
pub proof fn lemma_index_of_addr<T>(addr: int, len: int)
    requires
        is_addr::<T>(addr, len),
    ensures
        0 <= index_of::<T>(addr) < len,
        addr_of::<T>(index_of::<T>(addr)) == addr,
        addr > 0,
{
    broadcast use vstd::layout::align_nonzero;

    let a = align_of::<T>() as int;
    vstd::arithmetic::div_mod::lemma_fundamental_div_mod(addr, a);
    assert((addr / a) * a == a * (addr / a)) by (nonlinear_arith);
    assert((addr / a) * a > 0) by (nonlinear_arith)
        requires
            addr / a >= 1,
            a > 0,
    ;
}

/// A longer arena keeps the addresses of a shorter one.
pub proof fn lemma_is_addr_grows<T>(addr: int, len: int, longer: int)
    requires
        is_addr::<T>(addr, len),
        len <= longer,
    ensures
        is_addr::<T>(addr, longer),
{
}

/// Whether an arena of `len` cells of type `T` is addressable.
pub fn is_addressable<T>(len: usize) -> (fits: bool)
    ensures
        fits == addressable::<T>(len as int),
{
    let mask: usize = low_bits::<T>();
    let limit: usize = usize::MAX / (mask + 1);
    proof {
        let a = align_of::<T>() as int;
        let max = usize::MAX as int;
        vstd::arithmetic::div_mod::lemma_fundamental_div_mod(max, a);
        if len <= limit {
            assert(len * a <= limit * a) by (nonlinear_arith)
                requires
                    len <= limit,
                    a > 0,
            ;
            assert(limit * a == a * limit) by (nonlinear_arith);
        } else {
            assert((limit + 1) * a <= len * a) by (nonlinear_arith)
                requires
                    limit + 1 <= len,
                    a > 0,
            ;
            assert((limit + 1) * a == a * limit + a) by (nonlinear_arith);
        }
    }
    len <= limit
}

/// The address of the cell at `index`.
pub fn slot_address<T>(index: usize) -> (addr: usize)
    requires
        addr_of::<T>(index as int) <= usize::MAX,
    ensures
        addr == addr_of::<T>(index as int),
        addr as int % align::<T>() == 0,
        addr > 0,
{
    let mask: usize = low_bits::<T>();
    proof {
        lemma_addr_of_index::<T>(index as int, index + 1);
        assert(index + 1 <= (index + 1) * align_of::<T>()) by (nonlinear_arith)
            requires
                align_of::<T>() >= 1,
        ;
    }
    (index + 1) * (mask + 1)
}

/// The index of the cell at the address `addr`.
pub fn slot_index<T>(addr: usize) -> (index: usize)
    requires
        addr as int % (align_of::<T>() as int) == 0,
        addr > 0,
    ensures
        index == index_of::<T>(addr as int),
        addr == addr_of::<T>(index as int),
{
    let mask: usize = low_bits::<T>();
    proof {
        let a = align_of::<T>() as int;
        vstd::arithmetic::div_mod::lemma_fundamental_div_mod(addr as int, a);
        assert(addr as int / a >= 1) by (nonlinear_arith)
            requires
                addr as int == a * (addr as int / a),
                addr > 0,
                a > 0,
        ;
        assert((addr as int / a) * a == a * (addr as int / a)) by (nonlinear_arith);
    }
    addr / (mask + 1) - 1
}

} // verus!
