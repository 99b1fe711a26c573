use vbr_rs::arena::{slot_address, slot_index};
use vbr_rs::{compose_u128, decompose_ptr, decompose_u128, low_bits, ptr_with_tag, Ver};

#[test]
fn compose_puts_the_stamp_above_the_pointer() {
    assert_eq!(compose_u128(0, 0), 0);
    assert_eq!(compose_u128(1, 2), (1u128 << 64) | 2);
    assert_eq!(compose_u128(u64::MAX, 0), (u64::MAX as u128) << 64);
    assert_eq!(compose_u128(0, 0x1234), 0x1234);
}

#[test]
fn decompose_gives_both_parts_back() {
    assert_eq!(decompose_u128(0), (0, 0));
    assert_eq!(decompose_u128((7u128 << 64) | 40), (7, 40));
    assert_eq!(decompose_u128(compose_u128(u64::MAX, usize::MAX)), (u64::MAX, usize::MAX));
    assert_eq!(decompose_u128(compose_u128(3, 8)), (3, 8));
}

#[test]
fn low_bits_is_the_alignment_less_one() {
    assert_eq!(low_bits::<u8>(), 0);
    assert_eq!(low_bits::<u16>(), 1);
    assert_eq!(low_bits::<u32>(), 3);
    assert_eq!(low_bits::<u64>(), std::mem::align_of::<u64>() - 1);
    assert_eq!(low_bits::<Ver<u64>>(), std::mem::align_of::<Ver<u64>>() - 1);
}

#[test]
fn a_tag_is_cut_to_the_free_bits() {
    assert_eq!(ptr_with_tag::<u32>(0x1000, 1), 0x1001);
    assert_eq!(ptr_with_tag::<u32>(0x1000, 3), 0x1003);
    assert_eq!(ptr_with_tag::<u32>(0x1000, 4), 0x1000);
    assert_eq!(ptr_with_tag::<u32>(0x1000, 7), 0x1003);
    assert_eq!(ptr_with_tag::<u8>(0x1001, 9), 0x1001);
}

#[test]
fn a_new_tag_replaces_the_old_one() {
    assert_eq!(ptr_with_tag::<u32>(0x1003, 1), 0x1001);
    assert_eq!(ptr_with_tag::<u32>(0x1003, 0), 0x1000);
    assert_eq!(ptr_with_tag::<u32>(0, 2), 2);
}

#[test]
fn decompose_ptr_splits_address_and_tag() {
    assert_eq!(decompose_ptr::<u32>(0x1003), (0x1000, 3));
    assert_eq!(decompose_ptr::<u32>(0x1000), (0x1000, 0));
    assert_eq!(decompose_ptr::<u32>(2), (0, 2));
    assert_eq!(decompose_ptr::<u8>(0x1003), (0x1003, 0));
    let tagged = ptr_with_tag::<u32>(0x2000, 2);
    assert_eq!(decompose_ptr::<u32>(tagged), (0x2000, 2));
}

#[test]
fn cells_have_addresses_that_are_multiples_of_the_alignment() {
    assert_eq!(slot_address::<u32>(0), 4);
    assert_eq!(slot_address::<u32>(1), 8);
    assert_eq!(slot_address::<u32>(9), 40);
    assert_eq!(slot_address::<u8>(0), 1);
    assert_eq!(slot_index::<u32>(4), 0);
    assert_eq!(slot_index::<u32>(40), 9);
    for index in 0..200usize {
        let addr = slot_address::<u16>(index);
        assert_eq!(addr % 2, 0);
        assert_ne!(addr, 0);
        assert_eq!(slot_index::<u16>(addr), index);
        assert_eq!(decompose_ptr::<u16>(addr), (addr, 0));
    }
}

#[test]
fn a_word_is_exchanged_only_for_what_it_holds() {
    let mut cell: u128 = 5;
    assert_eq!(vbr_rs::compare_exchange(&mut cell, 4, 9), Err(5));
    assert_eq!(cell, 5);
    assert_eq!(vbr_rs::compare_exchange(&mut cell, 5, 9), Ok(5));
    assert_eq!(cell, 9);
    assert_eq!(vbr_rs::compare_exchange(&mut cell, 5, 1), Err(9));
    assert_eq!(vbr_rs::compare_exchange(&mut cell, 9, 9), Ok(9));
    assert_eq!(cell, 9);
}
