//! Tests for the leaf components: the digest capability, the group matcher
//! and the bit-mask iterator.

use swisstable::key::{hash_key, TableKey};
use swisstable::raw::bitmask::BitMask;
use swisstable::raw::group::Group;
use swisstable::raw::{h2, DELETED, EMPTY};

#[test]
fn test_digest_is_deterministic() {
    let a: u64 = 1234567;
    let b: u64 = 1234567;
    assert_eq!(hash_key(&a), hash_key(&b));
    assert_eq!(a.digest(), b.digest());
    // Different widths hash through the same eight bytes.
    let c: u32 = 1234567;
    assert_eq!(c.digest(), a.digest());
}

#[test]
fn test_h2_exact_values() {
    assert_eq!(h2(0), 0);
    assert_eq!(h2(u64::MAX), 0x7f);
    assert_eq!(h2(1u64 << 57), 1);
    assert_eq!(h2(0x7fu64 << 57), 0x7f);
    // The low 57 bits never reach the tag.
    assert_eq!(h2((1u64 << 57) - 1), 0);
    assert!(h2(u64::MAX) < 128);
}

#[test]
fn test_bitmask_iteration() {
    let mask = BitMask(0b0001_0010);
    assert!(mask.any_bit_set());
    assert_eq!(mask.lowest_set_bit(), Some(1));
    let mask = mask.remove_lowest_bit();
    assert_eq!(mask.lowest_set_bit(), Some(4));
    let mask = mask.remove_lowest_bit();
    assert!(!mask.any_bit_set());
    assert_eq!(mask.lowest_set_bit(), None);
}

#[test]
fn test_bitmask_empty() {
    let mask = BitMask(0);
    assert!(!mask.any_bit_set());
    assert_eq!(mask.lowest_set_bit(), None);
}

#[test]
fn test_group_matching() {
    let mut ctrl: Vec<u8> = vec![EMPTY; 32];
    ctrl[16] = 0x42;
    ctrl[18] = 0x42;
    ctrl[20] = DELETED;
    ctrl[31] = 0x01;

    let g = Group::load(&ctrl, 16);
    // Tag matches at offsets 0 and 2 of the window.
    assert_eq!(g.match_byte(0x42).0, 0b0000_0000_0000_0101);
    // EMPTY everywhere except the four non-EMPTY bytes written above.
    let empties = g.match_empty().0;
    assert_eq!(empties, 0b0111_1111_1110_1010);
    // EMPTY or DELETED: everything but the three FULL bytes.
    let vacant = g.match_empty_or_deleted().0;
    assert_eq!(vacant, 0b0111_1111_1111_1010);
}
