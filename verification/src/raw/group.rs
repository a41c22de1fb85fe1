//! The group matcher: answers, for a window of sixteen control bytes, which
//! positions hold a given byte and which positions are empty or deleted, each
//! as a 16-bit membership mask.
//!
//! A vectorised implementation would compare all sixteen bytes with one
//! 128-bit equality and extract the mask with a move-mask instruction; the
//! scalar loops below compute the same masks portably.

use crate::raw::bitmask::{nth_bit, BitMask};
use crate::raw::EMPTY;
use vstd::prelude::*;

verus! {

/// Setting bit `i` of a mask leaves every other bit unchanged.
proof fn lemma_set_bit_point(m: u16, i: u16, j: u16)
    by (bit_vector)
    requires
        i < 16,
    ensures
        nth_bit(m | (1u16 << i), j) <==> (nth_bit(m, j) || j == i),
{
}

/// The zero mask has no set bit.
proof fn lemma_zero_no_bits(j: u16)
    by (bit_vector)
    ensures
        !nth_bit(0u16, j),
{
}

/// A window of sixteen control bytes, loaded once and matched against.
#[derive(Clone, Copy)]
pub struct Group {
    bytes: [u8; 16],
}

impl Group {
    /// The control byte at offset `i` of the window.
    pub closed spec fn byte(self, i: int) -> u8 {
        self.bytes@[i]
    }

    /// Copies the sixteen control bytes starting at `base` out of the
    /// control plane.
    pub fn load(ctrl: &Vec<u8>, base: usize) -> (g: Group)
        requires
            base + 16 <= ctrl@.len(),
        ensures
            forall|i: int| 0 <= i < 16 ==> g.byte(i) == ctrl@[base + i],
    {
        let mut bytes = [0u8; 16];
        let n = ctrl.len();
        let mut i: usize = 0;
        while i < 16
            invariant
                i <= 16,
                n == ctrl@.len(),
                base + 16 <= n,
                forall|j: int| 0 <= j < i ==> bytes@[j] == ctrl@[base + j],
            decreases 16 - i,
        {
            bytes[i] = ctrl[base + i];
            i += 1;
        }
        Group { bytes }
    }

    /// The mask with bit `i` set iff window byte `i` equals `byte`.
    pub fn match_byte(self, byte: u8) -> (m: BitMask)
        ensures
            forall|i: u16| i < 16 ==> (#[trigger] nth_bit(m.0, i) <==> self.byte(i as int) == byte),
    {
        let mut mask: u16 = 0;
        let mut i: u16 = 0;
        proof {
            assert forall|j: u16| !nth_bit(0u16, j) by {
                lemma_zero_no_bits(j);
            }
        }
        while i < 16
            invariant
                i <= 16,
                forall|j: u16| j < i ==> (#[trigger] nth_bit(mask, j) <==> self.byte(j as int) == byte),
                forall|j: u16| i <= j ==> !nth_bit(mask, j),
            decreases 16 - i,
        {
            let ghost old_mask = mask;
            if self.bytes[i as usize] == byte {
                mask = mask | (1u16 << i);
                proof {
                    assert forall|j: u16| #[trigger] nth_bit(mask, j) <==> (nth_bit(old_mask, j) || j == i) by {
                        lemma_set_bit_point(old_mask, i, j);
                    }
                }
            }
            i += 1;
        }
        BitMask(mask)
    }

    /// The mask of EMPTY slots in the window.
    pub fn match_empty(self) -> (m: BitMask)
        ensures
            forall|i: u16| i < 16 ==> (#[trigger] nth_bit(m.0, i) <==> self.byte(i as int) == EMPTY),
    {
        self.match_byte(EMPTY)
    }

    /// The mask of EMPTY or DELETED slots in the window: the bytes whose high
    /// bit is set.
    pub fn match_empty_or_deleted(self) -> (m: BitMask)
        ensures
            forall|i: u16| i < 16 ==> (#[trigger] nth_bit(m.0, i) <==> self.byte(i as int) >= 128),
    {
        let mut mask: u16 = 0;
        let mut i: u16 = 0;
        proof {
            assert forall|j: u16| !nth_bit(0u16, j) by {
                lemma_zero_no_bits(j);
            }
        }
        while i < 16
            invariant
                i <= 16,
                forall|j: u16| j < i ==> (#[trigger] nth_bit(mask, j) <==> self.byte(j as int) >= 128),
                forall|j: u16| i <= j ==> !nth_bit(mask, j),
            decreases 16 - i,
        {
            let ghost old_mask = mask;
            if self.bytes[i as usize] >= 128 {
                mask = mask | (1u16 << i);
                proof {
                    assert forall|j: u16| #[trigger] nth_bit(mask, j) <==> (nth_bit(old_mask, j) || j == i) by {
                        lemma_set_bit_point(old_mask, i, j);
                    }
                }
            }
            i += 1;
        }
        BitMask(mask)
    }
}

} // verus!
