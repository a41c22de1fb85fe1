//! The 16-bit membership masks produced by matching one group of control
//! bytes, and the operations that enumerate their set bits from least to most
//! significant.

use vstd::prelude::*;

verus! {

/// True iff bit `i` of `m` is set.
pub open spec fn nth_bit(m: u16, i: u16) -> bool {
    i < 16 && (m >> i) & 1u16 == 1u16
}

/// A set bit makes the whole mask non-zero.
pub proof fn lemma_bit_set_nonzero(m: u16, i: u16)
    by (bit_vector)
    requires
        nth_bit(m, i),
    ensures
        m != 0,
{
}

/// Rephrases "every bit of `m` below `b` is clear" as one mask equation.
proof fn lemma_low_clear_mask(m: u16, b: u16)
    requires
        b <= 16,
        forall|j: u16| j < b ==> !nth_bit(m, j),
    ensures
        m & (((1u32 << b) - 1) as u16) == 0,
    decreases b,
{
    if b == 0 {
        assert(m & (((1u32 << 0u16) - 1) as u16) == 0) by (bit_vector);
    } else {
        let c = (b - 1) as u16;
        lemma_low_clear_mask(m, c);
        assert(!nth_bit(m, c));
        assert(m & (((1u32 << b) - 1) as u16) == 0) by (bit_vector)
            requires
                c < 16,
                b == (c + 1) as u16,
                m & (((1u32 << c) - 1) as u16) == 0,
                !nth_bit(m, c),
        ;
    }
}

/// A mask with no set bit is zero.
pub proof fn lemma_no_bit_zero(m: u16)
    requires
        forall|j: u16| !nth_bit(m, j),
    ensures
        m == 0,
{
    lemma_low_clear_mask(m, 16);
    assert(m & (((1u32 << 16u16) - 1) as u16) == 0 ==> m == 0) by (bit_vector);
}

/// Pointwise effect of `m & (m - 1)`, given the lowest set bit `b` of `m` in
/// mask form.
proof fn lemma_remove_lowest_point(m: u16, b: u16, i: u16)
    by (bit_vector)
    requires
        nth_bit(m, b),
        m & (((1u32 << b) - 1) as u16) == 0,
    ensures
        nth_bit(m & ((m - 1) as u16), i) <==> (nth_bit(m, i) && i != b),
{
}

/// Given the lowest set bit `b` of `m`, the mask `m & (m - 1)` keeps exactly
/// the other set bits of `m`.
pub proof fn lemma_remove_lowest_effect(m: u16, b: u16)
    requires
        nth_bit(m, b),
        forall|j: u16| j < b ==> !nth_bit(m, j),
    ensures
        forall|i: u16|
            #[trigger] nth_bit(m & ((m - 1) as u16), i) <==> (nth_bit(m, i) && i != b),
{
    lemma_low_clear_mask(m, b);
    assert forall|i: u16|
        #[trigger] nth_bit(m & ((m - 1) as u16), i) <==> (nth_bit(m, i) && i != b) by {
        lemma_remove_lowest_point(m, b, i);
    }
}

/// Clearing the lowest set bit strictly shrinks the mask's value.
pub proof fn lemma_remove_lowest_decreases(m: u16)
    by (bit_vector)
    requires
        m != 0,
    ensures
        (m & ((m - 1) as u16)) < m,
{
}

/// A 16-bit membership mask over the slots of one group: bit `i` answers the
/// matcher's question for slot offset `i`.
#[derive(Clone, Copy)]
pub struct BitMask(pub u16);

impl BitMask {
    /// Removes the lowest set bit, leaving the rest of the mask unchanged
    /// (see `lemma_remove_lowest_effect`).
    pub fn remove_lowest_bit(self) -> (r: Self)
        requires
            self.0 != 0,
        ensures
            r.0 == (self.0 & ((self.0 - 1) as u16)),
    {
        BitMask(self.0 & (self.0 - 1))
    }

    /// True iff any bit of the mask is set.
    pub fn any_bit_set(self) -> (b: bool)
        ensures
            b == (self.0 != 0),
    {
        self.0 != 0
    }

    /// The position of the least-significant set bit, or none if the mask is
    /// all zeroes.
    pub fn lowest_set_bit(self) -> (r: Option<usize>)
        ensures
            match r {
                Some(b) => b < 16 && nth_bit(self.0, b as u16) && (forall|j: u16|
                    j < b ==> !nth_bit(self.0, j)),
                None => self.0 == 0,
            },
    {
        let mut i: u16 = 0;
        while i < 16
            invariant
                i <= 16,
                forall|j: u16| j < i ==> !nth_bit(self.0, j),
            decreases 16 - i,
        {
            if (self.0 >> i) & 1u16 == 1u16 {
                return Some(i as usize);
            }
            i += 1;
        }
        proof {
            assert(forall|j: u16| !nth_bit(self.0, j));
            lemma_no_bit_zero(self.0);
        }
        None
    }
}

} // verus!
