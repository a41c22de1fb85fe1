//! Classification and counting of control bytes.
//!
//! A control byte is FULL (high bit clear, low seven bits the cached tag),
//! EMPTY (all bits set) or DELETED (only the high bit set).  The table's
//! bookkeeping fields are counts over the control plane, so the lemmas here
//! track how those counts react to a point update.

use crate::raw::EMPTY;
use vstd::prelude::*;

verus! {

/// A FULL control byte: the high bit is clear.
pub open spec fn is_full_byte(b: u8) -> bool {
    b < 128
}

/// An EMPTY control byte.
pub open spec fn is_empty_byte(b: u8) -> bool {
    b == EMPTY
}

/// Number of FULL control bytes in `s`.
pub open spec fn count_full(s: Seq<u8>) -> int
    decreases s.len(),
{
    if s.len() == 0 {
        0
    } else {
        count_full(s.drop_last()) + if is_full_byte(s.last()) {
            1int
        } else {
            0int
        }
    }
}

/// Number of EMPTY control bytes in `s`.
pub open spec fn count_empty(s: Seq<u8>) -> int
    decreases s.len(),
{
    if s.len() == 0 {
        0
    } else {
        count_empty(s.drop_last()) + if is_empty_byte(s.last()) {
            1int
        } else {
            0int
        }
    }
}

/// The two counts are non-negative and cannot together exceed the length.
pub proof fn lemma_counts_bounds(s: Seq<u8>)
    ensures
        0 <= count_full(s),
        0 <= count_empty(s),
        count_full(s) + count_empty(s) <= s.len(),
    decreases s.len(),
{
    if s.len() > 0 {
        lemma_counts_bounds(s.drop_last());
    }
}

/// Effect of a point update on both counts.
pub proof fn lemma_counts_update(s: Seq<u8>, i: int, b: u8)
    requires
        0 <= i < s.len(),
    ensures
        count_full(s.update(i, b)) == count_full(s) + (if is_full_byte(b) {
            1int
        } else {
            0int
        }) - (if is_full_byte(s[i]) {
            1int
        } else {
            0int
        }),
        count_empty(s.update(i, b)) == count_empty(s) + (if is_empty_byte(b) {
            1int
        } else {
            0int
        }) - (if is_empty_byte(s[i]) {
            1int
        } else {
            0int
        }),
    decreases s.len(),
{
    let t = s.update(i, b);
    assert(t.len() == s.len());
    if i == s.len() - 1 {
        assert(t.drop_last() =~= s.drop_last());
        assert(t.last() == b);
    } else {
        assert(t.drop_last() =~= s.drop_last().update(i, b));
        assert(t.last() == s.last());
        lemma_counts_update(s.drop_last(), i, b);
    }
}

/// A sequence with no FULL byte counts zero, and conversely.
pub proof fn lemma_count_full_zero(s: Seq<u8>)
    requires
        count_full(s) == 0,
    ensures
        forall|i: int| 0 <= i < s.len() ==> !is_full_byte(s[i]),
    decreases s.len(),
{
    if s.len() > 0 {
        lemma_counts_bounds(s.drop_last());
        lemma_count_full_zero(s.drop_last());
        assert forall|i: int| 0 <= i < s.len() implies !is_full_byte(s[i]) by {
            if i < s.len() - 1 {
                assert(s.drop_last()[i] == s[i]);
            }
        }
    }
}

/// A sequence with a positive FULL count holds a FULL byte.
pub proof fn lemma_count_full_positive(s: Seq<u8>)
    requires
        count_full(s) > 0,
    ensures
        exists|i: int| 0 <= i < s.len() && is_full_byte(s[i]),
    decreases s.len(),
{
    if s.len() > 0 {
        if is_full_byte(s.last()) {
            assert(0 <= s.len() - 1 < s.len() && is_full_byte(s[s.len() - 1]));
        } else {
            lemma_count_full_positive(s.drop_last());
            let i = choose|i: int| 0 <= i < s.drop_last().len() && is_full_byte(s.drop_last()[i]);
            assert(0 <= i < s.len() && is_full_byte(s[i]));
        }
    }
}

/// A sequence whose FULL count is short of its length holds a vacant byte.
pub proof fn lemma_count_full_short(s: Seq<u8>)
    requires
        count_full(s) < s.len(),
    ensures
        exists|i: int| 0 <= i < s.len() && !is_full_byte(s[i]),
    decreases s.len(),
{
    if s.len() > 0 {
        if !is_full_byte(s.last()) {
            assert(0 <= s.len() - 1 < s.len() && !is_full_byte(s[s.len() - 1]));
        } else {
            lemma_count_full_short(s.drop_last());
            let i = choose|i: int| 0 <= i < s.drop_last().len() && !is_full_byte(s.drop_last()[i]);
            assert(0 <= i < s.len() && !is_full_byte(s[i]));
        }
    }
}

/// Extending a prefix by one byte adjusts its FULL count by that byte's
/// classification.
pub proof fn lemma_count_full_prefix_step(s: Seq<u8>, k: int)
    requires
        0 <= k < s.len(),
    ensures
        count_full(s.subrange(0, k + 1)) == count_full(s.subrange(0, k)) + (if is_full_byte(
            s[k],
        ) {
            1int
        } else {
            0int
        }),
{
    assert(s.subrange(0, k + 1).drop_last() =~= s.subrange(0, k));
    assert(s.subrange(0, k + 1).last() == s[k]);
}

/// A prefix never counts more FULL bytes than the whole sequence.
pub proof fn lemma_count_full_prefix_le(s: Seq<u8>, k: int)
    requires
        0 <= k <= s.len(),
    ensures
        count_full(s.subrange(0, k)) <= count_full(s),
    decreases s.len() - k,
{
    if k == s.len() {
        assert(s.subrange(0, k) =~= s);
    } else {
        lemma_count_full_prefix_step(s, k);
        lemma_count_full_prefix_le(s, k + 1);
    }
}

/// When the two counts exhaust the length, every byte is FULL or EMPTY.
pub proof fn lemma_counts_cover(s: Seq<u8>)
    requires
        count_full(s) + count_empty(s) == s.len(),
    ensures
        forall|i: int| 0 <= i < s.len() ==> is_full_byte(s[i]) || is_empty_byte(s[i]),
    decreases s.len(),
{
    if s.len() > 0 {
        let d = s.drop_last();
        lemma_counts_bounds(d);
        if !is_full_byte(s.last()) && !is_empty_byte(s.last()) {
            assert(count_full(d) + count_empty(d) == s.len());
            assert(false);
        }
        lemma_counts_cover(d);
        assert forall|i: int| 0 <= i < s.len() implies is_full_byte(s[i]) || is_empty_byte(
            s[i],
        ) by {
            if i < s.len() - 1 {
                assert(d[i] == s[i]);
            }
        }
    }
}

/// Appending a byte adjusts both counts by its classification.
pub proof fn lemma_counts_push(s: Seq<u8>, b: u8)
    ensures
        count_full(s.push(b)) == count_full(s) + (if is_full_byte(b) {
            1int
        } else {
            0int
        }),
        count_empty(s.push(b)) == count_empty(s) + (if is_empty_byte(b) {
            1int
        } else {
            0int
        }),
{
    assert(s.push(b).drop_last() =~= s);
    assert(s.push(b).last() == b);
}

} // verus!
