//! The probe sequence: starting from a group chosen by the digest, successive
//! candidate groups advance by triangular-number steps modulo the group
//! count.  Over a power-of-two group count this visits every group exactly
//! once in `group_count` steps, which is what lets a failed probe prove a key
//! absent and a load-factor bound prove an insert finds a vacant slot.

use vstd::arithmetic::div_mod::{
    lemma_div_multiples_vanish, lemma_div_pos_is_pos, lemma_fundamental_div_mod,
    lemma_mod_breakdown, lemma_mod_division_less_than_divisor, lemma_mod_multiples_vanish,
    lemma_small_mod,
};
use vstd::arithmetic::power2::{lemma_pow2_pos, lemma_pow2_unfold, pow2};
use vstd::bits::{lemma_u64_low_bits_mask_is_mod, lemma_usize_low_bits_mask_is_mod};
use vstd::prelude::*;
use vstd::set::axiom_set_insert_len;
use vstd::set_lib::{lemma_int_range, lemma_len_subset, set_int_range};

verus! {

/// The `i`-th triangular number.
pub open spec fn triangular(i: int) -> int
    recommends
        i >= 0,
{
    i * (i + 1) / 2
}

/// The group visited at step `i` when probing from group `start` over `g`
/// groups.
pub open spec fn probe_at(start: int, i: int, g: int) -> int
    recommends
        g > 0,
        0 <= i,
{
    (start + triangular(i)) % g
}

/// A product of two consecutive integers is even.
proof fn lemma_consecutive_product_even(i: int)
    requires
        i >= 0,
    ensures
        (i * (i + 1)) % 2 == 0,
    decreases i,
{
    if i == 0 {
    } else {
        lemma_consecutive_product_even(i - 1);
        assert(i * (i + 1) == 2 * i + (i - 1) * i) by (nonlinear_arith);
        lemma_mod_multiples_vanish(i, (i - 1) * i, 2);
    }
}

/// The division in `triangular` is exact.
proof fn lemma_triangular_double(i: int)
    requires
        i >= 0,
    ensures
        2 * triangular(i) == i * (i + 1),
        triangular(i) >= 0,
{
    lemma_consecutive_product_even(i);
    lemma_fundamental_div_mod(i * (i + 1), 2);
    assert(i * (i + 1) >= 0) by (nonlinear_arith);
}

/// Difference of two triangular numbers, factored.
proof fn lemma_triangular_diff(i: int, j: int)
    requires
        0 <= i <= j,
    ensures
        2 * (triangular(j) - triangular(i)) == (j - i) * (i + j + 1),
        triangular(j) - triangular(i) >= 0,
{
    lemma_triangular_double(i);
    lemma_triangular_double(j);
    assert(j * (j + 1) - i * (i + 1) == (j - i) * (i + j + 1)) by (nonlinear_arith);
    assert((j - i) * (i + j + 1) >= 0) by (nonlinear_arith)
        requires
            0 <= i <= j,
    ;
}

/// If an odd number times `b` is divisible by a power of two, then `b` is.
proof fn lemma_odd_factor_pow2(t: nat, a: int, b: int)
    requires
        a >= 1,
        a % 2 == 1,
        b >= 0,
        (a * b) % (pow2(t) as int) == 0,
    ensures
        b % (pow2(t) as int) == 0,
    decreases t,
{
    lemma_pow2_pos(t);
    if t == 0 {
        assert(pow2(0) == 1) by {
            vstd::arithmetic::power2::lemma2_to64();
        }
        lemma_small_mod(0, 1);
        lemma_fundamental_div_mod(b, 1);
        lemma_mod_division_less_than_divisor(b, 1);
    } else {
        let p = pow2((t - 1) as nat) as int;
        lemma_pow2_pos((t - 1) as nat);
        lemma_pow2_unfold(t);
        let x = a * b;
        assert(x >= 0) by (nonlinear_arith)
            requires
                a >= 1,
                b >= 0,
                x == a * b,
        ;
        lemma_mod_breakdown(x, 2, p);
        lemma_mod_division_less_than_divisor(x, 2);
        lemma_mod_division_less_than_divisor(x / 2, p);
        assert(x % 2 == 0);
        assert(b % 2 == 0) by {
            lemma_mod_division_less_than_divisor(b, 2);
            if b % 2 == 1 {
                lemma_fundamental_div_mod(a, 2);
                lemma_fundamental_div_mod(b, 2);
                let ah = a / 2;
                let bh = b / 2;
                assert(x == 2 * (2 * ah * bh + ah + bh) + 1) by (nonlinear_arith)
                    requires
                        a == 2 * ah + 1,
                        b == 2 * bh + 1,
                        x == a * b,
                ;
                lemma_mod_multiples_vanish(2 * ah * bh + ah + bh, 1, 2);
                lemma_small_mod(1, 2);
                assert(x % 2 == 1);
            }
        }
        let half = b / 2;
        lemma_div_pos_is_pos(b, 2);
        lemma_fundamental_div_mod(b, 2);
        assert(x == 2 * (a * half)) by (nonlinear_arith)
            requires
                b == 2 * half,
                x == a * b,
        ;
        lemma_div_multiples_vanish(a * half, 2);
        assert((a * half) % p == 0);
        lemma_odd_factor_pow2((t - 1) as nat, a, half);
        lemma_mod_breakdown(b, 2, p);
    }
}

/// Two distinct steps of one probe sequence land in distinct groups.
pub proof fn lemma_probe_distinct(m: nat, start: int, i: int, j: int)
    requires
        0 <= start,
        0 <= i < j < pow2(m) as int,
    ensures
        probe_at(start, i, pow2(m) as int) != probe_at(start, j, pow2(m) as int),
{
    let g = pow2(m) as int;
    lemma_pow2_pos(m);
    if probe_at(start, i, g) == probe_at(start, j, g) {
        let ti = triangular(i);
        let tj = triangular(j);
        lemma_triangular_diff(i, j);
        let d = j - i;
        let s = i + j + 1;
        lemma_fundamental_div_mod(start + ti, g);
        lemma_fundamental_div_mod(start + tj, g);
        let qi = (start + ti) / g;
        let qj = (start + tj) / g;
        let q = qj - qi;
        assert(tj - ti == q * g) by (nonlinear_arith)
            requires
                start + ti == g * qi + (start + ti) % g,
                start + tj == g * qj + (start + tj) % g,
                (start + ti) % g == (start + tj) % g,
                q == qj - qi,
        ;
        let g2 = pow2((m + 1) as nat) as int;
        lemma_pow2_unfold((m + 1) as nat);
        assert(g2 == 2 * g);
        assert(d * s == q * g2) by (nonlinear_arith)
            requires
                2 * (tj - ti) == d * s,
                tj - ti == q * g,
                g2 == 2 * g,
        ;
        assert((d * s) % g2 == 0) by {
            lemma_mod_multiples_vanish(q, 0, g2);
            assert(g2 * q + 0 == d * s) by (nonlinear_arith)
                requires
                    d * s == q * g2,
            ;
            lemma_small_mod(0, g2 as nat);
        }
        if d % 2 == 1 {
            lemma_odd_factor_pow2((m + 1) as nat, d, s);
            lemma_small_mod(s as nat, g2 as nat);
        } else {
            assert(s % 2 == 1) by (nonlinear_arith)
                requires
                    d % 2 == 0,
                    d == j - i,
                    s == i + j + 1,
                    0 <= i < j,
            ;
            assert(s * d == d * s) by (nonlinear_arith);
            lemma_odd_factor_pow2((m + 1) as nat, s, d);
            lemma_small_mod(d as nat, g2 as nat);
        }
        assert(false);
    }
}

/// The set of groups visited by the first `k` steps of a probe sequence.
spec fn probe_image(start: int, g: int, k: int) -> Set<int> {
    Set::new(|x: int| exists|i: int| 0 <= i < k && probe_at(start, i, g) == x)
}

/// The first `k` steps visit `k` distinct groups.
proof fn lemma_probe_image_len(m: nat, start: int, k: int)
    requires
        0 <= start,
        0 <= k <= pow2(m) as int,
    ensures
        probe_image(start, pow2(m) as int, k).finite(),
        probe_image(start, pow2(m) as int, k).len() == k,
    decreases k,
{
    let g = pow2(m) as int;
    if k == 0 {
        assert(probe_image(start, g, 0) =~= Set::<int>::empty());
    } else {
        lemma_probe_image_len(m, start, k - 1);
        let prev = probe_image(start, g, k - 1);
        let x = probe_at(start, k - 1, g);
        assert(probe_image(start, g, k) =~= prev.insert(x)) by {
            assert forall|y: int| probe_image(start, g, k).contains(y) implies prev.insert(
                x,
            ).contains(y) by {
                let i = choose|i: int| 0 <= i < k && probe_at(start, i, g) == y;
                if i < k - 1 {
                    assert(prev.contains(y));
                }
            }
            assert forall|y: int| prev.insert(x).contains(y) implies probe_image(
                start,
                g,
                k,
            ).contains(y) by {
                if prev.contains(y) {
                    let i = choose|i: int| 0 <= i < k - 1 && probe_at(start, i, g) == y;
                    assert(0 <= i < k && probe_at(start, i, g) == y);
                } else {
                    assert(probe_at(start, k - 1, g) == y);
                }
            }
        }
        assert(!prev.contains(x)) by {
            if prev.contains(x) {
                let i = choose|i: int| 0 <= i < k - 1 && probe_at(start, i, g) == x;
                lemma_probe_distinct(m, start, i, k - 1);
            }
        }
        axiom_set_insert_len(prev, x);
    }
}

/// Every group is reached within `g` probe steps.
pub proof fn lemma_probe_covers(m: nat, start: int, target: int)
    requires
        0 <= start,
        0 <= target < pow2(m) as int,
    ensures
        exists|i: int|
            0 <= i < pow2(m) as int && probe_at(start, i, pow2(m) as int) == target,
{
    let g = pow2(m) as int;
    lemma_pow2_pos(m);
    lemma_probe_image_len(m, start, g);
    let image = probe_image(start, g, g);
    let range = set_int_range(0, g);
    lemma_int_range(0, g);
    assert forall|x: int| image.contains(x) implies range.contains(x) by {
        let i = choose|i: int| 0 <= i < g && probe_at(start, i, g) == x;
        lemma_triangular_double(i);
        lemma_mod_division_less_than_divisor(start + triangular(i), g);
    }
    if !image.contains(target) {
        let smaller = range.remove(target);
        assert(image.subset_of(smaller));
        lemma_len_subset(image, smaller);
        assert(smaller.len() == g - 1) by {
            vstd::set::axiom_set_remove_len(range, target);
        }
        assert(false);
    }
    let i = choose|i: int| 0 <= i < g && probe_at(start, i, g) == target;
    assert(0 <= i < g && probe_at(start, i, g) == target);
}

/// One step of the probe sequence: add the next triangular increment and
/// reduce modulo the group count.
pub proof fn lemma_probe_step(start: int, i: int, g: int)
    requires
        g > 0,
        0 <= start,
        0 <= i,
    ensures
        probe_at(start, i + 1, g) == (probe_at(start, i, g) + (i + 1)) % g,
{
    lemma_triangular_double(i);
    lemma_triangular_double(i + 1);
    assert((i + 1) * (i + 2) == i * (i + 1) + 2 * (i + 1)) by (nonlinear_arith);
    assert(triangular(i + 1) == triangular(i) + (i + 1));
    let x = start + triangular(i);
    lemma_fundamental_div_mod(x, g);
    let q = x / g;
    assert(x + (i + 1) == g * q + (x % g + (i + 1))) by (nonlinear_arith)
        requires
            x == g * q + x % g,
    ;
    lemma_mod_multiples_vanish(q, x % g + (i + 1), g);
}

/// Step zero of a probe sequence is its start group.
pub proof fn lemma_probe_zero(start: int, g: int)
    requires
        g > 0,
        0 <= start < g,
    ensures
        probe_at(start, 0, g) == start,
{
    lemma_small_mod(start as nat, g as nat);
}

/// Masking with `g - 1` reduces modulo `g` when `g` is a power of two:
/// the `usize` form used for stepping between groups.
pub proof fn lemma_mask_is_mod_usize(x: usize, g: usize, m: nat)
    requires
        m < usize::BITS,
        g == pow2(m),
    ensures
        x & ((g - 1) as usize) == x % g,
{
    lemma_pow2_pos(m);
    lemma_usize_low_bits_mask_is_mod(x, m);
}

/// Masking with `g - 1` reduces modulo `g` when `g` is a power of two:
/// the `u64` form used to pick the start group from a digest.
pub proof fn lemma_mask_is_mod_u64(x: u64, g: u64, m: nat)
    requires
        m < 64,
        g == pow2(m),
    ensures
        x & ((g - 1) as u64) == x % g,
{
    lemma_pow2_pos(m);
    lemma_u64_low_bits_mask_is_mod(x, m);
}

} // verus!
