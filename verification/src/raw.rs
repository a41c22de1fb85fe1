//! The open-addressing table: control-byte planes, group-wide matching,
//! triangular probing, and the public controller operations.

pub mod bitmask;
pub mod control;
pub mod group;
pub mod probe;

use crate::key::TableKey;
use crate::raw::bitmask::{
    lemma_bit_set_nonzero, lemma_no_bit_zero, lemma_remove_lowest_decreases,
    lemma_remove_lowest_effect, nth_bit,
};
use crate::raw::control::{
    count_empty, count_full, is_empty_byte, is_full_byte, lemma_count_full_positive,
    lemma_count_full_prefix_le, lemma_count_full_prefix_step, lemma_count_full_short,
    lemma_count_full_zero, lemma_counts_bounds, lemma_counts_push, lemma_counts_update,
};
use crate::raw::group::Group;
use crate::raw::probe::{
    lemma_mask_is_mod_u64, lemma_mask_is_mod_usize, lemma_probe_covers, lemma_probe_step,
    lemma_probe_zero, probe_at,
};
use vstd::arithmetic::div_mod::{
    lemma_fundamental_div_mod, lemma_mod_division_less_than_divisor,
};
use vstd::arithmetic::power2::{
    lemma2_to64, lemma_pow2_strictly_increases, lemma_pow2_unfold, pow2,
};
use vstd::layout::unsigned_int_max_values;
use vstd::prelude::*;

verus! {

/// Control byte of a slot that has never held an entry.
pub const EMPTY: u8 = 0b1111_1111;

/// Control byte of a slot whose entry was removed: a tombstone.
pub const DELETED: u8 = 0b1000_0000;

/// The 7-bit tag cached in the control byte of a full slot: the top seven
/// bits of the key's digest.
pub open spec fn spec_h2(digest: u64) -> u8 {
    ((digest >> 57) & 0x7f) as u8
}

/// A full control byte is the tag itself, so its high bit is clear.
pub proof fn lemma_h2_is_full(digest: u64)
    by (bit_vector)
    ensures
        spec_h2(digest) < 128,
{
}

/// Extracts the 7-bit tag from a digest.
pub fn h2(digest: u64) -> (t: u8)
    ensures
        t == spec_h2(digest),
        t < 128,
{
    proof {
        lemma_h2_is_full(digest);
    }
    ((digest >> 57) & 0x7f) as u8
}

/// One stored key-value pair.
#[derive(Clone, Copy)]
pub struct Entry<Key, Value> {
    key: Key,
    val: Value,
}

/// A vacant slot picked by the probe sequence for a fresh insertion.
pub struct InsertSlot {
    index: usize,
}

/// The open-addressing table: a plane of slots, a parallel plane of control
/// bytes, and the two counts the load-factor policy works from.
pub struct HashMap<Key, Val> {
    data: Vec<Option<Entry<Key, Val>>>,
    control_bytes: Vec<u8>,
    n_occupied: usize,
    n_empty: usize,
}

impl<Key: TableKey + Copy, Val: Copy> View for HashMap<Key, Val> {
    type V = Map<Key, Val>;

    /// The table abstracts to the map from the keys of its FULL slots to the
    /// values stored beside them.
    closed spec fn view(&self) -> Map<Key, Val> {
        Map::new(|k: Key| self.contains_spec(k), |k: Key| self.value_of(k))
    }
}

impl<Key: TableKey + Copy, Val: Copy> HashMap<Key, Val> {
    /// Total number of slots.
    pub closed spec fn spec_capacity(self) -> int {
        self.control_bytes@.len() as int
    }

    /// Number of 16-slot groups.
    pub closed spec fn num_groups(self) -> int {
        self.spec_capacity() / 16
    }

    /// Number of live entries.
    pub closed spec fn spec_len(self) -> nat {
        self.n_occupied as nat
    }

    /// The control byte of slot `i`.
    spec fn ctrl(self, i: int) -> u8 {
        self.control_bytes@[i]
    }

    /// Whether slot `i` holds a live entry.
    spec fn full_at(self, i: int) -> bool {
        is_full_byte(self.ctrl(i))
    }

    /// The key stored in slot `i`.
    spec fn key_at(self, i: int) -> Key {
        self.data@[i]->Some_0.key
    }

    /// The value stored in slot `i`.
    spec fn val_at(self, i: int) -> Val {
        self.data@[i]->Some_0.val
    }

    /// The start group of the probe sequence for key `k`.
    spec fn home_of(self, k: Key) -> int {
        (k.digest_spec() as int) % self.num_groups()
    }

    /// Whether the group `g` holds an EMPTY control byte.
    spec fn group_has_empty(self, g: int) -> bool {
        exists|o: int| 0 <= o < 16 && is_empty_byte(#[trigger] self.ctrl(g * 16 + o))
    }

    /// Step `j` of the probe sequence for `k` reaches group `g`, and no
    /// earlier step saw an EMPTY byte.  This is what makes a lookup that
    /// stops at the first EMPTY sound: a stored key is always found before
    /// any EMPTY byte on its own probe path.
    spec fn probe_cert(self, k: Key, g: int, j: int) -> bool {
        &&& 0 <= j < self.num_groups()
        &&& probe_at(self.home_of(k), j, self.num_groups()) == g
        &&& forall|t: int|
            0 <= t < j ==> !self.group_has_empty(
                probe_at(self.home_of(k), t, self.num_groups()),
            )
    }

    /// The entry of slot `i` can be found again by probing for its key.
    spec fn slot_reachable(self, i: int) -> bool {
        exists|j: int| #[trigger] self.probe_cert(self.key_at(i), i / 16, j)
    }

    /// Shape of the two planes: equal lengths, a power-of-two group count of
    /// at least four whole groups.
    spec fn wf_layout(self) -> bool {
        &&& self.data@.len() == self.spec_capacity()
        &&& 16 * self.num_groups() == self.spec_capacity()
        &&& exists|m: nat| m < usize::BITS && #[trigger] pow2(m) == self.num_groups()
        &&& self.num_groups() >= 4
    }

    /// Every control byte is FULL, EMPTY or DELETED, and agrees with its
    /// slot: a FULL byte caches the tag of the key stored beside it.
    spec fn wf_slots(self) -> bool {
        &&& forall|i: int|
            0 <= i < self.spec_capacity() ==> (#[trigger] self.ctrl(i) >= 128 ==> self.ctrl(i)
                == EMPTY || self.ctrl(i) == DELETED)
        &&& forall|i: int|
            0 <= i < self.spec_capacity() ==> (self.full_at(i) <==> (#[trigger] self.data@[i])
                is Some)
        &&& forall|i: int|
            0 <= i < self.spec_capacity() && #[trigger] self.full_at(i) ==> self.ctrl(i)
                == spec_h2(self.key_at(i).digest_spec())
    }

    /// The bookkeeping counts match the control plane, and the load-factor
    /// policy's bound holds: live and tombstoned slots together stay within
    /// 0.85 of capacity.
    spec fn wf_counts(self) -> bool {
        &&& self.n_occupied == count_full(self.control_bytes@)
        &&& self.n_empty == count_empty(self.control_bytes@)
        &&& (self.spec_capacity() - self.n_empty) * 20 <= 17 * self.spec_capacity()
    }

    /// No two FULL slots hold the same key.
    spec fn wf_keys(self) -> bool {
        forall|i: int, j: int|
            0 <= i < self.spec_capacity() && 0 <= j < self.spec_capacity() && i != j
                && #[trigger] self.full_at(i) && #[trigger] self.full_at(j) ==> self.key_at(i)
                != self.key_at(j)
    }

    /// Every stored entry can be probed to.
    spec fn wf_reach(self) -> bool {
        forall|i: int|
            0 <= i < self.spec_capacity() && #[trigger] self.full_at(i) ==> self.slot_reachable(i)
    }

    /// The table invariant.
    pub closed spec fn wf(self) -> bool {
        &&& self.wf_layout()
        &&& self.wf_slots()
        &&& self.wf_counts()
        &&& self.wf_keys()
        &&& self.wf_reach()
    }

    /// Some slot holds key `k`, namely slot `i`.
    spec fn has_key_at(self, k: Key, i: int) -> bool {
        0 <= i < self.spec_capacity() && self.full_at(i) && self.key_at(i) == k
    }

    /// Key `k` is stored somewhere in the table.
    spec fn contains_spec(self, k: Key) -> bool {
        exists|i: int| self.has_key_at(k, i)
    }

    /// The slot holding key `k`.
    spec fn index_of(self, k: Key) -> int {
        choose|i: int| self.has_key_at(k, i)
    }

    /// The value stored for key `k`.
    spec fn value_of(self, k: Key) -> Val {
        self.val_at(self.index_of(k))
    }

    /// A FULL slot determines one binding of the abstract map.
    proof fn lemma_view_at(self, i: int)
        requires
            self.wf(),
            0 <= i < self.spec_capacity(),
            self.full_at(i),
        ensures
            self@.contains_key(self.key_at(i)),
            self@[self.key_at(i)] == self.val_at(i),
            self.index_of(self.key_at(i)) == i,
    {
        let k = self.key_at(i);
        assert(self.has_key_at(k, i));
        let j = self.index_of(k);
        assert(self.has_key_at(k, j));
        if i != j {
            assert(self.key_at(i) != self.key_at(j));
        }
    }

    /// A control plane of `n` EMPTY bytes.
    fn empty_controls(n: usize) -> (v: Vec<u8>)
        ensures
            v@.len() == n,
            forall|i: int| 0 <= i < n ==> v@[i] == EMPTY,
            count_empty(v@) == n,
            count_full(v@) == 0,
    {
        let mut v: Vec<u8> = Vec::new();
        let mut i: usize = 0;
        while i < n
            invariant
                i <= n,
                v@.len() == i,
                forall|j: int| 0 <= j < i ==> v@[j] == EMPTY,
                count_empty(v@) == i,
                count_full(v@) == 0,
            decreases n - i,
        {
            proof {
                lemma_counts_push(v@, EMPTY);
            }
            v.push(EMPTY);
            i += 1;
        }
        v
    }

    /// A slot plane of `n` vacant slots.
    fn none_slots(n: usize) -> (v: Vec<Option<Entry<Key, Val>>>)
        ensures
            v@.len() == n,
            forall|i: int| 0 <= i < n ==> (#[trigger] v@[i]) is None,
    {
        let mut v: Vec<Option<Entry<Key, Val>>> = Vec::new();
        let mut i: usize = 0;
        while i < n
            invariant
                i <= n,
                v@.len() == i,
                forall|j: int| 0 <= j < i ==> (#[trigger] v@[j]) is None,
            decreases n - i,
        {
            v.push(None);
            i += 1;
        }
        v
    }

    /// Creates an empty table at the minimum capacity of 64 slots.
    pub fn new() -> (r: Self)
        ensures
            r.wf(),
            r@ == Map::<Key, Val>::empty(),
            r.spec_len() == 0,
    {
        let new_size: usize = 64;
        let r = Self {
            data: Self::none_slots(new_size),
            control_bytes: Self::empty_controls(new_size),
            n_occupied: 0,
            n_empty: new_size,
        };
        proof {
            assert(r.spec_capacity() == 64);
            assert(r.num_groups() == 4);
            lemma2_to64();
            assert(2nat < usize::BITS && pow2(2) == r.num_groups());
            assert(forall|i: int| 0 <= i < 64 ==> #[trigger] r.ctrl(i) == EMPTY);
            assert(forall|i: int| 0 <= i < 64 ==> !(#[trigger] r.full_at(i)));
            assert(r.wf());
            assert forall|k: Key| !r.contains_spec(k) by {
                if r.contains_spec(k) {
                    let i = choose|i: int| r.has_key_at(k, i);
                    assert(r.full_at(i));
                }
            }
            assert(r@ =~= Map::<Key, Val>::empty());
        }
        r
    }

    /// Number of live entries.
    pub fn len(&self) -> (n: usize)
        ensures
            n == self.spec_len(),
            self.wf() ==> n == self@.dom().len(),
    {
        proof {
            if self.wf() {
                self.lemma_len_is_view_len();
            }
        }
        self.n_occupied
    }

    /// Whether the table holds no entry.
    pub fn is_empty(&self) -> (b: bool)
        requires
            self.wf(),
        ensures
            b == (self.spec_len() == 0),
            b == (self@ == Map::<Key, Val>::empty()),
    {
        let b = self.n_occupied == 0;
        proof {
            if b {
                lemma_count_full_zero(self.control_bytes@);
                assert forall|k: Key| !self.contains_spec(k) by {
                    if self.contains_spec(k) {
                        let i = choose|i: int| self.has_key_at(k, i);
                        assert(is_full_byte(self.control_bytes@[i]));
                    }
                }
                assert(self@ =~= Map::<Key, Val>::empty());
            } else {
                lemma_count_full_positive(self.control_bytes@);
                let i = choose|i: int|
                    0 <= i < self.control_bytes@.len() && is_full_byte(self.control_bytes@[i]);
                assert(self.full_at(i));
                self.lemma_view_at(i);
                assert(self@.contains_key(self.key_at(i)));
                assert(self@ != Map::<Key, Val>::empty());
            }
        }
        b
    }

    /// Key `k` sits in some slot of group `g`.
    spec fn key_in_group(self, k: Key, g: int) -> bool {
        exists|o: int| 0 <= o < 16 && #[trigger] self.has_key_at(k, g * 16 + o)
    }

    /// If the probe for `k` saw neither an EMPTY byte nor a slot holding `k`
    /// in the groups it visited — all of them, or all up to one that was
    /// scanned and does hold an EMPTY byte — then `k` is nowhere in the
    /// table.
    proof fn lemma_key_nowhere(self, k: Key, i: int)
        requires
            self.wf(),
            0 <= i <= self.num_groups(),
            forall|t: int|
                0 <= t < i ==> !self.key_in_group(k, probe_at(self.home_of(k), t, self.num_groups())),
            forall|t: int|
                0 <= t < i ==> !self.group_has_empty(
                    probe_at(self.home_of(k), t, self.num_groups()),
                ),
            i < self.num_groups() ==> self.group_has_empty(
                probe_at(self.home_of(k), i, self.num_groups()),
            ) && !self.key_in_group(k, probe_at(self.home_of(k), i, self.num_groups())),
        ensures
            !self.contains_spec(k),
    {
        if self.contains_spec(k) {
            let s = choose|s: int| self.has_key_at(k, s);
            assert(self.full_at(s));
            assert(self.slot_reachable(s));
            let j = choose|j: int| #[trigger] self.probe_cert(self.key_at(s), s / 16, j);
            let g = self.num_groups();
            let home = self.home_of(k);
            assert(self.key_at(s) == k);
            lemma_fundamental_div_mod(s, 16);
            lemma_mod_division_less_than_divisor(s, 16);
            let o = s % 16;
            assert(s == (s / 16) * 16 + o);
            assert(self.has_key_at(k, (s / 16) * 16 + o));
            assert(self.key_in_group(k, s / 16));
            if j < i {
                assert(probe_at(home, j, g) == s / 16);
                assert(false);
            } else if i < g && j == i {
                assert(false);
            } else {
                assert(i < g && j > i);
                assert(!self.group_has_empty(probe_at(home, i, g)));
                assert(false);
            }
        }
    }

    /// Computes the digest of a key: the injected hashing capability.
    fn get_hash(key: &Key) -> (d: u64)
        ensures
            d == key.digest_spec(),
    {
        key.digest()
    }

    /// Walks the probe sequence for `key`: in each group, compares the full
    /// key at every tag match, and gives up at the first group that holds an
    /// EMPTY byte.
    fn get_index(&self, key: &Key) -> (r: Option<usize>)
        requires
            self.wf(),
        ensures
            match r {
                Some(i) => self.has_key_at(*key, i as int),
                None => !self.contains_spec(*key),
            },
    {
        let hash = Self::get_hash(key);
        let h2_hash = h2(hash);
        let number_of_groups = self.control_bytes.len() / 16;
        let ghost g = self.num_groups();
        let ghost home = self.home_of(*key);
        proof {
            assert(number_of_groups == g);
            lemma_mod_division_less_than_divisor(hash as int, g);
        }
        let masked: u64 = hash & ((number_of_groups as u64) - 1);
        proof {
            let m = choose|m: nat| m < usize::BITS && pow2(m) == g;
            lemma_mask_is_mod_u64(hash, number_of_groups as u64, m);
            assert(masked == home);
            lemma_probe_zero(home, g);
        }
        let mut target_group: usize = masked as usize;
        let mut i: usize = 0;
        while i < number_of_groups
            invariant
                self.wf(),
                hash == key.digest_spec(),
                h2_hash == spec_h2(hash),
                g == self.num_groups(),
                number_of_groups == g,
                16 * g == self.spec_capacity(),
                self.spec_capacity() <= usize::MAX,
                home == self.home_of(*key),
                0 <= home < g,
                i <= number_of_groups,
                target_group == probe_at(home, i as int, g),
                0 <= target_group < g,
                forall|t: int| 0 <= t < i ==> !self.group_has_empty(probe_at(home, t, g)),
                forall|t: int| 0 <= t < i ==> !self.key_in_group(*key, probe_at(home, t, g)),
            decreases number_of_groups - i,
        {
            let group_base_index = target_group * 16;
            let gr = Group::load(&self.control_bytes, group_base_index);
            proof {
                assert(forall|o: int|
                    0 <= o < 16 ==> gr.byte(o) == self.ctrl(group_base_index + o));
            }
            let mut mask = gr.match_byte(h2_hash);
            let ghost mask0 = mask.0;
            let ghost mut th: u16 = 0;
            while mask.0 != 0
                invariant
                    self.wf(),
                    hash == key.digest_spec(),
                    h2_hash == spec_h2(hash),
                    g == self.num_groups(),
                    16 * g == self.spec_capacity(),
                    0 <= target_group < g,
                    group_base_index == target_group * 16,
                    group_base_index + 16 <= self.spec_capacity(),
                    forall|o: int| 0 <= o < 16 ==> gr.byte(o) == self.ctrl(group_base_index + o),
                    forall|o: u16|
                        o < 16 ==> (#[trigger] nth_bit(mask0, o) <==> gr.byte(o as int)
                            == h2_hash),
                    forall|o: u16|
                        #[trigger] nth_bit(mask.0, o) <==> (nth_bit(mask0, o) && o >= th),
                    forall|o: u16|
                        o < th && #[trigger] nth_bit(mask0, o) ==> self.key_at(
                            group_base_index + o as int,
                        ) != *key,
                decreases mask.0,
            {
                let ghost pre = mask.0;
                let ghost old_th = th;
                match mask.lowest_set_bit() {
                    Some(b) => {
                        let index = group_base_index + b;
                        proof {
                            assert(nth_bit(mask.0, b as u16));
                            assert(nth_bit(mask0, b as u16));
                            assert(gr.byte(b as int) == h2_hash);
                            assert(self.ctrl(index as int) == h2_hash);
                            lemma_h2_is_full(hash);
                            assert(self.full_at(index as int));
                            assert(self.data@[index as int] is Some);
                        }
                        match &self.data[index] {
                            Some(e) => {
                                if e.key.key_eq(key) {
                                    proof {
                                        assert(self.has_key_at(*key, index as int));
                                    }
                                    return Some(index);
                                }
                                proof {
                                    assert(self.key_at(index as int) != *key);
                                }
                            },
                            None => {
                                proof {
                                    assert(false);
                                }
                            },
                        }
                        mask = mask.remove_lowest_bit();
                        proof {
                            lemma_remove_lowest_effect(pre, b as u16);
                            lemma_remove_lowest_decreases(pre);
                            th = (b + 1) as u16;
                            assert(nth_bit(pre, b as u16) && b as u16 >= old_th);
                            assert forall|o: u16| #[trigger]
                                nth_bit(mask.0, o) <==> (nth_bit(mask0, o) && o >= th) by {
                                if nth_bit(mask.0, o) {
                                    assert(nth_bit(pre, o) && o != b as u16);
                                    assert(nth_bit(mask0, o) && o >= old_th);
                                    if o < b as u16 {
                                        assert(!nth_bit(pre, o));
                                    }
                                }
                                if nth_bit(mask0, o) && o >= th {
                                    assert(o > b as u16);
                                    assert(o >= old_th);
                                    assert(nth_bit(pre, o));
                                    assert(nth_bit(mask.0, o));
                                }
                            }
                            assert forall|o: u16|
                                o < th && #[trigger] nth_bit(mask0, o) implies self.key_at(
                                group_base_index + o as int,
                            ) != *key by {
                                if o >= old_th {
                                    assert(nth_bit(pre, o));
                                    if o < b as u16 {
                                        assert(!nth_bit(pre, o));
                                    }
                                    assert(o == b as u16);
                                }
                            }
                        }
                    },
                    None => {
                        proof {
                            assert(false);
                        }
                    },
                }
            }
            proof {
                assert forall|o: int|
                    0 <= o < 16 implies !(#[trigger] self.has_key_at(
                    *key,
                    group_base_index + o,
                )) by {
                    if self.has_key_at(*key, group_base_index + o) {
                        assert(self.full_at(group_base_index + o));
                        assert(self.ctrl(group_base_index + o) == spec_h2(
                            self.key_at(group_base_index + o).digest_spec(),
                        ));
                        assert(self.ctrl(group_base_index + o) == h2_hash);
                        assert(gr.byte(o) == h2_hash);
                        assert(nth_bit(mask0, o as u16));
                        if nth_bit(mask.0, o as u16) {
                            lemma_bit_set_nonzero(mask.0, o as u16);
                        }
                        assert(!nth_bit(mask.0, o as u16));
                        assert((o as u16) < th);
                        assert(self.key_at(group_base_index + o) != *key);
                    }
                }
                assert forall|o: int|
                    0 <= o < 16 implies !(#[trigger] self.has_key_at(
                    *key,
                    (target_group as int) * 16 + o,
                )) by {
                    assert((target_group as int) * 16 + o == group_base_index + o);
                }
                assert(!self.key_in_group(*key, target_group as int));
            }
            let em = gr.match_empty();
            if em.any_bit_set() {
                proof {
                    if !self.group_has_empty(target_group as int) {
                        assert forall|o: u16| !nth_bit(em.0, o) by {
                            if nth_bit(em.0, o) {
                                assert(o < 16);
                                assert(gr.byte(o as int) == EMPTY);
                                assert(is_empty_byte(
                                    self.ctrl((target_group as int) * 16 + o as int),
                                ));
                                assert(self.group_has_empty(target_group as int));
                            }
                        }
                        lemma_no_bit_zero(em.0);
                        assert(false);
                    }
                    self.lemma_key_nowhere(*key, i as int);
                }
                return None;
            }
            proof {
                assert forall|o: int|
                    0 <= o < 16 implies !is_empty_byte(
                    #[trigger] self.ctrl((target_group as int) * 16 + o),
                ) by {
                    if is_empty_byte(self.ctrl((target_group as int) * 16 + o)) {
                        assert(gr.byte(o) == EMPTY);
                        assert(nth_bit(em.0, o as u16));
                        lemma_bit_set_nonzero(em.0, o as u16);
                    }
                }
                assert(!self.group_has_empty(target_group as int));
                lemma_probe_step(home, i as int, g);
                let m = choose|m: nat| m < usize::BITS && pow2(m) == g;
                lemma_mask_is_mod_usize((target_group + i + 1) as usize, number_of_groups, m);
                lemma_mod_division_less_than_divisor((target_group + i + 1) as int, g);
            }
            target_group = (target_group + i + 1) & (number_of_groups - 1);
            i += 1;
        }
        proof {
            self.lemma_key_nowhere(*key, i as int);
        }
        None
    }

    /// Looks the key up, returning a reference to its value if present.
    pub fn get(&self, key: &Key) -> (r: Option<&Val>)
        requires
            self.wf(),
        ensures
            match r {
                Some(v) => self@.contains_key(*key) && *v == self@[*key],
                None => !self@.contains_key(*key),
            },
    {
        if self.n_occupied == 0 {
            proof {
                lemma_count_full_zero(self.control_bytes@);
                assert forall|i: int| !self.has_key_at(*key, i) by {
                    if self.has_key_at(*key, i) {
                        assert(is_full_byte(self.control_bytes@[i]));
                    }
                }
            }
            return None;
        }
        let idx = self.get_index(key);
        match idx {
            Some(index) => {
                proof {
                    self.lemma_view_at(index as int);
                }
                match &self.data[index] {
                    Some(e) => Some(&e.val),
                    None => {
                        proof {
                            assert(false);
                        }
                        None
                    },
                }
            },
            None => None,
        }
    }

    /// Group `g` holds an EMPTY or DELETED byte.
    spec fn group_has_special(self, g: int) -> bool {
        exists|o: int| 0 <= o < 16 && #[trigger] self.ctrl(g * 16 + o) >= 128
    }

    /// Picks the lowest EMPTY-or-DELETED slot of a loaded group, if any.
    fn find_insert_slot_in_group(&self, group: &Group, group_base: usize) -> (r: Option<usize>)
        requires
            self.wf(),
            self.spec_capacity() <= usize::MAX,
            group_base + 16 <= self.spec_capacity(),
            forall|o: int| 0 <= o < 16 ==> group.byte(o) == self.ctrl(group_base + o),
        ensures
            match r {
                Some(idx) => group_base <= idx < group_base + 16 && self.ctrl(idx as int) >= 128,
                None => forall|o: int| 0 <= o < 16 ==> #[trigger] self.ctrl(group_base + o) < 128,
            },
    {
        let mask = group.match_empty_or_deleted();
        match mask.lowest_set_bit() {
            Some(b) => {
                proof {
                    assert(nth_bit(mask.0, b as u16));
                    assert(group.byte(b as int) >= 128);
                }
                Some(group_base + b)
            },
            None => {
                proof {
                    assert forall|o: int| 0 <= o < 16 implies #[trigger] self.ctrl(group_base + o)
                        < 128 by {
                        if self.ctrl(group_base + o) >= 128 {
                            assert(group.byte(o) >= 128);
                            assert(nth_bit(mask.0, o as u16));
                            lemma_bit_set_nonzero(mask.0, o as u16);
                        }
                    }
                }
                None
            },
        }
    }

    /// Walks the probe sequence for `hash` to the first group with a vacant
    /// slot; under the load-factor bound one always exists.
    fn find_insert_slot(&self, hash: u64) -> (slot: InsertSlot)
        requires
            self.wf(),
            self.n_occupied < self.spec_capacity(),
        ensures
            0 <= slot.index < self.spec_capacity(),
            self.ctrl(slot.index as int) >= 128,
            !self.full_at(slot.index as int),
            exists|j: int|
                0 <= j < self.num_groups() && #[trigger] probe_at(
                    (hash as int) % self.num_groups(),
                    j,
                    self.num_groups(),
                ) == slot.index as int / 16 && (forall|t: int|
                    0 <= t < j ==> !self.group_has_special(
                        #[trigger] probe_at((hash as int) % self.num_groups(), t, self.num_groups()),
                    )),
    {
        let number_of_groups = self.control_bytes.len() / 16;
        let ghost g = self.num_groups();
        let ghost start = (hash as int) % g;
        proof {
            assert(number_of_groups == g);
            lemma_mod_division_less_than_divisor(hash as int, g);
        }
        let masked: u64 = hash & ((number_of_groups as u64) - 1);
        proof {
            let m = choose|m: nat| m < usize::BITS && pow2(m) == g;
            lemma_mask_is_mod_u64(hash, number_of_groups as u64, m);
            assert(masked == start);
            lemma_probe_zero(start, g);
        }
        let mut target_group: usize = masked as usize;
        let mut i: usize = 0;
        while i < number_of_groups
            invariant
                self.wf(),
                g == self.num_groups(),
                number_of_groups == g,
                16 * g == self.spec_capacity(),
                self.spec_capacity() <= usize::MAX,
                start == (hash as int) % g,
                0 <= start < g,
                i <= number_of_groups,
                target_group == probe_at(start, i as int, g),
                0 <= target_group < g,
                forall|t: int| 0 <= t < i ==> !self.group_has_special(probe_at(start, t, g)),
            decreases number_of_groups - i,
        {
            let group_base_index = target_group * 16;
            let gr = Group::load(&self.control_bytes, group_base_index);
            proof {
                assert(forall|o: int|
                    0 <= o < 16 ==> gr.byte(o) == self.ctrl(group_base_index + o));
            }
            let index_opt = self.find_insert_slot_in_group(&gr, group_base_index);
            match index_opt {
                Some(idx) => {
                    proof {
                        lemma_fundamental_div_mod(idx as int, 16);
                        lemma_mod_division_less_than_divisor(idx as int, 16);
                        assert(idx as int / 16 == target_group as int) by {
                            let o = idx as int - group_base_index;
                            assert(idx as int == (target_group as int) * 16 + o);
                            assert(0 <= o < 16);
                            vstd::arithmetic::div_mod::lemma_div_multiples_vanish_fancy(
                                target_group as int,
                                o,
                                16,
                            );
                        }
                        assert(probe_at(start, i as int, g) == idx as int / 16);
                        assert(!self.full_at(idx as int));
                    }
                    return InsertSlot { index: idx };
                },
                None => {
                    proof {
                        assert forall|o: int|
                            0 <= o < 16 implies !(#[trigger] self.ctrl(
                            (target_group as int) * 16 + o,
                        ) >= 128) by {
                            assert((target_group as int) * 16 + o == group_base_index + o);
                            assert(self.ctrl(group_base_index + o) < 128);
                        }
                        assert(!self.group_has_special(target_group as int));
                        lemma_probe_step(start, i as int, g);
                        let m = choose|m: nat| m < usize::BITS && pow2(m) == g;
                        lemma_mask_is_mod_usize(
                            (target_group + i + 1) as usize,
                            number_of_groups,
                            m,
                        );
                        lemma_mod_division_less_than_divisor((target_group + i + 1) as int, g);
                    }
                    target_group = (target_group + i + 1) & (number_of_groups - 1);
                    i += 1;
                },
            }
        }
        proof {
            lemma_counts_bounds(self.control_bytes@);
            lemma_count_full_short(self.control_bytes@);
            let v = choose|v: int|
                0 <= v < self.control_bytes@.len() && !is_full_byte(self.control_bytes@[v]);
            lemma_fundamental_div_mod(v, 16);
            lemma_mod_division_less_than_divisor(v, 16);
            let gv = v / 16;
            assert(0 <= gv < g) by {
                vstd::arithmetic::div_mod::lemma_div_by_multiple_is_strongly_ordered(
                    v,
                    self.spec_capacity(),
                    g,
                    16,
                );
            }
            let m = choose|m: nat| m < usize::BITS && pow2(m) == g;
            lemma_probe_covers(m, start, gv);
            let t = choose|t: int| 0 <= t < g && probe_at(start, t, g) == gv;
            assert(!self.group_has_special(probe_at(start, t, g)));
            assert(self.ctrl(gv * 16 + (v % 16)) >= 128);
            assert(false);
        }
        InsertSlot { index: 0 }
    }

    /// Writes the FULL control byte for a fresh entry and adjusts the
    /// counts.
    fn record_item_insert_at(&mut self, index: usize, hash: u64)
        requires
            old(self).control_bytes@.len() <= usize::MAX,
            index < old(self).control_bytes@.len(),
            old(self).n_occupied == count_full(old(self).control_bytes@),
            old(self).n_empty == count_empty(old(self).control_bytes@),
            !is_full_byte(old(self).control_bytes@[index as int]),
        ensures
            final(self).control_bytes@ == old(self).control_bytes@.update(
                index as int,
                spec_h2(hash),
            ),
            final(self).data == old(self).data,
            final(self).n_occupied == old(self).n_occupied + 1,
            final(self).n_empty == old(self).n_empty - (if is_empty_byte(
                old(self).control_bytes@[index as int],
            ) {
                1int
            } else {
                0int
            }),
    {
        proof {
            lemma_h2_is_full(hash);
            lemma_counts_update(self.control_bytes@, index as int, spec_h2(hash));
            lemma_counts_bounds(self.control_bytes@.update(index as int, spec_h2(hash)));
            lemma_counts_update(self.control_bytes@, index as int, DELETED);
            lemma_counts_bounds(self.control_bytes@.update(index as int, DELETED));
        }
        let was_empty = self.control_bytes[index] == EMPTY;
        let tag = h2(hash);
        self.control_bytes[index] = tag;
        self.n_occupied += 1;
        if was_empty {
            self.n_empty -= 1;
        }
    }

    /// Stores a fresh entry in the vacant slot the probe found.
    fn insert_in_slot(&mut self, hash: u64, slot: InsertSlot, entry: Entry<Key, Val>) -> (r: Entry<
        Key,
        Val,
    >)
        requires
            old(self).control_bytes@.len() <= usize::MAX,
            slot.index < old(self).control_bytes@.len(),
            slot.index < old(self).data@.len(),
            old(self).n_occupied == count_full(old(self).control_bytes@),
            old(self).n_empty == count_empty(old(self).control_bytes@),
            !is_full_byte(old(self).control_bytes@[slot.index as int]),
        ensures
            final(self).control_bytes@ == old(self).control_bytes@.update(
                slot.index as int,
                spec_h2(hash),
            ),
            final(self).data@ == old(self).data@.update(slot.index as int, Some(entry)),
            final(self).n_occupied == old(self).n_occupied + 1,
            final(self).n_empty == old(self).n_empty - (if is_empty_byte(
                old(self).control_bytes@[slot.index as int],
            ) {
                1int
            } else {
                0int
            }),
            r == entry,
    {
        self.record_item_insert_at(slot.index, hash);
        self.data[slot.index] = Some(entry);
        entry
    }

    /// Effect on the invariant and on the abstract map of overwriting the
    /// value of a slot that already holds the key.
    proof fn lemma_overwrite_update(pre: Self, post: Self, index: int, key: Key, val: Val)
        requires
            pre.wf(),
            pre.has_key_at(key, index),
            post.control_bytes@ == pre.control_bytes@,
            post.data@ == pre.data@.update(index, Some((Entry { key, val }))),
            post.n_occupied == pre.n_occupied,
            post.n_empty == pre.n_empty,
        ensures
            post.wf(),
            post@ == pre@.insert(key, val),
            post.spec_len() == pre.spec_len(),
    {
        let cap = pre.spec_capacity();
        assert(post.spec_capacity() == cap);
        assert(forall|x: int| 0 <= x < cap ==> post.ctrl(x) == pre.ctrl(x));
        assert(forall|x: int|
            0 <= x < cap && x != index ==> post.data@[x] == pre.data@[x] && post.key_at(x)
                == pre.key_at(x) && post.val_at(x) == pre.val_at(x));
        assert(post.key_at(index) == key && post.val_at(index) == val);
        assert(pre.key_at(index) == key);
        assert(forall|x: int| 0 <= x < cap ==> post.key_at(x) == pre.key_at(x));
        assert(forall|x: int| 0 <= x < cap ==> (post.full_at(x) <==> pre.full_at(x)));
        assert(post.wf_layout());
        assert(post.wf_slots());
        assert(post.wf_counts());
        assert(post.wf_keys());
        assert forall|x: int| 0 <= x < cap && #[trigger] post.full_at(x) implies post.slot_reachable(
            x,
        ) by {
            assert(pre.full_at(x));
            assert(pre.slot_reachable(x));
            let j = choose|j: int| #[trigger] pre.probe_cert(pre.key_at(x), x / 16, j);
            assert(post.home_of(post.key_at(x)) == pre.home_of(pre.key_at(x)));
            assert forall|t: int| 0 <= t < j implies !post.group_has_empty(
                #[trigger] probe_at(post.home_of(post.key_at(x)), t, post.num_groups()),
            ) by {
                let gt = probe_at(pre.home_of(pre.key_at(x)), t, pre.num_groups());
                assert(!pre.group_has_empty(gt));
                if post.group_has_empty(gt) {
                    let o = choose|o: int|
                        0 <= o < 16 && is_empty_byte(#[trigger] post.ctrl(gt * 16 + o));
                    assert(pre.ctrl(gt * 16 + o) == post.ctrl(gt * 16 + o));
                }
            }
            assert(post.probe_cert(post.key_at(x), x / 16, j));
        }
        assert(post.wf());
        assert forall|k: Key| post.contains_spec(k) <==> (pre.contains_spec(k) || k == key) by {
            if post.contains_spec(k) {
                let i = choose|i: int| post.has_key_at(k, i);
                if i == index {
                    assert(k == key);
                } else {
                    assert(pre.has_key_at(k, i));
                }
            }
            if pre.contains_spec(k) {
                let i = choose|i: int| pre.has_key_at(k, i);
                assert(post.has_key_at(k, i));
            }
            if k == key {
                assert(post.has_key_at(k, index));
            }
        }
        assert(pre.contains_spec(key));
        assert forall|k: Key| #[trigger]
            post.contains_spec(k) && k != key implies post.value_of(k) == pre.value_of(k)
            && pre.contains_spec(k) by {
            let i = choose|i: int| post.has_key_at(k, i);
            assert(i != index);
            assert(pre.has_key_at(k, i));
            post.lemma_view_at(i);
            pre.lemma_view_at(i);
        }
        post.lemma_view_at(index);
        assert(post@ =~= pre@.insert(key, val));
    }

    /// Effect on the invariant and on the abstract map of storing a fresh
    /// key in a vacant slot found on its probe path.
    proof fn lemma_insert_update(
        pre: Self,
        post: Self,
        index: int,
        key: Key,
        val: Val,
        j: int,
        hash: u64,
    )
        requires
            pre.wf(),
            0 <= index < pre.spec_capacity(),
            !pre.full_at(index),
            !pre.contains_spec(key),
            hash == key.digest_spec(),
            post.control_bytes@ == pre.control_bytes@.update(index, spec_h2(hash)),
            post.data@ == pre.data@.update(index, Some((Entry { key, val }))),
            post.n_occupied == pre.n_occupied + 1,
            post.n_empty == pre.n_empty - (if is_empty_byte(pre.ctrl(index)) {
                1int
            } else {
                0int
            }),
            (pre.spec_capacity() - pre.n_empty + 1) * 20 <= 17 * pre.spec_capacity(),
            0 <= j < pre.num_groups(),
            probe_at(pre.home_of(key), j, pre.num_groups()) == index / 16,
            forall|t: int|
                0 <= t < j ==> !pre.group_has_special(
                    #[trigger] probe_at(pre.home_of(key), t, pre.num_groups()),
                ),
        ensures
            post.wf(),
            post@ == pre@.insert(key, val),
            post.spec_len() == pre.spec_len() + 1,
    {
        let cap = pre.spec_capacity();
        assert(post.spec_capacity() == cap);
        assert(post.num_groups() == pre.num_groups());
        lemma_h2_is_full(hash);
        assert(forall|x: int| 0 <= x < cap && x != index ==> post.ctrl(x) == pre.ctrl(x));
        assert(post.ctrl(index) == spec_h2(hash));
        assert(post.full_at(index));
        assert(forall|x: int|
            0 <= x < cap && x != index ==> post.data@[x] == pre.data@[x] && post.key_at(x)
                == pre.key_at(x) && post.val_at(x) == pre.val_at(x));
        assert(post.key_at(index) == key && post.val_at(index) == val);
        assert(post.wf_layout());
        assert(post.wf_slots());
        lemma_counts_update(pre.control_bytes@, index, spec_h2(hash));
        assert(post.wf_counts());
        assert forall|x: int|
            0 <= x < cap && x != index && #[trigger] post.full_at(x) implies post.key_at(x)
            != key by {
            if post.key_at(x) == key {
                assert(pre.full_at(x));
                assert(pre.has_key_at(key, x));
            }
        }
        assert(post.wf_keys());
        assert forall|g: int|
            0 <= g < pre.num_groups() && !pre.group_has_empty(g) implies !post.group_has_empty(
            g,
        ) by {
            if post.group_has_empty(g) {
                let o = choose|o: int|
                    0 <= o < 16 && is_empty_byte(#[trigger] post.ctrl(g * 16 + o));
                if g * 16 + o == index {
                    assert(!is_empty_byte(post.ctrl(index)));
                } else {
                    assert(0 <= g * 16 + o < cap);
                    assert(pre.ctrl(g * 16 + o) == post.ctrl(g * 16 + o));
                }
            }
        }
        assert forall|x: int| 0 <= x < cap && #[trigger] post.full_at(x) implies post.slot_reachable(
            x,
        ) by {
            if x == index {
                assert(post.home_of(key) == pre.home_of(key));
                assert forall|t: int| 0 <= t < j implies !post.group_has_empty(
                    #[trigger] probe_at(post.home_of(key), t, post.num_groups()),
                ) by {
                    let gt = probe_at(pre.home_of(key), t, pre.num_groups());
                    lemma_mod_division_less_than_divisor(
                        pre.home_of(key) + crate::raw::probe::triangular(t),
                        pre.num_groups(),
                    );
                    assert(!pre.group_has_special(gt));
                    if post.group_has_empty(gt) {
                        let o = choose|o: int|
                            0 <= o < 16 && is_empty_byte(#[trigger] post.ctrl(gt * 16 + o));
                        if gt * 16 + o == index {
                            assert(!is_empty_byte(post.ctrl(index)));
                        } else {
                            assert(0 <= gt * 16 + o < cap);
                            assert(pre.ctrl(gt * 16 + o) == post.ctrl(gt * 16 + o));
                            assert(pre.ctrl(gt * 16 + o) >= 128);
                        }
                    }
                }
                assert(post.probe_cert(key, index / 16, j));
                assert(post.slot_reachable(index));
            } else {
                assert(pre.full_at(x));
                assert(pre.slot_reachable(x));
                let jx = choose|jx: int| #[trigger] pre.probe_cert(pre.key_at(x), x / 16, jx);
                assert(post.key_at(x) == pre.key_at(x));
                assert(post.home_of(post.key_at(x)) == pre.home_of(pre.key_at(x)));
                assert forall|t: int| 0 <= t < jx implies !post.group_has_empty(
                    #[trigger] probe_at(post.home_of(post.key_at(x)), t, post.num_groups()),
                ) by {
                    let gt = probe_at(pre.home_of(pre.key_at(x)), t, pre.num_groups());
                    lemma_mod_division_less_than_divisor(
                        pre.home_of(pre.key_at(x)) + crate::raw::probe::triangular(t),
                        pre.num_groups(),
                    );
                    assert(!pre.group_has_empty(gt));
                }
                assert(post.probe_cert(post.key_at(x), x / 16, jx));
                assert(post.slot_reachable(x));
            }
        }
        assert(post.wf());
        assert forall|k: Key| post.contains_spec(k) <==> (pre.contains_spec(k) || k == key) by {
            if post.contains_spec(k) {
                let i = choose|i: int| post.has_key_at(k, i);
                if i == index {
                    assert(k == key);
                } else {
                    assert(pre.has_key_at(k, i));
                }
            }
            if pre.contains_spec(k) {
                let i = choose|i: int| pre.has_key_at(k, i);
                assert(i != index);
                assert(post.has_key_at(k, i));
            }
            if k == key {
                assert(post.has_key_at(k, index));
            }
        }
        assert forall|k: Key| #[trigger]
            post.contains_spec(k) && k != key implies post.value_of(k) == pre.value_of(k)
            && pre.contains_spec(k) by {
            let i = choose|i: int| post.has_key_at(k, i);
            assert(i != index);
            assert(pre.has_key_at(k, i));
            post.lemma_view_at(i);
            pre.lemma_view_at(i);
        }
        post.lemma_view_at(index);
        assert(post@ =~= pre@.insert(key, val));
    }

    /// Inserts without consulting the load-factor policy: overwrite in place
    /// when the key is present, else store it in the first vacant slot on
    /// its probe path.
    fn insert_helper(&mut self, key: Key, val: Val) -> (r: Option<Val>)
        requires
            old(self).wf(),
            (old(self).spec_capacity() - old(self).n_empty + 1) * 20
                <= 17 * old(self).spec_capacity(),
        ensures
            final(self).wf(),
            final(self)@ == old(self)@.insert(key, val),
            r == (if old(self)@.contains_key(key) {
                Some(old(self)@[key])
            } else {
                None::<Val>
            }),
            final(self).spec_capacity() == old(self).spec_capacity(),
            old(self)@.contains_key(key) ==> final(self).n_occupied == old(self).n_occupied
                && final(self).n_empty == old(self).n_empty,
            !old(self)@.contains_key(key) ==> final(self).n_occupied == old(self).n_occupied + 1
                && old(self).n_empty - 1 <= final(self).n_empty <= old(self).n_empty,
            !old(self)@.contains_key(key) && old(self).n_occupied + old(self).n_empty
                == old(self).spec_capacity() ==> final(self).n_occupied + final(self).n_empty
                == final(self).spec_capacity(),
    {
        let ghost pre = *self;
        let hash = Self::get_hash(&key);
        let _plane_len = self.control_bytes.len();
        let entry_exists = self.get_index(&key);
        match entry_exists {
            Some(index) => {
                proof {
                    pre.lemma_view_at(index as int);
                }
                let old_val = match &self.data[index] {
                    Some(e) => e.val,
                    None => {
                        proof {
                            assert(false);
                        }
                        val
                    },
                };
                self.data[index] = Some(Entry { key, val });
                proof {
                    Self::lemma_overwrite_update(pre, *self, index as int, key, val);
                }
                Some(old_val)
            },
            None => {
                proof {
                    lemma_counts_bounds(self.control_bytes@);
                }
                let slot = self.find_insert_slot(hash);
                let ghost j = choose|j: int|
                    0 <= j < pre.num_groups() && #[trigger] probe_at(
                        (hash as int) % pre.num_groups(),
                        j,
                        pre.num_groups(),
                    ) == slot.index as int / 16 && (forall|t: int|
                        0 <= t < j ==> !pre.group_has_special(
                            #[trigger] probe_at((hash as int) % pre.num_groups(), t, pre.num_groups()),
                        ));
                self.insert_in_slot(hash, slot, Entry { key, val });
                proof {
                    assert(pre.home_of(key) == (hash as int) % pre.num_groups());
                    Self::lemma_insert_update(pre, *self, slot.index as int, key, val, j, hash);
                    if pre.n_occupied + pre.n_empty == pre.spec_capacity() {
                        crate::raw::control::lemma_counts_cover(pre.control_bytes@);
                        assert(is_empty_byte(pre.ctrl(slot.index as int)));
                    }
                }
                None
            },
        }
    }

    /// Effect on the invariant and on the abstract map of turning a FULL
    /// slot into a tombstone.
    proof fn lemma_remove_update(pre: Self, post: Self, index: int)
        requires
            pre.wf(),
            0 <= index < pre.spec_capacity(),
            pre.full_at(index),
            post.control_bytes@ == pre.control_bytes@.update(index, DELETED),
            post.data@ == pre.data@.update(index, None),
            post.n_occupied == pre.n_occupied - 1,
            post.n_empty == pre.n_empty,
        ensures
            post.wf(),
            post@ == pre@.remove(pre.key_at(index)),
            post.spec_len() == pre.spec_len() - 1,
    {
        let cap = pre.spec_capacity();
        let key = pre.key_at(index);
        assert(post.spec_capacity() == cap);
        assert(forall|x: int| 0 <= x < cap && x != index ==> post.ctrl(x) == pre.ctrl(x));
        assert(post.ctrl(index) == DELETED);
        assert(!post.full_at(index));
        assert(forall|x: int|
            0 <= x < cap && x != index ==> post.data@[x] == pre.data@[x] && post.key_at(x)
                == pre.key_at(x) && post.val_at(x) == pre.val_at(x));
        assert(post.wf_layout());
        assert(post.wf_slots());
        lemma_counts_update(pre.control_bytes@, index, DELETED);
        assert(post.wf_counts());
        assert(post.wf_keys());
        assert forall|x: int| 0 <= x < cap && #[trigger] post.full_at(x) implies post.slot_reachable(
            x,
        ) by {
            assert(x != index);
            assert(pre.full_at(x));
            assert(pre.slot_reachable(x));
            let jx = choose|jx: int| #[trigger] pre.probe_cert(pre.key_at(x), x / 16, jx);
            assert(post.key_at(x) == pre.key_at(x));
            assert(post.home_of(post.key_at(x)) == pre.home_of(pre.key_at(x)));
            assert forall|t: int| 0 <= t < jx implies !post.group_has_empty(
                #[trigger] probe_at(post.home_of(post.key_at(x)), t, post.num_groups()),
            ) by {
                let gt = probe_at(pre.home_of(pre.key_at(x)), t, pre.num_groups());
                lemma_mod_division_less_than_divisor(
                    pre.home_of(pre.key_at(x)) + crate::raw::probe::triangular(t),
                    pre.num_groups(),
                );
                assert(!pre.group_has_empty(gt));
                if post.group_has_empty(gt) {
                    let o = choose|o: int|
                        0 <= o < 16 && is_empty_byte(#[trigger] post.ctrl(gt * 16 + o));
                    if gt * 16 + o == index {
                        assert(!is_empty_byte(post.ctrl(index)));
                    } else {
                        assert(pre.ctrl(gt * 16 + o) == post.ctrl(gt * 16 + o));
                    }
                }
            }
            assert(post.probe_cert(post.key_at(x), x / 16, jx));
        }
        assert(post.wf());
        assert forall|k: Key| post.contains_spec(k) <==> (pre.contains_spec(k) && k != key) by {
            if post.contains_spec(k) {
                let i = choose|i: int| post.has_key_at(k, i);
                assert(i != index);
                assert(pre.has_key_at(k, i));
                if k == key {
                    assert(pre.full_at(i) && pre.full_at(index));
                    assert(false);
                }
            }
            if pre.contains_spec(k) && k != key {
                let i = choose|i: int| pre.has_key_at(k, i);
                assert(i != index);
                assert(post.has_key_at(k, i));
            }
        }
        assert forall|k: Key| #[trigger]
            post.contains_spec(k) implies post.value_of(k) == pre.value_of(k) by {
            let i = choose|i: int| post.has_key_at(k, i);
            assert(i != index);
            assert(pre.has_key_at(k, i));
            post.lemma_view_at(i);
            pre.lemma_view_at(i);
        }
        assert(post@ =~= pre@.remove(key));
    }

    /// Removes a key, leaving a tombstone so later probes for displaced
    /// keys keep scanning.  Tombstones are reclaimed only by the next
    /// insert-triggered rehash, trading slightly longer probes for O(1)
    /// removal.  Returns the removed value, if the key was present.
    pub fn remove(&mut self, key: &Key) -> (r: Option<Val>)
        requires
            old(self).wf(),
        ensures
            final(self).wf(),
            final(self)@ == old(self)@.remove(*key),
            r == (if old(self)@.contains_key(*key) {
                Some(old(self)@[*key])
            } else {
                None::<Val>
            }),
            final(self).spec_len() == old(self).spec_len() - (if old(self)@.contains_key(*key) {
                1int
            } else {
                0int
            }),
    {
        let ghost pre = *self;
        if self.is_empty() {
            proof {
                assert(pre@.remove(*key) =~= pre@);
            }
            return None;
        }
        let idx_opt = self.get_index(key);
        match idx_opt {
            Some(index) => {
                proof {
                    pre.lemma_view_at(index as int);
                    lemma_counts_update(self.control_bytes@, index as int, DELETED);
                    lemma_counts_bounds(self.control_bytes@.update(index as int, DELETED));
                }
                let entry = self.data[index].unwrap();
                self.data[index] = None;
                self.control_bytes[index] = DELETED;
                self.n_occupied -= 1;
                proof {
                    Self::lemma_remove_update(pre, *self, index as int);
                }
                Some(entry.val)
            },
            None => {
                proof {
                    assert(pre@.remove(*key) =~= pre@);
                }
                None
            },
        }
    }

    /// The keys stored in slots below `n`.
    spec fn keys_below(self, n: int) -> Set<Key> {
        Set::new(|k: Key| exists|i: int| 0 <= i < n && #[trigger] self.has_key_at(k, i))
    }

    /// The keys below `n` number exactly the FULL slots below `n`.
    proof fn lemma_keys_below_len(self, n: int)
        requires
            self.wf(),
            0 <= n <= self.spec_capacity(),
        ensures
            self.keys_below(n).finite(),
            self.keys_below(n).len() == count_full(self.control_bytes@.subrange(0, n)),
        decreases n,
    {
        if n == 0 {
            assert(self.keys_below(0) =~= Set::<Key>::empty());
            assert(self.control_bytes@.subrange(0, 0) =~= Seq::<u8>::empty());
        } else {
            self.lemma_keys_below_len(n - 1);
            lemma_count_full_prefix_step(self.control_bytes@, n - 1);
            let prev = self.keys_below(n - 1);
            if self.full_at(n - 1) {
                let k = self.key_at(n - 1);
                assert(self.has_key_at(k, n - 1));
                assert forall|k2: Key| self.keys_below(n).contains(k2) implies prev.insert(
                    k,
                ).contains(k2) by {
                    let i = choose|i: int| 0 <= i < n && #[trigger] self.has_key_at(k2, i);
                    if i < n - 1 {
                        assert(prev.contains(k2));
                    }
                }
                assert(self.keys_below(n) =~= prev.insert(k));
                assert(!prev.contains(k)) by {
                    if prev.contains(k) {
                        let i = choose|i: int| 0 <= i < n - 1 && #[trigger] self.has_key_at(k, i);
                        assert(self.key_at(i) != self.key_at(n - 1));
                    }
                }
                vstd::set::axiom_set_insert_len(prev, k);
            } else {
                assert forall|k2: Key| self.keys_below(n).contains(k2) implies prev.contains(
                    k2,
                ) by {
                    let i = choose|i: int| 0 <= i < n && #[trigger] self.has_key_at(k2, i);
                    assert(i != n - 1);
                }
                assert(self.keys_below(n) =~= prev);
            }
        }
    }

    /// The length the table reports is the cardinality of its abstract map.
    pub proof fn lemma_len_is_view_len(self)
        requires
            self.wf(),
        ensures
            self@.dom().finite(),
            self@.dom().len() == self.spec_len(),
    {
        let cap = self.spec_capacity();
        self.lemma_keys_below_len(cap);
        assert(self.control_bytes@.subrange(0, cap) =~= self.control_bytes@);
        assert forall|k: Key| self@.dom().contains(k) implies self.keys_below(cap).contains(k) by {
            let i = choose|i: int| self.has_key_at(k, i);
            assert(0 <= i < cap && self.has_key_at(k, i));
        }
        assert(self@.dom() =~= self.keys_below(cap));
    }

    /// Round-trip law: after an insert the map binds the key to the
    /// inserted value, and after a remove it does not bind the key at all.
    /// Together with the contracts of `insert`, `remove` and `get`, a get
    /// right after `insert(k, v)` returns `v`, and right after `remove(k)`
    /// returns none.
    pub proof fn lemma_round_trip(m: Map<Key, Val>, k: Key, v: Val)
        ensures
            m.insert(k, v).contains_key(k),
            m.insert(k, v)[k] == v,
            !m.remove(k).contains_key(k),
    {
    }

    /// Overwrite law: inserting `v2` over `v1` leaves the map that a direct
    /// insert of `v2` gives, still binding the key, with no change to the
    /// number of entries.  Together with `insert`'s contract, the second
    /// insert returns `Some(v1)` and does not grow the table.
    pub proof fn lemma_overwrite_semantics(m: Map<Key, Val>, k: Key, v1: Val, v2: Val)
        requires
            m.dom().finite(),
        ensures
            m.insert(k, v1).insert(k, v2) == m.insert(k, v2),
            m.insert(k, v1)[k] == v1,
            m.insert(k, v1).insert(k, v2).dom().len() == m.insert(k, v1).dom().len(),
    {
        assert(m.insert(k, v1).insert(k, v2) =~= m.insert(k, v2));
        assert(m.insert(k, v1).insert(k, v2).dom() =~= m.insert(k, v1).dom());
    }

    /// Idempotent-remove law: removing an absent key leaves the map as it
    /// was.  Together with `remove`'s contract, such a remove returns none
    /// and does not change the length.
    pub proof fn lemma_remove_absent(m: Map<Key, Val>, k: Key)
        requires
            !m.contains_key(k),
        ensures
            m.remove(k) == m,
    {
        assert(m.remove(k) =~= m);
    }

    /// No-lost-entries law: neither an insert nor a remove touches any
    /// other key's binding.  `insert` and `remove` pin the new map exactly
    /// — including across the rehash `insert` may perform — so with this
    /// lemma the map after any operation sequence is the fold of that
    /// history: last write wins, removed keys absent.
    pub proof fn lemma_no_lost_entries(m: Map<Key, Val>, k: Key, v: Val, k2: Key)
        requires
            k2 != k,
        ensures
            m.insert(k, v).contains_key(k2) == m.contains_key(k2),
            m.contains_key(k2) ==> m.insert(k, v)[k2] == m[k2],
            m.remove(k).contains_key(k2) == m.contains_key(k2),
            m.contains_key(k2) ==> m.remove(k)[k2] == m[k2],
    {
    }

    /// Capacity law: the capacity is a power of two, a multiple of sixteen,
    /// and at least the minimum of 64 slots.
    pub proof fn lemma_capacity_invariant(self)
        requires
            self.wf(),
        ensures
            self.spec_capacity() % 16 == 0,
            exists|e: nat| self.spec_capacity() == pow2(e),
            self.spec_capacity() >= 64,
    {
        let m = choose|m: nat| m < usize::BITS && pow2(m) == self.num_groups();
        vstd::arithmetic::power2::lemma_pow2_adds(m, 4);
        lemma2_to64();
        assert(pow2(4) == 16);
        assert(self.spec_capacity() == pow2((m + 4) as nat));
        vstd::arithmetic::div_mod::lemma_mod_multiples_basic(self.num_groups(), 16);
        assert(self.spec_capacity() == self.num_groups() * 16);
    }

    /// Looks the key up, returning a mutable reference to its value in
    /// place.  A write through the reference changes that key's binding and
    /// nothing else.
    pub fn get_mut(&mut self, key: &Key) -> (r: Option<&mut Val>)
        requires
            old(self).wf(),
        ensures
            match r {
                Some(v) => old(self)@.contains_key(*key) && *v == old(self)@[*key]
                    && final(self).wf() && final(self)@ == old(self)@.insert(*key, *final(v))
                    && final(self).spec_len() == old(self).spec_len(),
                None => !old(self)@.contains_key(*key) && *final(self) == *old(self),
            },
    {
        let ghost pre = *self;
        if self.n_occupied == 0 {
            proof {
                lemma_count_full_zero(self.control_bytes@);
                assert forall|i: int| !pre.has_key_at(*key, i) by {
                    if pre.has_key_at(*key, i) {
                        assert(is_full_byte(pre.control_bytes@[i]));
                    }
                }
            }
            return None;
        }
        let idx_opt = self.get_index(key);
        match idx_opt {
            Some(index) => {
                proof {
                    pre.lemma_view_at(index as int);
                    assert forall|post: Self|
                        (post.control_bytes@ == pre.control_bytes@ && post.data@
                            == pre.data@.update(
                            index as int,
                            Some((Entry { key: *key, val: post.val_at(index as int) })),
                        ) && post.n_occupied == pre.n_occupied && post.n_empty
                            == pre.n_empty) implies (#[trigger] post.wf() && post@ == pre@.insert(
                        *key,
                        post.val_at(index as int),
                    ) && post.spec_len() == pre.spec_len()) by {
                        Self::lemma_overwrite_update(
                            pre,
                            post,
                            index as int,
                            *key,
                            post.val_at(index as int),
                        );
                    }
                }
                let entry_ref = &mut self.data[index];
                match entry_ref {
                    Some(e) => {
                        let v = &mut e.val;
                        Some(v)
                    },
                    None => {
                        proof {
                            assert(false);
                        }
                        None
                    },
                }
            },
            None => None,
        }
    }

    /// Rehashes every live entry into a fresh table: doubled in capacity
    /// when the live data is dense, of the same capacity otherwise.  The
    /// same-size case exists to reclaim the slots that tombstones consume
    /// without doubling memory.
    fn resize(&mut self)
        requires
            old(self).wf(),
            old(self).spec_len() < usize::MAX as int / 32,
        ensures
            final(self).wf(),
            final(self)@ == old(self)@,
            final(self).spec_len() == old(self).spec_len(),
            final(self).n_occupied + final(self).n_empty == final(self).spec_capacity(),
            (final(self).spec_capacity() - final(self).n_empty + 1) * 20
                <= 17 * final(self).spec_capacity(),
    {
        let ghost pre = *self;
        let cap = self.data.len();
        // Double only when the live entries alone pass 3/4 (0.75) of
        // capacity; otherwise the table is mostly tombstones and a
        // same-size rehash reclaims them.
        let resize_factor: usize = if (self.n_occupied as u128) * 4 > (cap as u128) * 3 {
            2
        } else {
            1
        };
        proof {
            lemma_counts_bounds(pre.control_bytes@);
            if resize_factor == 2 {
                lemma_fundamental_div_mod(usize::MAX as int, 32);
                lemma_mod_division_less_than_divisor(usize::MAX as int, 32);
                assert(32 * pre.n_occupied <= usize::MAX as int);
                assert(cap * 2 <= usize::MAX);
            }
        }
        let new_size = cap * resize_factor;
        let mut new_table = Self {
            data: Self::none_slots(new_size),
            control_bytes: Self::empty_controls(new_size),
            n_occupied: 0,
            n_empty: new_size,
        };
        proof {
            let m = choose|m: nat| m < usize::BITS && pow2(m) == pre.num_groups();
            let g2 = new_table.num_groups();
            if resize_factor == 2 {
                lemma_pow2_unfold((m + 1) as nat);
                vstd::arithmetic::div_mod::lemma_div_multiples_vanish(
                    2 * pre.num_groups(),
                    16,
                );
                assert(new_size == 16 * (2 * pre.num_groups()));
                assert(g2 == 2 * pre.num_groups());
                assert(pow2((m + 1) as nat) == g2);
                let bits = usize::BITS as nat;
                unsigned_int_max_values();
                if m + 1 >= bits {
                    if m + 1 > bits {
                        lemma_pow2_strictly_increases(bits, (m + 1) as nat);
                    }
                    assert(pow2((m + 1) as nat) >= pow2(bits));
                    assert(g2 <= usize::MAX);
                    assert(false);
                }
                assert(((m + 1) as nat) < usize::BITS && pow2((m + 1) as nat) == g2);
            } else {
                assert(new_size == cap);
                assert(g2 == pre.num_groups());
                assert(m < usize::BITS && pow2(m) == g2);
            }
            assert(new_table.wf_layout());
            assert(forall|i: int| 0 <= i < new_size ==> #[trigger] new_table.ctrl(i) == EMPTY);
            assert(forall|i: int| 0 <= i < new_size ==> !(#[trigger] new_table.full_at(i)));
            assert(new_table.wf());
            assert forall|k: Key| !new_table.contains_spec(k) by {
                if new_table.contains_spec(k) {
                    let i = choose|i: int| new_table.has_key_at(k, i);
                    assert(new_table.full_at(i));
                }
            }
            // occupancy budget for every insertion to come
            if resize_factor == 2 {
                assert((pre.n_occupied + 1) * 20 <= 17 * new_size);
            } else {
                assert(4 * pre.n_occupied <= 3 * cap);
                assert((pre.n_occupied + 1) * 20 <= 17 * new_size);
            }
        }
        let mut src_i: usize = 0;
        while src_i < cap
            invariant
                *self == pre,
                pre.wf(),
                cap == pre.spec_capacity(),
                cap <= usize::MAX,
                src_i <= cap,
                new_table.wf(),
                new_table.spec_capacity() == new_size as int,
                (pre.n_occupied + 1) * 20 <= 17 * new_size,
                new_table.n_occupied + new_table.n_empty == new_table.spec_capacity(),
                new_table.n_occupied == count_full(pre.control_bytes@.subrange(0, src_i as int)),
                forall|k: Key| #[trigger]
                    new_table@.contains_key(k) ==> exists|s: int|
                        0 <= s < src_i && #[trigger] pre.has_key_at(k, s),
                forall|s: int|
                    0 <= s < src_i && #[trigger] pre.full_at(s) ==> new_table@.contains_key(
                        pre.key_at(s),
                    ) && new_table@[pre.key_at(s)] == pre.val_at(s),
            decreases cap - src_i,
        {
            let ghost prev_table = new_table;
            match &self.data[src_i] {
                Some(e) => {
                    let k = e.key;
                    let v = e.val;
                    proof {
                        assert(pre.data@[src_i as int] is Some);
                        assert(pre.full_at(src_i as int));
                        assert(pre.key_at(src_i as int) == k && pre.val_at(src_i as int) == v);
                        lemma_count_full_prefix_step(pre.control_bytes@, src_i as int);
                        lemma_count_full_prefix_le(pre.control_bytes@, src_i as int + 1);
                        assert(new_table.n_occupied + 1 <= pre.n_occupied);
                        assert((new_table.spec_capacity() - new_table.n_empty + 1) * 20
                            <= 17 * new_table.spec_capacity());
                        if new_table@.contains_key(k) {
                            let s = choose|s: int|
                                0 <= s < src_i && #[trigger] pre.has_key_at(k, s);
                            assert(pre.key_at(s) != pre.key_at(src_i as int));
                            assert(false);
                        }
                    }
                    let prev = new_table.insert_helper(k, v);
                    proof {
                        assert(new_table@ == prev_table@.insert(k, v));
                        assert forall|k2: Key| #[trigger]
                            new_table@.contains_key(k2) implies exists|s: int|
                            0 <= s < src_i + 1 && #[trigger] pre.has_key_at(k2, s) by {
                            if k2 == k {
                                assert(pre.has_key_at(k2, src_i as int));
                            } else {
                                assert(prev_table@.contains_key(k2));
                                let s = choose|s: int|
                                    0 <= s < src_i && #[trigger] pre.has_key_at(k2, s);
                                assert(0 <= s < src_i + 1 && pre.has_key_at(k2, s));
                            }
                        }
                        assert forall|s: int|
                            0 <= s < src_i + 1 && #[trigger] pre.full_at(s) implies new_table@.contains_key(
                            pre.key_at(s),
                        ) && new_table@[pre.key_at(s)] == pre.val_at(s) by {
                            if s == src_i as int {
                            } else {
                                assert(prev_table@.contains_key(pre.key_at(s)));
                                if pre.key_at(s) == k {
                                    assert(pre.key_at(s) != pre.key_at(src_i as int));
                                }
                            }
                        }
                    }
                },
                None => {
                    proof {
                        assert(!(pre.data@[src_i as int] is Some));
                        assert(!pre.full_at(src_i as int));
                        lemma_count_full_prefix_step(pre.control_bytes@, src_i as int);
                        assert forall|s: int|
                            0 <= s < src_i + 1 && #[trigger] pre.full_at(s) implies new_table@.contains_key(
                            pre.key_at(s),
                        ) && new_table@[pre.key_at(s)] == pre.val_at(s) by {
                            assert(s != src_i as int);
                        }
                        assert forall|k2: Key| #[trigger]
                            new_table@.contains_key(k2) implies exists|s: int|
                            0 <= s < src_i + 1 && #[trigger] pre.has_key_at(k2, s) by {
                            let s = choose|s: int|
                                0 <= s < src_i && #[trigger] pre.has_key_at(k2, s);
                            assert(0 <= s < src_i + 1 && pre.has_key_at(k2, s));
                        }
                    }
                },
            }
            src_i += 1;
        }
        proof {
            assert(pre.control_bytes@.subrange(0, cap as int) =~= pre.control_bytes@);
            assert(new_table.n_occupied == pre.n_occupied);
            assert forall|k: Key| #[trigger]
                pre@.contains_key(k) implies new_table@.contains_key(k) && new_table@[k]
                == pre@[k] by {
                let s = choose|s: int| pre.has_key_at(k, s);
                assert(pre.full_at(s));
                pre.lemma_view_at(s);
            }
            assert forall|k: Key| #[trigger]
                new_table@.contains_key(k) implies pre@.contains_key(k) by {
                let s = choose|s: int| 0 <= s < cap && #[trigger] pre.has_key_at(k, s);
                assert(pre.full_at(s));
                pre.lemma_view_at(s);
            }
            assert(new_table@ =~= pre@);
        }
        *self = new_table;
    }

    /// Inserts a key-value pair, resizing first when one more live or
    /// tombstoned slot would push the table past 0.85 of its capacity.
    /// Returns the value previously stored under the key, if any.
    pub fn insert(&mut self, key: Key, value: Val) -> (r: Option<Val>)
        requires
            old(self).wf(),
            old(self).spec_len() < usize::MAX as int / 32,
        ensures
            final(self).wf(),
            final(self)@ == old(self)@.insert(key, value),
            r == (if old(self)@.contains_key(key) {
                Some(old(self)@[key])
            } else {
                None::<Val>
            }),
            final(self).spec_len() == old(self).spec_len() + (if old(self)@.contains_key(key) {
                0int
            } else {
                1int
            }),
    {
        let cap = self.control_bytes.len();
        proof {
            lemma_counts_bounds(self.control_bytes@);
        }
        let live_and_dead = cap - self.n_empty;
        // One more consumed slot may not push live-or-tombstoned past
        // 17/20 (0.85) of capacity; widened arithmetic avoids overflow.
        if ((live_and_dead as u128) + 1) * 20 > (cap as u128) * 17 {
            self.resize();
        }
        let ghost mid = *self;
        proof {
            assert(mid@ == old(self)@);
            assert((mid.spec_capacity() - mid.n_empty + 1) * 20 <= 17 * mid.spec_capacity());
        }
        let r = self.insert_helper(key, value);
        proof {
            if mid@.contains_key(key) {
                assert(self.n_occupied == mid.n_occupied);
            } else {
                assert(self.n_occupied == mid.n_occupied + 1);
            }
        }
        r
    }
}

} // verus!
