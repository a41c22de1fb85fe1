//! The chained table: a fixed array of buckets, one singly-linked chain per
//! bucket.  A pedagogically simple alternative to the open-addressing table
//! in [`crate::raw`]: the bucket array never grows, chains do.

use crate::key::TableKey;
use vstd::prelude::*;
use vstd::set_lib::lemma_set_disjoint_lens;

verus! {

/// Number of buckets.  Fixed: collisions extend chains, never the array.
const DEFAULT_MAX_SIZE: u64 = 256;

/// One link of a bucket chain.
pub struct KeyValue<T, V> {
    key: T,
    value: V,
    next: Option<Box<KeyValue<T, V>>>,
}

impl<T, V> KeyValue<T, V> {
    /// The key of this link.
    pub closed spec fn spec_key(self) -> T {
        self.key
    }

    /// The value of this link.
    pub closed spec fn spec_value(self) -> V {
        self.value
    }

    /// The successor of this link.
    pub closed spec fn spec_next(self) -> Option<Box<KeyValue<T, V>>> {
        self.next
    }

    /// A chain link with no successor.
    pub fn new(key: T, value: V) -> (r: KeyValue<T, V>)
        ensures
            r.spec_key() == key,
            r.spec_value() == value,
            r.spec_next() is None,
    {
        KeyValue { key, value, next: None }
    }
}

/// Whether the chain starting at `link` holds key `k`.
spec fn chain_contains<T, V>(link: Option<Box<KeyValue<T, V>>>, k: T) -> bool
    decreases link,
{
    match link {
        None => false,
        Some(node) => node.key == k || chain_contains(node.next, k),
    }
}

/// The value the chain starting at `link` holds for key `k`: the first
/// match wins.
spec fn chain_value<T, V>(link: Option<Box<KeyValue<T, V>>>, k: T) -> V
    recommends
        chain_contains(link, k),
    decreases link,
{
    match link {
        None => vstd::pervasive::arbitrary(),
        Some(node) => if node.key == k {
            node.value
        } else {
            chain_value(node.next, k)
        },
    }
}

/// Number of links in the chain starting at `link`.
spec fn chain_len<T, V>(link: Option<Box<KeyValue<T, V>>>) -> int
    decreases link,
{
    match link {
        None => 0,
        Some(node) => 1 + chain_len(node.next),
    }
}

/// The set of keys in the chain starting at `link`.
spec fn chain_keys<T, V>(link: Option<Box<KeyValue<T, V>>>) -> Set<T>
    decreases link,
{
    match link {
        None => Set::empty(),
        Some(node) => chain_keys(node.next).insert(node.key),
    }
}

/// The bucket a key belongs to.
spec fn home_of<T: TableKey>(k: T) -> int {
    (k.digest_spec() as int) % (DEFAULT_MAX_SIZE as int)
}

/// A well-formed chain for bucket `b`: every key hashes to `b` and appears
/// only once.
spec fn chain_wf<T: TableKey, V>(link: Option<Box<KeyValue<T, V>>>, b: int) -> bool
    decreases link,
{
    match link {
        None => true,
        Some(node) => home_of(node.key) == b && !chain_contains(node.next, node.key)
            && chain_wf(node.next, b),
    }
}

/// A well-formed chain for bucket `b` has as many distinct keys as links,
/// all of them homed at `b`.
proof fn lemma_chain_keys_len<T: TableKey, V>(link: Option<Box<KeyValue<T, V>>>, b: int)
    requires
        chain_wf(link, b),
    ensures
        chain_keys(link).finite(),
        chain_keys(link).len() == chain_len(link),
        forall|k: T| #[trigger] chain_keys(link).contains(k) <==> chain_contains(link, k),
        forall|k: T| #[trigger] chain_contains(link, k) ==> home_of(k) == b,
    decreases link,
{
    match link {
        None => {
            assert(forall|k: T| !(#[trigger] chain_contains(link, k)));
            assert(chain_keys(link) =~= Set::<T>::empty());
            assert forall|k: T| #[trigger] chain_contains(link, k) implies home_of(k) == b by {
                assert(!chain_contains(link, k));
            }
        },
        Some(node) => {
            lemma_chain_keys_len::<T, V>(node.next, b);
            assert(!chain_keys(node.next).contains(node.key));
            vstd::set::axiom_set_insert_len(chain_keys(node.next), node.key);
            assert forall|k: T| #[trigger] chain_contains(link, k) implies home_of(k) == b by {
                if k != node.key {
                    assert(chain_contains(node.next, k));
                }
            }
        },
    }
}

/// The chained table.
pub struct HashMap<T, V> {
    curr_size: usize,
    arr: Vec<Option<Box<KeyValue<T, V>>>>,
}

impl<T: TableKey + Copy, V: Copy> View for HashMap<T, V> {
    type V = Map<T, V>;

    /// The table abstracts to the map each key's home bucket describes.
    closed spec fn view(&self) -> Map<T, V> {
        Map::new(
            |k: T| chain_contains(self.arr@[home_of(k)], k),
            |k: T| chain_value(self.arr@[home_of(k)], k),
        )
    }
}

impl<T: TableKey + Copy, V: Copy> HashMap<T, V> {
    /// Number of entries.
    pub closed spec fn spec_len(self) -> nat {
        self.curr_size as nat
    }

    /// Total number of links in the buckets below `b`.
    spec fn total_below(self, b: int) -> int
        decreases b,
    {
        if b <= 0 {
            0
        } else {
            self.total_below(b - 1) + chain_len(self.arr@[b - 1])
        }
    }

    /// The table invariant: 256 buckets, each a well-formed chain for its
    /// own index, and the size field counting every link.
    pub closed spec fn wf(self) -> bool {
        &&& self.arr@.len() == DEFAULT_MAX_SIZE as int
        &&& forall|b: int|
            0 <= b < DEFAULT_MAX_SIZE as int ==> chain_wf(#[trigger] self.arr@[b], b)
        &&& self.curr_size == self.total_below(DEFAULT_MAX_SIZE as int)
    }

    /// An array of `n` empty buckets.
    fn empty_buckets(n: usize) -> (v: Vec<Option<Box<KeyValue<T, V>>>>)
        ensures
            v@.len() == n,
            forall|i: int| 0 <= i < n ==> (#[trigger] v@[i]) is None,
    {
        let mut v: Vec<Option<Box<KeyValue<T, V>>>> = Vec::new();
        let mut i: usize = 0;
        while i < n
            invariant
                i <= n,
                v@.len() == i,
                forall|j: int| 0 <= j < i ==> (#[trigger] v@[j]) is None,
            decreases n - i,
        {
            v.push(None);
            i += 1;
        }
        v
    }

    /// All-empty buckets hold no links.
    proof fn lemma_total_none(self, b: int)
        requires
            0 <= b,
            forall|i: int| 0 <= i < b ==> (#[trigger] self.arr@[i]) is None,
        ensures
            self.total_below(b) == 0,
        decreases b,
    {
        if b > 0 {
            self.lemma_total_none(b - 1);
        }
    }

    /// The total over `b` buckets includes bucket `p`'s chain.
    proof fn lemma_total_at_least(self, p: int, b: int)
        requires
            0 <= p < b,
            forall|i: int| 0 <= i < b ==> chain_len(#[trigger] self.arr@[i]) >= 0,
        ensures
            self.total_below(b) >= chain_len(self.arr@[p]),
        decreases b,
    {
        if p == b - 1 {
            self.lemma_total_below_nonneg(b - 1);
        } else {
            self.lemma_total_at_least(p, b - 1);
        }
    }

    /// A running total over chains of non-negative length is non-negative.
    proof fn lemma_total_below_nonneg(self, b: int)
        requires
            forall|i: int| 0 <= i < b ==> chain_len(#[trigger] self.arr@[i]) >= 0,
        ensures
            self.total_below(b) >= 0,
        decreases b,
    {
        if b > 0 {
            self.lemma_total_below_nonneg(b - 1);
        }
    }

    /// Every chain has a non-negative length.
    proof fn lemma_chain_len_nonneg(link: Option<Box<KeyValue<T, V>>>)
        ensures
            chain_len(link) >= 0,
        decreases link,
    {
        match link {
            None => {},
            Some(node) => {
                Self::lemma_chain_len_nonneg(node.next);
            },
        }
    }

    /// A chain holding a key has at least one link.
    proof fn lemma_chain_contains_positive(link: Option<Box<KeyValue<T, V>>>, k: T)
        requires
            chain_contains(link, k),
        ensures
            chain_len(link) >= 1,
    {
        match link {
            None => {},
            Some(node) => {
                Self::lemma_chain_len_nonneg(node.next);
            },
        }
    }

    /// Changing a single bucket shifts the running totals by that bucket's
    /// length difference.
    proof fn lemma_total_diff(pre: Self, post: Self, p: int, b: int)
        requires
            0 <= p < DEFAULT_MAX_SIZE as int,
            0 <= b <= DEFAULT_MAX_SIZE as int,
            pre.arr@.len() == DEFAULT_MAX_SIZE as int,
            post.arr@.len() == DEFAULT_MAX_SIZE as int,
            forall|i: int|
                0 <= i < DEFAULT_MAX_SIZE as int && i != p ==> post.arr@[i] == pre.arr@[i],
        ensures
            post.total_below(b) == pre.total_below(b) + (if p < b {
                chain_len(post.arr@[p]) - chain_len(pre.arr@[p])
            } else {
                0int
            }),
        decreases b,
    {
        if b > 0 {
            Self::lemma_total_diff(pre, post, p, b - 1);
        }
    }

    /// Creates an empty table.
    pub fn new() -> (r: HashMap<T, V>)
        ensures
            r.wf(),
            r@ == Map::<T, V>::empty(),
            r.spec_len() == 0,
    {
        let r = HashMap { curr_size: 0, arr: Self::empty_buckets(DEFAULT_MAX_SIZE as usize) };
        proof {
            r.lemma_total_none(DEFAULT_MAX_SIZE as int);
            assert forall|k: T| !r@.dom().contains(k) by {
                vstd::arithmetic::div_mod::lemma_mod_division_less_than_divisor(
                    k.digest_spec() as int,
                    DEFAULT_MAX_SIZE as int,
                );
                assert(r.arr@[home_of(k)] is None);
            }
            assert(r@ =~= Map::<T, V>::empty());
        }
        r
    }

    /// Stores `value` under `key` in the owned chain `link`, overwriting in
    /// place when the key is already there; returns the rebuilt chain and
    /// the value previously stored.
    fn link_put(link: Option<Box<KeyValue<T, V>>>, key: T, value: V, Ghost(b): Ghost<int>) -> (res: (
        Option<Box<KeyValue<T, V>>>,
        Option<V>,
    ))
        requires
            chain_wf(link, b),
            home_of(key) == b,
        ensures
            chain_wf(res.0, b),
            forall|k2: T|
                #[trigger] chain_contains(res.0, k2) <==> (chain_contains(link, k2) || k2 == key),
            chain_value(res.0, key) == value,
            forall|k2: T|
                k2 != key && #[trigger] chain_contains(link, k2) ==> chain_value(res.0, k2)
                    == chain_value(link, k2),
            chain_len(res.0) == chain_len(link) + (if chain_contains(link, key) {
                0int
            } else {
                1int
            }),
            res.1 == (if chain_contains(link, key) {
                Some(chain_value(link, key))
            } else {
                None::<V>
            }),
        decreases link,
    {
        let ghost l0 = link;
        match link {
            None => {
                let out = Some(Box::new(KeyValue { key, value, next: None }));
                proof {
                    assert forall|k2: T| #[trigger]
                        chain_contains(out, k2) <==> (chain_contains(l0, k2) || k2 == key) by {
                        assert(!chain_contains(None::<Box<KeyValue<T, V>>>, k2));
                        assert(chain_contains(out, k2) == (key == k2 || chain_contains(
                            None::<Box<KeyValue<T, V>>>,
                            k2,
                        )));
                    }
                }
                (out, None)
            },
            Some(node_box) => {
                let node = *node_box;
                let KeyValue { key: k0, value: v0, next } = node;
                proof {
                    assert(l0 == Some(node_box));
                    assert(node_box == (KeyValue { key: k0, value: v0, next }));
                    assert(chain_wf(next, b));
                    assert(!chain_contains(next, k0));
                }
                if k0.key_eq(&key) {
                    let out = Some(Box::new(KeyValue { key: k0, value, next }));
                    proof {
                        assert(chain_contains(l0, key));
                        assert(chain_value(l0, key) == v0);
                        assert(chain_value(out, key) == value);
                        assert forall|k2: T| #[trigger]
                            chain_contains(out, k2) <==> (chain_contains(l0, k2) || k2
                            == key) by {
                            assert(chain_contains(out, k2) == (k0 == k2 || chain_contains(
                                next,
                                k2,
                            )));
                            assert(chain_contains(l0, k2) == (k0 == k2 || chain_contains(
                                next,
                                k2,
                            )));
                        }
                        assert forall|k2: T|
                            k2 != key && #[trigger] chain_contains(l0, k2) implies chain_value(
                            out,
                            k2,
                        ) == chain_value(l0, k2) by {
                            assert(chain_contains(next, k2));
                            assert(chain_value(out, k2) == chain_value(next, k2));
                            assert(chain_value(l0, k2) == chain_value(next, k2));
                        }
                    }
                    (out, Some(v0))
                } else {
                    let (new_next, r) = Self::link_put(next, key, value, Ghost(b));
                    let out = Some(Box::new(KeyValue { key: k0, value: v0, next: new_next }));
                    proof {
                        assert(!chain_contains(new_next, k0));
                        assert(chain_value(out, key) == chain_value(new_next, key));
                        assert forall|k2: T| #[trigger]
                            chain_contains(out, k2) <==> (chain_contains(l0, k2) || k2
                            == key) by {
                            assert(chain_contains(out, k2) == (k0 == k2 || chain_contains(
                                new_next,
                                k2,
                            )));
                            assert(chain_contains(l0, k2) == (k0 == k2 || chain_contains(
                                next,
                                k2,
                            )));
                        }
                        assert forall|k2: T|
                            k2 != key && #[trigger] chain_contains(l0, k2) implies chain_value(
                            out,
                            k2,
                        ) == chain_value(l0, k2) by {
                            if k2 != k0 {
                                assert(chain_contains(next, k2));
                                assert(chain_value(out, k2) == chain_value(new_next, k2));
                                assert(chain_value(l0, k2) == chain_value(next, k2));
                            }
                        }
                    }
                    (out, r)
                }
            },
        }
    }

    /// Looks `key` up in the chain starting at `link`.
    fn link_get(link: &Option<Box<KeyValue<T, V>>>, key: &T) -> (r: Option<V>)
        ensures
            r == (if chain_contains(*link, *key) {
                Some(chain_value(*link, *key))
            } else {
                None::<V>
            }),
        decreases *link,
    {
        match link {
            None => None,
            Some(node) => {
                if node.key.key_eq(key) {
                    Some(node.value)
                } else {
                    Self::link_get(&node.next, key)
                }
            },
        }
    }

    /// Unlinks `key` from the owned chain `link`; returns the rebuilt chain
    /// and the value the removed link held.
    fn link_remove(link: Option<Box<KeyValue<T, V>>>, key: &T, Ghost(b): Ghost<int>) -> (res: (
        Option<Box<KeyValue<T, V>>>,
        Option<V>,
    ))
        requires
            chain_wf(link, b),
        ensures
            chain_wf(res.0, b),
            forall|k2: T|
                #[trigger] chain_contains(res.0, k2) <==> (chain_contains(link, k2) && k2
                    != *key),
            forall|k2: T|
                k2 != *key && #[trigger] chain_contains(link, k2) ==> chain_value(res.0, k2)
                    == chain_value(link, k2),
            chain_len(res.0) == chain_len(link) - (if chain_contains(link, *key) {
                1int
            } else {
                0int
            }),
            res.1 == (if chain_contains(link, *key) {
                Some(chain_value(link, *key))
            } else {
                None::<V>
            }),
        decreases link,
    {
        let ghost l0 = link;
        match link {
            None => (None, None),
            Some(node_box) => {
                let node = *node_box;
                let KeyValue { key: k0, value: v0, next } = node;
                proof {
                    assert(chain_contains(l0, k0));
                    assert(!chain_contains(next, k0));
                }
                if k0.key_eq(key) {
                    proof {
                        assert forall|k2: T| #[trigger]
                            chain_contains(next, k2) <==> (chain_contains(l0, k2) && k2
                            != *key) by {
                            if k2 == *key {
                                assert(!chain_contains(next, k2));
                            }
                        }
                    }
                    (next, Some(v0))
                } else {
                    let (new_next, r) = Self::link_remove(next, key, Ghost(b));
                    let out = Some(Box::new(KeyValue { key: k0, value: v0, next: new_next }));
                    proof {
                        assert(!chain_contains(new_next, k0));
                        assert forall|k2: T| #[trigger]
                            chain_contains(out, k2) <==> (chain_contains(l0, k2) && k2
                            != *key) by {
                            assert(chain_contains(out, k2) == (k0 == k2 || chain_contains(
                                new_next,
                                k2,
                            )));
                            assert(chain_contains(l0, k2) == (k0 == k2 || chain_contains(
                                next,
                                k2,
                            )));
                        }
                        assert forall|k2: T|
                            k2 != *key && #[trigger] chain_contains(l0, k2) implies chain_value(
                            out,
                            k2,
                        ) == chain_value(l0, k2) by {
                            if k2 != k0 {
                                assert(chain_contains(next, k2));
                                assert(chain_value(out, k2) == chain_value(new_next, k2));
                                assert(chain_value(l0, k2) == chain_value(next, k2));
                            }
                        }
                    }
                    (out, r)
                }
            },
        }
    }

    /// Effect on the table of replacing one bucket's chain by one that
    /// stores `key` with `val` on top of what it held.
    proof fn lemma_bucket_put(pre: Self, post: Self, p: int, key: T, val: V)
        requires
            pre.wf(),
            0 <= p < DEFAULT_MAX_SIZE as int,
            p == home_of(key),
            post.arr@.len() == DEFAULT_MAX_SIZE as int,
            forall|i: int|
                0 <= i < DEFAULT_MAX_SIZE as int && i != p ==> post.arr@[i] == pre.arr@[i],
            chain_wf(post.arr@[p], p),
            forall|k2: T|
                #[trigger] chain_contains(post.arr@[p], k2) <==> (chain_contains(pre.arr@[p], k2)
                    || k2 == key),
            chain_value(post.arr@[p], key) == val,
            forall|k2: T|
                k2 != key && #[trigger] chain_contains(pre.arr@[p], k2) ==> chain_value(
                    post.arr@[p],
                    k2,
                ) == chain_value(pre.arr@[p], k2),
            chain_len(post.arr@[p]) == chain_len(pre.arr@[p]) + (if chain_contains(
                pre.arr@[p],
                key,
            ) {
                0int
            } else {
                1int
            }),
            post.curr_size == pre.curr_size + (if chain_contains(pre.arr@[p], key) {
                0int
            } else {
                1int
            }),
        ensures
            post.wf(),
            post@ == pre@.insert(key, val),
            post.spec_len() == pre.spec_len() + (if pre@.contains_key(key) {
                0int
            } else {
                1int
            }),
    {
        Self::lemma_total_diff(pre, post, p, DEFAULT_MAX_SIZE as int);
        assert(post.wf());
        assert forall|k2: T| #[trigger]
            post@.dom().contains(k2) <==> (pre@.dom().contains(k2) || k2 == key) by {
            if home_of(k2) != p {
                assert(post.arr@[home_of(k2)] == pre.arr@[home_of(k2)]);
                assert(k2 != key);
            }
        }
        assert forall|k2: T| #[trigger] post@.dom().contains(k2) implies post@[k2]
            == pre@.insert(key, val)[k2] by {
            if k2 == key {
            } else {
                if home_of(k2) != p {
                    assert(post.arr@[home_of(k2)] == pre.arr@[home_of(k2)]);
                }
            }
        }
        assert(post@ =~= pre@.insert(key, val));
    }

    /// Effect on the table of replacing one bucket's chain by one with
    /// `key` unlinked.
    proof fn lemma_bucket_remove(pre: Self, post: Self, p: int, key: T)
        requires
            pre.wf(),
            0 <= p < DEFAULT_MAX_SIZE as int,
            p == home_of(key),
            post.arr@.len() == DEFAULT_MAX_SIZE as int,
            forall|i: int|
                0 <= i < DEFAULT_MAX_SIZE as int && i != p ==> post.arr@[i] == pre.arr@[i],
            chain_wf(post.arr@[p], p),
            forall|k2: T|
                #[trigger] chain_contains(post.arr@[p], k2) <==> (chain_contains(pre.arr@[p], k2)
                    && k2 != key),
            forall|k2: T|
                k2 != key && #[trigger] chain_contains(pre.arr@[p], k2) ==> chain_value(
                    post.arr@[p],
                    k2,
                ) == chain_value(pre.arr@[p], k2),
            chain_len(post.arr@[p]) == chain_len(pre.arr@[p]) - (if chain_contains(
                pre.arr@[p],
                key,
            ) {
                1int
            } else {
                0int
            }),
            post.curr_size == pre.curr_size - (if chain_contains(pre.arr@[p], key) {
                1int
            } else {
                0int
            }),
        ensures
            post.wf(),
            post@ == pre@.remove(key),
            post.spec_len() == pre.spec_len() - (if pre@.contains_key(key) {
                1int
            } else {
                0int
            }),
    {
        Self::lemma_total_diff(pre, post, p, DEFAULT_MAX_SIZE as int);
        assert(post.wf());
        assert forall|k2: T| #[trigger]
            post@.dom().contains(k2) <==> (pre@.dom().contains(k2) && k2 != key) by {
            if home_of(k2) != p {
                assert(post.arr@[home_of(k2)] == pre.arr@[home_of(k2)]);
                assert(k2 != key);
            }
        }
        assert forall|k2: T| #[trigger] post@.dom().contains(k2) implies post@[k2] == pre@.remove(
            key,
        )[k2] by {
            if home_of(k2) != p {
                assert(post.arr@[home_of(k2)] == pre.arr@[home_of(k2)]);
            }
        }
        assert(post@ =~= pre@.remove(key));
    }

    /// Inserts a key-value pair, returning the value previously stored
    /// under the key, if any.
    pub fn put(&mut self, key: T, val: V) -> (r: Option<V>)
        requires
            old(self).wf(),
            old(self).spec_len() < usize::MAX as nat,
        ensures
            final(self).wf(),
            final(self)@ == old(self)@.insert(key, val),
            r == (if old(self)@.contains_key(key) {
                Some(old(self)@[key])
            } else {
                None::<V>
            }),
            final(self).spec_len() == old(self).spec_len() + (if old(self)@.contains_key(key) {
                0int
            } else {
                1int
            }),
    {
        let hash_val: u64 = crate::key::hash_key(&key);
        let position = hash_val % DEFAULT_MAX_SIZE;
        proof {
            vstd::arithmetic::div_mod::lemma_mod_division_less_than_divisor(
                hash_val as int,
                DEFAULT_MAX_SIZE as int,
            );
        }
        match &self.arr[position as usize] {
            Some(_) => self.update_or_link_new_val(key, val, position as usize),
            None => {
                self.insert_new_value(key, val, position as usize);
                None
            },
        }
    }

    /// Looks a key up, returning a copy of its value if present.
    pub fn get(&self, key: T) -> (r: Option<V>)
        requires
            self.wf(),
        ensures
            r == (if self@.contains_key(key) {
                Some(self@[key])
            } else {
                None::<V>
            }),
    {
        let hash_val: u64 = crate::key::hash_key(&key);
        let position = hash_val % DEFAULT_MAX_SIZE;
        proof {
            vstd::arithmetic::div_mod::lemma_mod_division_less_than_divisor(
                hash_val as int,
                DEFAULT_MAX_SIZE as int,
            );
        }
        match &self.arr[position as usize] {
            Some(_) => self.check_list_for_key(key, position as usize),
            None => None,
        }
    }

    /// Removes a key, returning the value it was stored with, if any.
    pub fn remove(&mut self, key: T) -> (r: Option<V>)
        requires
            old(self).wf(),
        ensures
            final(self).wf(),
            final(self)@ == old(self)@.remove(key),
            r == (if old(self)@.contains_key(key) {
                Some(old(self)@[key])
            } else {
                None::<V>
            }),
            final(self).spec_len() == old(self).spec_len() - (if old(self)@.contains_key(key) {
                1int
            } else {
                0int
            }),
    {
        let hash_val: u64 = crate::key::hash_key(&key);
        let position = hash_val % DEFAULT_MAX_SIZE;
        proof {
            vstd::arithmetic::div_mod::lemma_mod_division_less_than_divisor(
                hash_val as int,
                DEFAULT_MAX_SIZE as int,
            );
        }
        match &self.arr[position as usize] {
            Some(_) => self.check_item_in_list_and_remove(key, position as usize),
            None => {
                proof {
                    assert(self@.remove(key) =~= self@);
                }
                None
            },
        }
    }

    /// Empties the table.
    pub fn clear(&mut self)
        ensures
            final(self).wf(),
            final(self)@ == Map::<T, V>::empty(),
            final(self).spec_len() == 0,
    {
        self.curr_size = 0;
        self.arr = Self::empty_buckets(DEFAULT_MAX_SIZE as usize);
        proof {
            self.lemma_total_none(DEFAULT_MAX_SIZE as int);
            assert forall|k: T| !self@.dom().contains(k) by {
                vstd::arithmetic::div_mod::lemma_mod_division_less_than_divisor(
                    k.digest_spec() as int,
                    DEFAULT_MAX_SIZE as int,
                );
                assert(self.arr@[home_of(k)] is None);
            }
            assert(self@ =~= Map::<T, V>::empty());
        }
    }

    /// Number of keys in the table.
    pub fn length(&self) -> (n: usize)
        ensures
            n == self.spec_len(),
            self.wf() ==> n == self@.dom().len(),
    {
        proof {
            if self.wf() {
                self.lemma_len_is_view_len();
            }
        }
        self.curr_size
    }

    /// Writes `val` into the bucket that already has a chain: overwrite the
    /// key's link in place, or append a fresh link at the end.
    fn update_or_link_new_val(&mut self, key: T, val: V, position: usize) -> (r: Option<V>)
        requires
            old(self).wf(),
            old(self).spec_len() < usize::MAX as nat,
            position < DEFAULT_MAX_SIZE as usize,
            position == home_of(key),
        ensures
            final(self).wf(),
            final(self)@ == old(self)@.insert(key, val),
            r == (if old(self)@.contains_key(key) {
                Some(old(self)@[key])
            } else {
                None::<V>
            }),
            final(self).spec_len() == old(self).spec_len() + (if old(self)@.contains_key(key) {
                0int
            } else {
                1int
            }),
    {
        let ghost pre = *self;
        let mut bucket: Option<Box<KeyValue<T, V>>> = None;
        core::mem::swap(&mut bucket, &mut self.arr[position]);
        proof {
            assert(bucket == pre.arr@[position as int]);
        }
        let (new_chain, r) = Self::link_put(bucket, key, val, Ghost(position as int));
        self.arr[position] = new_chain;
        if r.is_none() {
            self.curr_size += 1;
        }
        proof {
            assert(self.arr@ =~= pre.arr@.update(position as int, new_chain));
            Self::lemma_bucket_put(pre, *self, position as int, key, val);
        }
        r
    }

    /// Starts a bucket's chain with its first link.
    fn insert_new_value(&mut self, key: T, val: V, position: usize)
        requires
            old(self).wf(),
            old(self).spec_len() < usize::MAX as nat,
            position < DEFAULT_MAX_SIZE as usize,
            position == home_of(key),
            old(self).arr@[position as int] is None,
        ensures
            final(self).wf(),
            final(self)@ == old(self)@.insert(key, val),
            !old(self)@.contains_key(key),
            final(self).spec_len() == old(self).spec_len() + 1,
    {
        let ghost pre = *self;
        let new_entry = KeyValue::new(key, val);
        self.arr[position] = Some(Box::new(new_entry));
        self.curr_size += 1;
        proof {
            Self::lemma_bucket_put(pre, *self, position as int, key, val);
        }
    }

    /// Walks the chain of `position` looking for `key`.
    fn check_list_for_key(&self, key: T, position: usize) -> (r: Option<V>)
        requires
            self.wf(),
            position < DEFAULT_MAX_SIZE as usize,
            position == home_of(key),
        ensures
            r == (if self@.contains_key(key) {
                Some(self@[key])
            } else {
                None::<V>
            }),
    {
        Self::link_get(&self.arr[position], &key)
    }

    /// Unlinks `key` from the chain of `position`, if it is there.
    fn check_item_in_list_and_remove(&mut self, key: T, position: usize) -> (r: Option<V>)
        requires
            old(self).wf(),
            position < DEFAULT_MAX_SIZE as usize,
            position == home_of(key),
        ensures
            final(self).wf(),
            final(self)@ == old(self)@.remove(key),
            r == (if old(self)@.contains_key(key) {
                Some(old(self)@[key])
            } else {
                None::<V>
            }),
            final(self).spec_len() == old(self).spec_len() - (if old(self)@.contains_key(key) {
                1int
            } else {
                0int
            }),
    {
        let ghost pre = *self;
        let mut bucket: Option<Box<KeyValue<T, V>>> = None;
        core::mem::swap(&mut bucket, &mut self.arr[position]);
        proof {
            assert(bucket == pre.arr@[position as int]);
            if chain_contains(pre.arr@[position as int], key) {
                assert forall|i: int|
                    0 <= i < DEFAULT_MAX_SIZE as int implies chain_len(
                    #[trigger] pre.arr@[i],
                ) >= 0 by {
                    Self::lemma_chain_len_nonneg(pre.arr@[i]);
                }
                pre.lemma_total_at_least(position as int, DEFAULT_MAX_SIZE as int);
                Self::lemma_chain_contains_positive(pre.arr@[position as int], key);
            }
        }
        let (new_chain, r) = Self::link_remove(bucket, &key, Ghost(position as int));
        self.arr[position] = new_chain;
        if r.is_some() {
            self.curr_size -= 1;
        }
        proof {
            assert(self.arr@ =~= pre.arr@.update(position as int, new_chain));
            Self::lemma_bucket_remove(pre, *self, position as int, key);
        }
        r
    }

    /// The keys homed in the buckets below `b`.
    spec fn keys_in_first(self, b: int) -> Set<T> {
        Set::new(
            |k: T| 0 <= home_of(k) < b && chain_contains(self.arr@[home_of(k)], k),
        )
    }

    /// The keys homed below `b` number exactly the links stored there.
    proof fn lemma_keys_prefix_len(self, b: int)
        requires
            self.wf(),
            0 <= b <= DEFAULT_MAX_SIZE as int,
        ensures
            self.keys_in_first(b).finite(),
            self.keys_in_first(b).len() == self.total_below(b),
        decreases b,
    {
        if b == 0 {
            assert(self.keys_in_first(0) =~= Set::<T>::empty());
        } else {
            self.lemma_keys_prefix_len(b - 1);
            lemma_chain_keys_len::<T, V>(self.arr@[b - 1], b - 1);
            let bucket_keys = chain_keys(self.arr@[b - 1]);
            assert forall|k: T| self.keys_in_first(b).contains(k) implies (self.keys_in_first(
                b - 1,
            ) + bucket_keys).contains(k) by {
                if home_of(k) == b - 1 {
                    assert(bucket_keys.contains(k));
                }
            }
            assert forall|k: T| (self.keys_in_first(b - 1) + bucket_keys).contains(
                k,
            ) implies self.keys_in_first(b).contains(k) by {
                if bucket_keys.contains(k) {
                    assert(chain_contains(self.arr@[b - 1], k));
                    assert(home_of(k) == b - 1);
                }
            }
            assert(self.keys_in_first(b) =~= self.keys_in_first(b - 1) + bucket_keys);
            assert(self.keys_in_first(b - 1).disjoint(bucket_keys)) by {
                assert forall|k: T| self.keys_in_first(b - 1).contains(k) implies !bucket_keys.contains(
                    k,
                ) by {
                    if bucket_keys.contains(k) {
                        assert(chain_contains(self.arr@[b - 1], k));
                        assert(home_of(k) == b - 1);
                    }
                }
            }
            lemma_set_disjoint_lens(self.keys_in_first(b - 1), bucket_keys);
        }
    }

    /// The length the table reports is the cardinality of its abstract map.
    pub proof fn lemma_len_is_view_len(self)
        requires
            self.wf(),
        ensures
            self@.dom().finite(),
            self@.dom().len() == self.spec_len(),
    {
        self.lemma_keys_prefix_len(DEFAULT_MAX_SIZE as int);
        assert forall|k: T| #[trigger] self@.dom().contains(k) implies self.keys_in_first(
            DEFAULT_MAX_SIZE as int,
        ).contains(k) by {
            vstd::arithmetic::div_mod::lemma_mod_division_less_than_divisor(
                k.digest_spec() as int,
                DEFAULT_MAX_SIZE as int,
            );
        }
        assert(self@.dom() =~= self.keys_in_first(DEFAULT_MAX_SIZE as int));
    }
}

} // verus!
