//! A capacity-bounded key-value cache with least-recently-used eviction.
use crate::lru::{LRUHandle, LRUList};
use std::collections::HashMap;
use vstd::prelude::*;

verus! {

broadcast use vstd::std_specs::hash::group_hash_axioms;

/// A fixed-size key, treated as an opaque 128-bit fingerprint.
pub type CacheKey = [u8; 16];

/// An identifier handed to a sharding layer.
pub type CacheID = u64;

/// `lo` in the low half and `hi` in the high half of a number twice as wide.
pub open spec fn join8(lo: u8, hi: u8) -> u16 {
    (lo as u16) | ((hi as u16) << 8u16)
}

/// As `join8`, one width up.
pub open spec fn join16(lo: u16, hi: u16) -> u32 {
    (lo as u32) | ((hi as u32) << 16u32)
}

/// As `join8`, one width up.
pub open spec fn join32(lo: u32, hi: u32) -> u64 {
    (lo as u64) | ((hi as u64) << 32u64)
}

/// As `join8`, one width up.
pub open spec fn join64(lo: u64, hi: u64) -> u128 {
    (lo as u128) | ((hi as u128) << 64u128)
}

/// The 128-bit number whose little-endian bytes are `k`.
pub open spec fn key_code_spec(k: CacheKey) -> u128 {
    join64(
        join32(
            join16(join8(k[0], k[1]), join8(k[2], k[3])),
            join16(join8(k[4], k[5]), join8(k[6], k[7])),
        ),
        join32(
            join16(join8(k[8], k[9]), join8(k[10], k[11])),
            join16(join8(k[12], k[13]), join8(k[14], k[15])),
        ),
    )
}

/// Both halves of a join can be read back.
proof fn lemma_joins()
    ensures
        forall|lo: u8, hi: u8|
            #![trigger join8(lo, hi)]
            join8(lo, hi) as u8 == lo && (join8(lo, hi) >> 8u16) as u8 == hi,
        forall|lo: u16, hi: u16|
            #![trigger join16(lo, hi)]
            join16(lo, hi) as u16 == lo && (join16(lo, hi) >> 16u32) as u16 == hi,
        forall|lo: u32, hi: u32|
            #![trigger join32(lo, hi)]
            join32(lo, hi) as u32 == lo && (join32(lo, hi) >> 32u64) as u32 == hi,
        forall|lo: u64, hi: u64|
            #![trigger join64(lo, hi)]
            join64(lo, hi) as u64 == lo && (join64(lo, hi) >> 64u128) as u64 == hi,
{
    assert forall|lo: u8, hi: u8|
        #![trigger join8(lo, hi)]
        join8(lo, hi) as u8 == lo && (join8(lo, hi) >> 8u16) as u8 == hi by {
        assert(((lo as u16) | ((hi as u16) << 8u16)) as u8 == lo && (((lo as u16) | ((hi as u16) << 8u16)) >> 8u16) as u8 == hi) by (bit_vector);
    }
    assert forall|lo: u16, hi: u16|
        #![trigger join16(lo, hi)]
        join16(lo, hi) as u16 == lo && (join16(lo, hi) >> 16u32) as u16 == hi by {
        assert(((lo as u32) | ((hi as u32) << 16u32)) as u16 == lo && (((lo as u32) | ((hi as u32) << 16u32)) >> 16u32) as u16 == hi) by (bit_vector);
    }
    assert forall|lo: u32, hi: u32|
        #![trigger join32(lo, hi)]
        join32(lo, hi) as u32 == lo && (join32(lo, hi) >> 32u64) as u32 == hi by {
        assert(((lo as u64) | ((hi as u64) << 32u64)) as u32 == lo && (((lo as u64) | ((hi as u64) << 32u64)) >> 32u64) as u32 == hi) by (bit_vector);
    }
    assert forall|lo: u64, hi: u64|
        #![trigger join64(lo, hi)]
        join64(lo, hi) as u64 == lo && (join64(lo, hi) >> 64u128) as u64 == hi by {
        assert(((lo as u128) | ((hi as u128) << 64u128)) as u64 == lo && (((lo as u128) | ((hi as u128) << 64u128)) >> 64u128) as u64 == hi) by (bit_vector);
    }
}

/// Distinct keys have distinct codes.
proof fn lemma_key_code_injective(a: CacheKey, b: CacheKey)
    ensures
        key_code_spec(a) == key_code_spec(b) ==> a == b,
{
    lemma_joins();
    if key_code_spec(a) == key_code_spec(b) {
        assert(a@ =~= b@);
        vstd::array::axiom_array_ext_equal(a, b);
    }
}

fn join8_exec(lo: u8, hi: u8) -> (r: u16)
    ensures
        r == join8(lo, hi),
{
    (lo as u16) | ((hi as u16) << 8)
}

fn join16_exec(lo: u16, hi: u16) -> (r: u32)
    ensures
        r == join16(lo, hi),
{
    (lo as u32) | ((hi as u32) << 16)
}

fn join32_exec(lo: u32, hi: u32) -> (r: u64)
    ensures
        r == join32(lo, hi),
{
    (lo as u64) | ((hi as u64) << 32)
}

fn join64_exec(lo: u64, hi: u64) -> (r: u128)
    ensures
        r == join64(lo, hi),
{
    (lo as u128) | ((hi as u128) << 64)
}

fn key_code(k: &CacheKey) -> (r: u128)
    ensures
        r == key_code_spec(*k),
{
    join64_exec(
        join32_exec(
            join16_exec(join8_exec(k[0], k[1]), join8_exec(k[2], k[3])),
            join16_exec(join8_exec(k[4], k[5]), join8_exec(k[6], k[7])),
        ),
        join32_exec(
            join16_exec(join8_exec(k[8], k[9]), join8_exec(k[10], k[11])),
            join16_exec(join8_exec(k[12], k[13]), join8_exec(k[14], k[15])),
        ),
    )
}

/// Keys after inserting `key` into a cache holding `ks` (most recent first)
/// with capacity `cap`, before `key` goes to the front: an existing entry for
/// `key` is dropped, else the least recently used key when the cache is full.
pub open spec fn keys_kept(ks: Seq<CacheKey>, key: CacheKey, cap: nat) -> Seq<CacheKey> {
    if ks.contains(key) {
        ks.remove(ks.index_of(key))
    } else if ks.len() >= cap {
        ks.drop_last()
    } else {
        ks
    }
}

pub struct Cache<T> {
    list: LRUList<CacheKey>,
    map: HashMap<u128, (T, LRUHandle)>,
    cap: usize,
    id: u64,
}

impl<T> Cache<T> {
    /// Well-formedness: the list holds each cached key once, at most `cap`
    /// of them, and the map holds exactly their codes, each with the handle
    /// of the key's list node.
    pub closed spec fn wf(&self) -> bool {
        let ks = self.list.values();
        let hs = self.list.handles();
        &&& self.list.wf()
        &&& self.cap > 0
        &&& ks.len() <= self.cap
        &&& ks.no_duplicates()
        &&& forall|i: int|
            0 <= i < ks.len() ==> {
                &&& self.map@.contains_key(key_code_spec(#[trigger] ks[i]))
                &&& self.map@[key_code_spec(ks[i])].1 == hs[i]
            }
        &&& forall|c: u128|
            #[trigger] self.map@.contains_key(c) ==> exists|i: int|
                0 <= i < ks.len() && key_code_spec(ks[i]) == c
    }

    /// The cached keys, from the most to the least recently used.
    pub closed spec fn keys(&self) -> Seq<CacheKey> {
        self.list.values()
    }

    /// The cached values by key.
    pub closed spec fn content(&self) -> Map<CacheKey, T> {
        Map::new(|k: CacheKey| self.keys().contains(k), |k: CacheKey| self.map@[key_code_spec(k)].0)
    }

    /// The handles of the live list nodes.
    pub closed spec fn live_handles(&self) -> Seq<LRUHandle> {
        self.list.handles()
    }

    /// The list handle recorded for `k`.
    pub closed spec fn handle_of(&self, k: CacheKey) -> LRUHandle {
        self.map@[key_code_spec(k)].1
    }

    pub closed spec fn capacity(&self) -> nat {
        self.cap as nat
    }

    /// The last identifier handed out, 0 before the first.
    pub closed spec fn last_id(&self) -> u64 {
        self.id
    }

    /// An empty cache that holds at most `capacity` entries.
    pub fn new(capacity: usize) -> (r: Self)
        requires
            capacity > 0,
        ensures
            r.wf(),
            r.keys() == Seq::<CacheKey>::empty(),
            r.content() == Map::<CacheKey, T>::empty(),
            r.capacity() == capacity,
            r.last_id() == 0,
    {
        let list = LRUList::new();
        let r = Cache { list, map: HashMap::with_capacity(1024), cap: capacity, id: 0 };
        assert(r.content() =~= Map::<CacheKey, T>::empty());
        r
    }

    /// A fresh identifier, one more than the last; the first is 1.
    pub fn new_cache_id(&mut self) -> (r: CacheID)
        requires
            old(self).wf(),
            old(self).last_id() < u64::MAX,
        ensures
            r == old(self).last_id() + 1,
            final(self).last_id() == r,
            final(self).wf(),
            final(self).keys() == old(self).keys(),
            final(self).content() == old(self).content(),
            final(self).capacity() == old(self).capacity(),
    {
        self.id = self.id + 1;
        assert(self.list == old(self).list);
        assert(self.map@ == old(self).map@);
        self.id
    }

    /// The number of cached entries.
    pub fn count(&self) -> (r: usize)
        requires
            self.wf(),
        ensures
            r == self.keys().len(),
    {
        self.list.count()
    }

    /// The capacity this cache was made with.
    pub fn cap(&self) -> (r: usize)
        ensures
            r == self.capacity(),
    {
        self.cap
    }

    /// A key is cached exactly when its code is in the map.
    proof fn lemma_lookup(&self, key: CacheKey)
        requires
            self.wf(),
        ensures
            self.map@.contains_key(key_code_spec(key)) == self.keys().contains(key),
            self.keys().contains(key) ==> {
                let i = self.keys().index_of(key);
                &&& 0 <= i < self.keys().len()
                &&& self.keys()[i] == key
                &&& self.map@[key_code_spec(key)].1 == self.list.handles()[i]
                &&& self.list.handles().contains(self.map@[key_code_spec(key)].1)
            },
    {
        let ks = self.keys();
        let c = key_code_spec(key);
        if self.map@.contains_key(c) {
            let i = choose|i: int| 0 <= i < ks.len() && key_code_spec(ks[i]) == c;
            lemma_key_code_injective(ks[i], key);
        }
        if ks.contains(key) {
            let i = ks.index_of(key);
            assert(ks[i] == key);
            self.list.lemma_handles_unique();
            assert(self.list.handles()[i] == self.map@[c].1);
        }
    }

    /// Remove the entry for `key` and return its value; `None`, with nothing
    /// changed, when `key` is not cached.
    pub fn remove(&mut self, key: &CacheKey) -> (r: Option<T>)
        requires
            old(self).wf(),
        ensures
            final(self).wf(),
            final(self).content() == old(self).content().remove(*key),
            old(self).content().contains_key(*key) ==> {
                &&& r == Some(old(self).content()[*key])
                &&& final(self).keys() == old(self).keys().remove(old(self).keys().index_of(*key))
            },
            !old(self).content().contains_key(*key) ==> {
                &&& r == None::<T>
                &&& final(self).keys() == old(self).keys()
            },
            final(self).capacity() == old(self).capacity(),
            final(self).last_id() == old(self).last_id(),
    {
        let code = key_code(key);
        proof {
            self.lemma_lookup(*key);
        }
        match self.map.remove(&code) {
            None => {
                assert(self.map@ =~= old(self).map@);
                assert(self.content() =~= old(self).content().remove(*key));
                None
            },
            Some(entry) => {
                let ghost ks = self.keys();
                let ghost i = ks.index_of(*key);
                let (elem, h) = entry;
                proof {
                    old(self).list.lemma_handles_unique();
                }
                self.list.remove(h);
                proof {
                    let ks2 = self.keys();
                    assert(ks2 == ks.remove(i));
                    assert(self.list.handles() == old(self).list.handles().remove(i));
                    assert forall|j: int| 0 <= j < ks2.len() implies {
                        &&& self.map@.contains_key(key_code_spec(#[trigger] ks2[j]))
                        &&& self.map@[key_code_spec(ks2[j])].1 == self.list.handles()[j]
                    } by {
                        let j1 = if j < i { j } else { j + 1 };
                        assert(ks2[j] == ks[j1]);
                        assert(ks[j1] != *key);
                        lemma_key_code_injective(ks[j1], *key);
                    }
                    assert forall|c: u128| #[trigger] self.map@.contains_key(c) implies exists|j: int|
                        0 <= j < ks2.len() && key_code_spec(ks2[j]) == c by {
                        let i0 = choose|i0: int| 0 <= i0 < ks.len() && key_code_spec(ks[i0]) == c;
                        assert(i0 != i);
                        if i0 < i {
                            assert(ks2[i0] == ks[i0]);
                        } else {
                            assert(ks2[i0 - 1] == ks[i0]);
                        }
                    }
                    assert(self.content() =~= old(self).content().remove(*key)) by {
                        assert forall|k: CacheKey| ks2.contains(k) <==> (ks.contains(k) && k != *key) by {
                            if ks2.contains(k) {
                                let j = ks2.index_of(k);
                                let j1 = if j < i { j } else { j + 1 };
                                assert(ks2[j] == ks[j1]);
                            }
                            if ks.contains(k) && k != *key {
                                let j = ks.index_of(k);
                                assert(j != i);
                                if j < i {
                                    assert(ks2[j] == k);
                                } else {
                                    assert(ks2[j - 1] == k);
                                }
                            }
                        }
                        assert forall|k: CacheKey| ks2.contains(k) implies self.map@[key_code_spec(k)]
                            == old(self).map@[key_code_spec(k)] by {
                            lemma_key_code_injective(k, *key);
                        }
                    }
                }
                Some(elem)
            },
        }
    }

    /// Look `key` up. On a hit the entry becomes the most recently used; on a
    /// miss nothing changes.
    pub fn get(&mut self, key: &CacheKey) -> (r: Option<&T>)
        requires
            old(self).wf(),
        ensures
            final(self).wf(),
            final(self).content() == old(self).content(),
            final(self).capacity() == old(self).capacity(),
            final(self).last_id() == old(self).last_id(),
            old(self).content().contains_key(*key) ==> {
                &&& r == Some(&old(self).content()[*key])
                &&& final(self).keys() == seq![*key] + old(self).keys().remove(
                    old(self).keys().index_of(*key),
                )
            },
            !old(self).content().contains_key(*key) ==> {
                &&& r.is_none()
                &&& final(self).keys() == old(self).keys()
            },
    {
        let code = key_code(key);
        proof {
            self.lemma_lookup(*key);
        }
        match self.map.get(&code) {
            None => None,
            Some(entry) => {
                let ghost ks = self.keys();
                let ghost i = ks.index_of(*key);
                proof {
                    old(self).list.lemma_handles_unique();
                }
                self.list.reinsert_front(entry.1);
                proof {
                    let ks2 = self.keys();
                    let hs = old(self).list.handles();
                    assert(ks2 == seq![*key] + ks.remove(i));
                    assert(self.list.handles() == seq![hs[i]] + hs.remove(i));
                    assert forall|j: int| 0 <= j < ks2.len() implies #[trigger] ks2[j] == (if j == 0 {
                        ks[i]
                    } else if j <= i {
                        ks[j - 1]
                    } else {
                        ks[j]
                    }) && self.list.handles()[j] == (if j == 0 {
                        hs[i]
                    } else if j <= i {
                        hs[j - 1]
                    } else {
                        hs[j]
                    }) by {}
                    assert(ks2.no_duplicates()) by {
                        assert forall|a: int, b: int| 0 <= a < b < ks2.len() implies ks2[a] != ks2[b] by {
                            let a1 = if a == 0 { i } else if a <= i { a - 1 } else { a };
                            let b1 = if b == 0 { i } else if b <= i { b - 1 } else { b };
                            assert(ks2[a] == ks[a1]);
                            assert(ks2[b] == ks[b1]);
                        }
                    }
                    assert forall|c: u128| #[trigger] self.map@.contains_key(c) implies exists|j: int|
                        0 <= j < ks2.len() && key_code_spec(ks2[j]) == c by {
                        let i0 = choose|i0: int| 0 <= i0 < ks.len() && key_code_spec(ks[i0]) == c;
                        if i0 == i {
                            assert(ks2[0] == ks[i0]);
                        } else if i0 < i {
                            assert(ks2[i0 + 1] == ks[i0]);
                        } else {
                            assert(ks2[i0] == ks[i0]);
                        }
                    }
                    assert(self.content() =~= old(self).content()) by {
                        assert forall|k: CacheKey| ks2.contains(k) <==> ks.contains(k) by {
                            if ks2.contains(k) {
                                let j = ks2.index_of(k);
                                assert(ks2[j] == k);
                            }
                            if ks.contains(k) {
                                let j = ks.index_of(k);
                                if j == i {
                                    assert(ks2[0] == k);
                                } else if j < i {
                                    assert(ks2[j + 1] == k);
                                } else {
                                    assert(ks2[j] == k);
                                }
                            }
                        }
                    }
                }
                Some(&entry.0)
            },
        }
    }

    /// Drop the least recently used entry.
    fn evict_last(&mut self)
        requires
            old(self).wf(),
            old(self).keys().len() > 0,
        ensures
            final(self).wf(),
            final(self).keys() == old(self).keys().drop_last(),
            final(self).content() == old(self).content().remove(old(self).keys().last()),
            final(self).capacity() == old(self).capacity(),
            final(self).last_id() == old(self).last_id(),
    {
        let ghost ks = self.keys();
        let ghost i = ks.len() - 1;
        let ghost key = ks.last();
        proof {
            self.lemma_lookup(key);
        }
        let removed = self.list.remove_last();
        match removed {
            Some(k) => {
                let code = key_code(&k);
                self.map.remove(&code);
                proof {
                    let ks2 = self.keys();
                    assert(k == key);
                    assert(ks2 =~= ks.remove(i));
                    old(self).list.lemma_handles_unique();
                    self.list.lemma_handles_unique();
                    assert(self.list.handles() == old(self).list.handles().drop_last());
                    assert forall|j: int| 0 <= j < ks2.len() implies {
                        &&& self.map@.contains_key(key_code_spec(#[trigger] ks2[j]))
                        &&& self.map@[key_code_spec(ks2[j])].1 == self.list.handles()[j]
                    } by {
                        assert(ks2[j] == ks[j]);
                        assert(self.list.handles()[j] == old(self).list.handles()[j]);
                        assert(ks[j] != key);
                        lemma_key_code_injective(ks[j], key);
                    }
                    assert forall|c: u128| #[trigger] self.map@.contains_key(c) implies exists|j: int|
                        0 <= j < ks2.len() && key_code_spec(ks2[j]) == c by {
                        let i0 = choose|i0: int| 0 <= i0 < ks.len() && key_code_spec(ks[i0]) == c;
                        assert(i0 != i);
                        assert(ks2[i0] == ks[i0]);
                    }
                    assert(self.content() =~= old(self).content().remove(key)) by {
                        assert forall|k2: CacheKey| ks2.contains(k2) <==> (ks.contains(k2) && k2 != key) by {
                            if ks2.contains(k2) {
                                let j = ks2.index_of(k2);
                                assert(ks2[j] == ks[j]);
                            }
                            if ks.contains(k2) && k2 != key {
                                let j = ks.index_of(k2);
                                assert(ks2[j] == k2);
                            }
                        }
                        assert forall|k2: CacheKey| ks2.contains(k2) implies self.map@[key_code_spec(k2)]
                            == old(self).map@[key_code_spec(k2)] by {
                            lemma_key_code_injective(k2, key);
                        }
                    }
                }
            },
            None => {},
        }
    }

    /// Insert `elem` under `key` as the most recently used entry. An entry
    /// already held for `key` is replaced; otherwise, when the cache is full,
    /// the least recently used entry is evicted first.
    pub fn insert(&mut self, key: &CacheKey, elem: T)
        requires
            old(self).wf(),
        ensures
            final(self).wf(),
            final(self).keys() == seq![*key] + keys_kept(
                old(self).keys(),
                *key,
                old(self).capacity(),
            ),
            final(self).content() == (if !old(self).keys().contains(*key) && old(self).keys().len()
                >= old(self).capacity() {
                old(self).content().remove(old(self).keys().last())
            } else {
                old(self).content()
            }).insert(*key, elem),
            final(self).capacity() == old(self).capacity(),
            final(self).last_id() == old(self).last_id(),
    {
        let replaced = self.remove(key);
        if replaced.is_none() && self.list.count() >= self.cap {
            self.evict_last();
        }
        let ghost ks = self.keys();
        let ghost content1 = self.content();
        let ghost map1 = self.map@;
        let ghost hs1 = self.list.handles();
        proof {
            self.lemma_lookup(*key);
            assert(!content1.contains_key(*key));
            assert(!ks.contains(*key));
            assert(ks.len() < self.cap);
            self.list.lemma_handles_unique();
        }
        let code = key_code(key);
        let h = self.list.insert(*key);
        self.map.insert(code, (elem, h));
        proof {
            let ks2 = self.keys();
            self.list.lemma_handles_unique();
            assert(ks2 == seq![*key] + ks);
            assert forall|j: int| 0 < j < ks2.len() implies #[trigger] ks2[j] == ks[j - 1] by {}
            assert(ks2.no_duplicates()) by {
                assert forall|a: int, b: int| 0 <= a < b < ks2.len() implies ks2[a] != ks2[b] by {
                    if a == 0 {
                        assert(ks2[b] == ks[b - 1]);
                    } else {
                        assert(ks2[a] == ks[a - 1]);
                        assert(ks2[b] == ks[b - 1]);
                    }
                }
            }
            assert forall|j: int| 0 <= j < ks2.len() implies {
                &&& self.map@.contains_key(key_code_spec(#[trigger] ks2[j]))
                &&& self.map@[key_code_spec(ks2[j])].1 == self.list.handles()[j]
            } by {
                if j > 0 {
                    assert(ks2[j] == ks[j - 1]);
                    assert(self.list.handles()[j] == hs1[j - 1]);
                    assert(ks[j - 1] != *key);
                    lemma_key_code_injective(ks[j - 1], *key);
                    assert(map1[key_code_spec(ks[j - 1])].1 == hs1[j - 1]);
                } else {
                    assert(ks2[0] == *key);
                    assert(self.list.handles()[0] == h);
                }
            }
            assert forall|c: u128| #[trigger] self.map@.contains_key(c) implies exists|j: int|
                0 <= j < ks2.len() && key_code_spec(ks2[j]) == c by {
                if c != code {
                    let i0 = choose|i0: int| 0 <= i0 < ks.len() && key_code_spec(ks[i0]) == c;
                    assert(ks2[i0 + 1] == ks[i0]);
                } else {
                    assert(ks2[0] == *key);
                }
            }
            assert(self.content() =~= content1.insert(*key, elem)) by {
                assert forall|k2: CacheKey| ks2.contains(k2) <==> (ks.contains(k2) || k2 == *key) by {
                    if ks2.contains(k2) {
                        let j = ks2.index_of(k2);
                        if j > 0 {
                            assert(ks2[j] == ks[j - 1]);
                        }
                    }
                    if ks.contains(k2) {
                        let j = ks.index_of(k2);
                        assert(ks2[j + 1] == k2);
                    }
                    if k2 == *key {
                        assert(ks2[0] == k2);
                    }
                }
                assert forall|k2: CacheKey| ks.contains(k2) implies self.map@[key_code_spec(k2)]
                    == map1[key_code_spec(k2)] by {
                    lemma_key_code_injective(k2, *key);
                }
            }
        }
    }

    /// A well-formed cache never holds more entries than its capacity.
    pub proof fn lemma_count_within_cap(&self)
        requires
            self.wf(),
        ensures
            self.keys().len() <= self.capacity(),
            self.content().dom().len() <= self.capacity(),
    {
        self.lemma_content_domain();
        self.keys().unique_seq_to_set();
    }

    /// The cached keys are distinct and are exactly the keys of `content`.
    pub proof fn lemma_content_domain(&self)
        requires
            self.wf(),
        ensures
            self.keys().no_duplicates(),
            self.content().dom() == self.keys().to_set(),
    {
        assert(self.content().dom() =~= self.keys().to_set());
    }

    /// The number of entries equals the number of live list nodes; the node
    /// recorded for each cached key is live and holds that key, and each live
    /// node belongs to exactly one cached key.
    pub proof fn lemma_handles_consistent(&self)
        requires
            self.wf(),
        ensures
            self.keys().len() == self.live_handles().len(),
            self.live_handles().no_duplicates(),
            forall|i: int|
                0 <= i < self.keys().len() ==> self.handle_of(#[trigger] self.keys()[i])
                    == self.live_handles()[i],
            forall|k: CacheKey|
                #[trigger] self.content().contains_key(k) ==> self.live_handles().contains(
                    self.handle_of(k),
                ),
    {
        self.list.lemma_handles_unique();
        assert forall|k: CacheKey| #[trigger] self.content().contains_key(k) implies self.live_handles().contains(
            self.handle_of(k),
        ) by {
            let i = self.keys().index_of(k);
            assert(self.live_handles()[i] == self.handle_of(k));
        }
    }
}

/// Removing a key leaves it absent, so a second removal of the same key finds
/// nothing and changes nothing.
pub proof fn lemma_remove_idempotent<T>(content: Map<CacheKey, T>, key: CacheKey)
    ensures
        !content.remove(key).contains_key(key),
        content.remove(key).remove(key) == content.remove(key),
        !content.contains_key(key) ==> content.remove(key) == content,
{
    assert(content.remove(key).remove(key) =~= content.remove(key));
    if !content.contains_key(key) {
        assert(content.remove(key) =~= content);
    }
}

} // verus!
