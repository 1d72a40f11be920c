//! Bounded key-to-value store with FIFO eviction. Once the table is at
//! capacity, inserting a fresh key evicts the oldest inserted key; updating an
//! existing key leaves the eviction order unchanged. Keys are the board's
//! 64-bit fingerprints.

use std::collections::HashMap;
use std::collections::VecDeque;
use vstd::prelude::*;

verus! {

broadcast use vstd::std_specs::hash::group_hash_axioms, vstd::std_specs::vecdeque::group_vec_dequeue_axioms;

/// How large a cache may grow, and whether it caches at all. A capacity of
/// zero asks for a large default rather than an empty table; disabling is
/// the separate `enable_cache` flag.
pub struct CacheConfig {
    pub capacity: usize,
    pub enable_cache: bool,
}

/// The capacity that a zero capacity stands for.
pub const DEFAULT_CACHE_CAPACITY: usize = 1000000;

impl Default for CacheConfig {
    /// A large cache, enabled.
    fn default() -> (r: Self)
        ensures
            r.capacity == DEFAULT_CACHE_CAPACITY,
            r.enable_cache,
    {
        CacheConfig { capacity: DEFAULT_CACHE_CAPACITY, enable_cache: true }
    }
}

/// FIFO-evicted memo table from fingerprints to values.
#[derive(Debug)]
pub struct Cache<V> {
    capacity: usize,
    enabled: bool,
    keys_fifo: VecDeque<u64>,
    map: HashMap<u64, V>,
}

impl<V> Cache<V> {
    /// The stored associations.
    pub closed spec fn smap(self) -> Map<u64, V> {
        self.map@
    }

    /// The stored keys, oldest first.
    pub closed spec fn squeue(self) -> Seq<u64> {
        self.keys_fifo@
    }

    pub closed spec fn spec_capacity(self) -> int {
        self.capacity as int
    }

    pub closed spec fn spec_enabled(self) -> bool {
        self.enabled
    }

    /// Every stored key sits in the queue exactly once, and the table never
    /// holds more than `capacity` keys.
    pub closed spec fn wf(self) -> bool {
        &&& self.capacity >= 1
        &&& self.keys_fifo@.len() <= self.capacity
        &&& forall|i: int, j: int|
            0 <= i < j < self.keys_fifo@.len() ==> self.keys_fifo@[i] != self.keys_fifo@[j]
        &&& forall|k: u64| #[trigger] self.map@.contains_key(k) <==> self.keys_fifo@.contains(k)
    }

    /// A fresh cache under `config`; a zero capacity is read as the large
    /// default.
    pub fn new(config: CacheConfig) -> (r: Cache<V>)
        ensures
            r.wf(),
            r.smap() == Map::<u64, V>::empty(),
            r.squeue() == Seq::<u64>::empty(),
            r.spec_enabled() == config.enable_cache,
            r.spec_capacity() == if config.capacity == 0 {
                DEFAULT_CACHE_CAPACITY as int
            } else {
                config.capacity as int
            },
    {
        let capacity = if config.capacity == 0 {
            DEFAULT_CACHE_CAPACITY
        } else {
            config.capacity
        };
        let r = Cache {
            capacity,
            enabled: config.enable_cache,
            keys_fifo: VecDeque::new(),
            map: HashMap::new(),
        };
        proof {
            assert(r.smap() =~= Map::<u64, V>::empty());
            assert(r.squeue() =~= Seq::<u64>::empty());
        }
        r
    }

    /// The value stored under `key`, if the cache is enabled and holds one.
    pub fn get(&self, key: &u64) -> (r: Option<&V>)
        ensures
            match r {
                Some(v) => self.spec_enabled() && self.smap().contains_key(*key) && *v
                    == self.smap()[*key],
                None => !self.spec_enabled() || !self.smap().contains_key(*key),
            },
    {
        if !self.enabled {
            return None;
        }
        self.map.get(key)
    }

    /// Store `value` under `key`. An existing key is updated in place; a
    /// fresh key evicts the oldest key first when the table is full. A
    /// disabled cache stores nothing.
    pub fn put(&mut self, key: u64, value: V)
        requires
            old(self).wf(),
        ensures
            final(self).wf(),
            final(self).spec_enabled() == old(self).spec_enabled(),
            final(self).spec_capacity() == old(self).spec_capacity(),
            !old(self).spec_enabled() ==> final(self).smap() == old(self).smap()
                && final(self).squeue() == old(self).squeue(),
            old(self).spec_enabled() ==> final(self).smap().contains_key(key)
                && final(self).smap()[key] == value,
            old(self).spec_enabled() && old(self).smap().contains_key(key)
                ==> final(self).smap() == old(self).smap().insert(key, value)
                && final(self).squeue() == old(self).squeue(),
            old(self).spec_enabled() && !old(self).smap().contains_key(key)
                && old(self).squeue().len() < old(self).spec_capacity()
                ==> final(self).smap() == old(self).smap().insert(key, value)
                && final(self).squeue() == old(self).squeue().push(key),
            old(self).spec_enabled() && !old(self).smap().contains_key(key)
                && old(self).squeue().len() >= old(self).spec_capacity()
                ==> final(self).smap() == old(self).smap().remove(old(self).squeue()[0]).insert(key, value)
                && final(self).squeue() == old(self).squeue().drop_first().push(key),
    {
        if !self.enabled {
            return ;
        }
        if self.map.contains_key(&key) {
            self.map.insert(key, value);
            return ;
        }
        if self.keys_fifo.len() >= self.capacity {
            let oldest = self.keys_fifo.pop_front();
            match oldest {
                Some(oldest_key) => {
                    self.map.remove(&oldest_key);
                    proof {
                        assert forall|k: u64| #[trigger]
                            self.map@.contains_key(k) implies self.keys_fifo@.contains(k) by {
                            let i = choose|i: int|
                                0 <= i < old(self).keys_fifo@.len() && old(self).keys_fifo@[i]
                                    == k;
                            assert(self.keys_fifo@[i - 1] == k);
                        }
                        assert forall|k: u64| self.keys_fifo@.contains(k) implies #[trigger]
                            self.map@.contains_key(k) by {
                            let i = choose|i: int|
                                0 <= i < self.keys_fifo@.len() && self.keys_fifo@[i] == k;
                            assert(old(self).keys_fifo@[i + 1] == k);
                            assert(k != oldest_key);
                        }
                    }
                },
                None => {},
            }
        }
        let ghost pre_q = self.keys_fifo@;
        let ghost pre_m = self.map@;
        self.keys_fifo.push_back(key);
        self.map.insert(key, value);
        proof {
            let q = self.keys_fifo@;
            assert(q == pre_q.push(key));
            assert forall|k: u64| #[trigger] self.map@.contains_key(k) implies q.contains(k) by {
                if k == key {
                    assert(q[q.len() - 1] == k);
                } else {
                    assert(pre_m.contains_key(k));
                    let i = choose|i: int| 0 <= i < pre_q.len() && pre_q[i] == k;
                    assert(q[i] == k);
                }
            }
            assert forall|k: u64| q.contains(k) implies #[trigger] self.map@.contains_key(k) by {
                let i = choose|i: int| 0 <= i < q.len() && q[i] == k;
                if i < q.len() - 1 {
                    assert(pre_q[i] == k);
                    assert(pre_q.contains(k));
                }
            }
        }
    }

    /// What well-formedness guarantees to the outside: the capacity is at
    /// least one, the eviction queue never exceeds it, the queue holds no
    /// key twice, and the queue and the table list exactly the same keys.
    pub proof fn lemma_wf_facts(self)
        requires
            self.wf(),
        ensures
            self.spec_capacity() >= 1,
            self.squeue().len() <= self.spec_capacity(),
            forall|i: int, j: int|
                0 <= i < j < self.squeue().len() ==> self.squeue()[i] != self.squeue()[j],
            forall|k: u64| #[trigger] self.smap().contains_key(k) <==> self.squeue().contains(k),
    {
    }

    /// Whether the cache is enabled and holds `key`.
    pub fn has(&self, key: &u64) -> (r: bool)
        ensures
            r == (self.spec_enabled() && self.smap().contains_key(*key)),
    {
        if !self.enabled {
            return false;
        }
        self.map.contains_key(key)
    }
}

} // verus!
