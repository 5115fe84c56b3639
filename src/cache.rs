use crate::model::{
    excess, expired, key_type_contract, lemma_evict_wf, lemma_filter_all_pass, lemma_insert_wf, lemma_remove_wf,
    lemma_sweep_wf, lemma_wf_len, other_than, CacheModel, Entry,
};
use crate::time::{clock_reading, clock_start, TimeSpan};
use std::collections::HashMap;
use std::collections::VecDeque;
use std::hash::Hash;
use std::time::Instant;
use vstd::prelude::*;

verus! {

broadcast use vstd::std_specs::hash::group_hash_axioms;

/// A FIFO cache with optional time-to-live.
///
/// The cache evicts its oldest keys, by first insertion, once a fresh key
/// takes it over capacity. Writing a key that is already present refreshes
/// its value and expiration but not its place in line. Expired entries are
/// hidden from reads at once and leave storage only through
/// `cleanup_expired`.
///
/// A fresh insert adds the key first and evicts after, so within that one
/// call the cache may hold one entry more than its capacity.
///
/// Time is counted in nanoseconds on the cache's own monotonic clock, which
/// starts at zero when the cache is made. The methods ending in `_at` take
/// that reading as an argument; the others read the clock themselves.
#[derive(Debug)]
#[verifier::reject_recursive_types(K)]
pub struct FifoCache<K, V> {
    index: HashMap<K, Entry<V>>,
    order: VecDeque<K>,
    max_size: usize,
    default_ttl: Option<TimeSpan>,
    origin: Instant,
}

impl<K, V> View for FifoCache<K, V> {
    type V = CacheModel<K, V>;

    closed spec fn view(&self) -> CacheModel<K, V> {
        CacheModel {
            order: self.order@,
            index: self.index@,
            max_size: self.max_size as nat,
            ttl: self.default_ttl,
        }
    }
}

impl<K: Clone + Eq + Hash, V> FifoCache<K, V> {
    /// The cache's invariant: its model is well formed and its key type
    /// behaves as a key must.
    pub open spec fn wf(&self) -> bool {
        &&& self@.wf()
        &&& key_type_contract::<K>()
    }

    /// Makes an empty cache that holds at most `max_size` entries, each of
    /// which expires `default_ttl` after it was last written.
    pub fn new(max_size: usize, default_ttl: TimeSpan) -> (r: Self)
        requires
            key_type_contract::<K>(),
        ensures
            r.wf(),
            r@ == (CacheModel::<K, V> {
                order: Seq::empty(),
                index: Map::empty(),
                max_size: max_size as nat,
                ttl: Some(default_ttl),
            }),
    {
        Self::with_ttl(max_size, Some(default_ttl))
    }

    /// Makes an empty cache that holds at most `max_size` entries, none of
    /// which ever expires.
    pub fn without_ttl(max_size: usize) -> (r: Self)
        requires
            key_type_contract::<K>(),
        ensures
            r.wf(),
            r@ == (CacheModel::<K, V> {
                order: Seq::empty(),
                index: Map::empty(),
                max_size: max_size as nat,
                ttl: None,
            }),
    {
        Self::with_ttl(max_size, None)
    }

    fn with_ttl(max_size: usize, default_ttl: Option<TimeSpan>) -> (r: Self)
        requires
            key_type_contract::<K>(),
        ensures
            r.wf(),
            r@ == (CacheModel::<K, V> {
                order: Seq::empty(),
                index: Map::empty(),
                max_size: max_size as nat,
                ttl: default_ttl,
            }),
    {
        let room = if max_size < usize::MAX {
            max_size + 1
        } else {
            max_size
        };
        let r = FifoCache {
            index: HashMap::with_capacity(room),
            order: VecDeque::with_capacity(room),
            max_size,
            default_ttl,
            origin: clock_start(),
        };
        assert(r@.index.dom() =~= r@.order.to_set());
        r
    }

    /// The cache's clock: nanoseconds since the cache was made.
    fn now(&self) -> u64 {
        clock_reading(&self.origin)
    }

    /// Whether `e` is expired at `now`.
    fn is_expired(e: &Entry<V>, now: u64) -> (r: bool)
        ensures
            r == expired(*e, now),
    {
        match e.expires_at {
            Some(t) => t <= now as u128,
            None => false,
        }
    }

    /// The value of `key` as seen at instant `now`: present when the key is
    /// indexed and its entry has not expired.
    pub fn get_at(&self, key: &K, now: u64) -> (r: Option<&V>)
        requires
            self.wf(),
        ensures
            match r {
                Some(v) => self@.lookup(*key, now) == Some(*v),
                None => self@.lookup(*key, now) is None,
            },
    {
        match self.index.get(key) {
            Some(e) => {
                if Self::is_expired(e, now) {
                    None
                } else {
                    Some(&e.value)
                }
            },
            None => None,
        }
    }

    /// The value of `key` as seen now on the cache's clock. Reading never
    /// removes anything, expired or not.
    pub fn get(&self, key: &K) -> (r: Option<&V>)
        requires
            self.wf(),
        ensures
            exists|now: u64|
                match r {
                    Some(v) => self@.lookup(*key, now) == Some(*v),
                    None => self@.lookup(*key, now) is None,
                },
    {
        let now = self.now();
        self.get_at(key, now)
    }

    /// Evicts from the front of the ledger until the capacity holds.
    fn prune(&mut self)
        requires
            key_type_contract::<K>(),
            old(self)@.index.dom() == old(self)@.order.to_set(),
        ensures
            final(self)@ == old(self)@.evict_to(old(self).max_size as nat),
            final(self).origin == old(self).origin,
    {
        let ghost start = self@;
        let ghost n = excess(start.order.len(), self.max_size as nat) as int;
        let ghost mut i: int = 0;
        while self.order.len() > self.max_size
            invariant
                key_type_contract::<K>(),
                0 <= i <= n,
                n == excess(start.order.len(), start.max_size),
                self.max_size == start.max_size,
                self.default_ttl == start.ttl,
                self.origin == old(self).origin,
                start == old(self)@,
                self.order@ == start.order.subrange(i, start.order.len() as int),
                self.index@ == start.index.remove_keys(start.order.subrange(0, i).to_set()),
            decreases self.order@.len(),
        {
            let front = self.order.pop_front();
            if let Some(k) = front {
                self.index.remove(&k);
                proof {
                    assert(k == start.order[i]);
                    assert(start.order.subrange(0, i + 1) =~= start.order.subrange(0, i).push(k));
                    start.order.subrange(0, i).lemma_push_to_set_commute(k);
                    assert(self.order@ =~= start.order.subrange(i + 1, start.order.len() as int));
                    assert(self.index@ =~= start.index.remove_keys(
                        start.order.subrange(0, i + 1).to_set(),
                    ));
                    i = i + 1;
                }
            }
        }
        assert(self@ =~= start.evict_to(start.max_size));
    }

    /// Writes `value` under `key` at instant `now`, stamping the entry with
    /// the current time-to-live. A key already present keeps its place in
    /// line; a fresh one joins the back, and the oldest keys are then evicted
    /// until the cache is within capacity.
    pub fn insert_at(&mut self, key: K, value: V, now: u64)
        requires
            old(self).wf(),
        ensures
            final(self).wf(),
            final(self)@ == old(self)@.insert(key, value, now),
    {
        let expires_at = match self.default_ttl {
            Some(d) => Some(now as u128 + d.nanos as u128),
            None => None,
        };
        let ghost start = self@;
        if self.index.contains_key(&key) {
            self.index.insert(key, Entry { value, expires_at });
            assert(self@ =~= start.insert(key, value, now));
        } else {
            let ledger_key = key.clone();
            self.index.insert(key, Entry { value, expires_at });
            self.order.push_back(ledger_key);
            proof {
                assert(ledger_key == key);
                assert forall|k: K| self@.index.dom().contains(k) <==> self@.order.to_set().contains(
                    k,
                ) by {
                    if start.order.contains(k) {
                        let i = choose|i: int| 0 <= i < start.order.len() && start.order[i] == k;
                        assert(self@.order[i] == k);
                    }
                    if self@.order.contains(k) && k != key {
                        let i = choose|i: int| 0 <= i < self@.order.len() && self@.order[i] == k;
                        assert(start.order[i] == k);
                    }
                    assert(self@.order[start.order.len() as int] == key);
                }
                assert(self@.index.dom() =~= self@.order.to_set());
            }
            self.prune();
        }
        proof {
            lemma_insert_wf(start, key, value, now);
        }
    }

    /// Writes `value` under `key` now on the cache's clock; see `insert_at`.
    pub fn insert(&mut self, key: K, value: V)
        requires
            old(self).wf(),
        ensures
            final(self).wf(),
            exists|now: u64| final(self)@ == old(self)@.insert(key, value, now),
    {
        let now = self.now();
        self.insert_at(key, value, now);
    }

    /// Converts `key` and `value` into the cache's types, then writes them as
    /// `insert` does.
    pub fn insert_lazy<KI: Into<K>, VI: Into<V>>(&mut self, key: KI, value: VI)
        requires
            old(self).wf(),
        ensures
            final(self).wf(),
            exists|k: K, v: V, now: u64|
                {
                    &&& call_ensures(KI::into, (key,), k)
                    &&& call_ensures(VI::into, (value,), v)
                    &&& final(self)@ == old(self)@.insert(k, v, now)
                },
    {
        let k: K = key.into();
        let v: V = value.into();
        self.insert(k, v);
    }

    /// Takes `key` out of the cache and hands back its value, if it was
    /// held. An entry that has expired but was not yet swept still gives its
    /// stored value: expiration only hides entries from reads.
    pub fn remove(&mut self, key: &K) -> (r: Option<V>)
        requires
            old(self).wf(),
        ensures
            final(self).wf(),
            final(self)@ == old(self)@.remove(*key),
            r == (if old(self)@.index.contains_key(*key) {
                Some(old(self)@.index[*key].value)
            } else {
                None
            }),
    {
        let ghost start = self@;
        match self.index.remove(key) {
            Some(e) => {
                let mut kept: VecDeque<K> = VecDeque::new();
                let ghost p = other_than(*key);
                let ghost mut i: int = 0;
                while self.order.len() > 0
                    invariant
                        key_type_contract::<K>(),
                        start == old(self)@,
                        start.wf(),
                        p == other_than(*key),
                        0 <= i <= start.order.len(),
                        self.max_size == start.max_size,
                        self.default_ttl == start.ttl,
                        self.index@ == start.index.remove(*key),
                        self.order@ == start.order.subrange(i, start.order.len() as int),
                        kept@ == start.order.subrange(0, i).filter(p),
                    decreases self.order@.len(),
                {
                    let front = self.order.pop_front();
                    if let Some(k) = front {
                        proof {
                            assert(k == start.order[i]);
                            assert(start.order.to_set().contains(k));
                            assert(self.index@.contains_key(k) == p(k));
                            assert(start.order.subrange(0, i + 1) =~= start.order.subrange(
                                0,
                                i,
                            ).push(k));
                            start.order.subrange(0, i).lemma_filter_push(k, p);
                            assert(self.order@ =~= start.order.subrange(
                                i + 1,
                                start.order.len() as int,
                            ));
                        }
                        if self.index.contains_key(&k) {
                            kept.push_back(k);
                        }
                        proof {
                            i = i + 1;
                        }
                    }
                }
                assert(start.order.subrange(0, i) =~= start.order);
                self.order = kept;
                proof {
                    assert(self@ =~= start.remove(*key));
                    lemma_remove_wf(start, *key);
                }
                Some(e.value)
            },
            None => {
                proof {
                    assert forall|i: int| 0 <= i < start.order.len() implies other_than(*key)(
                        start.order[i],
                    ) by {
                        assert(start.order.to_set().contains(start.order[i]));
                    }
                    lemma_filter_all_pass(start.order, other_than(*key));
                    assert(self@ =~= start.remove(*key));
                    lemma_remove_wf(start, *key);
                }
                None
            },
        }
    }

    /// Takes every entry that is expired at instant `now` out of storage,
    /// keeping the others in their order.
    pub fn cleanup_expired_at(&mut self, now: u64)
        requires
            old(self).wf(),
        ensures
            final(self).wf(),
            final(self)@ == old(self)@.sweep(now),
    {
        let ghost start = self@;
        let ghost p = start.live_at(now);
        let mut kept: VecDeque<K> = VecDeque::new();
        let ghost mut i: int = 0;
        while self.order.len() > 0
            invariant
                key_type_contract::<K>(),
                start == old(self)@,
                start.wf(),
                p == start.live_at(now),
                0 <= i <= start.order.len(),
                self.max_size == start.max_size,
                self.default_ttl == start.ttl,
                self.order@ == start.order.subrange(i, start.order.len() as int),
                kept@ == start.order.subrange(0, i).filter(p),
                forall|k: K| #[trigger]
                    self.index@.contains_key(k) <==> start.index.contains_key(k) && (p(k)
                        || !start.order.subrange(0, i).contains(k)),
                forall|k: K| #[trigger]
                    self.index@.contains_key(k) ==> self.index@[k] == start.index[k],
            decreases self.order@.len(),
        {
            let front = self.order.pop_front();
            if let Some(k) = front {
                let ghost before = self.index@;
                proof {
                    assert(k == start.order[i]);
                    assert(start.order.to_set().contains(k));
                    assert(!start.order.subrange(0, i).contains(k)) by {
                        if start.order.subrange(0, i).contains(k) {
                            let j = choose|j: int|
                                0 <= j < i && start.order.subrange(0, i)[j] == k;
                            assert(start.order[j] == start.order[i]);
                        }
                    }
                    assert(start.order.subrange(0, i + 1) =~= start.order.subrange(0, i).push(k));
                    start.order.subrange(0, i).lemma_filter_push(k, p);
                    assert(self.order@ =~= start.order.subrange(i + 1, start.order.len() as int));
                    assert forall|x: K|
                        start.order.subrange(0, i + 1).contains(x) <==> start.order.subrange(
                            0,
                            i,
                        ).contains(x) || x == k by {
                        let pre = start.order.subrange(0, i);
                        if pre.contains(x) {
                            let j = choose|j: int| 0 <= j < pre.len() && pre[j] == x;
                            assert(pre.push(k)[j] == x);
                        }
                        if pre.push(k).contains(x) && x != k {
                            let j = choose|j: int| 0 <= j < pre.push(k).len() && pre.push(k)[j] == x;
                            assert(pre[j] == x);
                        }
                        assert(pre.push(k)[i] == k);
                    }
                }
                let gone = match self.index.get(&k) {
                    Some(e) => Self::is_expired(e, now),
                    None => false,
                };
                if gone {
                    self.index.remove(&k);
                } else {
                    kept.push_back(k);
                }
                proof {
                    assert(gone == !p(k));
                    i = i + 1;
                }
            }
        }
        assert(start.order.subrange(0, i) =~= start.order);
        self.order = kept;
        proof {
            assert(self@.index =~= start.sweep(now).index);
            assert(self@ =~= start.sweep(now));
            lemma_sweep_wf(start, now);
        }
    }

    /// Takes every entry that is expired now on the cache's clock out of
    /// storage; see `cleanup_expired_at`.
    pub fn cleanup_expired(&mut self)
        requires
            old(self).wf(),
        ensures
            final(self).wf(),
            exists|now: u64| final(self)@ == old(self)@.sweep(now),
    {
        let now = self.now();
        self.cleanup_expired_at(now);
    }

    /// Empties the cache; capacity and time-to-live stay as they are.
    pub fn clear(&mut self)
        requires
            old(self).wf(),
        ensures
            final(self).wf(),
            final(self)@ == old(self)@.cleared(),
    {
        self.index.clear();
        self.order.clear();
        assert(self@.index.dom() =~= self@.order.to_set());
        assert(self@ =~= old(self)@.cleared());
    }

    /// The capacity.
    pub fn max_size(&self) -> (r: usize)
        ensures
            r == self@.max_size,
    {
        self.max_size
    }

    /// Sets the capacity to `max_size`. With `prune`, the oldest keys are
    /// evicted at once until the cache fits; without it, the cache may stay
    /// over capacity until the next fresh key is written.
    pub fn set_max_size(&mut self, max_size: usize, prune: bool)
        requires
            old(self).wf(),
        ensures
            final(self).wf(),
            final(self)@ == (if prune {
                CacheModel { max_size: max_size as nat, ..old(self)@ }.evict_to(max_size as nat)
            } else {
                CacheModel { max_size: max_size as nat, ..old(self)@ }
            }),
    {
        self.max_size = max_size;
        proof {
            lemma_evict_wf(self@, max_size as nat);
        }
        if prune {
            self.prune();
        }
    }

    /// The time-to-live given to entries when they are written, if any.
    pub fn default_ttl(&self) -> (r: Option<TimeSpan>)
        ensures
            r == self@.ttl,
    {
        self.default_ttl
    }

    /// Sets the time-to-live for entries written from now on. Entries already
    /// held keep the expiration they were given.
    pub fn set_default_ttl(&mut self, default_ttl: TimeSpan)
        requires
            old(self).wf(),
        ensures
            final(self).wf(),
            final(self)@ == (CacheModel { ttl: Some(default_ttl), ..old(self)@ }),
    {
        self.default_ttl = Some(default_ttl);
    }

    /// The number of entries held, expired ones included.
    pub fn len(&self) -> (r: usize)
        requires
            self.wf(),
        ensures
            r == self@.order.len(),
            r == self@.index.len(),
    {
        proof {
            lemma_wf_len(self@);
        }
        self.index.len()
    }

    /// Whether the cache holds no entry, expired ones included.
    pub fn is_empty(&self) -> (r: bool)
        requires
            self.wf(),
        ensures
            r == (self@.order.len() == 0),
            r == (self@.index.len() == 0),
    {
        self.len() == 0
    }
}

} // verus!
