use crate::time::TimeSpan;
use vstd::prelude::*;
use vstd::std_specs::hash::obeys_key_model;

verus! {

/// What the index holds for one key: its value and, when a time-to-live
/// applied at the last insert, the instant from which it counts as expired.
/// Instants are nanoseconds on the cache's own clock.
#[derive(Debug)]
pub struct Entry<V> {
    pub value: V,
    pub expires_at: Option<u128>,
}

/// The key type behaves as a key must: hashing is deterministic, `==` is
/// identity, and `clone` returns an identical key.
pub open spec fn key_type_contract<K: Clone>() -> bool {
    &&& obeys_key_model::<K>()
    &&& forall|a: K, b: K| #[trigger] call_ensures(K::clone, (&a,), b) ==> a == b
}

/// An entry is expired at `now` once its expiration instant is not after `now`.
pub open spec fn expired<V>(e: Entry<V>, now: u64) -> bool {
    match e.expires_at {
        Some(t) => t <= now,
        None => false,
    }
}

/// The expiration instant given to an entry written at `now`.
pub open spec fn stamp(ttl: Option<TimeSpan>, now: u64) -> Option<u128> {
    match ttl {
        Some(d) => Some((now + d.nanos) as u128),
        None => None,
    }
}

/// How many keys must leave a ledger of `len` keys to fit in `max`.
pub open spec fn excess(len: nat, max: nat) -> nat {
    if len > max {
        (len - max) as nat
    } else {
        0
    }
}

/// Every key but `key`.
pub open spec fn other_than<K>(key: K) -> spec_fn(K) -> bool {
    |k: K| k != key
}

/// The cache seen as mathematics: the order ledger, the index, the capacity
/// and the time-to-live given to entries when they are written.
#[verifier::reject_recursive_types(K)]
pub struct CacheModel<K, V> {
    pub order: Seq<K>,
    pub index: Map<K, Entry<V>>,
    pub max_size: nat,
    pub ttl: Option<TimeSpan>,
}

impl<K, V> CacheModel<K, V> {
    /// The ledger lists each indexed key exactly once.
    pub open spec fn wf(self) -> bool {
        &&& self.order.no_duplicates()
        &&& self.index.dom() == self.order.to_set()
    }

    /// The value that a read of `key` at `now` sees.
    pub open spec fn lookup(self, key: K, now: u64) -> Option<V> {
        if self.index.contains_key(key) && !expired(self.index[key], now) {
            Some(self.index[key].value)
        } else {
            None
        }
    }

    /// Evicts from the front of the ledger until at most `max` keys remain.
    pub open spec fn evict_to(self, max: nat) -> Self {
        let n = excess(self.order.len(), max) as int;
        CacheModel {
            order: self.order.subrange(n, self.order.len() as int),
            index: self.index.remove_keys(self.order.subrange(0, n).to_set()),
            ..self
        }
    }

    /// Writes `value` under `key` at `now`. A key already present keeps its
    /// place in the ledger; a fresh key goes to the back, after which the
    /// oldest keys are evicted down to the capacity.
    pub open spec fn insert(self, key: K, value: V, now: u64) -> Self {
        let e = Entry { value, expires_at: stamp(self.ttl, now) };
        if self.index.contains_key(key) {
            CacheModel { index: self.index.insert(key, e), ..self }
        } else {
            CacheModel {
                order: self.order.push(key),
                index: self.index.insert(key, e),
                ..self
            }.evict_to(self.max_size)
        }
    }

    /// Takes `key` out of both structures.
    pub open spec fn remove(self, key: K) -> Self {
        CacheModel { order: self.order.filter(other_than(key)), index: self.index.remove(key), ..self }
    }

    /// The keys whose entries are not expired at `now`.
    pub open spec fn live_at(self, now: u64) -> spec_fn(K) -> bool {
        |k: K| !expired(self.index[k], now)
    }

    /// Takes every entry expired at `now` out of both structures.
    pub open spec fn sweep(self, now: u64) -> Self {
        CacheModel {
            order: self.order.filter(self.live_at(now)),
            index: self.index.restrict(Set::new(self.live_at(now))),
            ..self
        }
    }

    /// Empties both structures, keeping the settings.
    pub open spec fn cleared(self) -> Self {
        CacheModel { order: Seq::empty(), index: Map::empty(), ..self }
    }
}

/// Filtering keeps a ledger free of duplicates, and keeps exactly the keys
/// that pass.
pub proof fn lemma_filter_keeps<K>(s: Seq<K>, p: spec_fn(K) -> bool)
    ensures
        s.no_duplicates() ==> s.filter(p).no_duplicates(),
        forall|k: K| #[trigger] s.filter(p).contains(k) <==> s.contains(k) && p(k),
    decreases s.len(),
{
    if s.len() == 0 {
        reveal(Seq::filter);
        assert(s.filter(p) =~= s);
    } else {
        let init = s.drop_last();
        let x = s.last();
        assert(s =~= init.push(x));
        lemma_filter_keeps(init, p);
        init.lemma_filter_push(x, p);
        assert forall|k: K| #[trigger] s.filter(p).contains(k) <==> s.contains(k) && p(k) by {
            if s.contains(k) && k != x {
                let i = choose|i: int| 0 <= i < s.len() && s[i] == k;
                assert(init[i] == k);
            }
            if init.contains(k) {
                let i = choose|i: int| 0 <= i < init.len() && init[i] == k;
                assert(s[i] == k);
            }
            if p(x) {
                let f = init.filter(p);
                if f.push(x).contains(k) && k != x {
                    let i = choose|i: int| 0 <= i < f.push(x).len() && f.push(x)[i] == k;
                    assert(f[i] == k);
                }
                if f.contains(k) {
                    let i = choose|i: int| 0 <= i < f.len() && f[i] == k;
                    assert(f.push(x)[i] == k);
                }
                assert(f.push(x)[f.len() as int] == x);
            }
        }
        if s.no_duplicates() && p(x) {
            let f = init.filter(p);
            assert(!init.contains(x)) by {
                if init.contains(x) {
                    let i = choose|i: int| 0 <= i < init.len() && init[i] == x;
                    assert(s[i] == s[s.len() - 1]);
                }
            }
            assert forall|i: int, j: int| 0 <= i < j < f.push(x).len() implies f.push(x)[i]
                != f.push(x)[j] by {
                if j == f.len() {
                    assert(f.contains(f[i]));
                }
            }
        }
    }
}

/// Filtering a sequence whose items all pass leaves it as it was.
pub proof fn lemma_filter_all_pass<K>(s: Seq<K>, p: spec_fn(K) -> bool)
    requires
        forall|i: int| 0 <= i < s.len() ==> p(#[trigger] s[i]),
    ensures
        s.filter(p) == s,
    decreases s.len(),
{
    if s.len() == 0 {
        reveal(Seq::filter);
    } else {
        let init = s.drop_last();
        assert(s =~= init.push(s.last()));
        lemma_filter_all_pass(init, p);
        init.lemma_filter_push(s.last(), p);
    }
}

/// In a well-formed model the index holds as many keys as the ledger.
pub proof fn lemma_wf_len<K, V>(m: CacheModel<K, V>)
    requires
        m.wf(),
    ensures
        m.index.len() == m.order.len(),
        m.index.dom().finite(),
{
    m.order.unique_seq_to_set();
}

/// Eviction from the front keeps a model well formed.
pub proof fn lemma_evict_wf<K, V>(m: CacheModel<K, V>, max: nat)
    requires
        m.wf(),
    ensures
        m.evict_to(max).wf(),
{
    let n = excess(m.order.len(), max) as int;
    let r = m.evict_to(max);
    let front = m.order.subrange(0, n);
    let back = m.order.subrange(n, m.order.len() as int);
    assert forall|i: int, j: int| 0 <= i < j < back.len() implies back[i] != back[j] by {
        assert(back[i] == m.order[n + i] && back[j] == m.order[n + j]);
    }
    assert forall|k: K| r.index.dom().contains(k) <==> back.to_set().contains(k) by {
        if back.contains(k) {
            let j = choose|j: int| 0 <= j < back.len() && back[j] == k;
            assert(m.order[n + j] == k);
            assert(m.order.contains(k));
            if front.contains(k) {
                let i = choose|i: int| 0 <= i < front.len() && front[i] == k;
                assert(m.order[i] == k);
            }
        }
        if m.order.contains(k) && !front.contains(k) {
            let i = choose|i: int| 0 <= i < m.order.len() && m.order[i] == k;
            if i < n {
                assert(front[i] == k);
            } else {
                assert(back[i - n] == k);
            }
        }
    }
    assert(r.index.dom() =~= back.to_set());
}

/// Writing a key keeps a model well formed.
pub proof fn lemma_insert_wf<K, V>(m: CacheModel<K, V>, key: K, value: V, now: u64)
    requires
        m.wf(),
    ensures
        m.insert(key, value, now).wf(),
{
    let e = Entry { value, expires_at: stamp(m.ttl, now) };
    if m.index.contains_key(key) {
        assert(m.insert(key, value, now).index.dom() =~= m.index.dom());
    } else {
        let pushed = CacheModel { order: m.order.push(key), index: m.index.insert(key, e), ..m };
        assert forall|i: int, j: int| 0 <= i < j < pushed.order.len() implies pushed.order[i]
            != pushed.order[j] by {
            if j == m.order.len() {
                assert(m.order.contains(m.order[i]));
            }
        }
        assert forall|k: K| pushed.index.dom().contains(k) <==> pushed.order.to_set().contains(k) by {
            if pushed.order.contains(k) && k != key {
                let i = choose|i: int| 0 <= i < pushed.order.len() && pushed.order[i] == k;
                assert(m.order[i] == k);
            }
            if m.order.contains(k) {
                let i = choose|i: int| 0 <= i < m.order.len() && m.order[i] == k;
                assert(pushed.order[i] == k);
            }
            assert(pushed.order[m.order.len() as int] == key);
        }
        assert(pushed.index.dom() =~= pushed.order.to_set());
        lemma_evict_wf(pushed, m.max_size);
    }
}

/// Removing a key keeps a model well formed.
pub proof fn lemma_remove_wf<K, V>(m: CacheModel<K, V>, key: K)
    requires
        m.wf(),
    ensures
        m.remove(key).wf(),
{
    lemma_filter_keeps(m.order, other_than(key));
    assert(m.remove(key).index.dom() =~= m.remove(key).order.to_set());
}

/// Sweeping keeps a model well formed.
pub proof fn lemma_sweep_wf<K, V>(m: CacheModel<K, V>, now: u64)
    requires
        m.wf(),
    ensures
        m.sweep(now).wf(),
{
    lemma_filter_keeps(m.order, m.live_at(now));
    assert(m.sweep(now).index.dom() =~= m.sweep(now).order.to_set());
}

} // verus!
