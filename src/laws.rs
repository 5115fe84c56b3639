use crate::model::{
    excess, expired, lemma_evict_wf, lemma_insert_wf, lemma_sweep_wf, lemma_wf_len, stamp,
    CacheModel,
};
use crate::time::TimeSpan;
use vstd::prelude::*;

verus! {

/// The last `max` keys of `s`, or all of them where there are fewer.
pub open spec fn newest<K>(s: Seq<K>, max: nat) -> Seq<K> {
    s.subrange(excess(s.len(), max) as int, s.len() as int)
}

/// The model after writing `keys[i] -> values[i]` for each `i` in turn, all
/// at instant `now`.
pub open spec fn insert_all<K, V>(m: CacheModel<K, V>, keys: Seq<K>, values: Seq<V>, now: u64) -> CacheModel<K, V>
    decreases keys.len(),
{
    if keys.len() == 0 || values.len() == 0 {
        m
    } else {
        insert_all(m, keys.drop_last(), values.drop_last(), now).insert(
            keys.last(),
            values.last(),
            now,
        )
    }
}

/// Capacity: after writing a fresh key, or any key into a cache that is
/// within capacity, the cache is within capacity.
pub proof fn lemma_insert_within_capacity<K, V>(m: CacheModel<K, V>, key: K, value: V, now: u64)
    requires
        m.wf(),
        !m.index.contains_key(key) || m.order.len() <= m.max_size,
    ensures
        m.insert(key, value, now).order.len() <= m.max_size,
        m.insert(key, value, now).index.len() <= m.max_size,
{
    lemma_insert_wf(m, key, value, now);
    lemma_wf_len(m.insert(key, value, now));
}

/// Writing a fresh key at the back of a ledger trimmed to `max`, then
/// trimming again, is the same as trimming once after the write.
proof fn lemma_newest_push<K>(s: Seq<K>, k: K, max: nat)
    ensures
        newest(newest(s, max).push(k), max) == newest(s.push(k), max),
{
    let a = newest(s, max);
    let lhs = newest(a.push(k), max);
    let rhs = newest(s.push(k), max);
    assert(lhs.len() == rhs.len());
    assert forall|i: int| 0 <= i < lhs.len() implies lhs[i] == rhs[i] by {
        let e = excess(a.push(k).len(), max) as int;
        let f = excess(s.push(k).len(), max) as int;
        if e + i < a.len() {
            assert(lhs[i] == a[e + i]);
            assert(a[e + i] == s[excess(s.len(), max) + e + i]);
        }
    }
    assert(lhs =~= rhs);
}

/// The ledger after writing fresh keys one by one, from a well-formed
/// model, is the newest `max_size` of the old ledger followed by the keys.
proof fn lemma_insert_all_fresh<K, V>(
    m: CacheModel<K, V>,
    keys: Seq<K>,
    values: Seq<V>,
    now: u64,
)
    requires
        m.wf(),
        keys.len() >= 1,
        keys.len() == values.len(),
        keys.no_duplicates(),
        forall|i: int| 0 <= i < keys.len() ==> !m.index.contains_key(#[trigger] keys[i]),
    ensures
        insert_all(m, keys, values, now).wf(),
        insert_all(m, keys, values, now).order == newest(m.order + keys, m.max_size),
        insert_all(m, keys, values, now).max_size == m.max_size,
        insert_all(m, keys, values, now).ttl == m.ttl,
    decreases keys.len(),
{
    let init = keys.drop_last();
    let k = keys.last();
    let prev = insert_all(m, init, values.drop_last(), now);
    assert(m.order + keys =~= (m.order + init).push(k));
    if keys.len() == 1 {
        assert(prev == m);
        assert(m.order + init =~= m.order);
        lemma_insert_wf(m, k, values.last(), now);
        assert(!m.index.contains_key(k));
    } else {
        assert forall|i: int| 0 <= i < init.len() implies !m.index.contains_key(
            #[trigger] init[i],
        ) by {
            assert(init[i] == keys[i]);
        }
        lemma_insert_all_fresh(m, init, values.drop_last(), now);
        assert(!prev.index.contains_key(k)) by {
            if prev.index.contains_key(k) {
                assert(prev.order.contains(k));
                let s = m.order + init;
                let e = excess(s.len(), m.max_size) as int;
                let j = choose|j: int| 0 <= j < prev.order.len() && prev.order[j] == k;
                assert(s[e + j] == k);
                if e + j < m.order.len() {
                    assert(m.order.contains(k));
                    assert(m.index.dom().contains(k));
                    assert(keys[keys.len() - 1] == k);
                } else {
                    assert(init[e + j - m.order.len()] == keys[e + j - m.order.len()]);
                }
            }
        }
        lemma_insert_wf(prev, k, values.last(), now);
        lemma_newest_push(m.order + init, k, m.max_size);
    }
}

/// FIFO order: writing more fresh, distinct keys than the capacity leaves
/// exactly the last `max_size` of them, in the order they were written.
pub proof fn lemma_fifo_order<K, V>(m: CacheModel<K, V>, keys: Seq<K>, values: Seq<V>, now: u64)
    requires
        m.wf(),
        keys.len() == values.len(),
        keys.len() > m.max_size,
        keys.no_duplicates(),
        forall|i: int| 0 <= i < keys.len() ==> !m.index.contains_key(#[trigger] keys[i]),
    ensures
        insert_all(m, keys, values, now).order == keys.subrange(
            keys.len() - m.max_size,
            keys.len() as int,
        ),
        insert_all(m, keys, values, now).index.dom() == keys.subrange(
            keys.len() - m.max_size,
            keys.len() as int,
        ).to_set(),
{
    lemma_insert_all_fresh(m, keys, values, now);
    let s = m.order + keys;
    let e = excess(s.len(), m.max_size) as int;
    assert(newest(s, m.max_size) =~= keys.subrange(keys.len() - m.max_size, keys.len() as int)) by {
        let tail = keys.subrange(keys.len() - m.max_size, keys.len() as int);
        assert forall|i: int| 0 <= i < m.max_size implies #[trigger] newest(s, m.max_size)[i]
            == tail[i] by {
            assert(s[e + i] == keys[keys.len() - m.max_size + i]);
        }
    }
}

/// Writing a key that is already held changes neither the ledger nor, so,
/// its turn for eviction.
pub proof fn lemma_update_keeps_order<K, V>(m: CacheModel<K, V>, key: K, value: V, now: u64)
    requires
        m.index.contains_key(key),
    ensures
        m.insert(key, value, now).order == m.order,
{
}

/// A write of `key` leaves it held where the capacity is not zero or the key
/// was already held.
proof fn lemma_insert_keeps_key<K, V>(m: CacheModel<K, V>, key: K, value: V, now: u64)
    requires
        m.wf(),
        m.max_size > 0 || m.index.contains_key(key),
    ensures
        m.insert(key, value, now).index.contains_key(key),
        m.insert(key, value, now).index[key].value == value,
        m.insert(key, value, now).index[key].expires_at == stamp(m.ttl, now),
{
    if !m.index.contains_key(key) {
        let pushed = m.order.push(key);
        let n = excess(pushed.len(), m.max_size) as int;
        assert(!pushed.subrange(0, n).to_set().contains(key)) by {
            if pushed.subrange(0, n).contains(key) {
                let j = choose|j: int| 0 <= j < n && pushed.subrange(0, n)[j] == key;
                assert(m.order[j] == key);
                assert(m.order.to_set().contains(key));
            }
        }
    }
}

/// Time-to-live boundary: an entry written at `t0` under time-to-live `ttl`
/// is read back at any instant before `t0 + ttl`, and not at or after it.
pub proof fn lemma_ttl_boundary<K, V>(
    m: CacheModel<K, V>,
    key: K,
    value: V,
    t0: u64,
    ttl: TimeSpan,
    t: u64,
)
    requires
        m.wf(),
        m.ttl == Some(ttl),
        m.max_size > 0 || m.index.contains_key(key),
    ensures
        m.insert(key, value, t0).lookup(key, t) == (if t < t0 + ttl.nanos {
            Some(value)
        } else {
            None
        }),
{
    lemma_insert_keeps_key(m, key, value, t0);
}

/// Sweep completeness: after a sweep at `now` nothing expired at `now` is
/// left, every live entry is kept as it was, and the count is that of the
/// live entries.
pub proof fn lemma_sweep_complete<K, V>(m: CacheModel<K, V>, now: u64)
    requires
        m.wf(),
    ensures
        m.sweep(now).wf(),
        forall|k: K| #[trigger]
            m.sweep(now).index.contains_key(k) <==> m.index.contains_key(k) && !expired(
                m.index[k],
                now,
            ),
        forall|k: K| #[trigger]
            m.sweep(now).order.contains(k) <==> m.index.contains_key(k) && !expired(
                m.index[k],
                now,
            ),
        forall|k: K| #[trigger]
            m.sweep(now).index.contains_key(k) ==> m.sweep(now).index[k] == m.index[k],
        m.sweep(now).order.len() == m.sweep(now).index.len(),
{
    lemma_sweep_wf(m, now);
    lemma_wf_len(m.sweep(now));
    assert forall|k: K| #[trigger] m.sweep(now).order.contains(k) <==> m.index.contains_key(k)
        && !expired(m.index[k], now) by {
        assert(m.sweep(now).order.to_set().contains(k) == m.sweep(now).order.contains(k));
    }
}

/// Round trip: a value written is read back at the same instant, where the
/// capacity is not zero (or the key was held) and entries do not expire at
/// once.
pub proof fn lemma_round_trip<K, V>(m: CacheModel<K, V>, key: K, value: V, now: u64)
    requires
        m.wf(),
        m.max_size > 0 || m.index.contains_key(key),
        m.ttl matches Some(d) ==> d.nanos > 0,
    ensures
        m.insert(key, value, now).lookup(key, now) == Some(value),
{
    lemma_insert_keeps_key(m, key, value, now);
}

} // verus!
