//! Coalescing of DOM index requests: a request for a URL that was answered
//! within the last 16 ms gets that answer again instead of a fresh index.
//! The clock, the lock and the hashing of URLs to keys stay with the caller;
//! times are nanoseconds on the caller's monotonic clock.

use std::collections::HashMap;
use vstd::prelude::*;
use vstd::std_specs::iter::IteratorSpec;

verus! {

/// Requests for the same key this close together share one answer (16 ms).
pub const COALESCE_WINDOW_NS: u64 = 16_000_000;

/// Answers older than this are dropped from the cache (4 windows, 64 ms).
pub const RETAIN_NS: u64 = 64_000_000;

/// Time from `at` to `now`, zero when `now` is earlier (as
/// `Instant::duration_since` saturates).
pub open spec fn age(now: u64, at: u64) -> nat {
    if now >= at {
        (now - at) as nat
    } else {
        0
    }
}

/// A stored answer: when it was computed and what it was.
pub struct Pending<V> {
    pub at: u64,
    pub value: V,
}

/// The answers of recent requests, by key.
pub struct CoalesceCache<V> {
    entries: HashMap<u64, Pending<V>>,
}

/// The map restricted to the answers still young enough to keep at `now`.
pub open spec fn retained<V>(m: Map<u64, (u64, V)>, now: u64) -> Map<u64, (u64, V)> {
    m.restrict(m.dom().filter(|k: u64| age(now, m[k].0) <= RETAIN_NS))
}

impl<V> CoalesceCache<V> {
    /// The stored answers: key to (time computed, answer).
    pub closed spec fn view(&self) -> Map<u64, (u64, V)> {
        self.entries@.map_values(|p: Pending<V>| (p.at, p.value))
    }

    /// An empty cache.
    pub fn new() -> (r: Self)
        ensures
            r@ == Map::<u64, (u64, V)>::empty(),
    {
        let r = CoalesceCache { entries: HashMap::new() };
        assert(r@ =~= Map::<u64, (u64, V)>::empty());
        r
    }

    /// Drops every answer older than [`RETAIN_NS`] at time `now`.
    pub fn expire(&mut self, now: u64)
        ensures
            final(self)@ == retained(old(self)@, now),
    {
        broadcast use vstd::std_specs::hash::group_hash_axioms;

        let ghost m0 = self.entries@;
        let mut stale: Vec<u64> = Vec::new();
        let ghost all = vstd::std_specs::hash::spec_keys_iter(&self.entries).remaining().unref();
        assert(all.to_set() == m0.dom());
        for k in it: self.entries.keys()
            invariant
                self.entries@ == m0,
                it.seq().unref() == all,
                forall|j: int|
                    0 <= j < it.index() && age(now, m0[#[trigger] all[j]].at) > RETAIN_NS
                        ==> stale@.contains(all[j]),
                forall|j: int|
                    0 <= j < stale@.len() ==> m0.contains_key(#[trigger] stale@[j]) && age(
                        now,
                        m0[stale@[j]].at,
                    ) > RETAIN_NS,
        {
            let ghost i0 = it.index();
            let ghost stale0 = stale@;
            let key = *k;
            match self.entries.get(&key) {
                Some(p) => {
                    let a = if now >= p.at {
                        now - p.at
                    } else {
                        0
                    };
                    if a > RETAIN_NS {
                        stale.push(key);
                    }
                },
                None => {},
            }
            proof {
                assert(key == all[i0]);
                assert forall|j: int|
                    0 <= j < i0 + 1 && age(now, m0[#[trigger] all[j]].at) > RETAIN_NS implies stale@.contains(
                    all[j],
                ) by {
                    if j < i0 {
                        let t = choose|t: int| 0 <= t < stale0.len() && stale0[t] == all[j];
                        assert(stale@[t] == all[j]);
                    } else {
                        assert(stale@[stale@.len() - 1] == key);
                    }
                }
            }
        }
        assert(forall|j: int| 0 <= j < all.len() && age(now, m0[#[trigger] all[j]].at) > RETAIN_NS
            ==> stale@.contains(all[j]));
        let mut j: usize = 0;
        while j < stale.len()
            invariant
                j <= stale@.len(),
                forall|i: int|
                    0 <= i < stale@.len() ==> m0.contains_key(#[trigger] stale@[i]) && age(
                        now,
                        m0[stale@[i]].at,
                    ) > RETAIN_NS,
                forall|k: u64|
                    #[trigger] self.entries@.contains_key(k) <==> (m0.contains_key(k)
                        && !stale@.take(j as int).contains(k)),
                forall|k: u64| #[trigger] self.entries@.contains_key(k) ==> self.entries@[k] == m0[k],
            decreases stale@.len() - j,
        {
            let key = stale[j];
            let ghost e0 = self.entries@;
            let _ = self.entries.remove(&key);
            proof {
                let t0 = stale@.take(j as int);
                let t1 = stale@.take(j + 1);
                assert(t1 =~= t0.push(key));
                assert(self.entries@ == e0.remove(key));
                assert forall|k: u64|
                    #[trigger] self.entries@.contains_key(k) <==> (m0.contains_key(k)
                        && !t1.contains(k)) by {
                    if k == key {
                        assert(t1[j as int] == key);
                    } else {
                        if t1.contains(k) {
                            let t = choose|t: int| 0 <= t < t1.len() && t1[t] == k;
                            assert(t0[t] == k);
                        }
                        if t0.contains(k) {
                            let t = choose|t: int| 0 <= t < t0.len() && t0[t] == k;
                            assert(t1[t] == k);
                        }
                    }
                }
            }
            j = j + 1;
        }
        proof {
            assert(stale@.take(stale@.len() as int) =~= stale@);
            let ghost v0 = m0.map_values(|p: Pending<V>| (p.at, p.value));
            assert forall|k: u64| #[trigger] self.entries@.contains_key(k) <==> retained(v0, now).contains_key(k) by {
                if m0.contains_key(k) && age(now, m0[k].at) > RETAIN_NS {
                    assert(all.to_set().contains(k));
                    let jj = choose|jj: int| 0 <= jj < all.len() && all[jj] == k;
                    assert(stale@.contains(all[jj]));
                }
                if stale@.contains(k) {
                    let ii = choose|ii: int| 0 <= ii < stale@.len() && stale@[ii] == k;
                    assert(m0.contains_key(stale@[ii]));
                }
            }
            assert(self@ =~= retained(v0, now));
        }
    }

    /// The answer stored for `key` when it was computed no more than
    /// [`COALESCE_WINDOW_NS`] before `now`; `None` otherwise.
    pub fn get(&self, now: u64, key: u64) -> (r: Option<&V>)
        ensures
            match r {
                Some(v) => self@.contains_key(key) && age(now, self@[key].0) <= COALESCE_WINDOW_NS
                    && *v == self@[key].1,
                None => !(self@.contains_key(key) && age(now, self@[key].0) <= COALESCE_WINDOW_NS),
            },
    {
        broadcast use vstd::std_specs::hash::group_hash_axioms;

        match self.entries.get(&key) {
            Some(p) => {
                let a = if now >= p.at {
                    now - p.at
                } else {
                    0
                };
                if a <= COALESCE_WINDOW_NS {
                    Some(&p.value)
                } else {
                    None
                }
            },
            None => None,
        }
    }

    /// Stores `value` as the answer for `key` computed at time `at`,
    /// replacing an earlier answer for the same key.
    pub fn insert(&mut self, key: u64, at: u64, value: V)
        ensures
            final(self)@ == old(self)@.insert(key, (at, value)),
    {
        broadcast use vstd::std_specs::hash::group_hash_axioms;

        let ghost m0 = self@;
        let _ = self.entries.insert(key, Pending { at, value });
        assert(self@ =~= m0.insert(key, (at, value)));
    }
}

/// A request that follows, within the window, one whose answer was stored is
/// given that answer back; and dropping old answers at that time keeps it.
pub proof fn lemma_recent_answer_is_reused<V>(
    cache: Map<u64, (u64, V)>,
    key: u64,
    at: u64,
    value: V,
    now: u64,
)
    requires
        age(now, at) <= COALESCE_WINDOW_NS,
    ensures
        ({
            let stored = cache.insert(key, (at, value));
            let kept = retained(stored, now);
            &&& kept.contains_key(key)
            &&& age(now, kept[key].0) <= COALESCE_WINDOW_NS
            &&& kept[key].1 == value
        }),
{
    let stored = cache.insert(key, (at, value));
    assert(stored.dom().filter(|k: u64| age(now, stored[k].0) <= RETAIN_NS).contains(key));
}

} // verus!
