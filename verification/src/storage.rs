//! The storage of the `key:value` pairs and of their expirations.
//!
//! Pairs live in a `HashMap`; every expiration that was set is also queued
//! in a min-heap, so that the next key to expire is found at once. A key may
//! be queued more than once when its expiration was overwritten: only the
//! expiration recorded next to the value counts, the others are dropped when
//! they come up.
use vstd::multiset::Multiset;
use vstd::pervasive::strictly_cloned;
use vstd::prelude::*;

use std::collections::HashMap;
use std::hash::Hash;
use std::time::Instant;

use crate::clock::nanos_since;
use crate::expiring_key::ExpiringKey;
use crate::heap::{is_earliest, ExpirationHeap};
use crate::value::Value;

verus! {

broadcast use {vstd::std_specs::hash::group_hash_axioms, vstd::multiset::group_multiset_axioms};

/// Cloning a `K` gives back an identical value.
pub open spec fn clone_is_exact<K: Clone>() -> bool {
    forall|a: K, b: K| #[trigger] strictly_cloned(a, b) ==> a == b
}

/// What the storage needs of its key type: a deterministic hash consistent
/// with `==`, and a `clone` that gives back an identical key.
pub open spec fn key_model<K: Clone>() -> bool {
    &&& vstd::std_specs::hash::obeys_key_model::<K>()
    &&& clone_is_exact::<K>()
}

/// The tick `after` ticks past `now`, held at the largest tick.
pub open spec fn deadline(now: u128, after: u128) -> u128 {
    if now + after > u128::MAX {
        u128::MAX
    } else {
        (now + after) as u128
    }
}

/// The expiry time of a value inserted at `now`.
pub open spec fn expiry_for(now: u128, expire_after: Option<u128>) -> Option<u128> {
    match expire_after {
        Some(after) => Some(deadline(now, after)),
        None => None,
    }
}

/// An entry whose expiry time is not later than `now`.
pub open spec fn is_expired<V>(entry: (V, Option<u128>), now: u128) -> bool {
    entry.1 matches Some(t) && t <= now
}

/// The entries of `m` that have not expired at `now`.
pub open spec fn unexpired<K, V>(m: Map<K, (V, Option<u128>)>, now: u128) -> Map<
    K,
    (V, Option<u128>),
> {
    Map::new(|k: K| m.contains_key(k) && !is_expired(m[k], now), |k: K| m[k])
}

/// The data stored under `key`, if any.
pub open spec fn data_of<K, V>(m: Map<K, (V, Option<u128>)>, key: K) -> Option<V> {
    if m.contains_key(key) {
        Some(m[key].0)
    } else {
        None
    }
}

/// `e` is the queued expiration of a pair of `m` that expires exactly then.
pub open spec fn is_current<K, V>(m: Map<K, (V, Option<u128>)>, e: ExpiringKey<K>) -> bool {
    m.contains_key(e.key) && m[e.key].1 == Some(e.expiry_time)
}

/// `r` is the earliest expiry time of the pairs of `m`, or `None` when no
/// pair of `m` is set to expire.
pub open spec fn earliest_expiry<K, V>(m: Map<K, (V, Option<u128>)>, r: Option<u128>) -> bool {
    match r {
        None => forall|k: K| #[trigger] m.contains_key(k) ==> m[k].1 is None,
        Some(t) => {
            &&& exists|k: K| #[trigger] m.contains_key(k) && m[k].1 == Some(t)
            &&& forall|k: K| #[trigger] m.contains_key(k) && m[k].1 is Some ==> t <= m[k].1->0
        },
    }
}

/// Every entry that expires has its expiry time queued.
pub open spec fn tracks_expiries<K, V>(
    m: Map<K, (V, Option<u128>)>,
    queue: Multiset<ExpiringKey<K>>,
) -> bool {
    forall|k: K|
        #[trigger] m.contains_key(k) && m[k].1 is Some ==> queue.contains(
            ExpiringKey { key: k, expiry_time: m[k].1->0 },
        )
}

/// The storage of the `key:value` pairs and of their expirations.
///
/// Times are ticks: nanoseconds since the storage was created.
#[derive(Debug)]
pub struct Storage<K, V> {
    kv_pairs: HashMap<K, Value<V>>,
    expirations: ExpirationHeap<K>,
    origin: Instant,
}

impl<K: Eq + Hash + Clone, V: Clone> Storage<K, V> {
    /// The stored pairs: each key with its data and expiry time.
    pub closed spec fn contents(&self) -> Map<K, (V, Option<u128>)> {
        self.kv_pairs@.map_values(|v: Value<V>| v@)
    }

    /// The queued expirations, stale ones included.
    pub closed spec fn pending(&self) -> Multiset<ExpiringKey<K>> {
        self.expirations@
    }

    /// The queued expiration at the head of the queue.
    pub closed spec fn next_queued(&self) -> ExpiringKey<K> {
        self.expirations.first()
    }

    /// The instant that tick zero stands for.
    pub closed spec fn clock_origin(&self) -> Instant {
        self.origin
    }

    /// The head of a non-empty queue is one of its entries and expires first.
    pub proof fn lemma_next_queued_is_earliest(&self)
        requires
            self.wf(),
            self.pending().len() > 0,
        ensures
            self.pending().contains(self.next_queued()),
            is_earliest(self.pending(), self.next_queued()),
    {
        self.expirations.lemma_first_is_earliest();
    }

    pub open spec fn wf(&self) -> bool {
        &&& key_model::<K>()
        &&& self.contents().dom().finite()
        &&& self.heap_wf()
        &&& tracks_expiries(self.contents(), self.pending())
    }

    pub closed spec fn heap_wf(&self) -> bool {
        self.expirations.wf()
    }

    /// `after` is what inserting `key:value` at tick `now` makes of `self`:
    /// the pair replaces any earlier one and its expiry time is queued.
    pub open spec fn inserted_state(
        self,
        after: Self,
        now: u128,
        key: K,
        value: V,
        expire_after: Option<u128>,
    ) -> bool {
        let when = expiry_for(now, expire_after);
        &&& after.contents() == self.contents().insert(key, (value, when))
        &&& after.pending() == match when {
            Some(t) => self.pending().insert(ExpiringKey { key, expiry_time: t }),
            None => self.pending(),
        }
        &&& after.clock_origin() == self.clock_origin()
    }

    /// `after` and `r` are what inserting `key:value` at tick `now` makes of
    /// `self`: the pair replaces any earlier one, its expiry time is queued,
    /// the previous data is returned, and the flag tells whether the new
    /// expiry time comes before every queued one.
    pub open spec fn inserted(
        self,
        after: Self,
        now: u128,
        key: K,
        value: V,
        expire_after: Option<u128>,
        r: (Option<V>, bool),
    ) -> bool {
        let when = expiry_for(now, expire_after);
        &&& self.inserted_state(after, now, key, value, expire_after)
        &&& r.0 == data_of(self.contents(), key)
        &&& r.1 == (when matches Some(t) && forall|e: ExpiringKey<K>|
            #[trigger] self.pending().contains(e) ==> t < e.expiry_time)
    }

    /// `after` is what cleaning up at tick `now` makes of `self`: the pairs
    /// expired at `now` are gone; the queued expirations up to `now` are
    /// dropped, and so are the stale ones that came before the earliest
    /// current one, which now heads the queue.
    pub open spec fn cleaned_state(self, after: Self, now: u128) -> bool {
        let q = after.pending();
        &&& after.contents() == unexpired(self.contents(), now)
        &&& forall|e: ExpiringKey<K>| #[trigger] q.count(e) <= self.pending().count(e)
        &&& forall|e: ExpiringKey<K>| e.expiry_time <= now ==> #[trigger] q.count(e) == 0
        &&& forall|e: ExpiringKey<K>|
            #[trigger] q.count(e) < self.pending().count(e) && now < e.expiry_time ==> !is_current(
                after.contents(),
                e,
            ) && is_earliest(q, e)
        &&& q.len() > 0 ==> q.contains(after.next_queued()) && is_current(
            after.contents(),
            after.next_queued(),
        ) && is_earliest(q, after.next_queued())
        &&& after.clock_origin() == self.clock_origin()
        &&& self.head_is_live(now) ==> after == self
    }

    /// The queue is headed by the current expiration of a pair, later than
    /// `now`: a cleanup at `now` has nothing to do.
    pub open spec fn head_is_live(self, now: u128) -> bool {
        &&& self.pending().len() > 0
        &&& is_current(self.contents(), self.next_queued())
        &&& now < self.next_queued().expiry_time
    }

    /// `after` is what removing `key` makes of `self`.
    pub open spec fn removed_state(self, after: Self, key: K) -> bool {
        &&& after.contents() == self.contents().remove(key)
        &&& after.pending() == self.pending()
        &&& after.clock_origin() == self.clock_origin()
    }

    /// `after` and `r` are what removing `key` makes of `self`: the pair is
    /// gone and its data returned.
    pub open spec fn removed(self, after: Self, key: K, r: Option<V>) -> bool {
        &&& self.removed_state(after, key)
        &&& r == data_of(self.contents(), key)
    }

    /// `after` and `r` are what cleaning up at tick `now` makes of `self`:
    /// see `cleaned_state`; `r` is the expiry time of the next pair to
    /// expire, if any pair is set to expire.
    pub open spec fn cleaned(self, after: Self, now: u128, r: Option<u128>) -> bool {
        &&& self.cleaned_state(after, now)
        &&& earliest_expiry(after.contents(), r)
    }

    pub fn new() -> (r: Self)
        requires
            key_model::<K>(),
        ensures
            r.wf(),
            r.contents() == Map::<K, (V, Option<u128>)>::empty(),
            r.pending() == Multiset::<ExpiringKey<K>>::empty(),
    {
        let r = Self {
            kv_pairs: HashMap::new(),
            expirations: ExpirationHeap::new(),
            origin: Instant::now(),
        };
        assert(r.contents() =~= Map::empty());
        r
    }

    /// The current tick: nanoseconds since the storage was created.
    pub fn now(&self) -> u128 {
        nanos_since(&self.origin)
    }

    /// Returns a clone of the data stored under `key`.
    pub fn get(&self, key: &K) -> (r: Option<V>)
        requires
            self.wf(),
        ensures
            match r {
                Some(v) => self.contents().contains_key(*key) && cloned(
                    self.contents()[*key].0,
                    v,
                ),
                None => !self.contents().contains_key(*key),
            },
    {
        match self.kv_pairs.get(key) {
            Some(v) => Some(v.clone_inner()),
            None => None,
        }
    }

    /// Inserts `key:value` at tick `now`, to expire `expire_after` ticks
    /// later if that is given. Returns the previous data of the key and
    /// whether the new expiry time comes before every queued one.
    pub fn insert_at(&mut self, now: u128, key: K, value: V, expire_after: Option<u128>) -> (r: (
        Option<V>,
        bool,
    ))
        requires
            old(self).wf(),
            expire_after matches Some(after) ==> now + after <= u128::MAX,
        ensures
            final(self).wf(),
            old(self).inserted(*final(self), now, key, value, expire_after, r),
    {
        let ghost c0 = self.contents();
        let ghost p0 = self.pending();
        let (when, notify) = match expire_after {
            Some(after) => {
                let when = now + after;
                let notify = match self.expirations.peek() {
                    Some(first) => first.is_later_than(when),
                    None => true,
                };
                proof {
                    if notify && self.expirations@.len() > 0 {
                        self.expirations.lemma_first_is_earliest();
                    }
                }
                let queued_key = key.clone();
                proof {
                    assert(strictly_cloned(key, queued_key));
                }
                self.expirations.push(ExpiringKey::new(queued_key, when));
                (Some(when), notify)
            },
            None => (None, false),
        };
        let prev = match self.kv_pairs.insert(key, Value::new(value, when)) {
            Some(v) => Some(v.into_inner()),
            None => None,
        };
        proof {
            assert(self.contents() =~= c0.insert(key, (value, when)));
            let c = self.contents();
            let p = self.pending();
            assert forall|k: K| #[trigger] c.contains_key(k) && c[k].1 is Some implies p.contains(
                ExpiringKey { key: k, expiry_time: c[k].1->0 },
            ) by {
                if k != key {
                    assert(c0.contains_key(k) && c0[k] == c[k]);
                    assert(p0.contains(ExpiringKey { key: k, expiry_time: c[k].1->0 }));
                }
            }
        }
        (prev, notify)
    }

    /// Inserts `key:value` now, to expire `expire_after` ticks later if that
    /// is given. Returns the previous data of the key and whether the new
    /// expiry time comes before every queued one.
    ///
    /// The clock reading is not known in advance, so an expiry time past
    /// the largest tick (some 10^22 years on) is held at the largest tick.
    pub fn insert(&mut self, key: K, value: V, expire_after: Option<u128>) -> (r: (Option<V>, bool))
        requires
            old(self).wf(),
        ensures
            final(self).wf(),
            exists|now: u128| #[trigger]
                old(self).inserted(*final(self), now, key, value, expire_after, r),
    {
        let now = self.now();
        let within = match expire_after {
            Some(after) => Some(
                if after > u128::MAX - now {
                    u128::MAX - now
                } else {
                    after
                },
            ),
            None => None,
        };
        assert(expiry_for(now, within) == expiry_for(now, expire_after));
        let r = self.insert_at(now, key, value, within);
        assert(old(self).inserted_state(*self, now, key, value, expire_after));
        assert(old(self).inserted(*self, now, key, value, expire_after, r));
        r
    }

    /// Removes the pair of `key`, returning its data.
    pub fn remove(&mut self, key: &K) -> (r: Option<V>)
        requires
            old(self).wf(),
        ensures
            final(self).wf(),
            old(self).removed(*final(self), *key, r),
    {
        let ghost c0 = self.contents();
        let r = match self.kv_pairs.remove(key) {
            Some(v) => Some(v.into_inner()),
            None => None,
        };
        proof {
            assert(self.contents() =~= c0.remove(*key));
        }
        r
    }

    /// Removes the pairs expired at tick `now`, drops the queued expirations
    /// up to `now` and the stale ones before the next current one. Returns
    /// the expiry time of the next pair to expire, if any is set to expire.
    pub fn cleanup_expired_keys_at(&mut self, now: u128) -> (r: Option<u128>)
        requires
            old(self).wf(),
        ensures
            final(self).wf(),
            old(self).cleaned(*final(self), now, r),
    {
        let ghost c0 = self.contents();
        let ghost p0 = self.pending();
        while self.expirations.len() > 0
            invariant
                self.wf(),
                c0 == old(self).contents(),
                p0 == old(self).pending(),
                self.clock_origin() == old(self).clock_origin(),
                old(self).head_is_live(now) ==> *self == *old(self),
                forall|k: K| #[trigger]
                    self.contents().contains_key(k) ==> c0.contains_key(k) && self.contents()[k]
                        == c0[k],
                forall|k: K| #[trigger]
                    c0.contains_key(k) && !self.contents().contains_key(k) ==> is_expired(
                        c0[k],
                        now,
                    ),
                forall|e: ExpiringKey<K>| #[trigger]
                    self.pending().count(e) <= p0.count(e),
                forall|e: ExpiringKey<K>| #[trigger]
                    self.pending().count(e) < p0.count(e) ==> e.expiry_time <= now || (
                    !is_current(self.contents(), e) && is_earliest(self.pending(), e)),
            decreases self.expirations@.len(),
        {
            let ghost c1 = self.contents();
            let ghost p1 = self.pending();
            let first = self.expirations.peek().unwrap();
            proof {
                self.expirations.lemma_first_is_earliest();
            }
            let current = match self.kv_pairs.get(&first.key) {
                Some(v) => v.expires_with(first),
                None => false,
            };
            proof {
                assert(current == is_current(c1, *first));
            }
            if current && first.is_later_than(now) {
                let t = first.expiry_time;
                proof {
                    assert(is_current(c1, *first));
                    self.lemma_cleaned(c0, p0, now, Some(t));
                }
                return Some(t);
            }
            if current {
                self.kv_pairs.remove(&first.key);
            }
            let ghost k = first.key;
            let ghost e = *first;
            let ghost c2 = self.contents();
            self.expirations.pop();
            proof {
                if current {
                    assert(c2 =~= c1.remove(k));
                } else {
                    assert(c2 =~= c1);
                    assert(!is_current(c1, e));
                }
                let c = self.contents();
                let p = self.pending();
                assert(p =~= p1.remove(e));
                assert forall|j: K| #[trigger] c.contains_key(j) && c[j].1 is Some implies p.contains(
                    ExpiringKey { key: j, expiry_time: c[j].1->0 },
                ) by {
                    assert(c1.contains_key(j) && c1[j] == c[j]);
                    assert(p1.contains(ExpiringKey { key: j, expiry_time: c[j].1->0 }));
                }
                assert forall|j: K| #[trigger]
                    c0.contains_key(j) && !c.contains_key(j) implies is_expired(c0[j], now) by {
                    if c1.contains_key(j) {
                        assert(j == k);
                    }
                }
                assert forall|x: ExpiringKey<K>| #[trigger]
                    p.count(x) < p0.count(x) implies x.expiry_time <= now || (!is_current(c, x)
                    && is_earliest(p, x)) by {
                    if x.expiry_time > now {
                        if x == e {
                            assert(!is_current(c, x));
                        } else {
                            assert(p1.count(x) < p0.count(x));
                            assert(!is_current(c1, x));
                        }
                        assert forall|y: ExpiringKey<K>| #[trigger] p.contains(y) implies x.expiry_time
                            <= y.expiry_time by {
                            assert(p1.contains(y));
                        }
                    }
                }
            }
        }
        proof {
            self.lemma_cleaned(c0, p0, now, None);
        }
        None
    }

    /// Removes the pairs that have expired by now and drops the queued
    /// expirations up to now. Returns the earliest expiration still queued,
    /// if any.
    pub fn cleanup_expired_keys(&mut self) -> (r: Option<u128>)
        requires
            old(self).wf(),
        ensures
            final(self).wf(),
            exists|now: u128| #[trigger] old(self).cleaned(*final(self), now, r),
    {
        let now = self.now();
        self.cleanup_expired_keys_at(now)
    }

    /// Once the queue is empty, or headed by a current expiration after
    /// `now`, the loop state of a cleanup started from `c0` and `p0` is its
    /// outcome.
    proof fn lemma_cleaned(
        &self,
        c0: Map<K, (V, Option<u128>)>,
        p0: Multiset<ExpiringKey<K>>,
        now: u128,
        r: Option<u128>,
    )
        requires
            self.wf(),
            forall|k: K| #[trigger]
                self.contents().contains_key(k) ==> c0.contains_key(k) && self.contents()[k]
                    == c0[k],
            forall|k: K| #[trigger]
                c0.contains_key(k) && !self.contents().contains_key(k) ==> is_expired(c0[k], now),
            forall|e: ExpiringKey<K>| #[trigger] self.pending().count(e) <= p0.count(e),
            forall|e: ExpiringKey<K>| #[trigger]
                self.pending().count(e) < p0.count(e) ==> e.expiry_time <= now || (!is_current(
                    self.contents(),
                    e,
                ) && is_earliest(self.pending(), e)),
            match r {
                None => self.pending().len() == 0,
                Some(t) => {
                    &&& now < t
                    &&& self.pending().contains(self.expirations.first())
                    &&& self.expirations.first().expiry_time == t
                    &&& is_current(self.contents(), self.expirations.first())
                    &&& is_earliest(self.pending(), self.expirations.first())
                },
            },
        ensures
            ({
                let q = self.pending();
                let c = self.contents();
                &&& c == unexpired(c0, now)
                &&& forall|e: ExpiringKey<K>| #[trigger] q.count(e) <= p0.count(e)
                &&& forall|e: ExpiringKey<K>| e.expiry_time <= now ==> #[trigger] q.count(e) == 0
                &&& forall|e: ExpiringKey<K>|
                    #[trigger] q.count(e) < p0.count(e) && now < e.expiry_time ==> !is_current(c, e)
                        && is_earliest(q, e)
                &&& q.len() > 0 ==> q.contains(self.next_queued()) && is_current(
                    c,
                    self.next_queued(),
                ) && is_earliest(q, self.next_queued())
                &&& earliest_expiry(c, r)
            }),
    {
        let q = self.pending();
        let c = self.contents();
        if r is None {
            assert(q =~= Multiset::empty()) by {
                vstd::multiset::lemma_multiset_empty_len(q);
            }
        }
        assert forall|e: ExpiringKey<K>| e.expiry_time <= now implies #[trigger] q.count(e) == 0 by {
            if q.count(e) > 0 {
                assert(q.contains(e));
            }
        }
        assert forall|k: K| #[trigger] c0.contains_key(k) && is_expired(c0[k], now) implies !c.contains_key(
            k,
        ) by {
            if c.contains_key(k) {
                assert(q.contains(ExpiringKey { key: k, expiry_time: c[k].1->0 }));
            }
        }
        assert(c =~= unexpired(c0, now));
        if let Some(t) = r {
            let f = self.expirations.first();
            assert(c.contains_key(f.key) && c[f.key].1 == Some(t));
            assert forall|k: K| #[trigger] c.contains_key(k) && c[k].1 is Some implies t <= c[k].1->0 by {
                assert(q.contains(ExpiringKey { key: k, expiry_time: c[k].1->0 }));
            }
        } else {
            assert forall|k: K| #[trigger] c.contains_key(k) implies c[k].1 is None by {
                if c[k].1 is Some {
                    assert(q.contains(ExpiringKey { key: k, expiry_time: c[k].1->0 }));
                }
            }
        }
    }
}

} // verus!
