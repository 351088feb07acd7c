//! Properties of the storage that span several operations.
use vstd::multiset::Multiset;
use vstd::prelude::*;

use std::hash::Hash;

use crate::expiring_key::ExpiringKey;
use crate::storage::{data_of, deadline, earliest_expiry, expiry_for, is_expired, unexpired, Storage};

verus! {

/// A value that was just inserted is what the key reads back.
pub proof fn law_read_after_insert<K: Eq + Hash + Clone, V: Clone>(
    s: Storage<K, V>,
    after: Storage<K, V>,
    now: u128,
    key: K,
    value: V,
    expire_after: Option<u128>,
    r: (Option<V>, bool),
)
    requires
        s.inserted(after, now, key, value, expire_after, r),
    ensures
        data_of(after.contents(), key) == Some(value),
{
}

/// Inserting a key leaves every other key as it was.
pub proof fn law_other_keys_untouched<K: Eq + Hash + Clone, V: Clone>(
    s: Storage<K, V>,
    after: Storage<K, V>,
    now: u128,
    key: K,
    value: V,
    expire_after: Option<u128>,
    r: (Option<V>, bool),
    other: K,
)
    requires
        s.inserted(after, now, key, value, expire_after, r),
        other != key,
    ensures
        data_of(after.contents(), other) == data_of(s.contents(), other),
{
}

/// Removing a key that was just inserted gives back the inserted value and
/// leaves the pairs as they were before the insertion, if the key was absent.
pub proof fn law_remove_undoes_insert<K: Eq + Hash + Clone, V: Clone>(
    s: Storage<K, V>,
    mid: Storage<K, V>,
    after: Storage<K, V>,
    now: u128,
    key: K,
    value: V,
    expire_after: Option<u128>,
    r1: (Option<V>, bool),
    r2: Option<V>,
)
    requires
        s.inserted(mid, now, key, value, expire_after, r1),
        mid.removed(after, key, r2),
    ensures
        r2 == Some(value),
        !after.contents().contains_key(key),
        !s.contents().contains_key(key) ==> after.contents() == s.contents(),
{
    if !s.contents().contains_key(key) {
        assert(after.contents() =~= s.contents());
    }
}

/// Inserting gives the key the new data and the expiry time that
/// `expire_after` sets from the insertion tick, whatever the key held
/// before, and returns what it held before.
pub proof fn law_insert_replaces_pair<K: Eq + Hash + Clone, V: Clone>(
    s: Storage<K, V>,
    after: Storage<K, V>,
    now: u128,
    key: K,
    value: V,
    expire_after: Option<u128>,
    r: (Option<V>, bool),
)
    requires
        s.inserted(after, now, key, value, expire_after, r),
    ensures
        after.contents().contains_key(key),
        after.contents()[key].0 == value,
        after.contents()[key].1 == match expire_after {
            Some(d) => Some(deadline(now, d)),
            None => None::<u128>,
        },
        s.contents().contains_key(key) ==> r.0 == Some(s.contents()[key].0),
        !s.contents().contains_key(key) ==> r.0 is None,
        after.contents().dom() == s.contents().dom().insert(key),
{
    assert(after.contents().dom() =~= s.contents().dom().insert(key));
}

/// The wake-up flag of an insertion compares the new expiry time with the
/// head of the queue: it is set when nothing is queued and an expiry is
/// given, or when the new expiry time comes before the head's.
pub proof fn law_wakeup_flag_compares_with_head<K: Eq + Hash + Clone, V: Clone>(
    s: Storage<K, V>,
    after: Storage<K, V>,
    now: u128,
    key: K,
    value: V,
    expire_after: Option<u128>,
    r: (Option<V>, bool),
)
    requires
        s.wf(),
        s.inserted(after, now, key, value, expire_after, r),
    ensures
        expire_after is None ==> !r.1,
        s.pending().len() == 0 ==> r.1 == expire_after is Some,
        s.pending().len() > 0 ==> r.1 == (expire_after matches Some(d) && deadline(now, d)
            < s.next_queued().expiry_time),
{
    if s.pending().len() > 0 {
        s.lemma_next_queued_is_earliest();
        assert(s.pending().contains(s.next_queued()));
    } else {
        assert forall|e: ExpiringKey<K>| !#[trigger] s.pending().contains(e) by {
            vstd::multiset::lemma_multiset_empty_len(s.pending());
        }
    }
}

/// Removing a key leaves it without a pair and keeps every other pair.
pub proof fn law_remove_keeps_other_pairs<K: Eq + Hash + Clone, V: Clone>(
    s: Storage<K, V>,
    after: Storage<K, V>,
    key: K,
    r: Option<V>,
    other: K,
)
    requires
        s.removed(after, key, r),
        other != key,
    ensures
        !after.contents().contains_key(key),
        after.contents().contains_key(other) == s.contents().contains_key(other),
        s.contents().contains_key(other) ==> after.contents()[other] == s.contents()[other],
        s.contents().contains_key(key) ==> r == Some(s.contents()[key].0),
        !s.contents().contains_key(key) ==> r is None,
{
}

/// A cleanup at `now` keeps, as it was, every pair that has not expired at
/// `now`: its expiry time lies after `now`, or it has none.
pub proof fn law_cleanup_keeps_unexpired<K: Eq + Hash + Clone, V: Clone>(
    s: Storage<K, V>,
    after: Storage<K, V>,
    now: u128,
    r: Option<u128>,
    key: K,
)
    requires
        s.cleaned(after, now, r),
        s.contents().contains_key(key),
        s.contents()[key].1 matches Some(t) ==> now < t,
    ensures
        after.contents().contains_key(key),
        after.contents()[key] == s.contents()[key],
{
}

/// A cleanup at `now` removes every pair whose expiry time is `now` or
/// earlier, and no other.
pub proof fn law_cleanup_removes_exactly_expired<K: Eq + Hash + Clone, V: Clone>(
    s: Storage<K, V>,
    after: Storage<K, V>,
    now: u128,
    r: Option<u128>,
    key: K,
)
    requires
        s.cleaned(after, now, r),
    ensures
        after.contents().contains_key(key) <==> (s.contents().contains_key(key) && !(
        s.contents()[key].1 matches Some(t) && t <= now)),
{
}

/// One operation on the storage, with the tick it runs at.
pub enum Operation<K, V> {
    Insert { now: u128, key: K, value: V, expire_after: Option<u128> },
    Remove { key: K },
    Cleanup { now: u128 },
}

/// `t` is what running `op` on `s` makes of it, as the operations' own
/// contracts state.
pub open spec fn step<K: Eq + Hash + Clone, V: Clone>(
    s: Storage<K, V>,
    op: Operation<K, V>,
    t: Storage<K, V>,
) -> bool {
    match op {
        Operation::Insert { now, key, value, expire_after } => s.inserted_state(
            t,
            now,
            key,
            value,
            expire_after,
        ),
        Operation::Remove { key } => s.removed_state(t, key),
        Operation::Cleanup { now } => s.cleaned_state(t, now),
    }
}

/// `states` are the storages that running `ops` one after the other goes
/// through, from `states[0]` on.
pub open spec fn is_run<K: Eq + Hash + Clone, V: Clone>(
    states: Seq<Storage<K, V>>,
    ops: Seq<Operation<K, V>>,
) -> bool {
    &&& states.len() == ops.len() + 1
    &&& forall|i: int|
        #![trigger ops[i]]
        0 <= i < ops.len() ==> step(states[i], ops[i], states[i + 1])
}

/// `op` inserts or removes `key`.
pub open spec fn touches<K, V>(op: Operation<K, V>, key: K) -> bool {
    match op {
        Operation::Insert { key: k, .. } => k == key,
        Operation::Remove { key: k } => k == key,
        Operation::Cleanup { .. } => false,
    }
}

/// `op` is a cleanup at which `pair` has expired.
pub open spec fn expires<K, V>(op: Operation<K, V>, pair: (V, Option<u128>)) -> bool {
    op matches Operation::Cleanup { now } && is_expired(pair, now)
}

/// `ops` starts by inserting `key:value` at tick `inserted_at` and never
/// inserts or removes `key` again.
pub open spec fn inserts_once<K, V>(
    ops: Seq<Operation<K, V>>,
    key: K,
    value: V,
    inserted_at: u128,
    expire_after: Option<u128>,
) -> bool {
    &&& ops.len() > 0
    &&& ops[0] == Operation::Insert { now: inserted_at, key, value, expire_after }
    &&& forall|i: int| 1 <= i < ops.len() ==> !touches(#[trigger] ops[i], key)
}

/// After the insertion, `key` holds the inserted pair until a cleanup at
/// which that pair has expired, and nothing from then on.
proof fn lemma_pair_until_expired<K: Eq + Hash + Clone, V: Clone>(
    states: Seq<Storage<K, V>>,
    ops: Seq<Operation<K, V>>,
    key: K,
    value: V,
    inserted_at: u128,
    expire_after: Option<u128>,
    n: int,
)
    requires
        is_run(states, ops),
        inserts_once(ops, key, value, inserted_at, expire_after),
        1 <= n <= ops.len(),
    ensures
        ({
            let c = states[n].contents();
            let pair = (value, expiry_for(inserted_at, expire_after));
            &&& c.contains_key(key) ==> c[key] == pair
            &&& (exists|i: int| 1 <= i < n && expires(#[trigger] ops[i], pair)) ==> !c.contains_key(
                key,
            )
            &&& (forall|i: int| 1 <= i < n ==> !expires(#[trigger] ops[i], pair)) ==> c.contains_key(
                key,
            )
        }),
    decreases n,
{
    let pair = (value, expiry_for(inserted_at, expire_after));
    assert(step(states[0], ops[0], states[1]));
    if n > 1 {
        let m = n - 1;
        lemma_pair_until_expired(states, ops, key, value, inserted_at, expire_after, m);
        assert(step(states[m], ops[m], states[n]));
        assert(!touches(ops[m], key));
        let before = states[m].contents();
        let c = states[n].contents();
        match ops[m] {
            Operation::Insert { now, key: k, value: v, expire_after: x } => {
                assert(c == before.insert(k, (v, expiry_for(now, x))));
            },
            Operation::Remove { key: k } => {
                assert(c == before.remove(k));
            },
            Operation::Cleanup { now } => {
                assert(c == unexpired(before, now));
            },
        }
        if exists|i: int| 1 <= i < n && expires(#[trigger] ops[i], pair) {
            let i = choose|i: int| 1 <= i < n && expires(#[trigger] ops[i], pair);
            if i < m {
                assert(!before.contains_key(key));
            }
        }
        if forall|i: int| 1 <= i < n ==> !expires(#[trigger] ops[i], pair) {
            assert(!expires(ops[m], pair));
        }
    }
}

/// Only the last expiration set for a key counts: once inserted, a key that
/// is not inserted or removed again keeps its pair through every later
/// operation as long as no cleanup runs at or past its expiry time, whatever
/// expirations were set for it earlier.
pub proof fn law_kept_until_its_expiry<K: Eq + Hash + Clone, V: Clone>(
    states: Seq<Storage<K, V>>,
    ops: Seq<Operation<K, V>>,
    key: K,
    value: V,
    inserted_at: u128,
    expire_after: Option<u128>,
)
    requires
        is_run(states, ops),
        inserts_once(ops, key, value, inserted_at, expire_after),
        forall|i: int|
            0 <= i < ops.len() ==> !expires(
                #[trigger] ops[i],
                (value, expiry_for(inserted_at, expire_after)),
            ),
    ensures
        forall|i: int|
            1 <= i < states.len() ==> #[trigger] states[i].contents().contains_key(key)
                && states[i].contents()[key] == (value, expiry_for(inserted_at, expire_after)),
{
    assert forall|n: int| 1 <= n < states.len() implies #[trigger] states[n].contents().contains_key(
        key,
    ) && states[n].contents()[key] == (value, expiry_for(inserted_at, expire_after)) by {
        lemma_pair_until_expired(states, ops, key, value, inserted_at, expire_after, n);
    }
}

/// A key inserted without an expiration, and not inserted or removed again,
/// keeps its pair through every later operation.
pub proof fn law_kept_without_expiration<K: Eq + Hash + Clone, V: Clone>(
    states: Seq<Storage<K, V>>,
    ops: Seq<Operation<K, V>>,
    key: K,
    value: V,
    inserted_at: u128,
)
    requires
        is_run(states, ops),
        inserts_once(ops, key, value, inserted_at, None),
    ensures
        forall|i: int|
            1 <= i < states.len() ==> #[trigger] states[i].contents().contains_key(key)
                && states[i].contents()[key] == (value, None::<u128>),
{
    assert forall|i: int| 0 <= i < ops.len() implies !expires(
        #[trigger] ops[i],
        (value, expiry_for(inserted_at, None)),
    ) by {}
    law_kept_until_its_expiry(states, ops, key, value, inserted_at, None);
}

/// A key inserted to expire, and not inserted or removed again, is gone
/// after the first cleanup that runs at or past its expiry time, and stays
/// gone.
pub proof fn law_gone_after_its_expiry<K: Eq + Hash + Clone, V: Clone>(
    states: Seq<Storage<K, V>>,
    ops: Seq<Operation<K, V>>,
    key: K,
    value: V,
    inserted_at: u128,
    after: u128,
    j: int,
    cleaned_at: u128,
)
    requires
        is_run(states, ops),
        inserts_once(ops, key, value, inserted_at, Some(after)),
        1 <= j < ops.len(),
        ops[j] == (Operation::<K, V>::Cleanup { now: cleaned_at }),
        deadline(inserted_at, after) <= cleaned_at,
    ensures
        forall|i: int|
            #![trigger states[i]]
            j < i < states.len() ==> !states[i].contents().contains_key(key),
{
    let pair = (value, expiry_for(inserted_at, Some(after)));
    assert(expires(ops[j], pair));
    assert forall|n: int| #![trigger states[n]] j < n < states.len() implies !states[n].contents().contains_key(
        key,
    ) by {
        lemma_pair_until_expired(states, ops, key, value, inserted_at, Some(after), n);
        assert(1 <= j < n && expires(ops[j], pair));
    }
}

/// A cleanup leaves no expired pair, and the expiry it reports lies after
/// the tick it ran at.
pub proof fn law_next_expiration_is_future<K: Eq + Hash + Clone, V: Clone>(
    s: Storage<K, V>,
    after: Storage<K, V>,
    now: u128,
    r: Option<u128>,
)
    requires
        s.cleaned(after, now, r),
    ensures
        r matches Some(t) ==> now < t,
        forall|k: K| #[trigger]
            after.contents().contains_key(k) ==> !is_expired(after.contents()[k], now),
{
    if let Some(t) = r {
        let k = choose|k: K| #[trigger]
            after.contents().contains_key(k) && after.contents()[k].1 == Some(t);
        assert(after.contents().contains_key(k));
    }
}

/// A cleanup never adds pairs.
pub proof fn law_cleanup_never_grows<K: Eq + Hash + Clone, V: Clone>(
    s: Storage<K, V>,
    after: Storage<K, V>,
    now: u128,
    r: Option<u128>,
)
    requires
        s.wf(),
        s.cleaned(after, now, r),
    ensures
        after.contents().dom().subset_of(s.contents().dom()),
        after.contents().len() <= s.contents().len(),
{
    vstd::set_lib::lemma_len_subset(after.contents().dom(), s.contents().dom());
}

/// A second cleanup that runs before every expiration left queued by the
/// first changes nothing and reports the same next expiry.
pub proof fn law_second_cleanup_changes_nothing<K: Eq + Hash + Clone, V: Clone>(
    s0: Storage<K, V>,
    s1: Storage<K, V>,
    s2: Storage<K, V>,
    now1: u128,
    now2: u128,
    r1: Option<u128>,
    r2: Option<u128>,
)
    requires
        s1.wf(),
        s0.cleaned(s1, now1, r1),
        s1.cleaned(s2, now2, r2),
        now1 <= now2,
        forall|e: ExpiringKey<K>| #[trigger] s1.pending().contains(e) ==> now2 < e.expiry_time,
    ensures
        s2.contents() == s1.contents(),
        s2.pending() == s1.pending(),
        s2.clock_origin() == s1.clock_origin(),
        s1.pending().len() > 0 ==> s2 == s1,
        r2 == r1,
{
    let c = s1.contents();
    if s1.pending().len() > 0 {
        assert(s1.head_is_live(now2));
    } else {
        assert(s1.pending() =~= Multiset::empty()) by {
            vstd::multiset::lemma_multiset_empty_len(s1.pending());
        }
        assert forall|k: K| #[trigger] c.contains_key(k) implies !is_expired(c[k], now2) by {
            if c[k].1 is Some {
                assert(s1.pending().contains(ExpiringKey { key: k, expiry_time: c[k].1->0 }));
            }
        }
        assert(s2.contents() =~= c);
        assert(s2.pending() =~= s1.pending()) by {
            vstd::multiset::lemma_multiset_empty_len(s2.pending());
            if s2.pending().len() > 0 {
                assert(s2.pending().contains(s2.next_queued()));
            }
        }
    }
    lemma_earliest_expiry_unique(c, r1, r2);
}

/// Cleaning up twice at the same tick leaves the same pairs and reports the
/// same next expiry.
pub proof fn law_cleanup_is_idempotent<K: Eq + Hash + Clone, V: Clone>(
    s0: Storage<K, V>,
    s1: Storage<K, V>,
    s2: Storage<K, V>,
    now: u128,
    r1: Option<u128>,
    r2: Option<u128>,
)
    requires
        s0.cleaned(s1, now, r1),
        s1.cleaned(s2, now, r2),
    ensures
        s2.contents() == s1.contents(),
        r2 == r1,
{
    assert(s2.contents() =~= s1.contents());
    lemma_earliest_expiry_unique(s1.contents(), r1, r2);
}

/// A map has one earliest expiry.
proof fn lemma_earliest_expiry_unique<K, V>(
    m: Map<K, (V, Option<u128>)>,
    r1: Option<u128>,
    r2: Option<u128>,
)
    requires
        earliest_expiry(m, r1),
        earliest_expiry(m, r2),
    ensures
        r1 == r2,
{
    if let Some(t1) = r1 {
        let k1 = choose|k: K| #[trigger] m.contains_key(k) && m[k].1 == Some(t1);
        assert(m.contains_key(k1));
        if let Some(t2) = r2 {
            let k2 = choose|k: K| #[trigger] m.contains_key(k) && m[k].1 == Some(t2);
            assert(m.contains_key(k2));
        }
    } else if let Some(t2) = r2 {
        let k2 = choose|k: K| #[trigger] m.contains_key(k) && m[k].1 == Some(t2);
        assert(m.contains_key(k2));
    }
}

} // verus!
