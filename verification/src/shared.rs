//! The state shared between the key store and its background cleanup task.
use vstd::prelude::*;
use vstd::rwlock::{ReadHandle, RwLock, WriteHandle};

use std::hash::Hash;
use std::sync::atomic::AtomicBool;

use crate::storage::{data_of, key_model, Storage};

verus! {

/// What the background task does after a cleanup.
#[derive(Debug, Clone, Copy, PartialEq, Eq, Structural)]
pub enum Wakeup {
    /// Nothing is queued: sleep until notified of a new expiration.
    WhenNotified,
    /// Sleep for this many nanoseconds, until the next queued expiration,
    /// or until notified of an earlier one.
    After(u128),
}

/// `r` is the wake-up planned after a cleanup at tick `now` that reported
/// `next_expiry` as the next queued expiration: sleep until that expiration,
/// or until notified when nothing is queued.
pub open spec fn plans(r: Wakeup, next_expiry: Option<u128>, now: u128) -> bool {
    match next_expiry {
        None => r == Wakeup::WhenNotified,
        Some(t) => r matches Wakeup::After(d) && d == if t > now {
            t - now
        } else {
            0
        },
    }
}

/// How long the background task sleeps when the cleanup that ran at tick
/// `now` reported `next_expiry` as the next queued expiration.
pub fn wakeup_after(next_expiry: Option<u128>, now: u128) -> (r: Wakeup)
    ensures
        plans(r, next_expiry, now),
{
    match next_expiry {
        None => Wakeup::WhenNotified,
        Some(t) => Wakeup::After(t.saturating_sub(now)),
    }
}

/// The lock-protected storage and the flag that keeps the cleanup running.
#[verifier::reject_recursive_types(K)]
#[verifier::reject_recursive_types(V)]
pub struct Shared<K: Eq + Hash + Clone, V: Clone> {
    storage: RwLock<Storage<K, V>, spec_fn(Storage<K, V>) -> bool>,
    run_cleanup: AtomicBool,
}

impl<K: Eq + Hash + Clone, V: Clone> Shared<K, V> {
    /// The lock admits exactly the well-formed storages.
    pub closed spec fn guards_wf_storage(&self) -> bool {
        forall|s: Storage<K, V>| #[trigger] self.storage.inv(s) <==> s.wf()
    }

    /// The lock only ever holds a well-formed storage.
    #[verifier::type_invariant]
    spec fn holds_wf_storage(self) -> bool {
        self.guards_wf_storage()
    }

    /// A fresh shared state: the lock holds an empty storage and the
    /// cleanup is to keep running. The lock admits only well-formed storages.
    pub fn new() -> (r: Self)
        requires
            key_model::<K>(),
        ensures
            r.guards_wf_storage(),
    {
        let pred = Ghost(|s: Storage<K, V>| s.wf());
        let r = Self { storage: RwLock::new(Storage::new(), pred), run_cleanup: AtomicBool::new(true) };
        assert(r.guards_wf_storage());
        r
    }

    /// Takes a shared read lock on the storage. The lock is held until the
    /// handle's `release_read` is called.
    pub fn read(&self) -> (r: ReadHandle<'_, Storage<K, V>, spec_fn(Storage<K, V>) -> bool>)
        ensures
            r.view().wf(),
    {
        proof {
            use_type_invariant(self);
        }
        self.storage.acquire_read()
    }

    /// Takes the exclusive write lock and the storage out of it. The lock is
    /// held until the handle's `release_write` puts a storage back, which
    /// must be well formed.
    pub fn write(&self) -> (r: (
        Storage<K, V>,
        WriteHandle<'_, Storage<K, V>, spec_fn(Storage<K, V>) -> bool>,
    ))
        ensures
            r.0.wf(),
            forall|s: Storage<K, V>| #[trigger] r.1.rwlock().inv(s) <==> s.wf(),
    {
        proof {
            use_type_invariant(self);
        }
        let (storage, handle) = self.storage.acquire_write();
        (storage, handle)
    }

    /// Signals the background task to stop.
    pub fn stop_cleanup(&self) {
        self.run_cleanup.store(false, std::sync::atomic::Ordering::Release);
    }

    /// Whether the background task is to keep running.
    pub fn keeps_running(&self) -> bool {
        self.run_cleanup.load(std::sync::atomic::Ordering::Acquire)
    }

    /// Returns a clone of the data stored under `key`, read under the lock.
    pub fn get(&self, key: &K) -> (r: Option<V>)
        ensures
            exists|s: Storage<K, V>| #[trigger] s.wf() && match r {
                Some(v) => s.contents().contains_key(*key) && cloned(s.contents()[*key].0, v),
                None => !s.contents().contains_key(*key),
            },
    {
        let handle = self.read();
        let r = handle.borrow().get(key);
        proof {
            let s = handle.view();
            assert(s.wf());
        }
        handle.release_read();
        r
    }

    /// Inserts `key:value` under the lock, to expire `expire_after` ticks
    /// from now if that is given. Returns the previous data of the key and
    /// whether the background task is to be woken up for the new expiration.
    pub fn insert(&self, key: K, value: V, expire_after: Option<u128>) -> (r: (Option<V>, bool))
        ensures
            exists|s: Storage<K, V>, after: Storage<K, V>, now: u128| #[trigger]
                s.inserted(after, now, key, value, expire_after, r) && s.wf() && after.wf(),
    {
        let (mut storage, handle) = self.write();
        let r = storage.insert(key, value, expire_after);
        handle.release_write(storage);
        r
    }

    /// Removes the pair of `key` under the lock, returning its data.
    pub fn remove(&self, key: &K) -> (r: Option<V>)
        ensures
            exists|s: Storage<K, V>| #[trigger] s.wf() && r == data_of(s.contents(), *key),
    {
        let (mut storage, handle) = self.write();
        let ghost s = storage;
        let r = storage.remove(key);
        handle.release_write(storage);
        assert(s.wf() && r == data_of(s.contents(), *key));
        r
    }

    /// One round of the background task: under the lock, removes the pairs
    /// that have expired and drops the queued expirations that are due, then
    /// tells how long to sleep before the next round: until the earliest
    /// expiration still queued, or until notified when none is.
    pub fn cleanup_step(&self) -> (r: Wakeup)
        ensures
            exists|s: Storage<K, V>, after: Storage<K, V>, now: u128, next: Option<u128>|
                #[trigger] s.cleaned(after, now, next) && s.wf() && after.wf() && plans(
                    r,
                    next,
                    now,
                ),
            r matches Wakeup::After(d) ==> d > 0,
    {
        let (mut storage, handle) = self.write();
        let ghost s = storage;
        let now = storage.now();
        let next = storage.cleanup_expired_keys_at(now);
        let ghost after = storage;
        handle.release_write(storage);
        let r = wakeup_after(next, now);
        assert(s.cleaned(after, now, next) && s.wf() && after.wf() && plans(r, next, now));
        r
    }
}

} // verus!
