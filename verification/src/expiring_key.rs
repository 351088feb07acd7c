//! The entries of the expiration queue: a key together with the tick at
//! which it is due to expire.
use vstd::prelude::*;

verus! {

/// A key together with its expiry time.
///
/// Times are ticks: nanoseconds counted from the moment the owning storage
/// was created. Entries are compared by their expiry time alone.
#[derive(Debug)]
pub struct ExpiringKey<K> {
    pub key: K,
    pub expiry_time: u128,
}

impl<K> ExpiringKey<K> {
    pub fn new(key: K, expiry_time: u128) -> (r: Self)
        ensures
            r.key == key,
            r.expiry_time == expiry_time,
    {
        Self { key, expiry_time }
    }

    /// Whether `self` expires strictly before `other`.
    pub fn expires_before(&self, other: &Self) -> (r: bool)
        ensures
            r == (self.expiry_time < other.expiry_time),
    {
        self.expiry_time < other.expiry_time
    }

    /// Whether the expiry time of `self` lies strictly after the tick `now`.
    pub fn is_later_than(&self, now: u128) -> (r: bool)
        ensures
            r == (self.expiry_time > now),
    {
        self.expiry_time > now
    }
}

} // verus!
