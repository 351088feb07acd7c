//! A stored value together with the expiry time that was last set for it.
use vstd::prelude::*;

use crate::expiring_key::ExpiringKey;

verus! {

/// A value of the store and the tick at which it expires, if it does.
#[derive(Debug)]
pub struct Value<V> {
    data: V,
    expires_at: Option<u128>,
}

impl<V> View for Value<V> {
    type V = (V, Option<u128>);

    /// The stored data and its expiry time.
    closed spec fn view(&self) -> (V, Option<u128>) {
        (self.data, self.expires_at)
    }
}

impl<V> Value<V> {
    pub fn new(data: V, expiry_time: Option<u128>) -> (r: Self)
        ensures
            r@ == (data, expiry_time),
    {
        Self { data, expires_at: expiry_time }
    }

    pub fn into_inner(self) -> (r: V)
        ensures
            r == self@.0,
    {
        self.data
    }

    pub fn expires_at(&self) -> (r: Option<&u128>)
        ensures
            match r {
                Some(t) => self@.1 == Some(*t),
                None => self@.1 is None,
            },
    {
        self.expires_at.as_ref()
    }

    /// Whether this value expires exactly at the tick `when`.
    pub fn expires_exactly_at(&self, when: u128) -> (r: bool)
        ensures
            r == (self@.1 == Some(when)),
    {
        match self.expires_at {
            Some(t) => t == when,
            None => false,
        }
    }

    /// Whether this value expires exactly when the queued `entry` does:
    /// the queued entry is then the current expiry of the value.
    pub fn expires_with<K>(&self, entry: &ExpiringKey<K>) -> (r: bool)
        ensures
            r == (self@.1 == Some(entry.expiry_time)),
    {
        match self.expires_at {
            Some(t) => t == entry.expiry_time,
            None => false,
        }
    }
}

impl<V: Clone> Value<V> {
    pub fn clone_inner(&self) -> (r: V)
        ensures
            cloned(self@.0, r),
    {
        self.data.clone()
    }
}

} // verus!
