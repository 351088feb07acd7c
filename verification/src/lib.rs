//! A simple in-memory `key:value` storage whose entries may expire.
pub mod clock;
pub mod expiring_key;
pub mod heap;
pub mod value;
pub mod storage;
pub mod laws;
pub mod shared;
