use simple_key_store::storage::Storage;

const MS: u128 = 1_000_000;

#[test]
fn insert_get_remove() {
    let mut s: Storage<String, i32> = Storage::new();
    let (prev, notify) = s.insert_at(0, "a".to_owned(), 1, None);
    assert_eq!(prev, None);
    assert!(!notify);
    assert_eq!(s.get(&"a".to_owned()), Some(1));
    assert_eq!(s.remove(&"a".to_owned()), Some(1));
    assert_eq!(s.get(&"a".to_owned()), None);
    assert_eq!(s.remove(&"a".to_owned()), None);
}

#[test]
fn insert_returns_previous_value() {
    let mut s: Storage<u64, String> = Storage::new();
    assert_eq!(s.insert_at(0, 7, "x".to_owned(), None).0, None);
    assert_eq!(s.insert_at(1, 7, "y".to_owned(), None).0, Some("x".to_owned()));
    assert_eq!(s.get(&7), Some("y".to_owned()));
}

#[test]
fn other_keys_are_untouched() {
    let mut s: Storage<u64, u64> = Storage::new();
    s.insert_at(0, 1, 10, None);
    s.insert_at(0, 2, 20, Some(5));
    s.remove(&1);
    assert_eq!(s.get(&2), Some(20));
    s.insert_at(1, 3, 30, None);
    assert_eq!(s.get(&2), Some(20));
    assert_eq!(s.get(&1), None);
}

#[test]
fn expiring_key_is_removed_by_cleanup() {
    let mut s: Storage<String, i32> = Storage::new();
    s.insert_at(0, "b".to_owned(), 2, Some(5 * MS));
    assert_eq!(s.get(&"b".to_owned()), Some(2));
    assert_eq!(s.cleanup_expired_keys_at(4 * MS), Some(5 * MS));
    assert_eq!(s.get(&"b".to_owned()), Some(2));
    assert_eq!(s.cleanup_expired_keys_at(6 * MS), None);
    assert_eq!(s.get(&"b".to_owned()), None);
}

#[test]
fn only_the_last_expiration_counts() {
    let mut s: Storage<String, i32> = Storage::new();
    s.insert_at(6 * MS, "b".to_owned(), 2, Some(5 * MS));
    assert_eq!(s.get(&"b".to_owned()), Some(2));
    s.insert_at(6 * MS, "b".to_owned(), 3, Some(10 * MS));
    // The first timer has elapsed: its queued expiration is dropped,
    // but the key stays, as the last expiration set is later.
    assert_eq!(s.cleanup_expired_keys_at(12 * MS), Some(16 * MS));
    assert_eq!(s.get(&"b".to_owned()), Some(3));
    // The last timer has elapsed too.
    assert_eq!(s.cleanup_expired_keys_at(16 * MS), None);
    assert_eq!(s.get(&"b".to_owned()), None);
}

#[test]
fn shorter_expiration_after_longer_one() {
    let mut s: Storage<u64, u64> = Storage::new();
    s.insert_at(0, 1, 10, Some(100));
    s.insert_at(0, 1, 11, Some(50));
    // The later expiration is stale once the key is gone.
    assert_eq!(s.cleanup_expired_keys_at(60), None);
    assert_eq!(s.get(&1), None);
    assert_eq!(s.cleanup_expired_keys_at(100), None);
}

#[test]
fn removing_expiration_by_plain_insert() {
    let mut s: Storage<u64, u64> = Storage::new();
    s.insert_at(0, 1, 10, Some(5));
    s.insert_at(1, 1, 11, None);
    assert_eq!(s.cleanup_expired_keys_at(10), None);
    assert_eq!(s.get(&1), Some(11));
}

#[test]
fn keys_without_expiration_are_kept() {
    let mut s: Storage<u64, u64> = Storage::new();
    s.insert_at(0, 1, 10, None);
    assert_eq!(s.cleanup_expired_keys_at(u128::MAX), None);
    assert_eq!(s.get(&1), Some(10));
}

#[test]
fn removed_key_reports_no_next_expiry() {
    let mut s: Storage<u64, u64> = Storage::new();
    s.insert_at(0, 1, 10, Some(5));
    assert_eq!(s.remove(&1), Some(10));
    // The queued expiration is stale: no pair is left to expire.
    assert_eq!(s.cleanup_expired_keys_at(4), None);
    s.insert_at(4, 1, 12, None);
    assert_eq!(s.cleanup_expired_keys_at(5), None);
    assert_eq!(s.get(&1), Some(12));
}

#[test]
fn stale_expirations_are_skipped_in_the_report() {
    let mut s: Storage<u64, u64> = Storage::new();
    s.insert_at(0, 1, 10, Some(5));
    s.insert_at(0, 2, 20, Some(7));
    s.insert_at(0, 1, 11, Some(9));
    s.remove(&2);
    // Key 1's first expiration and key 2's are stale; key 1 expires at 9.
    assert_eq!(s.cleanup_expired_keys_at(3), Some(9));
    assert_eq!(s.get(&1), Some(11));
    assert_eq!(s.cleanup_expired_keys_at(9), None);
    assert_eq!(s.get(&1), None);
}

#[test]
fn notify_flag() {
    let mut s: Storage<u64, u64> = Storage::new();
    // Nothing queued yet: an expiring insert asks for a wake-up.
    assert!(s.insert_at(0, 1, 1, Some(100)).1);
    // A later expiration does not.
    assert!(!s.insert_at(0, 2, 2, Some(200)).1);
    // The same expiration time does not either.
    assert!(!s.insert_at(0, 3, 3, Some(100)).1);
    // An earlier one does.
    assert!(s.insert_at(0, 4, 4, Some(50)).1);
    // No expiration never does.
    assert!(!s.insert_at(0, 5, 5, None).1);
}

#[test]
fn cleanup_reports_earliest_remaining_expiration() {
    let mut s: Storage<u64, u64> = Storage::new();
    assert_eq!(s.cleanup_expired_keys_at(0), None);
    s.insert_at(0, 1, 1, Some(30));
    s.insert_at(0, 2, 2, Some(10));
    s.insert_at(0, 3, 3, Some(20));
    s.insert_at(0, 4, 4, Some(40));
    assert_eq!(s.cleanup_expired_keys_at(9), Some(10));
    assert_eq!(s.cleanup_expired_keys_at(10), Some(20));
    assert_eq!(s.get(&2), None);
    assert_eq!(s.get(&1), Some(1));
    assert_eq!(s.cleanup_expired_keys_at(35), Some(40));
    assert_eq!(s.get(&1), None);
    assert_eq!(s.get(&3), None);
    assert_eq!(s.get(&4), Some(4));
}

#[test]
fn cleanup_twice_changes_nothing() {
    let mut s: Storage<u64, u64> = Storage::new();
    s.insert_at(0, 1, 1, Some(10));
    s.insert_at(0, 2, 2, Some(30));
    assert_eq!(s.cleanup_expired_keys_at(20), Some(30));
    assert_eq!(s.cleanup_expired_keys_at(20), Some(30));
    assert_eq!(s.get(&2), Some(2));
}

#[test]
fn expiry_at_largest_tick() {
    let mut s: Storage<u64, u64> = Storage::new();
    s.insert_at(u128::MAX - 10, 1, 1, Some(10));
    assert_eq!(s.cleanup_expired_keys_at(u128::MAX - 1), Some(u128::MAX));
    assert_eq!(s.get(&1), Some(1));
    assert_eq!(s.cleanup_expired_keys_at(u128::MAX), None);
    assert_eq!(s.get(&1), None);
}

#[test]
fn clock_based_operations() {
    let mut s: Storage<String, i32> = Storage::new();
    let t0 = s.now();
    // An hour is far beyond the duration of the test.
    let hour: u128 = 3_600_000 * MS;
    s.insert("k".to_owned(), 1, Some(hour));
    s.insert("z".to_owned(), 2, Some(0));
    let next = s.cleanup_expired_keys().expect("the hour-long expiration is queued");
    let t1 = s.now();
    assert!(t0 <= t1);
    assert!(next >= t0 + hour);
    assert!(next <= t1 + hour);
    assert_eq!(s.get(&"k".to_owned()), Some(1));
    assert_eq!(s.get(&"z".to_owned()), None);
}

#[test]
fn second_cleanup_before_any_expiry_changes_nothing() {
    let mut s: Storage<u64, u64> = Storage::new();
    s.insert_at(0, 1, 10, Some(5));
    s.insert_at(0, 1, 11, Some(8));
    s.insert_at(0, 2, 20, Some(8));
    assert_eq!(s.cleanup_expired_keys_at(5), Some(8));
    let before = format!("{:?}", s);
    assert_eq!(s.cleanup_expired_keys_at(7), Some(8));
    assert_eq!(format!("{:?}", s), before);
    assert_eq!(s.get(&1), Some(11));
    assert_eq!(s.get(&2), Some(20));
}
