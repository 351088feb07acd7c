use simple_key_store::shared::{wakeup_after, Shared, Wakeup};

#[test]
fn wakeup_plans() {
    assert_eq!(wakeup_after(None, 10), Wakeup::WhenNotified);
    assert_eq!(wakeup_after(Some(25), 10), Wakeup::After(15));
    assert_eq!(wakeup_after(Some(10), 10), Wakeup::After(0));
    assert_eq!(wakeup_after(Some(5), 10), Wakeup::After(0));
}

#[test]
fn shared_operations() {
    let shared: Shared<String, i32> = Shared::new();
    assert!(shared.keeps_running());
    assert_eq!(shared.insert("a".to_owned(), 1, None), (None, false));
    assert_eq!(shared.get(&"a".to_owned()), Some(1));
    assert_eq!(shared.insert("a".to_owned(), 2, None), (Some(1), false));
    assert_eq!(shared.remove(&"a".to_owned()), Some(2));
    assert_eq!(shared.get(&"a".to_owned()), None);
    assert_eq!(shared.cleanup_step(), Wakeup::WhenNotified);

    let hour: u128 = 3_600_000_000_000;
    assert_eq!(shared.insert("b".to_owned(), 3, Some(hour)), (None, true));
    match shared.cleanup_step() {
        Wakeup::After(d) => assert!(d > 0 && d <= hour),
        Wakeup::WhenNotified => panic!("an expiration is queued"),
    }
    assert_eq!(shared.get(&"b".to_owned()), Some(3));

    let handle = shared.read();
    assert_eq!(handle.borrow().get(&"b".to_owned()), Some(3));
    handle.release_read();

    let (mut storage, handle) = shared.write();
    assert_eq!(storage.remove(&"b".to_owned()), Some(3));
    handle.release_write(storage);
    assert_eq!(shared.get(&"b".to_owned()), None);

    shared.stop_cleanup();
    assert!(!shared.keeps_running());
}

#[test]
fn expired_keys_go_in_cleanup_step() {
    let shared: Shared<u64, u64> = Shared::new();
    shared.insert(1, 10, Some(0));
    shared.insert(2, 20, None);
    assert_eq!(shared.cleanup_step(), Wakeup::WhenNotified);
    assert_eq!(shared.get(&1), None);
    assert_eq!(shared.get(&2), Some(20));
}
