use simple_key_store::expiring_key::ExpiringKey;
use simple_key_store::heap::ExpirationHeap;
use simple_key_store::value::Value;

#[test]
fn expiring_key_compares_by_expiry_time() {
    let a = ExpiringKey::new("a", 10);
    let b = ExpiringKey::new("b", 20);
    assert_eq!(a.key, "a");
    assert_eq!(a.expiry_time, 10);
    assert!(a.expires_before(&b));
    assert!(!b.expires_before(&a));
    assert!(!a.expires_before(&ExpiringKey::new("c", 10)));
    assert!(a.is_later_than(9));
    assert!(!a.is_later_than(10));
    assert!(!a.is_later_than(11));
}

#[test]
fn value_accessors() {
    let v = Value::new("data".to_owned(), Some(42));
    assert_eq!(v.expires_at(), Some(&42));
    assert!(v.expires_exactly_at(42));
    assert!(!v.expires_exactly_at(43));
    assert_eq!(v.clone_inner(), "data".to_owned());
    assert!(v.expires_with(&ExpiringKey::new(1u8, 42)));
    assert!(!v.expires_with(&ExpiringKey::new(1u8, 41)));
    assert_eq!(v.into_inner(), "data".to_owned());

    let w = Value::new(5, None);
    assert_eq!(w.expires_at(), None);
    assert!(!w.expires_exactly_at(0));
    assert!(!w.expires_with(&ExpiringKey::new(1u8, 0)));
    assert_eq!(w.into_inner(), 5);
}

#[test]
fn heap_pops_in_expiry_order() {
    let mut h: ExpirationHeap<u32> = ExpirationHeap::new();
    assert_eq!(h.len(), 0);
    assert!(h.peek().is_none());
    assert!(h.pop().is_none());
    let times: [u128; 12] = [50, 3, 77, 3, 12, 99, 0, 45, 45, 8, 61, 20];
    for (i, t) in times.iter().enumerate() {
        h.push(ExpiringKey::new(i as u32, *t));
    }
    assert_eq!(h.len(), times.len());
    assert_eq!(h.peek().map(|e| e.expiry_time), Some(0));
    assert_eq!(h.peek().map(|e| e.key), Some(6));
    let mut sorted = times.to_vec();
    sorted.sort();
    let mut popped = Vec::new();
    while let Some(e) = h.pop() {
        assert_eq!(times[e.key as usize], e.expiry_time);
        popped.push(e.expiry_time);
    }
    assert_eq!(popped, sorted);
    assert_eq!(h.len(), 0);
}

#[test]
fn heap_interleaved_push_and_pop() {
    let mut h: ExpirationHeap<u8> = ExpirationHeap::new();
    h.push(ExpiringKey::new(1, 30));
    h.push(ExpiringKey::new(2, 10));
    assert_eq!(h.pop().map(|e| (e.key, e.expiry_time)), Some((2, 10)));
    h.push(ExpiringKey::new(3, 20));
    h.push(ExpiringKey::new(4, 5));
    assert_eq!(h.pop().map(|e| (e.key, e.expiry_time)), Some((4, 5)));
    assert_eq!(h.pop().map(|e| (e.key, e.expiry_time)), Some((3, 20)));
    assert_eq!(h.pop().map(|e| (e.key, e.expiry_time)), Some((1, 30)));
    assert!(h.pop().is_none());
}

#[test]
fn entries_can_be_debug_printed() {
    let e = ExpiringKey::new(3u8, 7);
    assert!(format!("{:?}", e).contains("expiry_time: 7"));
    let v = Value::new(5u8, Some(9));
    assert!(format!("{:?}", v).contains("expires_at: Some(9)"));
}
