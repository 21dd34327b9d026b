use miniredis::store::TimedHashMap;

#[test]
fn insert_then_get_returns_value() {
    let mut m = TimedHashMap::new();
    m.insert(b"foo".to_vec(), b"bar".to_vec(), None);
    assert_eq!(m.get(&b"foo".to_vec(), 0), Some(b"bar".to_vec()));
    assert_eq!(m.get(&b"foo".to_vec(), u64::MAX), Some(b"bar".to_vec()));
}

#[test]
fn get_of_absent_key_is_none() {
    let m = TimedHashMap::new();
    assert_eq!(m.get(&b"missing".to_vec(), 0), None);
}

#[test]
fn insert_is_last_writer_wins() {
    let mut m = TimedHashMap::new();
    m.insert(b"k".to_vec(), b"v1".to_vec(), None);
    m.insert(b"k".to_vec(), b"v2".to_vec(), None);
    assert_eq!(m.get(&b"k".to_vec(), 0), Some(b"v2".to_vec()));
}

#[test]
fn ttl_boundary_is_exclusive() {
    let mut m = TimedHashMap::new();
    // set at instant 1000 with a deadline of 1000 + 100
    m.insert(b"k".to_vec(), b"v".to_vec(), Some(1100));
    assert_eq!(m.get(&b"k".to_vec(), 1000), Some(b"v".to_vec()));
    assert_eq!(m.get(&b"k".to_vec(), 1099), Some(b"v".to_vec()));
    assert_eq!(m.get(&b"k".to_vec(), 1100), None);
    assert_eq!(m.get(&b"k".to_vec(), 2000), None);
}

#[test]
fn zero_ttl_is_already_expired() {
    let mut m = TimedHashMap::new();
    // a zero ttl at instant 500 gives a deadline equal to now
    m.insert(b"k".to_vec(), b"v".to_vec(), Some(500));
    assert_eq!(m.get(&b"k".to_vec(), 500), None);
}

#[test]
fn get_is_read_only() {
    let mut m = TimedHashMap::new();
    m.insert(b"k".to_vec(), b"v".to_vec(), Some(100));
    assert_eq!(m.get(&b"k".to_vec(), 200), None);
    // the expired entry is still swept later; a fresh write revives the key
    m.insert(b"k".to_vec(), b"w".to_vec(), None);
    assert_eq!(m.get(&b"k".to_vec(), 300), Some(b"w".to_vec()));
}

#[test]
fn remove_expired_drops_only_dead_entries() {
    let mut m = TimedHashMap::new();
    m.insert(b"dead".to_vec(), b"1".to_vec(), Some(100));
    m.insert(b"live".to_vec(), b"2".to_vec(), Some(10_000));
    m.insert(b"forever".to_vec(), b"3".to_vec(), None);
    m.remove_expired_entries(5000);
    assert_eq!(m.get(&b"dead".to_vec(), 5000), None);
    assert_eq!(m.get(&b"live".to_vec(), 5000), Some(b"2".to_vec()));
    assert_eq!(m.get(&b"forever".to_vec(), 5000), Some(b"3".to_vec()));
}

#[test]
fn remove_expired_is_idempotent() {
    let mut m = TimedHashMap::new();
    m.insert(b"a".to_vec(), b"1".to_vec(), Some(10));
    m.insert(b"b".to_vec(), b"2".to_vec(), Some(1000));
    m.insert(b"c".to_vec(), b"3".to_vec(), None);
    m.remove_expired_entries(500);
    let after_once: Vec<Option<Vec<u8>>> = vec![
        m.get(&b"a".to_vec(), 500),
        m.get(&b"b".to_vec(), 500),
        m.get(&b"c".to_vec(), 500),
    ];
    m.remove_expired_entries(500);
    let after_twice: Vec<Option<Vec<u8>>> = vec![
        m.get(&b"a".to_vec(), 500),
        m.get(&b"b".to_vec(), 500),
        m.get(&b"c".to_vec(), 500),
    ];
    assert_eq!(after_once, after_twice);
    assert_eq!(after_once, vec![None, Some(b"2".to_vec()), Some(b"3".to_vec())]);
}

#[test]
fn delete_removes_the_key() {
    let mut m = TimedHashMap::new();
    m.insert(b"k".to_vec(), b"v".to_vec(), None);
    m.delete(&b"k".to_vec());
    assert_eq!(m.get(&b"k".to_vec(), 0), None);
    // deleting an absent key is harmless
    m.delete(&b"k".to_vec());
    assert_eq!(m.get(&b"k".to_vec(), 0), None);
}
