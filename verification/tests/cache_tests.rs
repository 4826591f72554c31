use lfu_cache::cache::LFUCache;
use lfu_cache::CacheError;

fn must_new(capacity: isize) -> LFUCache {
    match LFUCache::new(capacity) {
        Ok(c) => c,
        Err(_) => panic!("construction was refused for capacity {}", capacity),
    }
}

#[test]
fn zero_capacity_is_refused() {
    match LFUCache::new(0) {
        Ok(_) => panic!("capacity 0 must be refused"),
        Err(e) => assert_eq!(e, CacheError::InvalidCapacity),
    }
}

#[test]
fn negative_capacity_is_refused() {
    match LFUCache::new(-3) {
        Ok(_) => panic!("a negative capacity must be refused"),
        Err(e) => assert_eq!(e, CacheError::InvalidCapacity),
    }
}

#[test]
fn capacity_one_succeeds() {
    let c = must_new(1);
    assert_eq!(c.capacity(), 1);
    assert_eq!(c.len(), 0);
    assert!(c.is_empty());
}

#[test]
fn size_never_exceeds_capacity() {
    let mut c = must_new(3);
    let keys = ["a", "b", "c", "d", "e", "f", "g", "h"];
    for (i, k) in keys.iter().enumerate() {
        c.set(k, i);
        assert!(c.len() <= c.capacity());
    }
    assert_eq!(c.len(), 3);
    c.get("zz");
    assert!(c.len() <= c.capacity());
}

#[test]
fn miss_on_never_inserted_key_is_not_found() {
    let mut c = must_new(2);
    assert_eq!(c.get("never"), None);
    c.set("present", 1);
    assert_eq!(c.get("absent"), None);
}

#[test]
fn accessed_key_survives_eviction() {
    // Capacity 2: insert A and B, touch A, then admit C: B is the least
    // frequently used and leaves; A and C remain.
    let mut c = must_new(2);
    c.set("A", 1);
    c.set("B", 2);
    assert_eq!(c.len(), 2);
    assert!(c.get("A").is_some());
    c.set("C", 3);
    assert_eq!(c.len(), 2);
    assert_eq!(c.get("B"), None);
    assert!(c.get("A").is_some());
    assert!(c.get("C").is_some());
}

#[test]
fn tie_breaks_first_in_first_out() {
    // Capacity 2: A and B both sit at frequency 1; admitting C evicts A,
    // the key that has sat at that frequency the longest.
    let mut c = must_new(2);
    c.set("A", 1);
    c.set("B", 2);
    c.set("C", 3);
    assert_eq!(c.len(), 2);
    assert_eq!(c.get("A"), None);
    assert!(c.get("B").is_some());
    assert!(c.get("C").is_some());
}

#[test]
fn reinsertion_updates_identifier_and_raises_frequency() {
    // Setting a present key stores a fresh identifier and counts as an
    // access instead of resetting the frequency: after two sets of A, A sits
    // at frequency 2, so admitting C at full capacity evicts B, not A.
    let mut c = must_new(2);
    c.set("A", 1);
    let first = c.get("A").expect("A is present");
    c.set("A", 2);
    let second = c.get("A").expect("A is still present");
    assert_ne!(first, second);
    c.set("B", 3);
    c.set("C", 4);
    assert_eq!(c.get("B"), None);
    assert!(c.get("A").is_some());
    assert!(c.get("C").is_some());
}

#[test]
fn stored_value_is_the_encoder_output() {
    // The cache stores the hashids rendering of the encoder counter in place
    // of the passed value: the first insertion stores the encoding of 0, the
    // next one the encoding of 1.
    let h = harsh::Harsh::default();
    let mut c = must_new(4);
    c.set("first", 10);
    c.set("second", 20);
    assert_eq!(c.get("first"), Some(h.encode(&[0])));
    assert_eq!(c.get("second"), Some(h.encode(&[1])));
}

#[test]
fn clear_empties_and_set_behaves_as_fresh() {
    let mut c = must_new(2);
    c.set("A", 1);
    c.set("B", 2);
    c.get("A");
    c.get("A");
    c.clear();
    assert_eq!(c.len(), 0);
    assert!(c.is_empty());
    assert_eq!(c.get("A"), None);
    // A fresh sequence after clear: both new keys sit at frequency 1, so the
    // first-inserted one is evicted when a third arrives.
    c.set("A", 1);
    c.set("B", 2);
    c.set("C", 3);
    assert_eq!(c.get("A"), None);
    assert!(c.get("B").is_some());
    assert!(c.get("C").is_some());
    assert_eq!(c.capacity(), 2);
}

#[test]
fn eviction_at_capacity_one() {
    let mut c = must_new(1);
    c.set("A", 1);
    assert_eq!(c.len(), 1);
    c.set("B", 2);
    assert_eq!(c.len(), 1);
    assert_eq!(c.get("A"), None);
    assert!(c.get("B").is_some());
}

#[test]
fn get_raises_frequency_protection_over_chain() {
    // Repeated gets keep raising a key's standing: after many accesses of A,
    // a stream of new keys never pushes A out of a capacity-2 cache.
    let mut c = must_new(2);
    c.set("A", 0);
    for _ in 0..5 {
        assert!(c.get("A").is_some());
    }
    let fillers = ["x1", "x2", "x3", "x4"];
    for (i, k) in fillers.iter().enumerate() {
        c.set(k, i);
        assert!(c.get("A").is_some());
    }
}
