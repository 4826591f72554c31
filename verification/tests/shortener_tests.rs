use lfu_cache::shortener::Shortener;

#[test]
fn identifiers_follow_the_hashids_encoding_of_the_counter() {
    // The encoder renders 0, 1, 2, ... through harsh's default
    // configuration; comparing against harsh directly would catch a wrapper
    // that returned anything but the real encoding.
    let h = harsh::Harsh::default();
    let mut s = Shortener::default();
    assert_eq!(s.next_id(), h.encode(&[0]));
    assert_eq!(s.next_id(), h.encode(&[1]));
    assert_eq!(s.next_id(), h.encode(&[2]));
}

#[test]
fn identifiers_are_non_empty_and_distinct() {
    let mut s = Shortener::default();
    let a = s.next_id();
    let b = s.next_id();
    let c = s.next_id();
    assert!(!a.is_empty());
    assert!(!b.is_empty());
    assert!(!c.is_empty());
    assert_ne!(a, b);
    assert_ne!(b, c);
    assert_ne!(a, c);
}

#[test]
fn fresh_encoders_agree() {
    // The rendering depends on the counter alone: two fresh encoders produce
    // the same identifier stream.
    let mut s1 = Shortener::default();
    let mut s2 = Shortener::default();
    assert_eq!(s1.next_id(), s2.next_id());
    assert_eq!(s1.next_id(), s2.next_id());
}
