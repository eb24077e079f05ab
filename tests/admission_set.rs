use encrypted_dns::admission::ActiveSet;

#[test]
fn third_connection_evicts_the_oldest() {
    let mut set: ActiveSet<u32> = ActiveSet::new(2);
    assert_eq!(set.register(1), None);
    assert_eq!(set.register(2), None);
    assert_eq!(set.len(), 2);
    assert_eq!(set.register(3), Some(1));
    assert_eq!(set.len(), 2);
    assert_eq!(set.register(4), Some(2));
    assert_eq!(set.len(), 2);
    assert_eq!(set.max(), 2);
}

#[test]
fn set_never_exceeds_its_bound() {
    let mut set: ActiveSet<usize> = ActiveSet::new(3);
    for i in 0..50 {
        let evicted = set.register(i);
        assert!(set.len() <= 3);
        if i >= 3 {
            assert_eq!(evicted, Some(i - 3));
        } else {
            assert_eq!(evicted, None);
        }
    }
}
