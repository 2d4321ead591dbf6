use tcw3_pal::uniqpool::UniqPool;

#[test]
fn allocate_get_deallocate() {
    let mut pool: UniqPool<&str> = UniqPool::new();
    let a = pool.allocate("a", 1);
    let b = pool.allocate("b", 2);
    assert_eq!(pool.get(a), Some(&"a"));
    assert_eq!(pool.get(b), Some(&"b"));
    assert_eq!(a.token(), 1);

    assert_eq!(pool.deallocate(a), Some("a"));
    assert_eq!(pool.get(a), None);
    assert_eq!(pool.deallocate(a), None);
    assert_eq!(pool.get(b), Some(&"b"));
}

#[test]
fn stale_pointers_do_not_match_reused_slots() {
    let mut pool: UniqPool<u32> = UniqPool::with_capacity(4);
    let a = pool.allocate(10, 1);
    assert_eq!(pool.deallocate(a), Some(10));
    // The slot of `a` is reused with another token.
    let c = pool.allocate(20, 2);
    assert_ne!(a, c);
    assert_eq!(pool.get(a), None);
    assert_eq!(pool.get(c), Some(&20));
    assert_eq!(pool.deallocate(a), None);
    assert_eq!(pool.get(c), Some(&20));
}

#[test]
fn iteration_visits_every_value_in_slot_order() {
    let mut pool: UniqPool<char> = UniqPool::new();
    pool.reserve(3);
    let a = pool.allocate('a', 1);
    let b = pool.allocate('b', 2);
    let c = pool.allocate('c', 3);
    pool.deallocate(b);
    let values: Vec<char> = pool.iter().into_iter().copied().collect();
    assert_eq!(values, vec!['a', 'c']);
    let ptrs: Vec<_> = pool.ptr_iter().into_iter().map(|(p, v)| (p, *v)).collect();
    assert_eq!(ptrs, vec![(a, 'a'), (c, 'c')]);
}

#[test]
fn get_mut_changes_the_value_in_place() {
    let mut pool: UniqPool<u32> = UniqPool::new();
    let a = pool.allocate(5, 1);
    if let Some(x) = pool.get_mut(a) {
        *x = 7;
    }
    assert_eq!(pool.get(a), Some(&7));
    pool.deallocate(a);
    assert!(pool.get_mut(a).is_none());
}
