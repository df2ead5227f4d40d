use buddy_allocator::Mutex;

#[test]
fn test_try_lock() {
    let mutex = Mutex::new(());

    {
        let lock_1 = mutex.try_lock();
        assert!(lock_1.is_some());
        let lock_2 = mutex.try_lock();
        assert!(lock_2.is_none());
    }

    let lock_1 = mutex.try_lock();
    assert!(lock_1.is_some());
    let lock_2 = mutex.try_lock();
    assert!(lock_2.is_none());

    drop(lock_1);

    let lock = mutex.try_lock();
    assert!(lock.is_some());
}

#[test]
fn guard_replaces_the_guarded_value() {
    let mutex = Mutex::new(5u32);
    let mut guard = mutex.try_lock().unwrap();
    assert_eq!(guard.replace(7), 5);
    assert_eq!(guard.replace(9), 7);
    drop(guard);
    let mut guard = mutex.try_lock().unwrap();
    assert_eq!(guard.replace(0), 9);
}
