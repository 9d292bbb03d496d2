use qdb::lock_manager::LockManager;

#[test]
fn basics() {
    let mut lm = LockManager::new();

    for _ in 0..5 {
        assert_eq!(lm.lock_shared(0), true);
        assert_eq!(lm.lock_exclusive(0), false);
    }
    assert_eq!(lm.lock_exclusive(1), true);

    for _ in 0..5 {
        assert_eq!(lm.lock_exclusive(0), false);
        lm.unlock(0);
    }
    assert_eq!(lm.lock_exclusive(0), true);

    lm.unlock(1);
    for _ in 0..5 {
        assert_eq!(lm.lock_shared(1), true);
    }
}

#[test]
fn readers_are_counted() {
    let mut lm = LockManager::new();
    assert!(lm.lock_shared(7));
    assert!(lm.lock_shared(7));
    assert!(lm.lock_shared(7));
    lm.unlock(7);
    lm.unlock(7);
    // one reader is left
    assert!(!lm.lock_exclusive(7));
    lm.unlock(7);
    assert!(lm.lock_exclusive(7));
}

#[test]
fn a_writer_keeps_readers_out() {
    let mut lm = LockManager::new();
    assert!(lm.lock_exclusive(3));
    assert!(!lm.lock_shared(3));
    assert!(!lm.lock_exclusive(3));
    // other objects are not touched
    assert!(lm.lock_shared(4));
    lm.unlock(3);
    assert!(lm.lock_shared(3));
}

#[test]
fn unlocking_what_is_not_locked_changes_nothing() {
    let mut lm = LockManager::new();
    lm.unlock(1);
    assert!(lm.lock_exclusive(1));
    lm.unlock(1);
    lm.unlock(1);
    assert!(lm.lock_shared(1));
}
