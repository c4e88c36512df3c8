use reverse_rusty::write_locks::LogicalWriteLocks;

/// Registers and acquires, for a caller that need not wait.
fn acquire(locks: &mut LogicalWriteLocks, id: u64) -> bool {
    locks.register(id) && locks.lock(id)
}

#[test]
fn a_registry_starts_without_callers() {
    let mut table = LogicalWriteLocks::default();
    assert!(table.is_idle());
    assert!(acquire(&mut table, 7));
    assert!(!table.is_idle());
}

#[test]
fn formerly_colliding_ids_can_hold_locks_together() {
    let mut table = LogicalWriteLocks::new();
    assert!(acquire(&mut table, 7));
    assert!(
        acquire(&mut table, 263),
        "unrelated ID must not wait for the first ID"
    );
    table.release(263);
    table.release(7);
    assert!(table.is_idle());
}

#[test]
fn waiters_pin_one_lock_until_the_last_registered_caller_leaves() {
    let mut table = LogicalWriteLocks::new();
    assert!(acquire(&mut table, u64::MAX));
    for _ in 0..8 {
        assert!(table.register(u64::MAX));
    }
    assert_eq!(
        table.users(u64::MAX),
        9,
        "all waiters must register before waiting"
    );
    // A notification with no predicate change must not admit a waiter.
    assert!(!table.lock(u64::MAX));
    table.release(u64::MAX);
    for left in (1..=8).rev() {
        assert_eq!(table.users(u64::MAX), left);
        assert!(table.lock(u64::MAX));
        assert!(!table.lock(u64::MAX), "one holder at a time");
        table.release(u64::MAX);
    }
    assert!(table.is_idle());
}

#[test]
fn high_cardinality_churn_retains_only_active_ids() {
    let mut table = LogicalWriteLocks::new();
    for offset in 0..10_000 {
        for worker in 0..8 {
            assert!(acquire(&mut table, (worker * 10_000 + offset) * 256));
        }
        for worker in 0..8 {
            let logical = (worker * 10_000 + offset) * 256;
            table.release(logical);
            assert_eq!(table.users(logical), 0);
        }
        assert!(table.is_idle());
    }
}

#[test]
fn bulk_excludes_registered_and_new_id_writers() {
    let mut table = LogicalWriteLocks::new();
    assert!(acquire(&mut table, 1));
    assert!(!table.lock_bulk());
    assert!(table.register(1));
    table.release(1);
    assert!(!table.lock_bulk(), "a waiter is registered");
    table.release(1);

    assert!(table.lock_bulk());
    assert!(!table.lock_bulk(), "one bulk operation at a time");
    assert!(!table.register(2));
    assert_eq!(table.users(2), 0);
    table.release_bulk();
    assert!(acquire(&mut table, 2), "writer resumes after bulk");
    table.release(2);
    assert!(table.is_idle());
}

#[test]
fn a_caller_that_is_not_registered_holds_nothing() {
    let mut table = LogicalWriteLocks::new();
    assert!(!table.lock(5));
    table.release(5);
    assert!(table.is_idle());
}
