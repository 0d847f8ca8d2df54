use respcache::pool::PoolState;

#[test]
fn connections_start_free_and_are_granted_in_scan_order() {
    let mut pool = PoolState::new(3);
    assert_eq!(pool.size(), 3);
    assert_eq!(pool.try_acquire(), Some(0));
    assert_eq!(pool.try_acquire(), Some(1));
    assert_eq!(pool.try_acquire(), Some(2));
}

#[test]
fn saturated_pool_grants_nothing_until_a_release() {
    // Pool of size 2, three callers: the third cannot be served until one
    // of the first two lets go, and then gets exactly the freed slot.
    let mut pool = PoolState::new(2);
    let first = pool.try_acquire().unwrap();
    let second = pool.try_acquire().unwrap();
    assert_eq!((first, second), (0, 1));
    assert_eq!(pool.try_acquire(), None);
    pool.release(second);
    assert_eq!(pool.try_acquire(), Some(second));
    assert_eq!(pool.try_acquire(), None);
}

#[test]
fn release_returns_the_slot_to_the_free_set() {
    let mut pool = PoolState::new(1);
    assert_eq!(pool.try_acquire(), Some(0));
    assert_eq!(pool.try_acquire(), None);
    pool.release(0);
    assert_eq!(pool.try_acquire(), Some(0));
}

#[test]
fn scan_picks_the_first_free_connection() {
    let mut pool = PoolState::new(3);
    assert_eq!(pool.try_acquire(), Some(0));
    assert_eq!(pool.try_acquire(), Some(1));
    pool.release(0);
    // Slot 2 is also free; the scan still finds 0 first.
    assert_eq!(pool.try_acquire(), Some(0));
}

#[test]
fn zero_sized_pool_never_grants() {
    let mut pool = PoolState::new(0);
    assert_eq!(pool.size(), 0);
    assert_eq!(pool.try_acquire(), None);
}
