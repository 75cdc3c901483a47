use reqline::pool::Pool;

fn none_closed(n: usize) -> Vec<bool> {
    vec![false; n]
}

#[test]
fn new_pool_is_empty() {
    let pool = Pool::new(4);
    assert_eq!(pool.capacity(), 4);
    for i in 0..4 {
        assert!(!pool.is_live(i));
    }
}

#[test]
fn admission_is_first_fit() {
    let mut pool = Pool::new(4);
    for expected in 0..4 {
        let admitted = pool.tick(&none_closed(4), true);
        assert_eq!(admitted, Some(expected));
        assert!(pool.is_live(expected));
    }
}

#[test]
fn overflow_socket_is_dropped() {
    let mut pool = Pool::new(4);
    for _ in 0..4 {
        assert!(pool.tick(&none_closed(4), true).is_some());
    }
    // a fifth concurrent socket, with nothing closed, is never admitted
    assert_eq!(pool.tick(&none_closed(4), true), None);
    for i in 0..4 {
        assert!(pool.is_live(i));
    }
}

#[test]
fn closed_slot_is_reused_by_next_accept() {
    let mut pool = Pool::new(4);
    for _ in 0..4 {
        pool.tick(&none_closed(4), true);
    }
    let mut closed = none_closed(4);
    closed[2] = true;
    let admitted = pool.tick(&closed, true);
    assert_eq!(admitted, Some(2));
    assert!(pool.is_live(2));
}

#[test]
fn closed_slots_are_evicted_without_admission() {
    let mut pool = Pool::new(3);
    for _ in 0..3 {
        pool.tick(&none_closed(3), true);
    }
    let mut closed = none_closed(3);
    closed[0] = true;
    closed[2] = true;
    assert_eq!(pool.tick(&closed, false), None);
    assert!(!pool.is_live(0));
    assert!(pool.is_live(1));
    assert!(!pool.is_live(2));
}

#[test]
fn admission_prefers_lowest_free_slot() {
    let mut pool = Pool::new(3);
    for _ in 0..3 {
        pool.tick(&none_closed(3), true);
    }
    let mut closed = none_closed(3);
    closed[1] = true;
    closed[2] = true;
    // both free: the lower index wins, the other closed slot is evicted
    assert_eq!(pool.tick(&closed, true), Some(1));
    assert!(pool.is_live(0));
    assert!(pool.is_live(1));
    assert!(!pool.is_live(2));
}

#[test]
fn zero_capacity_pool_admits_nothing() {
    let mut pool = Pool::new(0);
    assert_eq!(pool.capacity(), 0);
    assert_eq!(pool.tick(&none_closed(0), true), None);
}
