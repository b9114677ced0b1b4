use lifeforms::lifetime::Lifetime;

const SECOND: u64 = 1_000_000_000;

#[test]
fn new_lifetime_has_not_started() {
    let lifetime = Lifetime::new(SECOND);
    assert_eq!(lifetime, Lifetime { duration: SECOND, elapsed: 0, finished: false });
    assert_eq!(lifetime.remaining(), SECOND);
}

#[test]
fn lifetime_of_one_second_ends_on_the_second_tick() {
    let mut lifetime = Lifetime::new(SECOND);
    assert!(!lifetime.tick(600_000_000));
    assert_eq!(lifetime, Lifetime { duration: SECOND, elapsed: 600_000_000, finished: false });
    assert!(lifetime.tick(500_000_000));
    assert_eq!(lifetime, Lifetime { duration: SECOND, elapsed: SECOND, finished: true });
}

#[test]
fn lifetime_ends_when_elapsed_equals_duration() {
    let mut lifetime = Lifetime::new(10);
    assert!(!lifetime.tick(9));
    assert!(lifetime.tick(1));
    assert!(lifetime.finished);
}

#[test]
fn lifetime_ends_only_once() {
    let mut lifetime = Lifetime::new(10);
    assert!(lifetime.tick(25));
    assert_eq!(lifetime.elapsed, 10);
    assert!(!lifetime.tick(25));
    assert!(!lifetime.tick(0));
    assert_eq!(lifetime, Lifetime { duration: 10, elapsed: 10, finished: true });
}

#[test]
fn tick_advances_the_elapsed_time() {
    let mut lifetime = Lifetime::new(100);
    assert!(!lifetime.tick(7));
    assert_eq!(lifetime.elapsed, 7);
    assert!(!lifetime.tick(0));
    assert_eq!(lifetime.elapsed, 7);
    assert!(!lifetime.tick(92));
    assert_eq!(lifetime.elapsed, 99);
    assert_eq!(lifetime.remaining(), 1);
}

#[test]
fn lifetime_of_no_duration_ends_on_its_first_tick() {
    let mut lifetime = Lifetime::new(0);
    assert!(!lifetime.finished);
    assert!(lifetime.tick(0));
    assert!(lifetime.finished);
    assert!(!lifetime.tick(0));
}

#[test]
fn two_ticks_do_what_one_tick_of_their_sum_does() {
    for (first, second) in [(0u64, 0u64), (3, 4), (6, 4), (7, 4), (10, 0), (0, 10), (11, 11)] {
        let mut twice = Lifetime::new(10);
        let a = twice.tick(first);
        let b = twice.tick(second);
        let mut once = Lifetime::new(10);
        let c = once.tick(first + second);
        assert_eq!(twice, once);
        assert_eq!(a || b, c);
        assert!(!(a && b));
    }
}

#[test]
fn tick_at_the_ends_of_the_range() {
    let mut lifetime = Lifetime::new(u64::MAX);
    assert!(!lifetime.tick(u64::MAX - 1));
    assert_eq!(lifetime.elapsed, u64::MAX - 1);
    assert!(lifetime.tick(u64::MAX));
    assert_eq!(lifetime.elapsed, u64::MAX);
}

#[test]
fn tick_of_a_timer_past_its_duration_clamps_it() {
    let mut lifetime = Lifetime { duration: 5, elapsed: 9, finished: false };
    assert_eq!(lifetime.remaining(), 0);
    assert!(lifetime.tick(0));
    assert_eq!(lifetime, Lifetime { duration: 5, elapsed: 5, finished: true });
}
