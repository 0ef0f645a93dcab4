use acme_dns_rust::limit::{
    fresh, IpRateLimiter, RateLimitState, RegisterLimiter, FULL, IDLE, SECOND, TOKEN,
};
use acme_dns_rust::net::Ip;

#[test]
fn a_burst_of_five_is_admitted_and_no_more() {
    let mut limiter = IpRateLimiter::new();
    let ip = Ip::V4(0x0102_0304);
    for _ in 0..5 {
        assert!(limiter.check(ip, 7 * SECOND));
    }
    assert!(!limiter.check(ip, 7 * SECOND));
    assert!(limiter.check(Ip::V4(0x0102_0305), 7 * SECOND));
    assert!(limiter.check(Ip::V6(0x0102_0304), 7 * SECOND));
}

#[test]
fn a_token_comes_back_after_two_seconds() {
    let mut limiter = IpRateLimiter::new();
    let ip = Ip::V6(1);
    for _ in 0..5 {
        limiter.check(ip, 0);
    }
    assert!(!limiter.check(ip, SECOND));
    assert!(!limiter.check(ip, 2 * SECOND - 1));
    assert!(limiter.check(ip, 2 * SECOND));
    assert!(!limiter.check(ip, 2 * SECOND));
}

#[test]
fn a_bucket_never_holds_more_than_five_tokens() {
    let mut state = RateLimitState { tokens: 0, last_update: 0 };
    assert!(state.take(1000 * SECOND));
    assert_eq!(state, RateLimitState { tokens: FULL - TOKEN, last_update: 1000 * SECOND });
}

#[test]
fn a_clock_that_goes_back_costs_nothing() {
    let mut state = RateLimitState { tokens: TOKEN, last_update: 10 };
    assert!(state.take(5));
    assert_eq!(state, RateLimitState { tokens: 0, last_update: 5 });
}

#[test]
fn forgetting_an_idle_address_changes_no_decision() {
    let ip = Ip::V4(9);
    let mut kept = IpRateLimiter::new();
    let mut evicted = IpRateLimiter::new();
    for _ in 0..6 {
        kept.check(ip, 0);
        evicted.check(ip, 0);
    }
    evicted.evict(IDLE);
    for _ in 0..7 {
        assert_eq!(kept.check(ip, IDLE), evicted.check(ip, IDLE));
    }
}

#[test]
fn an_address_that_is_not_idle_is_not_forgotten() {
    let ip = Ip::V4(9);
    let mut limiter = IpRateLimiter::new();
    for _ in 0..5 {
        limiter.check(ip, 0);
    }
    limiter.evict(1);
    assert!(!limiter.check(ip, 1));
    assert!(fresh(0, IDLE - 1));
    assert!(!fresh(0, IDLE));
    assert!(fresh(10, 5));
}

#[test]
fn registrations_are_spaced_by_the_configured_gap() {
    let mut limiter = RegisterLimiter::new();
    let ip = Ip::V4(1);
    assert!(limiter.allow(1, ip, 0));
    assert!(!limiter.allow(1, ip, 60 * SECOND - 1));
    assert!(limiter.allow(1, ip, 60 * SECOND));
    assert!(limiter.allow(1, Ip::V4(2), 60 * SECOND));
    let mut limiter = RegisterLimiter::new();
    assert!(limiter.allow(4, ip, 0));
    assert!(!limiter.allow(4, ip, 15 * SECOND - 1));
    assert!(limiter.allow(4, ip, 15 * SECOND));
}

#[test]
fn no_or_a_high_limit_admits_every_registration() {
    let mut limiter = RegisterLimiter::new();
    let ip = Ip::V4(1);
    for _ in 0..10 {
        assert!(limiter.allow(0, ip, 5));
        assert!(limiter.allow(61, ip, 5));
    }
    assert!(limiter.allow(1, ip, 5));
}

#[test]
fn a_registration_is_forgotten_after_five_minutes() {
    let mut limiter = RegisterLimiter::new();
    let ip = Ip::V4(1);
    assert!(limiter.allow(1, ip, 0));
    limiter.evict(10 * SECOND);
    assert!(!limiter.allow(1, ip, 10 * SECOND));
    limiter.evict(IDLE);
    assert!(limiter.allow(1, ip, 10 * SECOND));
}
